//! Describing a chain of errors, one line per cause.
use vstd::prelude::*;

verus! {

#[verifier::external_type_specification]
#[verifier::external_body]
pub struct ExAnyhowError(anyhow::Error);

/// The line that describes the cause at `index` of an error chain.
pub open spec fn chain_line(index: int, message: Seq<char>) -> Seq<char> {
    if index == 0 {
        message + "\n"@
    } else {
        "Caused by: "@ + message + "\n"@
    }
}

/// The description of a chain of error messages: the first on a line of its
/// own, every further one prefixed by `Caused by: `.
pub open spec fn chain_description(messages: Seq<Seq<char>>) -> Seq<char>
    decreases messages.len(),
{
    if messages.len() == 0 {
        Seq::empty()
    } else {
        chain_description(messages.drop_last()) + chain_line(
            messages.len() - 1,
            messages.last(),
        )
    }
}

/// The views of a vector of strings.
pub open spec fn string_views(v: Seq<String>) -> Seq<Seq<char>> {
    v.map_values(|s: String| s@)
}

/// Describes a chain of error messages, outermost first.
pub fn describe_error_chain(messages: &Vec<String>) -> (res: String)
    ensures
        res@ == chain_description(string_views(messages@)),
{
    let mut description = String::new();
    let mut i: usize = 0;
    while i < messages.len()
        invariant
            i <= messages.len(),
            description@ == chain_description(string_views(messages@).take(i as int)),
        decreases messages.len() - i,
    {
        proof {
            let taken = string_views(messages@).take(i as int + 1);
            assert(taken.drop_last() =~= string_views(messages@).take(i as int));
        }
        if i == 0 {
            description.append(messages[i].as_str());
            description.append("\n");
        } else {
            description.append("Caused by: ");
            description.append(messages[i].as_str());
            description.append("\n");
        }
        i = i + 1;
    }
    assert(string_views(messages@).take(messages.len() as int) =~= string_views(messages@));
    description
}

/// The messages of an error's chain: the error itself, then each cause
/// beneath it, each as its `Display` implementation renders it.
pub uninterp spec fn error_messages(error: anyhow::Error) -> Seq<Seq<char>>;

/// Calls `anyhow::Error::chain` and renders each cause with its `Display`
/// implementation: the messages are those of the error's chain, which always
/// begins with the error itself, so there is at least one.
#[verifier::external_body]
fn error_chain_messages(error: &anyhow::Error) -> (res: Vec<String>)
    ensures
        string_views(res@) == error_messages(*error),
        res.len() >= 1,
{
    error.chain().map(|cause| cause.to_string()).collect()
}

/// Calls `std::io::Write::write_all` on standard error, where the
/// application's logger writes, and gives back the text handed over; a
/// failure to write is ignored.
#[verifier::external_body]
fn write_to_stderr(text: &str) -> (res: Ghost<Seq<char>>)
    ensures
        res@ == text@,
{
    let _ = std::io::Write::write_all(&mut std::io::stderr(), text.as_bytes());
    Ghost(text@)
}

/// Describes the error and every cause beneath it, one line each.
pub fn format_error_chain(error: &anyhow::Error) -> (res: String)
    ensures
        res@ == chain_description(error_messages(*error)),
        error_messages(*error).len() >= 1,
{
    let messages = error_chain_messages(error);
    describe_error_chain(&messages)
}

/// Reports an error together with its chain of causes by writing their
/// description straight to standard error (not as a record of a logger);
/// gives back the text written.
pub fn log_errors(error: &anyhow::Error) -> (written: Ghost<Seq<char>>)
    ensures
        written@ == chain_description(error_messages(*error)),
{
    let description = format_error_chain(error);
    write_to_stderr(description.as_str())
}

} // verus!
