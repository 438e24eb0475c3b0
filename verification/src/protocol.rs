//! Types shared by the server, its agents and its clients.
use std::collections::BTreeSet;
use vstd::prelude::*;

pub mod agent;
pub mod client;

verus! {

/// A task as an agent announces it: its id, an optional description and a
/// set of tags.
#[derive(Debug, PartialEq, Eq, Clone, Default)]
pub struct Task {
    pub id: String,
    pub description: Option<String>,
    pub tags: BTreeSet<String>,
}

/// The state of an execution. `REJECTED`, `FAILED` and `COMPLETED` are
/// terminal.
#[allow(non_camel_case_types)]
#[derive(Debug, PartialEq, Eq, Structural, Clone, Copy)]
pub enum ExecutionStatus {
    INITIATED,
    REJECTED,
    RUNNING,
    FAILED,
    COMPLETED,
}

impl ExecutionStatus {
    /// Whether no further state follows this one.
    pub open spec fn terminal(self) -> bool {
        self == ExecutionStatus::REJECTED || self == ExecutionStatus::COMPLETED || self
            == ExecutionStatus::FAILED
    }

    /// The status that a process exit code stands for.
    pub open spec fn of_exit_code(exit_code: i32) -> ExecutionStatus {
        if exit_code == 0 {
            ExecutionStatus::COMPLETED
        } else {
            ExecutionStatus::FAILED
        }
    }

    /// Whether the status is terminal (`REJECTED`, `COMPLETED` or `FAILED`).
    pub fn is_terminal(self) -> (res: bool)
        ensures
            res == self.terminal(),
    {
        match self {
            ExecutionStatus::REJECTED | ExecutionStatus::COMPLETED | ExecutionStatus::FAILED => true,
            _ => false,
        }
    }

    /// `COMPLETED` for exit code 0, `FAILED` for any other.
    pub fn from_unix_exit_code(exit_code: i32) -> (res: Self)
        ensures
            res == Self::of_exit_code(exit_code),
            res.terminal(),
            (res == ExecutionStatus::COMPLETED) <==> (exit_code == 0),
            exit_code != 0 ==> res == ExecutionStatus::FAILED,
    {
        if exit_code == 0 {
            ExecutionStatus::COMPLETED
        } else {
            ExecutionStatus::FAILED
        }
    }
}

/// An exit code means success exactly when it is 0: the status for it is
/// `COMPLETED` for 0 and `FAILED` for every other code.
pub proof fn lemma_exit_code_status(exit_code: i32)
    ensures
        (ExecutionStatus::of_exit_code(exit_code) == ExecutionStatus::COMPLETED) <==> (exit_code
            == 0),
        exit_code != 0 ==> ExecutionStatus::of_exit_code(exit_code) == ExecutionStatus::FAILED,
{
}

/// `16` to the power `e`.
pub open spec fn pow16(e: nat) -> nat
    decreases e,
{
    if e == 0 {
        1
    } else {
        16 * pow16((e - 1) as nat)
    }
}

/// The lowercase hexadecimal digit for a value below 16.
pub open spec fn hex_digit(n: nat) -> char {
    if n < 10 {
        (('0' as u32) + n) as char
    } else {
        (('a' as u32) + (n - 10)) as char
    }
}

/// The 32 lowercase hexadecimal digits of a 128-bit value, most significant
/// first.
pub open spec fn hex_digits(v: u128) -> Seq<char> {
    Seq::new(32, |i: int| hex_digit(((v as nat) / pow16((31 - i) as nat)) % 16))
}

/// The hyphenated text of a UUID given by its 128-bit value: its hex digits
/// in groups of 8, 4, 4, 4 and 12, joined by hyphens.
pub open spec fn uuid_text(v: u128) -> Seq<char> {
    let d = hex_digits(v);
    d.subrange(0, 8) + seq!['-'] + d.subrange(8, 12) + seq!['-'] + d.subrange(12, 16) + seq!['-']
        + d.subrange(16, 20) + seq!['-'] + d.subrange(20, 32)
}

/// Calls `uuid::Uuid::from_u128` and its `Display` implementation, which
/// writes the hyphenated lowercase form.
#[verifier::external_body]
pub(crate) fn format_uuid(id: u128) -> (res: String)
    ensures
        res@ == uuid_text(id),
{
    uuid::Uuid::from_u128(id).to_string()
}

/// A task copied field by field; the tags keep their contents.
pub fn copy_task(task: &Task) -> (res: Task)
    ensures
        res.id == task.id,
        res.description == task.description,
        res.tags@ == task.tags@,
{
    Task {
        id: task.id.clone(),
        description: crate::text::copy_opt_string(&task.description),
        tags: task.tags.clone(),
    }
}

/// An execution as an agent tracks it: its id (the 128-bit value of a UUID),
/// its status and the output collected so far.
#[derive(Debug, PartialEq, Clone)]
pub struct Execution {
    pub id: u128,
    pub status: ExecutionStatus,
    pub stdout: String,
}

impl Execution {
    /// A new execution: `INITIATED`, with no output yet.
    pub fn new(id: u128) -> (res: Self)
        ensures
            res.id == id,
            res.status == ExecutionStatus::INITIATED,
            res.stdout@ == Seq::<char>::empty(),
    {
        Execution { id, status: ExecutionStatus::INITIATED, stdout: String::new() }
    }
}

} // verus!
