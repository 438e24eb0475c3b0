//! Server-sent events: framing an event as text, and reading events back
//! from a byte stream.
use crate::lines::{take_lines, Lines, LinesError};
use crate::text::{has_prefix, is_white_space, opt_view, skip_chars, starts_with, trim, trimmed, views};
use crate::lines::{
    first_newline, is_first_newline, lemma_take_lines_chunks, prepend_lines, NEWLINE,
};
use tokio::sync::mpsc::{UnboundedReceiver, UnboundedSender};
use vstd::prelude::*;
use vstd::utf8::*;

verus! {

/// A server-sent event: its optional name (field `event`) and its content
/// (field `data`).
pub type SseEvent = (Option<String>, String);

/// The view of an event.
pub open spec fn event_view(e: SseEvent) -> (Option<Seq<char>>, Seq<char>) {
    (opt_view(e.0), e.1@)
}

/// The prefix of a line that names the event.
pub const EVENT_FIELD: &'static str = "event:";

/// The prefix of a line that carries the event's content.
pub const DATA_FIELD: &'static str = "data:";

/// The event name after an event line, where `line` is one.
pub open spec fn name_after(line: Seq<char>, name: Option<Seq<char>>) -> Option<Seq<char>> {
    if has_prefix(line, EVENT_FIELD@) {
        Some(trimmed(line.skip(EVENT_FIELD@.len() as int)))
    } else {
        name
    }
}

/// Reading lines for the next event, with `name` the event name seen so far:
/// the event at the first data line, if there is one, and the event name
/// after the lines read. An event line sets the name; a data line ends the
/// event; the lines after it are not looked at.
pub open spec fn scan_lines(lines: Seq<Seq<char>>, name: Option<Seq<char>>) -> (
    Option<(Option<Seq<char>>, Seq<char>)>,
    Option<Seq<char>>,
)
    decreases lines.len(),
{
    if lines.len() == 0 {
        (None, name)
    } else {
        let line = lines[0];
        let name2 = name_after(line, name);
        if has_prefix(line, DATA_FIELD@) {
            (Some((name2, trimmed(line.skip(DATA_FIELD@.len() as int)))), name2)
        } else {
            scan_lines(lines.drop_first(), name2)
        }
    }
}

/// What reading a chunk gives, from the bytes pending in the buffer and the
/// event name seen so far: the event, if a data line was reached (or the
/// error of a line that is not UTF-8), the bytes left pending and the event
/// name after the lines read.
pub open spec fn read_chunk(pending: Seq<u8>, chunk: Seq<u8>, name: Option<Seq<char>>) -> (
    Result<Option<(Option<Seq<char>>, Seq<char>)>, LinesError>,
    Seq<u8>,
    Option<Seq<char>>,
) {
    let taken = take_lines(pending + chunk);
    match taken.0 {
        Err(e) => (Err(e), taken.1, name),
        Ok(lines) => {
            let scanned = scan_lines(lines, name);
            (Ok(scanned.0), taken.1, scanned.1)
        },
    }
}

/// Scanning lines that hold no data line, then more lines, scans the more
/// lines with the event name the first ones left.
proof fn lemma_scan_lines_concat(
    first: Seq<Seq<char>>,
    more: Seq<Seq<char>>,
    name: Option<Seq<char>>,
)
    requires
        scan_lines(first, name).0 is None,
    ensures
        scan_lines(first + more, name) == scan_lines(more, scan_lines(first, name).1),
    decreases first.len(),
{
    if first.len() == 0 {
        assert(first + more =~= more);
    } else {
        let all = first + more;
        assert(all[0] == first[0]);
        assert(all.drop_first() =~= first.drop_first() + more);
        lemma_scan_lines_concat(first.drop_first(), more, name_after(first[0], name));
    }
}

/// Where a stream is cut in two chunks and the first completes no event,
/// reading the second after the first gives what reading both at once gives:
/// the same event or error, the same bytes pending, and, where no line is
/// invalid, the same event name.
pub proof fn lemma_read_chunk_split(
    pending: Seq<u8>,
    a: Seq<u8>,
    b: Seq<u8>,
    name: Option<Seq<char>>,
)
    requires
        read_chunk(pending, a, name).0 == Ok::<
            Option<(Option<Seq<char>>, Seq<char>)>,
            LinesError,
        >(None),
    ensures
        ({
            let first = read_chunk(pending, a, name);
            let second = read_chunk(first.1, b, first.2);
            let whole = read_chunk(pending, a + b, name);
            &&& whole.0 == second.0
            &&& whole.1 == second.1
            &&& whole.0 is Ok ==> whole.2 == second.2
        }),
{
    let x = pending + a;
    let l1 = take_lines(x).0->Ok_0;
    lemma_take_lines_chunks(x, b);
    assert(pending + (a + b) =~= x + b);
    let t = take_lines(take_lines(x).1 + b);
    match t.0 {
        Ok(l2) => {
            lemma_scan_lines_concat(l1, l2, name);
        },
        Err(_) => {},
    }
}

/// Reads decoded lines for the next event, given the event name seen so far.
/// Returns the event at the first data line, if any; `event_name` ends as
/// the name after the lines read.
pub fn scan_event_lines(lines: &Vec<String>, event_name: &mut Option<String>) -> (res: Option<
    SseEvent,
>)
    ensures
        ({
            let scanned = scan_lines(views(lines@), opt_view(*old(event_name)));
            &&& opt_view(*final(event_name)) == scanned.1
            &&& match scanned.0 {
                None => res is None,
                Some(e) => res matches Some(r) && event_view(r) == e,
            }
        }),
{
    let mut i: usize = 0;
    assert(views(lines@).skip(0) =~= views(lines@));
    while i < lines.len()
        invariant
            i <= lines.len(),
            scan_lines(views(lines@), opt_view(*old(event_name))) == scan_lines(
                views(lines@).skip(i as int),
                opt_view(*event_name),
            ),
        decreases lines.len() - i,
    {
        let line = lines[i].as_str();
        assert(views(lines@).skip(i as int)[0] == line@);
        assert(views(lines@).skip(i as int).drop_first() =~= views(lines@).skip(i as int + 1));
        if starts_with(line, EVENT_FIELD) {
            let name = skip_chars(line, EVENT_FIELD.unicode_len());
            *event_name = Some(trim(name.as_str()));
        }
        if starts_with(line, DATA_FIELD) {
            let data = skip_chars(line, DATA_FIELD.unicode_len());
            let name = crate::text::copy_opt_string(event_name);
            return Some((name, trim(data.as_str())));
        }
        i = i + 1;
    }
    None
}

/// Reads server-sent events from a byte stream that arrives in chunks.
pub struct SseReader {
    lines: Lines,
}

impl SseReader {
    /// The bytes that wait for the rest of their line.
    pub closed spec fn pending(self) -> Seq<u8> {
        self.lines.pending()
    }

    /// A reader with nothing pending.
    pub fn new() -> (res: Self)
        ensures
            res.pending() == Seq::<u8>::empty(),
    {
        SseReader { lines: Lines::new() }
    }

    /// Reads the next chunk of the stream, given the event name seen so far
    /// while waiting for this event. Returns the event once a data line is
    /// reached, `None` where the chunk holds none; `event_name` ends as the
    /// name after the lines read. Lines after a data line in the same chunk
    /// are dropped.
    pub fn next_event_in_chunk(&mut self, chunk: &[u8], event_name: &mut Option<String>) -> (res:
        Result<Option<SseEvent>, LinesError>)
        ensures
            ({
                let outcome = read_chunk(old(self).pending(), chunk@, opt_view(*old(event_name)));
                &&& final(self).pending() == outcome.1
                &&& opt_view(*final(event_name)) == outcome.2
                &&& match outcome.0 {
                    Err(e) => res == Err::<Option<SseEvent>, LinesError>(e),
                    Ok(None) => res == Ok::<Option<SseEvent>, LinesError>(None),
                    Ok(Some(e)) => res matches Ok(Some(r)) && event_view(r) == e,
                }
            }),
    {
        match self.lines.feed(chunk) {
            Err(e) => Err(e),
            Ok(lines) => Ok(scan_event_lines(&lines, event_name)),
        }
    }
}

/// The text of an event on the stream: an `event:` line where it has a name,
/// a `data:` line, and an empty line that ends the event.
pub open spec fn frame_text(name: Option<Seq<char>>, data: Seq<char>) -> Seq<char> {
    match name {
        Some(n) => "event:"@ + n + "\n"@ + "data:"@ + data + "\n\n"@,
        None => "data:"@ + data + "\n\n"@,
    }
}

/// The parts in which an event is written to the stream, in order: an
/// `event:` field with the name and its newline where it has a name, then a
/// `data:` field with the content and the empty line that ends the event.
pub open spec fn event_parts(name: Option<Seq<char>>, data: Seq<char>) -> Seq<Seq<char>> {
    match name {
        Some(n) => seq!["event:"@, n, "\n"@, "data:"@, data, "\n\n"@],
        None => seq!["data:"@, data, "\n\n"@],
    }
}

/// Whether `trace`, the texts handed to a stream one after another with
/// whether each was accepted, is how writing `parts` went: the parts in
/// order, each accepted but possibly the last, up to the first that was
/// refused; `delivered` tells whether every part was accepted.
pub open spec fn handed_parts(
    trace: Seq<(Seq<char>, bool)>,
    parts: Seq<Seq<char>>,
    delivered: bool,
) -> bool {
    &&& 1 <= trace.len() <= parts.len()
    &&& forall|k: int| 0 <= k < trace.len() ==> (#[trigger] trace[k]).0 == parts[k]
    &&& forall|k: int| 0 <= k < trace.len() - 1 ==> (#[trigger] trace[k]).1
    &&& trace.last().1 == delivered
    &&& delivered ==> trace.len() == parts.len()
}

/// The parts in which an event is written to the stream, in order.
pub fn frame_parts(event: &SseEvent) -> (res: Vec<String>)
    ensures
        views(res@) == event_parts(opt_view(event.0), event.1@),
        views(res@).flatten() == frame_text(opt_view(event.0), event.1@),
{
    let mut parts: Vec<String> = Vec::new();
    if let Some(name) = &event.0 {
        parts.push("event:".to_string());
        parts.push(name.clone());
        parts.push("\n".to_string());
    }
    parts.push("data:".to_string());
    parts.push(event.1.clone());
    parts.push("\n\n".to_string());
    assert(views(parts@) =~= (match event.0 {
        Some(n) => seq!["event:"@, n@, "\n"@, "data:"@, event.1@, "\n\n"@],
        None => seq!["data:"@, event.1@, "\n\n"@],
    }));
    proof {
        reveal_with_fuel(Seq::<Seq<char>>::flatten, 7);
        let v = views(parts@);
        match &event.0 {
            Some(n) => {
                assert(v.drop_first().drop_first().drop_first().drop_first().drop_first().drop_first()
                    =~= Seq::<Seq<char>>::empty());
            },
            None => {
                assert(v.drop_first().drop_first().drop_first() =~= Seq::<Seq<char>>::empty());
            },
        }
        assert(v.flatten() =~= frame_text(opt_view(event.0), event.1@));
    }
    parts
}

/// Whether `s` holds no newline char.
pub open spec fn no_newline_char(s: Seq<char>) -> bool {
    forall|i: int| 0 <= i < s.len() ==> s[i] != '\n'
}

/// Encoding a concatenation encodes each part.
pub proof fn lemma_encode_concat(a: Seq<char>, b: Seq<char>)
    ensures
        encode_utf8(a + b) == encode_utf8(a) + encode_utf8(b),
    decreases a.len(),
{
    if a.len() == 0 {
        assert(a + b =~= b);
    } else {
        assert((a + b).drop_first() =~= a.drop_first() + b);
        lemma_encode_concat(a.drop_first(), b);
        assert(encode_utf8(a + b) =~= encode_utf8(a) + encode_utf8(b));
    }
}

/// The bytes of a char other than the newline are never the newline byte.
proof fn lemma_scalar_not_newline(c: char)
    requires
        c != '\n',
    ensures
        forall|k: int|
            0 <= k < encode_scalar(c as u32).len() ==> #[trigger] encode_scalar(c as u32)[k]
                != NEWLINE,
{
    let v = c as u32;
    char_is_scalar(c);
    char_u32_cast(c, v);
    assert(v != 10u32);
    assert(forall|x: u32| #![auto] (0x80u8 | (x & 0x3F) as u8) != 10u8) by (bit_vector);
    assert(forall|x: u32| #![auto] (0x80u8 | ((x >> 6u32) & 0x3F) as u8) != 10u8) by (bit_vector);
    assert(forall|x: u32| #![auto] (0x80u8 | ((x >> 12u32) & 0x3F) as u8) != 10u8) by (bit_vector);
    assert(forall|x: u32| #![auto] (0xC0u8 | ((x >> 6u32) & 0x1F) as u8) != 10u8) by (bit_vector);
    assert(forall|x: u32| #![auto] (0xE0u8 | ((x >> 12u32) & 0x0F) as u8) != 10u8) by (bit_vector);
    assert(forall|x: u32| #![auto] (0xF0u8 | ((x >> 18u32) & 0x7) as u8) != 10u8) by (bit_vector);
    assert(forall|x: u32| #![auto] x <= 0x7F && x != 10 ==> (x & 0x7F) as u8 != 10u8) by (bit_vector);
}

/// The encoding of text without newline chars holds no newline byte.
pub proof fn lemma_no_newline_byte(s: Seq<char>)
    requires
        no_newline_char(s),
    ensures
        forall|k: int| 0 <= k < encode_utf8(s).len() ==> #[trigger] encode_utf8(s)[k] != NEWLINE,
    decreases s.len(),
{
    if s.len() > 0 {
        lemma_scalar_not_newline(s[0]);
        assert(no_newline_char(s.drop_first()));
        lemma_no_newline_byte(s.drop_first());
        let head = encode_scalar(s[0] as u32);
        let tail = encode_utf8(s.drop_first());
        assert forall|k: int| 0 <= k < encode_utf8(s).len() implies encode_utf8(s)[k] != NEWLINE by {
            if k < head.len() {
                assert(encode_utf8(s)[k] == head[k]);
            } else {
                assert(encode_utf8(s)[k] == tail[k - head.len()]);
            }
        }
    }
}

/// The newline char is the newline byte.
proof fn lemma_encode_newline()
    ensures
        encode_utf8(seq!['\n']) == seq![NEWLINE],
{
    assert(seq!['\n'].drop_first() =~= Seq::<char>::empty());
    assert(('\n' as u32) == 10u32);
    assert((10u32 & 0x7F) as u8 == 10u8) by (bit_vector);
    assert(encode_scalar(10u32) =~= seq![NEWLINE]);
    let s = seq!['\n'];
    assert(s[0] == '\n');
    assert(encode_utf8(s.drop_first()) =~= Seq::<u8>::empty());
    assert(encode_utf8(s) == encode_scalar(s[0] as u32) + encode_utf8(s.drop_first()));
    assert(encode_utf8(s) =~= seq![NEWLINE]);
}

/// Taking lines out of a buffer that begins with a line of text without
/// newline chars, and its newline, gives that line first.
pub proof fn lemma_take_encoded_line(line: Seq<char>, rest: Seq<u8>)
    requires
        no_newline_char(line),
    ensures
        ({
            let b = encode_utf8(line) + seq![NEWLINE] + rest;
            take_lines(b) == (prepend_lines(seq![line], take_lines(rest).0), take_lines(rest).1)
        }),
{
    let e = encode_utf8(line);
    let b = e + seq![NEWLINE] + rest;
    lemma_no_newline_byte(line);
    let p = e.len() as int;
    assert(is_first_newline(b, p));
    assert(forall|j: int| is_first_newline(b, j) ==> j == p);
    assert(first_newline(b) == Some(p));
    assert(b.take(p) =~= e);
    assert(b.skip(p + 1) =~= rest);
    encode_utf8_valid_utf8(line);
    encode_utf8_decode_utf8(line);
}

/// Text without newline chars, followed by a newline, as bytes.
pub open spec fn encoded_line(line: Seq<char>) -> Seq<u8> {
    encode_utf8(line) + seq![NEWLINE]
}

/// Encoding a line, its newline and what follows.
proof fn lemma_encode_line_then(line: Seq<char>, rest: Seq<char>)
    ensures
        encode_utf8(line + seq!['\n'] + rest) == encoded_line(line) + encode_utf8(rest),
{
    lemma_encode_newline();
    lemma_encode_concat(line + seq!['\n'], rest);
    lemma_encode_concat(line, seq!['\n']);
}

/// The text of an event with `sep` after each field name.
pub open spec fn framed_with(sep: Seq<char>, name: Option<Seq<char>>, data: Seq<char>) -> Seq<
    char,
> {
    match name {
        Some(n) => "event:"@ + sep + n + "\n"@ + "data:"@ + sep + data + "\n\n"@,
        None => "data:"@ + sep + data + "\n\n"@,
    }
}

/// Reading back, from a fresh stream, an event framed with a separator that
/// trimming removes gives the event back and leaves nothing pending.
#[verifier::rlimit(40)]
proof fn lemma_framed_round_trip(sep: Seq<char>, name: Option<Seq<char>>, data: Seq<char>)
    requires
        no_newline_char(sep),
        no_newline_char(data),
        trimmed(sep + data) == data,
        name matches Some(n) ==> no_newline_char(n) && trimmed(sep + n) == n,
    ensures
        read_chunk(Seq::empty(), encode_utf8(framed_with(sep, name, data)), None).0 == Ok::<
            Option<(Option<Seq<char>>, Seq<char>)>,
            LinesError,
        >(Some((name, data))),
        read_chunk(Seq::empty(), encode_utf8(framed_with(sep, name, data)), None).1 == Seq::<
            u8,
        >::empty(),
{
    reveal_strlit("event:");
    reveal_strlit("data:");
    reveal_strlit("\n");
    reveal_strlit("\n\n");
    lemma_encode_newline();
    let data_line = "data:"@ + sep + data;
    let empty = Seq::<char>::empty();
    assert(no_newline_char(data_line)) by {
        assert forall|i: int| 0 <= i < data_line.len() implies data_line[i] != '\n' by {
            if i >= 5 + sep.len() {
                assert(data_line[i] == data[i - 5 - sep.len()]);
            } else if i >= 5 {
                assert(data_line[i] == sep[i - 5]);
            }
        }
    }
    assert(no_newline_char(empty));
    assert(take_lines(Seq::<u8>::empty()) == (
        Ok::<Seq<Seq<char>>, LinesError>(Seq::empty()),
        Seq::<u8>::empty(),
    )) by {
        assert(!exists|i: int| is_first_newline(Seq::<u8>::empty(), i));
    }
    let tail_text = data_line + seq!['\n'] + empty + seq!['\n'] + empty;
    lemma_encode_line_then(empty, empty);
    assert(encode_utf8(empty) =~= Seq::<u8>::empty());
    assert(empty + seq!['\n'] + empty =~= seq!['\n']);
    lemma_encode_line_then(data_line, empty + seq!['\n'] + empty);
    assert(tail_text =~= data_line + seq!['\n'] + (empty + seq!['\n'] + empty));
    let tail_bytes = encode_utf8(tail_text);
    assert(tail_bytes =~= encode_utf8(data_line) + seq![NEWLINE] + encoded_line(empty));
    lemma_take_encoded_line(empty, Seq::empty());
    assert(encoded_line(empty) =~= encode_utf8(empty) + seq![NEWLINE] + Seq::<u8>::empty());
    lemma_take_encoded_line(data_line, encoded_line(empty));
    let lines_tail = seq![data_line, empty];
    assert(take_lines(tail_bytes).0 == Ok::<Seq<Seq<char>>, LinesError>(lines_tail)) by {
        assert(seq![data_line] + (seq![empty] + Seq::<Seq<char>>::empty()) =~= lines_tail);
    }
    assert(take_lines(tail_bytes).1 == Seq::<u8>::empty());
    assert(data_line.skip(5) =~= sep + data);
    assert(!has_prefix(data_line, "event:"@)) by {
        if data_line.len() >= 6 {
            assert(data_line.subrange(0, 6)[0] == 'd');
        }
    }
    assert(has_prefix(data_line, "data:"@)) by {
        assert(data_line.subrange(0, 5) =~= "data:"@);
    }
    assert(lines_tail[0] == data_line);
    assert(scan_lines(lines_tail, name) == (Some((name, data)), name));
    match name {
        Some(n) => {
            let event_line = "event:"@ + sep + n;
            assert(no_newline_char(event_line)) by {
                assert forall|i: int| 0 <= i < event_line.len() implies event_line[i] != '\n' by {
                    if i >= 6 + sep.len() {
                        assert(event_line[i] == n[i - 6 - sep.len()]);
                    } else if i >= 6 {
                        assert(event_line[i] == sep[i - 6]);
                    }
                }
            }
            let text = framed_with(sep, name, data);
            assert(text =~= event_line + seq!['\n'] + tail_text);
            lemma_encode_line_then(event_line, tail_text);
            let bytes = encode_utf8(text);
            assert(bytes =~= encode_utf8(event_line) + seq![NEWLINE] + tail_bytes);
            lemma_take_encoded_line(event_line, tail_bytes);
            let all_lines = seq![event_line, data_line, empty];
            assert(take_lines(bytes).0 == Ok::<Seq<Seq<char>>, LinesError>(all_lines)) by {
                assert(seq![event_line] + lines_tail =~= all_lines);
            }
            assert(take_lines(bytes).1 == Seq::<u8>::empty());
            assert(has_prefix(event_line, "event:"@)) by {
                assert(event_line.subrange(0, 6) =~= "event:"@);
            }
            assert(!has_prefix(event_line, "data:"@)) by {
                assert(event_line.subrange(0, 5)[0] == 'e');
            }
            assert(event_line.skip(6) =~= sep + n);
            assert(all_lines.drop_first() =~= lines_tail);
            assert(all_lines[0] == event_line);
            assert(name_after(event_line, None) == Some(n));
            assert(scan_lines(all_lines, None) == scan_lines(lines_tail, Some(n)));
            assert(Seq::<u8>::empty() + bytes =~= bytes);
        },
        None => {
            let text = framed_with(sep, name, data);
            assert(text =~= tail_text);
            assert(Seq::<u8>::empty() + tail_bytes =~= tail_bytes);
        },
    }
}

/// Reading back an event that was framed and sent on a fresh stream gives
/// the event back, and leaves nothing pending: the name and the content, each
/// without newline chars and without surrounding white space, come back as
/// they were sent.
pub proof fn lemma_frame_round_trip(name: Option<Seq<char>>, data: Seq<char>)
    requires
        no_newline_char(data),
        trimmed(data) == data,
        name matches Some(n) ==> no_newline_char(n) && trimmed(n) == n,
    ensures
        read_chunk(Seq::empty(), encode_utf8(frame_text(name, data)), None).0 == Ok::<
            Option<(Option<Seq<char>>, Seq<char>)>,
            LinesError,
        >(Some((name, data))),
        read_chunk(Seq::empty(), encode_utf8(frame_text(name, data)), None).1 == Seq::<
            u8,
        >::empty(),
{
    let empty = Seq::<char>::empty();
    assert(empty + data =~= data);
    if let Some(n) = name {
        assert(empty + n =~= n);
    }
    assert(no_newline_char(empty));
    lemma_framed_round_trip(empty, name, data);
    assert(framed_with(empty, name, data) =~= frame_text(name, data));
}

/// Reading chunks one after another, each read starting a new event: what
/// each read gives, in order.
pub open spec fn read_chunks(pending: Seq<u8>, chunks: Seq<Seq<u8>>) -> Seq<
    Result<Option<(Option<Seq<char>>, Seq<char>)>, LinesError>,
>
    decreases chunks.len(),
{
    if chunks.len() == 0 {
        Seq::empty()
    } else {
        let first = read_chunk(pending, chunks[0], None);
        seq![first.0] + read_chunks(first.1, chunks.drop_first())
    }
}

/// Whether an event can be read back as it was sent: its name and content
/// hold no newline and no surrounding white space.
pub open spec fn plain_event(e: (Option<Seq<char>>, Seq<char>)) -> bool {
    &&& no_newline_char(e.1)
    &&& trimmed(e.1) == e.1
    &&& e.0 matches Some(n) ==> no_newline_char(n) && trimmed(n) == n
}

/// The chunks in which the server writes events, one event per chunk.
pub open spec fn event_chunks(events: Seq<(Option<Seq<char>>, Seq<char>)>) -> Seq<Seq<u8>> {
    events.map_values(|e: (Option<Seq<char>>, Seq<char>)| encode_utf8(frame_text(e.0, e.1)))
}

/// A stream of events written one per chunk reads back as the same events,
/// in the same order.
pub proof fn lemma_events_read_in_order(events: Seq<(Option<Seq<char>>, Seq<char>)>)
    requires
        forall|k: int| 0 <= k < events.len() ==> plain_event(#[trigger] events[k]),
    ensures
        read_chunks(Seq::empty(), event_chunks(events)) == events.map_values(
            |e: (Option<Seq<char>>, Seq<char>)|
                Ok::<Option<(Option<Seq<char>>, Seq<char>)>, LinesError>(Some(e)),
        ),
    decreases events.len(),
{
    let f = |e: (Option<Seq<char>>, Seq<char>)|
        Ok::<Option<(Option<Seq<char>>, Seq<char>)>, LinesError>(Some(e));
    if events.len() == 0 {
        assert(events.map_values(f) =~= Seq::empty());
    } else {
        let e = events[0];
        assert(plain_event(events[0]));
        lemma_frame_round_trip(e.0, e.1);
        let rest = events.drop_first();
        assert forall|k: int| 0 <= k < rest.len() implies plain_event(#[trigger] rest[k]) by {
            assert(rest[k] == events[k + 1]);
        }
        lemma_events_read_in_order(rest);
        assert(event_chunks(events).drop_first() =~= event_chunks(rest));
        assert(event_chunks(events)[0] == encode_utf8(frame_text(e.0, e.1)));
        assert(events.map_values(f) =~= seq![f(e)] + rest.map_values(f));
    }
}

/// Trimming text that begins with a space trims the rest.
proof fn lemma_trim_after_space(s: Seq<char>)
    ensures
        trimmed(seq![' '] + s) == trimmed(s),
{
    let t = seq![' '] + s;
    assert(t[0] == ' ');
    assert(is_white_space(' '));
    assert(t.drop_first() =~= s);
}

/// The text of an event as the broker writes it: like `frame_text`, with a
/// space after each field name.
pub open spec fn broker_frame_text(name: Option<Seq<char>>, data: Seq<char>) -> Seq<char> {
    match name {
        Some(n) => "event: "@ + n + "\n"@ + "data: "@ + data + "\n\n"@,
        None => "data: "@ + data + "\n\n"@,
    }
}

/// Reading back an event that the broker framed, from a fresh stream, gives
/// the event back and leaves nothing pending: the space after each field name
/// is trimmed away with the rest of the surrounding white space.
pub proof fn lemma_broker_frame_round_trip(name: Option<Seq<char>>, data: Seq<char>)
    requires
        no_newline_char(data),
        trimmed(data) == data,
        name matches Some(n) ==> no_newline_char(n) && trimmed(n) == n,
    ensures
        read_chunk(Seq::empty(), encode_utf8(broker_frame_text(name, data)), None).0 == Ok::<
            Option<(Option<Seq<char>>, Seq<char>)>,
            LinesError,
        >(Some((name, data))),
        read_chunk(Seq::empty(), encode_utf8(broker_frame_text(name, data)), None).1 == Seq::<
            u8,
        >::empty(),
{
    reveal_strlit("event:");
    reveal_strlit("data:");
    reveal_strlit("event: ");
    reveal_strlit("data: ");
    reveal_strlit(" ");
    let sep = " "@;
    assert(sep =~= seq![' ']);
    lemma_trim_after_space(data);
    if let Some(n) = name {
        lemma_trim_after_space(n);
    }
    assert(no_newline_char(sep));
    lemma_framed_round_trip(sep, name, data);
    assert("event: "@ =~= "event:"@ + sep);
    assert("data: "@ =~= "data:"@ + sep);
    assert(framed_with(sep, name, data) =~= broker_frame_text(name, data));
}

#[verifier::external_type_specification]
#[verifier::external_body]
#[verifier::reject_recursive_types(T)]
pub struct ExTokioUnboundedSender<T>(UnboundedSender<T>);

#[verifier::external_type_specification]
#[verifier::external_body]
#[verifier::reject_recursive_types(T)]
pub struct ExTokioUnboundedReceiver<T>(UnboundedReceiver<T>);

/// Calls `tokio::sync::mpsc::unbounded_channel`, which opens a channel.
#[verifier::external_body]
fn tokio_channel() -> (res: (
    UnboundedSender<crate::server::StreamItem>,
    UnboundedReceiver<crate::server::StreamItem>,
)) {
    tokio::sync::mpsc::unbounded_channel()
}

/// Calls `tokio::sync::mpsc::UnboundedSender::send` with the text's bytes,
/// and gives back with the outcome the text that was handed over. It fails
/// when the receiving end is gone, which the other side decides, so nothing
/// is stated of the outcome.
#[verifier::external_body]
fn tokio_send(client: &UnboundedSender<crate::server::StreamItem>, text: &String) -> (res: (
    bool,
    Ghost<Seq<char>>,
))
    ensures
        res.1@ == text@,
{
    (client.send(Ok(bytes::Bytes::from(text.clone()))).is_ok(), Ghost(text@))
}

/// The parts in which the broker writes an event: like `event_parts`, with
/// a space after each field name.
pub open spec fn broker_event_parts(name: Option<Seq<char>>, data: Seq<char>) -> Seq<Seq<char>> {
    match name {
        Some(n) => seq!["event: "@, n, "\n"@, "data: "@, data, "\n\n"@],
        None => seq!["data: "@, data, "\n\n"@],
    }
}

/// The parts in which the broker writes an event: like `frame_parts`, with a
/// space after each field name.
pub fn broker_frame_parts(event: &SseEvent) -> (res: Vec<String>)
    ensures
        views(res@) == broker_event_parts(opt_view(event.0), event.1@),
        views(res@).flatten() == broker_frame_text(opt_view(event.0), event.1@),
{
    let mut parts: Vec<String> = Vec::new();
    if let Some(name) = &event.0 {
        parts.push("event: ".to_string());
        parts.push(name.clone());
        parts.push("\n".to_string());
    }
    parts.push("data: ".to_string());
    parts.push(event.1.clone());
    parts.push("\n\n".to_string());
    assert(views(parts@) =~= (match event.0 {
        Some(n) => seq!["event: "@, n@, "\n"@, "data: "@, event.1@, "\n\n"@],
        None => seq!["data: "@, event.1@, "\n\n"@],
    }));
    proof {
        reveal_with_fuel(Seq::<Seq<char>>::flatten, 7);
        let v = views(parts@);
        match &event.0 {
            Some(n) => {
                assert(v.drop_first().drop_first().drop_first().drop_first().drop_first().drop_first()
                    =~= Seq::<Seq<char>>::empty());
            },
            None => {
                assert(v.drop_first().drop_first().drop_first() =~= Seq::<Seq<char>>::empty());
            },
        }
        assert(v.flatten() =~= broker_frame_text(opt_view(event.0), event.1@));
    }
    parts
}

/// Whether each write of an event was delivered, from the outcomes of the
/// writes.
pub open spec fn delivery_flags(outcomes: Seq<(bool, Seq<(Seq<char>, bool)>)>) -> Seq<bool> {
    outcomes.map_values(|o: (bool, Seq<(Seq<char>, bool)>)| o.0)
}

/// Hands server-sent events to every subscribed client.
pub struct SseBroker {
    clients: Vec<UnboundedSender<crate::server::StreamItem>>,
}

impl SseBroker {
    /// The subscribed clients, in order.
    pub closed spec fn clients(self) -> Seq<UnboundedSender<crate::server::StreamItem>> {
        self.clients@
    }

    /// A broker without clients.
    pub fn new() -> (res: Self)
        ensures
            res.clients().len() == 0,
    {
        SseBroker { clients: Vec::new() }
    }

    /// Opens a channel; the broker keeps no part of it.
    pub fn new_channel(&mut self) -> (res: (
        UnboundedSender<crate::server::StreamItem>,
        UnboundedReceiver<crate::server::StreamItem>,
    ))
        ensures
            final(self).clients() == old(self).clients(),
    {
        tokio_channel()
    }

    /// Subscribes a new client; returns the receiving end of its stream.
    pub fn subscribe(&mut self) -> (res: UnboundedReceiver<crate::server::StreamItem>)
        ensures
            final(self).clients().len() == old(self).clients().len() + 1,
            final(self).clients().take(old(self).clients().len() as int) == old(self).clients(),
    {
        let (tx, rx) = self.new_channel();
        self.clients.push(tx);
        assert(self.clients@.take(old(self).clients@.len() as int) =~= old(self).clients@);
        rx
    }

    /// Writes one piece of text to a client: whether it was delivered, and
    /// the text handed over.
    pub fn send(client: &UnboundedSender<crate::server::StreamItem>, data: &String) -> (res: (bool, Ghost<Seq<char>>))
        ensures
            res.1@ == data@,
    {
        tokio_send(client, data)
    }

    /// Writes an event to a client, part by part, stopping at the first part
    /// that cannot be delivered: whether every part was, and the texts handed
    /// over with whether each was accepted.
    pub fn send_client(client: &UnboundedSender<crate::server::StreamItem>, event: &SseEvent) -> (res: (bool, Ghost<Seq<(Seq<char>, bool)>>))
        ensures
            handed_parts(res.1@, broker_event_parts(opt_view(event.0), event.1@), res.0),
    {
        let parts = broker_frame_parts(event);
        let ghost expected = broker_event_parts(opt_view(event.0), event.1@);
        let ghost mut trace: Seq<(Seq<char>, bool)> = Seq::empty();
        let mut i: usize = 0;
        while i < parts.len()
            invariant
                i <= parts.len(),
                views(parts@) == expected,
                expected == broker_event_parts(opt_view(event.0), event.1@),
                trace.len() == i,
                forall|k: int| 0 <= k < i ==> (#[trigger] trace[k]).0 == expected[k] && trace[k].1,
            decreases parts.len() - i,
        {
            let (ok, Ghost(text)) = Self::send(client, &parts[i]);
            proof {
                let before = trace;
                trace = trace.push((text, ok));
                assert forall|k: int| 0 <= k < i implies (#[trigger] trace[k]).0 == expected[k]
                    && trace[k].1 by {
                    assert(trace[k] == before[k]);
                }
                assert(trace[i as int] == (text, ok));
            }
            if !ok {
                return (false, Ghost(trace));
            }
            i = i + 1;
        }
        (true, Ghost(trace))
    }

    /// Writes the event to every client and drops the clients that could not
    /// be reached. Gives back, for each client, whether the event was
    /// delivered and the texts handed over.
    pub fn notify_all(&mut self, event: &SseEvent) -> (res: Ghost<Seq<(bool, Seq<(Seq<char>, bool)>)>>)
        ensures
            res@.len() == old(self).clients().len(),
            forall|j: int|
                0 <= j < res@.len() ==> handed_parts(
                    (#[trigger] res@[j]).1,
                    broker_event_parts(opt_view(event.0), event.1@),
                    res@[j].0,
                ),
            final(self).clients() == crate::server::keep_where(
                old(self).clients(),
                delivery_flags(res@),
            ),
    {
        let ghost original = self.clients@;
        let ghost mut outcomes: Seq<(bool, Seq<(Seq<char>, bool)>)> = Seq::empty();
        let mut delivered: Vec<bool> = Vec::new();
        let mut i: usize = 0;
        while i < self.clients.len()
            invariant
                i <= self.clients.len(),
                delivered.len() == i,
                self.clients@ == original,
                outcomes.len() == i,
                delivered@ == delivery_flags(outcomes),
                forall|j: int|
                    0 <= j < i ==> handed_parts(
                        (#[trigger] outcomes[j]).1,
                        broker_event_parts(opt_view(event.0), event.1@),
                        outcomes[j].0,
                    ),
            decreases self.clients.len() - i,
        {
            let (ok, Ghost(trace)) = Self::send_client(&self.clients[i], event);
            delivered.push(ok);
            proof {
                outcomes = outcomes.push((ok, trace));
                assert(delivered@ =~= delivery_flags(outcomes));
            }
            i = i + 1;
        }
        let mut rest: Vec<UnboundedSender<crate::server::StreamItem>> = Vec::new();
        std::mem::swap(&mut rest, &mut self.clients);
        let n = rest.len();
        let mut k: usize = 0;
        while k < n
            invariant
                n == original.len() == delivered.len(),
                k <= n,
                rest@ == original.skip(k as int),
                self.clients@ == crate::server::keep_where(original.take(k as int), delivered@),
            decreases n - k,
        {
            let client = rest.remove(0);
            assert(rest@ =~= original.skip(k as int + 1));
            assert(original.take(k as int + 1).drop_last() =~= original.take(k as int));
            if delivered[k] {
                self.clients.push(client);
            }
            k = k + 1;
        }
        assert(original.take(n as int) =~= original);
        assert(crate::server::keep_where(old(self).clients(), delivered@) == self.clients@);
        Ghost(outcomes)
    }
}

} // verus!
