//! Buffering a byte stream into lines.
use crate::text::decode_utf8_bytes;
use vstd::prelude::*;
use vstd::utf8::*;

verus! {

/// The newline byte.
pub const NEWLINE: u8 = 10;

/// Whether `i` is the position of the first newline in `b`.
pub open spec fn is_first_newline(b: Seq<u8>, i: int) -> bool {
    &&& 0 <= i < b.len()
    &&& b[i] == NEWLINE
    &&& forall|k: int| 0 <= k < i ==> b[k] != NEWLINE
}

/// Whether `b` holds a newline.
pub open spec fn has_newline(b: Seq<u8>) -> bool {
    exists|i: int| 0 <= i < b.len() && b[i] == NEWLINE
}

/// The position of the first newline in `b`, if it holds one.
pub open spec fn first_newline(b: Seq<u8>) -> Option<int> {
    if exists|i: int| is_first_newline(b, i) {
        Some(choose|i: int| is_first_newline(b, i))
    } else {
        None
    }
}

/// An error while splitting lines: a line that is not valid UTF-8.
#[derive(Debug, PartialEq, Eq, Structural, Clone, Copy)]
pub enum LinesError {
    InvalidUtf8,
}

/// `lines` in front of the lines of `rest`, or the error of `rest`.
pub open spec fn prepend_lines(
    lines: Seq<Seq<char>>,
    rest: Result<Seq<Seq<char>>, LinesError>,
) -> Result<Seq<Seq<char>>, LinesError> {
    match rest {
        Ok(more) => Ok(lines + more),
        Err(e) => Err(e),
    }
}

/// What taking every complete line out of buffer `b` gives: the decoded lines
/// (or the error at the first line that is not valid UTF-8), and the bytes
/// left in the buffer. An invalid line stays in the buffer, with all that
/// follows it.
pub open spec fn take_lines(b: Seq<u8>) -> (Result<Seq<Seq<char>>, LinesError>, Seq<u8>)
    decreases b.len(),
{
    match first_newline(b) {
        None => (Ok(Seq::empty()), b),
        Some(p) => {
            if 0 <= p < b.len() && valid_utf8(b.take(p)) {
                let rest = take_lines(b.skip(p + 1));
                (prepend_lines(seq![decode_utf8(b.take(p))], rest.0), rest.1)
            } else {
                (Err(LinesError::InvalidUtf8), b)
            }
        }
    }
}

/// A buffer that accepts bytes and hands out the complete lines in them,
/// without their newline; an incomplete last line waits for more bytes.
pub struct Lines {
    buffer: Vec<u8>,
}

impl Lines {
    /// The bytes that wait for the rest of their line.
    pub closed spec fn pending(self) -> Seq<u8> {
        self.buffer@
    }

    /// An empty buffer.
    pub fn new() -> (res: Self)
        ensures
            res.pending() == Seq::<u8>::empty(),
    {
        Lines { buffer: Vec::new() }
    }

    /// Takes the first complete line out of the buffer. `None` where there is
    /// none; an error, with the buffer left as it was, where that line is not
    /// valid UTF-8.
    pub fn take_next_line(&mut self) -> (res: Result<Option<String>, LinesError>)
        ensures
            match first_newline(old(self).pending()) {
                None => res == Ok::<Option<String>, LinesError>(None) && final(self).pending()
                    == old(self).pending(),
                Some(p) => if valid_utf8(old(self).pending().take(p)) {
                    &&& res matches Ok(Some(line))
                    &&& line@ == decode_utf8(old(self).pending().take(p))
                    &&& final(self).pending() == old(self).pending().skip(p + 1)
                } else {
                    &&& res == Err::<Option<String>, LinesError>(LinesError::InvalidUtf8)
                    &&& final(self).pending() == old(self).pending()
                },
            },
    {
        let n = self.buffer.len();
        let mut i: usize = 0;
        while i < n && self.buffer[i] != NEWLINE
            invariant
                n == self.buffer@.len(),
                i <= n,
                forall|k: int| 0 <= k < i ==> self.buffer@[k] != NEWLINE,
            decreases n - i,
        {
            i = i + 1;
        }
        if i == n {
            assert(!exists|j: int| is_first_newline(self.buffer@, j));
            return Ok(None);
        }
        assert(is_first_newline(self.buffer@, i as int));
        assert(forall|j: int| is_first_newline(self.buffer@, j) ==> j == i);
        let mut line_bytes: Vec<u8> = Vec::new();
        let mut k: usize = 0;
        while k < i
            invariant
                i < n == self.buffer@.len(),
                k <= i,
                line_bytes@ == self.buffer@.take(k as int),
            decreases i - k,
        {
            line_bytes.push(self.buffer[k]);
            assert(line_bytes@ =~= self.buffer@.take(k as int + 1));
            k = k + 1;
        }
        match decode_utf8_bytes(line_bytes.as_slice()) {
            None => Err(LinesError::InvalidUtf8),
            Some(line) => {
                let mut tail: Vec<u8> = Vec::new();
                let mut j: usize = i + 1;
                while j < n
                    invariant
                        i < n == self.buffer@.len(),
                        i + 1 <= j <= n,
                        tail@ == self.buffer@.subrange(i + 1, j as int),
                    decreases n - j,
                {
                    tail.push(self.buffer[j]);
                    assert(tail@ =~= self.buffer@.subrange(i + 1, j + 1));
                    j = j + 1;
                }
                assert(tail@ =~= self.buffer@.skip(i + 1));
                self.buffer = tail;
                Ok(Some(line))
            },
        }
    }

    /// Appends `bytes` to the buffer and takes every complete line out of it,
    /// in order. At a line that is not valid UTF-8 it stops with an error:
    /// the lines before it are gone from the buffer, that line and the rest
    /// stay.
    pub fn feed(&mut self, bytes: &[u8]) -> (res: Result<Vec<String>, LinesError>)
        ensures
            ({
                let outcome = take_lines(old(self).pending() + bytes@);
                &&& final(self).pending() == outcome.1
                &&& match outcome.0 {
                    Ok(lines) => res matches Ok(v) && crate::text::views(v@) == lines,
                    Err(e) => res == Err::<Vec<String>, LinesError>(e),
                }
            }),
    {
        let ghost start = self.buffer@ + bytes@;
        let mut i: usize = 0;
        while i < bytes.len()
            invariant
                i <= bytes@.len(),
                self.buffer@ == old(self).pending() + bytes@.take(i as int),
            decreases bytes@.len() - i,
        {
            self.buffer.push(bytes[i]);
            assert(old(self).pending() + bytes@.take(i as int + 1) =~= (old(self).pending()
                + bytes@.take(i as int)).push(bytes@[i as int]));
            i = i + 1;
        }
        assert(bytes@.take(bytes@.len() as int) =~= bytes@);
        let mut lines: Vec<String> = Vec::new();
        loop
            invariant
                start == old(self).pending() + bytes@,
                take_lines(start).1 == take_lines(self.buffer@).1,
                take_lines(start).0 == prepend_lines(
                    crate::text::views(lines@),
                    take_lines(self.buffer@).0,
                ),
            decreases self.buffer@.len(),
        {
            let ghost before = self.buffer@;
            match self.take_next_line() {
                Ok(Some(line)) => {
                    proof {
                        let p = first_newline(before)->0;
                        assert(self.buffer@.len() < before.len());
                        let rest = take_lines(self.buffer@);
                        assert(take_lines(before).1 == rest.1);
                        assert(take_lines(before).0 == prepend_lines(seq![line@], rest.0));
                        assert(crate::text::views(lines@.push(line)) =~= crate::text::views(lines@)
                            + seq![line@]);
                        match rest.0 {
                            Ok(more) => {
                                assert(crate::text::views(lines@) + (seq![line@] + more)
                                    =~= crate::text::views(lines@.push(line)) + more);
                            },
                            Err(e) => {},
                        }
                    }
                    lines.push(line);
                },
                Ok(None) => {
                    assert(take_lines(self.buffer@).0 == Ok::<Seq<Seq<char>>, LinesError>(
                        Seq::empty(),
                    ));
                    assert(crate::text::views(lines@) + Seq::empty() =~= crate::text::views(
                        lines@,
                    ));
                    return Ok(lines);
                },
                Err(e) => {
                    return Err(e);
                },
            }
        }
    }
}

/// Lines put back together: each line's UTF-8 bytes followed by a newline.
pub open spec fn join_lines(lines: Seq<Seq<char>>) -> Seq<u8>
    decreases lines.len(),
{
    if lines.len() == 0 {
        Seq::empty()
    } else {
        encode_utf8(lines[0]) + seq![NEWLINE] + join_lines(lines.drop_first())
    }
}

/// A newline byte has a first position.
proof fn lemma_first_newline_exists(b: Seq<u8>, k: int)
    requires
        0 <= k < b.len(),
        b[k] == NEWLINE,
    ensures
        first_newline(b) is Some,
    decreases k,
{
    if exists|m: int| 0 <= m < k && b[m] == NEWLINE {
        let m = choose|m: int| 0 <= m < k && b[m] == NEWLINE;
        lemma_first_newline_exists(b, m);
    } else {
        assert(is_first_newline(b, k));
    }
}

/// A newline char is encoded as a newline byte.
proof fn lemma_newline_char_encoded(s: Seq<char>, i: int)
    requires
        0 <= i < s.len(),
        s[i] == '\n',
    ensures
        exists|k: int| 0 <= k < encode_utf8(s).len() && encode_utf8(s)[k] == NEWLINE,
    decreases i,
{
    let head = encode_scalar(s[0] as u32);
    let tail = encode_utf8(s.drop_first());
    assert(encode_utf8(s) == head + tail);
    if i == 0 {
        assert(('\n' as u32) == 10u32);
        assert((10u32 & 0x7F) as u8 == 10u8) by (bit_vector);
        assert(head[0] == NEWLINE);
        assert(encode_utf8(s)[0] == NEWLINE);
    } else {
        lemma_newline_char_encoded(s.drop_first(), i - 1);
        let k = choose|k: int| 0 <= k < tail.len() && tail[k] == NEWLINE;
        assert(encode_utf8(s)[head.len() + k] == NEWLINE);
    }
}

/// Taking lines out of a buffer loses nothing: where every line is valid
/// UTF-8, the lines, each followed by a newline, and the bytes left pending
/// make up the buffer; no line holds a newline, and no newline is left
/// pending.
pub proof fn lemma_take_lines_reassembles(b: Seq<u8>)
    ensures
        take_lines(b).0 matches Ok(lines) ==> {
            &&& b == join_lines(lines) + take_lines(b).1
            &&& !has_newline(take_lines(b).1)
            &&& forall|j: int, i: int|
                0 <= j < lines.len() && 0 <= i < lines[j].len() ==> #[trigger] lines[j][i] != '\n'
        },
    decreases b.len(),
{
    match first_newline(b) {
        None => {
            assert(!exists|i: int| is_first_newline(b, i));
            if has_newline(b) {
                let k = choose|k: int| 0 <= k < b.len() && b[k] == NEWLINE;
                lemma_first_newline_exists(b, k);
            }
            assert(b =~= join_lines(Seq::empty()) + b);
        },
        Some(p) => {
            assert(is_first_newline(b, p));
            if valid_utf8(b.take(p)) {
                let line = decode_utf8(b.take(p));
                let rest = take_lines(b.skip(p + 1));
                lemma_take_lines_reassembles(b.skip(p + 1));
                decode_utf8_encode_utf8(b.take(p));
                match rest.0 {
                    Ok(more) => {
                        let lines = seq![line] + more;
                        assert(lines[0] == line);
                        assert(lines.drop_first() =~= more);
                        assert(b =~= b.take(p) + seq![NEWLINE] + b.skip(p + 1));
                        assert(b =~= join_lines(lines) + rest.1);
                        assert forall|j: int, i: int|
                            0 <= j < lines.len() && 0 <= i < lines[j].len() implies #[trigger] lines[j][i]
                            != '\n' by {
                            if j == 0 {
                                if line[i] == '\n' {
                                    lemma_newline_char_encoded(line, i);
                                    let k = choose|k: int|
                                        0 <= k < encode_utf8(line).len() && encode_utf8(line)[k]
                                            == NEWLINE;
                                    assert(b.take(p)[k] == NEWLINE);
                                    assert(b[k] == NEWLINE);
                                }
                            } else {
                                assert(lines[j] == more[j - 1]);
                            }
                        }
                    },
                    Err(_) => {},
                }
            }
        },
    }
}

/// The first newline of a buffer stays the first newline when more bytes
/// are appended.
proof fn lemma_first_newline_extends(x: Seq<u8>, y: Seq<u8>, p: int)
    requires
        first_newline(x) == Some(p),
    ensures
        first_newline(x + y) == Some(p),
        is_first_newline(x, p),
{
    assert(is_first_newline(x, p));
    let xy = x + y;
    assert(is_first_newline(xy, p));
    assert forall|j: int| is_first_newline(xy, j) implies j == p by {
        if j < p {
            assert(x[j] == xy[j]);
        } else if j > p {
            assert(xy[p] == NEWLINE);
        }
    }
}

/// Splitting a byte stream into lines does not depend on where the chunks
/// end: where the bytes `x` that came first split into lines without error,
/// taking lines out of `x` followed by `y` gives those lines, then the lines
/// of what `x` left pending followed by `y`, and leaves what that leaves.
pub proof fn lemma_take_lines_chunks(x: Seq<u8>, y: Seq<u8>)
    requires
        take_lines(x).0 is Ok,
    ensures
        take_lines(x + y) == (
            prepend_lines(take_lines(x).0->Ok_0, take_lines(take_lines(x).1 + y).0),
            take_lines(take_lines(x).1 + y).1,
        ),
    decreases x.len(),
{
    match first_newline(x) {
        None => {
            let t = take_lines(x + y);
            match t.0 {
                Ok(more) => {
                    assert(Seq::<Seq<char>>::empty() + more =~= more);
                },
                Err(_) => {},
            }
        },
        Some(p) => {
            lemma_first_newline_extends(x, y, p);
            let xy = x + y;
            assert(xy.take(p) =~= x.take(p));
            assert(xy.skip(p + 1) =~= x.skip(p + 1) + y);
            let line = decode_utf8(x.take(p));
            let rest = take_lines(x.skip(p + 1));
            lemma_take_lines_chunks(x.skip(p + 1), y);
            let more = rest.0->Ok_0;
            let t = take_lines(rest.1 + y);
            match t.0 {
                Ok(tail) => {
                    assert(seq![line] + (more + tail) =~= (seq![line] + more) + tail);
                },
                Err(_) => {},
            }
        },
    }
}

} // verus!
