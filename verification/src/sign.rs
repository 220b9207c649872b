//! Signs: four lines of text kept in the buffer of a block.
//!
//! In the buffer each line stands as its UTF-8 bytes, followed by a line
//! break.

use vstd::prelude::*;
use vstd::slice::{slice_subrange, slice_to_vec};
use vstd::string::*;
use vstd::utf8::{
    char_is_scalar, char_u32_cast, decode_utf8, encode_scalar, encode_utf8,
    encode_utf8_decode_utf8, encode_utf8_valid_utf8, last_continuation_byte,
    leading_byte_width_1, leading_byte_width_2, leading_byte_width_3, leading_byte_width_4,
    second_last_continuation_byte, third_last_continuation_byte, valid_utf8,
};
use crate::block::{Error, Result};
use crate::text::decode_text;

verus! {

/// The byte that ends a line.
pub const LINE_BREAK: u8 = 10;

/// The UTF-8 bytes of four lines of text.
pub open spec fn line_bytes(lines: &[&str; 4]) -> Seq<Seq<u8>> {
    Seq::new(4, |k: int| lines@[k].spec_bytes())
}

/// Whether one of the lines holds the character of the line break.
pub open spec fn holds_line_break(lines: &[&str; 4]) -> bool {
    exists|k: int| 0 <= k < 4 && (#[trigger] lines@[k])@.contains('\n')
}

/// Whether no line holds the byte that ends a line.
pub open spec fn break_free(lines: Seq<Seq<u8>>) -> bool {
    forall|k: int| 0 <= k < lines.len() ==> !(#[trigger] lines[k]).contains(10u8)
}

/// The lines one after the other, each followed by a line break.
pub open spec fn joined(lines: Seq<Seq<u8>>) -> Seq<u8>
    decreases lines.len(),
{
    if lines.len() == 0 {
        Seq::empty()
    } else {
        lines[0] + seq![10u8] + joined(lines.skip(1))
    }
}

/// Where the first line break of `bytes` stands, or the length of `bytes`
/// if there is none.
pub open spec fn first_break(bytes: Seq<u8>) -> int
    decreases bytes.len(),
{
    if bytes.len() == 0 || bytes[0] == 10u8 {
        0
    } else {
        1 + first_break(bytes.skip(1))
    }
}

/// The parts into which the line breaks cut `bytes`. There is one part more
/// than there are line breaks: after the last line break stands a last
/// part, which may be empty.
pub open spec fn split_lines(bytes: Seq<u8>) -> Seq<Seq<u8>>
    decreases bytes.len(),
{
    let end = first_break(bytes);
    if 0 <= end < bytes.len() {
        seq![bytes.take(end)] + split_lines(bytes.skip(end + 1))
    } else {
        seq![bytes]
    }
}

/// The first thing that is wrong with the first `k` parts of a buffer: a
/// part that is missing, or one that is not UTF-8.
pub open spec fn first_failure(parts: Seq<Seq<u8>>, k: int) -> Option<Error>
    decreases k,
{
    if k <= 0 {
        None
    } else if first_failure(parts, k - 1) is Some {
        first_failure(parts, k - 1)
    } else if parts.len() < k {
        Some(Error::MissingLines)
    } else if !valid_utf8(parts[k - 1]) {
        Some(Error::InvalidText)
    } else {
        None
    }
}

/// What reading four lines from a buffer that holds `bytes` gives: the
/// first four parts of the buffer as text, or what is wrong with them.
pub open spec fn read_outcome(bytes: Seq<u8>, r: Result<[String; 4]>) -> bool {
    let parts = split_lines(bytes);
    match first_failure(parts, 4) {
        Some(e) => r == Err::<[String; 4], Error>(e),
        None => r matches Ok(lines) && forall|k: int|
            0 <= k < 4 ==> (#[trigger] lines@[k])@ == decode_utf8(parts[k]),
    }
}

/// The first line break stands after `n` bytes that are none, if one
/// stands there at all.
pub proof fn lemma_first_break(bytes: Seq<u8>, n: int)
    requires
        0 <= n <= bytes.len(),
        forall|j: int| 0 <= j < n ==> bytes[j] != 10u8,
        n == bytes.len() || bytes[n] == 10u8,
    ensures
        first_break(bytes) == n,
    decreases n,
{
    if n > 0 {
        lemma_first_break(bytes.skip(1), n - 1);
    }
}

/// Appending a line to the lines appends it, and a line break, to what
/// they are joined to.
pub proof fn lemma_joined_push(lines: Seq<Seq<u8>>, line: Seq<u8>)
    ensures
        joined(lines.push(line)) == joined(lines) + line + seq![10u8],
    decreases lines.len(),
{
    if lines.len() == 0 {
        assert(lines.push(line).skip(1) =~= Seq::<Seq<u8>>::empty());
        assert(joined(lines.push(line).skip(1)) =~= Seq::<u8>::empty());
        assert(joined(lines) =~= Seq::<u8>::empty());
        assert(joined(lines.push(line)) =~= joined(lines) + line + seq![10u8]);
    } else {
        assert(lines.push(line).skip(1) =~= lines.skip(1).push(line));
        lemma_joined_push(lines.skip(1), line);
        assert(joined(lines.push(line)) =~= joined(lines) + line + seq![10u8]);
    }
}

/// Lines without line breaks that are joined and split again come out as
/// they went in, followed by one empty part.
pub proof fn lemma_split_joined(lines: Seq<Seq<u8>>)
    requires
        break_free(lines),
    ensures
        split_lines(joined(lines)) == lines.push(Seq::<u8>::empty()),
    decreases lines.len(),
{
    let bytes = joined(lines);
    if lines.len() == 0 {
        assert(split_lines(bytes) =~= lines.push(Seq::<u8>::empty()));
    } else {
        let rest = lines.skip(1);
        let n = lines[0].len() as int;
        assert(break_free(rest)) by {
            assert forall|k: int| 0 <= k < rest.len() implies !(#[trigger] rest[k]).contains(
                10u8,
            ) by {
                assert(rest[k] == lines[k + 1]);
            }
        }
        lemma_split_joined(rest);
        assert forall|j: int| 0 <= j < n implies bytes[j] != 10u8 by {
            assert(bytes[j] == lines[0][j]);
            assert(lines[0].contains(lines[0][j]));
        }
        assert(bytes[n] == 10u8);
        lemma_first_break(bytes, n);
        assert(bytes.take(n) =~= lines[0]);
        assert(bytes.skip(n + 1) =~= joined(rest));
        assert(split_lines(bytes) =~= lines.push(Seq::<u8>::empty())) by {
            assert(split_lines(bytes) == seq![lines[0]] + rest.push(Seq::<u8>::empty()));
        }
    }
}

/// Four lines of text without line breaks that are written to a buffer are
/// the four lines that are read from it.
pub proof fn lemma_write_then_read(lines: &[&str; 4], r: Result<[String; 4]>)
    requires
        !holds_line_break(lines),
        read_outcome(joined(line_bytes(lines)), r),
    ensures
        r matches Ok(read) && forall|k: int| 0 <= k < 4 ==> (#[trigger] read@[k])@ == lines@[k]@,
{
    let all = line_bytes(lines);
    lemma_break_free_lines(lines);
    lemma_split_joined(all);
    let parts = split_lines(joined(all));
    assert forall|k: int| 0 <= k < 4 implies valid_utf8(#[trigger] parts[k]) && decode_utf8(
        parts[k],
    ) == lines@[k]@ by {
        assert(parts[k] == all[k]);
        encode_utf8_valid_utf8(lines@[k]@);
        encode_utf8_decode_utf8(lines@[k]@);
    }
    reveal_with_fuel(first_failure, 5);
    assert(first_failure(parts, 4) is None);
}

/// Of the bytes that encode a character, only the one byte of a character
/// below 128 can be less than 128.
proof fn lemma_encoded_bytes(v: u32)
    by (bit_vector)
    ensures
        v <= 0x7F ==> leading_byte_width_1(v) == v,
        leading_byte_width_2(v) >= 0x80,
        leading_byte_width_3(v) >= 0x80,
        leading_byte_width_4(v) >= 0x80,
        last_continuation_byte(v) >= 0x80,
        second_last_continuation_byte(v) >= 0x80,
        third_last_continuation_byte(v) >= 0x80,
{
}

/// The UTF-8 bytes of a text hold the byte of the line break exactly if
/// the text holds the character of the line break.
pub proof fn lemma_line_break_is_a_character(text: Seq<char>)
    ensures
        encode_utf8(text).contains(10u8) <==> text.contains('\n'),
    decreases text.len(),
{
    if text.len() > 0 {
        let first = text[0];
        let head = encode_scalar(first as u32);
        let rest = text.drop_first();
        let tail = encode_utf8(rest);
        lemma_line_break_is_a_character(rest);
        lemma_encoded_bytes(first as u32);
        char_is_scalar(first);
        assert(head.contains(10u8) <==> first == '\n') by {
            if first == '\n' {
                assert(head[0] == 10u8);
            }
            if head.contains(10u8) {
                let i = choose|i: int| 0 <= i < head.len() && head[i] == 10u8;
                assert(first as u32 == 10);
                char_u32_cast(first, 10u32);
                char_u32_cast('\n', 10u32);
            }
        }
        assert(encode_utf8(text) == head + tail);
        if encode_utf8(text).contains(10u8) {
            let i = choose|i: int| 0 <= i < (head + tail).len() && (head + tail)[i] == 10u8;
            if i < head.len() {
                assert(head[i] == 10u8);
                assert(text[0] == '\n');
            } else {
                assert(tail[i - head.len()] == 10u8);
                let j = choose|j: int| 0 <= j < rest.len() && rest[j] == '\n';
                assert(text[j + 1] == '\n');
            }
        }
        if text.contains('\n') {
            let j = choose|j: int| 0 <= j < text.len() && text[j] == '\n';
            if j == 0 {
                let i = choose|i: int| 0 <= i < head.len() && head[i] == 10u8;
                assert((head + tail)[i] == 10u8);
            } else {
                assert(rest[j - 1] == '\n');
                let i = choose|i: int| 0 <= i < tail.len() && tail[i] == 10u8;
                assert((head + tail)[head.len() + i] == 10u8);
            }
        }
    }
}

/// Four lines are free of line breaks as bytes exactly if none of them
/// holds the character of the line break.
pub proof fn lemma_break_free_lines(lines: &[&str; 4])
    ensures
        break_free(line_bytes(lines)) <==> !holds_line_break(lines),
{
    let all = line_bytes(lines);
    assert forall|k: int| 0 <= k < 4 implies (all[k].contains(10u8) <==> (
    #[trigger] lines@[k])@.contains('\n')) by {
        lemma_line_break_is_a_character(lines@[k]@);
    }
    if break_free(all) {
        assert forall|k: int| 0 <= k < 4 implies !(#[trigger] lines@[k])@.contains('\n') by {
            assert(!all[k].contains(10u8));
        }
    }
}

/// A view of a block's buffer as the four lines of a sign.
pub struct SignCursor<'a> {
    /// The buffer.
    pub buf: &'a mut Vec<u8>,
}

impl<'a> View for SignCursor<'a> {
    type V = Seq<u8>;

    open spec fn view(&self) -> Seq<u8> {
        (*self.buf)@
    }
}

impl<'a> SignCursor<'a> {
    /// A cursor on `buf`.
    pub fn new(buf: &'a mut Vec<u8>) -> (cursor: SignCursor<'a>)
        ensures
            cursor@ == old(buf)@,
            *final(buf) == *final(cursor.buf),
    {
        SignCursor { buf }
    }

    /// Replaces the content of the buffer by `lines`, each encoded as UTF-8
    /// and followed by a line break.
    ///
    /// A line that holds a line break could not be told from two lines when
    /// the buffer is read: such lines are refused, and the buffer stays as
    /// it is.
    pub fn write_lines(&mut self, lines: &[&str; 4]) -> (r: Result<()>)
        ensures
            holds_line_break(lines) ==> r == Err::<(), Error>(Error::LineBreakInLine)
                && final(self)@ == old(self)@,
            !holds_line_break(lines) ==> r is Ok && final(self)@ == joined(line_bytes(lines)),
            *final(final(self).buf) == *final(old(self).buf),
    {
        proof {
            lemma_break_free_lines(lines);
        }
        let mut k: usize = 0;
        while k < 4
            invariant
                k <= 4,
                break_free(line_bytes(lines)) <==> !holds_line_break(lines),
                forall|j: int| 0 <= j < k ==> !(#[trigger] line_bytes(lines)[j]).contains(10u8),
            decreases 4 - k,
        {
            if has_break(lines[k].as_bytes()) {
                assert(line_bytes(lines)[k as int].contains(10u8));
                return Err(Error::LineBreakInLine);
            }
            k += 1;
        }
        let mut out: Vec<u8> = Vec::new();
        k = 0;
        assert(line_bytes(lines).take(0) =~= Seq::<Seq<u8>>::empty());
        while k < 4
            invariant
                k <= 4,
                out@ == joined(line_bytes(lines).take(k as int)),
            decreases 4 - k,
        {
            let bytes = lines[k].as_bytes();
            let ghost before = out@;
            out.extend_from_slice(bytes);
            out.push(LINE_BREAK);
            proof {
                let all = line_bytes(lines);
                assert(all.take(k + 1) =~= all.take(k as int).push(bytes@));
                lemma_joined_push(all.take(k as int), bytes@);
                assert(out@ =~= before + bytes@ + seq![10u8]);
            }
            k += 1;
        }
        assert(line_bytes(lines).take(4) =~= line_bytes(lines));
        *self.buf = out;
        Ok(())
    }

    /// Reads the four lines: the first four of the parts into which the
    /// line breaks cut the buffer. A buffer with fewer parts is malformed,
    /// and so is one in which one of these parts is not UTF-8; what comes
    /// after the fourth part is not looked at.
    pub fn read_lines(&self) -> (r: Result<[String; 4]>)
        ensures
            read_outcome(self@, r),
    {
        let bytes: &[u8] = self.buf.as_slice();
        let ghost parts = split_lines(bytes@);
        proof {
            reveal_with_fuel(first_failure, 5);
            assert(bytes@.skip(0) =~= bytes@);
        }
        let (first, from) = match read_part(bytes, Some(0)) {
            Ok(found) => found,
            Err(e) => {
                return Err(e);
            },
        };
        let (second, from) = match read_part(bytes, from) {
            Ok(found) => found,
            Err(e) => {
                return Err(e);
            },
        };
        let (third, from) = match read_part(bytes, from) {
            Ok(found) => found,
            Err(e) => {
                return Err(e);
            },
        };
        let (fourth, _) = match read_part(bytes, from) {
            Ok(found) => found,
            Err(e) => {
                return Err(e);
            },
        };
        let lines: [String; 4] = [first, second, third, fourth];
        Ok(lines)
    }
}

/// The parts of `bytes` that are still to be read when the next part
/// starts at `from`; none where nothing is left.
pub open spec fn parts_from(bytes: Seq<u8>, from: Option<usize>) -> Seq<Seq<u8>> {
    match from {
        Some(start) => split_lines(bytes.skip(start as int)),
        None => Seq::empty(),
    }
}

/// Reads the part that starts at `from` and says where the next starts.
fn read_part(bytes: &[u8], from: Option<usize>) -> (r: Result<(String, Option<usize>)>)
    requires
        from matches Some(start) ==> start <= bytes@.len(),
    ensures
        match r {
            Ok((text, next)) => {
                &&& parts_from(bytes@, from).len() > 0
                &&& valid_utf8(parts_from(bytes@, from)[0])
                &&& text@ == decode_utf8(parts_from(bytes@, from)[0])
                &&& parts_from(bytes@, next) == parts_from(bytes@, from).skip(1)
                &&& next matches Some(start) ==> start <= bytes@.len()
            },
            Err(e) => {
                if parts_from(bytes@, from).len() == 0 {
                    e == Error::MissingLines
                } else {
                    e == Error::InvalidText && !valid_utf8(parts_from(bytes@, from)[0])
                }
            },
        },
{
    let start: usize = match from {
        Some(start) => start,
        None => {
            return Err(Error::MissingLines);
        },
    };
    let ghost rest = bytes@.skip(start as int);
    let mut end: usize = start;
    while end < bytes.len() && bytes[end] != LINE_BREAK
        invariant
            start <= end <= bytes@.len(),
            forall|j: int| start <= j < end ==> bytes@[j] != 10u8,
        decreases bytes@.len() - end,
    {
        end += 1;
    }
    proof {
        lemma_first_break(rest, end - start);
        assert(rest.take(end - start) =~= bytes@.subrange(start as int, end as int));
        if end < bytes@.len() {
            assert(rest.skip(end - start + 1) =~= bytes@.skip(end + 1));
        } else {
            assert(rest =~= bytes@.subrange(start as int, end as int));
            assert(split_lines(rest).skip(1) =~= Seq::<Seq<u8>>::empty());
        }
        assert(split_lines(rest)[0] == bytes@.subrange(start as int, end as int));
    }
    let next: Option<usize> = if end < bytes.len() {
        Some(end + 1)
    } else {
        None
    };
    assert(parts_from(bytes@, next) =~= split_lines(rest).skip(1));
    match decode_text(slice_to_vec(slice_subrange(bytes, start, end))) {
        Some(text) => Ok((text, next)),
        None => Err(Error::InvalidText),
    }
}

/// Whether `bytes` hold a line break.
fn has_break(bytes: &[u8]) -> (b: bool)
    ensures
        b == bytes@.contains(10u8),
{
    let mut i: usize = 0;
    while i < bytes.len()
        invariant
            i <= bytes@.len(),
            forall|j: int| 0 <= j < i ==> bytes@[j] != 10u8,
        decreases bytes@.len() - i,
    {
        if bytes[i] == LINE_BREAK {
            return true;
        }
        i += 1;
    }
    false
}

} // verus!
