//! Physical lines of the source bytes: where a line starts, where it ends, and its newline bytes.

use vstd::prelude::*;
use vstd::utf8::{
    is_char_boundary_iff_not_is_continuation_byte, is_char_boundary_start_end_of_seq,
    is_continuation_byte, is_leading_byte_width_1, length_of_first_scalar, pop_first_scalar, valid_first_scalar,
    valid_utf8, valid_utf8_concat, valid_utf8_split,
};

verus! {

/// A byte that ends a physical line: `\r` or `\n`.
pub open spec fn is_newline_byte(b: u8) -> bool {
    b == 13u8 || b == 10u8
}

/// The offset at which the physical line holding `offset` starts: just after the last newline
/// byte before `offset`, or 0 if there is none.
pub open spec fn line_start_at(src: Seq<u8>, offset: int) -> int
    decreases offset,
{
    if offset <= 0 {
        0
    } else if is_newline_byte(src[offset - 1]) {
        offset
    } else {
        line_start_at(src, offset - 1)
    }
}

/// The offset of the first newline byte at or after `offset`, or the length of `src` if there is
/// none.
pub open spec fn line_end_at(src: Seq<u8>, offset: int) -> int
    decreases src.len() - offset,
{
    if offset >= src.len() {
        src.len() as int
    } else if is_newline_byte(src[offset]) {
        offset
    } else {
        line_end_at(src, offset + 1)
    }
}

/// Returns the start of the physical line that holds `offset`.
pub fn line_start(source: &[u8], offset: usize) -> (start: usize)
    requires
        offset <= source@.len(),
    ensures
        start == line_start_at(source@, offset as int),
{
    let mut i = offset;
    while i > 0 && !(source[i - 1] == 13u8 || source[i - 1] == 10u8)
        invariant
            i <= offset <= source@.len(),
            line_start_at(source@, i as int) == line_start_at(source@, offset as int),
        decreases i,
    {
        i = i - 1;
    }
    i
}

/// Returns the offset of the newline byte that ends the physical line holding `offset`, or the
/// length of the source on its last line.
pub fn physical_line_end(source: &[u8], offset: usize) -> (end: usize)
    requires
        offset <= source@.len(),
    ensures
        end == line_end_at(source@, offset as int),
{
    let mut i = offset;
    while i < source.len() && !(source[i] == 13u8 || source[i] == 10u8)
        invariant
            offset <= i <= source@.len(),
            line_end_at(source@, i as int) == line_end_at(source@, offset as int),
        decreases source@.len() - i,
    {
        i = i + 1;
    }
    i
}


/// The newline bytes of `s`, in order.
pub open spec fn newlines_of(s: Seq<u8>) -> Seq<u8>
    decreases s.len(),
{
    if s.len() == 0 {
        Seq::empty()
    } else if is_newline_byte(s.last()) {
        newlines_of(s.drop_last()).push(s.last())
    } else {
        newlines_of(s.drop_last())
    }
}

/// `line_start_at` is the offset just after the last newline byte before `offset`.
pub proof fn lemma_line_start(src: Seq<u8>, offset: int)
    requires
        0 <= offset <= src.len(),
    ensures
        0 <= line_start_at(src, offset) <= offset,
        line_start_at(src, offset) == 0 || is_newline_byte(src[line_start_at(src, offset) - 1]),
        forall|j: int| line_start_at(src, offset) <= j < offset ==> !is_newline_byte(#[trigger] src[j]),
    decreases offset,
{
    if offset > 0 && !is_newline_byte(src[offset - 1]) {
        lemma_line_start(src, offset - 1);
    }
}

/// An offset preceded by a newline byte (or the start), with no newline byte from it up to
/// `offset`, is where the line of `offset` starts.
pub proof fn lemma_line_start_unique(src: Seq<u8>, offset: int, start: int)
    requires
        0 <= start <= offset <= src.len(),
        start == 0 || is_newline_byte(src[start - 1]),
        forall|j: int| start <= j < offset ==> !is_newline_byte(#[trigger] src[j]),
    ensures
        line_start_at(src, offset) == start,
    decreases offset,
{
    if offset > start {
        assert(!is_newline_byte(src[offset - 1]));
        lemma_line_start_unique(src, offset - 1, start);
    }
}

/// Line starts do not decrease with the offset.
pub proof fn lemma_line_start_monotone(src: Seq<u8>, a: int, b: int)
    requires
        0 <= a <= b <= src.len(),
    ensures
        line_start_at(src, a) <= line_start_at(src, b),
    decreases b,
{
    if a < b && !is_newline_byte(src[b - 1]) {
        lemma_line_start_monotone(src, a, b - 1);
    } else if a < b {
        lemma_line_start(src, a);
    }
}

/// After a newline byte at `p`, every line starts past it.
pub proof fn lemma_line_start_after_newline(src: Seq<u8>, p: int, offset: int)
    requires
        0 <= p < offset <= src.len(),
        is_newline_byte(src[p]),
    ensures
        line_start_at(src, offset) >= p + 1,
    decreases offset,
{
    if offset > p + 1 && !is_newline_byte(src[offset - 1]) {
        lemma_line_start_after_newline(src, p, offset - 1);
    }
}

/// A line that holds `offset` ends at or before any newline byte at or after `offset`.
pub proof fn lemma_line_end_before_newline(src: Seq<u8>, offset: int, p: int)
    requires
        0 <= offset <= p < src.len(),
        is_newline_byte(src[p]),
    ensures
        line_end_at(src, offset) <= p,
    decreases p - offset,
{
    if offset < p && !is_newline_byte(src[offset]) {
        lemma_line_end_before_newline(src, offset + 1, p);
    }
}

/// `line_end_at` is the offset of the first newline byte at or after `offset`.
pub proof fn lemma_line_end(src: Seq<u8>, offset: int)
    requires
        0 <= offset <= src.len(),
    ensures
        offset <= line_end_at(src, offset) <= src.len(),
        line_end_at(src, offset) == src.len() || is_newline_byte(src[line_end_at(src, offset)]),
        forall|j: int| offset <= j < line_end_at(src, offset) ==> !is_newline_byte(#[trigger] src[j]),
    decreases src.len() - offset,
{
    if offset < src.len() && !is_newline_byte(src[offset]) {
        lemma_line_end(src, offset + 1);
    }
}

/// The newline bytes of a concatenation are those of its parts.
pub proof fn lemma_newlines_concat(a: Seq<u8>, b: Seq<u8>)
    ensures
        newlines_of(a + b) == newlines_of(a) + newlines_of(b),
    decreases b.len(),
{
    if b.len() == 0 {
        assert(a + b =~= a);
        assert(newlines_of(a) + newlines_of(b) =~= newlines_of(a));
    } else {
        assert((a + b).drop_last() =~= a + b.drop_last());
        assert((a + b).last() == b.last());
        lemma_newlines_concat(a, b.drop_last());
        if is_newline_byte(b.last()) {
            assert(newlines_of(a) + newlines_of(b.drop_last()).push(b.last()) =~= (newlines_of(a)
                + newlines_of(b.drop_last())).push(b.last()));
        }
    }
}

/// A sequence without newline bytes has none to keep.
pub proof fn lemma_newlines_none(s: Seq<u8>)
    requires
        forall|j: int| 0 <= j < s.len() ==> !is_newline_byte(#[trigger] s[j]),
    ensures
        newlines_of(s) == Seq::<u8>::empty(),
    decreases s.len(),
{
    if s.len() > 0 {
        lemma_newlines_none(s.drop_last());
    }
}

/// The newline bytes of a sequence of newline bytes are the sequence itself.
pub proof fn lemma_newlines_idempotent(s: Seq<u8>)
    ensures
        newlines_of(newlines_of(s)) == newlines_of(s),
    decreases s.len(),
{
    if s.len() > 0 {
        lemma_newlines_idempotent(s.drop_last());
        if is_newline_byte(s.last()) {
            let n = newlines_of(s.drop_last()).push(s.last());
            assert(n.drop_last() =~= newlines_of(s.drop_last()));
        }
    }
}

/// The newline bytes of `src[a..c]` are those of `src[a..b]` followed by those of `src[b..c]`.
pub proof fn lemma_newlines_split(src: Seq<u8>, a: int, b: int, c: int)
    requires
        0 <= a <= b <= c <= src.len(),
    ensures
        newlines_of(src.subrange(a, c)) == newlines_of(src.subrange(a, b)) + newlines_of(
            src.subrange(b, c),
        ),
{
    assert(src.subrange(a, c) =~= src.subrange(a, b) + src.subrange(b, c));
    lemma_newlines_concat(src.subrange(a, b), src.subrange(b, c));
}

/// Appends the newline bytes of `source[from..to]` to `output`.
pub fn copy_newlines(output: &mut Vec<u8>, source: &[u8], from: usize, to: usize)
    requires
        from <= to <= source@.len(),
    ensures
        final(output)@ == old(output)@ + newlines_of(source@.subrange(from as int, to as int)),
{
    let mut i = from;
    while i < to
        invariant
            from <= i <= to <= source@.len(),
            output@ == old(output)@ + newlines_of(source@.subrange(from as int, i as int)),
        decreases to - i,
    {
        let byte = source[i];
        assert(source@.subrange(from as int, i + 1).drop_last() =~= source@.subrange(
            from as int,
            i as int,
        ));
        if byte == 13u8 || byte == 10u8 {
            output.push(byte);
        }
        i = i + 1;
    }
}

/// Appends `source[from..to]` to `output`.
pub fn copy_range(output: &mut Vec<u8>, source: &[u8], from: usize, to: usize)
    requires
        from <= to <= source@.len(),
    ensures
        final(output)@ == old(output)@ + source@.subrange(from as int, to as int),
{
    let mut i = from;
    while i < to
        invariant
            from <= i <= to <= source@.len(),
            output@ == old(output)@ + source@.subrange(from as int, i as int),
        decreases to - i,
    {
        output.push(source[i]);
        assert(old(output)@ + source@.subrange(from as int, i + 1) =~= (old(output)@
            + source@.subrange(from as int, i as int)).push(source@[i as int]));
        i = i + 1;
    }
}


/// `offset` is the end of `src` or holds a byte that starts a UTF-8 encoded character.
pub open spec fn at_char_start(src: Seq<u8>, offset: int) -> bool {
    offset == src.len() || (0 <= offset < src.len() && !is_continuation_byte(src[offset]))
}

/// Every byte of `s` is an ASCII byte.
pub open spec fn all_ascii(s: Seq<u8>) -> bool {
    forall|i: int| 0 <= i < s.len() ==> is_leading_byte_width_1(#[trigger] s[i])
}

/// ASCII bytes are valid UTF-8.
pub proof fn lemma_ascii_valid_utf8(s: Seq<u8>)
    requires
        all_ascii(s),
    ensures
        valid_utf8(s),
    decreases s.len(),
{
    if s.len() > 0 {
        let b = s[0];
        assert(b & 0x7fu8 <= 0x7fu8) by (bit_vector);
        let rest = s.subrange(1, s.len() as int);
        assert(pop_first_scalar(s) =~= rest);
        assert(all_ascii(rest)) by {
            assert forall|i: int| 0 <= i < rest.len() implies is_leading_byte_width_1(
                #[trigger] rest[i],
            ) by {
                assert(rest[i] == s[i + 1]);
            }
        }
        lemma_ascii_valid_utf8(rest);
    }
}

/// The newline bytes of a sequence are ASCII.
pub proof fn lemma_newlines_ascii(s: Seq<u8>)
    ensures
        all_ascii(newlines_of(s)),
    decreases s.len(),
{
    if s.len() > 0 {
        lemma_newlines_ascii(s.drop_last());
    }
}

/// Valid UTF-8 starts with a character.
pub proof fn lemma_first_char_start(src: Seq<u8>)
    requires
        valid_utf8(src),
    ensures
        at_char_start(src, 0),
{
}

/// In valid UTF-8, the byte after an ASCII byte starts a character.
pub proof fn lemma_char_start_after_ascii(src: Seq<u8>, i: int)
    requires
        valid_utf8(src),
        0 <= i < src.len(),
        is_leading_byte_width_1(src[i]),
    ensures
        at_char_start(src, i + 1),
    decreases src.len(),
{
    let k = length_of_first_scalar(src);
    let rest = pop_first_scalar(src);
    assert(valid_first_scalar(src) && valid_utf8(rest));
    assert(0 < k <= src.len());
    assert(rest.len() == src.len() - k);
    if i + 1 < src.len() {
        if i < k {
            if i == 0 {
                assert(k == 1);
                assert(rest[0] == src[1]);
                assert(valid_first_scalar(rest));
            } else {
                assert(is_continuation_byte(src[i]));
            }
        } else {
            assert(rest[i - k] == src[i]);
            lemma_char_start_after_ascii(rest, i - k);
            assert(rest[i - k + 1] == src[i + 1]);
        }
    }
}

/// Where a physical line starts, a character starts.
pub proof fn lemma_line_start_char_start(src: Seq<u8>, offset: int)
    requires
        valid_utf8(src),
        0 <= offset <= src.len(),
    ensures
        at_char_start(src, line_start_at(src, offset)),
{
    lemma_line_start(src, offset);
    let start = line_start_at(src, offset);
    if start == 0 {
        lemma_first_char_start(src);
    } else {
        lemma_char_start_after_ascii(src, start - 1);
    }
}

/// Where a physical line ends, a character starts.
pub proof fn lemma_line_end_char_start(src: Seq<u8>, offset: int)
    requires
        0 <= offset <= src.len(),
    ensures
        at_char_start(src, line_end_at(src, offset)),
{
    lemma_line_end(src, offset);
}

/// The bytes between two character starts of valid UTF-8 are valid UTF-8.
pub proof fn lemma_subrange_valid_utf8(src: Seq<u8>, a: int, b: int)
    requires
        valid_utf8(src),
        0 <= a <= b <= src.len(),
        at_char_start(src, a),
        at_char_start(src, b),
    ensures
        valid_utf8(src.subrange(a, b)),
{
    let n = src.len() as int;
    if a < n {
        is_char_boundary_iff_not_is_continuation_byte(src, a);
    } else {
        is_char_boundary_start_end_of_seq(src);
    }
    valid_utf8_split(src, a);
    let tail = src.subrange(a, n);
    if b < n {
        assert(tail[b - a] == src[b]);
        is_char_boundary_iff_not_is_continuation_byte(tail, b - a);
    } else {
        is_char_boundary_start_end_of_seq(tail);
    }
    valid_utf8_split(tail, b - a);
    assert(tail.subrange(0, b - a) =~= src.subrange(a, b));
}

/// Valid UTF-8 followed by valid UTF-8 is valid UTF-8.
pub proof fn lemma_concat_valid_utf8(a: Seq<u8>, b: Seq<u8>)
    requires
        valid_utf8(a),
        valid_utf8(b),
    ensures
        valid_utf8(a + b),
{
    valid_utf8_concat(a, b);
}

} // verus!
