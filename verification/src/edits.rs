//! Rewriting the source: each pruned implementation becomes `pass`, physical lines are kept.

use crate::body::BodyEdit;
use crate::text::{
    at_char_start, copy_newlines, copy_range, is_newline_byte, lemma_line_end, lemma_line_start,
    lemma_newlines_concat, lemma_newlines_idempotent, lemma_newlines_none, lemma_newlines_split,
    line_end_at, line_start, line_start_at, newlines_of, physical_line_end, all_ascii,
    lemma_ascii_valid_utf8, lemma_concat_valid_utf8, lemma_line_end_char_start,
    lemma_line_start_char_start, lemma_line_start_unique, lemma_newlines_ascii, lemma_subrange_valid_utf8,
};
use vstd::string::StringSliceAdditionalSpecFns;
use vstd::utf8::{decode_utf8, decode_utf8_encode_utf8, encode_utf8, encode_utf8_valid_utf8, valid_utf8};
use vstd::prelude::*;

verus! {

/// The bytes of `pass`.
pub open spec fn pass_bytes() -> Seq<u8> {
    seq![112u8, 97u8, 115u8, 115u8]
}

/// Space, tab or form feed: the bytes that may indent a line.
pub open spec fn is_blank_byte(b: u8) -> bool {
    b == 32u8 || b == 9u8 || b == 12u8
}

/// Every byte of `s` is blank.
pub open spec fn all_blank(s: Seq<u8>) -> bool {
    forall|i: int| 0 <= i < s.len() ==> is_blank_byte(#[trigger] s[i])
}

/// An inline suite, or one whose implementation starts and ends on the same physical line, is
/// replaced in place by `pass`.
pub open spec fn replaces_at_start(src: Seq<u8>, edit: BodyEdit) -> bool {
    edit.inline || line_start_at(src, edit.start as int) == line_start_at(src, edit.end as int)
}

/// Where the removed text starts: at the implementation, or at the start of its line when only
/// indentation precedes it there.
pub open spec fn removal_start(src: Seq<u8>, edit: BodyEdit) -> int {
    if replaces_at_start(src, edit) {
        edit.start as int
    } else {
        let line = line_start_at(src, edit.start as int);
        if all_blank(src.subrange(line, edit.start as int)) {
            line
        } else {
            edit.start as int
        }
    }
}

/// The text that replaces `src[copied..]` up to the end of the edit's last line: the source up to
/// the implementation, then `pass` followed by the newline bytes of the removed lines (in place),
/// or the newline bytes of the removed lines, the first statement's indentation and `pass` (so
/// that `pass` stays on the implementation's last line).
pub open spec fn edit_text(src: Seq<u8>, copied: int, edit: BodyEdit) -> Seq<u8> {
    if replaces_at_start(src, edit) {
        src.subrange(copied, edit.start as int) + pass_bytes() + newlines_of(
            src.subrange(edit.start as int, line_end_at(src, edit.end as int)),
        )
    } else {
        let removal = removal_start(src, edit);
        src.subrange(copied, removal) + newlines_of(
            src.subrange(removal, line_start_at(src, edit.end as int)),
        ) + src.subrange(edit.indent_start as int, edit.indent_end as int) + pass_bytes()
    }
}

/// How far the source has been consumed once the first `n` edits are applied.
pub open spec fn copied_before(src: Seq<u8>, edits: Seq<BodyEdit>, n: int) -> int {
    if n <= 0 {
        0
    } else {
        line_end_at(src, edits[n - 1].end as int)
    }
}

/// The output once the first `n` edits are applied.
pub open spec fn emitted(src: Seq<u8>, edits: Seq<BodyEdit>, n: int) -> Seq<u8>
    decreases n,
{
    if n <= 0 {
        Seq::empty()
    } else {
        emitted(src, edits, n - 1) + edit_text(src, copied_before(src, edits, n - 1), edits[n - 1])
    }
}

/// The source with every edit applied, in order.
pub open spec fn pruned_bytes(src: Seq<u8>, edits: Seq<BodyEdit>) -> Seq<u8> {
    emitted(src, edits, edits.len() as int) + src.subrange(
        copied_before(src, edits, edits.len() as int),
        src.len() as int,
    )
}

/// An edit can be applied after the source has been consumed up to `copied`: its ranges lie in
/// the source, the removed text starts at or after `copied`, and the implementation and the
/// indentation range start and end on character boundaries.
pub open spec fn edit_fits(src: Seq<u8>, copied: int, edit: BodyEdit) -> bool {
    &&& edit.start <= edit.end <= src.len()
    &&& edit.indent_start <= edit.indent_end <= src.len()
    &&& copied <= removal_start(src, edit)
    &&& at_char_start(src, edit.start as int)
    &&& at_char_start(src, edit.indent_start as int)
    &&& at_char_start(src, edit.indent_end as int)
}

/// Each edit's indentation range runs from the start of its line to its first statement, so it
/// holds no newline byte.
pub open spec fn indents_start_lines(src: Seq<u8>, edits: Seq<BodyEdit>) -> bool {
    forall|i: int|
        0 <= i < edits.len() ==> (#[trigger] edits[i]).indent_start == line_start_at(
            src,
            edits[i].indent_end as int,
        )
}

/// Every edit fits after the ones before it.
pub open spec fn edits_fit(src: Seq<u8>, edits: Seq<BodyEdit>) -> bool {
    forall|i: int|
        0 <= i < edits.len() ==> edit_fits(src, copied_before(src, edits, i), #[trigger] edits[i])
}

/// Returns whether `source[from..to]` is only blanks.
pub fn is_blank_range(source: &[u8], from: usize, to: usize) -> (blank: bool)
    requires
        from <= to <= source@.len(),
    ensures
        blank == all_blank(source@.subrange(from as int, to as int)),
{
    let mut i = from;
    while i < to
        invariant
            from <= i <= to <= source@.len(),
            all_blank(source@.subrange(from as int, i as int)),
        decreases to - i,
    {
        let byte = source[i];
        if !(byte == 32u8 || byte == 9u8 || byte == 12u8) {
            assert(!is_blank_byte(source@.subrange(from as int, to as int)[i - from]));
            return false;
        }
        assert(forall|j: int|
            0 <= j < i + 1 - from ==> #[trigger] source@.subrange(from as int, i + 1)[j]
                == source@[from + j]);
        i = i + 1;
    }
    true
}

/// Returns where the removed text of `edit` starts.
fn removal_start_of(source: &[u8], edit: BodyEdit) -> (removal: usize)
    requires
        edit.start <= edit.end <= source@.len(),
    ensures
        removal == removal_start(source@, edit),
{
    let start_line = line_start(source, edit.start);
    let last_line_start = line_start(source, edit.end);
    if edit.inline || start_line == last_line_start {
        edit.start
    } else {
        proof {
            lemma_line_start(source@, edit.start as int);
        }
        if is_blank_range(source, start_line, edit.start) {
            start_line
        } else {
            edit.start
        }
    }
}

/// Returns whether `offset` starts a UTF-8 encoded character of `source` or is its end.
fn is_char_start(source: &[u8], offset: usize) -> (res: bool)
    ensures
        res == at_char_start(source@, offset as int),
{
    offset == source.len() || (offset < source.len() && !(0x80u8 <= source[offset]
        && source[offset] <= 0xbfu8))
}

/// Returns whether the edits can be applied to `source` one after the other.
pub fn edits_fit_source(source: &[u8], edits: &Vec<BodyEdit>) -> (fit: bool)
    ensures
        fit == edits_fit(source@, edits@),
{
    let mut copied: usize = 0;
    let mut i: usize = 0;
    while i < edits.len()
        invariant
            i <= edits@.len(),
            copied == copied_before(source@, edits@, i as int),
            copied <= source@.len(),
            forall|j: int|
                0 <= j < i ==> edit_fits(
                    source@,
                    copied_before(source@, edits@, j),
                    #[trigger] edits@[j],
                ),
        decreases edits@.len() - i,
    {
        let edit = edits[i];
        if !(edit.start <= edit.end && edit.end <= source.len() && edit.indent_start
            <= edit.indent_end && edit.indent_end <= source.len()) {
            return false;
        }
        let removal = removal_start_of(source, edit);
        if copied > removal {
            return false;
        }
        if !is_char_start(source, edit.start) || !is_char_start(source, edit.indent_start)
            || !is_char_start(source, edit.indent_end) {
            return false;
        }
        proof {
            lemma_line_end(source@, edit.end as int);
        }
        copied = physical_line_end(source, edit.end);
        i = i + 1;
    }
    true
}


/// `copied_before` grows with each edit that fits and stays inside the source.
proof fn lemma_copied_before(src: Seq<u8>, edits: Seq<BodyEdit>, n: int)
    requires
        edits_fit(src, edits),
        0 <= n < edits.len(),
    ensures
        copied_before(src, edits, n) <= removal_start(src, edits[n]) <= edits[n].start
            <= edits[n].end <= copied_before(src, edits, n + 1) <= src.len(),
        0 <= line_start_at(src, edits[n].start as int) <= removal_start(src, edits[n]),
        !replaces_at_start(src, edits[n]) ==> removal_start(src, edits[n]) <= line_start_at(
            src,
            edits[n].end as int,
        ) <= edits[n].end,
        0 <= edits[n].indent_start <= edits[n].indent_end <= src.len(),
{
    let e = edits[n];
    assert(edit_fits(src, copied_before(src, edits, n), edits[n]));
    lemma_line_start(src, e.start as int);
    lemma_line_start(src, e.end as int);
    lemma_line_end(src, e.end as int);
    if !replaces_at_start(src, e) {
        lemma_removal_before_last_line(src, e);
    }
}

/// The removed text starts between the start of the implementation's line and the
/// implementation.
pub proof fn lemma_removal_start_bounds(src: Seq<u8>, edit: BodyEdit)
    requires
        edit.start <= edit.end <= src.len(),
    ensures
        line_start_at(src, edit.start as int) <= removal_start(src, edit) <= edit.start,
{
    lemma_line_start(src, edit.start as int);
}

/// An edit that fits after the others can be appended to them.
pub proof fn lemma_edits_fit_push(src: Seq<u8>, edits: Seq<BodyEdit>, edit: BodyEdit)
    requires
        edits_fit(src, edits),
        edit_fits(src, copied_before(src, edits, edits.len() as int), edit),
    ensures
        edits_fit(src, edits.push(edit)),
{
    let pushed = edits.push(edit);
    assert forall|i: int| 0 <= i < pushed.len() implies edit_fits(
        src,
        copied_before(src, pushed, i),
        #[trigger] pushed[i],
    ) by {
        assert(copied_before(src, pushed, i) == copied_before(src, edits, i));
        if i < edits.len() {
            assert(pushed[i] == edits[i]);
        }
    }
}

/// When an implementation spans lines, the removed text starts before its last line.
proof fn lemma_removal_before_last_line(src: Seq<u8>, edit: BodyEdit)
    requires
        edit.start <= edit.end <= src.len(),
        !replaces_at_start(src, edit),
    ensures
        line_start_at(src, edit.start as int) <= removal_start(src, edit) <= line_start_at(
            src,
            edit.end as int,
        ),
{
    let s = edit.start as int;
    let e = edit.end as int;
    lemma_line_start(src, s);
    lemma_line_start(src, e);
    let last = line_start_at(src, e);
    if last <= s {
        lemma_line_start_unique(src, s, last);
    }
}

/// Appends `pass` to `output`.
fn push_pass(output: &mut Vec<u8>)
    ensures
        final(output)@ == old(output)@ + pass_bytes(),
{
    output.push(112u8);
    output.push(97u8);
    output.push(115u8);
    output.push(115u8);
    assert(final(output)@ =~= old(output)@ + pass_bytes());
}

/// Applies the edits to the bytes of `source`.
pub fn apply_edits_to_bytes(source: &[u8], edits: &Vec<BodyEdit>) -> (pruned: Vec<u8>)
    requires
        edits_fit(source@, edits@),
    ensures
        pruned@ == pruned_bytes(source@, edits@),
{
    let mut pruned: Vec<u8> = Vec::new();
    let mut copied_until: usize = 0;
    let mut i: usize = 0;
    while i < edits.len()
        invariant
            i <= edits@.len(),
            edits_fit(source@, edits@),
            copied_until == copied_before(source@, edits@, i as int),
            copied_until <= source@.len(),
            pruned@ == emitted(source@, edits@, i as int),
        decreases edits@.len() - i,
    {
        let edit = edits[i];
        proof {
            lemma_copied_before(source@, edits@, i as int);
        }
        let end = physical_line_end(source, edit.end);
        let start_line = line_start(source, edit.start);
        let last_line_start = line_start(source, edit.end);
        let ghost before = pruned@;
        if edit.inline || start_line == last_line_start {
            copy_range(&mut pruned, source, copied_until, edit.start);
            push_pass(&mut pruned);
            copy_newlines(&mut pruned, source, edit.start, end);
            assert(pruned@ =~= before + edit_text(source@, copied_until as int, edit));
        } else {
            let removal = removal_start_of(source, edit);
            copy_range(&mut pruned, source, copied_until, removal);
            copy_newlines(&mut pruned, source, removal, last_line_start);
            copy_range(&mut pruned, source, edit.indent_start, edit.indent_end);
            push_pass(&mut pruned);
            assert(pruned@ =~= before + edit_text(source@, copied_until as int, edit));
        }
        copied_until = end;
        i = i + 1;
    }
    copy_range(&mut pruned, source, copied_until, source.len());
    pruned
}

/// Physical lines are kept: applying edits that fit leaves the newline bytes of the source, in
/// order, and adds none.
pub proof fn lemma_pruned_keeps_newlines(src: Seq<u8>, edits: Seq<BodyEdit>)
    requires
        edits_fit(src, edits),
        indents_start_lines(src, edits),
    ensures
        newlines_of(pruned_bytes(src, edits)) == newlines_of(src),
{
    lemma_emitted_newlines(src, edits, edits.len() as int);
    let c = copied_before(src, edits, edits.len() as int);
    lemma_newlines_concat(emitted(src, edits, edits.len() as int), src.subrange(c, src.len() as int));
    lemma_newlines_split(src, 0, c, src.len() as int);
    assert(src.subrange(0, src.len() as int) =~= src);
}

/// The output after `m` edits is the start of the output after `n >= m` edits.
proof fn lemma_emitted_prefix(src: Seq<u8>, edits: Seq<BodyEdit>, m: int, n: int)
    requires
        0 <= m <= n,
    ensures
        emitted(src, edits, m).len() <= emitted(src, edits, n).len(),
        emitted(src, edits, n).subrange(0, emitted(src, edits, m).len() as int) == emitted(
            src,
            edits,
            m,
        ),
    decreases n,
{
    if n > m {
        lemma_emitted_prefix(src, edits, m, n - 1);
        let a = emitted(src, edits, n - 1);
        let b = edit_text(src, copied_before(src, edits, n - 1), edits[n - 1]);
        assert((a + b).subrange(0, emitted(src, edits, m).len() as int) =~= a.subrange(
            0,
            emitted(src, edits, m).len() as int,
        ));
    } else {
        assert(emitted(src, edits, n).subrange(0, emitted(src, edits, n).len() as int)
            =~= emitted(src, edits, n));
    }
}

/// Untouched text keeps its place: the source between the end of the line of one edit and the
/// start of the text the next edit removes (or the end of the source after the last edit)
/// appears unchanged in the output, preceded there by the same newline bytes as in the source,
/// hence on the same line.
pub proof fn lemma_untouched_text_kept(src: Seq<u8>, edits: Seq<BodyEdit>, i: int)
    requires
        edits_fit(src, edits),
        indents_start_lines(src, edits),
        0 <= i <= edits.len(),
    ensures
        ({
            let out = pruned_bytes(src, edits);
            let at = emitted(src, edits, i).len() as int;
            let from = copied_before(src, edits, i);
            let to = if i < edits.len() {
                removal_start(src, edits[i])
            } else {
                src.len() as int
            };
            &&& 0 <= from <= to <= src.len()
            &&& at + (to - from) <= out.len()
            &&& (i == edits.len() ==> at + (to - from) == out.len())
            &&& out.subrange(at, at + (to - from)) == src.subrange(from, to)
            &&& newlines_of(out.subrange(0, at)) == newlines_of(src.subrange(0, from))
        }),
{
    let n = edits.len() as int;
    let out = pruned_bytes(src, edits);
    let at = emitted(src, edits, i).len() as int;
    let from = copied_before(src, edits, i);
    lemma_emitted_newlines(src, edits, i);
    lemma_emitted_prefix(src, edits, i, n);
    let tail = src.subrange(copied_before(src, edits, n), src.len() as int);
    assert(out.subrange(0, at) =~= emitted(src, edits, n).subrange(0, at));
    if i < n {
        lemma_copied_before(src, edits, i);
        let to = removal_start(src, edits[i]);
        lemma_emitted_prefix(src, edits, i + 1, n);
        let next = emitted(src, edits, i + 1);
        let text = edit_text(src, from, edits[i]);
        assert(next == emitted(src, edits, i) + text);
        assert(text.subrange(0, to - from) =~= src.subrange(from, to));
        assert(out.subrange(at, at + (to - from)) =~= next.subrange(at, at + (to - from)));
        assert(next.subrange(at, at + (to - from)) =~= text.subrange(0, to - from));
    } else {
        lemma_emitted_newlines(src, edits, n);
        assert(out.subrange(at, at + (src.len() - from)) =~= tail);
    }
}

/// The newline bytes of the output so far are those of the source consumed so far.
proof fn lemma_emitted_newlines(src: Seq<u8>, edits: Seq<BodyEdit>, n: int)
    requires
        edits_fit(src, edits),
        indents_start_lines(src, edits),
        0 <= n <= edits.len(),
    ensures
        0 <= copied_before(src, edits, n) <= src.len(),
        newlines_of(emitted(src, edits, n)) == newlines_of(
            src.subrange(0, copied_before(src, edits, n)),
        ),
    decreases n,
{
    if n == 0 {
        assert(src.subrange(0, 0) =~= Seq::<u8>::empty());
    } else {
        lemma_emitted_newlines(src, edits, n - 1);
        lemma_copied_before(src, edits, n - 1);
        let c = copied_before(src, edits, n - 1);
        let e = edits[n - 1];
        let stop = copied_before(src, edits, n);
        assert(e.indent_start == line_start_at(src, e.indent_end as int));
        lemma_edit_text_newlines(src, c, e);
        lemma_newlines_concat(emitted(src, edits, n - 1), edit_text(src, c, e));
        lemma_newlines_split(src, 0, c, stop);
    }
}

/// The newline bytes of one edit's text are those of the source it replaces.
proof fn lemma_edit_text_newlines(src: Seq<u8>, copied: int, edit: BodyEdit)
    requires
        edit_fits(src, copied, edit),
        edit.indent_start == line_start_at(src, edit.indent_end as int),
        0 <= copied,
    ensures
        newlines_of(edit_text(src, copied, edit)) == newlines_of(
            src.subrange(copied, line_end_at(src, edit.end as int)),
        ),
{
    let s = edit.start as int;
    let e = edit.end as int;
    let stop = line_end_at(src, e);
    let last = line_start_at(src, e);
    lemma_line_start(src, s);
    lemma_line_start(src, e);
    lemma_line_start(src, edit.indent_end as int);
    lemma_line_end(src, e);
    assert(pass_bytes().drop_last().drop_last().drop_last().drop_last() =~= Seq::<u8>::empty());
    assert(newlines_of(pass_bytes()) == Seq::<u8>::empty()) by {
        lemma_newlines_none(pass_bytes());
    }
    if replaces_at_start(src, edit) {
        let a = src.subrange(copied, s);
        let b = newlines_of(src.subrange(s, stop));
        lemma_newlines_concat(a, pass_bytes());
        lemma_newlines_concat(a + pass_bytes(), b);
        lemma_newlines_idempotent(src.subrange(s, stop));
        lemma_newlines_split(src, copied, s, stop);
        assert(newlines_of(a) + Seq::<u8>::empty() =~= newlines_of(a));
    } else {
        lemma_removal_before_last_line(src, edit);
        let r = removal_start(src, edit);
        let a = src.subrange(copied, r);
        let b = newlines_of(src.subrange(r, last));
        let ind = src.subrange(edit.indent_start as int, edit.indent_end as int);
        assert(newlines_of(ind) == Seq::<u8>::empty()) by {
            lemma_newlines_none(ind);
        }
        lemma_newlines_concat(a, b);
        lemma_newlines_concat(a + b, ind);
        lemma_newlines_concat(a + b + ind, pass_bytes());
        lemma_newlines_idempotent(src.subrange(r, last));
        lemma_newlines_split(src, copied, r, last);
        assert(newlines_of(src.subrange(last, stop)) == Seq::<u8>::empty()) by {
            lemma_newlines_none(src.subrange(last, stop));
        }
        lemma_newlines_split(src, copied, last, stop);
        assert(newlines_of(a + b) + Seq::<u8>::empty() =~= newlines_of(a + b));
        assert(newlines_of(src.subrange(copied, last)) + Seq::<u8>::empty() =~= newlines_of(
            src.subrange(copied, last),
        ));
    }
}


/// The text of one edit is valid UTF-8 when the source is and the edit fits at a character start.
proof fn lemma_edit_text_valid_utf8(src: Seq<u8>, copied: int, edit: BodyEdit)
    requires
        valid_utf8(src),
        edit_fits(src, copied, edit),
        0 <= copied,
        at_char_start(src, copied),
    ensures
        valid_utf8(edit_text(src, copied, edit)),
{
    let s = edit.start as int;
    let e = edit.end as int;
    let stop = line_end_at(src, e);
    let last = line_start_at(src, e);
    lemma_line_start(src, s);
    lemma_line_start(src, e);
    lemma_line_start(src, edit.indent_end as int);
    lemma_line_end(src, e);
    assert(all_ascii(pass_bytes()));
    lemma_ascii_valid_utf8(pass_bytes());
    if replaces_at_start(src, edit) {
        let a = src.subrange(copied, s);
        let b = newlines_of(src.subrange(s, stop));
        lemma_subrange_valid_utf8(src, copied, s);
        lemma_newlines_ascii(src.subrange(s, stop));
        lemma_ascii_valid_utf8(b);
        lemma_concat_valid_utf8(a, pass_bytes());
        lemma_concat_valid_utf8(a + pass_bytes(), b);
    } else {
        lemma_removal_before_last_line(src, edit);
        let r = removal_start(src, edit);
        let a = src.subrange(copied, r);
        let b = newlines_of(src.subrange(r, last));
        let ind = src.subrange(edit.indent_start as int, edit.indent_end as int);
        lemma_line_start_char_start(src, s);
        lemma_subrange_valid_utf8(src, copied, r);
        lemma_newlines_ascii(src.subrange(r, last));
        lemma_ascii_valid_utf8(b);
        lemma_subrange_valid_utf8(src, edit.indent_start as int, edit.indent_end as int);
        lemma_concat_valid_utf8(a, b);
        lemma_concat_valid_utf8(a + b, ind);
        lemma_concat_valid_utf8(a + b + ind, pass_bytes());
    }
}

/// The output so far is valid UTF-8 and the source is consumed up to a character start.
proof fn lemma_emitted_valid_utf8(src: Seq<u8>, edits: Seq<BodyEdit>, n: int)
    requires
        valid_utf8(src),
        edits_fit(src, edits),
        0 <= n <= edits.len(),
    ensures
        valid_utf8(emitted(src, edits, n)),
        at_char_start(src, copied_before(src, edits, n)),
        0 <= copied_before(src, edits, n) <= src.len(),
    decreases n,
{
    if n == 0 {
        lemma_ascii_valid_utf8(Seq::<u8>::empty());
        lemma_line_start_char_start(src, 0);
    } else {
        lemma_emitted_valid_utf8(src, edits, n - 1);
        lemma_copied_before(src, edits, n - 1);
        let c = copied_before(src, edits, n - 1);
        lemma_edit_text_valid_utf8(src, c, edits[n - 1]);
        lemma_concat_valid_utf8(emitted(src, edits, n - 1), edit_text(src, c, edits[n - 1]));
        lemma_line_end_char_start(src, edits[n - 1].end as int);
    }
}

/// Pruning keeps UTF-8: applying edits that fit to valid UTF-8 gives valid UTF-8.
pub proof fn lemma_pruned_valid_utf8(src: Seq<u8>, edits: Seq<BodyEdit>)
    requires
        valid_utf8(src),
        edits_fit(src, edits),
    ensures
        valid_utf8(pruned_bytes(src, edits)),
{
    let n = edits.len() as int;
    lemma_emitted_valid_utf8(src, edits, n);
    let c = copied_before(src, edits, n);
    lemma_subrange_valid_utf8(src, c, src.len() as int);
    lemma_concat_valid_utf8(emitted(src, edits, n), src.subrange(c, src.len() as int));
}

/// Calls `String::from_utf8` on `bytes`: the string whose UTF-8 encoding is `bytes` when they are
/// valid UTF-8, and an error (here `None`) otherwise.
#[verifier::external_body]
fn string_from_utf8(bytes: Vec<u8>) -> (text: Option<String>)
    ensures
        text is Some <==> valid_utf8(bytes@),
        text matches Some(s) ==> s@ == decode_utf8(bytes@),
{
    String::from_utf8(bytes).ok()
}

/// Applies the edits to `source`: each implementation becomes `pass`, and the text between them
/// is copied unchanged.
pub fn apply_edits(source: &str, edits: Vec<BodyEdit>) -> (pruned: String)
    requires
        edits_fit(source.spec_bytes(), edits@),
    ensures
        encode_utf8(pruned@) == pruned_bytes(source.spec_bytes(), edits@),
{
    let source_bytes = source.as_bytes();
    let pruned = apply_edits_to_bytes(source_bytes, &edits);
    proof {
        encode_utf8_valid_utf8(source@);
        lemma_pruned_valid_utf8(source.spec_bytes(), edits@);
        decode_utf8_encode_utf8(pruned@);
    }
    match string_from_utf8(pruned) {
        Some(text) => text,
        None => {
            assert(false);
            String::new()
        },
    }
}

} // verus!
