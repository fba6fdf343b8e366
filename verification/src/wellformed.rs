//! A statement that is UTF-8 stays UTF-8: every stringifier cuts a statement
//! at the boundaries between characters only.

use vstd::prelude::*;
use vstd::utf8::*;
use crate::encoding::{
    is_ascii_byte, lemma_ascii_valid, lemma_boundary_after_ascii, lemma_boundary_after_whitespace,
    lemma_boundary_at, lemma_boundary_before_whitespace, lemma_range_valid, lemma_replace_valid,
};
use crate::locate::{
    after_parts, last_item_offset, lemma_after_parts_bounds, lemma_line_stop_bounds,
    lemma_trim_end_bounds, line_end, line_stop, trim_end,
};
use crate::stringify::{
    after_space, effective_end, flag_end, flag_start, flags_of, flags_quoted, flags_quoted_from,
    icon_argument, icon_item, icons_quoted, lemma_after_space_bounds, lemma_flag_end_bounds,
    lemma_parts_push, lemma_skip_whitespace_bounds, message_literal, messages_quoted, quoted,
    replaced, skip_whitespace, text_command, text_item, text_start, texts_of, texts_quoted,
};
use crate::text::{
    ascii, has_prefix_at, join, lemma_split_push, split, whitespace_at, whitespace_before, PIPE,
    QUOTE,
};

verus! {

/// Each of the pieces is UTF-8.
pub open spec fn all_valid(pieces: Seq<Seq<u8>>) -> bool {
    forall|i: int| 0 <= i < pieces.len() ==> valid_utf8(#[trigger] pieces[i])
}

/// Where the piece of `s` begins that is open after `k` bytes: right after
/// the last separator before `k`, at 0 where there is none.
pub open spec fn piece_start(s: Seq<u8>, k: int, sep: u8) -> int
    decreases k,
{
    if k <= 0 {
        0
    } else if s[k - 1] == sep {
        k
    } else {
        piece_start(s, k - 1, sep)
    }
}

proof fn lemma_split_prefix_valid(s: Seq<u8>, k: int, sep: u8)
    requires
        valid_utf8(s),
        is_ascii_byte(sep),
        0 <= k <= s.len(),
    ensures
        0 <= piece_start(s, k, sep) <= k,
        is_char_boundary(s, piece_start(s, k, sep)),
        split(s.take(k), sep).len() >= 1,
        split(s.take(k), sep).last() == s.subrange(piece_start(s, k, sep), k),
        all_valid(split(s.take(k), sep).drop_last()),
    decreases k,
{
    if k == 0 {
        assert(s.take(0) =~= Seq::<u8>::empty());
        lemma_boundary_at(s, 0);
        assert(split(s.take(0), sep).last() =~= s.subrange(0, 0));
    } else {
        lemma_split_prefix_valid(s, k - 1, sep);
        let before = split(s.take(k - 1), sep);
        let start = piece_start(s, k - 1, sep);
        lemma_split_push(s.take(k - 1), s[k - 1], sep);
        assert(s.take(k - 1).push(s[k - 1]) =~= s.take(k));
        if s[k - 1] == sep {
            lemma_boundary_at(s, k - 1);
            lemma_boundary_after_ascii(s, k);
            lemma_range_valid(s, start, k - 1);
            let now = before.push(Seq::<u8>::empty());
            assert(now.drop_last() =~= before);
            assert(before.drop_last().push(before.last()) =~= before);
            assert forall|i: int| 0 <= i < before.len() implies valid_utf8(#[trigger] before[i]) by {
                if i < before.len() - 1 {
                    assert(before[i] == before.drop_last()[i]);
                }
            }
            assert(now.last() =~= s.subrange(k, k));
        } else {
            let now = before.drop_last().push(before.last().push(s[k - 1]));
            assert(now.drop_last() =~= before.drop_last());
            assert(now.last() =~= s.subrange(start, k));
        }
    }
}

/// The pieces of UTF-8 between ASCII separators are UTF-8.
pub proof fn lemma_split_valid(s: Seq<u8>, sep: u8)
    requires
        valid_utf8(s),
        is_ascii_byte(sep),
    ensures
        all_valid(split(s, sep)),
{
    let k = s.len() as int;
    lemma_split_prefix_valid(s, k, sep);
    assert(s.take(k) =~= s);
    let pieces = split(s, sep);
    lemma_boundary_at(s, k);
    lemma_range_valid(s, piece_start(s, k, sep), k);
    assert forall|i: int| 0 <= i < pieces.len() implies valid_utf8(#[trigger] pieces[i]) by {
        if i < pieces.len() - 1 {
            assert(pieces[i] == pieces.drop_last()[i]);
        }
    }
}

/// UTF-8 pieces joined by an ASCII separator are UTF-8.
pub proof fn lemma_join_valid(pieces: Seq<Seq<u8>>, sep: u8)
    requires
        all_valid(pieces),
        is_ascii_byte(sep),
    ensures
        valid_utf8(join(pieces, sep)),
    decreases pieces.len(),
{
    if pieces.len() == 0 {
    } else if pieces.len() == 1 {
    } else {
        let head = pieces.drop_last();
        assert forall|i: int| 0 <= i < head.len() implies valid_utf8(#[trigger] head[i]) by {
            assert(head[i] == pieces[i]);
        }
        lemma_join_valid(head, sep);
        lemma_ascii_valid(sep);
        valid_utf8_concat(join(head, sep), seq![sep]);
        valid_utf8_concat(join(head, sep) + seq![sep], pieces.last());
    }
}

proof fn lemma_parts_valid(parts: Seq<Seq<u8>>)
    requires
        all_valid(parts),
    ensures
        all_valid(texts_of(parts)),
        all_valid(flags_of(parts)),
    decreases parts.len(),
{
    if parts.len() == 0 {
        reveal(Seq::filter);
    } else {
        let head = parts.drop_last();
        assert forall|i: int| 0 <= i < head.len() implies valid_utf8(#[trigger] head[i]) by {
            assert(head[i] == parts[i]);
        }
        lemma_parts_valid(head);
        lemma_parts_push(head, parts.last());
        assert(head.push(parts.last()) =~= parts);
    }
}

/// Quotes put in at two boundaries leave UTF-8.
pub proof fn lemma_quoted_valid(s: Seq<u8>, from: int, to: int)
    requires
        valid_utf8(s),
        is_char_boundary(s, from),
        is_char_boundary(s, to),
        0 <= from <= to <= s.len(),
    ensures
        valid_utf8(quoted(s, from, to)),
{
    let inner = s.subrange(from, to);
    let literal = seq![QUOTE] + inner + seq![QUOTE];
    lemma_ascii_valid(QUOTE);
    lemma_range_valid(s, from, to);
    valid_utf8_concat(seq![QUOTE], inner);
    valid_utf8_concat(seq![QUOTE] + inner, seq![QUOTE]);
    lemma_replace_valid(s, from, to, literal);
    assert(quoted(s, from, to) =~= replaced(s, from, to, literal));
}

/// Right after an ASCII marker a character begins, or the statement ends.
pub proof fn lemma_past_marker_boundary(s: Seq<u8>, at: int, marker: Seq<char>)
    requires
        valid_utf8(s),
        is_ascii_chars(marker),
        marker.len() > 0,
        has_prefix_at(s, at, ascii(marker)),
    ensures
        0 < at + marker.len() <= s.len(),
        is_char_boundary(s, at + marker.len()),
{
    let n = marker.len() as int;
    assert(s.subrange(at, at + n)[n - 1] == s[at + n - 1]);
    assert(ascii(marker)[n - 1] == marker[n - 1] as u8);
    lemma_boundary_after_ascii(s, at + n);
}

proof fn lemma_trim_end_boundary(s: Seq<u8>, end: int)
    requires
        valid_utf8(s),
        is_char_boundary(s, end),
        0 <= end <= s.len(),
    ensures
        is_char_boundary(s, trim_end(s, end)),
    decreases end,
{
    let width = whitespace_before(s, end);
    if width > 0 {
        lemma_boundary_before_whitespace(s, end);
        lemma_trim_end_boundary(s, end - width);
    }
}

/// The effective end of a statement lies between two characters.
pub proof fn lemma_line_end_boundary(s: Seq<u8>)
    requires
        valid_utf8(s),
    ensures
        0 <= line_end(s) <= s.len(),
        is_char_boundary(s, line_end(s)),
{
    lemma_line_stop_bounds(s, 0);
    let stop = line_stop(s, 0);
    lemma_boundary_at(s, stop);
    lemma_trim_end_bounds(s, stop);
    lemma_trim_end_boundary(s, stop);
}

proof fn lemma_skip_whitespace_boundary(s: Seq<u8>, from: int)
    requires
        valid_utf8(s),
        is_char_boundary(s, from),
        0 <= from <= s.len(),
    ensures
        is_char_boundary(s, skip_whitespace(s, from)),
    decreases s.len() - from,
{
    let width = whitespace_at(s, from);
    if width > 0 {
        lemma_boundary_after_whitespace(s, from);
        lemma_skip_whitespace_boundary(s, from + width);
    }
}

proof fn lemma_flags_quoted_from_valid(s: Seq<u8>, from: int)
    requires
        valid_utf8(s),
        is_char_boundary(s, from),
        0 <= from <= s.len(),
    ensures
        valid_utf8(flags_quoted_from(s, from)),
    decreases s.len() - from,
{
    let start = flag_start(s, from);
    lemma_skip_whitespace_bounds(s, from);
    lemma_skip_whitespace_boundary(s, from);
    let end = flag_end(s, start);
    lemma_flag_end_bounds(s, start);
    lemma_boundary_at(s, end);
    let named = quoted(s, start, end);
    lemma_quoted_valid(s, start, end);
    if end < s.len() && s[end] == crate::text::COMMA {
        assert(named[end + 2] == s[end]);
        lemma_boundary_after_ascii(named, end + 3);
        lemma_flags_quoted_from_valid(named, end + 3);
    }
}

/// The flags stringifier keeps a statement UTF-8.
pub proof fn lemma_flags_quoted_valid(s: Seq<u8>)
    requires
        valid_utf8(s),
    ensures
        valid_utf8(flags_quoted(s)),
{
    reveal_strlit("Flags:");
    if has_prefix_at(s, 0, ascii("Flags:"@)) {
        lemma_past_marker_boundary(s, 0, "Flags:"@);
        lemma_flags_quoted_from_valid(s, 6);
    }
}

/// The literal made of a UTF-8 payload is UTF-8.
pub proof fn lemma_message_literal_valid(payload: Seq<u8>)
    requires
        valid_utf8(payload),
    ensures
        valid_utf8(message_literal(payload)),
{
    let parts = split(payload, PIPE);
    lemma_split_valid(payload, PIPE);
    lemma_parts_valid(parts);
    lemma_join_valid(texts_of(parts), PIPE);
    lemma_join_valid(flags_of(parts), PIPE);
    lemma_ascii_valid(QUOTE);
    lemma_ascii_valid(PIPE);
    let texts = join(texts_of(parts), PIPE);
    valid_utf8_concat(seq![QUOTE], texts);
    valid_utf8_concat(seq![QUOTE] + texts, seq![QUOTE]);
    let literal = seq![QUOTE] + texts + seq![QUOTE];
    valid_utf8_concat(literal, seq![PIPE]);
    valid_utf8_concat(literal + seq![PIPE], join(flags_of(parts), PIPE));
}

/// The message stringifier keeps a statement UTF-8.
pub proof fn lemma_messages_quoted_valid(s: Seq<u8>)
    requires
        valid_utf8(s),
    ensures
        valid_utf8(messages_quoted(s)),
{
    reveal_strlit("6|");
    let item = last_item_offset(s);
    if item > 0 && has_prefix_at(s, item, ascii("6|"@)) {
        lemma_past_marker_boundary(s, item, "6|"@);
        let start = item + 2;
        let end = effective_end(s, start);
        lemma_line_end_boundary(s);
        lemma_range_valid(s, start, end);
        lemma_message_literal_valid(s.subrange(start, end));
        lemma_replace_valid(s, start, end, message_literal(s.subrange(start, end)));
    }
}

proof fn lemma_field_quoted_valid(s: Seq<u8>, start: int)
    requires
        valid_utf8(s),
        is_char_boundary(s, start),
        0 <= start <= s.len(),
    ensures
        valid_utf8(quoted(s, start, effective_end(s, start))),
{
    lemma_line_end_boundary(s);
    lemma_quoted_valid(s, start, effective_end(s, start));
}

proof fn lemma_after_space_boundary(s: Seq<u8>, from: int)
    requires
        valid_utf8(s),
        0 <= from <= s.len(),
    ensures
        after_space(s, from) matches Some(start) ==> 0 <= start <= s.len() && is_char_boundary(
            s,
            start,
        ),
{
    lemma_after_space_bounds(s, from);
    if let Some(start) = after_space(s, from) {
        lemma_boundary_after_ascii(s, start);
    }
}

proof fn lemma_after_two_parts_boundary(s: Seq<u8>, from: int)
    requires
        valid_utf8(s),
        0 <= from <= s.len(),
    ensures
        after_parts(s, from, 2) matches Some(start) ==> 0 <= start <= s.len() && is_char_boundary(
            s,
            start,
        ),
{
    lemma_after_parts_bounds(s, from, 2);
    if let Some(start) = after_parts(s, from, 2) {
        lemma_boundary_after_ascii(s, start);
    }
}

/// The icon stringifier keeps a statement UTF-8.
pub proof fn lemma_icons_quoted_valid(s: Seq<u8>)
    requires
        valid_utf8(s),
    ensures
        valid_utf8(icons_quoted(s)),
{
    reveal_strlit("!!icon ");
    reveal_strlit("17|0|");
    reveal_strlit("16|2|");
    reveal_strlit("file:");
    if has_prefix_at(s, 0, ascii("!!icon "@)) {
        lemma_after_space_boundary(s, 7);
    } else if let Some(start) = icon_item(s) {
        lemma_after_two_parts_boundary(s, start);
    }
    if let Some(argument) = icon_argument(s) {
        if has_prefix_at(s, argument, ascii("file:"@)) {
            lemma_past_marker_boundary(s, argument, "file:"@);
            lemma_field_quoted_valid(s, argument + 5);
        }
    }
}

/// The display-text stringifier keeps a statement UTF-8.
pub proof fn lemma_texts_quoted_valid(s: Seq<u8>)
    requires
        valid_utf8(s),
    ensures
        valid_utf8(texts_quoted(s)),
{
    reveal_strlit("!!name ");
    reveal_strlit("!!display ");
    reveal_strlit("!!description ");
    reveal_strlit("16|0|");
    reveal_strlit("16|1|");
    reveal_strlit("17|1|");
    reveal_strlit("17|2|");
    if let Some(start) = text_command(s) {
        lemma_after_space_boundary(s, start);
    } else if let Some(start) = text_item(s) {
        lemma_after_two_parts_boundary(s, start);
    }
    if let Some(start) = text_start(s) {
        lemma_field_quoted_valid(s, start);
    }
}

} // verus!
