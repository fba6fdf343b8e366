//! What holds of every document and its conversion.

use vstd::prelude::*;
use crate::document::{
    body, converted, converted_line, converted_lines, lemma_trailing_newlines_bounds,
    trailing_newlines,
};
use crate::locate::lemma_after_parts_bounds;
use crate::stringify::{
    effective_end, flag_end, flag_start, flags_of, flags_quoted, flags_quoted_from, icon_argument,
    icon_item, icons_quoted, lemma_after_space_bounds, lemma_effective_end_bounds,
    lemma_flag_end_bounds, lemma_parts_push, lemma_skip_whitespace_bounds, message_literal,
    messages_quoted, past_item_marker, past_marker, quoted, replaced, text_command, text_item,
    text_start, texts_of, texts_quoted,
};
use crate::text::{
    all_free_of, ascii, free_of, join, lemma_join_free, lemma_join_split, lemma_split_free,
    lemma_split_join, lemma_split_len, lemma_split_push, split, COMMA, NEWLINE, PIPE, QUOTE,
};

verus! {

/// Quotes bring no byte into a statement but the quote.
pub proof fn lemma_quoted_free(s: Seq<u8>, from: int, to: int, b: u8)
    requires
        free_of(s, b),
        b != QUOTE,
        0 <= from <= to <= s.len(),
    ensures
        free_of(quoted(s, from, to), b),
        quoted(s, from, to).len() == s.len() + 2,
{
}

/// What is put in the place of a range brings in no byte that it does not
/// hold.
pub proof fn lemma_replaced_free(s: Seq<u8>, from: int, to: int, with: Seq<u8>, b: u8)
    requires
        free_of(s, b),
        free_of(with, b),
        0 <= from <= to <= s.len(),
    ensures
        free_of(replaced(s, from, to, with), b),
        replaced(s, from, to, with).len() >= with.len(),
{
}

proof fn lemma_flags_quoted_from_free(s: Seq<u8>, from: int, b: u8)
    requires
        free_of(s, b),
        b != QUOTE,
        0 <= from <= s.len(),
    ensures
        free_of(flags_quoted_from(s, from), b),
        flags_quoted_from(s, from).len() >= s.len(),
    decreases s.len() - from,
{
    let start = flag_start(s, from);
    lemma_skip_whitespace_bounds(s, from);
    let end = flag_end(s, start);
    lemma_flag_end_bounds(s, start);
    lemma_quoted_free(s, start, end, b);
    if end < s.len() && s[end] == COMMA {
        lemma_flags_quoted_from_free(quoted(s, start, end), end + 3, b);
    }
}

proof fn lemma_parts_free(parts: Seq<Seq<u8>>, b: u8)
    requires
        all_free_of(parts, b),
    ensures
        all_free_of(texts_of(parts), b),
        all_free_of(flags_of(parts), b),
    decreases parts.len(),
{
    if parts.len() == 0 {
        reveal(Seq::filter);
    } else {
        let head = parts.drop_last();
        assert forall|i: int| 0 <= i < head.len() implies free_of(#[trigger] head[i], b) by {
            assert(head[i] == parts[i]);
        }
        lemma_parts_free(head, b);
        lemma_parts_push(head, parts.last());
        assert(head.push(parts.last()) =~= parts);
        assert(free_of(parts.last(), b));
    }
}

/// The literal of a payload holds no byte that the payload does not hold, but
/// quotes and pipes.
pub proof fn lemma_message_literal_free(payload: Seq<u8>, b: u8)
    requires
        free_of(payload, b),
        b != QUOTE,
        b != PIPE,
    ensures
        free_of(message_literal(payload), b),
        message_literal(payload).len() >= 2,
{
    let parts = split(payload, PIPE);
    lemma_split_free(payload, PIPE, b);
    lemma_parts_free(parts, b);
    lemma_join_free(texts_of(parts), PIPE, b);
    lemma_join_free(flags_of(parts), PIPE, b);
}

/// The flags stringifier brings in no byte but the quote, and empties no
/// statement.
pub proof fn lemma_flags_quoted_free(s: Seq<u8>, b: u8)
    requires
        free_of(s, b),
        b != QUOTE,
    ensures
        free_of(flags_quoted(s), b),
        s.len() > 0 ==> flags_quoted(s).len() > 0,
{
    reveal_strlit("Flags:");
    if past_marker(s, 0, ascii("Flags:"@)) is Some {
        lemma_flags_quoted_from_free(s, 6, b);
    }
}

/// The message stringifier brings in no byte but quotes and pipes, and
/// empties no statement.
pub proof fn lemma_messages_quoted_free(s: Seq<u8>, b: u8)
    requires
        free_of(s, b),
        b != QUOTE,
        b != PIPE,
    ensures
        free_of(messages_quoted(s), b),
        s.len() > 0 ==> messages_quoted(s).len() > 0,
{
    reveal_strlit("6|");
    if let Some(start) = past_item_marker(s, ascii("6|"@)) {
        let end = effective_end(s, start);
        lemma_effective_end_bounds(s, start);
        let payload = s.subrange(start, end);
        lemma_message_literal_free(payload, b);
        lemma_replaced_free(s, start, end, message_literal(payload), b);
    }
}

/// The icon stringifier brings in no byte but the quote, and empties no
/// statement.
pub proof fn lemma_icons_quoted_free(s: Seq<u8>, b: u8)
    requires
        free_of(s, b),
        b != QUOTE,
    ensures
        free_of(icons_quoted(s), b),
        s.len() > 0 ==> icons_quoted(s).len() > 0,
{
    reveal_strlit("!!icon ");
    reveal_strlit("17|0|");
    reveal_strlit("16|2|");
    reveal_strlit("file:");
    if past_marker(s, 0, ascii("!!icon "@)) is Some {
        lemma_after_space_bounds(s, 7);
    } else if let Some(start) = icon_item(s) {
        lemma_after_parts_bounds(s, start, 2);
    }
    if let Some(argument) = icon_argument(s) {
        if let Some(start) = past_marker(s, argument, ascii("file:"@)) {
            lemma_effective_end_bounds(s, start);
            lemma_quoted_free(s, start, effective_end(s, start), b);
        }
    }
}

/// The display-text stringifier brings in no byte but the quote, and empties
/// no statement.
pub proof fn lemma_texts_quoted_free(s: Seq<u8>, b: u8)
    requires
        free_of(s, b),
        b != QUOTE,
    ensures
        free_of(texts_quoted(s), b),
        s.len() > 0 ==> texts_quoted(s).len() > 0,
{
    reveal_strlit("!!name ");
    reveal_strlit("!!display ");
    reveal_strlit("!!description ");
    reveal_strlit("16|0|");
    reveal_strlit("16|1|");
    reveal_strlit("17|1|");
    reveal_strlit("17|2|");
    if let Some(start) = text_command(s) {
        lemma_after_space_bounds(s, start);
    } else if let Some(start) = text_item(s) {
        lemma_after_parts_bounds(s, start, 2);
    }
    if let Some(start) = text_start(s) {
        lemma_effective_end_bounds(s, start);
        lemma_quoted_free(s, start, effective_end(s, start), b);
    }
}

/// A statement is converted to one that holds no byte that it did not hold,
/// but quotes and pipes, and a statement that is not empty to one that is not
/// empty.
pub proof fn lemma_converted_line_free(line: Seq<u8>, b: u8)
    requires
        free_of(line, b),
        b != QUOTE,
        b != PIPE,
    ensures
        free_of(converted_line(line), b),
        line.len() > 0 ==> converted_line(line).len() > 0,
{
    lemma_flags_quoted_free(line, b);
    lemma_messages_quoted_free(flags_quoted(line), b);
    lemma_icons_quoted_free(messages_quoted(flags_quoted(line)), b);
    lemma_texts_quoted_free(icons_quoted(messages_quoted(flags_quoted(line))), b);
}

/// Bytes that end in no line break, with line breaks after them, end in as
/// many line breaks as were put after them.
proof fn lemma_trailing_newlines_after(head: Seq<u8>, tail: Seq<u8>)
    requires
        head.len() == 0 || head.last() != NEWLINE,
        forall|i: int| 0 <= i < tail.len() ==> tail[i] == NEWLINE,
    ensures
        trailing_newlines(head + tail) == tail.len(),
    decreases tail.len(),
{
    if tail.len() == 0 {
        assert(head + tail =~= head);
    } else {
        lemma_trailing_newlines_after(head, tail.drop_last());
        assert((head + tail).drop_last() =~= head + tail.drop_last());
        assert((head + tail).last() == tail[tail.len() - 1]);
    }
}

/// The converted lines of a document, joined: they hold no line break but
/// those that join them, and do not end in one.
proof fn lemma_converted_body(s: Seq<u8>)
    ensures
        split(body(s), NEWLINE).len() >= 1,
        all_free_of(converted_lines(split(body(s), NEWLINE)), NEWLINE),
        ({
            let joined = join(converted_lines(split(body(s), NEWLINE)), NEWLINE);
            joined.len() == 0 || joined.last() != NEWLINE
        }),
{
    let text = body(s);
    let lines = split(text, NEWLINE);
    let results = converted_lines(lines);
    lemma_split_len(text, NEWLINE);
    lemma_split_free(text, NEWLINE, NEWLINE);
    assert forall|i: int| 0 <= i < results.len() implies free_of(#[trigger] results[i], NEWLINE) by {
        assert(free_of(lines[i], NEWLINE));
        lemma_converted_line_free(lines[i], NEWLINE);
    }
    let joined = join(results, NEWLINE);
    if lines.len() == 1 {
        assert(joined == results[0]);
        assert(free_of(results[0], NEWLINE));
    } else {
        lemma_trailing_newlines_bounds(s);
        assert(text.len() > 0) by {
            if text.len() == 0 {
                assert(split(text, NEWLINE).len() == 1);
            }
        }
        assert(text.last() == s[s.len() - trailing_newlines(s) - 1]);
        lemma_split_push(text.drop_last(), text.last(), NEWLINE);
        assert(text.drop_last().push(text.last()) =~= text);
        assert(lines.last().len() > 0);
        lemma_converted_line_free(lines.last(), NEWLINE);
        assert(results.last() == converted_line(lines.last()));
        assert(free_of(results.last(), NEWLINE));
        assert(joined.last() == results.last().last());
    }
}

/// The conversion keeps the line breaks at the end of a document: the
/// converted document ends in as many line breaks as the document does.
pub proof fn lemma_trailing_newlines_kept(s: Seq<u8>)
    ensures
        trailing_newlines(converted(s)) == trailing_newlines(s),
        body(converted(s)) == join(converted_lines(split(body(s), NEWLINE)), NEWLINE),
{
    lemma_trailing_newlines_bounds(s);
    lemma_converted_body(s);
    let joined = join(converted_lines(split(body(s), NEWLINE)), NEWLINE);
    let tail = s.skip(s.len() - trailing_newlines(s));
    lemma_trailing_newlines_after(joined, tail);
    assert((joined + tail).take(joined.len() as int) =~= joined);
}

/// The conversion keeps the lines of a document apart: the converted
/// document has as many lines as the document, and they are its lines
/// converted one by one, in their order.
pub proof fn lemma_lines_converted_one_by_one(s: Seq<u8>)
    ensures
        split(body(converted(s)), NEWLINE) == converted_lines(split(body(s), NEWLINE)),
        split(body(converted(s)), NEWLINE).len() == split(body(s), NEWLINE).len(),
{
    lemma_trailing_newlines_kept(s);
    lemma_converted_body(s);
    lemma_split_join(converted_lines(split(body(s), NEWLINE)), NEWLINE);
}

/// A document in which no line holds a field stays as it is.
pub proof fn lemma_unchanged_without_fields(s: Seq<u8>)
    requires
        forall|i: int|
            0 <= i < split(body(s), NEWLINE).len() ==> converted_line(
                #[trigger] split(body(s), NEWLINE)[i],
            ) == split(body(s), NEWLINE)[i],
    ensures
        converted(s) == s,
{
    let lines = split(body(s), NEWLINE);
    assert(converted_lines(lines) =~= lines);
    lemma_join_split(body(s), NEWLINE);
    lemma_trailing_newlines_bounds(s);
    assert(body(s) + s.skip(s.len() - trailing_newlines(s)) =~= s);
}

} // verus!
