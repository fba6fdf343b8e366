//! The four stringifiers. Each finds at most one kind of field in a statement
//! and wraps it in quotes; a statement that holds no such field stays as it is.

use core::ops::Range;
use vstd::prelude::*;
use vstd::slice::*;
use vstd::string::*;
use crate::locate::{
    after_parts, find_last_item, find_line_end, last_item_offset, lemma_line_stop_bounds,
    lemma_trim_end_bounds, line_end, line_stop, skip_parts_from,
};
use crate::text::{
    ascii, equals_marker, has_prefix_at, join, lemma_join_push, lemma_split_push, split,
    starts_with_at, whitespace_at, whitespace_width_at, COMMA, NEWLINE, PIPE, QUOTE, SPACE,
};

verus! {

/// `s` with the bytes from `from` up to `to` replaced by `with`.
pub open spec fn replaced(s: Seq<u8>, from: int, to: int, with: Seq<u8>) -> Seq<u8> {
    s.subrange(0, from) + with + s.subrange(to, s.len() as int)
}

/// `s` with a quote put in before `from` and another before `to`.
pub open spec fn quoted(s: Seq<u8>, from: int, to: int) -> Seq<u8> {
    s.subrange(0, from) + seq![QUOTE] + s.subrange(from, to) + seq![QUOTE] + s.subrange(
        to,
        s.len() as int,
    )
}

/// The offset right after `marker` where `s` holds it at `at`.
pub open spec fn past_marker(s: Seq<u8>, at: int, marker: Seq<u8>) -> Option<int> {
    if has_prefix_at(s, at, marker) {
        Some(at + marker.len())
    } else {
        None
    }
}

/// The offset right after `marker` where the terminal item of `s` begins with
/// it. A statement in which the locator entered no item, offset 0, has no
/// terminal item: what its trigger holds is never taken for a marker.
pub open spec fn past_item_marker(s: Seq<u8>, marker: Seq<u8>) -> Option<int> {
    if last_item_offset(s) > 0 {
        past_marker(s, last_item_offset(s), marker)
    } else {
        None
    }
}

/// The offset right after the first space at or after `from`.
pub open spec fn after_space(s: Seq<u8>, from: int) -> Option<int>
    decreases s.len() - from,
{
    if from >= s.len() {
        None
    } else if from >= 0 && s[from] == SPACE {
        Some(from + 1)
    } else {
        after_space(s, from + 1)
    }
}

/// Where a field that begins at `start` ends: at the effective end of the
/// statement, and at `start` itself where nothing but white space and comment
/// is left from there on.
pub open spec fn effective_end(s: Seq<u8>, start: int) -> int {
    if line_end(s) < start {
        start
    } else {
        line_end(s)
    }
}

/// The first offset at or after `from` that begins no white-space character.
pub open spec fn skip_whitespace(s: Seq<u8>, from: int) -> int
    decreases s.len() - from,
{
    let width = whitespace_at(s, from);
    if width > 0 {
        skip_whitespace(s, from + width)
    } else {
        from
    }
}

/// Where the flag name that is looked for from `from` on begins: at the first
/// character that is no white space, and at `from` where only white space is
/// left.
pub open spec fn flag_start(s: Seq<u8>, from: int) -> int {
    let start = skip_whitespace(s, from);
    if start < s.len() {
        start
    } else {
        from
    }
}

/// Where a flag name that begins at `from` ends: at the first comma or line
/// break, and at the end of `s` where there is none.
pub open spec fn flag_end(s: Seq<u8>, from: int) -> int
    decreases s.len() - from,
{
    if from >= s.len() {
        s.len() as int
    } else if from >= 0 && (s[from] == COMMA || s[from] == NEWLINE) {
        from
    } else {
        flag_end(s, from + 1)
    }
}

/// `s` with each flag name from `from` on in quotes. A name ends at a comma
/// or a line break; after a comma the next name is looked for.
pub open spec fn flags_quoted_from(s: Seq<u8>, from: int) -> Seq<u8>
    decreases s.len() - from,
{
    let start = flag_start(s, from);
    let end = flag_end(s, start);
    let named = quoted(s, start, end);
    if 0 <= from <= start <= end < s.len() && s[end] == COMMA {
        flags_quoted_from(named, end + 3)
    } else {
        named
    }
}

/// What the flags stringifier makes of `s`: a statement that begins with
/// `Flags:` has each of its comma-separated names quoted.
pub open spec fn flags_quoted(s: Seq<u8>) -> Seq<u8> {
    match past_marker(s, 0, ascii("Flags:"@)) {
        Some(from) => flags_quoted_from(s, from),
        None => s,
    }
}

/// A part of a message that sets how the message is shown, and is no text.
pub open spec fn is_flag_part(part: Seq<u8>) -> bool {
    ||| has_prefix_at(part, 0, ascii("f="@))
    ||| has_prefix_at(part, 0, ascii("p="@))
    ||| part == ascii("mute"@)
    ||| part == ascii("instant"@)
    ||| part == ascii("quiet"@)
    ||| part == ascii("noclear"@)
}

/// The text parts among `parts`, in their order.
pub open spec fn texts_of(parts: Seq<Seq<u8>>) -> Seq<Seq<u8>> {
    parts.filter(|part: Seq<u8>| !is_flag_part(part))
}

/// The flag parts among `parts`, in their order.
pub open spec fn flags_of(parts: Seq<Seq<u8>>) -> Seq<Seq<u8>> {
    parts.filter(|part: Seq<u8>| is_flag_part(part))
}

/// The payload of a message as a literal: its text parts, joined by pipes, in
/// quotes; then its flag parts, if it has any, each after a pipe.
pub open spec fn message_literal(payload: Seq<u8>) -> Seq<u8> {
    let parts = split(payload, PIPE);
    let literal = seq![QUOTE] + join(texts_of(parts), PIPE) + seq![QUOTE];
    if flags_of(parts).len() > 0 {
        literal + seq![PIPE] + join(flags_of(parts), PIPE)
    } else {
        literal
    }
}

/// What the message stringifier makes of `s`: where the terminal item is a
/// message, `6|`, its payload up to the effective end becomes a literal.
pub open spec fn messages_quoted(s: Seq<u8>) -> Seq<u8> {
    match past_item_marker(s, ascii("6|"@)) {
        Some(start) => {
            let end = effective_end(s, start);
            replaced(s, start, end, message_literal(s.subrange(start, end)))
        },
        None => s,
    }
}

/// The offset of the arguments of the terminal item where the item sets a
/// shop icon, `17|0|`, or a wheel icon, `16|2|`.
pub open spec fn icon_item(s: Seq<u8>) -> Option<int> {
    match past_item_marker(s, ascii("17|0|"@)) {
        Some(start) => Some(start),
        None => past_item_marker(s, ascii("16|2|"@)),
    }
}

/// The offset of the argument of `s` that may name an icon file: after the
/// first space behind `!!icon `, or two parts behind the marker of a terminal
/// item that sets an icon.
pub open spec fn icon_argument(s: Seq<u8>) -> Option<int> {
    match past_marker(s, 0, ascii("!!icon "@)) {
        Some(start) => after_space(s, start),
        None => match icon_item(s) {
            Some(start) => after_parts(s, start, 2),
            None => None,
        },
    }
}

/// What the icon stringifier makes of `s`: where the icon argument begins
/// with `file:`, what follows `file:` up to the effective end is quoted.
pub open spec fn icons_quoted(s: Seq<u8>) -> Seq<u8> {
    match icon_argument(s) {
        Some(argument) => match past_marker(s, argument, ascii("file:"@)) {
            Some(start) => quoted(s, start, effective_end(s, start)),
            None => s,
        },
        None => s,
    }
}

/// The offset of the terminal item's arguments where the item names or
/// describes a wheel entry, `16|0|` and `16|1|`, or a shop entry, `17|1|` and
/// `17|2|`.
pub open spec fn text_item(s: Seq<u8>) -> Option<int> {
    match past_item_marker(s, ascii("16|0|"@)) {
        Some(start) => Some(start),
        None => match past_item_marker(s, ascii("16|1|"@)) {
            Some(start) => Some(start),
            None => match past_item_marker(s, ascii("17|1|"@)) {
                Some(start) => Some(start),
                None => past_item_marker(s, ascii("17|2|"@)),
            },
        },
    }
}

/// The offset right after the command word of a statement that begins with
/// `!!name `, `!!display ` or `!!description `.
pub open spec fn text_command(s: Seq<u8>) -> Option<int> {
    match past_marker(s, 0, ascii("!!name "@)) {
        Some(start) => Some(start),
        None => match past_marker(s, 0, ascii("!!display "@)) {
            Some(start) => Some(start),
            None => past_marker(s, 0, ascii("!!description "@)),
        },
    }
}

/// The offset at which the display text of `s` begins: after the first space
/// behind the command word, or two parts behind the marker of a terminal item
/// that names or describes an entry.
pub open spec fn text_start(s: Seq<u8>) -> Option<int> {
    match text_command(s) {
        Some(start) => after_space(s, start),
        None => match text_item(s) {
            Some(start) => after_parts(s, start, 2),
            None => None,
        },
    }
}

/// What the display-text stringifier makes of `s`: the display text, from
/// where it begins up to the effective end, is quoted.
pub open spec fn texts_quoted(s: Seq<u8>) -> Seq<u8> {
    match text_start(s) {
        Some(start) => quoted(s, start, effective_end(s, start)),
        None => s,
    }
}

/// The offset right after a space lies in the statement, right after a
/// space.
pub proof fn lemma_after_space_bounds(s: Seq<u8>, from: int)
    requires
        0 <= from <= s.len(),
    ensures
        after_space(s, from) matches Some(start) ==> from < start <= s.len() && s[start - 1] == SPACE,
    decreases s.len() - from,
{
    if from < s.len() && s[from] != SPACE {
        lemma_after_space_bounds(s, from + 1);
    }
}

/// White space is skipped up to an offset in the statement at which no
/// white-space character begins.
pub proof fn lemma_skip_whitespace_bounds(s: Seq<u8>, from: int)
    requires
        0 <= from <= s.len(),
    ensures
        from <= skip_whitespace(s, from) <= s.len(),
        whitespace_at(s, skip_whitespace(s, from)) == 0,
    decreases s.len() - from,
{
    let width = whitespace_at(s, from);
    if width > 0 {
        lemma_skip_whitespace_bounds(s, from + width);
    }
}

/// A flag name ends in the statement, at the first comma or line break.
pub proof fn lemma_flag_end_bounds(s: Seq<u8>, from: int)
    requires
        0 <= from <= s.len(),
    ensures
        from <= flag_end(s, from) <= s.len(),
        flag_end(s, from) < s.len() ==> s[flag_end(s, from)] == COMMA || s[flag_end(s, from)]
            == NEWLINE,
        forall|i: int| from <= i < flag_end(s, from) ==> s[i] != COMMA && s[i] != NEWLINE,
    decreases s.len() - from,
{
    if from < s.len() && !(s[from] == COMMA || s[from] == NEWLINE) {
        lemma_flag_end_bounds(s, from + 1);
    }
}

/// A field ends in the statement, and not before it begins.
pub proof fn lemma_effective_end_bounds(s: Seq<u8>, start: int)
    requires
        0 <= start <= s.len(),
    ensures
        start <= effective_end(s, start) <= s.len(),
{
    lemma_line_stop_bounds(s, 0);
    lemma_trim_end_bounds(s, line_stop(s, 0));
}

/// One more part is one more text part or one more flag part.
pub proof fn lemma_parts_push(parts: Seq<Seq<u8>>, part: Seq<u8>)
    ensures
        texts_of(parts.push(part)) == if is_flag_part(part) {
            texts_of(parts)
        } else {
            texts_of(parts).push(part)
        },
        flags_of(parts.push(part)) == if is_flag_part(part) {
            flags_of(parts).push(part)
        } else {
            flags_of(parts)
        },
{
    reveal(Seq::filter);
    assert(parts.push(part).drop_last() =~= parts);
}

pub(crate) fn append_range(out: &mut Vec<u8>, source: &[u8], from: usize, to: usize)
    requires
        from <= to <= source@.len(),
    ensures
        final(out)@ == old(out)@ + source@.subrange(from as int, to as int),
{
    let mut i: usize = from;
    while i < to
        invariant
            from <= i <= to <= source@.len(),
            out@ == old(out)@ + source@.subrange(from as int, i as int),
        decreases to - i,
    {
        out.push(source[i]);
        i += 1;
    }
}

/// Puts `with` in the place of the bytes of `range`.
pub fn replace_range(string: &mut Vec<u8>, range: Range<usize>, with: &[u8])
    requires
        range.start <= range.end <= old(string)@.len(),
    ensures
        final(string)@ == replaced(old(string)@, range.start as int, range.end as int, with@),
{
    let mut out: Vec<u8> = Vec::new();
    append_range(&mut out, string.as_slice(), 0, range.start);
    append_range(&mut out, with, 0, with.len());
    append_range(&mut out, string.as_slice(), range.end, string.len());
    assert(with@.subrange(0, with@.len() as int) =~= with@);
    *string = out;
}

/// Wraps the bytes of `range` in quotes.
pub fn stringify_range(string: &mut Vec<u8>, range: Range<usize>)
    requires
        range.start <= range.end <= old(string)@.len(),
    ensures
        final(string)@ == quoted(old(string)@, range.start as int, range.end as int),
{
    let mut literal: Vec<u8> = Vec::new();
    literal.push(QUOTE);
    append_range(&mut literal, string.as_slice(), range.start, range.end);
    literal.push(QUOTE);
    replace_range(string, range, literal.as_slice());
}

/// Tests for `marker` at `at` and gives the offset right after it.
fn skip_marker(string: &[u8], at: usize, marker: &str) -> (past: Option<usize>)
    requires
        is_ascii(marker),
    ensures
        match past {
            Some(offset) => past_marker(string@, at as int, ascii(marker@)) == Some(offset as int),
            None => past_marker(string@, at as int, ascii(marker@)).is_none(),
        },
{
    broadcast use is_ascii_spec_bytes;

    if starts_with_at(string, at, marker) {
        let pattern = marker.as_bytes();
        assert(pattern@ =~= ascii(marker@));
        assert(at + pattern@.len() <= string.len());
        Some(at + pattern.len())
    } else {
        None
    }
}

/// Tests for `marker` at the terminal item, which `item` is the offset of.
fn skip_item_marker(string: &[u8], item: usize, marker: &str) -> (past: Option<usize>)
    requires
        is_ascii(marker),
        item == last_item_offset(string@),
    ensures
        match past {
            Some(offset) => past_item_marker(string@, ascii(marker@)) == Some(offset as int),
            None => past_item_marker(string@, ascii(marker@)).is_none(),
        },
{
    if item > 0 {
        skip_marker(string, item, marker)
    } else {
        None
    }
}

fn find_after_space(string: &[u8], from: usize) -> (start: Option<usize>)
    requires
        from <= string@.len(),
    ensures
        match start {
            Some(offset) => after_space(string@, from as int) == Some(offset as int) && offset
                <= string@.len(),
            None => after_space(string@, from as int).is_none(),
        },
{
    let mut index: usize = from;
    while index < string.len() && string[index] != SPACE
        invariant
            from <= index <= string@.len(),
            after_space(string@, from as int) == after_space(string@, index as int),
        decreases string@.len() - index,
    {
        index += 1;
    }
    if index < string.len() {
        Some(index + 1)
    } else {
        None
    }
}

fn find_effective_end(string: &[u8], start: usize) -> (end: usize)
    requires
        start <= string@.len(),
    ensures
        end == effective_end(string@, start as int),
        start <= end <= string@.len(),
{
    let end: usize = find_line_end(string);
    if end < start {
        start
    } else {
        end
    }
}

fn find_flag_start(string: &[u8], from: usize) -> (start: usize)
    requires
        from <= string@.len(),
    ensures
        start == flag_start(string@, from as int),
        from <= start <= string@.len(),
{
    let len: usize = string.len();
    let mut index: usize = from;
    let mut width: usize = whitespace_width_at(string, index);
    while width > 0
        invariant
            from <= index <= string@.len() == len,
            width == whitespace_at(string@, index as int),
            skip_whitespace(string@, from as int) == skip_whitespace(string@, index as int),
        decreases string@.len() - index,
    {
        index += width;
        width = whitespace_width_at(string, index);
    }
    if index < string.len() {
        index
    } else {
        from
    }
}

fn find_flag_end(string: &[u8], from: usize) -> (end: usize)
    requires
        from <= string@.len(),
    ensures
        end == flag_end(string@, from as int),
        from <= end <= string@.len(),
{
    let mut index: usize = from;
    while index < string.len() && string[index] != COMMA && string[index] != NEWLINE
        invariant
            from <= index <= string@.len(),
            flag_end(string@, from as int) == flag_end(string@, index as int),
        decreases string@.len() - index,
    {
        index += 1;
    }
    index
}

/// Quotes each flag name of a statement that begins with `Flags:`. The names
/// stand between commas; white space before a name stays outside the quotes.
pub fn convert_flags(string: &mut Vec<u8>)
    ensures
        final(string)@ == flags_quoted(old(string)@),
{
    proof {
        reveal_strlit("Flags:");
    }
    if let Some(first) = skip_marker(string.as_slice(), 0, "Flags:") {
        let mut from: usize = first;
        loop
            invariant_except_break
                from <= string@.len(),
                flags_quoted(old(string)@) == flags_quoted_from(string@, from as int),
            ensures
                string@ == flags_quoted(old(string)@),
            decreases string@.len() - from,
        {
            let start: usize = find_flag_start(string.as_slice(), from);
            let end: usize = find_flag_end(string.as_slice(), start);
            let more = end < string.len() && string[end] == COMMA;
            let ghost before = string@;
            stringify_range(string, start..end);
            if !more {
                break;
            }
            assert(string@.len() == before.len() + 2);
            assert(end + 3 <= string.len());
            from = end + 3;
        }
    }
}

fn flag_part(part: &[u8]) -> (yes: bool)
    ensures
        yes == is_flag_part(part@),
{
    proof {
        reveal_strlit("f=");
        reveal_strlit("p=");
        reveal_strlit("mute");
        reveal_strlit("instant");
        reveal_strlit("quiet");
        reveal_strlit("noclear");
    }
    starts_with_at(part, 0, "f=") || starts_with_at(part, 0, "p=") || equals_marker(part, "mute")
        || equals_marker(part, "instant") || equals_marker(part, "quiet") || equals_marker(
        part,
        "noclear",
    )
}

/// The parts of a message read so far, the text parts and the flag parts
/// each joined by pipes.
struct Partition {
    texts: Vec<u8>,
    any_text: bool,
    flags: Vec<u8>,
    any_flag: bool,
}

impl Partition {
    spec fn holds(&self, parts: Seq<Seq<u8>>) -> bool {
        &&& self.texts@ == join(texts_of(parts), PIPE)
        &&& self.any_text == (texts_of(parts).len() > 0)
        &&& self.flags@ == join(flags_of(parts), PIPE)
        &&& self.any_flag == (flags_of(parts).len() > 0)
    }

    fn new() -> (partition: Partition)
        ensures
            partition.holds(Seq::empty()),
    {
        proof {
            reveal(Seq::filter);
        }
        Partition { texts: Vec::new(), any_text: false, flags: Vec::new(), any_flag: false }
    }

    fn add(&mut self, part: &[u8], Ghost(parts): Ghost<Seq<Seq<u8>>>)
        requires
            old(self).holds(parts),
        ensures
            final(self).holds(parts.push(part@)),
    {
        proof {
            lemma_parts_push(parts, part@);
            lemma_join_push(texts_of(parts), part@, PIPE);
            lemma_join_push(flags_of(parts), part@, PIPE);
            assert(part@.subrange(0, part@.len() as int) =~= part@);
        }
        if flag_part(part) {
            if self.any_flag {
                self.flags.push(PIPE);
            }
            append_range(&mut self.flags, part, 0, part.len());
            self.any_flag = true;
            assert(self.flags@ =~= if old(self).any_flag {
                old(self).flags@ + seq![PIPE] + part@
            } else {
                part@
            });
        } else {
            if self.any_text {
                self.texts.push(PIPE);
            }
            append_range(&mut self.texts, part, 0, part.len());
            self.any_text = true;
            assert(self.texts@ =~= if old(self).any_text {
                old(self).texts@ + seq![PIPE] + part@
            } else {
                part@
            });
        }
    }

    fn literal(&self, Ghost(parts): Ghost<Seq<Seq<u8>>>) -> (literal: Vec<u8>)
        requires
            self.holds(parts),
        ensures
            literal@ == if flags_of(parts).len() > 0 {
                seq![QUOTE] + join(texts_of(parts), PIPE) + seq![QUOTE] + seq![PIPE] + join(
                    flags_of(parts),
                    PIPE,
                )
            } else {
                seq![QUOTE] + join(texts_of(parts), PIPE) + seq![QUOTE]
            },
    {
        let mut literal: Vec<u8> = Vec::new();
        literal.push(QUOTE);
        append_range(&mut literal, self.texts.as_slice(), 0, self.texts.len());
        literal.push(QUOTE);
        assert(self.texts@.subrange(0, self.texts@.len() as int) =~= self.texts@);
        if self.any_flag {
            literal.push(PIPE);
            append_range(&mut literal, self.flags.as_slice(), 0, self.flags.len());
            assert(self.flags@.subrange(0, self.flags@.len() as int) =~= self.flags@);
        }
        literal
    }
}

/// Makes the literal of a message's payload.
fn message_literal_of(payload: &[u8]) -> (literal: Vec<u8>)
    ensures
        literal@ == message_literal(payload@),
{
    let mut partition = Partition::new();
    let mut part_start: usize = 0;
    let mut index: usize = 0;
    proof {
        assert(payload@.take(0) =~= Seq::<u8>::empty());
        assert(split(payload@.take(0), PIPE).drop_last() =~= Seq::<Seq<u8>>::empty());
    }
    while index < payload.len()
        invariant
            part_start <= index <= payload@.len(),
            split(payload@.take(index as int), PIPE).len() >= 1,
            split(payload@.take(index as int), PIPE).last() == payload@.subrange(
                part_start as int,
                index as int,
            ),
            partition.holds(split(payload@.take(index as int), PIPE).drop_last()),
        decreases payload@.len() - index,
    {
        let ghost before = split(payload@.take(index as int), PIPE);
        proof {
            lemma_split_push(payload@.take(index as int), payload@[index as int], PIPE);
            assert(payload@.take(index as int).push(payload@[index as int]) =~= payload@.take(
                index + 1,
            ));
        }
        if payload[index] == PIPE {
            let part = slice_subrange(payload, part_start, index);
            partition.add(part, Ghost(before.drop_last()));
            part_start = index + 1;
            proof {
                assert(before.drop_last().push(before.last()) =~= before);
                assert(before.push(Seq::<u8>::empty()).drop_last() =~= before);
            }
        } else {
            proof {
                let grown = before.drop_last().push(before.last().push(payload@[index as int]));
                assert(grown.drop_last() =~= before.drop_last());
                assert(before.last().push(payload@[index as int]) =~= payload@.subrange(
                    part_start as int,
                    index + 1,
                ));
            }
        }
        index += 1;
    }
    let ghost parts = split(payload@, PIPE);
    proof {
        assert(payload@.take(index as int) =~= payload@);
        assert(parts.drop_last().push(parts.last()) =~= parts);
    }
    let part = slice_subrange(payload, part_start, index);
    partition.add(part, Ghost(parts.drop_last()));
    partition.literal(Ghost(parts))
}

/// Makes a literal of the payload of a message: where the terminal item of
/// the statement is `6|`, the text parts of what follows, up to the effective
/// end, are joined and quoted, and the flag parts come after them.
pub fn convert_messages(string: &mut Vec<u8>)
    ensures
        final(string)@ == messages_quoted(old(string)@),
{
    proof {
        reveal_strlit("6|");
    }
    let item: usize = find_last_item(string.as_slice());
    if let Some(start) = skip_item_marker(string.as_slice(), item, "6|") {
        let end: usize = find_effective_end(string.as_slice(), start);
        let literal = message_literal_of(slice_subrange(string.as_slice(), start, end));
        replace_range(string, start..end, literal.as_slice());
    }
}

fn find_icon_item(string: &[u8]) -> (start: Option<usize>)
    ensures
        match start {
            Some(offset) => icon_item(string@) == Some(offset as int) && offset <= string@.len(),
            None => icon_item(string@).is_none(),
        },
{
    proof {
        reveal_strlit("17|0|");
        reveal_strlit("16|2|");
    }
    let item: usize = find_last_item(string);
    if let Some(start) = skip_item_marker(string, item, "17|0|") {
        Some(start)
    } else {
        skip_item_marker(string, item, "16|2|")
    }
}

fn find_icon_argument(string: &[u8]) -> (argument: Option<usize>)
    ensures
        match argument {
            Some(offset) => icon_argument(string@) == Some(offset as int) && offset <= string@.len(),
            None => icon_argument(string@).is_none(),
        },
{
    proof {
        reveal_strlit("!!icon ");
    }
    if let Some(start) = skip_marker(string, 0, "!!icon ") {
        find_after_space(string, start)
    } else if let Some(start) = find_icon_item(string) {
        skip_parts_from(string, start, 2)
    } else {
        None
    }
}

/// Quotes the path of an icon file: where the icon argument of the statement
/// begins with `file:`, what follows `file:` up to the effective end.
pub fn convert_icons(string: &mut Vec<u8>)
    ensures
        final(string)@ == icons_quoted(old(string)@),
{
    proof {
        reveal_strlit("file:");
    }
    if let Some(argument) = find_icon_argument(string.as_slice()) {
        if let Some(start) = skip_marker(string.as_slice(), argument, "file:") {
            let end: usize = find_effective_end(string.as_slice(), start);
            stringify_range(string, start..end);
        }
    }
}

fn find_text_item(string: &[u8]) -> (start: Option<usize>)
    ensures
        match start {
            Some(offset) => text_item(string@) == Some(offset as int) && offset <= string@.len(),
            None => text_item(string@).is_none(),
        },
{
    proof {
        reveal_strlit("16|0|");
        reveal_strlit("16|1|");
        reveal_strlit("17|1|");
        reveal_strlit("17|2|");
    }
    let item: usize = find_last_item(string);
    if let Some(start) = skip_item_marker(string, item, "16|0|") {
        Some(start)
    } else if let Some(start) = skip_item_marker(string, item, "16|1|") {
        Some(start)
    } else if let Some(start) = skip_item_marker(string, item, "17|1|") {
        Some(start)
    } else {
        skip_item_marker(string, item, "17|2|")
    }
}

fn find_text_command(string: &[u8]) -> (start: Option<usize>)
    ensures
        match start {
            Some(offset) => text_command(string@) == Some(offset as int) && offset <= string@.len(),
            None => text_command(string@).is_none(),
        },
{
    proof {
        reveal_strlit("!!name ");
        reveal_strlit("!!display ");
        reveal_strlit("!!description ");
    }
    if let Some(start) = skip_marker(string, 0, "!!name ") {
        Some(start)
    } else if let Some(start) = skip_marker(string, 0, "!!display ") {
        Some(start)
    } else {
        skip_marker(string, 0, "!!description ")
    }
}

fn find_text_start(string: &[u8]) -> (start: Option<usize>)
    ensures
        match start {
            Some(offset) => text_start(string@) == Some(offset as int) && offset <= string@.len(),
            None => text_start(string@).is_none(),
        },
{
    if let Some(start) = find_text_command(string) {
        find_after_space(string, start)
    } else if let Some(start) = find_text_item(string) {
        skip_parts_from(string, start, 2)
    } else {
        None
    }
}

/// Quotes the display text of a statement: the name, display or description
/// of a command, or of a terminal item that names or describes a shop or
/// wheel entry, from where it begins up to the effective end.
pub fn convert_shop_and_wheel_texts(string: &mut Vec<u8>)
    ensures
        final(string)@ == texts_quoted(old(string)@),
{
    if let Some(start) = find_text_start(string.as_slice()) {
        let end: usize = find_effective_end(string.as_slice(), start);
        stringify_range(string, start..end);
    }
}

} // verus!
