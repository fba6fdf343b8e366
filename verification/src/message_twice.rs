//! What the message stringifier makes of a message that it has converted
//! before: it finds the literal that it made, and wraps it whole. The flag
//! parts behind the literal stay where they are.

use vstd::prelude::*;
use crate::laws::lemma_message_literal_free;
use crate::locate::{
    is_line_stop, last_item_offset, lemma_last_item_fixed, lemma_line_stop_bounds,
    lemma_scan_entered, lemma_trim_end_bounds, line_stop, scan, scan_step, trim_end, DIGIT_6,
};
use crate::stringify::{
    effective_end, flags_of, is_flag_part, lemma_effective_end_bounds, lemma_parts_push,
    message_literal, messages_quoted, past_item_marker, quoted, replaced, texts_of,
};
use crate::text::{
    all_free_of, all_free_of_pair, ascii, free_of, free_of_pair, has_prefix_at, is_whitespace_1,
    join, lemma_join_pair_free, lemma_join_split, lemma_split_concat, lemma_split_extend,
    lemma_split_free, lemma_split_join, lemma_split_len, lemma_split_pair_free, lemma_split_push,
    split, whitespace_before, NEWLINE, PIPE, QUOTE, SLASH,
};
use crate::twice::{
    lemma_field_quoted_twice, lemma_marker_bytes, lemma_marker_stays, lemma_quoted_bytes,
    lemma_trims_same_end, lemma_trims_shifted, lemma_trims_to_trim_end,
};

verus! {

/// The locator stops at a message item.
pub proof fn lemma_stops_at_message_item(s: Seq<u8>)
    requires
        last_item_offset(s) > 0,
        s[last_item_offset(s)] == DIGIT_6,
    ensures
        scan(s, last_item_offset(s) + 1).stopped,
{
    let item = last_item_offset(s);
    lemma_scan_entered(s, s.len() as int);
    assert(scan(s, item + 1) == scan_step(scan(s, item), item, s[item]));
}

/// Where a message begins, that is where it begins whatever follows.
proof fn lemma_message_start_fixed(x: Seq<u8>, y: Seq<u8>)
    requires
        past_item_marker(x, ascii("6|"@)) is Some,
        past_item_marker(x, ascii("6|"@)).unwrap() <= y.len(),
        forall|i: int| 0 <= i < past_item_marker(x, ascii("6|"@)).unwrap() ==> x[i] == y[i],
    ensures
        past_item_marker(y, ascii("6|"@)) == past_item_marker(x, ascii("6|"@)),
        past_item_marker(x, ascii("6|"@)).unwrap() == last_item_offset(x) + 2,
        x[last_item_offset(x) + 1] == PIPE,
{
    reveal_strlit("6|");
    let marker = ascii("6|"@);
    let item = last_item_offset(x);
    lemma_marker_bytes(x, item, marker);
    assert(marker[0] == DIGIT_6 && marker[1] == PIPE);
    lemma_stops_at_message_item(x);
    lemma_last_item_fixed(x, y, item + 1);
    lemma_marker_stays(x, y, item, marker, item + 2);
}

/// Where no part is a flag part, all parts are text parts.
proof fn lemma_all_texts(parts: Seq<Seq<u8>>)
    requires
        forall|i: int| 0 <= i < parts.len() ==> !is_flag_part(#[trigger] parts[i]),
    ensures
        texts_of(parts) == parts,
        flags_of(parts).len() == 0,
    decreases parts.len(),
{
    if parts.len() == 0 {
        reveal(Seq::filter);
    } else {
        let head = parts.drop_last();
        assert forall|i: int| 0 <= i < head.len() implies !is_flag_part(#[trigger] head[i]) by {
            assert(head[i] == parts[i]);
        }
        lemma_all_texts(head);
        lemma_parts_push(head, parts.last());
        assert(head.push(parts.last()) =~= parts);
    }
}

/// Where there are no flag parts, no part is a flag part.
proof fn lemma_no_flags(parts: Seq<Seq<u8>>)
    requires
        flags_of(parts).len() == 0,
    ensures
        forall|i: int| 0 <= i < parts.len() ==> !is_flag_part(#[trigger] parts[i]),
    decreases parts.len(),
{
    if parts.len() > 0 {
        let head = parts.drop_last();
        lemma_parts_push(head, parts.last());
        assert(head.push(parts.last()) =~= parts);
        lemma_no_flags(head);
        assert forall|i: int| 0 <= i < parts.len() implies !is_flag_part(#[trigger] parts[i]) by {
            if i < head.len() {
                assert(head[i] == parts[i]);
            }
        }
    }
}

/// A payload without flag parts becomes itself in quotes.
pub proof fn lemma_literal_of_text(payload: Seq<u8>)
    requires
        flags_of(split(payload, PIPE)).len() == 0,
    ensures
        message_literal(payload) == seq![QUOTE] + payload + seq![QUOTE],
{
    let parts = split(payload, PIPE);
    lemma_no_flags(parts);
    lemma_all_texts(parts);
    lemma_join_split(payload, PIPE);
}

/// The pieces of bytes behind one more byte that is no separator: the first
/// piece has that byte before it.
proof fn lemma_split_behind_byte(c: u8, s: Seq<u8>, sep: u8)
    requires
        c != sep,
    ensures
        split(s, sep).len() >= 1,
        split(seq![c] + s, sep) == split(s, sep).update(0, seq![c] + split(s, sep)[0]),
    decreases s.len(),
{
    lemma_split_len(s, sep);
    let nothing = Seq::<u8>::empty();
    if s.len() == 0 {
        assert(seq![c] + s =~= nothing.push(c));
        lemma_split_push(nothing, c, sep);
        assert(split(nothing, sep) =~= seq![nothing]);
        assert(seq![nothing].drop_last().push(nothing.push(c)) =~= seq![nothing].update(
            0,
            seq![c] + nothing,
        ));
    } else {
        let s0 = s.drop_last();
        let b = s.last();
        lemma_split_behind_byte(c, s0, sep);
        assert(s0.push(b) =~= s);
        assert((seq![c] + s0).push(b) =~= seq![c] + s);
        lemma_split_push(s0, b, sep);
        lemma_split_push(seq![c] + s0, b, sep);
        let before = split(s0, sep);
        let wrapped = before.update(0, seq![c] + before[0]);
        if b == sep {
            assert(wrapped.push(nothing) =~= before.push(nothing).update(0, seq![c] + before[0]));
        } else if before.len() == 1 {
            assert(wrapped.drop_last().push(wrapped.last().push(b)) =~= before.drop_last().push(
                before.last().push(b),
            ).update(0, seq![c] + before.last().push(b)));
        } else {
            assert(wrapped.drop_last().push(wrapped.last().push(b)) =~= before.drop_last().push(
                before.last().push(b),
            ).update(0, seq![c] + before[0]));
        }
    }
}

/// Text in quotes has no flag parts.
proof fn lemma_quoted_text_has_no_flags(payload: Seq<u8>)
    requires
        flags_of(split(payload, PIPE)).len() == 0,
    ensures
        flags_of(split(seq![QUOTE] + payload + seq![QUOTE], PIPE)).len() == 0,
{
    reveal_strlit("f=");
    reveal_strlit("p=");
    reveal_strlit("mute");
    reveal_strlit("instant");
    reveal_strlit("quiet");
    reveal_strlit("noclear");
    let parts = split(payload, PIPE);
    lemma_no_flags(parts);
    lemma_split_len(payload, PIPE);
    let open = seq![QUOTE] + payload;
    lemma_split_behind_byte(QUOTE, payload, PIPE);
    let opened = split(open, PIPE);
    assert(open + seq![QUOTE] =~= open.push(QUOTE));
    lemma_split_push(open, QUOTE, PIPE);
    let closed = split(open.push(QUOTE), PIPE);
    assert forall|i: int| 0 <= i < closed.len() implies !is_flag_part(#[trigger] closed[i]) by {
        let part = closed[i];
        if i == closed.len() - 1 {
            let inner = opened.last();
            assert(part == inner.push(QUOTE));
            assert(part.last() == QUOTE);
            if i == 0 {
                assert(inner == seq![QUOTE] + parts[0]);
                assert(part[0] == QUOTE);
                lemma_not_flag_behind_quote(part);
            } else {
                assert(inner == parts[i]);
                lemma_not_flag_before_quote(parts[i]);
            }
        } else {
            assert(part == opened[i]);
            if i == 0 {
                assert(part == seq![QUOTE] + parts[0]);
                assert(part[0] == QUOTE);
                lemma_not_flag_behind_quote(part);
            } else {
                assert(part == parts[i]);
            }
        }
    }
    lemma_all_texts(closed);
}

proof fn lemma_not_flag_behind_quote(part: Seq<u8>)
    requires
        part.len() > 0,
        part[0] == QUOTE,
    ensures
        !is_flag_part(part),
{
    reveal_strlit("f=");
    reveal_strlit("p=");
    reveal_strlit("mute");
    reveal_strlit("instant");
    reveal_strlit("quiet");
    reveal_strlit("noclear");
    if has_prefix_at(part, 0, ascii("f="@)) {
        assert(part.subrange(0, 2)[0] == part[0]);
    }
    if has_prefix_at(part, 0, ascii("p="@)) {
        assert(part.subrange(0, 2)[0] == part[0]);
    }
}

proof fn lemma_not_flag_before_quote(part: Seq<u8>)
    requires
        !is_flag_part(part),
    ensures
        !is_flag_part(part.push(QUOTE)),
{
    reveal_strlit("f=");
    reveal_strlit("p=");
    reveal_strlit("mute");
    reveal_strlit("instant");
    reveal_strlit("quiet");
    reveal_strlit("noclear");
    let closed = part.push(QUOTE);
    assert(closed.last() == QUOTE);
    if has_prefix_at(closed, 0, ascii("f="@)) {
        assert(closed.subrange(0, 2)[1] == closed[1]);
        if part.len() >= 2 {
            assert(part.subrange(0, 2) =~= closed.subrange(0, 2));
        }
    }
    if has_prefix_at(closed, 0, ascii("p="@)) {
        assert(closed.subrange(0, 2)[1] == closed[1]);
        if part.len() >= 2 {
            assert(part.subrange(0, 2) =~= closed.subrange(0, 2));
        }
    }
    assert(ascii("mute"@)[3] != QUOTE);
    assert(ascii("instant"@)[6] != QUOTE);
    assert(ascii("quiet"@)[4] != QUOTE);
    assert(ascii("noclear"@)[6] != QUOTE);
}

/// A second pass of the message stringifier over a message without flag
/// parts finds the literal that the first made and wraps it whole.
proof fn lemma_text_message_quoted_twice(x: Seq<u8>)
    requires
        past_item_marker(x, ascii("6|"@)) matches Some(start) ==> flags_of(
            split(x.subrange(start, effective_end(x, start)), PIPE),
        ).len() == 0,
    ensures
        match past_item_marker(x, ascii("6|"@)) {
            Some(start) => messages_quoted(messages_quoted(x)) == quoted(
                messages_quoted(x),
                start,
                effective_end(x, start) + 2,
            ),
            None => messages_quoted(messages_quoted(x)) == x,
        },
{
    if let Some(start) = past_item_marker(x, ascii("6|"@)) {
        let end = effective_end(x, start);
        lemma_effective_end_bounds(x, start);
        let payload = x.subrange(start, end);
        lemma_literal_of_text(payload);
        let once = quoted(x, start, end);
        assert(messages_quoted(x) =~= once);
        lemma_quoted_bytes(x, start, end);
        lemma_message_start_fixed(x, once);
        lemma_field_quoted_twice(x, start);
        let end2 = effective_end(once, start);
        let payload2 = once.subrange(start, end2);
        if end2 == end + 2 {
            assert(payload2 =~= seq![QUOTE] + payload + seq![QUOTE]);
            lemma_quoted_text_has_no_flags(payload);
            lemma_literal_of_text(payload2);
            assert(replaced(once, start, end2, seq![QUOTE] + payload2 + seq![QUOTE]) =~= quoted(
                once,
                start,
                end + 2,
            ));
        } else {
            assert(payload2 =~= Seq::<u8>::empty());
            assert(payload =~= Seq::<u8>::empty());
            lemma_literal_of_text(payload2);
            assert(replaced(once, start, end2, seq![QUOTE] + payload2 + seq![QUOTE]) =~= quoted(
                once,
                start,
                start + 2,
            ));
        }
    }
}

/// A byte that may be cut off the end of a payload: a byte of white space or
/// of another character of several bytes, or a slash.
pub open spec fn trimmable(b: u8) -> bool {
    b >= 0x80 || is_whitespace_1(b) || b == SLASH
}

proof fn lemma_trim_region(s: Seq<u8>, k: int)
    requires
        0 <= k <= s.len(),
    ensures
        0 <= trim_end(s, k) <= k,
        forall|i: int| trim_end(s, k) <= i < k ==> trimmable(s[i]),
    decreases k,
{
    let width = whitespace_before(s, k);
    if width > 0 {
        lemma_trim_region(s, k - width);
    }
}

proof fn lemma_trim_stays_behind(s: Seq<u8>, j: int, k: int)
    requires
        0 <= j < k <= s.len(),
        !trimmable(s[j]),
    ensures
        j < trim_end(s, k),
{
    lemma_trim_region(s, k);
}

/// Where the bytes of `s` and of `with` lie in `replaced(s, from, to, with)`.
proof fn lemma_replaced_bytes(s: Seq<u8>, from: int, to: int, with: Seq<u8>)
    requires
        0 <= from <= to <= s.len(),
    ensures
        replaced(s, from, to, with).len() == s.len() - (to - from) + with.len(),
        forall|j: int| 0 <= j < from ==> #[trigger] replaced(s, from, to, with)[j] == s[j],
        forall|j: int|
            from <= j < from + with.len() ==> #[trigger] replaced(s, from, to, with)[j] == with[j
                - from],
        forall|j: int|
            from + with.len() <= j < replaced(s, from, to, with).len() ==> #[trigger] replaced(
                s,
                from,
                to,
                with,
            )[j] == s[j - (from + with.len() - to)],
{
}

/// Where a payload that is not empty was replaced by bytes without a line
/// break and without two slashes in a row, the statement ends, for a field
/// that begins where the payload began, inside those bytes or right behind
/// them, behind each of their bytes that cannot be cut off.
proof fn lemma_end_of_replaced(x: Seq<u8>, start: int, with: Seq<u8>, m: int)
    requires
        0 < start <= x.len(),
        x[start - 1] != SLASH,
        start < effective_end(x, start),
        free_of(with, NEWLINE),
        free_of_pair(with, SLASH),
        0 <= m < with.len(),
        !trimmable(with[m]),
    ensures
        ({
            let once = replaced(x, start, effective_end(x, start), with);
            let end = effective_end(once, start);
            &&& start + m < end <= start + with.len()
            &&& forall|i: int| end <= i < start + with.len() ==> trimmable(once[i])
        }),
{
    let stop = line_stop(x, 0);
    lemma_line_stop_bounds(x, 0);
    lemma_trim_end_bounds(x, stop);
    let end = effective_end(x, start);
    let once = replaced(x, start, end, with);
    lemma_replaced_bytes(x, start, end, with);
    let a = start + with.len();
    let d = a - end;
    let stop2 = line_stop(once, 0);
    lemma_line_stop_bounds(once, 0);
    assert forall|i: int| 0 <= i <= start + m implies !is_line_stop(once, i) by {
        if i < start {
            assert(!is_line_stop(x, i));
            assert(once[i] == x[i]);
            if i + 1 < start {
                assert(once[i + 1] == x[i + 1]);
            }
        } else {
            assert(once[i] == with[i - start]);
            if i < start + m {
                assert(once[i + 1] == with[i - start + 1]);
            }
        }
    }
    assert(stop2 > start + m);
    if stop < x.len() {
        assert(is_line_stop(x, stop));
        assert(once[stop + d] == x[stop]);
        if x[stop] != NEWLINE {
            assert(once[stop + d + 1] == x[stop + 1]);
        }
        assert(is_line_stop(once, stop + d));
    }
    assert(stop2 <= stop + d);
    if stop2 >= a {
        if stop2 < stop + d {
            assert(is_line_stop(once, stop2));
            assert(once[stop2] == x[stop2 - d]);
            if once[stop2] != NEWLINE {
                assert(once[stop2 + 1] == x[stop2 + 1 - d]);
            }
            assert(is_line_stop(x, stop2 - d));
        }
        lemma_trims_to_trim_end(x, stop);
        lemma_trims_shifted(x, once, stop, end, d);
        lemma_trims_same_end(once, stop + d, a);
        lemma_trim_region(once, a);
        lemma_trim_stays_behind(once, start + m, a);
    } else {
        assert(is_line_stop(once, stop2));
        assert(once[stop2] == with[stop2 - start]);
        if stop2 + 1 < a {
            assert(once[stop2 + 1] == with[stop2 - start + 1]);
        }
        assert(stop2 == a - 1);
        lemma_trim_region(once, a - 1);
        lemma_trim_stays_behind(once, start + m, a - 1);
    }
}

/// What is kept and what is sorted out of parts that all are of one kind is
/// of that kind; the text parts are no flag parts, the flag parts are.
pub proof fn lemma_parts_keep(parts: Seq<Seq<u8>>, kind: spec_fn(Seq<u8>) -> bool)
    requires
        forall|i: int| 0 <= i < parts.len() ==> kind(#[trigger] parts[i]),
    ensures
        forall|i: int| 0 <= i < texts_of(parts).len() ==> kind(#[trigger] texts_of(parts)[i]),
        forall|i: int| 0 <= i < flags_of(parts).len() ==> kind(#[trigger] flags_of(parts)[i]),
        forall|i: int| 0 <= i < texts_of(parts).len() ==> !is_flag_part(#[trigger] texts_of(parts)[i]),
        forall|i: int| 0 <= i < flags_of(parts).len() ==> is_flag_part(#[trigger] flags_of(parts)[i]),
    decreases parts.len(),
{
    if parts.len() == 0 {
        reveal(Seq::filter);
    } else {
        let head = parts.drop_last();
        assert forall|i: int| 0 <= i < head.len() implies kind(#[trigger] head[i]) by {
            assert(head[i] == parts[i]);
        }
        lemma_parts_keep(head, kind);
        lemma_parts_push(head, parts.last());
        assert(head.push(parts.last()) =~= parts);
        assert(kind(parts[parts.len() - 1]));
    }
}

/// The text parts and the flag parts of parts laid end to end are those of
/// the one and then those of the other.
pub proof fn lemma_parts_concat(a: Seq<Seq<u8>>, b: Seq<Seq<u8>>)
    ensures
        texts_of(a + b) == texts_of(a) + texts_of(b),
        flags_of(a + b) == flags_of(a) + flags_of(b),
    decreases b.len(),
{
    if b.len() == 0 {
        reveal(Seq::filter);
        assert(a + b =~= a);
        assert(texts_of(a) + texts_of(b) =~= texts_of(a));
        assert(flags_of(a) + flags_of(b) =~= flags_of(a));
    } else {
        let b0 = b.drop_last();
        lemma_parts_concat(a, b0);
        lemma_parts_push(a + b0, b.last());
        lemma_parts_push(b0, b.last());
        assert((a + b0).push(b.last()) =~= a + b);
        assert(b0.push(b.last()) =~= b);
        assert((texts_of(a) + texts_of(b0)).push(b.last()) =~= texts_of(a) + texts_of(b0).push(
            b.last(),
        ));
        assert((flags_of(a) + flags_of(b0)).push(b.last()) =~= flags_of(a) + flags_of(b0).push(
            b.last(),
        ));
    }
}

/// A flag part is a flag part still when bytes that may be cut off are cut
/// off its end.
proof fn lemma_flag_part_trimmed(part: Seq<u8>, cut: Seq<u8>)
    requires
        is_flag_part(part + cut),
        forall|i: int| 0 <= i < cut.len() ==> trimmable(cut[i]),
    ensures
        is_flag_part(part),
{
    reveal_strlit("f=");
    reveal_strlit("p=");
    reveal_strlit("mute");
    reveal_strlit("instant");
    reveal_strlit("quiet");
    reveal_strlit("noclear");
    let whole = part + cut;
    if cut.len() == 0 {
        assert(whole =~= part);
    } else {
        assert(whole.last() == cut[cut.len() - 1]);
        assert(ascii("mute"@)[3] == 0x65);
        assert(ascii("instant"@)[6] == 0x74);
        assert(ascii("quiet"@)[4] == 0x74);
        assert(ascii("noclear"@)[6] == 0x72);
        let flag = ascii("f="@);
        let pause = ascii("p="@);
        if has_prefix_at(whole, 0, flag) {
            assert(whole.subrange(0, 2)[0] == whole[0] && whole.subrange(0, 2)[1] == whole[1]);
            assert(flag[0] == 0x66 && flag[1] == 0x3D);
            if part.len() < 2 {
                assert(whole[1] == cut[1 - part.len()]);
            }
            assert(part.subrange(0, 2) =~= whole.subrange(0, 2));
        } else if has_prefix_at(whole, 0, pause) {
            assert(whole.subrange(0, 2)[0] == whole[0] && whole.subrange(0, 2)[1] == whole[1]);
            assert(pause[0] == 0x70 && pause[1] == 0x3D);
            if part.len() < 2 {
                assert(whole[1] == cut[1 - part.len()]);
            }
            assert(part.subrange(0, 2) =~= whole.subrange(0, 2));
        }
    }
}

/// Flag parts, joined, are flag parts still when bytes that may be cut off
/// are cut off the end of what was joined.
proof fn lemma_flags_trimmed(flags: Seq<Seq<u8>>, k: int)
    requires
        flags.len() >= 1,
        all_free_of(flags, PIPE),
        forall|i: int| 0 <= i < flags.len() ==> is_flag_part(#[trigger] flags[i]),
        0 <= k <= join(flags, PIPE).len(),
        forall|i: int| k <= i < join(flags, PIPE).len() ==> trimmable(join(flags, PIPE)[i]),
    ensures
        forall|i: int|
            0 <= i < split(join(flags, PIPE).take(k), PIPE).len() ==> is_flag_part(
                #[trigger] split(join(flags, PIPE).take(k), PIPE)[i],
            ),
{
    let joined = join(flags, PIPE);
    let kept = joined.take(k);
    let cut = joined.skip(k);
    assert(kept + cut =~= joined);
    assert forall|i: int| 0 <= i < cut.len() implies cut[i] != PIPE by {
        assert(cut[i] == joined[k + i]);
        assert(trimmable(joined[k + i]));
    }
    lemma_split_extend(kept, cut, PIPE);
    lemma_split_join(flags, PIPE);
    let pieces = split(kept, PIPE);
    assert(flags == pieces.drop_last().push(pieces.last() + cut));
    assert forall|i: int| 0 <= i < pieces.len() implies is_flag_part(#[trigger] pieces[i]) by {
        if i < pieces.len() - 1 {
            assert(pieces[i] == pieces.drop_last()[i]);
            assert(pieces[i] == flags[i]);
        } else {
            assert(flags[i] == pieces.last() + cut);
            assert forall|j: int| 0 <= j < cut.len() implies trimmable(cut[j]) by {
                assert(cut[j] == joined[k + j]);
            }
            lemma_flag_part_trimmed(pieces.last(), cut);
        }
    }
}

/// Where every part is a flag part, all parts are flag parts.
proof fn lemma_all_flags(parts: Seq<Seq<u8>>)
    requires
        forall|i: int| 0 <= i < parts.len() ==> is_flag_part(#[trigger] parts[i]),
    ensures
        flags_of(parts) == parts,
        texts_of(parts).len() == 0,
    decreases parts.len(),
{
    if parts.len() == 0 {
        reveal(Seq::filter);
    } else {
        let head = parts.drop_last();
        assert forall|i: int| 0 <= i < head.len() implies is_flag_part(#[trigger] head[i]) by {
            assert(head[i] == parts[i]);
        }
        lemma_all_flags(head);
        lemma_parts_push(head, parts.last());
        assert(head.push(parts.last()) =~= parts);
    }
}

/// The empty payload has one part, which is text.
proof fn lemma_empty_payload_is_text()
    ensures
        flags_of(split(Seq::<u8>::empty(), PIPE)).len() == 0,
{
    reveal_strlit("f=");
    reveal_strlit("p=");
    reveal_strlit("mute");
    reveal_strlit("instant");
    reveal_strlit("quiet");
    reveal_strlit("noclear");
    let nothing = Seq::<u8>::empty();
    let parts = split(nothing, PIPE);
    assert(parts =~= seq![nothing]);
    assert(!is_flag_part(nothing));
    lemma_all_texts(parts);
}

/// The text parts of a payload, joined.
pub open spec fn message_text(payload: Seq<u8>) -> Seq<u8> {
    join(texts_of(split(payload, PIPE)), PIPE)
}

/// The flag parts of a payload, joined.
pub open spec fn message_flags(payload: Seq<u8>) -> Seq<u8> {
    join(flags_of(split(payload, PIPE)), PIPE)
}

/// The text of a payload has no flag parts.
proof fn lemma_message_text_is_text(payload: Seq<u8>)
    ensures
        flags_of(split(message_text(payload), PIPE)).len() == 0,
{
    let parts = split(payload, PIPE);
    let texts = texts_of(parts);
    lemma_split_free(payload, PIPE, PIPE);
    lemma_parts_keep(parts, |part: Seq<u8>| free_of(part, PIPE));
    if texts.len() == 0 {
        lemma_empty_payload_is_text();
    } else {
        assert(all_free_of(texts, PIPE));
        lemma_split_join(texts, PIPE);
        lemma_all_texts(texts);
    }
}

/// The literal of a payload with flag parts: it holds no line break and no
/// two slashes in a row if the payload holds none.
proof fn lemma_flagged_literal(payload: Seq<u8>)
    requires
        flags_of(split(payload, PIPE)).len() > 0,
        free_of(payload, NEWLINE),
        free_of_pair(payload, SLASH),
    ensures
        message_literal(payload) == seq![QUOTE] + message_text(payload) + seq![QUOTE] + seq![PIPE]
            + message_flags(payload),
        free_of(message_literal(payload), NEWLINE),
        free_of_pair(message_literal(payload), SLASH),
        all_free_of(flags_of(split(payload, PIPE)), PIPE),
        forall|i: int|
            0 <= i < flags_of(split(payload, PIPE)).len() ==> is_flag_part(
                #[trigger] flags_of(split(payload, PIPE))[i],
            ),
{
    let parts = split(payload, PIPE);
    let text = message_text(payload);
    let flags = message_flags(payload);
    lemma_message_literal_free(payload, NEWLINE);
    lemma_split_free(payload, PIPE, PIPE);
    lemma_parts_keep(parts, |part: Seq<u8>| free_of(part, PIPE));
    lemma_split_pair_free(payload, PIPE, SLASH);
    lemma_parts_keep(parts, |part: Seq<u8>| free_of_pair(part, SLASH));
    assert(all_free_of_pair(texts_of(parts), SLASH));
    assert(all_free_of_pair(flags_of(parts), SLASH));
    lemma_join_pair_free(texts_of(parts), PIPE, SLASH);
    lemma_join_pair_free(flags_of(parts), PIPE, SLASH);
    let literal = seq![QUOTE] + text + seq![QUOTE] + seq![PIPE] + flags;
    assert forall|i: int| 0 <= i && i + 1 < literal.len() implies !(literal[i] == SLASH
        && #[trigger] literal[i + 1] == SLASH) by {
        let n = text.len() as int;
        if i == 0 || i == n + 1 || i == n + 2 {
        } else if i <= n {
            assert(literal[i] == text[i - 1]);
            if i < n {
                assert(literal[i + 1] == text[i - 1 + 1]);
            }
        } else {
            assert(literal[i] == flags[i - n - 3]);
            assert(literal[i + 1] == flags[i - n - 3 + 1]);
        }
    }
}

/// The literal of a literal with flag parts behind it: the literal in quotes,
/// and the flag parts behind it.
proof fn lemma_literal_of_literal(text: Seq<u8>, flags: Seq<u8>)
    requires
        flags_of(split(text, PIPE)).len() == 0,
        forall|i: int|
            0 <= i < split(flags, PIPE).len() ==> is_flag_part(#[trigger] split(flags, PIPE)[i]),
    ensures
        message_literal(seq![QUOTE] + text + seq![QUOTE] + seq![PIPE] + flags) == seq![QUOTE] + (
        seq![QUOTE] + text + seq![QUOTE]) + seq![QUOTE] + seq![PIPE] + flags,
{
    let literal = seq![QUOTE] + text + seq![QUOTE];
    let left = split(literal, PIPE);
    let right = split(flags, PIPE);
    lemma_quoted_text_has_no_flags(text);
    lemma_no_flags(left);
    lemma_all_texts(left);
    lemma_all_flags(right);
    lemma_split_len(flags, PIPE);
    lemma_split_concat(literal, flags, PIPE);
    lemma_parts_concat(left, right);
    lemma_join_split(literal, PIPE);
    lemma_join_split(flags, PIPE);
    assert(texts_of(left) + texts_of(right) =~= left);
    assert(flags_of(left) + flags_of(right) =~= right);
}

/// A second pass of the message stringifier finds the payload where the first
/// found it, with the literal that the first made at its head, and wraps
/// that literal whole: the text in the quotes of the first pass is not
/// touched, and neither are the flag parts behind it.
pub proof fn lemma_messages_quoted_twice(x: Seq<u8>)
    ensures
        match past_item_marker(x, ascii("6|"@)) {
            Some(start) => messages_quoted(messages_quoted(x)) == quoted(
                messages_quoted(x),
                start,
                start + message_text(x.subrange(start, effective_end(x, start))).len() + 2,
            ),
            None => messages_quoted(messages_quoted(x)) == x,
        },
{
    if let Some(start) = past_item_marker(x, ascii("6|"@)) {
        let end = effective_end(x, start);
        let payload = x.subrange(start, end);
        lemma_effective_end_bounds(x, start);
        if flags_of(split(payload, PIPE)).len() == 0 {
            lemma_text_message_quoted_twice(x);
            lemma_no_flags(split(payload, PIPE));
            lemma_all_texts(split(payload, PIPE));
            lemma_join_split(payload, PIPE);
        } else {
            lemma_flagged_message_quoted_twice(x);
        }
    }
}

proof fn lemma_flagged_message_quoted_twice(x: Seq<u8>)
    requires
        past_item_marker(x, ascii("6|"@)) is Some,
        flags_of(
            split(
                x.subrange(
                    past_item_marker(x, ascii("6|"@)).unwrap(),
                    effective_end(x, past_item_marker(x, ascii("6|"@)).unwrap()),
                ),
                PIPE,
            ),
        ).len() > 0,
    ensures
        messages_quoted(messages_quoted(x)) == quoted(
            messages_quoted(x),
            past_item_marker(x, ascii("6|"@)).unwrap(),
            past_item_marker(x, ascii("6|"@)).unwrap() + message_text(
                x.subrange(
                    past_item_marker(x, ascii("6|"@)).unwrap(),
                    effective_end(x, past_item_marker(x, ascii("6|"@)).unwrap()),
                ),
            ).len() + 2,
        ),
{
    let start = past_item_marker(x, ascii("6|"@)).unwrap();
    let end = effective_end(x, start);
    let payload = x.subrange(start, end);
    lemma_effective_end_bounds(x, start);
    lemma_message_start_fixed(x, x);
    assert(start < end) by {
        if start == end {
            assert(payload =~= Seq::<u8>::empty());
            lemma_empty_payload_is_text();
        }
    }
    let stop = line_stop(x, 0);
    lemma_line_stop_bounds(x, 0);
    lemma_trim_end_bounds(x, stop);
    assert(free_of(payload, NEWLINE)) by {
        assert forall|i: int| 0 <= i < payload.len() implies payload[i] != NEWLINE by {
            assert(!is_line_stop(x, start + i));
        }
    }
    assert(free_of_pair(payload, SLASH)) by {
        assert forall|i: int| 0 <= i && i + 1 < payload.len() implies !(payload[i] == SLASH
            && #[trigger] payload[i + 1] == SLASH) by {
            assert(!is_line_stop(x, start + i));
            assert(payload[i] == x[start + i] && payload[i + 1] == x[start + i + 1]);
        }
    }
    let text = message_text(payload);
    let flags = message_flags(payload);
    let literal = message_literal(payload);
    lemma_flagged_literal(payload);
    let m = text.len() as int + 2;
    assert(literal[m] == PIPE);
    lemma_end_of_replaced(x, start, literal, m);
    let once = replaced(x, start, end, literal);
    assert(once == messages_quoted(x));
    lemma_replaced_bytes(x, start, end, literal);
    lemma_message_start_fixed(x, once);
    let end2 = effective_end(once, start);
    let k = end2 - (start + m + 1);
    let kept = flags.take(k);
    assert(forall|i: int| k <= i < flags.len() ==> trimmable(flags[i])) by {
        assert forall|i: int| k <= i < flags.len() implies trimmable(flags[i]) by {
            assert(once[start + m + 1 + i] == literal[m + 1 + i]);
            assert(literal[m + 1 + i] == flags[i]);
        }
    }
    lemma_flags_trimmed(flags_of(split(payload, PIPE)), k);
    lemma_message_text_is_text(payload);
    lemma_literal_of_literal(text, kept);
    let first = seq![QUOTE] + text + seq![QUOTE];
    let payload2 = once.subrange(start, end2);
    assert(payload2 =~= first + seq![PIPE] + kept);
    assert(replaced(once, start, end2, seq![QUOTE] + first + seq![QUOTE] + seq![PIPE] + kept)
        =~= quoted(once, start, start + m));
}

} // verus!
