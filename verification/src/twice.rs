//! What a stringifier makes of a statement that it has converted before: it
//! finds the literal that it made, and wraps it whole in one more pair of
//! quotes. Nothing inside the literal and nothing outside it is touched.

use vstd::prelude::*;
use crate::encoding::is_ascii_byte;
use crate::locate::{
    is_line_stop, last_item_offset, lemma_after_parts_bounds, lemma_after_parts_prefix,
    lemma_last_item_fixed, lemma_line_stop_bounds, lemma_scan_entered, lemma_trim_end_bounds,
    line_stop, scan, trim_end, State, DIGIT_1, DIGIT_4, DIGIT_6, DIGIT_7,
};
use crate::stringify::{
    after_space, effective_end, flag_end, flag_start, flags_quoted, flags_quoted_from,
    icon_argument, icon_item, icons_quoted, lemma_after_space_bounds, lemma_effective_end_bounds,
    lemma_flag_end_bounds, lemma_skip_whitespace_bounds, past_marker, quoted, skip_whitespace,
    text_command, text_item, text_start, texts_quoted,
};
use crate::text::{
    ascii, free_of, has_prefix_at, whitespace_at, whitespace_before, COMMA, NEWLINE, PIPE, QUOTE,
    SLASH, SPACE,
};

verus! {

/// Where the bytes of `s` lie in `quoted(s, from, to)`.
pub proof fn lemma_quoted_bytes(s: Seq<u8>, from: int, to: int)
    requires
        0 <= from <= to <= s.len(),
    ensures
        quoted(s, from, to).len() == s.len() + 2,
        forall|j: int| 0 <= j < from ==> #[trigger] quoted(s, from, to)[j] == s[j],
        quoted(s, from, to)[from] == QUOTE,
        forall|j: int| from < j <= to ==> #[trigger] quoted(s, from, to)[j] == s[j - 1],
        quoted(s, from, to)[to + 1] == QUOTE,
        forall|j: int| to + 1 < j < s.len() + 2 ==> #[trigger] quoted(s, from, to)[j] == s[j - 2],
{
}

/// The first comment or line break is where one is and none is before.
pub proof fn lemma_line_stop_is(s: Seq<u8>, from: int, k: int)
    requires
        0 <= from <= k <= s.len(),
        forall|i: int| from <= i < k ==> !is_line_stop(s, i),
        k == s.len() || is_line_stop(s, k),
    ensures
        line_stop(s, from) == k,
    decreases k - from,
{
    if from < k {
        lemma_line_stop_is(s, from + 1, k);
    }
}

/// White space is trimmed by what stands before the end alone.
pub proof fn lemma_trim_end_prefix(x: Seq<u8>, y: Seq<u8>, k: int)
    requires
        0 <= k <= x.len(),
        k <= y.len(),
        forall|i: int| 0 <= i < k ==> x[i] == y[i],
    ensures
        trim_end(y, k) == trim_end(x, k),
    decreases k,
{
    let width = whitespace_before(x, k);
    assert(whitespace_before(y, k) == width);
    if width > 0 {
        lemma_trim_end_prefix(x, y, k - width);
    }
}

/// From `k` back to `e` there is nothing but whole white-space characters.
pub open spec fn trims_to(s: Seq<u8>, k: int, e: int) -> bool
    decreases k,
{
    if k <= e {
        k == e
    } else {
        whitespace_before(s, k) > 0 && trims_to(s, k - whitespace_before(s, k), e)
    }
}

/// White space is trimmed over whole white-space characters.
pub proof fn lemma_trims_to_trim_end(s: Seq<u8>, k: int)
    requires
        0 <= k <= s.len(),
    ensures
        trims_to(s, k, trim_end(s, k)),
    decreases k,
{
    let width = whitespace_before(s, k);
    if width > 0 {
        lemma_trims_to_trim_end(s, k - width);
        lemma_trim_end_bounds(s, k - width);
    }
}

proof fn lemma_trims_to_ascii(s: Seq<u8>, k: int, e: int)
    requires
        0 < e <= k <= s.len(),
        trim_end(s, k) <= e,
        is_ascii_byte(s[e - 1]),
    ensures
        trims_to(s, k, e),
    decreases k,
{
    if k > e {
        let width = whitespace_before(s, k);
        lemma_trims_to_ascii(s, k - width, e);
    }
}

/// Where there is nothing but white space between two offsets, trimming from
/// the one is trimming from the other.
pub proof fn lemma_trims_same_end(s: Seq<u8>, k: int, e: int)
    requires
        trims_to(s, k, e),
    ensures
        trim_end(s, k) == trim_end(s, e),
    decreases k,
{
    if k > e {
        lemma_trims_same_end(s, k - whitespace_before(s, k), e);
    }
}

/// White space is trimmed backwards.
pub proof fn lemma_trims_bounds(s: Seq<u8>, k: int, e: int)
    requires
        trims_to(s, k, e),
    ensures
        e <= k,
    decreases k,
{
    if k > e {
        lemma_trims_bounds(s, k - whitespace_before(s, k), e);
    }
}

/// White space that was moved as a whole is white space where it stands now.
pub proof fn lemma_trims_shifted(x: Seq<u8>, y: Seq<u8>, k: int, e: int, by: int)
    requires
        0 <= e <= k <= x.len(),
        0 <= e + by,
        y.len() == x.len() + by,
        forall|j: int| e + by <= j < y.len() ==> #[trigger] y[j] == x[j - by],
        trims_to(x, k, e),
    ensures
        trims_to(y, k + by, e + by),
    decreases k,
{
    if k > e {
        let width = whitespace_before(x, k);
        lemma_trims_bounds(x, k - width, e);
        lemma_trims_shifted(x, y, k - width, e, by);
        if width >= 1 {
            assert(y[k + by - 1] == x[k - 1]);
        }
        if width >= 2 {
            assert(y[k + by - 2] == x[k - 2]);
        }
        if width >= 3 {
            assert(y[k + by - 3] == x[k - 3]);
        }
        assert(whitespace_before(y, k + by) == width);
    }
}

/// A field that was quoted is found again with its quotes: from where it
/// began up to two bytes behind where it ended. Quoting it once more is
/// wrapping that literal.
pub proof fn lemma_field_quoted_twice(x: Seq<u8>, start: int)
    requires
        0 < start <= x.len(),
        is_ascii_byte(x[start - 1]),
        x[start - 1] != SLASH,
    ensures
        ({
            let end = effective_end(x, start);
            let once = quoted(x, start, end);
            &&& quoted(once, start, effective_end(once, start)) == quoted(once, start, end + 2)
            &&& effective_end(once, start) == end + 2 || (end == start && effective_end(once, start)
                == start)
        }),
{
    lemma_line_stop_bounds(x, 0);
    let stop = line_stop(x, 0);
    lemma_trim_end_bounds(x, stop);
    let trimmed = trim_end(x, stop);
    let end = effective_end(x, start);
    let y = quoted(x, start, end);
    lemma_quoted_bytes(x, start, end);
    if stop < start {
        assert forall|i: int| 0 <= i < stop implies !is_line_stop(y, i) by {
            assert(!is_line_stop(x, i));
            assert(y[i] == x[i]);
            assert(y[i + 1] == x[i + 1]);
        }
        assert(is_line_stop(y, stop)) by {
            assert(is_line_stop(x, stop));
            assert(y[stop] == x[stop]);
            if x[stop] != NEWLINE {
                assert(y[stop + 1] == x[stop + 1]);
            }
        }
        lemma_line_stop_is(y, 0, stop);
        lemma_trim_end_prefix(x, y, stop);
        assert(effective_end(y, start) == start);
        assert(quoted(y, start, start) =~= quoted(y, start, start + 2));
    } else {
        assert forall|i: int| 0 <= i < stop + 2 implies !is_line_stop(y, i) by {
            if i < start {
                assert(!is_line_stop(x, i));
                assert(y[i] == x[i]);
            } else if i == start {
            } else if i <= end {
                assert(!is_line_stop(x, i - 1));
                assert(y[i] == x[i - 1]);
                if i < end {
                    assert(y[i + 1] == x[i]);
                }
            } else if i == end + 1 {
            } else {
                assert(!is_line_stop(x, i - 2));
                assert(y[i] == x[i - 2]);
                if i + 1 < y.len() {
                    assert(y[i + 1] == x[i - 1]);
                }
            }
        }
        if stop < x.len() {
            assert(is_line_stop(x, stop));
            assert(y[stop + 2] == x[stop]);
            if x[stop] != NEWLINE {
                assert(y[stop + 3] == x[stop + 1]);
            }
            assert(is_line_stop(y, stop + 2));
        }
        lemma_line_stop_is(y, 0, stop + 2);
        if trimmed >= start {
            lemma_trims_to_trim_end(x, stop);
        } else {
            lemma_trims_to_ascii(x, stop, start);
        }
        lemma_trims_shifted(x, y, stop, end, 2);
        lemma_trims_same_end(y, stop + 2, end + 2);
        assert(whitespace_before(y, end + 2) == 0);
        assert(effective_end(y, start) == end + 2);
    }
}

/// The bytes of a marker that a statement holds.
pub proof fn lemma_marker_bytes(s: Seq<u8>, at: int, marker: Seq<u8>)
    requires
        has_prefix_at(s, at, marker),
    ensures
        forall|j: int| 0 <= j < marker.len() ==> s[at + j] == #[trigger] marker[j],
{
    assert forall|j: int| 0 <= j < marker.len() implies s[at + j] == #[trigger] marker[j] by {
        assert(s.subrange(at, at + marker.len())[j] == s[at + j]);
    }
}

/// A marker that stands before a place stands there whatever follows the
/// place.
pub proof fn lemma_marker_stays(x: Seq<u8>, y: Seq<u8>, at: int, marker: Seq<u8>, start: int)
    requires
        has_prefix_at(x, at, marker),
        at + marker.len() <= start <= y.len(),
        forall|i: int| 0 <= i < start ==> x[i] == y[i],
    ensures
        has_prefix_at(y, at, marker),
{
    assert(y.subrange(at, at + marker.len()) =~= x.subrange(at, at + marker.len()));
}

/// A marker without a quote that does not stand at a place before a quote
/// does not come to stand there by the quote.
pub proof fn lemma_marker_stays_away(x: Seq<u8>, y: Seq<u8>, at: int, marker: Seq<u8>, start: int)
    requires
        !has_prefix_at(x, at, marker),
        0 <= at <= start <= x.len(),
        start < y.len(),
        y[start] == QUOTE,
        free_of(marker, QUOTE),
        forall|i: int| 0 <= i < start ==> x[i] == y[i],
    ensures
        !has_prefix_at(y, at, marker),
{
    if has_prefix_at(y, at, marker) {
        lemma_marker_bytes(y, at, marker);
        if at + marker.len() <= start {
            assert(x.subrange(at, at + marker.len()) =~= y.subrange(at, at + marker.len()));
        } else {
            assert(y[at + (start - at)] == marker[start - at]);
        }
    }
}

/// The first space is found by what stands before its end alone.
pub proof fn lemma_after_space_prefix(x: Seq<u8>, y: Seq<u8>, from: int)
    requires
        0 <= from <= x.len(),
        after_space(x, from) is Some,
        after_space(x, from).unwrap() <= y.len(),
        forall|i: int| 0 <= i < after_space(x, from).unwrap() ==> x[i] == y[i],
    ensures
        after_space(y, from) == after_space(x, from),
    decreases x.len() - from,
{
    lemma_after_space_bounds(x, from);
    if from < x.len() && x[from] != SPACE {
        lemma_after_space_bounds(x, from + 1);
        lemma_after_space_prefix(x, y, from + 1);
    }
}

/// The locator stops at an item whose code begins with `17`.
pub proof fn lemma_stops_at_shop_item(s: Seq<u8>)
    requires
        last_item_offset(s) > 0,
        last_item_offset(s) + 2 <= s.len(),
        s[last_item_offset(s)] == DIGIT_1,
        s[last_item_offset(s) + 1] == DIGIT_7,
    ensures
        scan(s, last_item_offset(s) + 2).stopped,
{
    let item = last_item_offset(s);
    lemma_scan_entered(s, s.len() as int);
    assert(scan(s, item + 1).state == State::Item1);
    assert(scan(s, item + 2).stopped);
}

/// The locator stops at a wheel item whose code is not `164`.
pub proof fn lemma_stops_at_wheel_item(s: Seq<u8>)
    requires
        last_item_offset(s) > 0,
        last_item_offset(s) + 4 <= s.len(),
        s[last_item_offset(s)] == DIGIT_1,
        s[last_item_offset(s) + 1] == DIGIT_6,
        s[last_item_offset(s) + 2] == PIPE,
        s[last_item_offset(s) + 3] != PIPE,
        s[last_item_offset(s) + 3] != DIGIT_4,
    ensures
        scan(s, last_item_offset(s) + 4).stopped,
{
    let item = last_item_offset(s);
    lemma_scan_entered(s, s.len() as int);
    assert(scan(s, item + 1).state == State::Item1);
    assert(scan(s, item + 2).state == State::WheelCommand);
    assert(scan(s, item + 3) == scan(s, item + 2));
    assert(scan(s, item + 4).stopped);
}

/// `y` is `x` up to `start`, and has a quote there.
pub open spec fn quoted_at(x: Seq<u8>, y: Seq<u8>, start: int) -> bool {
    &&& 0 <= start <= x.len()
    &&& start < y.len()
    &&& y[start] == QUOTE
    &&& forall|i: int| 0 <= i < start ==> x[i] == y[i]
}

proof fn lemma_text_command_fixed(x: Seq<u8>, y: Seq<u8>, start: int)
    requires
        quoted_at(x, y, start),
        text_command(x) matches Some(past) ==> past <= start,
    ensures
        text_command(y) == text_command(x),
{
    reveal_strlit("!!name ");
    reveal_strlit("!!display ");
    reveal_strlit("!!description ");
    let name = ascii("!!name "@);
    let display = ascii("!!display "@);
    let description = ascii("!!description "@);
    if has_prefix_at(x, 0, name) {
        lemma_marker_stays(x, y, 0, name, start);
    } else {
        lemma_marker_stays_away(x, y, 0, name, start);
        if has_prefix_at(x, 0, display) {
            lemma_marker_stays(x, y, 0, display, start);
        } else {
            lemma_marker_stays_away(x, y, 0, display, start);
            if has_prefix_at(x, 0, description) {
                lemma_marker_stays(x, y, 0, description, start);
            } else {
                lemma_marker_stays_away(x, y, 0, description, start);
            }
        }
    }
}

proof fn lemma_text_item_fixed(x: Seq<u8>, y: Seq<u8>, start: int)
    requires
        quoted_at(x, y, start),
        text_item(x) matches Some(past) && past <= start,
    ensures
        text_item(y) == text_item(x),
{
    reveal_strlit("16|0|");
    reveal_strlit("16|1|");
    reveal_strlit("17|1|");
    reveal_strlit("17|2|");
    let item = last_item_offset(x);
    let wheel_name = ascii("16|0|"@);
    let wheel_text = ascii("16|1|"@);
    let shop_title = ascii("17|1|"@);
    let shop_text = ascii("17|2|"@);
    if has_prefix_at(x, item, wheel_name) {
        lemma_marker_bytes(x, item, wheel_name);
        assert(wheel_name[0] == DIGIT_1 && wheel_name[1] == DIGIT_6 && wheel_name[2] == PIPE
            && wheel_name[3] == 0x30);
        lemma_stops_at_wheel_item(x);
        lemma_last_item_fixed(x, y, item + 4);
        lemma_marker_stays(x, y, item, wheel_name, start);
    } else if has_prefix_at(x, item, wheel_text) {
        lemma_marker_bytes(x, item, wheel_text);
        assert(wheel_text[0] == DIGIT_1 && wheel_text[1] == DIGIT_6 && wheel_text[2] == PIPE
            && wheel_text[3] == 0x31);
        lemma_stops_at_wheel_item(x);
        lemma_last_item_fixed(x, y, item + 4);
        lemma_marker_stays_away(x, y, item, wheel_name, start);
        lemma_marker_stays(x, y, item, wheel_text, start);
    } else if has_prefix_at(x, item, shop_title) {
        lemma_marker_bytes(x, item, shop_title);
        assert(shop_title[0] == DIGIT_1 && shop_title[1] == DIGIT_7);
        lemma_stops_at_shop_item(x);
        lemma_last_item_fixed(x, y, item + 2);
        lemma_marker_stays_away(x, y, item, wheel_name, start);
        lemma_marker_stays_away(x, y, item, wheel_text, start);
        lemma_marker_stays(x, y, item, shop_title, start);
    } else {
        lemma_marker_bytes(x, item, shop_text);
        assert(shop_text[0] == DIGIT_1 && shop_text[1] == DIGIT_7);
        lemma_stops_at_shop_item(x);
        lemma_last_item_fixed(x, y, item + 2);
        lemma_marker_stays_away(x, y, item, wheel_name, start);
        lemma_marker_stays_away(x, y, item, wheel_text, start);
        lemma_marker_stays_away(x, y, item, shop_title, start);
        lemma_marker_stays(x, y, item, shop_text, start);
    }
}

/// The display text of a statement begins right after a space or a pipe.
pub proof fn lemma_text_start_bounds(x: Seq<u8>)
    requires
        text_start(x) is Some,
    ensures
        0 < text_start(x).unwrap() <= x.len(),
        x[text_start(x).unwrap() - 1] == SPACE || x[text_start(x).unwrap() - 1] == PIPE,
        text_command(x) matches Some(past) ==> past <= text_start(x).unwrap(),
        text_command(x) is None ==> text_item(x) is Some && text_item(x).unwrap() <= text_start(
            x,
        ).unwrap(),
{
    if let Some(past) = text_command(x) {
        lemma_after_space_bounds(x, past);
    } else if let Some(past) = text_item(x) {
        lemma_after_parts_bounds(x, past, 2);
    }
}

/// A second pass of the display-text stringifier finds the display text where
/// the first found it, with the quotes of the first around it, and wraps that
/// literal whole: nothing between the quotes of the first pass and nothing
/// outside them is touched.
pub proof fn lemma_texts_quoted_twice(x: Seq<u8>)
    ensures
        match text_start(x) {
            Some(start) => texts_quoted(texts_quoted(x)) == quoted(
                texts_quoted(x),
                start,
                effective_end(x, start) + 2,
            ),
            None => texts_quoted(texts_quoted(x)) == x,
        },
{
    if let Some(start) = text_start(x) {
        lemma_text_start_bounds(x);
        let end = effective_end(x, start);
        lemma_effective_end_bounds(x, start);
        let y = quoted(x, start, end);
        lemma_quoted_bytes(x, start, end);
        assert(quoted_at(x, y, start));
        if let Some(past) = text_command(x) {
            lemma_text_command_fixed(x, y, start);
            lemma_after_space_prefix(x, y, past);
        } else {
            lemma_text_command_fixed(x, y, start);
            lemma_text_item_fixed(x, y, start);
            lemma_after_parts_prefix(x, y, text_item(x).unwrap(), 2);
        }
        assert(text_start(y) == Some(start));
        lemma_field_quoted_twice(x, start);
    }
}

proof fn lemma_icon_item_fixed(x: Seq<u8>, y: Seq<u8>, start: int)
    requires
        quoted_at(x, y, start),
        icon_item(x) matches Some(past) && past <= start,
    ensures
        icon_item(y) == icon_item(x),
{
    reveal_strlit("17|0|");
    reveal_strlit("16|2|");
    let item = last_item_offset(x);
    let shop_icon = ascii("17|0|"@);
    let wheel_icon = ascii("16|2|"@);
    if has_prefix_at(x, item, shop_icon) {
        lemma_marker_bytes(x, item, shop_icon);
        assert(shop_icon[0] == DIGIT_1 && shop_icon[1] == DIGIT_7);
        lemma_stops_at_shop_item(x);
        lemma_last_item_fixed(x, y, item + 2);
        lemma_marker_stays(x, y, item, shop_icon, start);
    } else {
        lemma_marker_bytes(x, item, wheel_icon);
        assert(wheel_icon[0] == DIGIT_1 && wheel_icon[1] == DIGIT_6 && wheel_icon[2] == PIPE
            && wheel_icon[3] == 0x32);
        lemma_stops_at_wheel_item(x);
        lemma_last_item_fixed(x, y, item + 4);
        lemma_marker_stays_away(x, y, item, shop_icon, start);
        lemma_marker_stays(x, y, item, wheel_icon, start);
    }
}

/// The offset at which the path of the icon file of `s` begins, where it has
/// one: right after `file:` at its icon argument.
pub open spec fn icon_path(s: Seq<u8>) -> Option<int> {
    match icon_argument(s) {
        Some(argument) => past_marker(s, argument, ascii("file:"@)),
        None => None,
    }
}

proof fn lemma_icon_path_fixed(x: Seq<u8>, y: Seq<u8>)
    requires
        icon_path(x) is Some,
        quoted_at(x, y, icon_path(x).unwrap()),
    ensures
        icon_path(y) == icon_path(x),
        0 < icon_path(x).unwrap() <= x.len(),
        x[icon_path(x).unwrap() - 1] != SLASH,
        is_ascii_byte(x[icon_path(x).unwrap() - 1]),
{
    reveal_strlit("!!icon ");
    reveal_strlit("file:");
    let start = icon_path(x).unwrap();
    let argument = icon_argument(x).unwrap();
    let command = ascii("!!icon "@);
    let file = ascii("file:"@);
    lemma_marker_bytes(x, argument, file);
    assert(file[4] == 0x3A);
    if has_prefix_at(x, 0, command) {
        lemma_after_space_bounds(x, 7);
        lemma_marker_stays(x, y, 0, command, start);
        lemma_after_space_prefix(x, y, 7);
    } else {
        lemma_marker_stays_away(x, y, 0, command, start);
        let past = icon_item(x).unwrap();
        lemma_after_parts_bounds(x, past, 2);
        lemma_icon_item_fixed(x, y, start);
        lemma_after_parts_prefix(x, y, past, 2);
    }
    lemma_marker_stays(x, y, argument, file, start);
}

/// A second pass of the icon stringifier finds the path where the first found
/// it, with the quotes of the first around it, and wraps that literal whole.
pub proof fn lemma_icons_quoted_twice(x: Seq<u8>)
    ensures
        match icon_path(x) {
            Some(start) => icons_quoted(icons_quoted(x)) == quoted(
                icons_quoted(x),
                start,
                effective_end(x, start) + 2,
            ),
            None => icons_quoted(icons_quoted(x)) == x,
        },
{
    if let Some(start) = icon_path(x) {
        reveal_strlit("file:");
        let end = effective_end(x, start);
        lemma_effective_end_bounds(x, start);
        let y = quoted(x, start, end);
        lemma_quoted_bytes(x, start, end);
        assert(quoted_at(x, y, start));
        lemma_icon_path_fixed(x, y);
        lemma_field_quoted_twice(x, start);
    }
}

/// `s` with each flag name from `from` on in two pairs of quotes.
pub open spec fn flags_requoted_from(s: Seq<u8>, from: int) -> Seq<u8>
    decreases s.len() - from,
{
    let start = flag_start(s, from);
    let end = flag_end(s, start);
    let named = quoted(quoted(s, start, end), start, end + 2);
    if 0 <= from <= start <= end < s.len() && s[end] == COMMA {
        flags_requoted_from(named, end + 5)
    } else {
        named
    }
}

proof fn lemma_skip_whitespace_behind(p: Seq<u8>, t: Seq<u8>, k: int)
    requires
        0 <= k <= t.len(),
    ensures
        skip_whitespace(p + t, p.len() + k) == p.len() + skip_whitespace(t, k),
    decreases t.len() - k,
{
    let s = p + t;
    let n = p.len() as int;
    if k < t.len() {
        assert(s[n + k] == t[k]);
    }
    if k + 1 < t.len() {
        assert(s[n + k + 1] == t[k + 1]);
    }
    if k + 2 < t.len() {
        assert(s[n + k + 2] == t[k + 2]);
    }
    let width = whitespace_at(t, k);
    assert(whitespace_at(s, n + k) == width);
    if width > 0 {
        lemma_skip_whitespace_behind(p, t, k + width);
    }
}

proof fn lemma_flag_end_behind(p: Seq<u8>, t: Seq<u8>, k: int)
    requires
        0 <= k <= t.len(),
    ensures
        flag_end(p + t, p.len() + k) == p.len() + flag_end(t, k),
    decreases t.len() - k,
{
    if k < t.len() {
        assert((p + t)[p.len() + k] == t[k]);
        if !(t[k] == COMMA || t[k] == NEWLINE) {
            lemma_flag_end_behind(p, t, k + 1);
        }
    }
}

proof fn lemma_flag_behind(p: Seq<u8>, t: Seq<u8>, k: int)
    requires
        0 <= k <= t.len(),
    ensures
        flag_start(p + t, p.len() + k) == p.len() + flag_start(t, k),
        flag_end(p + t, flag_start(p + t, p.len() + k)) == p.len() + flag_end(t, flag_start(t, k)),
        k <= flag_start(t, k) <= flag_end(t, flag_start(t, k)) <= t.len(),
        quoted(p + t, p.len() + flag_start(t, k), p.len() + flag_end(t, flag_start(t, k))) == p
            + quoted(t, flag_start(t, k), flag_end(t, flag_start(t, k))),
{
    lemma_skip_whitespace_behind(p, t, k);
    lemma_skip_whitespace_bounds(t, k);
    let start = flag_start(t, k);
    lemma_flag_end_behind(p, t, start);
    lemma_flag_end_bounds(t, start);
    let end = flag_end(t, start);
    assert(quoted(p + t, p.len() + start, p.len() + end) =~= p + quoted(t, start, end));
}

/// The flags stringifier, begun behind some bytes, leaves them as they are
/// and does behind them what it does without them.
pub proof fn lemma_flags_quoted_behind(p: Seq<u8>, t: Seq<u8>, k: int)
    requires
        0 <= k <= t.len(),
    ensures
        flags_quoted_from(p + t, p.len() + k) == p + flags_quoted_from(t, k),
    decreases t.len() - k,
{
    lemma_flag_behind(p, t, k);
    let start = flag_start(t, k);
    let end = flag_end(t, start);
    if end < t.len() && t[end] == COMMA {
        assert((p + t)[p.len() + end] == t[end]);
        lemma_flags_quoted_behind(p, quoted(t, start, end), end + 3);
    } else if end < t.len() {
        assert((p + t)[p.len() + end] == t[end]);
    }
}

proof fn lemma_flags_requoted_behind(p: Seq<u8>, t: Seq<u8>, k: int)
    requires
        0 <= k <= t.len(),
    ensures
        flags_requoted_from(p + t, p.len() + k) == p + flags_requoted_from(t, k),
    decreases t.len() - k,
{
    lemma_flag_behind(p, t, k);
    let start = flag_start(t, k);
    let end = flag_end(t, start);
    let once = quoted(t, start, end);
    assert(quoted(p + once, p.len() + start, p.len() + end + 2) =~= p + quoted(once, start, end + 2));
    if end < t.len() && t[end] == COMMA {
        assert((p + t)[p.len() + end] == t[end]);
        lemma_flags_requoted_behind(p, quoted(once, start, end + 2), end + 5);
    } else if end < t.len() {
        assert((p + t)[p.len() + end] == t[end]);
    }
}

proof fn lemma_skip_whitespace_to_quote(x: Seq<u8>, y: Seq<u8>, from: int)
    requires
        0 <= from <= x.len(),
        quoted_at(x, y, skip_whitespace(x, from)),
    ensures
        skip_whitespace(y, from) == skip_whitespace(x, from),
    decreases x.len() - from,
{
    lemma_skip_whitespace_bounds(x, from);
    let width = whitespace_at(x, from);
    if width > 0 {
        lemma_skip_whitespace_bounds(x, from + width);
        lemma_skip_whitespace_to_quote(x, y, from + width);
        assert(whitespace_at(y, from) == width);
    } else {
        assert(whitespace_at(y, from) == 0);
    }
}

proof fn lemma_flag_end_is(s: Seq<u8>, from: int, k: int)
    requires
        0 <= from <= k <= s.len(),
        forall|i: int| from <= i < k ==> s[i] != COMMA && s[i] != NEWLINE,
        k < s.len() ==> s[k] == COMMA || s[k] == NEWLINE,
    ensures
        flag_end(s, from) == k,
    decreases k - from,
{
    if from < k {
        lemma_flag_end_is(s, from + 1, k);
    }
}

/// A flag name that was quoted is found again with its quotes.
proof fn lemma_flag_found_again(x: Seq<u8>, y: Seq<u8>, from: int)
    requires
        0 <= from <= x.len(),
        y.len() >= flag_end(x, flag_start(x, from)) + 2,
        forall|i: int|
            0 <= i < flag_end(x, flag_start(x, from)) + 2 ==> y[i] == quoted(
                x,
                flag_start(x, from),
                flag_end(x, flag_start(x, from)),
            )[i],
        y.len() > flag_end(x, flag_start(x, from)) + 2 ==> y[flag_end(x, flag_start(x, from)) + 2]
            == COMMA || y[flag_end(x, flag_start(x, from)) + 2] == NEWLINE,
    ensures
        flag_start(y, from) == flag_start(x, from),
        flag_end(y, flag_start(y, from)) == flag_end(x, flag_start(x, from)) + 2,
{
    lemma_skip_whitespace_bounds(x, from);
    let start = flag_start(x, from);
    lemma_flag_end_bounds(x, start);
    let end = flag_end(x, start);
    lemma_quoted_bytes(x, start, end);
    let once = quoted(x, start, end);
    if skip_whitespace(x, from) < x.len() {
        assert(quoted_at(x, y, start)) by {
            assert(y[start] == once[start]);
            assert forall|i: int| 0 <= i < start implies x[i] == y[i] by {
                assert(y[i] == once[i]);
            }
        }
        lemma_skip_whitespace_to_quote(x, y, from);
    } else {
        assert(y[from] == once[from]);
        assert(whitespace_at(y, from) == 0);
    }
    assert forall|i: int| start <= i < end + 2 implies y[i] != COMMA && y[i] != NEWLINE by {
        assert(y[i] == once[i]);
        if start < i <= end {
            assert(once[i] == x[i - 1]);
        }
    }
    lemma_flag_end_is(y, start, end + 2);
}

proof fn lemma_flags_twice_last(s: Seq<u8>, from: int)
    requires
        0 <= from <= s.len(),
        !(flag_end(s, flag_start(s, from)) < s.len() && s[flag_end(s, flag_start(s, from))]
            == COMMA),
    ensures
        flags_quoted_from(flags_quoted_from(s, from), from) == flags_requoted_from(s, from),
{
    lemma_skip_whitespace_bounds(s, from);
    let start = flag_start(s, from);
    lemma_flag_end_bounds(s, start);
    let end = flag_end(s, start);
    let once = quoted(s, start, end);
    lemma_quoted_bytes(s, start, end);
    if end < s.len() {
        assert(once[end + 2] == s[end]);
    }
    lemma_flag_found_again(s, once, from);
}

/// What is left of a statement behind its first flag name, quoted, and the
/// comma after it.
spec fn behind_first_flag(s: Seq<u8>, from: int) -> Seq<u8> {
    let start = flag_start(s, from);
    let end = flag_end(s, start);
    quoted(s, start, end).skip(end + 3)
}

/// Quotes put into bytes that others follow are put into those bytes alone.
proof fn lemma_quoted_in_front(p: Seq<u8>, t: Seq<u8>, from: int, to: int)
    requires
        0 <= from <= to <= p.len(),
    ensures
        quoted(p + t, from, to) == quoted(p, from, to) + t,
{
    assert(quoted(p + t, from, to) =~= quoted(p, from, to) + t);
}

/// The first flag name of a statement and the comma behind it, as the first
/// pass leaves them, are found again whatever follows them.
proof fn lemma_first_flag_found_again(s: Seq<u8>, from: int, rest: Seq<u8>)
    requires
        0 <= from <= s.len(),
        flag_end(s, flag_start(s, from)) < s.len(),
        s[flag_end(s, flag_start(s, from))] == COMMA,
    ensures
        ({
            let start = flag_start(s, from);
            let end = flag_end(s, start);
            let y = quoted(s, start, end).take(end + 3) + rest;
            &&& from <= start <= end
            &&& flag_start(y, from) == start
            &&& flag_end(y, start) == end + 2
            &&& y[end + 2] == COMMA
        }),
{
    lemma_skip_whitespace_bounds(s, from);
    let start = flag_start(s, from);
    lemma_flag_end_bounds(s, start);
    let end = flag_end(s, start);
    let once = quoted(s, start, end);
    lemma_quoted_bytes(s, start, end);
    let p = once.take(end + 3);
    let y = p + rest;
    assert forall|i: int| 0 <= i < end + 2 implies y[i] == once[i] by {
        assert(y[i] == p[i]);
    }
    assert(y[end + 2] == p[end + 2]);
    assert(once[end + 2] == s[end]);
    lemma_flag_found_again(s, y, from);
}

proof fn lemma_flags_twice_step(s: Seq<u8>, from: int)
    requires
        0 <= from <= s.len(),
        flag_end(s, flag_start(s, from)) < s.len(),
        s[flag_end(s, flag_start(s, from))] == COMMA,
        flags_quoted_from(flags_quoted_from(behind_first_flag(s, from), 0), 0)
            == flags_requoted_from(behind_first_flag(s, from), 0),
    ensures
        flags_quoted_from(flags_quoted_from(s, from), from) == flags_requoted_from(s, from),
{
    let start = flag_start(s, from);
    let end = flag_end(s, start);
    let once = quoted(s, start, end);
    let p = once.take(end + 3);
    let t = once.skip(end + 3);
    let rest = flags_quoted_from(t, 0);
    let y = p + rest;
    let p2 = quoted(p, start, end + 2);
    lemma_first_flag_found_again(s, from, rest);
    assert(once.len() == s.len() + 2) by {
        lemma_quoted_bytes(s, start, end);
    }
    assert(p.len() == end + 3);
    assert(p2.len() == end + 5) by {
        lemma_quoted_bytes(p, start, end + 2);
    }
    assert(p + t == once) by {
        assert(p + t =~= once);
    }
    assert(flags_quoted_from(s, from) == y) by {
        lemma_flags_quoted_behind(p, t, 0);
    }
    assert(flags_quoted_from(y, from) == p2 + flags_quoted_from(rest, 0)) by {
        lemma_quoted_in_front(p, rest, start, end + 2);
        lemma_flags_quoted_behind(p2, rest, 0);
    }
    assert(flags_requoted_from(s, from) == p2 + flags_requoted_from(t, 0)) by {
        lemma_quoted_in_front(p, t, start, end + 2);
        lemma_flags_requoted_behind(p2, t, 0);
    }
}

/// What a second pass of the flags stringifier makes of what the first made
/// from `from` on: each flag name is found again with its quotes, and wrapped
/// whole.
pub proof fn lemma_flags_quoted_from_twice(s: Seq<u8>, from: int)
    requires
        0 <= from <= s.len(),
    ensures
        flags_quoted_from(flags_quoted_from(s, from), from) == flags_requoted_from(s, from),
    decreases s.len() - from,
{
    lemma_skip_whitespace_bounds(s, from);
    let start = flag_start(s, from);
    lemma_flag_end_bounds(s, start);
    let end = flag_end(s, start);
    if end < s.len() && s[end] == COMMA {
        lemma_quoted_bytes(s, start, end);
        lemma_flags_quoted_from_twice(behind_first_flag(s, from), 0);
        lemma_flags_twice_step(s, from);
    } else {
        lemma_flags_twice_last(s, from);
    }
}

/// A second pass of the flags stringifier finds each flag name where the
/// first found it, with the quotes of the first around it, and wraps that
/// literal whole.
pub proof fn lemma_flags_quoted_twice(s: Seq<u8>)
    ensures
        flags_quoted(flags_quoted(s)) == match past_marker(s, 0, ascii("Flags:"@)) {
            Some(from) => flags_requoted_from(s, from),
            None => s,
        },
{
    let marker = ascii("Flags:"@);
    if let Some(from) = past_marker(s, 0, marker) {
        let p = s.take(from);
        let t = s.skip(from);
        assert(p + t =~= s);
        lemma_flags_quoted_behind(p, t, 0);
        let once = flags_quoted_from(s, from);
        assert(once.subrange(0, from) =~= s.subrange(0, from));
        lemma_flags_quoted_from_twice(s, from);
    }
}

} // verus!
