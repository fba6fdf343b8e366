//! The byte vocabulary of a statement: the delimiters, literal markers,
//! white space, and splitting a byte string at a separator.

use vstd::prelude::*;
use vstd::string::*;
use vstd::utf8::*;

verus! {

/// `|`, which separates the parts of a statement.
pub const PIPE: u8 = 0x7C;

/// `"`, which opens and closes a string literal.
pub const QUOTE: u8 = 0x22;

/// `,`, which separates flag names.
pub const COMMA: u8 = 0x2C;

/// The line break.
pub const NEWLINE: u8 = 0x0A;

/// `/`, two of which begin a comment.
pub const SLASH: u8 = 0x2F;

/// The space that ends a command word.
pub const SPACE: u8 = 0x20;

/// The bytes of a marker written as ASCII text, such as `"6|"`.
pub open spec fn ascii(marker: Seq<char>) -> Seq<u8> {
    Seq::new(marker.len(), |i: int| marker[i] as u8)
}

/// `s` holds `prefix` at offset `at`.
pub open spec fn has_prefix_at(s: Seq<u8>, at: int, prefix: Seq<u8>) -> bool {
    &&& 0 <= at
    &&& at + prefix.len() <= s.len()
    &&& s.subrange(at, at + prefix.len()) == prefix
}

/// Tests whether `string` holds the ASCII `marker` at offset `at`.
pub fn starts_with_at(string: &[u8], at: usize, marker: &str) -> (found: bool)
    requires
        is_ascii(marker),
    ensures
        found == has_prefix_at(string@, at as int, ascii(marker@)),
{
    broadcast use is_ascii_spec_bytes;

    let pattern = marker.as_bytes();
    assert(pattern@ =~= ascii(marker@));
    if at > string.len() || pattern.len() > string.len() - at {
        return false;
    }
    let mut i: usize = 0;
    while i < pattern.len()
        invariant
            at + pattern@.len() <= string@.len() <= usize::MAX,
            i <= pattern@.len(),
            pattern@ == ascii(marker@),
            forall|j: int| 0 <= j < i ==> string@[at + j] == pattern@[j],
        decreases pattern@.len() - i,
    {
        if string[at + i] != pattern[i] {
            assert(string@.subrange(at as int, at + pattern@.len())[i as int] == string@[at + i]);
            return false;
        }
        i += 1;
    }
    assert(string@.subrange(at as int, at + pattern@.len()) =~= pattern@);
    true
}

/// Tests whether `string` is exactly the ASCII `marker`.
pub fn equals_marker(string: &[u8], marker: &str) -> (same: bool)
    requires
        is_ascii(marker),
    ensures
        same == (string@ == ascii(marker@)),
{
    broadcast use is_ascii_spec_bytes;

    let found = starts_with_at(string, 0, marker);
    let pattern = marker.as_bytes();
    assert(pattern@ =~= ascii(marker@));
    proof {
        if string@.len() == pattern@.len() {
            assert(string@.subrange(0int, 0int + pattern@.len()) =~= string@);
        }
    }
    found && string.len() == pattern.len()
}

/// `b` encodes a white-space character of one byte: U+0009 to U+000D, U+0020.
pub open spec fn is_whitespace_1(b: u8) -> bool {
    0x09 <= b <= 0x0D || b == 0x20
}

/// `b0 b1` encodes a white-space character of two bytes: U+0085, U+00A0.
pub open spec fn is_whitespace_2(b0: u8, b1: u8) -> bool {
    b0 == 0xC2 && (b1 == 0x85 || b1 == 0xA0)
}

/// `b0 b1 b2` encodes a white-space character of three bytes: U+1680,
/// U+2000 to U+200A, U+2028, U+2029, U+202F, U+205F, U+3000.
pub open spec fn is_whitespace_3(b0: u8, b1: u8, b2: u8) -> bool {
    ||| b0 == 0xE1 && b1 == 0x9A && b2 == 0x80
    ||| b0 == 0xE2 && b1 == 0x80 && (0x80 <= b2 <= 0x8A || b2 == 0xA8 || b2 == 0xA9 || b2 == 0xAF)
    ||| b0 == 0xE2 && b1 == 0x81 && b2 == 0x9F
    ||| b0 == 0xE3 && b1 == 0x80 && b2 == 0x80
}

/// The width in bytes of the white-space character that begins at `at`,
/// 0 where none does.
pub open spec fn whitespace_at(s: Seq<u8>, at: int) -> int {
    if 0 <= at < s.len() && is_whitespace_1(s[at]) {
        1
    } else if 0 <= at && at + 1 < s.len() && is_whitespace_2(s[at], s[at + 1]) {
        2
    } else if 0 <= at && at + 2 < s.len() && is_whitespace_3(s[at], s[at + 1], s[at + 2]) {
        3
    } else {
        0
    }
}

/// The width in bytes of the white-space character that ends just before
/// `end`, 0 where none does.
pub open spec fn whitespace_before(s: Seq<u8>, end: int) -> int {
    if 1 <= end <= s.len() && is_whitespace_1(s[end - 1]) {
        1
    } else if 2 <= end <= s.len() && is_whitespace_2(s[end - 2], s[end - 1]) {
        2
    } else if 3 <= end <= s.len() && is_whitespace_3(s[end - 3], s[end - 2], s[end - 1]) {
        3
    } else {
        0
    }
}

/// The characters that count as white space: those with the Unicode property
/// White_Space.
pub open spec fn is_whitespace(c: char) -> bool {
    let code = c as u32;
    ||| 0x09 <= code <= 0x0D
    ||| code == 0x20
    ||| code == 0x85
    ||| code == 0xA0
    ||| code == 0x1680
    ||| 0x2000 <= code <= 0x200A
    ||| code == 0x2028
    ||| code == 0x2029
    ||| code == 0x202F
    ||| code == 0x205F
    ||| code == 0x3000
}

proof fn lemma_whitespace_of_two_bytes(code: u32)
    by (bit_vector)
    requires
        has_width_2_encoding(code),
    ensures
        is_whitespace_2(leading_byte_width_2(code), last_continuation_byte(code)) <==> (code == 0x85
            || code == 0xA0),
        !is_whitespace_1(leading_byte_width_2(code)),
        !is_whitespace_1(last_continuation_byte(code)),
{
}

proof fn lemma_whitespace_of_three_bytes(code: u32)
    by (bit_vector)
    requires
        has_width_3_encoding(code),
    ensures
        is_whitespace_3(
            leading_byte_width_3(code),
            second_last_continuation_byte(code),
            last_continuation_byte(code),
        ) <==> (code == 0x1680 || 0x2000 <= code <= 0x200A || code == 0x2028 || code == 0x2029
            || code == 0x202F || code == 0x205F || code == 0x3000),
        !is_whitespace_1(leading_byte_width_3(code)),
        !is_whitespace_2(leading_byte_width_3(code), second_last_continuation_byte(code)),
        !is_whitespace_2(second_last_continuation_byte(code), last_continuation_byte(code)),
        !is_whitespace_1(last_continuation_byte(code)),
{
}

proof fn lemma_whitespace_of_four_bytes(code: u32)
    by (bit_vector)
    requires
        has_width_4_encoding(code),
    ensures
        !is_whitespace_1(leading_byte_width_4(code)),
        !is_whitespace_2(leading_byte_width_4(code), third_last_continuation_byte(code)),
        !is_whitespace_3(
            leading_byte_width_4(code),
            third_last_continuation_byte(code),
            second_last_continuation_byte(code),
        ),
        !is_whitespace_1(last_continuation_byte(code)),
        !is_whitespace_2(second_last_continuation_byte(code), last_continuation_byte(code)),
        !is_whitespace_3(
            third_last_continuation_byte(code),
            second_last_continuation_byte(code),
            last_continuation_byte(code),
        ),
{
}

proof fn lemma_whitespace_of_one_byte(code: u32)
    by (bit_vector)
    requires
        has_width_1_encoding(code),
    ensures
        is_whitespace_1(leading_byte_width_1(code)) <==> (0x09 <= code <= 0x0D || code == 0x20),
{
}

/// The byte patterns of white space are the UTF-8 encodings of the
/// white-space characters: the encoding of a character is measured as white
/// space, in its whole width, if and only if the character is white space.
pub proof fn lemma_whitespace_is_encoded(c: char)
    ensures
        whitespace_at(encode_scalar(c as u32), 0) == if is_whitespace(c) {
            encode_scalar(c as u32).len() as int
        } else {
            0
        },
        whitespace_before(encode_scalar(c as u32), encode_scalar(c as u32).len() as int)
            == if is_whitespace(c) {
            encode_scalar(c as u32).len() as int
        } else {
            0
        },
{
    let code = c as u32;
    char_is_scalar(c);
    if has_width_1_encoding(code) {
        lemma_whitespace_of_one_byte(code);
    } else if has_width_2_encoding(code) {
        lemma_whitespace_of_two_bytes(code);
    } else if has_width_3_encoding(code) {
        lemma_whitespace_of_three_bytes(code);
    } else {
        lemma_whitespace_of_four_bytes(code);
    }
}

fn whitespace_1(b: u8) -> (yes: bool)
    ensures
        yes == is_whitespace_1(b),
{
    (0x09 <= b && b <= 0x0D) || b == 0x20
}

fn whitespace_2(b0: u8, b1: u8) -> (yes: bool)
    ensures
        yes == is_whitespace_2(b0, b1),
{
    b0 == 0xC2 && (b1 == 0x85 || b1 == 0xA0)
}

fn whitespace_3(b0: u8, b1: u8, b2: u8) -> (yes: bool)
    ensures
        yes == is_whitespace_3(b0, b1, b2),
{
    (b0 == 0xE1 && b1 == 0x9A && b2 == 0x80)
        || (b0 == 0xE2 && b1 == 0x80 && ((0x80 <= b2 && b2 <= 0x8A) || b2 == 0xA8 || b2 == 0xA9 || b2 == 0xAF))
        || (b0 == 0xE2 && b1 == 0x81 && b2 == 0x9F)
        || (b0 == 0xE3 && b1 == 0x80 && b2 == 0x80)
}

/// Measures the white-space character that begins at `at`.
pub fn whitespace_width_at(string: &[u8], at: usize) -> (width: usize)
    ensures
        width == whitespace_at(string@, at as int),
{
    let len: usize = string.len();
    if at >= len {
        0
    } else if whitespace_1(string[at]) {
        1
    } else if len - at >= 2 && whitespace_2(string[at], string[at + 1]) {
        2
    } else if len - at >= 3 && whitespace_3(string[at], string[at + 1], string[at + 2]) {
        3
    } else {
        0
    }
}

/// Measures the white-space character that ends just before `end`.
pub fn whitespace_width_before(string: &[u8], end: usize) -> (width: usize)
    ensures
        width == whitespace_before(string@, end as int),
{
    if end > string.len() {
        0
    } else if end >= 1 && whitespace_1(string[end - 1]) {
        1
    } else if end >= 2 && whitespace_2(string[end - 2], string[end - 1]) {
        2
    } else if end >= 3 && whitespace_3(string[end - 3], string[end - 2], string[end - 1]) {
        3
    } else {
        0
    }
}

/// The pieces of `s` between the occurrences of `sep`, in order. There is
/// always one piece more than there are separators.
pub open spec fn split(s: Seq<u8>, sep: u8) -> Seq<Seq<u8>>
    decreases s.len(),
{
    if s.len() == 0 {
        seq![Seq::<u8>::empty()]
    } else {
        let before = split(s.drop_last(), sep);
        if s.last() == sep {
            before.push(Seq::<u8>::empty())
        } else {
            before.drop_last().push(before.last().push(s.last()))
        }
    }
}

/// The pieces laid end to end with `sep` between each two.
pub open spec fn join(pieces: Seq<Seq<u8>>, sep: u8) -> Seq<u8>
    decreases pieces.len(),
{
    if pieces.len() == 0 {
        Seq::<u8>::empty()
    } else if pieces.len() == 1 {
        pieces[0]
    } else {
        join(pieces.drop_last(), sep) + seq![sep] + pieces.last()
    }
}

/// `s` does not hold the byte `b`.
pub open spec fn free_of(s: Seq<u8>, b: u8) -> bool {
    forall|i: int| 0 <= i < s.len() ==> s[i] != b
}

/// Bytes have at least one piece.
pub proof fn lemma_split_len(s: Seq<u8>, sep: u8)
    ensures
        split(s, sep).len() >= 1,
    decreases s.len(),
{
    if s.len() > 0 {
        lemma_split_len(s.drop_last(), sep);
    }
}

/// Splitting after one more byte: a separator opens a new, empty piece, any
/// other byte lengthens the last piece.
pub proof fn lemma_split_push(s: Seq<u8>, b: u8, sep: u8)
    ensures
        split(s, sep).len() >= 1,
        split(s.push(b), sep) == if b == sep {
            split(s, sep).push(Seq::<u8>::empty())
        } else {
            split(s, sep).drop_last().push(split(s, sep).last().push(b))
        },
{
    lemma_split_len(s, sep);
    assert(s.push(b).drop_last() =~= s);
}

/// Joining with one more piece.
pub proof fn lemma_join_push(pieces: Seq<Seq<u8>>, piece: Seq<u8>, sep: u8)
    ensures
        join(pieces.push(piece), sep) == if pieces.len() == 0 {
            piece
        } else {
            join(pieces, sep) + seq![sep] + piece
        },
{
    assert(pieces.push(piece).drop_last() =~= pieces);
}

/// Bytes without a separator, put after `s`, lengthen the last piece of `s`.
pub proof fn lemma_split_extend(s: Seq<u8>, t: Seq<u8>, sep: u8)
    requires
        free_of(t, sep),
    ensures
        split(s, sep).len() >= 1,
        split(s + t, sep) == split(s, sep).drop_last().push(split(s, sep).last() + t),
    decreases t.len(),
{
    lemma_split_len(s, sep);
    if t.len() == 0 {
        assert(s + t =~= s);
        assert(split(s, sep).last() + t =~= split(s, sep).last());
        assert(split(s, sep).drop_last().push(split(s, sep).last()) =~= split(s, sep));
    } else {
        let t0 = t.drop_last();
        lemma_split_extend(s, t0, sep);
        assert((s + t0).push(t.last()) =~= s + t);
        lemma_split_push(s + t0, t.last(), sep);
        let mid = split(s, sep).drop_last().push(split(s, sep).last() + t0);
        assert(mid.drop_last() =~= split(s, sep).drop_last());
        assert((split(s, sep).last() + t0).push(t.last()) =~= split(s, sep).last() + t);
    }
}

/// Joining what was split gives the bytes back.
pub proof fn lemma_join_split(s: Seq<u8>, sep: u8)
    ensures
        join(split(s, sep), sep) == s,
    decreases s.len(),
{
    if s.len() == 0 {
    } else {
        let s0 = s.drop_last();
        let before = split(s0, sep);
        lemma_join_split(s0, sep);
        lemma_split_len(s0, sep);
        assert(s0.push(s.last()) =~= s);
        if s.last() == sep {
            lemma_join_push(before, Seq::<u8>::empty(), sep);
            assert(join(before, sep) + seq![sep] + Seq::<u8>::empty() =~= s);
        } else {
            let head = before.drop_last();
            assert(head.push(before.last()) =~= before);
            lemma_join_push(head, before.last(), sep);
            lemma_join_push(head, before.last().push(s.last()), sep);
            if head.len() == 0 {
                assert(before.last().push(s.last()) =~= s);
            } else {
                assert(join(head, sep) + seq![sep] + before.last().push(s.last()) =~= (join(head, sep)
                    + seq![sep] + before.last()).push(s.last()));
            }
        }
    }
}

/// None of the pieces holds the byte `b`.
pub open spec fn all_free_of(pieces: Seq<Seq<u8>>, b: u8) -> bool {
    forall|i: int| 0 <= i < pieces.len() ==> free_of(#[trigger] pieces[i], b)
}

/// No piece holds the separator, nor a byte that the whole does not hold.
pub proof fn lemma_split_free(s: Seq<u8>, sep: u8, b: u8)
    requires
        b == sep || free_of(s, b),
    ensures
        all_free_of(split(s, sep), b),
    decreases s.len(),
{
    if s.len() > 0 {
        let s0 = s.drop_last();
        let before = split(s0, sep);
        assert forall|i: int| 0 <= i < s0.len() implies s0[i] != b || b == sep by {
            assert(s0[i] == s[i]);
        }
        lemma_split_free(s0, sep, b);
        lemma_split_len(s0, sep);
        if s.last() != sep {
            let grown = before.last().push(s.last());
            assert(free_of(before.last(), b));
            assert(s.last() == s[s.len() - 1]);
            assert forall|i: int| 0 <= i < grown.len() implies grown[i] != b by {
                if i < before.last().len() {
                    assert(grown[i] == before.last()[i]);
                }
            }
        }
    }
}

/// What is joined holds no byte that neither a piece nor the separator is.
pub proof fn lemma_join_free(pieces: Seq<Seq<u8>>, sep: u8, b: u8)
    requires
        all_free_of(pieces, b),
        b != sep,
    ensures
        free_of(join(pieces, sep), b),
    decreases pieces.len(),
{
    if pieces.len() >= 2 {
        let head = pieces.drop_last();
        assert forall|i: int| 0 <= i < head.len() implies free_of(#[trigger] head[i], b) by {
            assert(head[i] == pieces[i]);
        }
        lemma_join_free(head, sep, b);
        assert(free_of(pieces.last(), b));
    } else if pieces.len() == 1 {
        assert(free_of(pieces[0], b));
    }
}

/// Splitting what was joined gives the pieces back, if none of them holds the
/// separator.
pub proof fn lemma_split_join(pieces: Seq<Seq<u8>>, sep: u8)
    requires
        pieces.len() >= 1,
        all_free_of(pieces, sep),
    ensures
        split(join(pieces, sep), sep) == pieces,
    decreases pieces.len(),
{
    let nothing = Seq::<u8>::empty();
    if pieces.len() == 1 {
        assert(free_of(pieces[0], sep));
        lemma_split_extend(nothing, pieces[0], sep);
        assert(nothing + pieces[0] =~= pieces[0]);
        assert(split(nothing, sep) =~= seq![nothing]);
        assert(seq![nothing].drop_last().push(nothing + pieces[0]) =~= pieces);
    } else {
        let head = pieces.drop_last();
        assert forall|i: int| 0 <= i < head.len() implies free_of(#[trigger] head[i], sep) by {
            assert(head[i] == pieces[i]);
        }
        lemma_split_join(head, sep);
        let joined = join(head, sep);
        lemma_split_push(joined, sep, sep);
        assert(joined + seq![sep] =~= joined.push(sep));
        assert(free_of(pieces.last(), sep));
        lemma_split_extend(joined.push(sep), pieces.last(), sep);
        assert(head.push(nothing).drop_last() =~= head);
        assert(nothing + pieces.last() =~= pieces.last());
        assert(head.push(pieces.last()) =~= pieces);
    }
}

/// The pieces of bytes on both sides of a separator are the pieces of the
/// one side and then those of the other.
pub proof fn lemma_split_concat(a: Seq<u8>, b: Seq<u8>, sep: u8)
    ensures
        split(a + seq![sep] + b, sep) == split(a, sep) + split(b, sep),
    decreases b.len(),
{
    let nothing = Seq::<u8>::empty();
    lemma_split_len(a, sep);
    lemma_split_len(b, sep);
    if b.len() == 0 {
        assert(a + seq![sep] + b =~= a.push(sep));
        lemma_split_push(a, sep, sep);
        assert(split(a, sep).push(nothing) =~= split(a, sep) + seq![nothing]);
    } else {
        let b0 = b.drop_last();
        lemma_split_concat(a, b0, sep);
        lemma_split_len(b0, sep);
        assert((a + seq![sep] + b0).push(b.last()) =~= a + seq![sep] + b);
        assert(b0.push(b.last()) =~= b);
        lemma_split_push(a + seq![sep] + b0, b.last(), sep);
        lemma_split_push(b0, b.last(), sep);
        let left = split(a, sep);
        let right = split(b0, sep);
        if b.last() == sep {
            assert((left + right).push(nothing) =~= left + right.push(nothing));
        } else {
            assert((left + right).drop_last().push((left + right).last().push(b.last())) =~= left
                + right.drop_last().push(right.last().push(b.last())));
        }
    }
}

/// The last piece of bytes is what stands at their end.
pub proof fn lemma_split_last(s: Seq<u8>, sep: u8)
    ensures
        split(s, sep).len() >= 1,
        split(s, sep).last().len() <= s.len(),
        split(s, sep).last() == s.skip(s.len() - split(s, sep).last().len()),
    decreases s.len(),
{
    lemma_split_len(s, sep);
    if s.len() > 0 {
        let s0 = s.drop_last();
        lemma_split_last(s0, sep);
        lemma_split_push(s0, s.last(), sep);
        assert(s0.push(s.last()) =~= s);
        let before = split(s0, sep);
        if s.last() == sep {
            assert(before.push(Seq::<u8>::empty()).last() =~= s.skip(s.len() as int));
        } else {
            let grown = before.last().push(s.last());
            assert(before.drop_last().push(grown).last() == grown);
            assert(grown =~= s.skip(s.len() - grown.len()));
        }
    } else {
        assert(split(s, sep).last() =~= s.skip(0));
    }
}

/// `s` does not hold the byte `b` twice in a row.
pub open spec fn free_of_pair(s: Seq<u8>, b: u8) -> bool {
    forall|i: int| 0 <= i && i + 1 < s.len() ==> !(s[i] == b && #[trigger] s[i + 1] == b)
}

/// None of the pieces holds the byte `b` twice in a row.
pub open spec fn all_free_of_pair(pieces: Seq<Seq<u8>>, b: u8) -> bool {
    forall|i: int| 0 <= i < pieces.len() ==> free_of_pair(#[trigger] pieces[i], b)
}

/// No piece holds a byte twice in a row that the whole does not hold so.
pub proof fn lemma_split_pair_free(s: Seq<u8>, sep: u8, b: u8)
    requires
        free_of_pair(s, b),
    ensures
        all_free_of_pair(split(s, sep), b),
    decreases s.len(),
{
    if s.len() > 0 {
        let s0 = s.drop_last();
        let before = split(s0, sep);
        assert forall|i: int| 0 <= i && i + 1 < s0.len() implies !(s0[i] == b && #[trigger] s0[i
            + 1] == b) by {
            assert(s0[i] == s[i] && s0[i + 1] == s[i + 1]);
        }
        lemma_split_pair_free(s0, sep, b);
        lemma_split_last(s0, sep);
        lemma_split_push(s0, s.last(), sep);
        assert(s0.push(s.last()) =~= s);
        if s.last() != sep {
            let piece = before.last();
            let grown = piece.push(s.last());
            assert(free_of_pair(piece, b));
            assert forall|i: int| 0 <= i && i + 1 < grown.len() implies !(grown[i] == b
                && #[trigger] grown[i + 1] == b) by {
                if i + 1 < piece.len() {
                    assert(grown[i] == piece[i] && grown[i + 1] == piece[i + 1]);
                } else {
                    let at = s0.len() - piece.len() + i;
                    assert(piece[i] == s0.skip(s0.len() - piece.len())[i]);
                    assert(grown[i] == s[at]);
                    assert(grown[i + 1] == s[at + 1]);
                }
            }
        }
    }
}

/// What is joined holds no byte twice in a row that neither a piece holds
/// so nor the separator is.
pub proof fn lemma_join_pair_free(pieces: Seq<Seq<u8>>, sep: u8, b: u8)
    requires
        all_free_of_pair(pieces, b),
        b != sep,
    ensures
        free_of_pair(join(pieces, sep), b),
    decreases pieces.len(),
{
    if pieces.len() >= 2 {
        let head = pieces.drop_last();
        assert forall|i: int| 0 <= i < head.len() implies free_of_pair(#[trigger] head[i], b) by {
            assert(head[i] == pieces[i]);
        }
        lemma_join_pair_free(head, sep, b);
        let left = join(head, sep);
        let last = pieces.last();
        let joined = left + seq![sep] + last;
        assert(free_of_pair(last, b));
        assert forall|i: int| 0 <= i && i + 1 < joined.len() implies !(joined[i] == b
            && #[trigger] joined[i + 1] == b) by {
            if i + 1 < left.len() {
                assert(joined[i] == left[i] && joined[i + 1] == left[i + 1]);
            } else if i > left.len() {
                assert(joined[i] == last[i - left.len() - 1]);
                assert(joined[i + 1] == last[i - left.len() - 1 + 1]);
            } else if i == left.len() {
                assert(joined[i] == sep);
            } else {
                assert(joined[i + 1] == sep);
            }
        }
    } else if pieces.len() == 1 {
        assert(free_of_pair(pieces[0], b));
    }
}

} // verus!
