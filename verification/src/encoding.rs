//! Statements are UTF-8. What is cut out of one and what is put into one must
//! leave it UTF-8: this module says where a statement may be cut.

use vstd::prelude::*;
use vstd::utf8::*;
use crate::text::{whitespace_at, whitespace_before};

verus! {

/// A byte below 0x80 stands for one character by itself.
pub open spec fn is_ascii_byte(b: u8) -> bool {
    b < 0x80
}

/// The character that begins at a boundary ends at a boundary.
pub proof fn lemma_boundary_after_scalar(s: Seq<u8>, i: int)
    requires
        valid_utf8(s),
        is_char_boundary(s, i),
        0 <= i < s.len(),
    ensures
        valid_first_scalar(s.subrange(i, s.len() as int)),
        i + length_of_first_scalar(s.subrange(i, s.len() as int)) <= s.len(),
        is_char_boundary(s, i + length_of_first_scalar(s.subrange(i, s.len() as int))),
    decreases s.len(),
{
    reveal_with_fuel(is_char_boundary, 2);
    let k = length_of_first_scalar(s);
    let rest = pop_first_scalar(s);
    if i == 0 {
        assert(s.subrange(0, s.len() as int) =~= s);
    } else {
        lemma_boundary_after_scalar(rest, i - k);
        assert(rest.subrange(i - k, rest.len() as int) =~= s.subrange(i, s.len() as int));
    }
}

/// A byte that is no continuation byte begins a character.
pub proof fn lemma_boundary_at(s: Seq<u8>, i: int)
    requires
        valid_utf8(s),
        0 <= i <= s.len(),
        i < s.len() ==> !is_continuation_byte(s[i]),
    ensures
        is_char_boundary(s, i),
{
    if i < s.len() {
        is_char_boundary_iff_not_is_continuation_byte(s, i);
    } else {
        is_char_boundary_start_end_of_seq(s);
    }
}

/// Right after an ASCII byte a character begins, or the statement ends.
pub proof fn lemma_boundary_after_ascii(s: Seq<u8>, i: int)
    requires
        valid_utf8(s),
        0 < i <= s.len(),
        is_ascii_byte(s[i - 1]),
    ensures
        is_char_boundary(s, i),
{
    lemma_boundary_at(s, i - 1);
    lemma_boundary_after_scalar(s, i - 1);
}

/// A white-space character that begins at a boundary ends at one.
pub proof fn lemma_boundary_after_whitespace(s: Seq<u8>, i: int)
    requires
        valid_utf8(s),
        is_char_boundary(s, i),
        whitespace_at(s, i) > 0,
    ensures
        is_char_boundary(s, i + whitespace_at(s, i)),
{
    lemma_boundary_after_scalar(s, i);
}

/// A white-space character begins at a boundary.
pub proof fn lemma_boundary_before_whitespace(s: Seq<u8>, end: int)
    requires
        valid_utf8(s),
        whitespace_before(s, end) > 0,
    ensures
        is_char_boundary(s, end - whitespace_before(s, end)),
{
    lemma_boundary_at(s, end - whitespace_before(s, end));
}

/// What lies between two boundaries is UTF-8.
pub proof fn lemma_range_valid(s: Seq<u8>, from: int, to: int)
    requires
        valid_utf8(s),
        is_char_boundary(s, from),
        is_char_boundary(s, to),
        0 <= from <= to <= s.len(),
    ensures
        valid_utf8(s.subrange(from, to)),
{
    valid_utf8_split(s, to);
    let head = s.subrange(0, to);
    if from < to {
        is_char_boundary_iff_not_is_continuation_byte(s, from);
        is_char_boundary_iff_not_is_continuation_byte(head, from);
    } else {
        is_char_boundary_start_end_of_seq(head);
    }
    valid_utf8_split(head, from);
    assert(head.subrange(from, head.len() as int) =~= s.subrange(from, to));
}

/// One ASCII byte is UTF-8.
pub proof fn lemma_ascii_valid(b: u8)
    requires
        is_ascii_byte(b),
    ensures
        valid_utf8(seq![b]),
{
    let s = seq![b];
    assert(pop_first_scalar(s) =~= Seq::<u8>::empty());
    reveal_with_fuel(valid_utf8, 2);
}

/// Replacing what lies between two boundaries by UTF-8 gives UTF-8.
pub proof fn lemma_replace_valid(s: Seq<u8>, from: int, to: int, with: Seq<u8>)
    requires
        valid_utf8(s),
        valid_utf8(with),
        is_char_boundary(s, from),
        is_char_boundary(s, to),
        0 <= from <= to <= s.len(),
    ensures
        valid_utf8(s.subrange(0, from) + with + s.subrange(to, s.len() as int)),
{
    valid_utf8_split(s, from);
    valid_utf8_split(s, to);
    valid_utf8_concat(s.subrange(0, from), with);
    valid_utf8_concat(s.subrange(0, from) + with, s.subrange(to, s.len() as int));
}

/// `String::from_utf8` of std: it accepts the bytes if and only if they are
/// UTF-8, and the string that it makes of them holds those bytes.
#[verifier::external_body]
pub(crate) fn string_from_utf8(bytes: Vec<u8>) -> (string: Option<String>)
    ensures
        string is Some <==> valid_utf8(bytes@),
        string matches Some(text) ==> encode_utf8(text@) == bytes@,
{
    String::from_utf8(bytes).ok()
}

} // verus!
