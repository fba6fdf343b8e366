//! A whole document: its lines, each converted by the four stringifiers in
//! their fixed order, and the line breaks at its end kept as they were.

use vstd::prelude::*;
use vstd::slice::*;
use vstd::utf8::*;
use crate::encoding::{lemma_boundary_at, string_from_utf8};
use crate::stringify::{
    append_range, convert_flags, convert_icons, convert_messages, convert_shop_and_wheel_texts,
    flags_quoted, icons_quoted, messages_quoted, texts_quoted,
};
use crate::text::{join, lemma_join_push, lemma_split_push, split, NEWLINE};
use crate::wellformed::{
    lemma_flags_quoted_valid, lemma_icons_quoted_valid, lemma_join_valid,
    lemma_messages_quoted_valid, lemma_split_valid, lemma_texts_quoted_valid,
};

verus! {

/// What the conversion makes of one statement: flag names are quoted first,
/// then the message, then the icon path, then the display text, each on what
/// the one before has left.
pub open spec fn converted_line(line: Seq<u8>) -> Seq<u8> {
    texts_quoted(icons_quoted(messages_quoted(flags_quoted(line))))
}

/// Each of the lines converted.
pub open spec fn converted_lines(lines: Seq<Seq<u8>>) -> Seq<Seq<u8>> {
    Seq::new(lines.len(), |i: int| converted_line(lines[i]))
}

/// How many line breaks end `s`.
pub open spec fn trailing_newlines(s: Seq<u8>) -> nat
    decreases s.len(),
{
    if s.len() > 0 && s.last() == NEWLINE {
        1 + trailing_newlines(s.drop_last())
    } else {
        0
    }
}

/// The document without the line breaks that end it.
pub open spec fn body(s: Seq<u8>) -> Seq<u8> {
    s.take(s.len() - trailing_newlines(s))
}

/// What the conversion makes of a document: the lines of its body, which
/// line breaks separate, are converted one by one and joined again, and the
/// line breaks that ended the document end it again.
pub open spec fn converted(s: Seq<u8>) -> Seq<u8> {
    join(converted_lines(split(body(s), NEWLINE)), NEWLINE) + s.skip(
        s.len() - trailing_newlines(s),
    )
}

/// The line breaks that end a document are its last bytes, and the byte
/// before them is none.
pub proof fn lemma_trailing_newlines_bounds(s: Seq<u8>)
    ensures
        trailing_newlines(s) <= s.len(),
        forall|i: int| s.len() - trailing_newlines(s) <= i < s.len() ==> s[i] == NEWLINE,
        trailing_newlines(s) < s.len() ==> s[s.len() - trailing_newlines(s) - 1] != NEWLINE,
    decreases s.len(),
{
    if s.len() > 0 && s.last() == NEWLINE {
        let head = s.drop_last();
        lemma_trailing_newlines_bounds(head);
        assert forall|i: int| s.len() - trailing_newlines(s) <= i < s.len() implies s[i]
            == NEWLINE by {
            if i < head.len() {
                assert(head[i] == s[i]);
            }
        }
        if trailing_newlines(s) < s.len() {
            assert(head[head.len() - trailing_newlines(head) - 1] == s[s.len() - trailing_newlines(
                s,
            ) - 1]);
        }
    }
}

/// One more line is one more converted line.
pub proof fn lemma_converted_lines_push(lines: Seq<Seq<u8>>, line: Seq<u8>)
    ensures
        converted_lines(lines.push(line)) == converted_lines(lines).push(converted_line(line)),
{
    assert(converted_lines(lines.push(line)) =~= converted_lines(lines).push(converted_line(line)));
}

/// A statement that is UTF-8 is converted to UTF-8.
pub proof fn lemma_converted_line_valid(line: Seq<u8>)
    requires
        valid_utf8(line),
    ensures
        valid_utf8(converted_line(line)),
{
    lemma_flags_quoted_valid(line);
    lemma_messages_quoted_valid(flags_quoted(line));
    lemma_icons_quoted_valid(messages_quoted(flags_quoted(line)));
    lemma_texts_quoted_valid(icons_quoted(messages_quoted(flags_quoted(line))));
}

/// A document that is UTF-8 is converted to UTF-8.
pub proof fn lemma_converted_valid(s: Seq<u8>)
    requires
        valid_utf8(s),
    ensures
        valid_utf8(converted(s)),
{
    lemma_trailing_newlines_bounds(s);
    let cut = s.len() - trailing_newlines(s);
    lemma_boundary_at(s, cut);
    valid_utf8_split(s, cut);
    let lines = split(body(s), NEWLINE);
    lemma_split_valid(body(s), NEWLINE);
    assert forall|i: int| 0 <= i < converted_lines(lines).len() implies valid_utf8(
        #[trigger] converted_lines(lines)[i],
    ) by {
        lemma_converted_line_valid(lines[i]);
    }
    lemma_join_valid(converted_lines(lines), NEWLINE);
    valid_utf8_concat(join(converted_lines(lines), NEWLINE), s.skip(cut));
}

/// Converts one statement: the four stringifiers in their fixed order.
pub fn convert_line(line: &mut Vec<u8>)
    ensures
        final(line)@ == converted_line(old(line)@),
{
    convert_flags(line);
    convert_messages(line);
    convert_icons(line);
    convert_shop_and_wheel_texts(line);
}

/// Counts the bytes of a document before the line breaks that end it.
fn body_length(document: &[u8]) -> (length: usize)
    ensures
        length == document@.len() - trailing_newlines(document@),
        document@.take(length as int) == body(document@),
{
    let mut length: usize = document.len();
    proof {
        assert(document@.take(length as int) =~= document@);
    }
    while length > 0 && document[length - 1] == NEWLINE
        invariant
            length <= document@.len(),
            trailing_newlines(document@) == trailing_newlines(document@.take(length as int))
                + document@.len() - length,
        decreases length,
    {
        proof {
            assert(document@.take(length as int).drop_last() =~= document@.take(length - 1));
        }
        length -= 1;
    }
    length
}

/// The converted lines of a document so far, joined by line breaks.
struct Joined {
    bytes: Vec<u8>,
    any: bool,
}

impl Joined {
    spec fn holds(&self, lines: Seq<Seq<u8>>) -> bool {
        &&& self.bytes@ == join(converted_lines(lines), NEWLINE)
        &&& self.any == (lines.len() > 0)
    }

    fn add(&mut self, document: &[u8], from: usize, to: usize, Ghost(lines): Ghost<Seq<Seq<u8>>>)
        requires
            old(self).holds(lines),
            from <= to <= document@.len(),
        ensures
            final(self).holds(lines.push(document@.subrange(from as int, to as int))),
    {
        let mut line: Vec<u8> = slice_to_vec(slice_subrange(document, from, to));
        convert_line(&mut line);
        proof {
            lemma_converted_lines_push(lines, document@.subrange(from as int, to as int));
            lemma_join_push(converted_lines(lines), line@, NEWLINE);
            assert(line@.subrange(0, line@.len() as int) =~= line@);
        }
        if self.any {
            self.bytes.push(NEWLINE);
        }
        append_range(&mut self.bytes, line.as_slice(), 0, line.len());
        self.any = true;
        assert(self.bytes@ =~= if old(self).any {
            old(self).bytes@ + seq![NEWLINE] + line@
        } else {
            line@
        });
    }
}

/// Converts a document held as bytes.
pub fn convert_bytes(document: &[u8]) -> (out: Vec<u8>)
    ensures
        out@ == converted(document@),
{
    let end: usize = body_length(document);
    let ghost text = body(document@);
    let mut joined = Joined { bytes: Vec::new(), any: false };
    let mut line_start: usize = 0;
    let mut index: usize = 0;
    proof {
        assert(text.take(0) =~= Seq::<u8>::empty());
        assert(split(text.take(0), NEWLINE).drop_last() =~= Seq::<Seq<u8>>::empty());
        assert(converted_lines(Seq::<Seq<u8>>::empty()) =~= Seq::<Seq<u8>>::empty());
    }
    while index < end
        invariant
            line_start <= index <= end <= document@.len(),
            text == document@.take(end as int),
            split(text.take(index as int), NEWLINE).len() >= 1,
            split(text.take(index as int), NEWLINE).last() == text.subrange(
                line_start as int,
                index as int,
            ),
            joined.holds(split(text.take(index as int), NEWLINE).drop_last()),
        decreases end - index,
    {
        let ghost before = split(text.take(index as int), NEWLINE);
        proof {
            lemma_split_push(text.take(index as int), text[index as int], NEWLINE);
            assert(text.take(index as int).push(text[index as int]) =~= text.take(index + 1));
        }
        if document[index] == NEWLINE {
            proof {
                assert(text.subrange(line_start as int, index as int) =~= document@.subrange(
                    line_start as int,
                    index as int,
                ));
            }
            joined.add(document, line_start, index, Ghost(before.drop_last()));
            line_start = index + 1;
            proof {
                assert(before.drop_last().push(before.last()) =~= before);
                assert(before.push(Seq::<u8>::empty()).drop_last() =~= before);
            }
        } else {
            proof {
                let grown = before.drop_last().push(before.last().push(text[index as int]));
                assert(grown.drop_last() =~= before.drop_last());
                assert(before.last().push(text[index as int]) =~= text.subrange(
                    line_start as int,
                    index + 1,
                ));
            }
        }
        index += 1;
    }
    let ghost lines = split(text, NEWLINE);
    proof {
        assert(text.take(index as int) =~= text);
        assert(lines.drop_last().push(lines.last()) =~= lines);
        assert(text.subrange(line_start as int, index as int) =~= document@.subrange(
            line_start as int,
            index as int,
        ));
    }
    joined.add(document, line_start, end, Ghost(lines.drop_last()));
    let mut out = joined.bytes;
    append_range(&mut out, document, end, document.len());
    proof {
        assert(document@.subrange(end as int, document@.len() as int) =~= document@.skip(
            end as int,
        ));
    }
    out
}

/// Converts a header script. Each line has its flag names, its message, its
/// icon path and its display text quoted, as far as it holds them; a line that
/// holds none stays as it is, and so do the line breaks.
pub fn convert(string: &str) -> (out: String)
    ensures
        encode_utf8(out@) == converted(encode_utf8(string@)),
{
    broadcast use encode_utf8_valid_utf8;

    let bytes = convert_bytes(string.as_bytes());
    proof {
        lemma_converted_valid(encode_utf8(string@));
    }
    match string_from_utf8(bytes) {
        Some(out) => out,
        None => unreached(),
    }
}

} // verus!
