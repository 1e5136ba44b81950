//! Walking through the lines of a text, one borrowed slice at a time.
use vstd::prelude::*;
use vstd::string::*;
use vstd::utf8::*;
use crate::encoding::{encoded_lines, lemma_encoded_lines_injective, lemma_split_lines_encoded};
use crate::text::{
    first_index_of, lemma_first_index_is, lemma_first_index_of, lines_of, without_trailing,
};

verus! {

/// The lines of a text that have not been handed out yet. Each line is a slice of the
/// text itself; nothing is copied.
pub struct Lines<'a> {
    rest: &'a str,
}

impl<'a> View for Lines<'a> {
    type V = Seq<Seq<char>>;

    /// The lines still to come, in order.
    closed spec fn view(&self) -> Seq<Seq<char>> {
        lines_of(self.rest@)
    }
}

/// Position of the first `byte` in `bytes`, or their length when there is none.
fn find_byte(bytes: &[u8], byte: u8) -> (at: usize)
    ensures
        at == first_index_of(bytes@, byte),
        at <= bytes@.len(),
{
    let mut at: usize = 0;
    while at < bytes.len() && bytes[at] != byte
        invariant
            at <= bytes@.len(),
            forall|j: int| 0 <= j < at ==> bytes@[j] != byte,
        decreases bytes@.len() - at,
    {
        at = at + 1;
    }
    proof {
        lemma_first_index_is(bytes@, byte, at as int);
    }
    at
}

/// In valid UTF-8 a byte below 128 is a character of its own: a slice may begin at it
/// and may begin right after it.
proof fn lemma_ascii_is_boundary(bytes: Seq<u8>, at: int)
    requires
        valid_utf8(bytes),
        0 <= at < bytes.len(),
        bytes[at] < 0x80,
    ensures
        is_char_boundary(bytes, at),
        valid_utf8(bytes.skip(at)),
        is_char_boundary(bytes.skip(at), 1),
{
    is_char_boundary_iff_not_is_continuation_byte(bytes, at);
    valid_utf8_split(bytes, at);
    let tail = bytes.skip(at);
    assert(tail =~= bytes.subrange(at, bytes.len() as int));
    assert(tail[0] == bytes[at]);
    assert(length_of_first_scalar(tail) == 1);
    assert(valid_utf8(pop_first_scalar(tail)));
    assert(is_char_boundary(pop_first_scalar(tail), 0));
}

/// The text before the first line feed, less one trailing carriage return, is the first
/// line; the lines of the text after that line feed follow it.
proof fn lemma_first_line(text: Seq<char>, line: Seq<char>, after: Seq<char>)
    requires
        first_index_of(encode_utf8(text), 10u8) < encode_utf8(text).len(),
        encode_utf8(line) == without_trailing(
            encode_utf8(text).take(first_index_of(encode_utf8(text), 10u8)),
            13u8,
        ),
        encode_utf8(after) == encode_utf8(text).skip(first_index_of(encode_utf8(text), 10u8) + 1),
    ensures
        lines_of(text) == seq![line] + lines_of(after),
{
    let bytes = encode_utf8(text);
    lemma_first_index_of(bytes, 10u8);
    lemma_split_lines_encoded(text);
    lemma_split_lines_encoded(after);
    let joined = seq![line] + lines_of(after);
    assert(encoded_lines(joined) =~= seq![encode_utf8(line)] + encoded_lines(lines_of(after)));
    lemma_encoded_lines_injective(lines_of(text), joined);
}

/// A text without a line feed is one line, unless it is empty.
proof fn lemma_last_line(text: Seq<char>)
    requires
        first_index_of(encode_utf8(text), 10u8) == encode_utf8(text).len(),
    ensures
        encode_utf8(text).len() > 0 ==> lines_of(text) == seq![text],
        encode_utf8(text).len() == 0 ==> lines_of(text) == Seq::<Seq<char>>::empty(),
{
    lemma_split_lines_encoded(text);
    if encode_utf8(text).len() > 0 {
        assert(encoded_lines(seq![text]) =~= seq![encode_utf8(text)]);
        lemma_encoded_lines_injective(lines_of(text), seq![text]);
    } else {
        assert(encoded_lines(Seq::<Seq<char>>::empty()) =~= Seq::<Seq<u8>>::empty());
        lemma_encoded_lines_injective(lines_of(text), Seq::<Seq<char>>::empty());
    }
}

/// `line` without one trailing carriage return.
fn trim_carriage_return<'a>(line: &'a str) -> (trimmed: &'a str)
    ensures
        trimmed.spec_bytes() == without_trailing(line.spec_bytes(), 13u8),
{
    let bytes = line.as_bytes();
    let len: usize = bytes.len();
    if len > 0 && bytes[len - 1] == 13u8 {
        proof {
            encode_utf8_valid_utf8(line@);
            lemma_ascii_is_boundary(line.spec_bytes(), len - 1);
        }
        let (front, _) = line.split_at(len - 1);
        assert(front.spec_bytes() =~= line.spec_bytes().drop_last());
        front
    } else {
        line
    }
}

impl<'a> Lines<'a> {
    /// Starts at the first line of `text`.
    pub fn new(text: &'a str) -> (lines: Self)
        ensures
            lines@ == lines_of(text@),
    {
        Lines { rest: text }
    }

    /// Hands out the next line, if there is one, and moves past it.
    pub fn next_line(&mut self) -> (line: Option<&'a str>)
        ensures
            match line {
                Some(l) => old(self)@.len() > 0 && l@ == old(self)@[0] && final(self)@ == old(
                    self,
                )@.drop_first(),
                None => old(self)@.len() == 0 && final(self)@.len() == 0,
            },
    {
        let text: &'a str = self.rest;
        let bytes = text.as_bytes();
        let len: usize = bytes.len();
        let at: usize = find_byte(bytes, 10u8);
        proof {
            encode_utf8_valid_utf8(text@);
        }
        if at == len {
            proof {
                lemma_last_line(text@);
            }
            if len == 0 {
                return None;
            }
            proof {
                is_char_boundary_start_end_of_seq(text.spec_bytes());
            }
            let (_, end) = text.split_at(len);
            proof {
                assert(end.spec_bytes().len() == 0);
                assert(first_index_of(end.spec_bytes(), 10u8) == 0);
                lemma_last_line(end@);
                assert(seq![text@].drop_first() =~= Seq::<Seq<char>>::empty());
            }
            self.rest = end;
            return Some(text);
        }
        proof {
            lemma_first_index_of(text.spec_bytes(), 10u8);
            lemma_ascii_is_boundary(text.spec_bytes(), at as int);
        }
        let (head, tail) = text.split_at(at);
        assert(tail.spec_bytes() =~= text.spec_bytes().skip(at as int));
        proof {
            encode_utf8_valid_utf8(tail@);
        }
        let (_, after) = tail.split_at(1);
        let line = trim_carriage_return(head);
        proof {
            assert(head.spec_bytes() =~= text.spec_bytes().take(at as int));
            assert(after.spec_bytes() =~= text.spec_bytes().skip(at + 1));
            lemma_first_line(text@, line@, after@);
            assert((seq![line@] + lines_of(after@)).drop_first() =~= lines_of(after@));
        }
        self.rest = after;
        Some(line)
    }
}

} // verus!
