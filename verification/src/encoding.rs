//! How the UTF-8 bytes of a text relate to its characters: the facts that let a search
//! over bytes answer a question about characters.
use vstd::prelude::*;
use vstd::utf8::*;
use crate::text::{
    first_index_of, lemma_empty_occurs, lemma_first_index_after_prefix, lemma_first_index_of,
    occurs_at, occurs_in, split_lines, without_trailing,
};

verus! {

/// The byte that encodes an ASCII character.
pub open spec fn ascii_byte(c: char) -> u8 {
    (c as u32) as u8
}

/// Values below 128 keep all their bits when the high ones are masked off.
proof fn lemma_low_bits(v: u32)
    by (bit_vector)
    requires
        v <= 0x7f,
    ensures
        (v & 0x7f) as u8 == v as u8,
        (v as u8) as u32 == v,
{
}

/// Encoding distributes over concatenation.
pub proof fn lemma_encode_concat(a: Seq<char>, b: Seq<char>)
    ensures
        encode_utf8(a + b) == encode_utf8(a) + encode_utf8(b),
    decreases a.len(),
{
    if a.len() == 0 {
        assert(a + b =~= b);
        assert(encode_utf8(a) + encode_utf8(b) =~= encode_utf8(b));
    } else {
        let rest = a.drop_first();
        lemma_encode_concat(rest, b);
        assert((a + b).drop_first() =~= rest + b);
        assert((a + b)[0] == a[0]);
        assert(encode_utf8(a + b) =~= encode_utf8(a) + encode_utf8(b));
    }
}

/// A text of one character is encoded as that character alone.
pub proof fn lemma_encode_single(c: char)
    ensures
        encode_utf8(seq![c]) == encode_scalar(c as u32),
{
    let s = seq![c];
    assert(s.drop_first() =~= Seq::<char>::empty());
    assert(encode_utf8(s.drop_first()) =~= Seq::<u8>::empty());
    assert(encode_utf8(s) =~= encode_scalar(c as u32));
}

/// The shape of one encoded character: one to four bytes, the first of which tells the
/// length and is no continuation byte, while all later ones are. An ASCII character is
/// its own single byte, and no byte of any other character is below 128.
pub proof fn lemma_scalar_shape(c: char)
    ensures
        1 <= encode_scalar(c as u32).len() <= 4,
        encode_scalar(c as u32).len() == length_of_first_codepoint(encode_scalar(c as u32)),
        !is_continuation_byte(encode_scalar(c as u32)[0]),
        forall|j: int|
            1 <= j < encode_scalar(c as u32).len() ==> is_continuation_byte(
                #[trigger] encode_scalar(c as u32)[j],
            ),
        (c as u32) < 0x80 ==> encode_scalar(c as u32) == seq![ascii_byte(c)],
        (c as u32) >= 0x80 ==> forall|j: int|
            0 <= j < encode_scalar(c as u32).len() ==> #[trigger] encode_scalar(c as u32)[j]
                >= 0x80,
        decode_first_codepoint(encode_scalar(c as u32)) == c as u32,
{
    let s = seq![c];
    let bytes = encode_scalar(c as u32);
    lemma_encode_single(c);
    encode_utf8_first_scalar(s);
    if (c as u32) < 0x80 {
        lemma_low_bits(c as u32);
        assert(bytes =~= seq![ascii_byte(c)]);
    }
}

/// Two texts with the same encoding are the same text.
pub proof fn lemma_encode_injective(a: Seq<char>, b: Seq<char>)
    requires
        encode_utf8(a) == encode_utf8(b),
    ensures
        a == b,
{
    encode_utf8_decode_utf8(a);
    encode_utf8_decode_utf8(b);
}

/// An ASCII character is told from every other character by its byte.
pub proof fn lemma_ascii_byte_distinct(a: char, c: char)
    requires
        (a as u32) < 0x80,
    ensures
        (c as u32) < 0x80 && ascii_byte(c) == ascii_byte(a) ==> c == a,
{
    if (c as u32) < 0x80 {
        lemma_low_bits(a as u32);
        lemma_low_bits(c as u32);
    }
}

/// No byte of an encoded character equals the byte of a different ASCII character.
pub proof fn lemma_ascii_byte_absent(a: char, c: char)
    requires
        (a as u32) < 0x80,
        c != a,
    ensures
        forall|j: int|
            0 <= j < encode_scalar(c as u32).len() ==> #[trigger] encode_scalar(c as u32)[j]
                != ascii_byte(a),
{
    lemma_scalar_shape(c);
    lemma_low_bits(a as u32);
    if (c as u32) < 0x80 {
        lemma_ascii_byte_distinct(a, c);
    }
}

/// The first byte of an ASCII character in an encoded text stands where the encoding
/// of the text before that character's first occurrence ends.
pub proof fn lemma_first_index_encoded(t: Seq<char>, a: char)
    requires
        (a as u32) < 0x80,
    ensures
        first_index_of(encode_utf8(t), ascii_byte(a)) == encode_utf8(
            t.take(first_index_of(t, a)),
        ).len(),
    decreases t.len(),
{
    let b = ascii_byte(a);
    if t.len() == 0 {
        assert(t.take(0) =~= t);
    } else if t[0] == a {
        lemma_scalar_shape(a);
        assert(encode_utf8(t)[0] == b);
        assert(t.take(0) =~= Seq::<char>::empty());
    } else {
        let head = encode_scalar(t[0] as u32);
        let rest = t.drop_first();
        let k = first_index_of(rest, a);
        lemma_first_index_of(rest, a);
        lemma_ascii_byte_absent(a, t[0]);
        lemma_first_index_after_prefix(head, encode_utf8(rest), b);
        lemma_first_index_encoded(rest, a);
        let upto = t.take(1 + k);
        assert(upto[0] == t[0]);
        assert(upto.drop_first() =~= rest.take(k));
        assert(encode_utf8(upto) =~= head + encode_utf8(rest.take(k)));
    }
}

/// Dropping a trailing ASCII character from a text drops its byte from the encoding.
pub proof fn lemma_without_trailing_encoded(h: Seq<char>, a: char)
    requires
        (a as u32) < 0x80,
    ensures
        without_trailing(encode_utf8(h), ascii_byte(a)) == encode_utf8(without_trailing(h, a)),
{
    if h.len() > 0 {
        let front = h.drop_last();
        let last = h.last();
        let tail = encode_scalar(last as u32);
        assert(h =~= front + seq![last]);
        lemma_encode_concat(front, seq![last]);
        lemma_encode_single(last);
        lemma_scalar_shape(last);
        let bytes = encode_utf8(h);
        assert(bytes =~= encode_utf8(front) + tail);
        assert(bytes.last() == tail.last());
        if last == a {
            assert(bytes.drop_last() =~= encode_utf8(front));
        } else {
            lemma_ascii_byte_absent(a, last);
        }
    }
}

/// The encodings of the lines in `lines`, in the same order.
pub open spec fn encoded_lines(lines: Seq<Seq<char>>) -> Seq<Seq<u8>> {
    Seq::new(lines.len(), |i: int| encode_utf8(lines[i]))
}

/// Line lists with the same encodings, line by line, are the same list.
pub proof fn lemma_encoded_lines_injective(a: Seq<Seq<char>>, b: Seq<Seq<char>>)
    requires
        encoded_lines(a) == encoded_lines(b),
    ensures
        a == b,
{
    assert(encoded_lines(a).len() == a.len());
    assert(encoded_lines(b).len() == b.len());
    assert forall|i: int| 0 <= i < a.len() implies a[i] == b[i] by {
        assert(encoded_lines(a)[i] == encode_utf8(a[i]));
        assert(encoded_lines(b)[i] == encode_utf8(b[i]));
        lemma_encode_injective(a[i], b[i]);
    }
    assert(a =~= b);
}

/// Splitting the encoded text at the bytes 10 and 13 gives the encodings of the lines
/// that the text has when split at line feed and carriage return.
pub proof fn lemma_split_lines_encoded(t: Seq<char>)
    ensures
        split_lines(encode_utf8(t), 10u8, 13u8) == encoded_lines(split_lines(t, '\n', '\r')),
    decreases t.len(),
{
    let bytes = encode_utf8(t);
    assert(ascii_byte('\n') == 10u8 && ascii_byte('\r') == 13u8);
    if t.len() == 0 {
        assert(encoded_lines(split_lines(t, '\n', '\r')) =~= Seq::<Seq<u8>>::empty());
    } else {
        let at = first_index_of(t, '\n');
        let k = first_index_of(bytes, 10u8);
        lemma_first_index_of(t, '\n');
        lemma_first_index_encoded(t, '\n');
        lemma_scalar_shape(t[0]);
        if at == t.len() {
            assert(t.take(at) =~= t);
            assert(encoded_lines(seq![t]) =~= seq![bytes]);
        } else {
            let head = t.take(at);
            let tail = t.skip(at + 1);
            assert(t =~= head + seq!['\n'] + tail);
            lemma_encode_concat(head + seq!['\n'], tail);
            lemma_encode_concat(head, seq!['\n']);
            lemma_encode_single('\n');
            lemma_scalar_shape('\n');
            assert(bytes =~= encode_utf8(head) + seq![10u8] + encode_utf8(tail));
            assert(bytes.take(k) =~= encode_utf8(head));
            assert(bytes.skip(k + 1) =~= encode_utf8(tail));
            lemma_without_trailing_encoded(head, '\r');
            lemma_split_lines_encoded(tail);
            assert(encoded_lines(seq![without_trailing(head, '\r')] + split_lines(tail, '\n', '\r'))
                =~= seq![encode_utf8(without_trailing(head, '\r'))] + encoded_lines(
                split_lines(tail, '\n', '\r'),
            ));
        }
    }
}

/// A text whose encoding begins the encoding of another text begins that text.
pub proof fn lemma_prefix_encoded(n: Seq<char>, h: Seq<char>)
    requires
        encode_utf8(n).is_prefix_of(encode_utf8(h)),
    ensures
        n.is_prefix_of(h),
    decreases n.len(),
{
    if n.len() > 0 {
        let a = n[0];
        let na = encode_scalar(a as u32);
        lemma_scalar_shape(a);
        assert(encode_utf8(n) =~= na + encode_utf8(n.drop_first()));
        assert(h.len() > 0);
        let c = h[0];
        let hc = encode_scalar(c as u32);
        lemma_scalar_shape(c);
        assert(encode_utf8(h) =~= hc + encode_utf8(h.drop_first()));
        assert(na[0] == encode_utf8(n)[0]);
        assert(hc[0] == encode_utf8(h)[0]);
        assert(na.len() == hc.len());
        assert forall|j: int| 0 <= j < na.len() implies na[j] == hc[j] by {
            assert(na[j] == encode_utf8(n)[j]);
            assert(hc[j] == encode_utf8(h)[j]);
        }
        assert(na =~= hc);
        assert(a == c) by {
            char_u32_cast(a, a as u32);
            char_u32_cast(c, c as u32);
        }
        let w = na.len() as int;
        assert(encode_utf8(n.drop_first()) =~= encode_utf8(n).skip(w));
        assert(encode_utf8(h.drop_first()) =~= encode_utf8(h).skip(w));
        assert(encode_utf8(n.drop_first()).is_prefix_of(encode_utf8(h.drop_first())));
        lemma_prefix_encoded(n.drop_first(), h.drop_first());
        assert(n =~= h.subrange(0, n.len() as int)) by {
            assert forall|j: int| 0 <= j < n.len() implies n[j] == h[j] by {
                if j > 0 {
                    assert(n[j] == n.drop_first()[j - 1]);
                    assert(h[j] == h.drop_first()[j - 1]);
                }
            }
        }
    }
}

/// Where a text occurs in another, its encoding occurs in the other's encoding.
pub proof fn lemma_occurs_encode(n: Seq<char>, h: Seq<char>)
    requires
        occurs_in(n, h),
    ensures
        occurs_in(encode_utf8(n), encode_utf8(h)),
{
    let i = choose|i: int| occurs_at(n, h, i);
    let before = h.take(i);
    let after = h.skip(i + n.len());
    assert(h =~= before + n + after);
    lemma_encode_concat(before + n, after);
    lemma_encode_concat(before, n);
    let at = encode_utf8(before).len() as int;
    assert(encode_utf8(h).subrange(at, at + encode_utf8(n).len()) =~= encode_utf8(n));
    assert(occurs_at(encode_utf8(n), encode_utf8(h), at));
}

/// Where the encoding of a text occurs in the encoding of another, at whatever byte,
/// the text occurs in the other.
pub proof fn lemma_occurs_decode(n: Seq<char>, h: Seq<char>, k: int)
    requires
        occurs_at(encode_utf8(n), encode_utf8(h), k),
    ensures
        occurs_in(n, h),
    decreases h.len(),
{
    let nb = encode_utf8(n);
    let hb = encode_utf8(h);
    if n.len() == 0 {
        lemma_empty_occurs(n, h);
    } else {
        lemma_scalar_shape(n[0]);
        assert(nb =~= encode_scalar(n[0] as u32) + encode_utf8(n.drop_first()));
        assert(h.len() > 0);
        let c = h[0];
        let hc = encode_scalar(c as u32);
        let rest = h.drop_first();
        lemma_scalar_shape(c);
        assert(hb =~= hc + encode_utf8(rest));
        assert(hb.subrange(k, k + nb.len())[0] == nb[0]);
        if k == 0 {
            assert(nb.is_prefix_of(hb));
            lemma_prefix_encoded(n, h);
            assert(occurs_at(n, h, 0));
        } else if k < hc.len() {
            assert(hb[k] == hc[k]);
            assert(false);
        } else {
            let w = hc.len() as int;
            assert(encode_utf8(rest).subrange(k - w, k - w + nb.len()) =~= hb.subrange(
                k,
                k + nb.len(),
            ));
            assert(occurs_at(nb, encode_utf8(rest), k - w));
            lemma_occurs_decode(n, rest, k - w);
            let i = choose|i: int| occurs_at(n, rest, i);
            assert(h.subrange(i + 1, i + 1 + n.len()) =~= rest.subrange(i, i + n.len()));
            assert(occurs_at(n, h, i + 1));
        }
    }
}

/// A text occurs in another exactly when its encoding occurs in the other's encoding.
pub proof fn lemma_occurs_encoded(n: Seq<char>, h: Seq<char>)
    ensures
        occurs_in(encode_utf8(n), encode_utf8(h)) <==> occurs_in(n, h),
{
    if occurs_in(n, h) {
        lemma_occurs_encode(n, h);
    }
    if occurs_in(encode_utf8(n), encode_utf8(h)) {
        let k = choose|k: int| occurs_at(encode_utf8(n), encode_utf8(h), k);
        lemma_occurs_decode(n, h, k);
    }
}

} // verus!
