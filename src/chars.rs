//! Character-level access to string slices: collecting the characters of a
//! slice, and cutting a slice at character positions without copying.
use vstd::prelude::*;
use vstd::utf8::*;

verus! {

broadcast use {encode_utf8_valid_utf8, encode_utf8_decode_utf8, char_is_scalar};

/// The encoding of a concatenation is the concatenation of the encodings.
pub proof fn lemma_encode_concat(a: Seq<char>, b: Seq<char>)
    ensures
        encode_utf8(a + b) == encode_utf8(a) + encode_utf8(b),
    decreases a.len(),
{
    if a.len() == 0 {
        assert(a + b =~= b);
        assert(encode_utf8(a) + encode_utf8(b) =~= encode_utf8(b));
    } else {
        lemma_encode_concat(a.drop_first(), b);
        assert((a + b).drop_first() =~= a.drop_first() + b);
        assert(encode_utf8(a + b) =~= encode_utf8(a) + encode_utf8(b));
    }
}

/// Appending one character appends its encoding.
pub proof fn lemma_encode_push(a: Seq<char>, c: char)
    ensures
        encode_utf8(a.push(c)) == encode_utf8(a) + encode_scalar(c as u32),
{
    let one = seq![c];
    assert(a.push(c) =~= a + one);
    lemma_encode_concat(a, one);
    assert(one.drop_first() =~= Seq::<char>::empty());
    assert(encode_utf8(one.drop_first()) =~= Seq::<u8>::empty());
    assert(one[0] == c);
    assert(encode_utf8(one) =~= encode_scalar(c as u32));
}

/// Splitting the characters at `k` splits the encoding at the length of the
/// encoded prefix.
pub proof fn lemma_encode_split(s: Seq<char>, k: int)
    requires
        0 <= k <= s.len(),
    ensures
        encode_utf8(s) == encode_utf8(s.take(k)) + encode_utf8(s.skip(k)),
        encode_utf8(s.take(k)).len() <= encode_utf8(s).len(),
{
    assert(s =~= s.take(k) + s.skip(k));
    lemma_encode_concat(s.take(k), s.skip(k));
}

/// The end of an encoded prefix is a character boundary of the whole encoding.
pub proof fn lemma_prefix_is_boundary(s: Seq<char>, k: int)
    requires
        0 <= k <= s.len(),
    ensures
        is_char_boundary(encode_utf8(s), encode_utf8(s.take(k)).len() as int),
    decreases s.len(),
{
    let bytes = encode_utf8(s);
    let idx = encode_utf8(s.take(k)).len() as int;
    lemma_encode_split(s, k);
    if k == 0 {
        assert(s.take(k).len() == 0);
    } else {
        encode_utf8_first_scalar(s);
        let first = encode_scalar(s[0] as u32).len() as int;
        assert(s.take(k).drop_first() =~= s.drop_first().take(k - 1));
        assert(idx == first + encode_utf8(s.drop_first().take(k - 1)).len());
        assert(pop_first_scalar(bytes) =~= encode_utf8(s.drop_first()));
        lemma_prefix_is_boundary(s.drop_first(), k - 1);
    }
}

/// The number of bytes that `c` takes in UTF-8.
pub fn utf8_width(c: char) -> (w: usize)
    ensures
        w == encode_scalar(c as u32).len(),
{
    let u = c as u32;
    if u < 0x80 {
        1
    } else if u < 0x800 {
        2
    } else if u < 0x10000 {
        3
    } else {
        4
    }
}

/// The characters of `s`, in order.
pub fn chars_of(s: &str) -> (v: Vec<char>)
    ensures
        v@ == s@,
{
    let mut v: Vec<char> = Vec::new();
    for c in it: s.chars()
        invariant
            it.seq() == s@,
            v@ == it.seq().take(it.index() as int),
    {
        v.push(c);
    }
    v
}

/// The part of `s` from character `from` up to character `to`, as a view
/// into `s`. `from_byte` and `to_byte` are where those characters start in
/// the encoding of `s`.
pub(crate) fn slice_chars<'a>(
    s: &'a str,
    Ghost(from): Ghost<int>,
    Ghost(to): Ghost<int>,
    from_byte: usize,
    to_byte: usize,
) -> (r: &'a str)
    requires
        0 <= from <= to <= s@.len(),
        from_byte == encode_utf8(s@.take(from)).len(),
        to_byte == encode_utf8(s@.take(to)).len(),
    ensures
        r@ == s@.subrange(from, to),
{
    let ghost text = s@;
    proof {
        lemma_prefix_is_boundary(text, from);
        lemma_encode_split(text, from);
    }
    let (_, tail) = s.split_at(from_byte);
    proof {
        assert(encode_utf8(tail@) == encode_utf8(text.skip(from)));
        assert(tail@ == text.skip(from)) by {
            assert(decode_utf8(encode_utf8(tail@)) == decode_utf8(encode_utf8(text.skip(from))));
        }
        let piece = text.subrange(from, to);
        assert(text.take(to) =~= text.take(from) + piece);
        lemma_encode_concat(text.take(from), piece);
        assert(tail@.take(to - from) =~= piece);
        lemma_prefix_is_boundary(tail@, to - from);
        lemma_encode_split(tail@, to - from);
    }
    let (line, _) = tail.split_at(to_byte - from_byte);
    proof {
        let piece = text.subrange(from, to);
        assert(encode_utf8(line@) == encode_utf8(piece));
        assert(decode_utf8(encode_utf8(line@)) == decode_utf8(encode_utf8(piece)));
    }
    line
}

} // verus!
