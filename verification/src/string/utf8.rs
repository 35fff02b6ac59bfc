use vstd::prelude::*;
use vstd::utf8::{
    char_is_scalar,
    encode_scalar,
    encode_utf8,
    has_width_1_encoding,
    has_width_2_encoding,
    has_width_3_encoding,
    has_width_4_encoding,
};

verus! {

// =============================================================================
// Characters and UTF-8
// =============================================================================

/// `String::push` appends the given `char` to the end of the string (as its
/// documentation states).
pub assume_specification[ String::push ](string: &mut String, ch: char)
    ensures
        final(string)@ == old(string)@.push(ch),
;

/// The characters of a string slice, in order.
pub fn to_chars(s: &str) -> (res: Vec<char>)
    ensures
        res@ == s@,
{
    let mut chars: Vec<char> = Vec::new();
    for c in it: s.chars()
        invariant
            it.seq() == s@,
            chars@ == s@.take(it.index() as int),
    {
        chars.push(c);
    }
    assert(chars@ =~= s@);
    chars
}

/// Appends the characters `chars[from..to]` to `output`.
pub fn push_chars(output: &mut String, chars: &[char], from: usize, to: usize)
    requires
        from <= to <= chars@.len(),
    ensures
        final(output)@ == old(output)@ + chars@.subrange(from as int, to as int),
{
    let mut i: usize = from;
    while i < to
        invariant
            from <= i <= to <= chars@.len(),
            output@ == old(output)@ + chars@.subrange(from as int, i as int),
        decreases to - i,
    {
        output.push(chars[i]);
        assert(chars@.subrange(from as int, i + 1) =~= chars@.subrange(from as int, i as int).push(
            chars@[i as int],
        ));
        i = i + 1;
    }
}

// -----------------------------------------------------------------------------

// UTF-8

/// The number of bytes of the UTF-8 encoding of a string slice.
pub fn byte_len(s: &str) -> (res: usize)
    ensures
        res == encode_utf8(s@).len(),
{
    s.as_bytes().len()
}

/// The number of bytes of the UTF-8 encoding of `c`.
pub fn utf8_width(c: char) -> (res: usize)
    ensures
        res == encode_scalar(c as u32).len(),
        1 <= res <= 4,
{
    proof {
        char_is_scalar(c);
    }
    let v = c as u32;
    if v < 0x80 {
        1
    } else if v < 0x800 {
        2
    } else if v < 0x10000 {
        3
    } else {
        4
    }
}

/// The bytes of the UTF-8 encoding of `c`.
pub fn utf8_bytes(c: char) -> (res: Vec<u8>)
    ensures
        res@ == encode_scalar(c as u32),
{
    proof {
        char_is_scalar(c);
    }
    let v = c as u32;
    if v < 0x80 {
        vec![(v & 0x7F) as u8]
    } else if v < 0x800 {
        vec![0xC0 | ((v >> 6) & 0x1F) as u8, 0x80 | (v & 0x3F) as u8]
    } else if v < 0x10000 {
        vec![0xE0 | ((v >> 12) & 0x0F) as u8, 0x80 | ((v >> 6) & 0x3F) as u8, 0x80 | (v & 0x3F) as u8]
    } else {
        vec![
            0xF0 | ((v >> 18) & 0x7) as u8,
            0x80 | ((v >> 12) & 0x3F) as u8,
            0x80 | ((v >> 6) & 0x3F) as u8,
            0x80 | (v & 0x3F) as u8,
        ]
    }
}

pub proof fn lemma_encode_utf8_concat(a: Seq<char>, b: Seq<char>)
    ensures
        encode_utf8(a + b) == encode_utf8(a) + encode_utf8(b),
    decreases a.len(),
{
    if a.len() == 0 {
        assert(a + b =~= b);
    } else {
        lemma_encode_utf8_concat(a.drop_first(), b);
        assert((a + b).drop_first() =~= a.drop_first() + b);
    }
}

pub proof fn lemma_encode_utf8_prefix(s: Seq<char>, i: int)
    requires
        0 <= i < s.len(),
    ensures
        encode_utf8(s.take(i + 1)) == encode_utf8(s.take(i)) + encode_scalar(s[i] as u32),
        encode_utf8(s.take(i)).len() <= encode_utf8(s).len(),
{
    lemma_encode_utf8_concat(s.take(i), seq![s[i]]);
    assert(s.take(i + 1) =~= s.take(i) + seq![s[i]]);
    let one = seq![s[i]];
    assert(one.drop_first() =~= Seq::<char>::empty());
    assert(encode_utf8(one.drop_first()) =~= Seq::<u8>::empty());
    assert(encode_utf8(one) == encode_scalar(one[0] as u32) + encode_utf8(one.drop_first()));
    assert(encode_utf8(one) =~= encode_scalar(s[i] as u32));
    lemma_encode_utf8_concat(s.take(i), s.skip(i));
    assert(s =~= s.take(i) + s.skip(i));
}

/// The byte offset in the UTF-8 encoding of `s` of the character at index
/// `index`, that is the length of the encoding of `s[..index]`.
pub fn byte_offset(s: &[char], index: usize, total: usize) -> (res: usize)
    requires
        index <= s@.len(),
        encode_utf8(s@).len() == total,
    ensures
        res == encode_utf8(s@.take(index as int)).len(),
{
    let mut i: usize = 0;
    let mut offset: usize = 0;
    assert(s@.take(0) =~= Seq::<char>::empty());
    while i < index
        invariant
            i <= index <= s@.len(),
            encode_utf8(s@).len() == total,
            offset == encode_utf8(s@.take(i as int)).len(),
        decreases index - i,
    {
        proof {
            lemma_encode_utf8_prefix(s@, i as int);
            if i + 1 < s@.len() {
                lemma_encode_utf8_prefix(s@, i + 1);
            } else {
                assert(s@.take(i + 1) =~= s@);
            }
        }
        offset = offset + utf8_width(s[i]);
        i = i + 1;
    }
    offset
}

} // verus!
