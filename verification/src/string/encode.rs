use vstd::prelude::*;
use vstd::utf8::encode_scalar;

use crate::string::satisfy::Satisfy;
use crate::string::utf8::{
    push_chars,
    to_chars,
    utf8_bytes,
};

verus! {

// =============================================================================
// Percent-Encoding
// =============================================================================

/// The upper-case hexadecimal digit for a value below 16.
pub open spec fn spec_hex_digit_upper(n: u8) -> char {
    if n < 10 {
        (n + 0x30) as char
    } else {
        (n + 0x37) as char
    }
}

/// The percent-encoded triplet of a byte: "%" followed by two upper-case
/// hexadecimal digits.
pub open spec fn spec_percent_triplet(b: u8) -> Seq<char> {
    seq!['%', spec_hex_digit_upper(b >> 4), spec_hex_digit_upper(b & 0x0f)]
}

/// The percent-encoded triplets of a sequence of bytes.
pub open spec fn spec_percent_bytes(bytes: Seq<u8>) -> Seq<char>
    decreases bytes.len(),
{
    if bytes.len() == 0 {
        seq![]
    } else {
        spec_percent_triplet(bytes[0]) + spec_percent_bytes(bytes.drop_first())
    }
}

/// A character percent-encoded: the triplets of the bytes of its UTF-8
/// encoding.
pub open spec fn spec_percent_char(c: char) -> Seq<char> {
    spec_percent_bytes(encode_scalar(c as u32))
}

/// The encoding of `s` with respect to a satisfier (given by its run length
/// function): every run that the satisfier accepts is kept as it is, and each
/// character at which it accepts nothing is percent-encoded.
pub open spec fn spec_encode(s: Seq<char>, run: spec_fn(Seq<char>) -> nat) -> Seq<char>
    decreases s.len(),
{
    if s.len() == 0 {
        seq![]
    } else {
        let n = run(s);
        if 0 < n <= s.len() {
            s.take(n as int) + spec_encode(s.skip(n as int), run)
        } else {
            spec_percent_char(s[0]) + spec_encode(s.drop_first(), run)
        }
    }
}

/// The run length function of a satisfier.
pub open spec fn run_of<S: Satisfy>(satisfier: S) -> spec_fn(Seq<char>) -> nat {
    |s: Seq<char>| satisfier.spec_satisfy(s)
}

#[verifier::when_used_as_spec(spec_hex_digit_upper)]
pub fn hex_digit_upper(n: u8) -> (res: char)
    requires
        n < 16,
    ensures
        res == spec_hex_digit_upper(n),
{
    if n < 10 {
        (n + 0x30) as char
    } else {
        (n + 0x37) as char
    }
}

/// Appends the percent-encoded triplet of a byte to `output`.
pub fn encode_byte_percent(output: &mut String, b: u8)
    ensures
        final(output)@ == old(output)@ + spec_percent_triplet(b),
{
    assert(b >> 4 < 16) by (bit_vector);
    assert(b & 0x0f < 16) by (bit_vector);
    output.push('%');
    output.push(hex_digit_upper(b >> 4));
    output.push(hex_digit_upper(b & 0x0f));
    assert(final(output)@ =~= old(output)@ + spec_percent_triplet(b));
}

/// Appends a character, percent-encoded, to `output`.
pub fn encode_char_percent(output: &mut String, c: char)
    ensures
        final(output)@ == old(output)@ + spec_percent_char(c),
{
    let bytes = utf8_bytes(c);
    let ghost all = bytes@;
    let mut i: usize = 0;
    assert(all.skip(0) =~= all);
    while i < bytes.len()
        invariant
            i <= bytes@.len(),
            all == bytes@,
            all == encode_scalar(c as u32),
            output@ + spec_percent_bytes(all.skip(i as int)) == old(output)@ + spec_percent_char(
                c,
            ),
        decreases bytes@.len() - i,
    {
        let ghost before = output@;
        encode_byte_percent(output, bytes[i]);
        assert(all.skip(i as int).drop_first() =~= all.skip(i + 1));
        assert(before + spec_percent_bytes(all.skip(i as int)) =~= output@ + spec_percent_bytes(
            all.skip(i + 1),
        ));
        i = i + 1;
    }
    assert(all.skip(i as int) =~= Seq::<u8>::empty());
    assert(output@ + spec_percent_bytes(all.skip(i as int)) =~= output@);
}

// =============================================================================
// Encode
// =============================================================================

/// Appending a string encoded with respect to a satisfier.
pub trait Encode {
    fn encode<S: Satisfy>(&mut self, raw: &str, satisfier: &S) -> Result<(), std::fmt::Error>;
}

impl Encode for String {
    /// Appends `raw`, keeping every run that `satisfier` accepts and
    /// percent-encoding each character at which it accepts nothing. Appending
    /// to a `String` never fails.
    fn encode<S: Satisfy>(&mut self, raw: &str, satisfier: &S) -> (res: Result<(), std::fmt::Error>)
        ensures
            res is Ok,
            final(self)@ == old(self)@ + spec_encode(raw@, run_of(*satisfier)),
    {
        let chars = to_chars(raw);
        encode_chars(self, chars.as_slice(), satisfier);
        Ok(())
    }
}

/// Appends `chars` encoded with respect to `satisfier` to `output`.
pub fn encode_chars<S: Satisfy>(output: &mut String, chars: &[char], satisfier: &S)
    ensures
        final(output)@ == old(output)@ + spec_encode(chars@, run_of(*satisfier)),
{
    let ghost s = chars@;
    let ghost run = run_of(*satisfier);
    let mut pos: usize = 0;
    assert(s.skip(0) =~= s);
    while pos < chars.len()
        invariant
            s == chars@,
            run == run_of(*satisfier),
            pos <= s.len(),
            output@ + spec_encode(s.skip(pos as int), run) == old(output)@ + spec_encode(s, run),
        decreases s.len() - pos,
    {
        let ghost rest = s.skip(pos as int);
        let ghost before = output@;
        let n = satisfier.satisfy_chars(&chars[pos..chars.len()]);
        assert(chars@.subrange(pos as int, chars@.len() as int) =~= rest);
        proof {
            satisfier.lemma_satisfy_bounded(rest);
        }
        if n == 0 {
            encode_char_percent(output, chars[pos]);
            assert(rest.drop_first() =~= s.skip(pos + 1));
            pos = pos + 1;
        } else {
            push_chars(output, chars, pos, pos + n);
            assert(rest.take(n as int) =~= s.subrange(pos as int, pos + n));
            assert(rest.skip(n as int) =~= s.skip(pos + n));
            pos = pos + n;
        }
        assert(before + spec_encode(rest, run) =~= output@ + spec_encode(s.skip(pos as int), run));
    }
    assert(s.skip(pos as int) =~= Seq::<char>::empty());
    assert(output@ + spec_encode(s.skip(pos as int), run) =~= output@);
}

} // verus!
