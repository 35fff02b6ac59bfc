use vstd::prelude::*;
use vstd::utf8::encode_utf8;

use crate::string::utf8::{
    byte_len,
    byte_offset,
    to_chars,
};

verus! {

// =============================================================================
// Character Classes
// =============================================================================

/// `unreserved` (RFC 3986): ALPHA / DIGIT / "-" / "." / "_" / "~".
pub open spec fn spec_is_unreserved_ascii(b: u8) -> bool {
    ||| 0x61 <= b <= 0x7a
    ||| 0x41 <= b <= 0x5a
    ||| 0x30 <= b <= 0x39
    ||| 0x2d <= b <= 0x2e
    ||| b == 0x5f
    ||| b == 0x7e
}

/// `gen-delims` (RFC 3986): ":" / "/" / "?" / "#" / "[" / "]" / "@".
pub open spec fn spec_is_general_delimiter_ascii(b: u8) -> bool {
    ||| b == 0x23
    ||| b == 0x2f
    ||| b == 0x3a
    ||| b == 0x3f
    ||| b == 0x40
    ||| b == 0x5b
    ||| b == 0x5d
}

/// `sub-delims` (RFC 3986): "!" / "$" / "&" / "'" / "(" / ")" / "*" / "+" /
/// "," / ";" / "=".
pub open spec fn spec_is_sub_delimiter_ascii(b: u8) -> bool {
    ||| b == 0x21
    ||| b == 0x24
    ||| 0x26 <= b <= 0x2c
    ||| b == 0x3b
    ||| b == 0x3d
}

/// `reserved` (RFC 3986): gen-delims / sub-delims.
pub open spec fn spec_is_reserved_ascii(b: u8) -> bool {
    spec_is_general_delimiter_ascii(b) || spec_is_sub_delimiter_ascii(b)
}

/// `varchar` (RFC 6570) without the percent-encoded form: ALPHA / DIGIT / "_".
pub open spec fn spec_is_variable_character_ascii(b: u8) -> bool {
    ||| 0x61 <= b <= 0x7a
    ||| 0x41 <= b <= 0x5a
    ||| 0x30 <= b <= 0x39
    ||| b == 0x5f
}

/// The ASCII part of `literals` (RFC 6570 with Errata 6937, which allows "'").
pub open spec fn spec_is_literal_ascii(b: u8) -> bool {
    ||| 0x61 <= b <= 0x7a
    ||| 0x3f <= b <= 0x5b
    ||| 0x26 <= b <= 0x3b
    ||| b == 0x21
    ||| 0x23 <= b <= 0x24
    ||| b == 0x3d
    ||| b == 0x5d
    ||| b == 0x5f
    ||| b == 0x7e
}

/// The non-ASCII part of `literals` (RFC 6570, section 1.5): `ucschar` /
/// `iprivate`.
pub open spec fn spec_is_literal_unicode(c: char) -> bool {
    ||| '\u{0000a0}' <= c <= '\u{00d7ff}'
    ||| '\u{00f900}' <= c <= '\u{00fdcf}'
    ||| '\u{00fdf0}' <= c <= '\u{00ffef}'
    ||| '\u{010000}' <= c <= '\u{01fffd}'
    ||| '\u{020000}' <= c <= '\u{02fffd}'
    ||| '\u{030000}' <= c <= '\u{03fffd}'
    ||| '\u{040000}' <= c <= '\u{04fffd}'
    ||| '\u{050000}' <= c <= '\u{05fffd}'
    ||| '\u{060000}' <= c <= '\u{06fffd}'
    ||| '\u{070000}' <= c <= '\u{07fffd}'
    ||| '\u{080000}' <= c <= '\u{08fffd}'
    ||| '\u{090000}' <= c <= '\u{09fffd}'
    ||| '\u{0a0000}' <= c <= '\u{0afffd}'
    ||| '\u{0b0000}' <= c <= '\u{0bfffd}'
    ||| '\u{0c0000}' <= c <= '\u{0cfffd}'
    ||| '\u{0d0000}' <= c <= '\u{0dfffd}'
    ||| '\u{0e1000}' <= c <= '\u{0efffd}'
    ||| '\u{00e000}' <= c <= '\u{00f8ff}'
    ||| '\u{0f0000}' <= c <= '\u{0ffffd}'
    ||| '\u{100000}' <= c <= '\u{10fffd}'
}

/// HEXDIG (RFC 5234), either case.
pub open spec fn spec_is_hex_digit(c: char) -> bool {
    ||| '0' <= c <= '9'
    ||| 'a' <= c <= 'f'
    ||| 'A' <= c <= 'F'
}

#[verifier::when_used_as_spec(spec_is_unreserved_ascii)]
pub fn is_unreserved_ascii(b: u8) -> (res: bool)
    ensures
        res == spec_is_unreserved_ascii(b),
{
    (0x61 <= b && b <= 0x7a) || (0x41 <= b && b <= 0x5a) || (0x30 <= b && b <= 0x39) || (0x2d <= b
        && b <= 0x2e) || b == 0x5f || b == 0x7e
}

#[verifier::when_used_as_spec(spec_is_general_delimiter_ascii)]
pub fn is_general_delimiter_ascii(b: u8) -> (res: bool)
    ensures
        res == spec_is_general_delimiter_ascii(b),
{
    b == 0x23 || b == 0x2f || b == 0x3a || b == 0x3f || b == 0x40 || b == 0x5b || b == 0x5d
}

#[verifier::when_used_as_spec(spec_is_sub_delimiter_ascii)]
pub fn is_sub_delimiter_ascii(b: u8) -> (res: bool)
    ensures
        res == spec_is_sub_delimiter_ascii(b),
{
    b == 0x21 || b == 0x24 || (0x26 <= b && b <= 0x2c) || b == 0x3b || b == 0x3d
}

#[verifier::when_used_as_spec(spec_is_reserved_ascii)]
pub fn is_reserved_ascii(b: u8) -> (res: bool)
    ensures
        res == spec_is_reserved_ascii(b),
{
    is_general_delimiter_ascii(b) || is_sub_delimiter_ascii(b)
}

#[verifier::when_used_as_spec(spec_is_variable_character_ascii)]
pub fn is_variable_character_ascii(b: u8) -> (res: bool)
    ensures
        res == spec_is_variable_character_ascii(b),
{
    (0x61 <= b && b <= 0x7a) || (0x41 <= b && b <= 0x5a) || (0x30 <= b && b <= 0x39) || b == 0x5f
}

#[verifier::when_used_as_spec(spec_is_literal_ascii)]
pub fn is_literal_ascii(b: u8) -> (res: bool)
    ensures
        res == spec_is_literal_ascii(b),
{
    (0x61 <= b && b <= 0x7a) || (0x3f <= b && b <= 0x5b) || (0x26 <= b && b <= 0x3b) || b == 0x21
        || (0x23 <= b && b <= 0x24) || b == 0x3d || b == 0x5d || b == 0x5f || b == 0x7e
}

#[verifier::when_used_as_spec(spec_is_literal_unicode)]
pub fn is_literal_unicode(c: char) -> (res: bool)
    ensures
        res == spec_is_literal_unicode(c),
{
    ('\u{0000a0}' <= c && c <= '\u{00d7ff}') || ('\u{00f900}' <= c && c <= '\u{00fdcf}') || (
    '\u{00fdf0}' <= c && c <= '\u{00ffef}') || ('\u{010000}' <= c && c <= '\u{01fffd}') || (
    '\u{020000}' <= c && c <= '\u{02fffd}') || ('\u{030000}' <= c && c <= '\u{03fffd}') || (
    '\u{040000}' <= c && c <= '\u{04fffd}') || ('\u{050000}' <= c && c <= '\u{05fffd}') || (
    '\u{060000}' <= c && c <= '\u{06fffd}') || ('\u{070000}' <= c && c <= '\u{07fffd}') || (
    '\u{080000}' <= c && c <= '\u{08fffd}') || ('\u{090000}' <= c && c <= '\u{09fffd}') || (
    '\u{0a0000}' <= c && c <= '\u{0afffd}') || ('\u{0b0000}' <= c && c <= '\u{0bfffd}') || (
    '\u{0c0000}' <= c && c <= '\u{0cfffd}') || ('\u{0d0000}' <= c && c <= '\u{0dfffd}') || (
    '\u{0e1000}' <= c && c <= '\u{0efffd}') || ('\u{00e000}' <= c && c <= '\u{00f8ff}') || (
    '\u{0f0000}' <= c && c <= '\u{0ffffd}') || ('\u{100000}' <= c && c <= '\u{10fffd}')
}

#[verifier::when_used_as_spec(spec_is_hex_digit)]
pub fn is_hex_digit(c: char) -> (res: bool)
    ensures
        res == spec_is_hex_digit(c),
{
    ('0' <= c && c <= '9') || ('a' <= c && c <= 'f') || ('A' <= c && c <= 'F')
}


// =============================================================================
// Satisfy
// =============================================================================

/// A recogniser of runs of characters: `satisfy_chars` returns how many
/// characters at the start of the input it accepts, and `satisfy` how many
/// bytes of a string slice those characters take.
///
/// Every satisfier accepts no more than its input and is maximal: once it has
/// accepted what it can, it accepts nothing more of what follows.
pub trait Satisfy {
    spec fn spec_satisfy(&self, input: Seq<char>) -> nat;

    proof fn lemma_satisfy_bounded(&self, input: Seq<char>)
        ensures
            self.spec_satisfy(input) <= input.len(),
    ;

    proof fn lemma_satisfy_maximal(&self, input: Seq<char>)
        ensures
            self.spec_satisfy(input) <= input.len(),
            self.spec_satisfy(input.skip(self.spec_satisfy(input) as int)) == 0,
    ;

    fn satisfy_chars(&self, input: &[char]) -> (n: usize)
        ensures
            n == self.spec_satisfy(input@),
    ;

    /// The number of bytes at the start of `input` that the satisfier
    /// accepts.
    fn satisfy(&self, input: &str) -> (n: usize)
        ensures
            n == encode_utf8(input@.take(self.spec_satisfy(input@) as int)).len(),
    {
        let chars = to_chars(input);
        let total = byte_len(input);
        let k = self.satisfy_chars(chars.as_slice());
        proof {
            self.lemma_satisfy_bounded(input@);
        }
        byte_offset(chars.as_slice(), k, total)
    }
}

// -----------------------------------------------------------------------------

// Runs

/// The length of the longest prefix of `s` whose characters all satisfy `p`.
pub open spec fn run_len(s: Seq<char>, p: spec_fn(char) -> bool) -> nat
    decreases s.len(),
{
    if s.len() > 0 && p(s[0]) {
        1 + run_len(s.drop_first(), p)
    } else {
        0
    }
}

pub proof fn lemma_run_len(s: Seq<char>, p: spec_fn(char) -> bool)
    ensures
        run_len(s, p) <= s.len(),
        forall|i: int| 0 <= i < run_len(s, p) ==> #[trigger] p(s[i]),
        run_len(s, p) < s.len() ==> !p(s[run_len(s, p) as int]),
        run_len(s.skip(run_len(s, p) as int), p) == 0,
    decreases s.len(),
{
    if s.len() > 0 && p(s[0]) {
        lemma_run_len(s.drop_first(), p);
        assert forall|i: int| 0 <= i < run_len(s, p) implies #[trigger] p(s[i]) by {
            if i > 0 {
                assert(s[i] == s.drop_first()[i - 1]);
            }
        }
        assert(s.skip(run_len(s, p) as int) =~= s.drop_first().skip(run_len(s.drop_first(), p) as int));
    } else {
        assert(s.skip(0) =~= s);
    }
}

proof fn lemma_run_len_step(s: Seq<char>, p: spec_fn(char) -> bool, i: int)
    requires
        0 <= i < s.len(),
        p(s[i]),
    ensures
        run_len(s.skip(i), p) == 1 + run_len(s.skip(i + 1), p),
{
    assert(s.skip(i).drop_first() =~= s.skip(i + 1));
}

// -----------------------------------------------------------------------------

// ASCII

/// The classes of ASCII characters that the library recognises.
#[derive(Clone, Copy, Debug, PartialEq, Eq)]
pub enum AsciiClass {
    Unreserved,
    UnreservedOrReserved,
    VariableCharacter,
    Literal,
}

pub open spec fn spec_ascii_class_holds(class: AsciiClass, b: u8) -> bool {
    match class {
        AsciiClass::Unreserved => spec_is_unreserved_ascii(b),
        AsciiClass::UnreservedOrReserved => spec_is_unreserved_ascii(b) || spec_is_reserved_ascii(b),
        AsciiClass::VariableCharacter => spec_is_variable_character_ascii(b),
        AsciiClass::Literal => spec_is_literal_ascii(b),
    }
}

/// A character is accepted by an ASCII class when it is ASCII and its byte is
/// in the class.
pub open spec fn spec_ascii_accepts(class: AsciiClass, c: char) -> bool {
    (c as u32) < 0x80 && spec_ascii_class_holds(class, (c as u32) as u8)
}

pub open spec fn ascii_pred(class: AsciiClass) -> spec_fn(char) -> bool {
    |c: char| spec_ascii_accepts(class, c)
}

pub(crate) fn ascii_accepts(class: AsciiClass, c: char) -> (res: bool)
    ensures
        res == spec_ascii_accepts(class, c),
{
    let v = c as u32;
    if v < 0x80 {
        let b = v as u8;
        match class {
            AsciiClass::Unreserved => is_unreserved_ascii(b),
            AsciiClass::UnreservedOrReserved => is_unreserved_ascii(b) || is_reserved_ascii(b),
            AsciiClass::VariableCharacter => is_variable_character_ascii(b),
            AsciiClass::Literal => is_literal_ascii(b),
        }
    } else {
        false
    }
}

/// Accepts the longest run of ASCII characters of a class.
#[derive(Clone, Copy, Debug)]
pub struct Ascii {
    pub class: AsciiClass,
}

impl Ascii {
    pub fn new(class: AsciiClass) -> (res: Self)
        ensures
            res.class == class,
    {
        Self { class }
    }
}

impl Satisfy for Ascii {
    open spec fn spec_satisfy(&self, input: Seq<char>) -> nat {
        run_len(input, ascii_pred(self.class))
    }

    proof fn lemma_satisfy_bounded(&self, input: Seq<char>) {
        lemma_run_len(input, ascii_pred(self.class));
    }

    proof fn lemma_satisfy_maximal(&self, input: Seq<char>) {
        lemma_run_len(input, ascii_pred(self.class));
    }

    fn satisfy_chars(&self, input: &[char]) -> (n: usize) {
        let ghost p = ascii_pred(self.class);
        let mut i: usize = 0;
        assert(input@.skip(0) =~= input@);
        while i < input.len() && ascii_accepts(self.class, input[i])
            invariant
                i <= input@.len(),
                p == ascii_pred(self.class),
                run_len(input@, p) == i + run_len(input@.skip(i as int), p),
            decreases input@.len() - i,
        {
            proof {
                lemma_run_len_step(input@, p, i as int);
            }
            i = i + 1;
        }
        i
    }
}

// -----------------------------------------------------------------------------

// Unicode

/// The classes of non-ASCII characters that the library recognises.
#[derive(Clone, Copy, Debug, PartialEq, Eq)]
pub enum UnicodeClass {
    Literal,
}

pub open spec fn spec_unicode_accepts(class: UnicodeClass, c: char) -> bool {
    (c as u32) >= 0x80 && match class {
        UnicodeClass::Literal => spec_is_literal_unicode(c),
    }
}

pub open spec fn unicode_pred(class: UnicodeClass) -> spec_fn(char) -> bool {
    |c: char| spec_unicode_accepts(class, c)
}

fn unicode_accepts(class: UnicodeClass, c: char) -> (res: bool)
    ensures
        res == spec_unicode_accepts(class, c),
{
    let v = c as u32;
    if v >= 0x80 {
        match class {
            UnicodeClass::Literal => is_literal_unicode(c),
        }
    } else {
        false
    }
}

/// Accepts the longest run of non-ASCII characters of a class.
#[derive(Clone, Copy, Debug)]
pub struct Unicode {
    pub class: UnicodeClass,
}

impl Unicode {
    pub fn new(class: UnicodeClass) -> (res: Self)
        ensures
            res.class == class,
    {
        Self { class }
    }
}

impl Satisfy for Unicode {
    open spec fn spec_satisfy(&self, input: Seq<char>) -> nat {
        run_len(input, unicode_pred(self.class))
    }

    proof fn lemma_satisfy_bounded(&self, input: Seq<char>) {
        lemma_run_len(input, unicode_pred(self.class));
    }

    proof fn lemma_satisfy_maximal(&self, input: Seq<char>) {
        lemma_run_len(input, unicode_pred(self.class));
    }

    fn satisfy_chars(&self, input: &[char]) -> (n: usize) {
        let ghost p = unicode_pred(self.class);
        let mut i: usize = 0;
        assert(input@.skip(0) =~= input@);
        while i < input.len() && unicode_accepts(self.class, input[i])
            invariant
                i <= input@.len(),
                p == unicode_pred(self.class),
                run_len(input@, p) == i + run_len(input@.skip(i as int), p),
            decreases input@.len() - i,
        {
            proof {
                lemma_run_len_step(input@, p, i as int);
            }
            i = i + 1;
        }
        i
    }
}

// -----------------------------------------------------------------------------

// Percent-Encoded

/// True when `s` starts with a percent-encoded triplet: "%" HEXDIG HEXDIG.
pub open spec fn starts_with_triplet(s: Seq<char>) -> bool {
    s.len() >= 3 && s[0] == '%' && spec_is_hex_digit(s[1]) && spec_is_hex_digit(s[2])
}

/// The length of the longest prefix of `s` made of percent-encoded triplets.
pub open spec fn triplet_run(s: Seq<char>) -> nat
    decreases s.len(),
{
    if starts_with_triplet(s) {
        3 + triplet_run(s.skip(3))
    } else {
        0
    }
}

pub proof fn lemma_triplet_run(s: Seq<char>)
    ensures
        triplet_run(s) <= s.len(),
        triplet_run(s) % 3 == 0,
        triplet_run(s.skip(triplet_run(s) as int)) == 0,
    decreases s.len(),
{
    if starts_with_triplet(s) {
        lemma_triplet_run(s.skip(3));
        assert(s.skip(triplet_run(s) as int) =~= s.skip(3).skip(triplet_run(s.skip(3)) as int));
    } else {
        assert(s.skip(0) =~= s);
    }
}

/// Accepts the longest run of percent-encoded triplets.
#[derive(Clone, Copy, Debug)]
pub struct PercentEncoded;

impl Satisfy for PercentEncoded {
    open spec fn spec_satisfy(&self, input: Seq<char>) -> nat {
        triplet_run(input)
    }

    proof fn lemma_satisfy_bounded(&self, input: Seq<char>) {
        lemma_triplet_run(input);
    }

    proof fn lemma_satisfy_maximal(&self, input: Seq<char>) {
        lemma_triplet_run(input);
    }

    fn satisfy_chars(&self, input: &[char]) -> (n: usize) {
        let mut pos: usize = 0;
        assert(input@.skip(0) =~= input@);
        loop
            invariant
                pos <= input@.len(),
                triplet_run(input@) == pos + triplet_run(input@.skip(pos as int)),
            decreases input@.len() - pos,
        {
            if input.len() - pos >= 3 && input[pos] == '%' && is_hex_digit(input[pos + 1])
                && is_hex_digit(input[pos + 2]) {
                assert(input@.skip(pos as int).skip(3) =~= input@.skip(pos + 3));
                pos = pos + 3;
            } else {
                return pos;
            }
        }
    }
}


// -----------------------------------------------------------------------------

// Composite - Tuple 2

/// One round of a pair of satisfiers: each satisfier that is not exhausted is
/// applied in turn where the previous one stopped. A satisfier that accepts
/// something marks the other as no longer exhausted; each one that was applied
/// is exhausted afterwards. The result is the number of characters accepted in
/// the round and the flags ("not exhausted") for the next round.
pub open spec fn round2<S1: Satisfy, S2: Satisfy>(
    satisfiers: (S1, S2),
    s: Seq<char>,
    live: (bool, bool),
) -> (nat, (bool, bool)) {
    let n0 = if live.0 && satisfiers.0.spec_satisfy(s) <= s.len() {
        satisfiers.0.spec_satisfy(s)
    } else {
        0
    };
    let t = s.skip(n0 as int);
    let live1 = live.1 || n0 > 0;
    let n1 = if live1 && satisfiers.1.spec_satisfy(t) <= t.len() {
        satisfiers.1.spec_satisfy(t)
    } else {
        0
    };
    (n0 + n1, (n1 > 0, false))
}

/// Rounds of a pair of satisfiers, repeated until the input is used up or
/// both satisfiers are exhausted.
pub open spec fn rounds2<S1: Satisfy, S2: Satisfy>(
    satisfiers: (S1, S2),
    s: Seq<char>,
    live: (bool, bool),
) -> nat
    decreases s.len(),
{
    if s.len() == 0 {
        0
    } else {
        let (k, next) = round2(satisfiers, s, live);
        if (next.0 || next.1) && 0 < k <= s.len() {
            k + rounds2(satisfiers, s.skip(k as int), next)
        } else {
            k
        }
    }
}

/// Rounds of a pair of satisfiers stop within the input, where neither
/// satisfier accepts anything more (given that a satisfier marked exhausted
/// at the start accepts nothing there).
pub proof fn lemma_rounds2<S1: Satisfy, S2: Satisfy>(
    satisfiers: (S1, S2),
    s: Seq<char>,
    live: (bool, bool),
)
    requires
        !live.0 ==> satisfiers.0.spec_satisfy(s) == 0,
        !live.1 ==> satisfiers.1.spec_satisfy(s) == 0,
    ensures
        rounds2(satisfiers, s, live) <= s.len(),
        satisfiers.0.spec_satisfy(s.skip(rounds2(satisfiers, s, live) as int)) == 0,
        satisfiers.1.spec_satisfy(s.skip(rounds2(satisfiers, s, live) as int)) == 0,
    decreases s.len(),
{
    satisfiers.0.lemma_satisfy_maximal(s);
    satisfiers.1.lemma_satisfy_maximal(s);
    if s.len() == 0 {
        assert(s.skip(0) =~= s);
    } else {
        let (k, next) = round2(satisfiers, s, live);
        let n0 = if live.0 {
            satisfiers.0.spec_satisfy(s)
        } else {
            0
        };
        let t = s.skip(n0 as int);
        satisfiers.0.lemma_satisfy_maximal(t);
        satisfiers.1.lemma_satisfy_maximal(t);
        let n1 = if live.1 || n0 > 0 {
            satisfiers.1.spec_satisfy(t)
        } else {
            0
        };
        assert(k == n0 + n1);
        assert(s.skip(k as int) =~= t.skip(n1 as int));
        if (next.0 || next.1) && 0 < k <= s.len() {
            lemma_rounds2(satisfiers, s.skip(k as int), next);
            let r = rounds2(satisfiers, s.skip(k as int), next);
            assert(s.skip(rounds2(satisfiers, s, live) as int) =~= s.skip(k as int).skip(r as int));
        }
    }
}

impl<S1: Satisfy, S2: Satisfy> Satisfy for (S1, S2) {
    open spec fn spec_satisfy(&self, input: Seq<char>) -> nat {
        rounds2(*self, input, (true, true))
    }

    proof fn lemma_satisfy_bounded(&self, input: Seq<char>) {
        lemma_rounds2(*self, input, (true, true));
    }

    proof fn lemma_satisfy_maximal(&self, input: Seq<char>) {
        lemma_rounds2(*self, input, (true, true));
        let rest = input.skip(self.spec_satisfy(input) as int);
        if rest.len() > 0 {
            assert(rest.skip(0) =~= rest);
            assert(round2(*self, rest, (true, true)) == (0nat, (false, false)));
            assert(rounds2(*self, rest, (true, true)) == 0);
        }
    }

    fn satisfy_chars(&self, input: &[char]) -> (n: usize) {
        let ghost s = input@;
        let mut pos: usize = 0;
        let mut live = (true, true);
        assert(s.skip(0) =~= s);
        loop
            invariant
                s == input@,
                pos <= s.len(),
                rounds2(*self, s, (true, true)) == pos + rounds2(*self, s.skip(pos as int), live),
            ensures
                rounds2(*self, s, (true, true)) == pos,
            decreases s.len() - pos,
        {
            if pos == input.len() {
                break;
            }
            let ghost start = pos;
            let ghost rest = s.skip(pos as int);
            let ghost old_live = live;
            proof {
                self.0.lemma_satisfy_bounded(rest);
            }
            if live.0 {
                let n = self.0.satisfy_chars(&input[pos..input.len()]);
                assert(input@.subrange(pos as int, input@.len() as int) =~= rest);
                if n > 0 {
                    pos = pos + n;
                    live.1 = true;
                }
                live.0 = false;
            }
            let ghost mid = s.skip(pos as int);
            assert(mid =~= rest.skip(pos - start));
            proof {
                self.1.lemma_satisfy_bounded(mid);
            }
            if live.1 {
                let n = self.1.satisfy_chars(&input[pos..input.len()]);
                assert(input@.subrange(pos as int, input@.len() as int) =~= mid);
                if n > 0 {
                    pos = pos + n;
                    live.0 = true;
                }
                live.1 = false;
            }
            assert(round2(*self, rest, old_live) == ((pos - start) as nat, live));
            assert(s.skip(pos as int) =~= rest.skip(pos - start));
            if !(live.0 || live.1) {
                break;
            }
        }
        pos
    }
}

/// The first `n` characters of `s` are a concatenation of non-empty
/// matches of the two satisfiers: each match is all that one of them accepts
/// where the previous match ended.
pub open spec fn matches2<S1: Satisfy, S2: Satisfy>(
    satisfiers: (S1, S2),
    s: Seq<char>,
    n: nat,
) -> bool
    decreases n,
{
    if n == 0 {
        true
    } else {
        let a = satisfiers.0.spec_satisfy(s);
        let b = satisfiers.1.spec_satisfy(s);
        ||| 0 < a <= n && matches2(satisfiers, s.skip(a as int), (n - a) as nat)
        ||| 0 < b <= n && matches2(satisfiers, s.skip(b as int), (n - b) as nat)
    }
}

proof fn lemma_rounds2_matches<S1: Satisfy, S2: Satisfy>(
    satisfiers: (S1, S2),
    s: Seq<char>,
    live: (bool, bool),
)
    requires
        !live.0 ==> satisfiers.0.spec_satisfy(s) == 0,
        !live.1 ==> satisfiers.1.spec_satisfy(s) == 0,
    ensures
        matches2(satisfiers, s, rounds2(satisfiers, s, live)),
    decreases s.len(),
{
    if s.len() > 0 {
        satisfiers.0.lemma_satisfy_maximal(s);
        let (k, next) = round2(satisfiers, s, live);
        let n0 = if live.0 {
            satisfiers.0.spec_satisfy(s)
        } else {
            0
        };
        let t = s.skip(n0 as int);
        satisfiers.1.lemma_satisfy_maximal(t);
        let n1 = if live.1 || n0 > 0 {
            satisfiers.1.spec_satisfy(t)
        } else {
            0
        };
        assert(k == n0 + n1);
        let r: nat = if (next.0 || next.1) && 0 < k <= s.len() {
            rounds2(satisfiers, s.skip(k as int), next)
        } else {
            0
        };
        assert(rounds2(satisfiers, s, live) == k + r);
        let u = s.skip(k as int);
        assert(t.skip(n1 as int) =~= u);
        if (next.0 || next.1) && 0 < k <= s.len() {
            assert(satisfiers.1.spec_satisfy(u) == 0);
            lemma_rounds2_matches(satisfiers, u, next);
        }
        // The second satisfier's match, then the rest.
        assert(matches2(satisfiers, t, n1 + r)) by {
            if n1 > 0 {
                assert(matches2(satisfiers, t.skip(n1 as int), r));
            } else {
                assert(r == 0);
            }
        }
        // The first satisfier's match before it.
        if n0 > 0 {
            assert(matches2(satisfiers, s, (n0 + (n1 + r)) as nat));
        } else {
            assert(t =~= s);
        }
    }
}

/// The run of a pair of satisfiers is a concatenation of non-empty matches
/// of the two, it stays within the input, and neither of the two accepts
/// anything where it ends.
pub proof fn law_pair_run_is_concatenation_of_matches<S1: Satisfy, S2: Satisfy>(
    satisfiers: (S1, S2),
    s: Seq<char>,
)
    ensures
        matches2(satisfiers, s, satisfiers.spec_satisfy(s)),
        satisfiers.spec_satisfy(s) <= s.len(),
        satisfiers.0.spec_satisfy(s.skip(satisfiers.spec_satisfy(s) as int)) == 0,
        satisfiers.1.spec_satisfy(s.skip(satisfiers.spec_satisfy(s) as int)) == 0,
{
    lemma_rounds2(satisfiers, s, (true, true));
    lemma_rounds2_matches(satisfiers, s, (true, true));
}

// -----------------------------------------------------------------------------

// Composite - Tuple 3

/// One round of a triple of satisfiers; see `round2`.
pub open spec fn round3<S1: Satisfy, S2: Satisfy, S3: Satisfy>(
    satisfiers: (S1, S2, S3),
    s: Seq<char>,
    live: (bool, bool, bool),
) -> (nat, (bool, bool, bool)) {
    let n0 = if live.0 && satisfiers.0.spec_satisfy(s) <= s.len() {
        satisfiers.0.spec_satisfy(s)
    } else {
        0
    };
    let t = s.skip(n0 as int);
    let live1 = live.1 || n0 > 0;
    let live2 = live.2 || n0 > 0;
    let n1 = if live1 && satisfiers.1.spec_satisfy(t) <= t.len() {
        satisfiers.1.spec_satisfy(t)
    } else {
        0
    };
    let u = t.skip(n1 as int);
    let live2b = live2 || n1 > 0;
    let n2 = if live2b && satisfiers.2.spec_satisfy(u) <= u.len() {
        satisfiers.2.spec_satisfy(u)
    } else {
        0
    };
    (n0 + n1 + n2, (n1 > 0 || n2 > 0, n2 > 0, false))
}

/// Rounds of a triple of satisfiers; see `rounds2`.
pub open spec fn rounds3<S1: Satisfy, S2: Satisfy, S3: Satisfy>(
    satisfiers: (S1, S2, S3),
    s: Seq<char>,
    live: (bool, bool, bool),
) -> nat
    decreases s.len(),
{
    if s.len() == 0 {
        0
    } else {
        let (k, next) = round3(satisfiers, s, live);
        if (next.0 || next.1 || next.2) && 0 < k <= s.len() {
            k + rounds3(satisfiers, s.skip(k as int), next)
        } else {
            k
        }
    }
}

/// Rounds of a triple of satisfiers stop within the input, where none of
/// the three accepts anything more (given that a satisfier marked exhausted
/// at the start accepts nothing there).
pub proof fn lemma_rounds3<S1: Satisfy, S2: Satisfy, S3: Satisfy>(
    satisfiers: (S1, S2, S3),
    s: Seq<char>,
    live: (bool, bool, bool),
)
    requires
        !live.0 ==> satisfiers.0.spec_satisfy(s) == 0,
        !live.1 ==> satisfiers.1.spec_satisfy(s) == 0,
        !live.2 ==> satisfiers.2.spec_satisfy(s) == 0,
    ensures
        rounds3(satisfiers, s, live) <= s.len(),
        satisfiers.0.spec_satisfy(s.skip(rounds3(satisfiers, s, live) as int)) == 0,
        satisfiers.1.spec_satisfy(s.skip(rounds3(satisfiers, s, live) as int)) == 0,
        satisfiers.2.spec_satisfy(s.skip(rounds3(satisfiers, s, live) as int)) == 0,
    decreases s.len(),
{
    satisfiers.0.lemma_satisfy_maximal(s);
    satisfiers.1.lemma_satisfy_maximal(s);
    satisfiers.2.lemma_satisfy_maximal(s);
    if s.len() == 0 {
        assert(s.skip(0) =~= s);
    } else {
        let (k, next) = round3(satisfiers, s, live);
        let n0 = if live.0 {
            satisfiers.0.spec_satisfy(s)
        } else {
            0
        };
        let t = s.skip(n0 as int);
        satisfiers.0.lemma_satisfy_maximal(t);
        satisfiers.1.lemma_satisfy_maximal(t);
        satisfiers.2.lemma_satisfy_maximal(t);
        let n1 = if live.1 || n0 > 0 {
            satisfiers.1.spec_satisfy(t)
        } else {
            0
        };
        let u = t.skip(n1 as int);
        satisfiers.0.lemma_satisfy_maximal(u);
        satisfiers.1.lemma_satisfy_maximal(u);
        satisfiers.2.lemma_satisfy_maximal(u);
        let n2 = if live.2 || n0 > 0 || n1 > 0 {
            satisfiers.2.spec_satisfy(u)
        } else {
            0
        };
        assert(k == n0 + n1 + n2);
        assert(s.skip(k as int) =~= u.skip(n2 as int));
        assert(t.skip(n1 as int) =~= s.skip((n0 + n1) as int));
        if (next.0 || next.1 || next.2) && 0 < k <= s.len() {
            lemma_rounds3(satisfiers, s.skip(k as int), next);
            let r = rounds3(satisfiers, s.skip(k as int), next);
            assert(s.skip(rounds3(satisfiers, s, live) as int) =~= s.skip(k as int).skip(r as int));
        }
    }
}

impl<S1: Satisfy, S2: Satisfy, S3: Satisfy> Satisfy for (S1, S2, S3) {
    open spec fn spec_satisfy(&self, input: Seq<char>) -> nat {
        rounds3(*self, input, (true, true, true))
    }

    proof fn lemma_satisfy_bounded(&self, input: Seq<char>) {
        lemma_rounds3(*self, input, (true, true, true));
    }

    proof fn lemma_satisfy_maximal(&self, input: Seq<char>) {
        lemma_rounds3(*self, input, (true, true, true));
        let rest = input.skip(self.spec_satisfy(input) as int);
        if rest.len() > 0 {
            assert(rest.skip(0) =~= rest);
            assert(round3(*self, rest, (true, true, true)) == (0nat, (false, false, false)));
            assert(rounds3(*self, rest, (true, true, true)) == 0);
        }
    }

    #[verifier::rlimit(40)]
    fn satisfy_chars(&self, input: &[char]) -> (n: usize) {
        let ghost s = input@;
        let mut pos: usize = 0;
        let mut live = (true, true, true);
        assert(s.skip(0) =~= s);
        loop
            invariant
                s == input@,
                pos <= s.len(),
                rounds3(*self, s, (true, true, true)) == pos + rounds3(
                    *self,
                    s.skip(pos as int),
                    live,
                ),
            ensures
                rounds3(*self, s, (true, true, true)) == pos,
            decreases s.len() - pos,
        {
            if pos == input.len() {
                break;
            }
            let ghost start = pos;
            let ghost rest = s.skip(pos as int);
            let ghost old_live = live;
            proof {
                self.0.lemma_satisfy_bounded(rest);
            }
            if live.0 {
                let n = self.0.satisfy_chars(&input[pos..input.len()]);
                assert(input@.subrange(pos as int, input@.len() as int) =~= rest);
                if n > 0 {
                    pos = pos + n;
                    live.1 = true;
                    live.2 = true;
                }
                live.0 = false;
            }
            let ghost mid = s.skip(pos as int);
            let ghost after0 = pos;
            assert(mid =~= rest.skip(pos - start));
            proof {
                self.1.lemma_satisfy_bounded(mid);
            }
            if live.1 {
                let n = self.1.satisfy_chars(&input[pos..input.len()]);
                assert(input@.subrange(pos as int, input@.len() as int) =~= mid);
                if n > 0 {
                    pos = pos + n;
                    live.0 = true;
                    live.2 = true;
                }
                live.1 = false;
            }
            let ghost last = s.skip(pos as int);
            assert(last =~= mid.skip(pos - after0));
            proof {
                self.2.lemma_satisfy_bounded(last);
            }
            if live.2 {
                let n = self.2.satisfy_chars(&input[pos..input.len()]);
                assert(input@.subrange(pos as int, input@.len() as int) =~= last);
                if n > 0 {
                    pos = pos + n;
                    live.0 = true;
                    live.1 = true;
                }
                live.2 = false;
            }
            assert(round3(*self, rest, old_live) == ((pos - start) as nat, live));
            assert(s.skip(pos as int) =~= rest.skip(pos - start));
            if !(live.0 || live.1 || live.2) {
                break;
            }
        }
        pos
    }
}


/// The first `n` characters of `s` are a concatenation of non-empty
/// matches of the three satisfiers; see `matches2`.
pub open spec fn matches3<S1: Satisfy, S2: Satisfy, S3: Satisfy>(
    satisfiers: (S1, S2, S3),
    s: Seq<char>,
    n: nat,
) -> bool
    decreases n,
{
    if n == 0 {
        true
    } else {
        let a = satisfiers.0.spec_satisfy(s);
        let b = satisfiers.1.spec_satisfy(s);
        let c = satisfiers.2.spec_satisfy(s);
        ||| 0 < a <= n && matches3(satisfiers, s.skip(a as int), (n - a) as nat)
        ||| 0 < b <= n && matches3(satisfiers, s.skip(b as int), (n - b) as nat)
        ||| 0 < c <= n && matches3(satisfiers, s.skip(c as int), (n - c) as nat)
    }
}

proof fn lemma_rounds3_matches<S1: Satisfy, S2: Satisfy, S3: Satisfy>(
    satisfiers: (S1, S2, S3),
    s: Seq<char>,
    live: (bool, bool, bool),
)
    requires
        !live.0 ==> satisfiers.0.spec_satisfy(s) == 0,
        !live.1 ==> satisfiers.1.spec_satisfy(s) == 0,
        !live.2 ==> satisfiers.2.spec_satisfy(s) == 0,
    ensures
        matches3(satisfiers, s, rounds3(satisfiers, s, live)),
    decreases s.len(),
{
    if s.len() > 0 {
        satisfiers.0.lemma_satisfy_maximal(s);
        satisfiers.1.lemma_satisfy_maximal(s);
        let (k, next) = round3(satisfiers, s, live);
        let n0 = if live.0 {
            satisfiers.0.spec_satisfy(s)
        } else {
            0
        };
        let t = s.skip(n0 as int);
        satisfiers.0.lemma_satisfy_maximal(t);
        satisfiers.1.lemma_satisfy_maximal(t);
        satisfiers.2.lemma_satisfy_maximal(t);
        let n1 = if live.1 || n0 > 0 {
            satisfiers.1.spec_satisfy(t)
        } else {
            0
        };
        let u = t.skip(n1 as int);
        satisfiers.0.lemma_satisfy_maximal(u);
        satisfiers.1.lemma_satisfy_maximal(u);
        satisfiers.2.lemma_satisfy_maximal(u);
        let n2 = if live.2 || n0 > 0 || n1 > 0 {
            satisfiers.2.spec_satisfy(u)
        } else {
            0
        };
        assert(k == n0 + n1 + n2);
        let r: nat = if (next.0 || next.1 || next.2) && 0 < k <= s.len() {
            rounds3(satisfiers, s.skip(k as int), next)
        } else {
            0
        };
        assert(rounds3(satisfiers, s, live) == k + r);
        let w = s.skip(k as int);
        assert(u.skip(n2 as int) =~= w);
        assert(t.skip(n1 as int) =~= u);
        if (next.0 || next.1 || next.2) && 0 < k <= s.len() {
            lemma_rounds3(satisfiers, s, live);
            if n2 == 0 {
                assert(u =~= w);
            }
            lemma_rounds3_matches(satisfiers, w, next);
        }
        assert(matches3(satisfiers, u, n2 + r)) by {
            if n2 > 0 {
                assert(matches3(satisfiers, u.skip(n2 as int), r));
            } else if r > 0 {
                assert(u =~= w);
            }
        }
        assert(matches3(satisfiers, t, n1 + n2 + r)) by {
            if n1 > 0 {
                assert(matches3(satisfiers, t.skip(n1 as int), (n2 + r) as nat));
            } else {
                assert(t =~= u);
            }
        }
        if n0 > 0 {
            assert(matches3(satisfiers, s, (n0 + (n1 + n2 + r)) as nat));
        } else {
            assert(t =~= s);
        }
    }
}

/// The run of a triple of satisfiers is a concatenation of non-empty
/// matches of the three, it stays within the input, and none of the three
/// accepts anything where it ends.
pub proof fn law_triple_run_is_concatenation_of_matches<S1: Satisfy, S2: Satisfy, S3: Satisfy>(
    satisfiers: (S1, S2, S3),
    s: Seq<char>,
)
    ensures
        matches3(satisfiers, s, satisfiers.spec_satisfy(s)),
        satisfiers.spec_satisfy(s) <= s.len(),
        satisfiers.0.spec_satisfy(s.skip(satisfiers.spec_satisfy(s) as int)) == 0,
        satisfiers.1.spec_satisfy(s.skip(satisfiers.spec_satisfy(s) as int)) == 0,
        satisfiers.2.spec_satisfy(s.skip(satisfiers.spec_satisfy(s) as int)) == 0,
{
    lemma_rounds3(satisfiers, s, (true, true, true));
    lemma_rounds3_matches(satisfiers, s, (true, true, true));
}

// -----------------------------------------------------------------------------

// Common Satisfiers

/// Accepts runs of `unreserved` characters.
pub fn unreserved() -> (res: Ascii)
    ensures
        res.class == AsciiClass::Unreserved,
{
    Ascii::new(AsciiClass::Unreserved)
}

/// Accepts runs of `unreserved` and `reserved` characters and of
/// percent-encoded triplets.
pub fn unreserved_or_reserved() -> (res: (Ascii, PercentEncoded))
    ensures
        res.0.class == AsciiClass::UnreservedOrReserved,
{
    (Ascii::new(AsciiClass::UnreservedOrReserved), PercentEncoded)
}

// =============================================================================
// Character Classes as RFC 3986 and RFC 6570 Give Them
// =============================================================================

/// An ASCII letter or digit.
pub open spec fn is_alphanumeric_char(c: char) -> bool {
    ('a' <= c && c <= 'z') || ('A' <= c && c <= 'Z') || ('0' <= c && c <= '9')
}

/// RFC 3986 `unreserved`: ALPHA / DIGIT / "-" / "." / "_" / "~".
pub open spec fn rfc_unreserved_char(c: char) -> bool {
    is_alphanumeric_char(c) || c == '-' || c == '.' || c == '_' || c == '~'
}

/// RFC 3986 `reserved`: `gen-delims` (":" / "/" / "?" / "#" / "[" / "]" / "@")
/// and `sub-delims` ("!" / "$" / "&" / "'" / "(" / ")" / "*" / "+" / "," /
/// ";" / "=").
pub open spec fn rfc_reserved_char(c: char) -> bool {
    rfc_general_delimiter_char(c) || rfc_sub_delimiter_char(c)
}

/// RFC 3986 `gen-delims`: ":" / "/" / "?" / "#" / "[" / "]" / "@".
pub open spec fn rfc_general_delimiter_char(c: char) -> bool {
    c == ':' || c == '/' || c == '?' || c == '#' || c == '[' || c == ']' || c == '@'
}

/// RFC 3986 `sub-delims`: "!" / "$" / "&" / "'" / "(" / ")" / "*" / "+" /
/// "," / ";" / "=".
pub open spec fn rfc_sub_delimiter_char(c: char) -> bool {
    ||| c == '!' || c == '$' || c == '&' || c == '\'' || c == '(' || c == ')'
    ||| c == '*' || c == '+' || c == ',' || c == ';' || c == '='
}

/// RFC 5234 `HEXDIG`, in either case.
pub open spec fn rfc_hex_digit_char(c: char) -> bool {
    let v = c as u32;
    ||| 0x30 <= v && v < 0x30 + 10
    ||| 0x41 <= v && v < 0x41 + 6
    ||| 0x61 <= v && v < 0x61 + 6
}

/// The byte predicates are the RFC sets of the characters with those codes;
/// no byte from 0x80 up is in any of them.
pub proof fn law_byte_classes(b: u8)
    ensures
        spec_is_unreserved_ascii(b) == rfc_unreserved_char(b as char),
        spec_is_general_delimiter_ascii(b) == rfc_general_delimiter_char(b as char),
        spec_is_sub_delimiter_ascii(b) == rfc_sub_delimiter_char(b as char),
        spec_is_reserved_ascii(b) == rfc_reserved_char(b as char),
        spec_is_variable_character_ascii(b) == rfc_variable_char(b as char),
        spec_is_literal_ascii(b) == rfc_literal_ascii_char(b as char),
{
}

/// The hexadecimal digits of percent-encoded triplets are RFC 5234 `HEXDIG`.
pub proof fn law_hex_digit_class(c: char)
    ensures
        spec_is_hex_digit(c) == rfc_hex_digit_char(c),
{
}

/// RFC 6570 `varchar` without its percent-encoded form: ALPHA / DIGIT / "_".
pub open spec fn rfc_variable_char(c: char) -> bool {
    is_alphanumeric_char(c) || c == '_'
}

/// The ASCII characters of RFC 6570 `literals` (with Errata 6937, which
/// admits "'"): every printable ASCII character but space, '"', "%", "<",
/// ">", "\", "^", "`", "{", "|" and "}".
pub open spec fn rfc_literal_ascii_char(c: char) -> bool {
    &&& '!' <= c && c <= '~'
    &&& c != '"' && c != '%' && c != '<' && c != '>' && c != '\\'
    &&& c != '^' && c != '`' && c != '{' && c != '|' && c != '}'
}

/// RFC 6570 `ucschar` / `iprivate` (section 1.5).
pub open spec fn rfc_ucschar_or_iprivate(c: char) -> bool {
    let v = c as u32;
    ||| 0xA0 <= v && v <= 0xD7FF
    ||| 0xF900 <= v && v <= 0xFDCF
    ||| 0xFDF0 <= v && v <= 0xFFEF
    ||| (0x10000 <= v && v <= 0xDFFFF && v % 0x10000 <= 0xFFFD)
    ||| 0xE1000 <= v && v <= 0xEFFFD
    ||| 0xE000 <= v && v <= 0xF8FF
    ||| 0xF0000 <= v && v <= 0xFFFFD
    ||| 0x100000 <= v && v <= 0x10FFFD
}

/// The unreserved class is RFC 3986 `unreserved`, no more and no less.
pub proof fn law_unreserved_class(c: char)
    ensures
        spec_ascii_accepts(AsciiClass::Unreserved, c) == rfc_unreserved_char(c),
{
    lemma_ascii_byte(c);
}

/// The unreserved-or-reserved class is RFC 3986 `unreserved` and
/// `reserved`, no more and no less.
pub proof fn law_unreserved_or_reserved_class(c: char)
    ensures
        spec_ascii_accepts(AsciiClass::UnreservedOrReserved, c) == (rfc_unreserved_char(c)
            || rfc_reserved_char(c)),
{
    lemma_ascii_byte(c);
}

/// The variable-character class is every ASCII letter, upper or lower case,
/// every digit and "_", and nothing else.
pub proof fn law_variable_character_class(c: char)
    ensures
        spec_ascii_accepts(AsciiClass::VariableCharacter, c) == rfc_variable_char(c),
{
    lemma_ascii_byte(c);
}

/// The ASCII literal class is the ASCII part of RFC 6570 `literals`.
pub proof fn law_literal_ascii_class(c: char)
    ensures
        spec_ascii_accepts(AsciiClass::Literal, c) == rfc_literal_ascii_char(c),
{
    lemma_ascii_byte(c);
}

/// The non-ASCII literal class is RFC 6570 `ucschar` / `iprivate`.
pub proof fn law_literal_unicode_class(c: char)
    ensures
        spec_unicode_accepts(UnicodeClass::Literal, c) == rfc_ucschar_or_iprivate(c),
{
    let v = c as u32;
    assert(0x10000 <= v && v <= 0xDFFFF ==> (v % 0x10000 <= 0xFFFD <==> (
        (0x10000 <= v && v <= 0x1FFFD) || (0x20000 <= v && v <= 0x2FFFD)
        || (0x30000 <= v && v <= 0x3FFFD) || (0x40000 <= v && v <= 0x4FFFD)
        || (0x50000 <= v && v <= 0x5FFFD) || (0x60000 <= v && v <= 0x6FFFD)
        || (0x70000 <= v && v <= 0x7FFFD) || (0x80000 <= v && v <= 0x8FFFD)
        || (0x90000 <= v && v <= 0x9FFFD) || (0xA0000 <= v && v <= 0xAFFFD)
        || (0xB0000 <= v && v <= 0xBFFFD) || (0xC0000 <= v && v <= 0xCFFFD)
        || (0xD0000 <= v && v <= 0xDFFFD)))) by (nonlinear_arith);
}

/// The byte of an ASCII character is its code.
proof fn lemma_ascii_byte(c: char)
    ensures
        (c as u32) < 0x80 ==> ((c as u32) as u8) as u32 == c as u32,
{
    let v = c as u32;
    assert(v < 0x80 ==> (v as u8) as u32 == v) by (bit_vector);
}

} // verus!
