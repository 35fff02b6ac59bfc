//! Percent-encoding by a state machine, one character at a time: characters
//! of an allowed class are kept, and, where the encoding allows it, text that
//! is already percent-encoded is kept too.

use vstd::prelude::*;
use vstd::utf8::{
    decode_utf8,
    encode_scalar,
    encode_utf8,
    encode_utf8_decode_utf8,
};

use crate::string::encode::{
    encode_char_percent,
    spec_hex_digit_upper,
    spec_percent_bytes,
    spec_percent_triplet,
    run_of,
    spec_encode,
    spec_percent_char,
};
use crate::string::satisfy::{
    ascii_accepts,
    law_unreserved_class,
    rfc_unreserved_char,
    ascii_pred,
    is_hex_digit,
    lemma_run_len,
    lemma_triplet_run,
    round2,
    rounds2,
    run_len,
    triplet_run,
    spec_ascii_accepts,
    spec_is_hex_digit,
    starts_with_triplet,
    Ascii,
    AsciiClass,
};
use crate::string::utf8::to_chars;
use crate::template::expand::{
    encode_allowed,
    literal_expansion,
    spec_matcher,
    Allow,
};

verus! {

// =============================================================================
// Encoding
// =============================================================================

/// How to encode: the class of characters kept as they are, and whether
/// percent-encoded triplets ("%" and two hexadecimal digits) already in the
/// input are kept as they are.
#[derive(Clone, Copy, Debug)]
pub struct Encoding {
    pub allow_encoded: bool,
    pub allow: AsciiClass,
}

impl Encoding {
    /// The encoding of values that may hold reserved characters ("+" and "#"
    /// expansions): unreserved and reserved characters and percent-encoded
    /// triplets are kept.
    pub fn reserved() -> (res: Encoding)
        ensures
            res.allow_encoded,
            res.allow == AsciiClass::UnreservedOrReserved,
    {
        Encoding { allow_encoded: true, allow: AsciiClass::UnreservedOrReserved }
    }

    /// The encoding of all other values: only unreserved characters are kept.
    pub fn unreserved() -> (res: Encoding)
        ensures
            !res.allow_encoded,
            res.allow == AsciiClass::Unreserved,
    {
        Encoding { allow_encoded: false, allow: AsciiClass::Unreserved }
    }
}

/// A character encoded on its own: kept if its class is allowed, else
/// percent-encoded.
pub open spec fn spec_encode_char(encoding: Encoding, c: char) -> Seq<char> {
    if spec_ascii_accepts(encoding.allow, c) {
        seq![c]
    } else {
        spec_percent_char(c)
    }
}

/// A string encoded: from left to right, a percent-encoded triplet is kept
/// where the encoding allows it, and every other character is encoded on its
/// own.
pub open spec fn spec_encode_str(encoding: Encoding, s: Seq<char>) -> Seq<char>
    decreases s.len(),
{
    if s.len() == 0 {
        seq![]
    } else if encoding.allow_encoded && starts_with_triplet(s) {
        s.take(3) + spec_encode_str(encoding, s.skip(3))
    } else {
        spec_encode_char(encoding, s[0]) + spec_encode_str(encoding, s.drop_first())
    }
}

// -----------------------------------------------------------------------------

// Traits

/// Appending encoded text.
pub trait Encode {
    fn push_encode(&mut self, ch: char, encoding: &Encoding);

    fn push_str_encode(&mut self, string: &str, encoding: &Encoding);
}

impl Encode for String {
    /// Appends a character encoded on its own.
    fn push_encode(&mut self, ch: char, encoding: &Encoding)
        ensures
            final(self)@ == old(self)@ + spec_encode_char(*encoding, ch),
    {
        encode_char(self, ch, encoding);
    }

    /// Appends a string encoded.
    fn push_str_encode(&mut self, string: &str, encoding: &Encoding)
        ensures
            final(self)@ == old(self)@ + spec_encode_str(*encoding, string@),
    {
        encode_str(self, string, encoding);
    }
}

// -----------------------------------------------------------------------------

// State

/// What has been read of a possible percent-encoded triplet: nothing, "%",
/// or "%" and one hexadecimal digit.
pub enum State {
    Empty,
    Percent,
    HexDigit(char),
}

/// The characters that a state holds back.
pub open spec fn pending(state: State) -> Seq<char> {
    match state {
        State::Empty => seq![],
        State::Percent => seq!['%'],
        State::HexDigit(digit) => seq!['%', digit],
    }
}

/// A state holds back only a hexadecimal digit after "%".
pub open spec fn valid_state(state: State) -> bool {
    state matches State::HexDigit(digit) ==> spec_is_hex_digit(digit)
}

/// What a state gives up when no triplet can follow: each held-back
/// character encoded on its own.
pub open spec fn flushed(encoding: Encoding, state: State) -> Seq<char> {
    match state {
        State::Empty => seq![],
        State::Percent => spec_encode_char(encoding, '%'),
        State::HexDigit(digit) => spec_encode_char(encoding, '%') + spec_encode_char(
            encoding,
            digit,
        ),
    }
}

// -----------------------------------------------------------------------------

// Encoding

fn encode_str(output: &mut String, input: &str, encoding: &Encoding)
    ensures
        final(output)@ == old(output)@ + spec_encode_str(*encoding, input@),
{
    let chars = to_chars(input);
    let ghost s = chars@;
    let ghost start = output@;
    let mut state = State::Empty;
    let mut i: usize = 0;
    assert(s.skip(0) =~= s);
    assert(pending(state) + s =~= s);
    while i < chars.len()
        invariant
            s == chars@,
            s == input@,
            i <= s.len(),
            valid_state(state),
            !encoding.allow_encoded ==> state is Empty,
            output@ + spec_encode_str(*encoding, pending(state) + s.skip(i as int)) == start
                + spec_encode_str(*encoding, s),
        decreases s.len() - i,
    {
        let c = chars[i];
        let ghost rest = s.skip(i + 1);
        let ghost before = output@;
        let ghost old_state = state;
        assert(s.skip(i as int) =~= seq![c] + rest);
        if encoding.allow_encoded {
            proof {
                lemma_step(*encoding, old_state, c, rest);
            }
            match buffer(&mut state, output, encoding, c) {
                Some(c) => {
                    encode_char(output, c, encoding);
                },
                None => {},
            }
        } else {
            assert(pending(state) + s.skip(i as int) =~= seq![c] + rest);
            assert((seq![c] + rest).drop_first() =~= rest);
            encode_char(output, c, encoding);
            assert(pending(state) + rest =~= rest);
        }
        assert(before + spec_encode_str(*encoding, pending(old_state) + s.skip(i as int))
            =~= output@ + spec_encode_str(*encoding, pending(state) + rest));
        i = i + 1;
    }
    assert(s.skip(i as int) =~= Seq::<char>::empty());
    assert(pending(state) + s.skip(i as int) =~= pending(state));
    proof {
        lemma_flushed(*encoding, state);
    }
    flush(&state, output, encoding);
}

fn encode_char(output: &mut String, input: char, encoding: &Encoding)
    ensures
        final(output)@ == old(output)@ + spec_encode_char(*encoding, input),
{
    if ascii_accepts(encoding.allow, input) {
        encode_char_utf8(output, input);
    } else {
        encode_char_percent(output, input);
    }
}

fn encode_char_utf8(output: &mut String, input: char)
    ensures
        final(output)@ == old(output)@ + seq![input],
{
    output.push(input);
    assert(final(output)@ =~= old(output)@ + seq![input]);
}

fn is_percent(c: char) -> (res: bool)
    ensures
        res == (c == '%'),
{
    c == '%'
}

/// Reads one character in the given state: completes a triplet, holds the
/// character back as part of a possible triplet, or gives up what was held
/// back and hands the character on to be encoded on its own.
fn buffer(state: &mut State, output: &mut String, encoding: &Encoding, input: char) -> (res: Option<
    char,
>)
    requires
        valid_state(*old(state)),
    ensures
        valid_state(*final(state)),
        match *old(state) {
            State::HexDigit(digit) if spec_is_hex_digit(input) => {
                &&& final(output)@ == old(output)@ + seq!['%', digit, input]
                &&& *final(state) is Empty
                &&& res is None
            },
            State::Percent if spec_is_hex_digit(input) => {
                &&& final(output)@ == old(output)@
                &&& *final(state) == State::HexDigit(input)
                &&& res is None
            },
            _ => {
                &&& final(output)@ == old(output)@ + flushed(*encoding, *old(state))
                &&& if input == '%' {
                    *final(state) is Percent && res is None
                } else {
                    *final(state) is Empty && res == Some(input)
                }
            },
        },
{
    match state {
        State::HexDigit(_) if is_hex_digit(input) => {
            complete(state, output, input);
            *state = State::Empty;
            None
        },
        State::Percent if is_hex_digit(input) => {
            *state = State::HexDigit(input);
            None
        },
        _ => {
            if is_percent(input) {
                flush(state, output, encoding);
                *state = State::Percent;
                None
            } else {
                flush(state, output, encoding);
                *state = State::Empty;
                Some(input)
            }
        },
    }
}

/// Writes out a completed triplet.
fn complete(state: &State, output: &mut String, c: char)
    ensures
        final(output)@ == old(output)@ + match *state {
            State::HexDigit(digit) => seq!['%', digit, c],
            _ => Seq::<char>::empty(),
        },
{
    if let State::HexDigit(hex_digit) = state {
        encode_char_utf8(output, '%');
        encode_char_utf8(output, *hex_digit);
        encode_char_utf8(output, c);
    }
    assert(final(output)@ =~= old(output)@ + match *state {
        State::HexDigit(digit) => seq!['%', digit, c],
        _ => Seq::<char>::empty(),
    });
}

/// Gives up what the state held back, each character encoded on its own.
fn flush(state: &State, output: &mut String, encoding: &Encoding)
    ensures
        final(output)@ == old(output)@ + flushed(*encoding, *state),
{
    match state {
        State::HexDigit(hex_digit) => {
            encode_char(output, '%', encoding);
            encode_char(output, *hex_digit, encoding);
        },
        State::Percent => {
            encode_char(output, '%', encoding);
        },
        State::Empty => {},
    }
    assert(final(output)@ =~= old(output)@ + flushed(*encoding, *state));
}

// -----------------------------------------------------------------------------

// Proofs

/// At the end of the input, what is held back is encoded on its own.
proof fn lemma_flushed(encoding: Encoding, state: State)
    requires
        valid_state(state),
    ensures
        spec_encode_str(encoding, pending(state)) == flushed(encoding, state),
{
    let p = pending(state);
    match state {
        State::Empty => {},
        State::Percent => {
            assert(p.drop_first() =~= Seq::<char>::empty());
            assert(spec_encode_str(encoding, p.drop_first()) == Seq::<char>::empty());
            assert(spec_encode_str(encoding, p) == spec_encode_char(encoding, '%') + spec_encode_str(
                encoding,
                p.drop_first(),
            ));
            assert(spec_encode_str(encoding, p) =~= spec_encode_char(encoding, '%'));
        },
        State::HexDigit(digit) => {
            let q = p.drop_first();
            assert(q =~= seq![digit]);
            assert(q.drop_first() =~= Seq::<char>::empty());
            assert(spec_encode_str(encoding, q.drop_first()) == Seq::<char>::empty());
            assert(spec_encode_str(encoding, q) == spec_encode_char(encoding, digit)
                + spec_encode_str(encoding, q.drop_first()));
            assert(spec_encode_str(encoding, q) =~= spec_encode_char(encoding, digit));
            assert(spec_encode_str(encoding, p) == spec_encode_char(encoding, '%') + spec_encode_str(
                encoding,
                q,
            ));
            assert(spec_encode_str(encoding, p) =~= flushed(encoding, state));
        },
    }
}

/// The effect of giving up what a state holds back before the text `t`,
/// when `t` does not start a triplet with it.
proof fn lemma_flush_before(encoding: Encoding, state: State, t: Seq<char>)
    requires
        encoding.allow_encoded,
        valid_state(state),
        t.len() > 0,
        state matches State::Percent ==> !spec_is_hex_digit(t[0]),
        state matches State::HexDigit(_) ==> !spec_is_hex_digit(t[0]),
    ensures
        spec_encode_str(encoding, pending(state) + t) == flushed(encoding, state)
            + spec_encode_str(encoding, t),
{
    let p = pending(state);
    match state {
        State::Empty => {
            assert(p + t =~= t);
        },
        State::Percent => {
            let u = p + t;
            assert(u[1] == t[0]);
            assert(!starts_with_triplet(u));
            assert(u.drop_first() =~= t);
        },
        State::HexDigit(digit) => {
            let u = p + t;
            assert(u[2] == t[0]);
            assert(!starts_with_triplet(u));
            let v = u.drop_first();
            assert(v =~= seq![digit] + t);
            assert(v[0] == digit);
            assert(!starts_with_triplet(v));
            assert(v.drop_first() =~= t);
            assert(spec_encode_str(encoding, u) == spec_encode_char(encoding, '%') + spec_encode_str(
                encoding,
                v,
            ));
            assert(spec_encode_str(encoding, v) == spec_encode_char(encoding, digit)
                + spec_encode_str(encoding, t));
            assert(spec_encode_str(encoding, u) =~= spec_encode_char(encoding, '%')
                + spec_encode_char(encoding, digit) + spec_encode_str(encoding, t));
        },
    }
}

/// One step of the state machine keeps the encoding of what remains: held
/// back text, the character `c` and the rest `rest`.
proof fn lemma_step(encoding: Encoding, state: State, c: char, rest: Seq<char>)
    requires
        encoding.allow_encoded,
        valid_state(state),
    ensures
        state matches State::HexDigit(digit) ==> (spec_is_hex_digit(c) ==> spec_encode_str(
            encoding,
            pending(state) + (seq![c] + rest),
        ) == seq!['%', digit, c] + spec_encode_str(encoding, rest)),
        state matches State::Percent && spec_is_hex_digit(c) ==> pending(state) + (seq![c] + rest)
            == pending(State::HexDigit(c)) + rest,
        !(state matches State::HexDigit(_) && spec_is_hex_digit(c)) && !(state matches State::Percent
            && spec_is_hex_digit(c)) ==> {
            &&& spec_encode_str(encoding, pending(state) + (seq![c] + rest)) == flushed(
                encoding,
                state,
            ) + spec_encode_str(encoding, seq![c] + rest)
            &&& c == '%' ==> spec_encode_str(encoding, seq![c] + rest) == spec_encode_str(
                encoding,
                pending(State::Percent) + rest,
            )
            &&& c != '%' ==> spec_encode_str(encoding, seq![c] + rest) == spec_encode_char(
                encoding,
                c,
            ) + spec_encode_str(encoding, pending(State::Empty) + rest)
        },
{
    let t = seq![c] + rest;
    assert(t[0] == c);
    match state {
        State::HexDigit(digit) => {
            if spec_is_hex_digit(c) {
                let u = pending(state) + t;
                assert(starts_with_triplet(u));
                assert(u.take(3) =~= seq!['%', digit, c]);
                assert(u.skip(3) =~= rest);
            }
        },
        State::Percent => {
            if spec_is_hex_digit(c) {
                assert(pending(state) + t =~= pending(State::HexDigit(c)) + rest);
            }
        },
        State::Empty => {},
    }
    if !(state matches State::HexDigit(_) && spec_is_hex_digit(c)) && !(state matches State::Percent
        && spec_is_hex_digit(c)) {
        lemma_flush_before(encoding, state, t);
        if c == '%' {
            assert(pending(State::Percent) + rest =~= t);
        } else {
            assert(!starts_with_triplet(t));
            assert(t.drop_first() =~= rest);
            assert(pending(State::Empty) + rest =~= rest);
        }
    }
}

// =============================================================================
// Properties
// =============================================================================

/// The length of the text that an encoding keeps as it is from the start of
/// `s`: allowed characters and, where allowed, percent-encoded triplets.
pub open spec fn kept_run(encoding: Encoding, s: Seq<char>) -> nat
    decreases s.len(),
{
    if s.len() > 0 && spec_ascii_accepts(encoding.allow, s[0]) {
        1 + kept_run(encoding, s.drop_first())
    } else if encoding.allow_encoded && starts_with_triplet(s) {
        3 + kept_run(encoding, s.skip(3))
    } else {
        0
    }
}

proof fn lemma_kept_run_bounded(encoding: Encoding, s: Seq<char>)
    ensures
        kept_run(encoding, s) <= s.len(),
    decreases s.len(),
{
    if s.len() > 0 && spec_ascii_accepts(encoding.allow, s[0]) {
        lemma_kept_run_bounded(encoding, s.drop_first());
    } else if encoding.allow_encoded && starts_with_triplet(s) {
        lemma_kept_run_bounded(encoding, s.skip(3));
    }
}

/// Encoding by runs of kept text gives what encoding one character or
/// triplet at a time gives, when "%" is not an allowed character.
proof fn lemma_encode_by_runs(encoding: Encoding, s: Seq<char>, run: spec_fn(Seq<char>) -> nat)
    requires
        !spec_ascii_accepts(encoding.allow, '%'),
        forall|t: Seq<char>| #[trigger] run(t) == kept_run(encoding, t),
    ensures
        spec_encode(s, run) == spec_encode_str(encoding, s),
    decreases s.len(),
{
    if s.len() > 0 {
        let n = kept_run(encoding, s);
        lemma_kept_run_bounded(encoding, s);
        assert(run(s) == n);
        if spec_ascii_accepts(encoding.allow, s[0]) {
            let rest = s.drop_first();
            lemma_encode_by_runs(encoding, rest, run);
            assert(!starts_with_triplet(s));
            assert(run(rest) == n - 1);
            if n - 1 > 0 {
                lemma_kept_run_bounded(encoding, rest);
                assert(rest.take(n - 1) =~= s.subrange(1, n as int));
                assert(rest.skip(n - 1) =~= s.skip(n as int));
                assert(s.take(n as int) =~= seq![s[0]] + s.subrange(1, n as int));
            } else {
                assert(s.take(1) =~= seq![s[0]]);
                assert(rest =~= s.skip(1));
            }
            assert(spec_encode(s, run) =~= spec_encode_str(encoding, s));
        } else if encoding.allow_encoded && starts_with_triplet(s) {
            let rest = s.skip(3);
            lemma_encode_by_runs(encoding, rest, run);
            assert(run(rest) == n - 3);
            if n - 3 > 0 {
                lemma_kept_run_bounded(encoding, rest);
                assert(rest.take(n - 3) =~= s.subrange(3, n as int));
                assert(rest.skip(n - 3) =~= s.skip(n as int));
                assert(s.take(n as int) =~= s.take(3) + s.subrange(3, n as int));
            }
            assert(spec_encode(s, run) =~= spec_encode_str(encoding, s));
        } else {
            lemma_encode_by_runs(encoding, s.drop_first(), run);
        }
    }
}

proof fn lemma_unreserved_run(s: Seq<char>)
    ensures
        run_len(s, ascii_pred(AsciiClass::Unreserved)) == kept_run(
            Encoding { allow_encoded: false, allow: AsciiClass::Unreserved },
            s,
        ),
    decreases s.len(),
{
    if s.len() > 0 {
        lemma_unreserved_run(s.drop_first());
    }
}

/// With only the unreserved class allowed, the run of a pair of satisfiers
/// (reserved or unreserved characters, then triplets) is the kept run.
proof fn lemma_reserved_rounds(s: Seq<char>, live: (bool, bool))
    requires
        live.0,
        !live.1 ==> triplet_run(s) == 0,
    ensures
        rounds2(literal_expansion(), s, live) == kept_run(
            Encoding { allow_encoded: true, allow: AsciiClass::UnreservedOrReserved },
            s,
        ),
    decreases s.len(),
{
    let encoding = Encoding { allow_encoded: true, allow: AsciiClass::UnreservedOrReserved };
    let p = ascii_pred(AsciiClass::UnreservedOrReserved);
    if s.len() > 0 {
        let n0 = run_len(s, p);
        lemma_run_len(s, p);
        let t = s.skip(n0 as int);
        let n1 = triplet_run(t);
        lemma_triplet_run(t);
        lemma_kept_after_allowed(encoding, s);
        lemma_kept_after_triplets(encoding, t);
        assert(t.skip(n1 as int) =~= s.skip((n0 + n1) as int));
        if n0 == 0 {
            assert(t =~= s);
        }
        let k = n0 + n1;
        assert(round2(literal_expansion(), s, live) == (k as nat, (n1 > 0, false)));
        if n1 > 0 {
            let u = s.skip(k as int);
            lemma_reserved_rounds(u, (true, false));
        } else {
            let u = s.skip(k as int);
            if u.len() > 0 {
                assert(u[0] == s[k as int]);
                assert(!spec_ascii_accepts(encoding.allow, u[0]));
            }
            assert(kept_run(encoding, u) == 0);
        }
    }
}

/// The kept run starts with the run of allowed characters.
proof fn lemma_kept_after_allowed(encoding: Encoding, s: Seq<char>)
    ensures
        kept_run(encoding, s) == run_len(s, ascii_pred(encoding.allow)) + kept_run(
            encoding,
            s.skip(run_len(s, ascii_pred(encoding.allow)) as int),
        ),
    decreases s.len(),
{
    let p = ascii_pred(encoding.allow);
    if s.len() > 0 && p(s[0]) {
        lemma_kept_after_allowed(encoding, s.drop_first());
        lemma_run_len(s.drop_first(), p);
        assert(run_len(s, p) == 1 + run_len(s.drop_first(), p));
        assert(s.drop_first().skip(run_len(s.drop_first(), p) as int) =~= s.skip(
            run_len(s, p) as int,
        ));
    } else {
        assert(s.skip(0) =~= s);
    }
}

/// Where no allowed character starts `t`, the kept run starts with the run of
/// triplets, when "%" is not an allowed character.
proof fn lemma_kept_after_triplets(encoding: Encoding, t: Seq<char>)
    requires
        encoding.allow_encoded,
        !spec_ascii_accepts(encoding.allow, '%'),
        t.len() > 0 ==> !spec_ascii_accepts(encoding.allow, t[0]),
    ensures
        kept_run(encoding, t) == triplet_run(t) + kept_run(encoding, t.skip(triplet_run(t) as int)),
    decreases t.len(),
{
    if starts_with_triplet(t) {
        let u = t.skip(3);
        if starts_with_triplet(u) {
            lemma_kept_after_triplets(encoding, u);
            lemma_triplet_run(u);
            assert(triplet_run(t) == 3 + triplet_run(u));
            assert(u.skip(triplet_run(u) as int) =~= t.skip(triplet_run(t) as int));
        } else {
            assert(triplet_run(u) == 0);
        }
    } else {
        assert(t.skip(0) =~= t);
    }
}

/// The state-machine encoder agrees with the satisfier-based encoder used in
/// expansion: the unreserved encoding encodes as unreserved-only expansions
/// do, and the reserved encoding as "+" and "#" expansions do.
pub proof fn law_encoders_agree(s: Seq<char>)
    ensures
        spec_encode_str(Encoding { allow_encoded: false, allow: AsciiClass::Unreserved }, s)
            == encode_allowed(Allow::U, s),
        spec_encode_str(Encoding { allow_encoded: true, allow: AsciiClass::UnreservedOrReserved }, s)
            == encode_allowed(Allow::UR, s),
{
    let unreserved = Encoding { allow_encoded: false, allow: AsciiClass::Unreserved };
    let reserved = Encoding { allow_encoded: true, allow: AsciiClass::UnreservedOrReserved };
    let run_u = run_of(spec_matcher(Allow::U));
    let run_r = run_of(spec_matcher(Allow::UR));
    assert forall|t: Seq<char>| #[trigger] run_u(t) == kept_run(unreserved, t) by {
        lemma_unreserved_run(t);
    }
    assert forall|t: Seq<char>| #[trigger] run_r(t) == kept_run(reserved, t) by {
        lemma_reserved_rounds(t, (true, true));
    }
    lemma_encode_by_runs(unreserved, s, run_u);
    lemma_encode_by_runs(reserved, s, run_r);
}

// -----------------------------------------------------------------------------

// Decoding

/// The value of a hexadecimal digit, either case.
pub open spec fn hex_value(c: char) -> u8 {
    if '0' <= c <= '9' {
        (c as u32 - 0x30) as u8
    } else if 'a' <= c <= 'f' {
        (c as u32 - 0x57) as u8
    } else {
        (c as u32 - 0x37) as u8
    }
}

/// The bytes that percent-encoded text stands for: each triplet gives the
/// byte it encodes, and every other character its UTF-8 encoding.
pub open spec fn percent_decode(s: Seq<char>) -> Seq<u8>
    decreases s.len(),
{
    if s.len() == 0 {
        seq![]
    } else if starts_with_triplet(s) {
        seq![(hex_value(s[1]) * 16 + hex_value(s[2])) as u8] + percent_decode(s.skip(3))
    } else {
        encode_scalar(s[0] as u32) + percent_decode(s.drop_first())
    }
}

proof fn lemma_hex_digit_value(n: u8)
    requires
        n < 16,
    ensures
        spec_is_hex_digit(spec_hex_digit_upper(n)),
        hex_value(spec_hex_digit_upper(n)) == n,
{
}

/// Decoding percent-encoded bytes gives the bytes back.
proof fn lemma_decode_percent_bytes(bytes: Seq<u8>, rest: Seq<char>)
    ensures
        percent_decode(spec_percent_bytes(bytes) + rest) == bytes + percent_decode(rest),
    decreases bytes.len(),
{
    if bytes.len() == 0 {
        assert(spec_percent_bytes(bytes) + rest =~= rest);
        assert(bytes + percent_decode(rest) =~= percent_decode(rest));
    } else {
        let b = bytes[0];
        let hi = b >> 4;
        let lo = b & 0x0f;
        assert(b >> 4 < 16 && b & 0x0f < 16) by (bit_vector);
        assert((hi * 16 + lo) as u8 == b) by (bit_vector)
            requires
                hi == b >> 4,
                lo == b & 0x0f,
        ;
        lemma_hex_digit_value(hi);
        lemma_hex_digit_value(lo);
        let tail = spec_percent_bytes(bytes.drop_first()) + rest;
        let t = spec_percent_bytes(bytes) + rest;
        assert(t =~= spec_percent_triplet(b) + tail);
        assert(starts_with_triplet(t));
        assert(t.skip(3) =~= tail);
        lemma_decode_percent_bytes(bytes.drop_first(), rest);
        assert(bytes =~= seq![b] + bytes.drop_first());
    }
}

/// Decoding what an encoding gives, where it keeps no triplet and "%" is not
/// an allowed character, gives the UTF-8 encoding of the input.
proof fn lemma_decode_encoded(encoding: Encoding, s: Seq<char>)
    requires
        !encoding.allow_encoded,
        !spec_ascii_accepts(encoding.allow, '%'),
    ensures
        percent_decode(spec_encode_str(encoding, s)) == encode_utf8(s),
    decreases s.len(),
{
    if s.len() > 0 {
        let c = s[0];
        let rest = spec_encode_str(encoding, s.drop_first());
        lemma_decode_encoded(encoding, s.drop_first());
        if spec_ascii_accepts(encoding.allow, c) {
            let t = seq![c] + rest;
            assert(!starts_with_triplet(t));
            assert(t.drop_first() =~= rest);
        } else {
            lemma_decode_percent_bytes(encode_scalar(c as u32), rest);
        }
    }
}

/// Percent-decoding undoes an encoding that keeps no triplet and does not
/// allow "%" (such as the unreserved encoding of expansions): decoding the
/// triplets to bytes and reading the bytes as UTF-8 gives the input back.
pub proof fn law_percent_decoding_undoes_encoding(encoding: Encoding, s: Seq<char>)
    requires
        !encoding.allow_encoded,
        !spec_ascii_accepts(encoding.allow, '%'),
    ensures
        decode_utf8(percent_decode(spec_encode_str(encoding, s))) == s,
{
    lemma_decode_encoded(encoding, s);
    encode_utf8_decode_utf8(s);
}

/// Percent-decoding undoes the encoding of values in expansions without
/// "+" or "#".
pub proof fn law_percent_decoding_undoes_unreserved_expansion(s: Seq<char>)
    ensures
        decode_utf8(percent_decode(encode_allowed(Allow::U, s))) == s,
{
    law_encoders_agree(s);
    law_percent_decoding_undoes_encoding(
        Encoding { allow_encoded: false, allow: AsciiClass::Unreserved },
        s,
    );
}

// -----------------------------------------------------------------------------

// Unreserved Output

/// An upper-case hexadecimal digit.
pub open spec fn is_upper_hex_digit(c: char) -> bool {
    '0' <= c <= '9' || 'A' <= c <= 'F'
}

/// Text made of RFC 3986 unreserved characters and percent-encoded triplets
/// with upper-case digits: every character is unreserved or "%", and every
/// "%" starts a triplet.
pub open spec fn is_unreserved_encoded(t: Seq<char>) -> bool {
    &&& forall|i: int| 0 <= i < t.len() ==> rfc_unreserved_char(#[trigger] t[i]) || t[i] == '%'
    &&& forall|i: int|
        0 <= i < t.len() && #[trigger] t[i] == '%' ==> i + 2 < t.len() && is_upper_hex_digit(
            t[i + 1],
        ) && is_upper_hex_digit(t[i + 2])
}

proof fn lemma_unreserved_encoded_concat(a: Seq<char>, b: Seq<char>)
    requires
        is_unreserved_encoded(a),
        is_unreserved_encoded(b),
    ensures
        is_unreserved_encoded(a + b),
{
    let t = a + b;
    assert forall|i: int| 0 <= i < t.len() implies rfc_unreserved_char(#[trigger] t[i]) || t[i]
        == '%' by {
        if i < a.len() {
            assert(t[i] == a[i]);
        } else {
            assert(t[i] == b[i - a.len()]);
        }
    }
    assert forall|i: int| 0 <= i < t.len() && #[trigger] t[i] == '%' implies i + 2 < t.len()
        && is_upper_hex_digit(t[i + 1]) && is_upper_hex_digit(t[i + 2]) by {
        if i < a.len() {
            assert(t[i] == a[i]);
            assert(t[i + 1] == a[i + 1]);
            assert(t[i + 2] == a[i + 2]);
        } else {
            let j = i - a.len();
            assert(t[i] == b[j]);
            assert(t[i + 1] == b[j + 1]);
            assert(t[i + 2] == b[j + 2]);
        }
    }
}

proof fn lemma_percent_bytes_unreserved_encoded(bytes: Seq<u8>)
    ensures
        is_unreserved_encoded(spec_percent_bytes(bytes)),
    decreases bytes.len(),
{
    if bytes.len() > 0 {
        let b = bytes[0];
        assert(b >> 4 < 16 && b & 0x0f < 16) by (bit_vector);
        let triplet = spec_percent_triplet(b);
        assert(is_upper_hex_digit(triplet[1]) && is_upper_hex_digit(triplet[2]));
        assert(is_unreserved_encoded(triplet)) by {
            assert forall|i: int| 0 <= i < triplet.len() implies rfc_unreserved_char(
                #[trigger] triplet[i],
            ) || triplet[i] == '%' by {
                if i > 0 {
                    assert(is_upper_hex_digit(triplet[i]));
                }
            }
        }
        lemma_percent_bytes_unreserved_encoded(bytes.drop_first());
        lemma_unreserved_encoded_concat(triplet, spec_percent_bytes(bytes.drop_first()));
    }
}

proof fn lemma_encode_str_unreserved(s: Seq<char>)
    ensures
        is_unreserved_encoded(
            spec_encode_str(Encoding { allow_encoded: false, allow: AsciiClass::Unreserved }, s),
        ),
    decreases s.len(),
{
    let encoding = Encoding { allow_encoded: false, allow: AsciiClass::Unreserved };
    if s.len() > 0 {
        let c = s[0];
        lemma_encode_str_unreserved(s.drop_first());
        if spec_ascii_accepts(encoding.allow, c) {
            law_unreserved_class(c);
            assert(is_unreserved_encoded(seq![c])) by {
                assert(seq![c][0] == c);
            }
        } else {
            lemma_percent_bytes_unreserved_encoded(encode_scalar(c as u32));
        }
        lemma_unreserved_encoded_concat(
            spec_encode_char(encoding, c),
            spec_encode_str(encoding, s.drop_first()),
        );
    }
}

/// Encoding with only unreserved characters allowed writes unreserved
/// characters and percent-encoded triplets with upper-case digits, and
/// nothing else: in the unreserved encoding, in expansions without "+" or
/// "#", and in `String::encode` with the `unreserved` satisfier. Decoding
/// such text gives the input back (`law_percent_decoding_undoes_encoding`).
pub proof fn law_unreserved_encoding_output(s: Seq<char>)
    ensures
        is_unreserved_encoded(
            spec_encode_str(Encoding { allow_encoded: false, allow: AsciiClass::Unreserved }, s),
        ),
        is_unreserved_encoded(encode_allowed(Allow::U, s)),
        is_unreserved_encoded(spec_encode(s, run_of(Ascii { class: AsciiClass::Unreserved }))),
{
    lemma_encode_str_unreserved(s);
    law_encoders_agree(s);
    let by_ascii = run_of(Ascii { class: AsciiClass::Unreserved });
    let by_matcher = run_of(spec_matcher(Allow::U));
    assert(by_ascii =~= by_matcher);
}

} // verus!
