//! Parsing of URI Templates (RFC 6570, section 2).

use vstd::prelude::*;
use vstd::utf8::encode_utf8;

use crate::string::satisfy::{
    ascii_pred,
    law_literal_ascii_class,
    law_literal_unicode_class,
    law_variable_character_class,
    rfc_literal_ascii_char,
    rfc_ucschar_or_iprivate,
    rfc_variable_char,
    round2,
    lemma_run_len,
    lemma_triplet_run,
    round3,
    rounds3,
    run_len,
    spec_is_hex_digit,
    starts_with_triplet,
    triplet_run,
    unicode_pred,
    Ascii,
    AsciiClass,
    PercentEncoded,
    Satisfy,
    Unicode,
    UnicodeClass,
};
use crate::string::satisfy::{
    is_hex_digit,
};
use crate::string::utf8::{
    byte_len,
    byte_offset,
    lemma_encode_utf8_prefix,
    to_chars,
};
use crate::template::{
    variable_specification_view,
    Component,
    ComponentModel,
    Expression,
    Literal,
    Template,
    VariableList,
    VariableName,
    VariableSpecification,
    Explode,
    ExpressionModel,
    Modifier,
    OpLevel2,
    OpLevel3,
    Operator,
    Prefix,
};

verus! {

// =============================================================================
// Grammar
// =============================================================================

// Satisfiers

/// The satisfier of literal text: ASCII literal characters, percent-encoded
/// triplets and non-ASCII literal characters.
pub open spec fn literal_satisfier() -> (Ascii, PercentEncoded, Unicode) {
    (Ascii { class: AsciiClass::Literal }, PercentEncoded, Unicode { class: UnicodeClass::Literal })
}

/// The satisfier of the characters of a variable name between dots: ASCII
/// variable characters and percent-encoded triplets.
pub open spec fn varchars_satisfier() -> (Ascii, PercentEncoded) {
    (Ascii { class: AsciiClass::VariableCharacter }, PercentEncoded)
}

pub open spec fn literal_run(s: Seq<char>, i: int) -> nat {
    literal_satisfier().spec_satisfy(s.skip(i))
}

pub open spec fn varchars_run(s: Seq<char>, i: int) -> nat {
    varchars_satisfier().spec_satisfy(s.skip(i))
}

pub proof fn lemma_runs_bounded(s: Seq<char>, i: int)
    requires
        0 <= i <= s.len(),
    ensures
        literal_run(s, i) <= s.len() - i,
        varchars_run(s, i) <= s.len() - i,
{
    literal_satisfier().lemma_satisfy_bounded(s.skip(i));
    varchars_satisfier().lemma_satisfy_bounded(s.skip(i));
}

// -----------------------------------------------------------------------------

// Failures

/// What a parse failure expected to find.
#[derive(Clone, Copy, Debug, Eq, PartialEq, Structural)]
pub enum Failure {
    Literal,
    OpeningBrace,
    ClosingBrace,
    VariableName,
    PrefixLeadingDigit,
    PrefixOutOfRange,
}

pub open spec fn failure_message(failure: Failure) -> Seq<char> {
    match failure {
        Failure::Literal => "unexpected input when parsing literal component"@,
        Failure::OpeningBrace => "unexpected input when parsing expression component"@,
        Failure::ClosingBrace => "unexpected input when parsing expression component"@,
        Failure::VariableName => "unexpected input when parsing variable name"@,
        Failure::PrefixLeadingDigit => "unexpected input while parsing prefix modifier - invalid character"@,
        Failure::PrefixOutOfRange => "unexpected input while parsing prefix modifier - out of range"@,
    }
}

pub open spec fn failure_expected(failure: Failure) -> Seq<char> {
    match failure {
        Failure::Literal => "literal character(s) (see: https://datatracker.ietf.org/doc/html/rfc6570#section-2.1)"@,
        Failure::OpeningBrace => "opening brace ('{')"@,
        Failure::ClosingBrace => "closing brace ('}')"@,
        Failure::VariableName => "variable name character(s) (see: https://datatracker.ietf.org/doc/html/rfc6570#section-2.3)"@,
        Failure::PrefixLeadingDigit => "leading integer 1-9 (see: https://datatracker.ietf.org/doc/html/rfc6570#section-2.4.1)"@,
        Failure::PrefixOutOfRange => "positive integer < 10000 (see: https://datatracker.ietf.org/doc/html/rfc6570#section-2.4.1)"@,
    }
}

// -----------------------------------------------------------------------------

// Operators

pub open spec fn spec_operator(c: char) -> Option<Operator> {
    if c == '+' {
        Some(Operator::Level2(OpLevel2::Reserved))
    } else if c == '#' {
        Some(Operator::Level2(OpLevel2::Fragment))
    } else if c == '.' {
        Some(Operator::Level3(OpLevel3::Label))
    } else if c == '/' {
        Some(Operator::Level3(OpLevel3::Path))
    } else if c == ';' {
        Some(Operator::Level3(OpLevel3::PathParameter))
    } else if c == '?' {
        Some(Operator::Level3(OpLevel3::Query))
    } else if c == '&' {
        Some(Operator::Level3(OpLevel3::QueryContinuation))
    } else {
        None
    }
}

/// An operator at `i`, if there is one, and the position after it.
pub open spec fn spec_parse_operator(s: Seq<char>, i: int) -> (int, Option<Operator>) {
    if 0 <= i < s.len() && spec_operator(s[i]) is Some {
        (i + 1, spec_operator(s[i]))
    } else {
        (i, None)
    }
}

// -----------------------------------------------------------------------------

// Variable Names

/// The end of a variable name whose first run of variable characters ends at
/// `j`: further runs follow single dots ("." varchars). A dot that no
/// variable character follows is a failure, at the position after the dot.
pub open spec fn varname_tail(s: Seq<char>, j: int) -> Result<int, int>
    decreases s.len() - j,
{
    if 0 <= j < s.len() && s[j] == '.' {
        let m = varchars_run(s, j + 1);
        if 0 < m && j + 1 + m <= s.len() {
            varname_tail(s, j + 1 + m)
        } else {
            Err(j + 1)
        }
    } else {
        Ok(j)
    }
}

/// The end of the variable name at `i`, or the position of the failure: `i`
/// when no variable character stands there, or the position after a dot
/// that no variable character follows.
pub open spec fn spec_parse_varname(s: Seq<char>, i: int) -> Result<int, int> {
    let n = varchars_run(s, i);
    if n == 0 {
        Err(i)
    } else {
        varname_tail(s, i + n)
    }
}

// -----------------------------------------------------------------------------

// Modifiers

pub open spec fn spec_is_digit(c: char) -> bool {
    '0' <= c <= '9'
}

pub open spec fn spec_is_non_zero_digit(c: char) -> bool {
    '1' <= c <= '9'
}

/// The end of the run of digits from `j`, stopping at `limit`.
pub open spec fn digits_end(s: Seq<char>, j: int, limit: int) -> int
    decreases limit - j,
{
    if j < limit && 0 <= j < s.len() && spec_is_digit(s[j]) {
        digits_end(s, j + 1, limit)
    } else {
        j
    }
}

/// The value of a sequence of decimal digits.
pub open spec fn decimal(digits: Seq<char>) -> nat
    decreases digits.len(),
{
    if digits.len() == 0 {
        0
    } else {
        decimal(digits.drop_last()) * 10 + ((digits.last() as u32 - '0' as u32) as nat)
    }
}

/// The modifier at `i`: "*" (explode), or ":" followed by a prefix length of
/// one to four digits, the first of them not zero; a fifth digit is out of
/// range. The result is the position after the modifier, or the position and
/// kind of the failure.
pub open spec fn spec_parse_modifier(s: Seq<char>, i: int) -> Result<
    (int, Option<Modifier>),
    (int, Failure),
> {
    if 0 <= i < s.len() && s[i] == '*' {
        Ok((i + 1, Some(Modifier::Explode(Explode))))
    } else if 0 <= i < s.len() && s[i] == ':' {
        if i + 1 < s.len() && spec_is_non_zero_digit(s[i + 1]) {
            let end = digits_end(s, i + 2, i + 5);
            if 0 <= end < s.len() && spec_is_digit(s[end]) {
                Err((end, Failure::PrefixOutOfRange))
            } else {
                Ok(
                    (
                        end,
                        Some(
                            Modifier::Prefix(
                                Prefix { length: decimal(s.subrange(i + 1, end)) as usize },
                            ),
                        ),
                    ),
                )
            }
        } else {
            Err((i + 1, Failure::PrefixLeadingDigit))
        }
    } else {
        Ok((i, None))
    }
}


pub proof fn lemma_varname_tail(s: Seq<char>, j: int)
    requires
        0 <= j <= s.len(),
    ensures
        varname_tail(s, j) matches Ok(k) ==> j <= k <= s.len(),
        varname_tail(s, j) matches Err(p) ==> j < p <= s.len(),
    decreases s.len() - j,
{
    if 0 <= j < s.len() && s[j] == '.' {
        let m = varchars_run(s, j + 1);
        if 0 < m && j + 1 + m <= s.len() {
            lemma_varname_tail(s, j + 1 + m);
        }
    }
}

pub proof fn lemma_parse_varname(s: Seq<char>, i: int)
    requires
        0 <= i <= s.len(),
    ensures
        spec_parse_varname(s, i) matches Ok(j) ==> i < j <= s.len(),
        spec_parse_varname(s, i) matches Err(p) ==> i <= p <= s.len(),
{
    lemma_runs_bounded(s, i);
    if varchars_run(s, i) > 0 {
        lemma_varname_tail(s, i + varchars_run(s, i));
    }
}

pub proof fn lemma_digits_end(s: Seq<char>, j: int, limit: int)
    requires
        0 <= j <= s.len(),
    ensures
        j <= digits_end(s, j, limit) <= s.len(),
        j <= limit ==> digits_end(s, j, limit) <= limit,
        forall|k: int| j <= k < digits_end(s, j, limit) ==> spec_is_digit(#[trigger] s[k]),
    decreases limit - j,
{
    if j < limit && 0 <= j < s.len() && spec_is_digit(s[j]) {
        lemma_digits_end(s, j + 1, limit);
    }
}

pub proof fn lemma_parse_modifier(s: Seq<char>, i: int)
    requires
        0 <= i <= s.len(),
    ensures
        spec_parse_modifier(s, i) matches Ok((k, _)) ==> i <= k <= s.len(),
        spec_parse_modifier(s, i) matches Err((p, _)) ==> i < p <= s.len(),
{
    if 0 <= i < s.len() && s[i] == ':' && i + 1 < s.len() {
        lemma_digits_end(s, i + 2, i + 5);
    }
}

// -----------------------------------------------------------------------------

// Variable Specifications and Lists

/// A variable specification at `i`: a variable name and an optional
/// modifier.
pub open spec fn spec_parse_varspec(s: Seq<char>, i: int) -> Result<
    (int, (Seq<char>, Option<Modifier>)),
    (int, Failure),
> {
    match spec_parse_varname(s, i) {
        Err(p) => Err((p, Failure::VariableName)),
        Ok(j) => match spec_parse_modifier(s, j) {
            Err(failure) => Err(failure),
            Ok((k, modifier)) => Ok((k, (s.subrange(i, j), modifier))),
        },
    }
}

pub proof fn lemma_parse_varspec(s: Seq<char>, i: int)
    requires
        0 <= i <= s.len(),
    ensures
        spec_parse_varspec(s, i) matches Ok((k, _)) ==> i < k <= s.len(),
        spec_parse_varspec(s, i) matches Err((p, _)) ==> i <= p <= s.len(),
{
    lemma_parse_varname(s, i);
    if let Ok(j) = spec_parse_varname(s, i) {
        lemma_parse_modifier(s, j);
    }
}

/// A variable list at `i`: variable specifications separated by commas.
pub open spec fn spec_parse_varlist(s: Seq<char>, i: int) -> Result<
    (int, Seq<(Seq<char>, Option<Modifier>)>),
    (int, Failure),
>
    decreases s.len() - i,
{
    if 0 <= i <= s.len() {
        match spec_parse_varspec(s, i) {
            Err(failure) => Err(failure),
            Ok((j, spec)) => {
                proof {
                    lemma_parse_varspec(s, i);
                }
                if j < s.len() && s[j] == ',' {
                    match spec_parse_varlist(s, j + 1) {
                        Err(failure) => Err(failure),
                        Ok((k, rest)) => Ok((k, seq![spec] + rest)),
                    }
                } else {
                    Ok((j, seq![spec]))
                }
            },
        }
    } else {
        Err((i, Failure::VariableName))
    }
}

pub proof fn lemma_parse_varlist(s: Seq<char>, i: int)
    requires
        0 <= i <= s.len(),
    ensures
        spec_parse_varlist(s, i) matches Ok((k, _)) ==> i < k <= s.len(),
        spec_parse_varlist(s, i) matches Err((p, _)) ==> i <= p <= s.len(),
    decreases s.len() - i,
{
    lemma_parse_varspec(s, i);
    if let Ok((j, _)) = spec_parse_varspec(s, i) {
        if j < s.len() && s[j] == ',' {
            lemma_parse_varlist(s, j + 1);
        }
    }
}

// -----------------------------------------------------------------------------

// Expressions

/// An expression at `i`: "{", an optional operator, a variable list and "}".
pub open spec fn spec_parse_expression(s: Seq<char>, i: int) -> Result<
    (int, ExpressionModel),
    (int, Failure),
> {
    if 0 <= i < s.len() && s[i] == '{' {
        let (j, operator) = spec_parse_operator(s, i + 1);
        match spec_parse_varlist(s, j) {
            Err(failure) => Err(failure),
            Ok((k, variable_list)) => {
                if 0 <= k < s.len() && s[k] == '}' {
                    Ok((k + 1, ExpressionModel { operator, variable_list }))
                } else {
                    Err((k, Failure::ClosingBrace))
                }
            },
        }
    } else {
        Err((i, Failure::OpeningBrace))
    }
}

pub proof fn lemma_parse_expression(s: Seq<char>, i: int)
    requires
        0 <= i <= s.len(),
    ensures
        spec_parse_expression(s, i) matches Ok((k, _)) ==> i < k <= s.len(),
        spec_parse_expression(s, i) matches Err((p, _)) ==> i <= p <= s.len(),
{
    if 0 <= i < s.len() && s[i] == '{' {
        let (j, operator) = spec_parse_operator(s, i + 1);
        lemma_parse_varlist(s, j);
    }
}

// -----------------------------------------------------------------------------

// Literals

/// A literal at `i`: the longest run of literal text, which must not be empty.
pub open spec fn spec_parse_literal(s: Seq<char>, i: int) -> Result<int, (int, Failure)> {
    let n = literal_run(s, i);
    if n == 0 {
        Err((i, Failure::Literal))
    } else {
        Ok(i + n)
    }
}

// -----------------------------------------------------------------------------

// Components

/// The components of the template text from `i`: an expression wherever "{"
/// stands, and a literal everywhere else.
pub open spec fn spec_parse_components(s: Seq<char>, i: int) -> Result<
    Seq<ComponentModel>,
    (int, Failure),
>
    decreases s.len() - i,
{
    if i < 0 || i >= s.len() {
        Ok(seq![])
    } else if s[i] == '{' {
        match spec_parse_expression(s, i) {
            Err(failure) => Err(failure),
            Ok((j, expression)) => {
                proof {
                    lemma_parse_expression(s, i);
                }
                match spec_parse_components(s, j) {
                    Err(failure) => Err(failure),
                    Ok(rest) => Ok(seq![ComponentModel::Expression(expression)] + rest),
                }
            },
        }
    } else {
        match spec_parse_literal(s, i) {
            Err(failure) => Err(failure),
            Ok(j) => {
                proof {
                    lemma_runs_bounded(s, i);
                }
                match spec_parse_components(s, j) {
                    Err(failure) => Err(failure),
                    Ok(rest) => Ok(seq![ComponentModel::Literal(s.subrange(i, j))] + rest),
                }
            },
        }
    }
}

/// The components of a template, or the position (in characters) and kind
/// of the failure.
pub open spec fn spec_parse_template(s: Seq<char>) -> Result<Seq<ComponentModel>, (int, Failure)> {
    spec_parse_components(s, 0)
}

/// The position in bytes of the character at `index`.
pub open spec fn byte_position(s: Seq<char>, index: int) -> nat {
    encode_utf8(s.take(index)).len()
}


// =============================================================================
// Errors
// =============================================================================

/// A failure to parse a template: where the input was unexpected (in bytes
/// from the start of the template), what was being parsed and what was
/// expected there.
#[derive(Debug)]
pub enum ParseError {
    UnexpectedInput { position: usize, message: String, expected: String },
}

/// `error` reports `failure` at byte `position`.
pub open spec fn reports(error: ParseError, position: int, failure: Failure) -> bool {
    match error {
        ParseError::UnexpectedInput { position: p, message, expected } => {
            &&& p == position
            &&& message@ == failure_message(failure)
            &&& expected@ == failure_expected(failure)
        },
    }
}

fn failure_error(
    chars: &[char],
    total: usize,
    global: usize,
    index: usize,
    failure: Failure,
) -> (res: ParseError)
    requires
        index <= chars@.len(),
        encode_utf8(chars@).len() == total,
        global + total <= usize::MAX,
    ensures
        reports(res, global + byte_position(chars@, index as int), failure),
{
    proof {
        if index < chars@.len() {
            lemma_encode_utf8_prefix(chars@, index as int);
        } else {
            assert(chars@.take(index as int) =~= chars@);
        }
    }
    let offset = byte_offset(chars, index, total);
    let (message, expected) = match failure {
        Failure::Literal => (
            String::from_str("unexpected input when parsing literal component"),
            String::from_str(
                "literal character(s) (see: https://datatracker.ietf.org/doc/html/rfc6570#section-2.1)",
            ),
        ),
        Failure::OpeningBrace => (
            String::from_str("unexpected input when parsing expression component"),
            String::from_str("opening brace ('{')"),
        ),
        Failure::ClosingBrace => (
            String::from_str("unexpected input when parsing expression component"),
            String::from_str("closing brace ('}')"),
        ),
        Failure::VariableName => (
            String::from_str("unexpected input when parsing variable name"),
            String::from_str(
                "variable name character(s) (see: https://datatracker.ietf.org/doc/html/rfc6570#section-2.3)",
            ),
        ),
        Failure::PrefixLeadingDigit => (
            String::from_str("unexpected input while parsing prefix modifier - invalid character"),
            String::from_str(
                "leading integer 1-9 (see: https://datatracker.ietf.org/doc/html/rfc6570#section-2.4.1)",
            ),
        ),
        Failure::PrefixOutOfRange => (
            String::from_str("unexpected input while parsing prefix modifier - out of range"),
            String::from_str(
                "positive integer < 10000 (see: https://datatracker.ietf.org/doc/html/rfc6570#section-2.4.1)",
            ),
        ),
    };
    ParseError::UnexpectedInput { position: global + offset, message, expected }
}

// =============================================================================
// Parsers
// =============================================================================

// Satisfiers

impl<'t> VariableName<'t> {
    /// The satisfier of the characters of a variable name between dots.
    pub fn parse() -> (res: (Ascii, PercentEncoded))
        ensures
            res == varchars_satisfier(),
    {
        (Ascii::new(AsciiClass::VariableCharacter), PercentEncoded)
    }
}

impl<'t> Literal<'t> {
    /// The satisfier of literal text.
    pub fn parse() -> (res: (Ascii, PercentEncoded, Unicode))
        ensures
            res == literal_satisfier(),
    {
        (Ascii::new(AsciiClass::Literal), PercentEncoded, Unicode::new(UnicodeClass::Literal))
    }
}

// -----------------------------------------------------------------------------

// Operator

fn operator(c: char) -> (res: Option<Operator>)
    ensures
        res == spec_operator(c),
{
    if c == '+' {
        Some(Operator::Level2(OpLevel2::Reserved))
    } else if c == '#' {
        Some(Operator::Level2(OpLevel2::Fragment))
    } else if c == '.' {
        Some(Operator::Level3(OpLevel3::Label))
    } else if c == '/' {
        Some(Operator::Level3(OpLevel3::Path))
    } else if c == ';' {
        Some(Operator::Level3(OpLevel3::PathParameter))
    } else if c == '?' {
        Some(Operator::Level3(OpLevel3::Query))
    } else if c == '&' {
        Some(Operator::Level3(OpLevel3::QueryContinuation))
    } else {
        None
    }
}

fn parse_operator_at(chars: &[char], i: usize) -> (res: (usize, Option<Operator>))
    requires
        i <= chars@.len(),
    ensures
        (res.0 as int, res.1) == spec_parse_operator(chars@, i as int),
{
    if i < chars.len() {
        match operator(chars[i]) {
            Some(op) => (i + 1, Some(op)),
            None => (i, None),
        }
    } else {
        (i, None)
    }
}

// -----------------------------------------------------------------------------

// Variable Name

fn parse_varname_at(chars: &[char], i: usize) -> (res: Result<usize, usize>)
    requires
        i <= chars@.len(),
    ensures
        match res {
            Ok(j) => spec_parse_varname(chars@, i as int) == Ok::<int, int>(j as int),
            Err(p) => spec_parse_varname(chars@, i as int) == Err::<int, int>(p as int),
        },
{
    let ghost s = chars@;
    let satisfier = VariableName::parse();
    let n = satisfier.satisfy_chars(&chars[i..chars.len()]);
    assert(chars@.subrange(i as int, chars@.len() as int) =~= s.skip(i as int));
    proof {
        lemma_runs_bounded(s, i as int);
    }
    if n == 0 {
        return Err(i);
    }
    let mut j: usize = i + n;
    loop
        invariant
            s == chars@,
            satisfier == varchars_satisfier(),
            i < j <= s.len(),
            spec_parse_varname(s, i as int) == varname_tail(s, j as int),
        ensures
            spec_parse_varname(s, i as int) == Ok::<int, int>(j as int),
        decreases s.len() - j,
    {
        if j < chars.len() && chars[j] == '.' {
            let m = satisfier.satisfy_chars(&chars[j + 1..chars.len()]);
            assert(chars@.subrange(j + 1, chars@.len() as int) =~= s.skip(j + 1));
            proof {
                lemma_runs_bounded(s, j + 1);
            }
            if m > 0 {
                j = j + 1 + m;
            } else {
                return Err(j + 1);
            }
        } else {
            break;
        }
    }
    Ok(j)
}

// -----------------------------------------------------------------------------

// Modifier

#[verifier::when_used_as_spec(spec_is_digit)]
fn is_digit(c: char) -> (res: bool)
    ensures
        res == spec_is_digit(c),
{
    '0' <= c && c <= '9'
}

#[verifier::when_used_as_spec(spec_is_non_zero_digit)]
fn is_non_zero_digit(c: char) -> (res: bool)
    ensures
        res == spec_is_non_zero_digit(c),
{
    '1' <= c && c <= '9'
}

fn parse_modifier_at(chars: &[char], i: usize) -> (res: Result<
    (usize, Option<Modifier>),
    (usize, Failure),
>)
    requires
        i <= chars@.len(),
    ensures
        match res {
            Ok((k, modifier)) => spec_parse_modifier(chars@, i as int) == Ok::<
                (int, Option<Modifier>),
                (int, Failure),
            >((k as int, modifier)),
            Err((p, failure)) => spec_parse_modifier(chars@, i as int) == Err::<
                (int, Option<Modifier>),
                (int, Failure),
            >((p as int, failure)),
        },
{
    let ghost s = chars@;
    if i < chars.len() && chars[i] == '*' {
        Ok((i + 1, Some(Modifier::Explode(Explode::new()))))
    } else if i < chars.len() && chars[i] == ':' {
        if i + 1 < chars.len() && is_non_zero_digit(chars[i + 1]) {
            let mut end: usize = i + 2;
            let mut value: usize = (chars[i + 1] as u32 - 48) as usize;
            assert(s.subrange(i + 1, i + 2).drop_last() =~= Seq::<char>::empty());
            assert(decimal(Seq::<char>::empty()) == 0);
            assert(value == decimal(s.subrange(i + 1, i + 2)));
            while end - i < 5 && end < chars.len() && is_digit(chars[end])
                invariant
                    s == chars@,
                    i + 2 <= end <= i + 5,
                    end <= s.len(),
                    digits_end(s, (i + 2) as int, (i + 5) as int) == digits_end(
                        s,
                        end as int,
                        (i + 5) as int,
                    ),
                    value == decimal(s.subrange(i + 1, end as int)),
                    end == i + 2 ==> value < 10,
                    end == i + 3 ==> value < 100,
                    end == i + 4 ==> value < 1000,
                    end == i + 5 ==> value < 10000,
                decreases i + 5 - end,
            {
                assert(s.subrange(i + 1, end + 1).drop_last() =~= s.subrange(i + 1, end as int));
                value = value * 10 + (chars[end] as u32 - 48) as usize;
                end = end + 1;
            }
            if end < chars.len() && is_digit(chars[end]) {
                Err((end, Failure::PrefixOutOfRange))
            } else {
                Ok((end, Some(Modifier::Prefix(Prefix::new(value)))))
            }
        } else {
            Err((i + 1, Failure::PrefixLeadingDigit))
        }
    } else {
        Ok((i, None))
    }
}

// -----------------------------------------------------------------------------

// Variable Specification and List

fn parse_varspec_at<'t>(raw: &'t str, chars: &[char], i: usize) -> (res: Result<
    (usize, VariableSpecification<'t>),
    (usize, Failure),
>)
    requires
        chars@ == raw@,
        i <= chars@.len(),
    ensures
        match res {
            Ok((k, spec)) => spec_parse_varspec(chars@, i as int) == Ok::<
                (int, (Seq<char>, Option<Modifier>)),
                (int, Failure),
            >((k as int, variable_specification_view(spec))),
            Err((p, failure)) => spec_parse_varspec(chars@, i as int) == Err::<
                (int, (Seq<char>, Option<Modifier>)),
                (int, Failure),
            >((p as int, failure)),
        },
{
    proof {
        lemma_parse_varname(chars@, i as int);
    }
    match parse_varname_at(chars, i) {
        Err(p) => Err((p, Failure::VariableName)),
        Ok(j) => match parse_modifier_at(chars, j) {
            Err(failure) => Err(failure),
            Ok((k, modifier)) => {
                let name = VariableName::new(raw.substring_char(i, j));
                Ok((k, (name, modifier)))
            },
        },
    }
}

fn parse_varlist_at<'t>(raw: &'t str, chars: &[char], i: usize) -> (res: Result<
    (usize, VariableList<'t>),
    (usize, Failure),
>)
    requires
        chars@ == raw@,
        i <= chars@.len(),
    ensures
        match res {
            Ok((k, list)) => spec_parse_varlist(chars@, i as int) == Ok::<
                (int, Seq<(Seq<char>, Option<Modifier>)>),
                (int, Failure),
            >((k as int, list@.map_values(|v: VariableSpecification<'t>| variable_specification_view(v)))),
            Err((p, failure)) => spec_parse_varlist(chars@, i as int) == Err::<
                (int, Seq<(Seq<char>, Option<Modifier>)>),
                (int, Failure),
            >((p as int, failure)),
        },
{
    let ghost s = chars@;
    let mut list: VariableList<'t> = Vec::new();
    let mut pos: usize = i;
    loop
        invariant
            s == chars@,
            chars@ == raw@,
            i <= pos <= s.len(),
            spec_parse_varlist(s, i as int) == match spec_parse_varlist(s, pos as int) {
                Ok((k, rest)) => Ok((k, list@.map_values(|v: VariableSpecification<'t>| variable_specification_view(v)) + rest)),
                Err(failure) => Err(failure),
            },
        decreases s.len() - pos,
    {
        proof {
            lemma_parse_varspec(s, pos as int);
        }
        match parse_varspec_at(raw, chars, pos) {
            Err((p, failure)) => {
                return Err((p, failure));
            },
            Ok((j, spec)) => {
                let ghost before = list@.map_values(|v: VariableSpecification<'t>| variable_specification_view(v));
                let ghost view = variable_specification_view(spec);
                list.push(spec);
                assert(list@.map_values(|v: VariableSpecification<'t>| variable_specification_view(v)) =~= before.push(view));
                if j < chars.len() && chars[j] == ',' {
                    proof {
                        assert forall|rest: Seq<(Seq<char>, Option<Modifier>)>| #[trigger] (before + (seq![view] + rest)) == before.push(view) + rest by {
                            assert(before + (seq![view] + rest) =~= before.push(view) + rest);
                        }
                    }
                    pos = j + 1;
                } else {
                    assert(before + seq![view] =~= before.push(view));
                    return Ok((j, list));
                }
            },
        }
    }
}

// -----------------------------------------------------------------------------

// Expression

fn parse_expression_at<'t>(raw: &'t str, chars: &[char], i: usize) -> (res: Result<
    (usize, Expression<'t>),
    (usize, Failure),
>)
    requires
        chars@ == raw@,
        i <= chars@.len(),
    ensures
        match res {
            Ok((k, expression)) => spec_parse_expression(chars@, i as int) == Ok::<
                (int, ExpressionModel),
                (int, Failure),
            >((k as int, expression@)),
            Err((p, failure)) => spec_parse_expression(chars@, i as int) == Err::<
                (int, ExpressionModel),
                (int, Failure),
            >((p as int, failure)),
        },
{
    if !(i < chars.len() && chars[i] == '{') {
        return Err((i, Failure::OpeningBrace));
    }
    let (j, operator) = parse_operator_at(chars, i + 1);
    match parse_varlist_at(raw, chars, j) {
        Err(failure) => Err(failure),
        Ok((k, variable_list)) => {
            if k < chars.len() && chars[k] == '}' {
                Ok((k + 1, Expression::new(operator, variable_list)))
            } else {
                Err((k, Failure::ClosingBrace))
            }
        },
    }
}

// -----------------------------------------------------------------------------

// Literal

fn parse_literal_at<'t>(raw: &'t str, chars: &[char], i: usize) -> (res: Result<
    (usize, Literal<'t>),
    (usize, Failure),
>)
    requires
        chars@ == raw@,
        i <= chars@.len(),
    ensures
        match res {
            Ok((k, literal)) => spec_parse_literal(chars@, i as int) == Ok::<int, (int, Failure)>(
                k as int,
            ) && literal@ == chars@.subrange(i as int, k as int),
            Err((p, failure)) => spec_parse_literal(chars@, i as int) == Err::<int, (int, Failure)>(
                (p as int, failure),
            ),
        },
{
    let satisfier = Literal::parse();
    let n = satisfier.satisfy_chars(&chars[i..chars.len()]);
    assert(chars@.subrange(i as int, chars@.len() as int) =~= chars@.skip(i as int));
    proof {
        lemma_runs_bounded(chars@, i as int);
    }
    if n == 0 {
        Err((i, Failure::Literal))
    } else {
        Ok((i + n, Literal::new(raw.substring_char(i, i + n))))
    }
}

// -----------------------------------------------------------------------------

// Components

#[verifier::rlimit(40)]
fn parse_components_at<'t>(raw: &'t str, chars: &[char], i: usize) -> (res: Result<
    Vec<Component<'t>>,
    (usize, Failure),
>)
    requires
        chars@ == raw@,
        i <= chars@.len(),
    ensures
        match res {
            Ok(components) => spec_parse_components(chars@, i as int) == Ok::<
                Seq<ComponentModel>,
                (int, Failure),
            >(components@.map_values(|c: Component<'t>| c@)),
            Err((p, failure)) => spec_parse_components(chars@, i as int) == Err::<
                Seq<ComponentModel>,
                (int, Failure),
            >((p as int, failure)),
        },
{
    let ghost s = chars@;
    let mut components: Vec<Component<'t>> = Vec::new();
    let mut pos: usize = i;
    loop
        invariant
            s == chars@,
            chars@ == raw@,
            i <= pos <= s.len(),
            spec_parse_components(s, i as int) == match spec_parse_components(s, pos as int) {
                Ok(rest) => Ok(components@.map_values(|c: Component<'t>| c@) + rest),
                Err(failure) => Err(failure),
            },
        decreases s.len() - pos,
    {
        let ghost before = components@.map_values(|c: Component<'t>| c@);
        if pos == chars.len() {
            assert(before + seq![] =~= before);
            return Ok(components);
        }
        let (next, component) = if chars[pos] == '{' {
            proof {
                lemma_parse_expression(s, pos as int);
            }
            match parse_expression_at(raw, chars, pos) {
                Err(failure) => {
                    return Err(failure);
                },
                Ok((j, expression)) => (j, Component::Expression(expression)),
            }
        } else {
            proof {
                lemma_runs_bounded(s, pos as int);
            }
            match parse_literal_at(raw, chars, pos) {
                Err(failure) => {
                    return Err(failure);
                },
                Ok((j, literal)) => (j, Component::Literal(literal)),
            }
        };
        let ghost view = component@;
        components.push(component);
        assert(components@.map_values(|c: Component<'t>| c@) =~= before.push(view));
        proof {
            assert forall|rest: Seq<ComponentModel>| #[trigger] (before + (seq![view] + rest)) == before.push(view) + rest by {
                assert(before + (seq![view] + rest) =~= before.push(view) + rest);
            }
        }
        pos = next;
    }
}


// =============================================================================
// Parse
// =============================================================================

// Traits

/// Parsing that cannot fail: the number of bytes consumed from the start of
/// `raw` and the parsed value.
pub trait Parse<'t>: Sized {
    fn parse(raw: &'t str, global: usize) -> (usize, Self);
}

/// Parsing that can fail: the number of bytes consumed from the start of
/// `raw` and the parsed value, or an error whose position counts from
/// `global`, the position of `raw` in the whole template.
pub trait TryParse<'t>: Sized {
    fn try_parse(raw: &'t str, global: usize) -> Result<(usize, Self), ParseError>
        requires
            global + encode_utf8(raw@).len() <= usize::MAX,
    ;
}

proof fn lemma_byte_position_bounded(s: Seq<char>, index: int)
    requires
        0 <= index <= s.len(),
    ensures
        byte_position(s, index) <= encode_utf8(s).len(),
{
    if index < s.len() {
        lemma_encode_utf8_prefix(s, index);
    } else {
        assert(s.take(index) =~= s);
    }
}

// -----------------------------------------------------------------------------

// Template

impl<'t> Template<'t> {
    /// Parses a template (RFC 6570). On failure the error gives the position,
    /// in bytes, where the input was unexpected.
    pub fn parse(raw: &'t str) -> (res: Result<Self, ParseError>)
        ensures
            match spec_parse_template(raw@) {
                Ok(components) => res matches Ok(template) && template@ == components,
                Err((p, failure)) => res matches Err(error) && reports(
                    error,
                    byte_position(raw@, p) as int,
                    failure,
                ),
            },
    {
        let _ = byte_len(raw);
        match Self::try_parse(raw, 0) {
            Ok((_, template)) => Ok(template),
            Err(error) => Err(error),
        }
    }
}

impl<'t> TryParse<'t> for Template<'t> {
    fn try_parse(raw: &'t str, global: usize) -> (res: Result<(usize, Self), ParseError>)
        ensures
            match spec_parse_template(raw@) {
                Ok(components) => res matches Ok((n, template)) && n == encode_utf8(raw@).len()
                    && template@ == components,
                Err((p, failure)) => res matches Err(error) && reports(
                    error,
                    global + byte_position(raw@, p),
                    failure,
                ),
            },
    {
        match Vec::<Component<'t>>::try_parse(raw, global) {
            Ok((n, components)) => Ok((n, Template::new(components))),
            Err(error) => Err(error),
        }
    }
}

impl<'t> TryParse<'t> for Vec<Component<'t>> {
    fn try_parse(raw: &'t str, global: usize) -> (res: Result<(usize, Self), ParseError>)
        ensures
            match spec_parse_components(raw@, 0) {
                Ok(components) => res matches Ok((n, parsed)) && n == encode_utf8(raw@).len()
                    && parsed@.map_values(|c: Component<'t>| c@) == components,
                Err((p, failure)) => res matches Err(error) && reports(
                    error,
                    global + byte_position(raw@, p),
                    failure,
                ),
            },
    {
        let chars = to_chars(raw);
        match parse_components_at(raw, chars.as_slice(), 0) {
            Ok(components) => Ok((raw.len(), components)),
            Err((p, failure)) => {
                proof {
                    lemma_parse_components_failure(raw@, 0);
                }
                Err(failure_error(chars.as_slice(), raw.len(), global, p, failure))
            },
        }
    }
}

proof fn lemma_parse_components_failure(s: Seq<char>, i: int)
    requires
        0 <= i <= s.len(),
    ensures
        spec_parse_components(s, i) matches Err((p, _)) ==> i <= p <= s.len(),
    decreases s.len() - i,
{
    if i < s.len() {
        if s[i] == '{' {
            lemma_parse_expression(s, i);
            if let Ok((j, _)) = spec_parse_expression(s, i) {
                lemma_parse_components_failure(s, j);
            }
        } else {
            lemma_runs_bounded(s, i);
            if let Ok(j) = spec_parse_literal(s, i) {
                lemma_parse_components_failure(s, j);
            }
        }
    }
}

// -----------------------------------------------------------------------------

// Expression

impl<'t> TryParse<'t> for Expression<'t> {
    fn try_parse(raw: &'t str, global: usize) -> (res: Result<(usize, Self), ParseError>)
        ensures
            match spec_parse_expression(raw@, 0) {
                Ok((k, expression)) => res matches Ok((n, parsed)) && n == byte_position(raw@, k)
                    && parsed@ == expression,
                Err((p, failure)) => res matches Err(error) && reports(
                    error,
                    global + byte_position(raw@, p),
                    failure,
                ),
            },
    {
        let chars = to_chars(raw);
        proof {
            lemma_parse_expression(raw@, 0);
        }
        match parse_expression_at(raw, chars.as_slice(), 0) {
            Ok((k, expression)) => {
                proof {
                    lemma_byte_position_bounded(raw@, k as int);
                }
                Ok((byte_offset(chars.as_slice(), k, raw.len()), expression))
            },
            Err((p, failure)) => Err(failure_error(chars.as_slice(), raw.len(), global, p, failure)),
        }
    }
}

impl<'t> Parse<'t> for Option<Operator> {
    fn parse(raw: &'t str, global: usize) -> (res: (usize, Self))
        ensures
            (res.0 as int, res.1) == spec_parse_operator(raw@, 0),
    {
        let chars = to_chars(raw);
        parse_operator_at(chars.as_slice(), 0)
    }
}

impl<'t> TryParse<'t> for VariableList<'t> {
    fn try_parse(raw: &'t str, global: usize) -> (res: Result<(usize, Self), ParseError>)
        ensures
            match spec_parse_varlist(raw@, 0) {
                Ok((k, list)) => res matches Ok((n, parsed)) && n == byte_position(raw@, k)
                    && parsed@.map_values(|v: VariableSpecification<'t>| variable_specification_view(v)) == list,
                Err((p, failure)) => res matches Err(error) && reports(
                    error,
                    global + byte_position(raw@, p),
                    failure,
                ),
            },
    {
        let chars = to_chars(raw);
        proof {
            lemma_parse_varlist(raw@, 0);
        }
        match parse_varlist_at(raw, chars.as_slice(), 0) {
            Ok((k, list)) => Ok((byte_offset(chars.as_slice(), k, raw.len()), list)),
            Err((p, failure)) => Err(failure_error(chars.as_slice(), raw.len(), global, p, failure)),
        }
    }
}

impl<'t> TryParse<'t> for VariableSpecification<'t> {
    fn try_parse(raw: &'t str, global: usize) -> (res: Result<(usize, Self), ParseError>)
        ensures
            match spec_parse_varspec(raw@, 0) {
                Ok((k, spec)) => res matches Ok((n, parsed)) && n == byte_position(raw@, k)
                    && variable_specification_view(parsed) == spec,
                Err((p, failure)) => res matches Err(error) && reports(
                    error,
                    global + byte_position(raw@, p),
                    failure,
                ),
            },
    {
        let chars = to_chars(raw);
        proof {
            lemma_parse_varspec(raw@, 0);
        }
        match parse_varspec_at(raw, chars.as_slice(), 0) {
            Ok((k, spec)) => Ok((byte_offset(chars.as_slice(), k, raw.len()), spec)),
            Err((p, failure)) => Err(failure_error(chars.as_slice(), raw.len(), global, p, failure)),
        }
    }
}

impl<'t> TryParse<'t> for VariableName<'t> {
    fn try_parse(raw: &'t str, global: usize) -> (res: Result<(usize, Self), ParseError>)
        ensures
            match spec_parse_varname(raw@, 0) {
                Ok(j) => res matches Ok((n, name)) && n == byte_position(raw@, j)
                    && name@ == raw@.subrange(0, j),
                Err(p) => res matches Err(error) && reports(
                    error,
                    global + byte_position(raw@, p),
                    Failure::VariableName,
                ),
            },
    {
        let chars = to_chars(raw);
        proof {
            lemma_parse_varname(raw@, 0);
        }
        match parse_varname_at(chars.as_slice(), 0) {
            Ok(j) => Ok(
                (byte_offset(chars.as_slice(), j, raw.len()), VariableName::new(raw.substring_char(0, j))),
            ),
            Err(p) => Err(
                failure_error(chars.as_slice(), raw.len(), global, p, Failure::VariableName),
            ),
        }
    }
}

impl<'t> TryParse<'t> for Option<Modifier> {
    fn try_parse(raw: &'t str, global: usize) -> (res: Result<(usize, Self), ParseError>)
        ensures
            match spec_parse_modifier(raw@, 0) {
                Ok((k, modifier)) => res matches Ok((n, parsed)) && n == byte_position(raw@, k)
                    && parsed == modifier,
                Err((p, failure)) => res matches Err(error) && reports(
                    error,
                    global + byte_position(raw@, p),
                    failure,
                ),
            },
    {
        let chars = to_chars(raw);
        proof {
            lemma_parse_modifier(raw@, 0);
        }
        match parse_modifier_at(chars.as_slice(), 0) {
            Ok((k, modifier)) => Ok((byte_offset(chars.as_slice(), k, raw.len()), modifier)),
            Err((p, failure)) => Err(failure_error(chars.as_slice(), raw.len(), global, p, failure)),
        }
    }
}

impl<'t> TryParse<'t> for Literal<'t> {
    fn try_parse(raw: &'t str, global: usize) -> (res: Result<(usize, Self), ParseError>)
        ensures
            match spec_parse_literal(raw@, 0) {
                Ok(k) => res matches Ok((n, literal)) && n == byte_position(raw@, k)
                    && literal@ == raw@.subrange(0, k),
                Err((p, failure)) => res matches Err(error) && reports(
                    error,
                    global + byte_position(raw@, p),
                    failure,
                ),
            },
    {
        let chars = to_chars(raw);
        proof {
            lemma_runs_bounded(raw@, 0);
        }
        match parse_literal_at(raw, chars.as_slice(), 0) {
            Ok((k, literal)) => Ok((byte_offset(chars.as_slice(), k, raw.len()), literal)),
            Err((p, failure)) => Err(failure_error(chars.as_slice(), raw.len(), global, p, failure)),
        }
    }
}


// =============================================================================
// Properties
// =============================================================================

/// A variable specification as the parser gives it: a name that is not
/// empty, and a prefix length, if any, from 1 to 9999.
pub open spec fn well_formed_variable(variable: (Seq<char>, Option<Modifier>)) -> bool {
    &&& variable.0.len() > 0
    &&& variable.1 matches Some(Modifier::Prefix(prefix)) ==> 1 <= prefix.length <= 9999
}

/// The first `n` characters of `s` hold no "{".
pub open spec fn no_opening_brace(s: Seq<char>, n: nat) -> bool {
    forall|k: int| 0 <= k < n && k < s.len() ==> #[trigger] s[k] != '{'
}

/// A component as the parser gives it: a literal that is not empty and holds
/// no "{", or an expression with at least one variable, each well formed.
pub open spec fn well_formed_component(component: ComponentModel) -> bool {
    match component {
        ComponentModel::Literal(text) => text.len() > 0 && no_opening_brace(text, text.len()),
        ComponentModel::Expression(expression) => {
            &&& expression.variable_list.len() > 0
            &&& forall|j: int|
                0 <= j < expression.variable_list.len() ==> well_formed_variable(
                    #[trigger] expression.variable_list[j],
                )
        },
    }
}

/// Whether the components at `i` and `i + 1` are both literals.
pub open spec fn adjacent_literals(components: Seq<ComponentModel>, i: int) -> bool {
    components[i] is Literal && components[i + 1] is Literal
}

/// A template as the parser gives it: well-formed components, and no literal
/// directly after another (each literal is as long as it can be).
pub open spec fn well_formed_template(components: Seq<ComponentModel>) -> bool {
    &&& forall|i: int| 0 <= i < components.len() ==> well_formed_component(#[trigger] components[i])
    &&& forall|i: int| 0 <= i < components.len() - 1 ==> !#[trigger] adjacent_literals(components, i)
}

proof fn lemma_decimal_bounds(digits: Seq<char>)
    requires
        1 <= digits.len() <= 4,
        spec_is_non_zero_digit(digits[0]),
        forall|k: int| 0 <= k < digits.len() ==> spec_is_digit(#[trigger] digits[k]),
    ensures
        1 <= decimal(digits) <= 9999,
{
    lemma_decimal_upper(digits);
    lemma_decimal_lower(digits);
    reveal_with_fuel(power10, 5);
}

/// Ten to the power `n`.
spec fn power10(n: nat) -> nat
    decreases n,
{
    if n == 0 {
        1
    } else {
        10 * power10((n - 1) as nat)
    }
}

proof fn lemma_decimal_upper(digits: Seq<char>)
    requires
        forall|k: int| 0 <= k < digits.len() ==> spec_is_digit(#[trigger] digits[k]),
    ensures
        decimal(digits) < power10(digits.len()),
    decreases digits.len(),
{
    if digits.len() > 0 {
        let init = digits.drop_last();
        assert forall|k: int| 0 <= k < init.len() implies spec_is_digit(#[trigger] init[k]) by {
            assert(init[k] == digits[k]);
        }
        assert(spec_is_digit(digits[digits.len() - 1]));
        lemma_decimal_upper(init);
    }
}

proof fn lemma_decimal_lower(digits: Seq<char>)
    requires
        digits.len() >= 1,
        spec_is_non_zero_digit(digits[0]),
        forall|k: int| 0 <= k < digits.len() ==> spec_is_digit(#[trigger] digits[k]),
    ensures
        decimal(digits) >= 1,
    decreases digits.len(),
{
    let init = digits.drop_last();
    assert(spec_is_digit(digits[digits.len() - 1]));
    if digits.len() == 1 {
        assert(decimal(init) == 0);
    } else {
        assert(init[0] == digits[0]);
        assert forall|k: int| 0 <= k < init.len() implies spec_is_digit(#[trigger] init[k]) by {
            assert(init[k] == digits[k]);
        }
        lemma_decimal_lower(init);
    }
}

proof fn lemma_varspec_well_formed(s: Seq<char>, i: int)
    requires
        0 <= i <= s.len(),
    ensures
        spec_parse_varspec(s, i) matches Ok((_, variable)) ==> well_formed_variable(variable),
{
    lemma_parse_varname(s, i);
    if let Ok(j) = spec_parse_varname(s, i) {
        if 0 <= j < s.len() && s[j] == ':' && j + 1 < s.len() && spec_is_non_zero_digit(s[j + 1]) {
            let end = digits_end(s, j + 2, j + 5);
            lemma_digits_end(s, j + 2, j + 5);
            let digits = s.subrange(j + 1, end);
            assert forall|k: int| 0 <= k < digits.len() implies spec_is_digit(#[trigger] digits[k]) by {
                if k > 0 {
                    assert(digits[k] == s[j + 1 + k]);
                }
            }
            lemma_decimal_bounds(digits);
        }
    }
}

proof fn lemma_varlist_well_formed(s: Seq<char>, i: int)
    requires
        0 <= i <= s.len(),
    ensures
        spec_parse_varlist(s, i) matches Ok((_, list)) ==> list.len() > 0 && forall|j: int|
            0 <= j < list.len() ==> well_formed_variable(#[trigger] list[j]),
    decreases s.len() - i,
{
    lemma_parse_varspec(s, i);
    lemma_varspec_well_formed(s, i);
    if let Ok((j, variable)) = spec_parse_varspec(s, i) {
        if j < s.len() && s[j] == ',' {
            lemma_varlist_well_formed(s, j + 1);
            if let Ok((k, rest)) = spec_parse_varlist(s, j + 1) {
                let list = seq![variable] + rest;
                assert forall|m: int| 0 <= m < list.len() implies well_formed_variable(
                    #[trigger] list[m],
                ) by {
                    if m > 0 {
                        assert(list[m] == rest[m - 1]);
                    }
                }
            }
        }
    }
}

proof fn lemma_expression_well_formed(s: Seq<char>, i: int)
    requires
        0 <= i <= s.len(),
    ensures
        spec_parse_expression(s, i) matches Ok((_, expression)) ==> well_formed_component(
            ComponentModel::Expression(expression),
        ),
{
    if 0 <= i < s.len() && s[i] == '{' {
        let (j, operator) = spec_parse_operator(s, i + 1);
        lemma_varlist_well_formed(s, j);
    }
}

proof fn lemma_triplet_run_no_brace(s: Seq<char>)
    ensures
        no_opening_brace(s, triplet_run(s)),
    decreases s.len(),
{
    if starts_with_triplet(s) {
        lemma_triplet_run_no_brace(s.skip(3));
        assert forall|k: int| 0 <= k < triplet_run(s) && k < s.len() implies #[trigger] s[k]
            != '{' by {
            if k >= 3 {
                assert(s[k] == s.skip(3)[k - 3]);
            }
        }
    }
}

/// Literal text holds no "{": neither ASCII literal characters, nor
/// percent-encoded triplets, nor non-ASCII literal characters are one.
proof fn lemma_literal_rounds_no_brace(s: Seq<char>, live: (bool, bool, bool))
    ensures
        no_opening_brace(s, rounds3(literal_satisfier(), s, live)),
    decreases s.len(),
{
    if s.len() > 0 {
        let satisfiers = literal_satisfier();
        let p = ascii_pred(AsciiClass::Literal);
        let q = unicode_pred(UnicodeClass::Literal);
        lemma_run_len(s, p);
        let n0 = if live.0 && run_len(s, p) <= s.len() {
            run_len(s, p)
        } else {
            0
        };
        let t = s.skip(n0 as int);
        lemma_triplet_run(t);
        lemma_triplet_run_no_brace(t);
        let n1 = if (live.1 || n0 > 0) && triplet_run(t) <= t.len() {
            triplet_run(t)
        } else {
            0
        };
        let u = t.skip(n1 as int);
        lemma_run_len(u, q);
        let n2 = if (live.2 || n0 > 0 || n1 > 0) && run_len(u, q) <= u.len() {
            run_len(u, q)
        } else {
            0
        };
        let (k, next) = round3(satisfiers, s, live);
        assert(k == n0 + n1 + n2);
        assert forall|m: int| 0 <= m < k && m < s.len() implies #[trigger] s[m] != '{' by {
            if m < n0 {
                assert(p(s[m]));
            } else if m < n0 + n1 {
                assert(s[m] == t[m - n0]);
            } else {
                assert(s[m] == u[m - n0 - n1]);
                assert(q(u[m - n0 - n1]));
            }
        }
        if (next.0 || next.1 || next.2) && 0 < k <= s.len() {
            let w = s.skip(k as int);
            lemma_literal_rounds_no_brace(w, next);
            let r = rounds3(satisfiers, w, next);
            assert forall|m: int| 0 <= m < k + r && m < s.len() implies #[trigger] s[m] != '{' by {
                if m >= k {
                    assert(s[m] == w[m - k]);
                }
            }
        }
    }
}

proof fn lemma_components_well_formed(s: Seq<char>, i: int)
    requires
        0 <= i <= s.len(),
    ensures
        spec_parse_components(s, i) matches Ok(components) ==> {
            &&& well_formed_template(components)
            &&& components.len() > 0 ==> i < s.len() && (s[i] == '{' ==> components[0] is Expression)
        },
    decreases s.len() - i,
{
    if i < s.len() {
        if s[i] == '{' {
            lemma_parse_expression(s, i);
            lemma_expression_well_formed(s, i);
            if let Ok((j, expression)) = spec_parse_expression(s, i) {
                lemma_components_well_formed(s, j);
                if let Ok(rest) = spec_parse_components(s, j) {
                    let components = seq![ComponentModel::Expression(expression)] + rest;
                    lemma_prepend_well_formed(ComponentModel::Expression(expression), rest);
                    assert(spec_parse_components(s, i) == Ok::<_, (int, Failure)>(components));
                }
            }
        } else {
            lemma_runs_bounded(s, i);
            if let Ok(j) = spec_parse_literal(s, i) {
                lemma_components_well_formed(s, j);
                if let Ok(rest) = spec_parse_components(s, j) {
                    let literal = ComponentModel::Literal(s.subrange(i, j));
                    lemma_literal_rounds_no_brace(s.skip(i), (true, true, true));
                    assert forall|k: int| 0 <= k < j - i implies #[trigger] s.subrange(i, j)[k]
                        != '{' by {
                        assert(s.subrange(i, j)[k] == s.skip(i)[k]);
                    }
                    if rest.len() > 0 {
                        // The literal run stops only where no literal text follows, so
                        // what follows it is an expression.
                        literal_satisfier().lemma_satisfy_maximal(s.skip(i));
                        assert(s.skip(i).skip(j - i) =~= s.skip(j));
                        assert(literal_run(s, j) == 0);
                        assert(s[j] == '{');
                    }
                    lemma_prepend_well_formed(literal, rest);
                }
            }
        }
    }
}

proof fn lemma_prepend_well_formed(first: ComponentModel, rest: Seq<ComponentModel>)
    requires
        well_formed_component(first),
        well_formed_template(rest),
        rest.len() > 0 && first is Literal ==> rest[0] is Expression,
    ensures
        well_formed_template(seq![first] + rest),
{
    let components = seq![first] + rest;
    assert forall|i: int| 0 <= i < components.len() implies well_formed_component(
        #[trigger] components[i],
    ) by {
        if i > 0 {
            assert(components[i] == rest[i - 1]);
        }
    }
    assert forall|i: int| 0 <= i < components.len() - 1 implies !#[trigger] adjacent_literals(
        components,
        i,
    ) by {
        if i > 0 {
            assert(components[i] == rest[i - 1]);
            assert(components[i + 1] == rest[i]);
            assert(!adjacent_literals(rest, i - 1));
        } else {
            assert(components[1] == rest[0]);
        }
    }
}

/// Every template that parses is well formed: its literals are not empty,
/// hold no "{" and never follow one another, and each expression has at
/// least one variable, each with a name and with a prefix length, if any,
/// from 1 to 9999.
pub proof fn law_parsed_templates_are_well_formed(s: Seq<char>)
    ensures
        spec_parse_template(s) matches Ok(components) ==> well_formed_template(components),
{
    lemma_components_well_formed(s, 0);
}

/// A parse failure is reported at a position within the input: in
/// characters, and so in bytes no further than its UTF-8 length.
pub proof fn law_parse_failure_within_input(s: Seq<char>)
    ensures
        spec_parse_template(s) matches Err((p, _)) ==> 0 <= p <= s.len() && byte_position(s, p)
            <= encode_utf8(s).len(),
{
    lemma_parse_components_failure(s, 0);
    if let Err((p, _)) = spec_parse_template(s) {
        lemma_byte_position_bounded(s, p);
    }
}

// -----------------------------------------------------------------------------

// Template Text

/// The character of an operator, or nothing.
pub open spec fn operator_text(operator: Option<Operator>) -> Seq<char> {
    match operator {
        None => seq![],
        Some(Operator::Level2(OpLevel2::Reserved)) => seq!['+'],
        Some(Operator::Level2(OpLevel2::Fragment)) => seq!['#'],
        Some(Operator::Level3(OpLevel3::Label)) => seq!['.'],
        Some(Operator::Level3(OpLevel3::Path)) => seq!['/'],
        Some(Operator::Level3(OpLevel3::PathParameter)) => seq![';'],
        Some(Operator::Level3(OpLevel3::Query)) => seq!['?'],
        Some(Operator::Level3(OpLevel3::QueryContinuation)) => seq!['&'],
    }
}

/// The decimal digits of a number, without leading zeros.
pub open spec fn decimal_text(n: nat) -> Seq<char>
    decreases n,
{
    if n < 10 {
        seq![(n + 0x30) as char]
    } else {
        decimal_text(n / 10) + seq![((n % 10) + 0x30) as char]
    }
}

/// A modifier as written: "*", or ":" and the prefix length.
pub open spec fn modifier_text(modifier: Option<Modifier>) -> Seq<char> {
    match modifier {
        None => seq![],
        Some(Modifier::Explode(_)) => seq!['*'],
        Some(Modifier::Prefix(prefix)) => seq![':'] + decimal_text(prefix.length as nat),
    }
}

/// A variable specification as written: its name and its modifier.
pub open spec fn variable_text(variable: (Seq<char>, Option<Modifier>)) -> Seq<char> {
    variable.0 + modifier_text(variable.1)
}

/// A variable list as written: its variable specifications, separated by
/// commas.
pub open spec fn variables_text(variables: Seq<(Seq<char>, Option<Modifier>)>) -> Seq<char>
    decreases variables.len(),
{
    if variables.len() == 0 {
        seq![]
    } else if variables.len() == 1 {
        variable_text(variables[0])
    } else {
        variable_text(variables[0]) + seq![','] + variables_text(variables.drop_first())
    }
}

/// An expression as written: braces round its operator and variable list.
pub open spec fn expression_text(expression: ExpressionModel) -> Seq<char> {
    seq!['{'] + operator_text(expression.operator) + variables_text(expression.variable_list)
        + seq!['}']
}

/// A template as written: its components, one after another.
pub open spec fn template_text(components: Seq<ComponentModel>) -> Seq<char>
    decreases components.len(),
{
    if components.len() == 0 {
        seq![]
    } else {
        component_text(components[0]) + template_text(components.drop_first())
    }
}

proof fn lemma_decimal_text(digits: Seq<char>)
    requires
        digits.len() >= 1,
        spec_is_non_zero_digit(digits[0]),
        forall|k: int| 0 <= k < digits.len() ==> spec_is_digit(#[trigger] digits[k]),
    ensures
        decimal_text(decimal(digits)) == digits,
    decreases digits.len(),
{
    let init = digits.drop_last();
    let d = (digits.last() as u32 - '0' as u32) as nat;
    assert(spec_is_digit(digits[digits.len() - 1]));
    assert(d < 10);
    if digits.len() == 1 {
        assert(decimal(init) == 0);
        assert(decimal(digits) == d);
        assert(digits =~= seq![(d + 0x30) as char]);
    } else {
        assert(init[0] == digits[0]);
        assert forall|k: int| 0 <= k < init.len() implies spec_is_digit(#[trigger] init[k]) by {
            assert(init[k] == digits[k]);
        }
        lemma_decimal_lower(init);
        lemma_decimal_text(init);
        let n = decimal(digits);
        let m = decimal(init);
        assert(n == m * 10 + d);
        assert(n / 10 == m && n % 10 == d) by (nonlinear_arith)
            requires
                n == m * 10 + d,
                d < 10,
        ;
        assert(digits =~= init + seq![(d + 0x30) as char]);
    }
}

proof fn lemma_modifier_text(s: Seq<char>, j: int)
    requires
        0 <= j <= s.len(),
    ensures
        spec_parse_modifier(s, j) matches Ok((k, modifier)) ==> s.subrange(j, k) == modifier_text(
            modifier,
        ),
{
    lemma_parse_modifier(s, j);
    if 0 <= j < s.len() && s[j] == '*' {
        assert(s.subrange(j, j + 1) =~= seq!['*']);
    } else if 0 <= j < s.len() && s[j] == ':' {
        if j + 1 < s.len() && spec_is_non_zero_digit(s[j + 1]) {
            let end = digits_end(s, j + 2, j + 5);
            lemma_digits_end(s, j + 2, j + 5);
            let digits = s.subrange(j + 1, end);
            assert forall|k: int| 0 <= k < digits.len() implies spec_is_digit(#[trigger] digits[k]) by {
                if k > 0 {
                    assert(digits[k] == s[j + 1 + k]);
                }
            }
            lemma_decimal_bounds(digits);
            lemma_decimal_text(digits);
            assert(s.subrange(j, end) =~= seq![':'] + digits);
        }
    } else {
        assert(s.subrange(j, j) =~= Seq::<char>::empty());
    }
}

proof fn lemma_varspec_text(s: Seq<char>, i: int)
    requires
        0 <= i <= s.len(),
    ensures
        spec_parse_varspec(s, i) matches Ok((k, variable)) ==> s.subrange(i, k) == variable_text(
            variable,
        ),
{
    lemma_parse_varname(s, i);
    if let Ok(j) = spec_parse_varname(s, i) {
        lemma_parse_modifier(s, j);
        lemma_modifier_text(s, j);
        if let Ok((k, modifier)) = spec_parse_modifier(s, j) {
            assert(s.subrange(i, k) =~= s.subrange(i, j) + s.subrange(j, k));
        }
    }
}

proof fn lemma_varlist_text(s: Seq<char>, i: int)
    requires
        0 <= i <= s.len(),
    ensures
        spec_parse_varlist(s, i) matches Ok((k, variables)) ==> s.subrange(i, k) == variables_text(
            variables,
        ),
    decreases s.len() - i,
{
    lemma_parse_varspec(s, i);
    lemma_varspec_text(s, i);
    if let Ok((j, variable)) = spec_parse_varspec(s, i) {
        if j < s.len() && s[j] == ',' {
            lemma_parse_varlist(s, j + 1);
            lemma_varlist_text(s, j + 1);
            if let Ok((k, rest)) = spec_parse_varlist(s, j + 1) {
                let variables = seq![variable] + rest;
                lemma_varlist_well_formed(s, j + 1);
                assert(variables[0] == variable);
                assert(variables.drop_first() =~= rest);
                assert(s.subrange(i, k) =~= s.subrange(i, j) + seq![','] + s.subrange(j + 1, k));
            }
        } else {
            assert(seq![variable][0] == variable);
        }
    }
}

proof fn lemma_expression_text(s: Seq<char>, i: int)
    requires
        0 <= i <= s.len(),
    ensures
        spec_parse_expression(s, i) matches Ok((k, expression)) ==> s.subrange(i, k)
            == expression_text(expression),
{
    if 0 <= i < s.len() && s[i] == '{' {
        let (j, operator) = spec_parse_operator(s, i + 1);
        lemma_parse_varlist(s, j);
        lemma_varlist_text(s, j);
        if let Ok((k, variables)) = spec_parse_varlist(s, j) {
            if 0 <= k < s.len() && s[k] == '}' {
                assert(s.subrange(i + 1, j) =~= operator_text(operator));
                assert(s.subrange(i, k + 1) =~= seq!['{'] + s.subrange(i + 1, j) + s.subrange(j, k)
                    + seq!['}']);
            }
        }
    }
}

/// The text of a component.
pub open spec fn component_text(component: ComponentModel) -> Seq<char> {
    match component {
        ComponentModel::Literal(text) => text,
        ComponentModel::Expression(expression) => expression_text(expression),
    }
}

proof fn lemma_prepend_text(
    s: Seq<char>,
    i: int,
    j: int,
    first: ComponentModel,
    rest: Seq<ComponentModel>,
)
    requires
        0 <= i <= j <= s.len(),
        component_text(first) == s.subrange(i, j),
        template_text(rest) == s.skip(j),
    ensures
        template_text(seq![first] + rest) == s.skip(i),
{
    let components = seq![first] + rest;
    assert(components[0] == first);
    assert(components.drop_first() =~= rest);
    assert(s.skip(i) =~= s.subrange(i, j) + s.skip(j));
}

proof fn lemma_components_text(s: Seq<char>, i: int)
    requires
        0 <= i <= s.len(),
    ensures
        spec_parse_components(s, i) matches Ok(components) ==> template_text(components)
            == s.skip(i),
    decreases s.len() - i,
{
    if i < s.len() {
        if s[i] == '{' {
            lemma_parse_expression(s, i);
            lemma_expression_text(s, i);
            if let Ok((j, expression)) = spec_parse_expression(s, i) {
                lemma_components_text(s, j);
                if let Ok(rest) = spec_parse_components(s, j) {
                    lemma_prepend_text(s, i, j, ComponentModel::Expression(expression), rest);
                }
            }
        } else {
            lemma_runs_bounded(s, i);
            if let Ok(j) = spec_parse_literal(s, i) {
                lemma_components_text(s, j);
                if let Ok(rest) = spec_parse_components(s, j) {
                    lemma_prepend_text(s, i, j, ComponentModel::Literal(s.subrange(i, j)), rest);
                }
            }
        }
    } else {
        assert(s.skip(i) =~= Seq::<char>::empty());
    }
}

/// Parsing keeps all the text of a template: the components of a template
/// that parses, written back out, give the input again.
pub proof fn law_parsed_template_writes_back(s: Seq<char>)
    ensures
        spec_parse_template(s) matches Ok(components) ==> template_text(components) == s,
{
    lemma_components_text(s, 0);
    assert(s.skip(0) =~= s);
}

// -----------------------------------------------------------------------------

// Names and Literal Text

proof fn lemma_run_len_prefix(x: Seq<char>, y: Seq<char>, p: spec_fn(char) -> bool)
    requires
        forall|i: int| 0 <= i < x.len() ==> p(#[trigger] x[i]),
    ensures
        run_len(x + y, p) == x.len() + run_len(y, p),
    decreases x.len(),
{
    if x.len() == 0 {
        assert(x + y =~= y);
    } else {
        assert(p(x[0]));
        assert forall|i: int| 0 <= i < x.drop_first().len() implies p(#[trigger] x.drop_first()[i]) by {
            assert(x.drop_first()[i] == x[i + 1]);
        }
        lemma_run_len_prefix(x.drop_first(), y, p);
        assert((x + y).drop_first() =~= x.drop_first() + y);
        assert((x + y)[0] == x[0]);
    }
}

/// A name made of ASCII letters (either case), digits and "_" between
/// braces parses as one expression, without operator or modifier, whose one
/// variable has that name.
pub proof fn law_braced_name_parses(name: Seq<char>)
    requires
        name.len() > 0,
        forall|i: int| 0 <= i < name.len() ==> rfc_variable_char(#[trigger] name[i]),
    ensures
        spec_parse_template(seq!['{'] + name + seq!['}']) == Ok::<
            Seq<ComponentModel>,
            (int, Failure),
        >(
            seq![
                ComponentModel::Expression(
                    ExpressionModel { operator: None, variable_list: seq![(name, None)] },
                ),
            ],
        ),
{
    let s = seq!['{'] + name + seq!['}'];
    let n = name.len() as int;
    let p = ascii_pred(AsciiClass::VariableCharacter);
    assert forall|i: int| 0 <= i < name.len() implies p(#[trigger] name[i]) by {
        law_variable_character_class(name[i]);
    }
    let rest = s.skip(1);
    assert(rest =~= name + seq!['}']);
    lemma_run_len_prefix(name, seq!['}'], p);
    law_variable_character_class('}');
    assert(run_len(seq!['}'], p) == 0);
    let t = rest.skip(n);
    assert(t =~= seq!['}']);
    assert(triplet_run(t) == 0);
    assert(round2(varchars_satisfier(), rest, (true, true)) == (n as nat, (false, false)));
    assert(varchars_run(s, 1) == n);
    assert(s[n + 1] == '}');
    assert(varname_tail(s, n + 1) == Ok::<int, int>(n + 1));
    assert(spec_operator(name[0]) is None) by {
        law_variable_character_class(name[0]);
    }
    assert(s[1] == name[0]);
    assert(spec_parse_operator(s, 1) == (1int, None::<Operator>));
    assert(s.subrange(1, n + 1) =~= name);
    assert(spec_parse_modifier(s, n + 1) == Ok::<(int, Option<Modifier>), (int, Failure)>(
        (n + 1, None),
    ));
    assert(spec_parse_varlist(s, 1) == Ok::<
        (int, Seq<(Seq<char>, Option<Modifier>)>),
        (int, Failure),
    >((n + 1, seq![(name, None)])));
    assert(spec_parse_components(s, n + 2) == Ok::<Seq<ComponentModel>, (int, Failure)>(seq![]));
    let expression = ExpressionModel { operator: None, variable_list: seq![(name, None)] };
    assert(spec_parse_expression(s, 0) == Ok::<(int, ExpressionModel), (int, Failure)>(
        (n + 2, expression),
    ));
    assert(seq![ComponentModel::Expression(expression)] + Seq::<ComponentModel>::empty() =~= seq![
        ComponentModel::Expression(expression),
    ]);
}

/// A character of RFC 6570 `literals` outside percent-encoded triplets.
pub open spec fn rfc_literal_char(c: char) -> bool {
    rfc_literal_ascii_char(c) || rfc_ucschar_or_iprivate(c)
}

/// The run of the literal satisfier over text of literal characters only
/// takes it all.
proof fn lemma_literal_text_rounds(s: Seq<char>, live: (bool, bool, bool))
    requires
        forall|i: int|
            0 <= i < s.len() ==> ascii_pred(AsciiClass::Literal)(#[trigger] s[i]) || unicode_pred(
                UnicodeClass::Literal,
            )(s[i]),
        live.0,
        !live.2 ==> run_len(s, unicode_pred(UnicodeClass::Literal)) == 0,
    ensures
        rounds3(literal_satisfier(), s, live) == s.len(),
    decreases s.len(),
{
    if s.len() > 0 {
        let p = ascii_pred(AsciiClass::Literal);
        let q = unicode_pred(UnicodeClass::Literal);
        lemma_run_len(s, p);
        let n0 = run_len(s, p);
        let t = s.skip(n0 as int);
        if t.len() > 0 {
            assert(t[0] == s[n0 as int]);
            law_literal_ascii_class('%');
            assert(!starts_with_triplet(t));
        }
        assert(triplet_run(t) == 0);
        assert(t.skip(0) =~= t);
        lemma_run_len(t, q);
        let n2 = if live.2 || n0 > 0 {
            run_len(t, q)
        } else {
            0
        };
        let (k, next) = round3(literal_satisfier(), s, live);
        assert(k == n0 + n2);
        let w = s.skip(k as int);
        assert(t.skip(n2 as int) =~= w);
        if k < s.len() {
            assert(w[0] == s[k as int]);
            assert(w[0] == t[n2 as int]);
            if n2 == 0 {
                if live.2 || n0 > 0 {
                    assert(!q(t[0]));
                } else {
                    assert(t =~= s);
                }
                assert(false);
            }
            assert forall|i: int| 0 <= i < w.len() implies p(#[trigger] w[i]) || q(w[i]) by {
                assert(w[i] == s[i + k]);
            }
            assert(next == (true, true, false));
            assert(run_len(w, q) == 0);
            lemma_literal_text_rounds(w, next);
            assert(w.len() == s.len() - k);
            assert(rounds3(literal_satisfier(), s, live) == k + rounds3(literal_satisfier(), w, next));
        } else {
            assert(w.len() == 0);
            assert(rounds3(literal_satisfier(), w, next) == 0);
        }
    }
}

/// Text made only of RFC 6570 literal characters (ASCII literals, `ucschar`
/// and `iprivate`, without percent-encoded triplets) parses as one literal
/// component that is the whole text.
pub proof fn law_literal_text_parses(text: Seq<char>)
    requires
        text.len() > 0,
        forall|i: int| 0 <= i < text.len() ==> rfc_literal_char(#[trigger] text[i]),
    ensures
        spec_parse_template(text) == Ok::<Seq<ComponentModel>, (int, Failure)>(
            seq![ComponentModel::Literal(text)],
        ),
{
    let p = ascii_pred(AsciiClass::Literal);
    let q = unicode_pred(UnicodeClass::Literal);
    assert forall|i: int| 0 <= i < text.len() implies p(#[trigger] text[i]) || q(text[i]) by {
        law_literal_ascii_class(text[i]);
        law_literal_unicode_class(text[i]);
    }
    assert(text.skip(0) =~= text);
    lemma_literal_text_rounds(text, (true, true, true));
    assert(literal_run(text, 0) == text.len());
    law_literal_ascii_class('{');
    law_literal_unicode_class('{');
    assert(text[0] != '{');
    assert(text.subrange(0, text.len() as int) =~= text);
    assert(spec_parse_components(text, text.len() as int) == Ok::<
        Seq<ComponentModel>,
        (int, Failure),
    >(seq![]));
    assert(seq![ComponentModel::Literal(text)] + Seq::<ComponentModel>::empty() =~= seq![
        ComponentModel::Literal(text),
    ]);
}

} // verus!
