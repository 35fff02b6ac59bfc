//! Expansion of URI Templates (RFC 6570, section 3).

use vstd::prelude::*;
use vstd::utf8::encode_scalar;

use crate::string::encode::{
    encode_chars,
    run_of,
    spec_encode,
    spec_hex_digit_upper,
    spec_percent_bytes,
    spec_percent_char,
    spec_percent_triplet,
    Encode,
};
use crate::string::satisfy::{
    ascii_pred,
    law_unreserved_class,
    law_unreserved_or_reserved_class,
    rfc_reserved_char,
    rfc_unreserved_char,
    lemma_run_len,
    lemma_triplet_run,
    round2,
    rounds2,
    run_len,
    spec_ascii_accepts,
    starts_with_triplet,
    triplet_run,
    unreserved,
    unreserved_or_reserved,
    Ascii,
    AsciiClass,
    PercentEncoded,
    Satisfy,
};
use crate::string::utf8::to_chars;
use crate::template::{
    variable_specification_view,
    Component,
    ComponentModel,
    Expression,
    ExpressionModel,
    Literal,
    Modifier,
    OpLevel2,
    OpLevel3,
    Operator,
    Prefix,
    Template,
    VariableSpecification,
};
use crate::value::{
    pair_view,
    string_view,
    Value,
    ValueModel,
    Values,
};

verus! {

// =============================================================================
// Errors
// =============================================================================

#[verifier::external_type_specification]
#[verifier::external_body]
pub struct ExFormatError(std::fmt::Error);

/// A failure to expand a template: only a failure of the output to accept
/// text, which never happens when the output is a `String`.
#[derive(Debug)]
pub enum ExpandError {
    Format(std::fmt::Error),
}

// =============================================================================
// Behaviour
// =============================================================================

/// What may stand unencoded in an expansion: unreserved characters only (U),
/// or unreserved and reserved characters and percent-encoded triplets (U+R).
#[derive(Clone, Copy, Debug, Eq, PartialEq, Structural)]
pub enum Allow {
    U,
    UR,
}

/// How an operator expands its variables (RFC 6570, appendix A): the string
/// that precedes the first defined variable, the separator between values,
/// whether values are named, the string that follows the name of an empty
/// value, and what may stand unencoded.
#[derive(Clone, Copy, Debug, Eq, PartialEq, Structural)]
pub struct Behaviour {
    pub first: Option<char>,
    pub sep: char,
    pub named: bool,
    pub ifemp: Option<char>,
    pub allow: Allow,
}

/// The satisfier of what an `Allow` keeps unencoded.
#[derive(Clone, Copy, Debug)]
pub enum Matcher {
    Unreserved(Ascii),
    UnreservedOrReserved((Ascii, PercentEncoded)),
}

impl Satisfy for Matcher {
    open spec fn spec_satisfy(&self, input: Seq<char>) -> nat {
        match self {
            Matcher::Unreserved(ascii) => ascii.spec_satisfy(input),
            Matcher::UnreservedOrReserved(pair) => pair.spec_satisfy(input),
        }
    }

    proof fn lemma_satisfy_bounded(&self, input: Seq<char>) {
        match self {
            Matcher::Unreserved(ascii) => ascii.lemma_satisfy_bounded(input),
            Matcher::UnreservedOrReserved(pair) => pair.lemma_satisfy_bounded(input),
        }
    }

    proof fn lemma_satisfy_maximal(&self, input: Seq<char>) {
        match self {
            Matcher::Unreserved(ascii) => ascii.lemma_satisfy_maximal(input),
            Matcher::UnreservedOrReserved(pair) => pair.lemma_satisfy_maximal(input),
        }
    }

    fn satisfy_chars(&self, input: &[char]) -> (n: usize) {
        match self {
            Matcher::Unreserved(ascii) => ascii.satisfy_chars(input),
            Matcher::UnreservedOrReserved(pair) => pair.satisfy_chars(input),
        }
    }
}

/// The satisfier of literal text in expansions: unreserved and reserved
/// characters and percent-encoded triplets.
pub open spec fn literal_expansion() -> (Ascii, PercentEncoded) {
    (Ascii { class: AsciiClass::UnreservedOrReserved }, PercentEncoded)
}

pub open spec fn spec_matcher(allow: Allow) -> Matcher {
    match allow {
        Allow::U => Matcher::Unreserved(Ascii { class: AsciiClass::Unreserved }),
        Allow::UR => Matcher::UnreservedOrReserved(literal_expansion()),
    }
}

impl Allow {
    pub fn matcher(&self) -> (res: Matcher)
        ensures
            res == spec_matcher(*self),
    {
        match self {
            Allow::U => {
                let ascii = unreserved();
                assert(ascii == Ascii { class: AsciiClass::Unreserved });
                Matcher::Unreserved(ascii)
            },
            Allow::UR => {
                let pair = unreserved_or_reserved();
                assert(pair.0 == Ascii { class: AsciiClass::UnreservedOrReserved });
                assert(pair == literal_expansion());
                Matcher::UnreservedOrReserved(pair)
            },
        }
    }
}

impl<'t> Literal<'t> {
    /// The satisfier of literal text in expansions.
    pub fn expansion() -> (res: (Ascii, PercentEncoded))
        ensures
            res == literal_expansion(),
    {
        unreserved_or_reserved()
    }
}

/// The behaviour of each operator, and of no operator (RFC 6570, appendix A).
pub open spec fn spec_behaviour(operator: Option<Operator>) -> Behaviour {
    match operator {
        None => Behaviour { first: None, sep: ',', named: false, ifemp: None, allow: Allow::U },
        Some(Operator::Level2(OpLevel2::Reserved)) => Behaviour {
            first: None,
            sep: ',',
            named: false,
            ifemp: None,
            allow: Allow::UR,
        },
        Some(Operator::Level2(OpLevel2::Fragment)) => Behaviour {
            first: Some('#'),
            sep: ',',
            named: false,
            ifemp: None,
            allow: Allow::UR,
        },
        Some(Operator::Level3(OpLevel3::Label)) => Behaviour {
            first: Some('.'),
            sep: '.',
            named: false,
            ifemp: None,
            allow: Allow::U,
        },
        Some(Operator::Level3(OpLevel3::Path)) => Behaviour {
            first: Some('/'),
            sep: '/',
            named: false,
            ifemp: None,
            allow: Allow::U,
        },
        Some(Operator::Level3(OpLevel3::PathParameter)) => Behaviour {
            first: Some(';'),
            sep: ';',
            named: true,
            ifemp: None,
            allow: Allow::U,
        },
        Some(Operator::Level3(OpLevel3::Query)) => Behaviour {
            first: Some('?'),
            sep: '&',
            named: true,
            ifemp: Some('='),
            allow: Allow::U,
        },
        Some(Operator::Level3(OpLevel3::QueryContinuation)) => Behaviour {
            first: Some('&'),
            sep: '&',
            named: true,
            ifemp: Some('='),
            allow: Allow::U,
        },
    }
}

impl Behaviour {
    /// The behaviour of an expression without an operator.
    pub fn default_behaviour() -> (res: Behaviour)
        ensures
            res == spec_behaviour(None),
    {
        Behaviour { first: None, sep: ',', named: false, ifemp: None, allow: Allow::U }
    }
}

impl Operator {
    pub fn behaviour(&self) -> (res: Behaviour)
        ensures
            res == spec_behaviour(Some(*self)),
    {
        match self {
            Operator::Level2(OpLevel2::Reserved) => Behaviour {
                first: None,
                sep: ',',
                named: false,
                ifemp: None,
                allow: Allow::UR,
            },
            Operator::Level2(OpLevel2::Fragment) => Behaviour {
                first: Some('#'),
                sep: ',',
                named: false,
                ifemp: None,
                allow: Allow::UR,
            },
            Operator::Level3(OpLevel3::Label) => Behaviour {
                first: Some('.'),
                sep: '.',
                named: false,
                ifemp: None,
                allow: Allow::U,
            },
            Operator::Level3(OpLevel3::Path) => Behaviour {
                first: Some('/'),
                sep: '/',
                named: false,
                ifemp: None,
                allow: Allow::U,
            },
            Operator::Level3(OpLevel3::PathParameter) => Behaviour {
                first: Some(';'),
                sep: ';',
                named: true,
                ifemp: None,
                allow: Allow::U,
            },
            Operator::Level3(OpLevel3::Query) => Behaviour {
                first: Some('?'),
                sep: '&',
                named: true,
                ifemp: Some('='),
                allow: Allow::U,
            },
            Operator::Level3(OpLevel3::QueryContinuation) => Behaviour {
                first: Some('&'),
                sep: '&',
                named: true,
                ifemp: Some('='),
                allow: Allow::U,
            },
        }
    }
}

// =============================================================================
// Expansion - Specification
// =============================================================================

pub open spec fn opt_seq(c: Option<char>) -> Seq<char> {
    match c {
        Some(c) => seq![c],
        None => seq![],
    }
}

/// `s` encoded for an expansion: what `allow` permits is kept and everything
/// else is percent-encoded.
pub open spec fn encode_allowed(allow: Allow, s: Seq<char>) -> Seq<char> {
    spec_encode(s, run_of(spec_matcher(allow)))
}

/// `s` encoded as literals are.
pub open spec fn encode_literal(s: Seq<char>) -> Seq<char> {
    spec_encode(s, run_of(literal_expansion()))
}

/// The value of a string variable, cut to its prefix length if it has a
/// prefix modifier.
pub open spec fn shown_item(modifier: Option<Modifier>, value: Seq<char>) -> Seq<char> {
    match modifier {
        Some(Modifier::Prefix(prefix)) => if prefix.length < value.len() {
            value.take(prefix.length as int)
        } else {
            value
        },
        _ => value,
    }
}

/// A string variable: its name first when named ("name=", or the name and
/// ifemp when the value is empty), then its (possibly prefixed) value.
pub open spec fn expand_item(
    b: Behaviour,
    name: Seq<char>,
    modifier: Option<Modifier>,
    value: Seq<char>,
) -> Seq<char> {
    let head = if b.named {
        encode_literal(name) + if value.len() == 0 {
            opt_seq(b.ifemp)
        } else {
            seq!['=']
        }
    } else {
        seq![]
    };
    head + encode_allowed(b.allow, shown_item(modifier, value))
}

/// An exploded, named associative array: "name=value" for each pair (or the
/// name and ifemp for an empty value), separated by sep.
pub open spec fn explode_named_pairs(
    b: Behaviour,
    pairs: Seq<(Seq<char>, Seq<char>)>,
    first: bool,
) -> Seq<char>
    decreases pairs.len(),
{
    if pairs.len() == 0 {
        seq![]
    } else {
        let (name, value) = pairs[0];
        (if first {
            seq![]
        } else {
            seq![b.sep]
        }) + encode_literal(name) + (if value.len() == 0 {
            opt_seq(b.ifemp)
        } else {
            seq!['='] + encode_allowed(b.allow, value)
        }) + explode_named_pairs(b, pairs.drop_first(), false)
    }
}

/// An exploded, named list: "varname=member" for each member (or the name
/// and ifemp for an empty member), separated by sep.
pub open spec fn explode_named_list(
    b: Behaviour,
    name: Seq<char>,
    items: Seq<Seq<char>>,
    first: bool,
) -> Seq<char>
    decreases items.len(),
{
    if items.len() == 0 {
        seq![]
    } else {
        let value = items[0];
        (if first {
            seq![]
        } else {
            seq![b.sep]
        }) + encode_literal(name) + (if value.len() == 0 {
            opt_seq(b.ifemp)
        } else {
            seq!['='] + encode_allowed(b.allow, value)
        }) + explode_named_list(b, name, items.drop_first(), false)
    }
}

/// An exploded, unnamed associative array: "name=value" for each pair,
/// separated by sep. Every pair is defined, an empty value included.
pub open spec fn explode_unnamed_pairs(
    b: Behaviour,
    pairs: Seq<(Seq<char>, Seq<char>)>,
    first: bool,
) -> Seq<char>
    decreases pairs.len(),
{
    if pairs.len() == 0 {
        seq![]
    } else {
        let (name, value) = pairs[0];
        (if first {
            seq![]
        } else {
            seq![b.sep]
        }) + encode_allowed(b.allow, name) + seq!['='] + encode_allowed(b.allow, value)
            + explode_unnamed_pairs(b, pairs.drop_first(), false)
    }
}

/// An exploded, unnamed list: each member, separated by sep. Every member is
/// defined, an empty one included.
pub open spec fn explode_unnamed_list(b: Behaviour, items: Seq<Seq<char>>, first: bool) -> Seq<
    char,
>
    decreases items.len(),
{
    if items.len() == 0 {
        seq![]
    } else {
        (if first {
            seq![]
        } else {
            seq![b.sep]
        }) + encode_allowed(b.allow, items[0]) + explode_unnamed_list(b, items.drop_first(), false)
    }
}

/// An associative array that is not exploded: "name,value" for each pair,
/// separated by commas. Every pair is defined, an empty value included.
pub open spec fn joined_pairs(b: Behaviour, pairs: Seq<(Seq<char>, Seq<char>)>, first: bool) -> Seq<
    char,
>
    decreases pairs.len(),
{
    if pairs.len() == 0 {
        seq![]
    } else {
        let (name, value) = pairs[0];
        (if first {
            seq![]
        } else {
            seq![',']
        }) + encode_allowed(b.allow, name) + seq![','] + encode_allowed(b.allow, value)
            + joined_pairs(b, pairs.drop_first(), false)
    }
}

/// A list that is not exploded: each member, separated by commas. Every
/// member is defined, an empty one included.
pub open spec fn joined_list(b: Behaviour, items: Seq<Seq<char>>, first: bool) -> Seq<char>
    decreases items.len(),
{
    if items.len() == 0 {
        seq![]
    } else {
        (if first {
            seq![]
        } else {
            seq![',']
        }) + encode_allowed(b.allow, items[0]) + joined_list(b, items.drop_first(), false)
    }
}

/// The expansion of one defined variable (after first or sep).
pub open spec fn expand_value(
    b: Behaviour,
    name: Seq<char>,
    modifier: Option<Modifier>,
    value: ValueModel,
) -> Seq<char> {
    match value {
        ValueModel::Item(item) => expand_item(b, name, modifier, item),
        ValueModel::AssociativeArray(pairs) => if modifier matches Some(Modifier::Explode(_)) {
            if b.named {
                explode_named_pairs(b, pairs, true)
            } else {
                explode_unnamed_pairs(b, pairs, true)
            }
        } else {
            (if b.named {
                encode_literal(name) + seq!['=']
            } else {
                seq![]
            }) + joined_pairs(b, pairs, true)
        },
        ValueModel::List(items) => if modifier matches Some(Modifier::Explode(_)) {
            if b.named {
                explode_named_list(b, name, items, true)
            } else {
                explode_unnamed_list(b, items, true)
            }
        } else {
            (if b.named {
                encode_literal(name) + seq!['=']
            } else {
                seq![]
            }) + joined_list(b, items, true)
        },
    }
}

/// The variables of an expression: each variable that has a defined value is
/// expanded after the first string (for the first such variable) or the
/// separator (for the others); the other variables are skipped.
pub open spec fn expand_variables(
    b: Behaviour,
    variables: Seq<(Seq<char>, Option<Modifier>)>,
    values: Map<Seq<char>, ValueModel>,
    first: bool,
) -> Seq<char>
    decreases variables.len(),
{
    if variables.len() == 0 {
        seq![]
    } else {
        let (name, modifier) = variables[0];
        if values.contains_key(name) && values[name].defined() {
            (if first {
                opt_seq(b.first)
            } else {
                seq![b.sep]
            }) + expand_value(b, name, modifier, values[name]) + expand_variables(
                b,
                variables.drop_first(),
                values,
                false,
            )
        } else {
            expand_variables(b, variables.drop_first(), values, first)
        }
    }
}

/// The expansion of an expression.
pub open spec fn spec_expand_expression(
    expression: ExpressionModel,
    values: Map<Seq<char>, ValueModel>,
) -> Seq<char> {
    expand_variables(spec_behaviour(expression.operator), expression.variable_list, values, true)
}

/// The expansion of a component: a literal is encoded as literals are.
pub open spec fn spec_expand_component(
    component: ComponentModel,
    values: Map<Seq<char>, ValueModel>,
) -> Seq<char> {
    match component {
        ComponentModel::Literal(literal) => encode_literal(literal),
        ComponentModel::Expression(expression) => spec_expand_expression(expression, values),
    }
}

/// The expansion of a template: the expansions of its components, in order.
pub open spec fn spec_expand_template(
    components: Seq<ComponentModel>,
    values: Map<Seq<char>, ValueModel>,
) -> Seq<char>
    decreases components.len(),
{
    if components.len() == 0 {
        seq![]
    } else {
        spec_expand_component(components[0], values) + spec_expand_template(
            components.drop_first(),
            values,
        )
    }
}


// =============================================================================
// Expansion - Implementation
// =============================================================================

pub open spec fn pairs_view(pairs: Seq<(String, String)>) -> Seq<(Seq<char>, Seq<char>)> {
    pairs.map_values(|p: (String, String)| pair_view(p))
}

pub open spec fn items_view(items: Seq<String>) -> Seq<Seq<char>> {
    items.map_values(|s: String| string_view(s))
}

fn push_opt(output: &mut String, c: Option<char>)
    ensures
        final(output)@ == old(output)@ + opt_seq(c),
{
    if let Some(c) = c {
        output.push(c);
    }
    assert(final(output)@ =~= old(output)@ + opt_seq(c));
}

fn push_char(output: &mut String, c: char)
    ensures
        final(output)@ == old(output)@ + seq![c],
{
    output.push(c);
    assert(final(output)@ =~= old(output)@ + seq![c]);
}

fn is_empty(s: &String) -> (res: bool)
    ensures
        res == (s@.len() == 0),
{
    s.as_str().is_empty()
}

fn expand_item_into(
    output: &mut String,
    b: &Behaviour,
    matcher: &Matcher,
    name: &str,
    modifier: Option<Modifier>,
    value: &String,
)
    requires
        *matcher == spec_matcher(b.allow),
    ensures
        final(output)@ == old(output)@ + expand_item(*b, name@, modifier, value@),
{
    let ghost start = output@;
    if b.named {
        let _ = output.encode(name, &Literal::expansion());
        if is_empty(value) {
            push_opt(output, b.ifemp);
        } else {
            push_char(output, '=');
        }
    }
    match modifier {
        Some(Modifier::Prefix(prefix)) => {
            let chars = to_chars(value.as_str());
            let n = if prefix.length() < chars.len() {
                prefix.length()
            } else {
                chars.len()
            };
            encode_chars(output, &chars[0..n], matcher);
            assert(chars@.subrange(0, n as int) =~= shown_item(modifier, value@));
        },
        _ => {
            let _ = output.encode(value.as_str(), matcher);
        },
    }
    assert(final(output)@ =~= start + expand_item(*b, name@, modifier, value@));
}

fn explode_named_pairs_into(
    output: &mut String,
    b: &Behaviour,
    matcher: &Matcher,
    pairs: &Vec<(String, String)>,
)
    requires
        *matcher == spec_matcher(b.allow),
    ensures
        final(output)@ == old(output)@ + explode_named_pairs(*b, pairs_view(pairs@), true),
{
    let ghost all = pairs_view(pairs@);
    let ghost start = output@;
    let mut first = true;
    let mut i: usize = 0;
    assert(all.skip(0) =~= all);
    while i < pairs.len()
        invariant
            *matcher == spec_matcher(b.allow),
            all == pairs_view(pairs@),
            i <= pairs@.len(),
            output@ + explode_named_pairs(*b, all.skip(i as int), first) == start
                + explode_named_pairs(*b, all, true),
        decreases pairs@.len() - i,
    {
        let ghost before = output@;
        let ghost rest = all.skip(i as int);
        let ghost was_first = first;
        if first {
            first = false;
        } else {
            push_char(output, b.sep);
        }
        let _ = output.encode(pairs[i].0.as_str(), &Literal::expansion());
        if is_empty(&pairs[i].1) {
            push_opt(output, b.ifemp);
        } else {
            push_char(output, '=');
            let _ = output.encode(pairs[i].1.as_str(), matcher);
        }
        assert(rest.drop_first() =~= all.skip(i + 1));
        assert(rest[0] == pair_view(pairs@[i as int]));
        assert(before + explode_named_pairs(*b, rest, was_first) =~= output@ + explode_named_pairs(
            *b,
            all.skip(i + 1),
            false,
        ));
        i = i + 1;
    }
    assert(all.skip(i as int) =~= Seq::<(Seq<char>, Seq<char>)>::empty());
    assert(output@ + explode_named_pairs(*b, all.skip(i as int), first) =~= output@);
}


fn explode_named_list_into(
    output: &mut String,
    b: &Behaviour,
    matcher: &Matcher,
    name: &str,
    items: &Vec<String>,
)
    requires
        *matcher == spec_matcher(b.allow),
    ensures
        final(output)@ == old(output)@ + explode_named_list(*b, name@, items_view(items@), true),
{
    let ghost all = items_view(items@);
    let ghost start = output@;
    let mut first = true;
    let mut i: usize = 0;
    assert(all.skip(0) =~= all);
    while i < items.len()
        invariant
            *matcher == spec_matcher(b.allow),
            all == items_view(items@),
            i <= items@.len(),
            output@ + explode_named_list(*b, name@, all.skip(i as int), first) == start
                + explode_named_list(*b, name@, all, true),
        decreases items@.len() - i,
    {
        let ghost before = output@;
        let ghost rest = all.skip(i as int);
        let ghost was_first = first;
        if first {
            first = false;
        } else {
            push_char(output, b.sep);
        }
        let _ = output.encode(name, &Literal::expansion());
        if is_empty(&items[i]) {
            push_opt(output, b.ifemp);
        } else {
            push_char(output, '=');
            let _ = output.encode(items[i].as_str(), matcher);
        }
        assert(rest.drop_first() =~= all.skip(i + 1));
        assert(rest[0] == string_view(items@[i as int]));
        assert(before + explode_named_list(*b, name@, rest, was_first) =~= output@
            + explode_named_list(*b, name@, all.skip(i + 1), false));
        i = i + 1;
    }
    assert(all.skip(i as int) =~= Seq::<Seq<char>>::empty());
    assert(output@ + explode_named_list(*b, name@, all.skip(i as int), first) =~= output@);
}

fn explode_unnamed_pairs_into(
    output: &mut String,
    b: &Behaviour,
    matcher: &Matcher,
    pairs: &Vec<(String, String)>,
)
    requires
        *matcher == spec_matcher(b.allow),
    ensures
        final(output)@ == old(output)@ + explode_unnamed_pairs(*b, pairs_view(pairs@), true),
{
    let ghost all = pairs_view(pairs@);
    let ghost start = output@;
    let mut first = true;
    let mut i: usize = 0;
    assert(all.skip(0) =~= all);
    while i < pairs.len()
        invariant
            *matcher == spec_matcher(b.allow),
            all == pairs_view(pairs@),
            i <= pairs@.len(),
            output@ + explode_unnamed_pairs(*b, all.skip(i as int), first) == start
                + explode_unnamed_pairs(*b, all, true),
        decreases pairs@.len() - i,
    {
        let ghost before = output@;
        let ghost rest = all.skip(i as int);
        let ghost was_first = first;
        if first {
            first = false;
        } else {
            push_char(output, b.sep);
        }
        let _ = output.encode(pairs[i].0.as_str(), matcher);
        push_char(output, '=');
        let _ = output.encode(pairs[i].1.as_str(), matcher);
        assert(rest.drop_first() =~= all.skip(i + 1));
        assert(rest[0] == pair_view(pairs@[i as int]));
        assert(before + explode_unnamed_pairs(*b, rest, was_first) =~= output@
            + explode_unnamed_pairs(*b, all.skip(i + 1), first));
        i = i + 1;
    }
    assert(all.skip(i as int) =~= Seq::<(Seq<char>, Seq<char>)>::empty());
    assert(output@ + explode_unnamed_pairs(*b, all.skip(i as int), first) =~= output@);
}

fn explode_unnamed_list_into(
    output: &mut String,
    b: &Behaviour,
    matcher: &Matcher,
    items: &Vec<String>,
)
    requires
        *matcher == spec_matcher(b.allow),
    ensures
        final(output)@ == old(output)@ + explode_unnamed_list(*b, items_view(items@), true),
{
    let ghost all = items_view(items@);
    let ghost start = output@;
    let mut first = true;
    let mut i: usize = 0;
    assert(all.skip(0) =~= all);
    while i < items.len()
        invariant
            *matcher == spec_matcher(b.allow),
            all == items_view(items@),
            i <= items@.len(),
            output@ + explode_unnamed_list(*b, all.skip(i as int), first) == start
                + explode_unnamed_list(*b, all, true),
        decreases items@.len() - i,
    {
        let ghost before = output@;
        let ghost rest = all.skip(i as int);
        let ghost was_first = first;
        if first {
            first = false;
        } else {
            push_char(output, b.sep);
        }
        let _ = output.encode(items[i].as_str(), matcher);
        assert(rest.drop_first() =~= all.skip(i + 1));
        assert(rest[0] == string_view(items@[i as int]));
        assert(before + explode_unnamed_list(*b, rest, was_first) =~= output@
            + explode_unnamed_list(*b, all.skip(i + 1), first));
        i = i + 1;
    }
    assert(all.skip(i as int) =~= Seq::<Seq<char>>::empty());
    assert(output@ + explode_unnamed_list(*b, all.skip(i as int), first) =~= output@);
}

fn joined_pairs_into(
    output: &mut String,
    b: &Behaviour,
    matcher: &Matcher,
    pairs: &Vec<(String, String)>,
)
    requires
        *matcher == spec_matcher(b.allow),
    ensures
        final(output)@ == old(output)@ + joined_pairs(*b, pairs_view(pairs@), true),
{
    let ghost all = pairs_view(pairs@);
    let ghost start = output@;
    let mut first = true;
    let mut i: usize = 0;
    assert(all.skip(0) =~= all);
    while i < pairs.len()
        invariant
            *matcher == spec_matcher(b.allow),
            all == pairs_view(pairs@),
            i <= pairs@.len(),
            output@ + joined_pairs(*b, all.skip(i as int), first) == start + joined_pairs(
                *b,
                all,
                true,
            ),
        decreases pairs@.len() - i,
    {
        let ghost before = output@;
        let ghost rest = all.skip(i as int);
        let ghost was_first = first;
        if first {
            first = false;
        } else {
            push_char(output, ',');
        }
        let _ = output.encode(pairs[i].0.as_str(), matcher);
        push_char(output, ',');
        let _ = output.encode(pairs[i].1.as_str(), matcher);
        assert(rest.drop_first() =~= all.skip(i + 1));
        assert(rest[0] == pair_view(pairs@[i as int]));
        assert(before + joined_pairs(*b, rest, was_first) =~= output@ + joined_pairs(
            *b,
            all.skip(i + 1),
            first,
        ));
        i = i + 1;
    }
    assert(all.skip(i as int) =~= Seq::<(Seq<char>, Seq<char>)>::empty());
    assert(output@ + joined_pairs(*b, all.skip(i as int), first) =~= output@);
}

fn joined_list_into(output: &mut String, b: &Behaviour, matcher: &Matcher, items: &Vec<String>)
    requires
        *matcher == spec_matcher(b.allow),
    ensures
        final(output)@ == old(output)@ + joined_list(*b, items_view(items@), true),
{
    let ghost all = items_view(items@);
    let ghost start = output@;
    let mut first = true;
    let mut i: usize = 0;
    assert(all.skip(0) =~= all);
    while i < items.len()
        invariant
            *matcher == spec_matcher(b.allow),
            all == items_view(items@),
            i <= items@.len(),
            output@ + joined_list(*b, all.skip(i as int), first) == start + joined_list(
                *b,
                all,
                true,
            ),
        decreases items@.len() - i,
    {
        let ghost before = output@;
        let ghost rest = all.skip(i as int);
        let ghost was_first = first;
        if first {
            first = false;
        } else {
            push_char(output, ',');
        }
        let _ = output.encode(items[i].as_str(), matcher);
        assert(rest.drop_first() =~= all.skip(i + 1));
        assert(rest[0] == string_view(items@[i as int]));
        assert(before + joined_list(*b, rest, was_first) =~= output@ + joined_list(
            *b,
            all.skip(i + 1),
            first,
        ));
        i = i + 1;
    }
    assert(all.skip(i as int) =~= Seq::<Seq<char>>::empty());
    assert(output@ + joined_list(*b, all.skip(i as int), first) =~= output@);
}


fn is_explode(modifier: Option<Modifier>) -> (res: bool)
    ensures
        res == (modifier matches Some(Modifier::Explode(_))),
{
    match modifier {
        Some(Modifier::Explode(_)) => true,
        _ => false,
    }
}

fn expand_value_into(
    output: &mut String,
    b: &Behaviour,
    matcher: &Matcher,
    name: &str,
    modifier: Option<Modifier>,
    value: &Value,
)
    requires
        *matcher == spec_matcher(b.allow),
    ensures
        final(output)@ == old(output)@ + expand_value(*b, name@, modifier, value@),
{
    let ghost start = output@;
    match value {
        Value::Item(item) => {
            expand_item_into(output, b, matcher, name, modifier, item);
        },
        Value::AssociativeArray(pairs) => {
            assert(value@ == ValueModel::AssociativeArray(pairs_view(pairs@)));
            if is_explode(modifier) {
                if b.named {
                    explode_named_pairs_into(output, b, matcher, pairs);
                } else {
                    explode_unnamed_pairs_into(output, b, matcher, pairs);
                }
            } else {
                if b.named {
                    let _ = output.encode(name, &Literal::expansion());
                    push_char(output, '=');
                }
                joined_pairs_into(output, b, matcher, pairs);
                assert(final(output)@ =~= start + expand_value(*b, name@, modifier, value@));
            }
        },
        Value::List(items) => {
            assert(value@ == ValueModel::List(items_view(items@)));
            if is_explode(modifier) {
                if b.named {
                    explode_named_list_into(output, b, matcher, name, items);
                } else {
                    explode_unnamed_list_into(output, b, matcher, items);
                }
            } else {
                if b.named {
                    let _ = output.encode(name, &Literal::expansion());
                    push_char(output, '=');
                }
                joined_list_into(output, b, matcher, items);
                assert(final(output)@ =~= start + expand_value(*b, name@, modifier, value@));
            }
        },
    }
}

// -----------------------------------------------------------------------------

// Expand

/// Appending the expansion of a part of a template, given the values of the
/// variables, to an output. Appending to a `String` never fails.
pub trait Expand {
    /// What the part expands to, given the values of the variables.
    spec fn spec_expand(&self, values: Map<Seq<char>, ValueModel>) -> Seq<char>;

    fn expand(&self, values: &Values, output: &mut String) -> (res: Result<(), ExpandError>)
        ensures
            res is Ok,
            final(output)@ == old(output)@ + self.spec_expand(values@),
    ;
}

impl<'t> Expand for Expression<'t> {
    open spec fn spec_expand(&self, values: Map<Seq<char>, ValueModel>) -> Seq<char> {
        spec_expand_expression(self@, values)
    }

    /// Appends the expansion of the expression (RFC 6570, section 3.2.1).
    fn expand(&self, values: &Values, output: &mut String) -> (res: Result<(), ExpandError>) {
        let behaviour = match &self.operator {
            Some(operator) => operator.behaviour(),
            None => Behaviour::default_behaviour(),
        };
        let matcher = behaviour.allow.matcher();
        let ghost b = behaviour;
        let ghost all = self@.variable_list;
        let ghost start = output@;
        let mut first = true;
        let mut i: usize = 0;
        assert(all.skip(0) =~= all);
        while i < self.variable_list.len()
            invariant
                b == spec_behaviour(self.operator),
                behaviour == b,
                matcher == spec_matcher(b.allow),
                all == self@.variable_list,
                i <= self.variable_list@.len(),
                output@ + expand_variables(b, all.skip(i as int), values@, first) == start
                    + expand_variables(b, all, values@, true),
            decreases self.variable_list@.len() - i,
        {
            let ghost before = output@;
            let ghost rest = all.skip(i as int);
            let ghost was_first = first;
            assert(rest.drop_first() =~= all.skip(i + 1));
            assert(rest[0] == variable_specification_view(self.variable_list@[i as int]));
            let (var_name, modifier) = &self.variable_list[i];
            let name = var_name.name();
            match values.get(name) {
                Some(value) => {
                    if value.defined() {
                        if first {
                            push_opt(output, behaviour.first);
                            first = false;
                        } else {
                            push_char(output, behaviour.sep);
                        }
                        expand_value_into(output, &behaviour, &matcher, name, *modifier, value);
                    }
                },
                None => {},
            }
            assert(before + expand_variables(b, rest, values@, was_first) =~= output@
                + expand_variables(b, all.skip(i + 1), values@, first));
            i = i + 1;
        }
        assert(all.skip(i as int) =~= Seq::<(Seq<char>, Option<Modifier>)>::empty());
        assert(output@ + expand_variables(b, all.skip(i as int), values@, first) =~= output@);
        Ok(())
    }
}

impl<'t> Expand for Literal<'t> {
    open spec fn spec_expand(&self, values: Map<Seq<char>, ValueModel>) -> Seq<char> {
        encode_literal(self@)
    }

    /// Appends the literal, encoded as literals are.
    fn expand(&self, values: &Values, output: &mut String) -> (res: Result<(), ExpandError>) {
        let _ = output.encode(self.value, &Literal::expansion());
        Ok(())
    }
}

impl<'t> Expand for Component<'t> {
    open spec fn spec_expand(&self, values: Map<Seq<char>, ValueModel>) -> Seq<char> {
        spec_expand_component(self@, values)
    }

    fn expand(&self, values: &Values, output: &mut String) -> (res: Result<(), ExpandError>) {
        match self {
            Component::Expression(expression) => expression.expand(values, output),
            Component::Literal(literal) => literal.expand(values, output),
        }
    }
}

/// Appends the expansions of the components of `template`, in order.
fn expand_template_into<'t>(template: &Template<'t>, values: &Values, output: &mut String)
    ensures
    final(output)@ == old(output)@ + spec_expand_template(template@, values@),
{
    let components = template.components();
    let ghost all = template@;
    let ghost start = output@;
    let mut i: usize = 0;
    assert(all.skip(0) =~= all);
    while i < components.len()
        invariant
            all == template@,
            components@.map_values(|c: Component<'t>| c@) == all,
            i <= components@.len(),
            output@ + spec_expand_template(all.skip(i as int), values@) == start
                + spec_expand_template(all, values@),
        decreases components@.len() - i,
    {
        let ghost before = output@;
        let ghost rest = all.skip(i as int);
        assert(rest.drop_first() =~= all.skip(i + 1));
        assert(rest[0] == components@[i as int]@);
        let _ = components[i].expand(values, output);
        assert(before + spec_expand_template(rest, values@) =~= output@ + spec_expand_template(
            all.skip(i + 1),
            values@,
        ));
        i = i + 1;
    }
    assert(all.skip(i as int) =~= Seq::<ComponentModel>::empty());
    assert(output@ + spec_expand_template(all.skip(i as int), values@) =~= output@);
}

impl<'t> Expand for Template<'t> {
    open spec fn spec_expand(&self, values: Map<Seq<char>, ValueModel>) -> Seq<char> {
        spec_expand_template(self@, values)
    }

    /// Appends the expansions of the components, in order.
    fn expand(&self, values: &Values, output: &mut String) -> (res: Result<(), ExpandError>) {
        expand_template_into(self, values, output);
        Ok(())
    }
}

impl<'t> Template<'t> {
    /// Expands the template with the given values (RFC 6570, section 3).
    pub fn expand(&self, values: &Values) -> (res: Result<String, ExpandError>)
        ensures
            res matches Ok(expanded) && expanded@ == spec_expand_template(self@, values@),
    {
        let mut expanded = String::new();
        expand_template_into(self, values, &mut expanded);
        assert(expanded@ =~= spec_expand_template(self@, values@));
        Ok(expanded)
    }
}


// =============================================================================
// Properties
// =============================================================================

/// The names of the variables of an expression.
pub open spec fn expression_names(expression: ExpressionModel) -> Set<Seq<char>> {
    Set::new(
        |name: Seq<char>|
            exists|j: int|
                0 <= j < expression.variable_list.len() && #[trigger] expression.variable_list[j].0
                    == name,
    )
}

/// The names of the variables of all the expressions of a template.
pub open spec fn template_names(components: Seq<ComponentModel>) -> Set<Seq<char>>
    decreases components.len(),
{
    if components.len() == 0 {
        Set::empty()
    } else {
        let first = match components[0] {
            ComponentModel::Literal(_) => Set::empty(),
            ComponentModel::Expression(expression) => expression_names(expression),
        };
        first.union(template_names(components.drop_first()))
    }
}

/// `a` and `b` give the same value, or none, to `name`.
pub open spec fn agree_on(
    a: Map<Seq<char>, ValueModel>,
    b: Map<Seq<char>, ValueModel>,
    name: Seq<char>,
) -> bool {
    &&& a.contains_key(name) == b.contains_key(name)
    &&& a.contains_key(name) ==> a[name] == b[name]
}

proof fn lemma_variables_frame(
    b: Behaviour,
    variables: Seq<(Seq<char>, Option<Modifier>)>,
    v1: Map<Seq<char>, ValueModel>,
    v2: Map<Seq<char>, ValueModel>,
    first: bool,
)
    requires
        forall|j: int| 0 <= j < variables.len() ==> agree_on(v1, v2, #[trigger] variables[j].0),
    ensures
        expand_variables(b, variables, v1, first) == expand_variables(b, variables, v2, first),
    decreases variables.len(),
{
    if variables.len() > 0 {
        let rest = variables.drop_first();
        assert(agree_on(v1, v2, variables[0].0));
        assert forall|j: int| 0 <= j < rest.len() implies agree_on(v1, v2, #[trigger] rest[j].0) by {
            assert(rest[j] == variables[j + 1]);
        }
        lemma_variables_frame(b, rest, v1, v2, false);
        lemma_variables_frame(b, rest, v1, v2, first);
    }
}

proof fn lemma_template_names(components: Seq<ComponentModel>, i: int, name: Seq<char>)
    requires
        0 <= i < components.len(),
        components[i] matches ComponentModel::Expression(expression) && expression_names(
            expression,
        ).contains(name),
    ensures
        template_names(components).contains(name),
    decreases components.len(),
{
    if i > 0 {
        assert(components.drop_first()[i - 1] == components[i]);
        lemma_template_names(components.drop_first(), i - 1, name);
    }
}

/// The expansion of a template depends only on the values of the variables
/// that its expressions name: two sets of values that give each of those
/// variables the same value (or none) expand it alike.
pub proof fn law_expansion_depends_only_on_named_variables(
    components: Seq<ComponentModel>,
    v1: Map<Seq<char>, ValueModel>,
    v2: Map<Seq<char>, ValueModel>,
)
    requires
        v1.restrict(template_names(components)) == v2.restrict(template_names(components)),
    ensures
        spec_expand_template(components, v1) == spec_expand_template(components, v2),
    decreases components.len(),
{
    let names = template_names(components);
    assert forall|name: Seq<char>| names.contains(name) implies agree_on(v1, v2, name) by {
        assert(v1.restrict(names).contains_key(name) == v1.contains_key(name));
        assert(v2.restrict(names).contains_key(name) == v2.contains_key(name));
        if v1.contains_key(name) {
            assert(v1.restrict(names)[name] == v1[name]);
            assert(v2.restrict(names)[name] == v2[name]);
        }
    }
    if components.len() > 0 {
        let rest = components.drop_first();
        let rest_names = template_names(rest);
        assert forall|name: Seq<char>| rest_names.contains(name) implies names.contains(name) by {}
        assert(v1.restrict(rest_names) =~= v2.restrict(rest_names)) by {
            assert forall|name: Seq<char>| rest_names.contains(name) implies agree_on(
                v1,
                v2,
                name,
            ) by {}
        }
        law_expansion_depends_only_on_named_variables(rest, v1, v2);
        if let ComponentModel::Expression(expression) = components[0] {
            let variables = expression.variable_list;
            assert forall|j: int| 0 <= j < variables.len() implies agree_on(
                v1,
                v2,
                #[trigger] variables[j].0,
            ) by {
                assert(expression_names(expression).contains(variables[j].0));
                lemma_template_names(components, 0, variables[j].0);
            }
            lemma_variables_frame(
                spec_behaviour(expression.operator),
                variables,
                v1,
                v2,
                true,
            );
        }
    }
}

proof fn lemma_undefined_variables(
    b: Behaviour,
    variables: Seq<(Seq<char>, Option<Modifier>)>,
    values: Map<Seq<char>, ValueModel>,
    first: bool,
)
    requires
        forall|j: int|
            0 <= j < variables.len() ==> !(values.contains_key(#[trigger] variables[j].0)
                && values[variables[j].0].defined()),
    ensures
        expand_variables(b, variables, values, first) == Seq::<char>::empty(),
    decreases variables.len(),
{
    if variables.len() > 0 {
        let rest = variables.drop_first();
        assert(!(values.contains_key(variables[0].0) && values[variables[0].0].defined()));
        assert forall|j: int|
            0 <= j < rest.len() implies !(values.contains_key(#[trigger] rest[j].0)
            && values[rest[j].0].defined()) by {
            assert(rest[j] == variables[j + 1]);
        }
        lemma_undefined_variables(b, rest, values, first);
    }
}

/// An expression none of whose variables has a defined value (no value, an
/// empty list or an empty associative array) expands to nothing, whatever
/// its operator: not even the operator's first character is written.
pub proof fn law_undefined_expression_expands_to_nothing(
    expression: ExpressionModel,
    values: Map<Seq<char>, ValueModel>,
)
    requires
        forall|j: int|
            0 <= j < expression.variable_list.len() ==> !(values.contains_key(
                #[trigger] expression.variable_list[j].0,
            ) && values[expression.variable_list[j].0].defined()),
    ensures
        spec_expand_expression(expression, values) == Seq::<char>::empty(),
{
    lemma_undefined_variables(
        spec_behaviour(expression.operator),
        expression.variable_list,
        values,
        true,
    );
}

/// A prefix modifier whose length is at least that of a string value expands
/// it as if there were no modifier.
pub proof fn law_long_prefix_keeps_whole_value(
    b: Behaviour,
    name: Seq<char>,
    prefix: Prefix,
    value: Seq<char>,
)
    requires
        value.len() <= prefix.length,
    ensures
        expand_value(b, name, Some(Modifier::Prefix(prefix)), ValueModel::Item(value))
            == expand_value(b, name, None, ValueModel::Item(value)),
{
}

/// The ASCII class of what an `Allow` keeps unencoded.
pub open spec fn allowed_class(allow: Allow) -> AsciiClass {
    match allow {
        Allow::U => AsciiClass::Unreserved,
        Allow::UR => AsciiClass::UnreservedOrReserved,
    }
}

/// Text whose characters are all allowed unencoded is kept as it is: a
/// string of unreserved characters expands unchanged everywhere, and one of
/// unreserved and reserved characters unchanged by "+" and "#".
pub proof fn law_allowed_text_is_kept(allow: Allow, s: Seq<char>)
    requires
        forall|i: int| 0 <= i < s.len() ==> spec_ascii_accepts(allowed_class(allow), #[trigger] s[i]),
    ensures
        encode_allowed(allow, s) == s,
{
    let p = ascii_pred(allowed_class(allow));
    let run = run_of(spec_matcher(allow));
    lemma_run_len_all(s, p);
    if s.len() > 0 {
        assert(s.take(s.len() as int) =~= s);
        assert(s.skip(s.len() as int) =~= Seq::<char>::empty());
        match allow {
            Allow::U => {},
            Allow::UR => {
                let pair = literal_expansion();
                let t = s.skip(s.len() as int);
                assert(triplet_run(t) == 0);
                assert(round2(pair, s, (true, true)) == (s.len(), (false, false)));
            },
        }
        assert(run(s) == s.len());
        assert(spec_encode(s.skip(s.len() as int), run) == Seq::<char>::empty());
        assert(spec_encode(s, run) =~= s + Seq::<char>::empty());
    }
}

proof fn lemma_run_len_all(s: Seq<char>, p: spec_fn(char) -> bool)
    requires
        forall|i: int| 0 <= i < s.len() ==> p(#[trigger] s[i]),
    ensures
        run_len(s, p) == s.len(),
    decreases s.len(),
{
    if s.len() > 0 {
        assert(p(s[0]));
        assert forall|i: int| 0 <= i < s.drop_first().len() implies p(#[trigger] s.drop_first()[i]) by {
            assert(s.drop_first()[i] == s[i + 1]);
        }
        lemma_run_len_all(s.drop_first(), p);
    }
}

/// Expansion goes component by component: the components of two templates,
/// one after the other, expand to the two expansions one after the other.
pub proof fn law_expansion_of_joined_components(
    first: Seq<ComponentModel>,
    second: Seq<ComponentModel>,
    values: Map<Seq<char>, ValueModel>,
)
    ensures
        spec_expand_template(first + second, values) == spec_expand_template(first, values)
            + spec_expand_template(second, values),
    decreases first.len(),
{
    if first.len() == 0 {
        assert(first + second =~= second);
    } else {
        law_expansion_of_joined_components(first.drop_first(), second, values);
        assert((first + second).drop_first() =~= first.drop_first() + second);
        assert((first + second)[0] == first[0]);
    }
}

// -----------------------------------------------------------------------------

// URI Characters

/// A character that may stand in a URI as it is: RFC 3986 unreserved or
/// reserved, or the "%" of a percent-encoded triplet. In particular no
/// control character, space, '"', "<", ">", "\", "^", "`", "{", "|" or "}".
pub open spec fn is_uri_char(c: char) -> bool {
    rfc_unreserved_char(c) || rfc_reserved_char(c) || c == '%'
}

/// Text made of URI characters only.
pub open spec fn is_uri_text(s: Seq<char>) -> bool {
    forall|i: int| 0 <= i < s.len() ==> is_uri_char(#[trigger] s[i])
}

proof fn lemma_uri_concat(a: Seq<char>, b: Seq<char>)
    requires
        is_uri_text(a),
        is_uri_text(b),
    ensures
        is_uri_text(a + b),
{
    assert forall|i: int| 0 <= i < (a + b).len() implies is_uri_char(#[trigger] (a + b)[i]) by {
        if i < a.len() {
            assert((a + b)[i] == a[i]);
        } else {
            assert((a + b)[i] == b[i - a.len()]);
        }
    }
}

proof fn lemma_hex_digit_uri(n: u8)
    requires
        n < 16,
    ensures
        is_uri_char(spec_hex_digit_upper(n)),
{
}

proof fn lemma_percent_bytes_uri(bytes: Seq<u8>)
    ensures
        is_uri_text(spec_percent_bytes(bytes)),
    decreases bytes.len(),
{
    if bytes.len() > 0 {
        let b = bytes[0];
        assert(b >> 4 < 16) by (bit_vector);
        assert(b & 0x0f < 16) by (bit_vector);
        lemma_hex_digit_uri(b >> 4);
        lemma_hex_digit_uri(b & 0x0f);
        let triplet = spec_percent_triplet(b);
        assert(is_uri_text(triplet)) by {
            assert forall|i: int| 0 <= i < triplet.len() implies is_uri_char(#[trigger] triplet[i]) by {
                if i == 0 {
                    assert(triplet[0] == '%');
                }
            }
        }
        lemma_percent_bytes_uri(bytes.drop_first());
        lemma_uri_concat(triplet, spec_percent_bytes(bytes.drop_first()));
    }
}

/// The first `n` characters of `s` are URI characters.
pub open spec fn uri_prefix(s: Seq<char>, n: nat) -> bool {
    forall|i: int| 0 <= i < n && i < s.len() ==> is_uri_char(#[trigger] s[i])
}

broadcast proof fn lemma_uri_concat_auto(a: Seq<char>, b: Seq<char>)
    requires
        is_uri_text(a),
        is_uri_text(b),
    ensures
        #[trigger] is_uri_text(a + b),
{
    lemma_uri_concat(a, b);
}

proof fn lemma_triplet_run_uri(s: Seq<char>)
    ensures
        uri_prefix(s, triplet_run(s)),
    decreases s.len(),
{
    if starts_with_triplet(s) {
        lemma_triplet_run_uri(s.skip(3));
        assert forall|i: int| 0 <= i < triplet_run(s) && i < s.len() implies is_uri_char(
            #[trigger] s[i],
        ) by {
            if i >= 3 {
                assert(s[i] == s.skip(3)[i - 3]);
            }
        }
    }
}

proof fn lemma_pair_rounds_uri(s: Seq<char>, live: (bool, bool))
    ensures
        uri_prefix(s, rounds2(literal_expansion(), s, live)),
    decreases s.len(),
{
    if s.len() > 0 {
        let pair = literal_expansion();
        let p = ascii_pred(AsciiClass::UnreservedOrReserved);
        lemma_run_len(s, p);
        let n0 = if live.0 && run_len(s, p) <= s.len() {
            run_len(s, p)
        } else {
            0
        };
        let t = s.skip(n0 as int);
        lemma_triplet_run(t);
        lemma_triplet_run_uri(t);
        let n1 = if (live.1 || n0 > 0) && triplet_run(t) <= t.len() {
            triplet_run(t)
        } else {
            0
        };
        let (k, next) = round2(pair, s, live);
        assert(k == n0 + n1);
        assert forall|i: int| 0 <= i < k && i < s.len() implies is_uri_char(#[trigger] s[i]) by {
            if i < n0 {
                assert(p(s[i]));
                law_unreserved_or_reserved_class(s[i]);
            } else {
                assert(s[i] == t[i - n0]);
            }
        }
        if (next.0 || next.1) && 0 < k <= s.len() {
            let u = s.skip(k as int);
            lemma_pair_rounds_uri(u, next);
            let r = rounds2(pair, u, next);
            assert forall|i: int| 0 <= i < k + r && i < s.len() implies is_uri_char(#[trigger] s[i]) by {
                if i >= k {
                    assert(s[i] == u[i - k]);
                }
            }
        }
    }
}

proof fn lemma_encode_uri(s: Seq<char>, run: spec_fn(Seq<char>) -> nat)
    requires
        forall|t: Seq<char>| uri_prefix(t, #[trigger] run(t)),
    ensures
        is_uri_text(spec_encode(s, run)),
    decreases s.len(),
{
    broadcast use lemma_uri_concat_auto;

    if s.len() > 0 {
        let n = run(s);
        assert(uri_prefix(s, n));
        if 0 < n <= s.len() {
            lemma_encode_uri(s.skip(n as int), run);
            assert(is_uri_text(s.take(n as int))) by {
                assert forall|i: int| 0 <= i < n implies is_uri_char(#[trigger] s.take(n as int)[i]) by {
                    assert(s.take(n as int)[i] == s[i]);
                }
            }
        } else {
            lemma_encode_uri(s.drop_first(), run);
            lemma_percent_bytes_uri(encode_scalar(s[0] as u32));
        }
    }
}

proof fn lemma_encode_allowed_uri(allow: Allow, s: Seq<char>)
    ensures
        is_uri_text(encode_allowed(allow, s)),
{
    let run = run_of(spec_matcher(allow));
    assert forall|t: Seq<char>| uri_prefix(t, #[trigger] run(t)) by {
        match allow {
            Allow::U => {
                let p = ascii_pred(AsciiClass::Unreserved);
                lemma_run_len(t, p);
                assert forall|i: int| 0 <= i < run(t) && i < t.len() implies is_uri_char(
                    #[trigger] t[i],
                ) by {
                    assert(p(t[i]));
                    law_unreserved_class(t[i]);
                }
            },
            Allow::UR => {
                lemma_pair_rounds_uri(t, (true, true));
            },
        }
    }
    lemma_encode_uri(s, run);
}

proof fn lemma_encode_literal_uri(s: Seq<char>)
    ensures
        is_uri_text(encode_literal(s)),
{
    let run = run_of(literal_expansion());
    assert forall|t: Seq<char>| uri_prefix(t, #[trigger] run(t)) by {
        lemma_pair_rounds_uri(t, (true, true));
    }
    lemma_encode_uri(s, run);
}

/// The characters that a behaviour writes by itself are URI characters.
pub open spec fn uri_behaviour(b: Behaviour) -> bool {
    &&& is_uri_text(seq![b.sep])
    &&& is_uri_text(opt_seq(b.first))
    &&& is_uri_text(opt_seq(b.ifemp))
}

proof fn lemma_behaviour_uri(operator: Option<Operator>)
    ensures
        uri_behaviour(spec_behaviour(operator)),
{
    let b = spec_behaviour(operator);
    assert(is_uri_char(b.sep));
    assert(is_uri_char('#') && is_uri_char('?') && is_uri_char('&') && is_uri_char('='));
    assert(is_uri_text(seq![b.sep]));
    assert(is_uri_text(opt_seq(b.first)));
    assert(is_uri_text(opt_seq(b.ifemp)));
}

proof fn lemma_fixed_uri()
    ensures
        is_uri_text(seq!['=']),
        is_uri_text(seq![',']),
        is_uri_text(Seq::<char>::empty()),
{
    assert(is_uri_char('='));
    assert(is_uri_char(','));
}

proof fn lemma_item_uri(b: Behaviour, name: Seq<char>, modifier: Option<Modifier>, value: Seq<char>)
    requires
        uri_behaviour(b),
    ensures
        is_uri_text(expand_item(b, name, modifier, value)),
{
    broadcast use lemma_uri_concat_auto;

    lemma_fixed_uri();
    lemma_encode_literal_uri(name);
    lemma_encode_allowed_uri(b.allow, shown_item(modifier, value));
}

proof fn lemma_named_pairs_uri(b: Behaviour, pairs: Seq<(Seq<char>, Seq<char>)>, first: bool)
    requires
        uri_behaviour(b),
    ensures
        is_uri_text(explode_named_pairs(b, pairs, first)),
    decreases pairs.len(),
{
    broadcast use lemma_uri_concat_auto;

    if pairs.len() > 0 {
        let (name, value) = pairs[0];
        lemma_fixed_uri();
        lemma_encode_literal_uri(name);
        lemma_encode_allowed_uri(b.allow, value);
        lemma_named_pairs_uri(b, pairs.drop_first(), false);
    }
}

proof fn lemma_named_list_uri(b: Behaviour, name: Seq<char>, items: Seq<Seq<char>>, first: bool)
    requires
        uri_behaviour(b),
    ensures
        is_uri_text(explode_named_list(b, name, items, first)),
    decreases items.len(),
{
    broadcast use lemma_uri_concat_auto;

    if items.len() > 0 {
        lemma_fixed_uri();
        lemma_encode_literal_uri(name);
        lemma_encode_allowed_uri(b.allow, items[0]);
        lemma_named_list_uri(b, name, items.drop_first(), false);
    }
}

proof fn lemma_unnamed_pairs_uri(b: Behaviour, pairs: Seq<(Seq<char>, Seq<char>)>, first: bool)
    requires
        uri_behaviour(b),
    ensures
        is_uri_text(explode_unnamed_pairs(b, pairs, first)),
    decreases pairs.len(),
{
    broadcast use lemma_uri_concat_auto;

    if pairs.len() > 0 {
        let (name, value) = pairs[0];
        lemma_fixed_uri();
        lemma_encode_allowed_uri(b.allow, name);
        lemma_encode_allowed_uri(b.allow, value);
        lemma_unnamed_pairs_uri(b, pairs.drop_first(), false);
    }
}

proof fn lemma_unnamed_list_uri(b: Behaviour, items: Seq<Seq<char>>, first: bool)
    requires
        uri_behaviour(b),
    ensures
        is_uri_text(explode_unnamed_list(b, items, first)),
    decreases items.len(),
{
    broadcast use lemma_uri_concat_auto;

    if items.len() > 0 {
        lemma_fixed_uri();
        lemma_encode_allowed_uri(b.allow, items[0]);
        lemma_unnamed_list_uri(b, items.drop_first(), false);
    }
}

proof fn lemma_joined_pairs_uri(b: Behaviour, pairs: Seq<(Seq<char>, Seq<char>)>, first: bool)
    requires
        uri_behaviour(b),
    ensures
        is_uri_text(joined_pairs(b, pairs, first)),
    decreases pairs.len(),
{
    broadcast use lemma_uri_concat_auto;

    if pairs.len() > 0 {
        let (name, value) = pairs[0];
        lemma_fixed_uri();
        lemma_encode_allowed_uri(b.allow, name);
        lemma_encode_allowed_uri(b.allow, value);
        lemma_joined_pairs_uri(b, pairs.drop_first(), false);
    }
}

proof fn lemma_joined_list_uri(b: Behaviour, items: Seq<Seq<char>>, first: bool)
    requires
        uri_behaviour(b),
    ensures
        is_uri_text(joined_list(b, items, first)),
    decreases items.len(),
{
    broadcast use lemma_uri_concat_auto;

    if items.len() > 0 {
        lemma_fixed_uri();
        lemma_encode_allowed_uri(b.allow, items[0]);
        lemma_joined_list_uri(b, items.drop_first(), false);
    }
}

proof fn lemma_value_uri(b: Behaviour, name: Seq<char>, modifier: Option<Modifier>, value: ValueModel)
    requires
        uri_behaviour(b),
    ensures
        is_uri_text(expand_value(b, name, modifier, value)),
{
    broadcast use lemma_uri_concat_auto;

    lemma_fixed_uri();
    lemma_encode_literal_uri(name);
    match value {
        ValueModel::Item(item) => lemma_item_uri(b, name, modifier, item),
        ValueModel::AssociativeArray(pairs) => {
            lemma_named_pairs_uri(b, pairs, true);
            lemma_unnamed_pairs_uri(b, pairs, true);
            lemma_joined_pairs_uri(b, pairs, true);
        },
        ValueModel::List(items) => {
            lemma_named_list_uri(b, name, items, true);
            lemma_unnamed_list_uri(b, items, true);
            lemma_joined_list_uri(b, items, true);
        },
    }
}

proof fn lemma_variables_uri(
    b: Behaviour,
    variables: Seq<(Seq<char>, Option<Modifier>)>,
    values: Map<Seq<char>, ValueModel>,
    first: bool,
)
    requires
        uri_behaviour(b),
    ensures
        is_uri_text(expand_variables(b, variables, values, first)),
    decreases variables.len(),
{
    broadcast use lemma_uri_concat_auto;

    if variables.len() > 0 {
        let (name, modifier) = variables[0];
        if values.contains_key(name) {
            lemma_value_uri(b, name, modifier, values[name]);
        }
        lemma_variables_uri(b, variables.drop_first(), values, false);
        lemma_variables_uri(b, variables.drop_first(), values, first);
    }
}

/// Every expansion is made of URI characters only: unreserved and reserved
/// characters as they are, and everything else percent-encoded.
pub proof fn law_expansion_is_uri_text(
    components: Seq<ComponentModel>,
    values: Map<Seq<char>, ValueModel>,
)
    ensures
        is_uri_text(spec_expand_template(components, values)),
    decreases components.len(),
{
    broadcast use lemma_uri_concat_auto;

    lemma_fixed_uri();
    if components.len() > 0 {
        match components[0] {
            ComponentModel::Literal(text) => lemma_encode_literal_uri(text),
            ComponentModel::Expression(expression) => {
                lemma_behaviour_uri(expression.operator);
                lemma_variables_uri(
                    spec_behaviour(expression.operator),
                    expression.variable_list,
                    values,
                    true,
                );
            },
        }
        law_expansion_is_uri_text(components.drop_first(), values);
    }
}

} // verus!
