use uri_template_system_core::{
    template::{
        Explode,
        OpLevel2,
        OpLevel3,
        Operator,
        Prefix,
        VariableName,
    },
    Component,
    Expression,
    Literal,
    Modifier,
    Parse,
    ParseError,
    Template,
    TryParse,
};

// Literal

#[test]
fn literal_ok() {
    [
        ("valid", "", "valid"),
        ("valid invalid", " invalid", "valid"),
        ("valid%2b invalid", " invalid", "valid%2b"),
        ("valid%2k invalid", "%2k invalid", "valid"),
        ("%2bvalid invalid", " invalid", "%2bvalid"),
        ("'", "", "'"),
    ]
    .into_iter()
    .enumerate()
    .for_each(|(i, (input, rest, ok))| {
        let (n, literal) = Literal::try_parse(input, 0).unwrap();
        assert_eq!((&input[n..], literal), (rest, Literal::new(ok)), "Test Case {i}");
    });
}

// Variable Names

#[test]
fn variable_name_parses() {
    [
        ("a", "", "a"),
        ("3", "", "3"),
        ("ab", "", "ab"),
        ("a_b", "", "a_b"),
        ("%2b", "", "%2b"),
        ("a_b.c", "", "a_b.c"),
        ("a%2b.c", "", "a%2b.c"),
        ("a%2b.c!", "!", "a%2b.c"),
        ("a}", "}", "a"),
    ]
    .into_iter()
    .enumerate()
    .for_each(|(i, (input, rest, result))| {
        let (n, name) = VariableName::try_parse(input, 0).unwrap();
        assert_eq!((&input[n..], name), (rest, VariableName::new(result)), "Test Case {i}");
    });
}

#[test]
fn variable_name_with_dangling_dot_fails() {
    // A dot that no variable character follows fails after the dot.
    [("a.", 2), ("a..b", 2), ("ab.}", 3), ("a.b.", 4)]
        .into_iter()
        .enumerate()
        .for_each(|(i, (input, position))| {
            let (at, message) = error_position(VariableName::try_parse(input, 0));
            assert_eq!(at, position, "Test Case {i}");
            assert_eq!(message, "unexpected input when parsing variable name", "Test Case {i}");
        });
    let (position, _, _) = failure(Template::parse("{a.}"));
    assert_eq!(position, 3);
}

// Modifiers

#[test]
fn modifier_parses() {
    [
        ("*", "", Some(Modifier::Explode(Explode::new()))),
        (":42", "", Some(Modifier::Prefix(Prefix::new(42)))),
        (":1234}", "}", Some(Modifier::Prefix(Prefix::new(1234)))),
        (":9999", "", Some(Modifier::Prefix(Prefix::new(9999)))),
        ("}", "}", None),
        ("", "", None),
    ]
    .into_iter()
    .enumerate()
    .for_each(|(i, (input, rest, result))| {
        let (n, modifier) = <Option<Modifier>>::try_parse(input, 0).unwrap();
        assert_eq!((&input[n..], modifier), (rest, result), "Test Case {i}");
    });
}

#[test]
fn modifier_out_of_range_fails() {
    // A fifth digit is out of range (prefix lengths are 1 to 9999).
    [(":10000", 5), (":12345", 5), (":999999}", 5)]
        .into_iter()
        .enumerate()
        .for_each(|(i, (input, position))| {
            let (at, message) = error_position(<Option<Modifier>>::try_parse(input, 0));
            assert_eq!(at, position, "Test Case {i}");
            assert_eq!(
                message,
                "unexpected input while parsing prefix modifier - out of range",
                "Test Case {i}"
            );
        });
}

// Expressions

#[test]
fn expression_ok() {
    [("{valid}", "", vec![("valid", None)], None)]
        .into_iter()
        .enumerate()
        .for_each(|(i, (input, rest, varspecs, operator))| {
            let (n, expression) = Expression::try_parse(input, 0).unwrap();
            assert_eq!(
                (&input[n..], expression),
                (
                    rest,
                    Expression::new(
                        operator,
                        varspecs
                            .into_iter()
                            .map(|(name, modifier)| (VariableName::new(name), modifier))
                            .collect(),
                    )
                ),
                "Test Case {i}"
            );
        });
}

fn failure(result: Result<Template<'_>, ParseError>) -> (usize, String, String) {
    match result {
        Ok(_) => panic!("the template parsed"),
        Err(ParseError::UnexpectedInput {
            position,
            message,
            expected,
        }) => (position, message, expected),
    }
}

#[test]
fn literal_failure_position() {
    let (position, message, expected) = failure(Template::parse("a b"));
    assert_eq!(position, 1);
    assert_eq!(message, "unexpected input when parsing literal component");
    assert_eq!(
        expected,
        "literal character(s) (see: https://datatracker.ietf.org/doc/html/rfc6570#section-2.1)"
    );
}

#[test]
fn variable_name_failure_position() {
    let (position, message, expected) = failure(Template::parse("x{"));
    assert_eq!(position, 2);
    assert_eq!(message, "unexpected input when parsing variable name");
    assert_eq!(
        expected,
        "variable name character(s) (see: https://datatracker.ietf.org/doc/html/rfc6570#section-2.3)"
    );
    let (position, _, _) = failure(Template::parse("{a,}"));
    assert_eq!(position, 3);
    let (position, _, _) = failure(Template::parse("{.a}{$}"));
    assert_eq!(position, 5);
}

#[test]
fn closing_brace_failure_position() {
    let (position, message, expected) = failure(Template::parse("{a"));
    assert_eq!(position, 2);
    assert_eq!(message, "unexpected input when parsing expression component");
    assert_eq!(expected, "closing brace ('}')");
    let (position, _, _) = failure(Template::parse("{a b}"));
    assert_eq!(position, 2);
}

#[test]
fn prefix_out_of_range_failure() {
    let (position, message, expected) = failure(Template::parse("{a:10000}"));
    assert_eq!(position, 7);
    assert_eq!(message, "unexpected input while parsing prefix modifier - out of range");
    assert_eq!(
        expected,
        "positive integer < 10000 (see: https://datatracker.ietf.org/doc/html/rfc6570#section-2.4.1)"
    );
    match <(VariableName<'_>, Option<Modifier>)>::try_parse("a:99999", 0) {
        Err(ParseError::UnexpectedInput { position, .. }) => assert_eq!(position, 6),
        Ok(_) => panic!("an out-of-range prefix parsed"),
    }
    // Four digits are in range.
    assert!(Template::parse("{a:9999}").is_ok());
}

#[test]
fn prefix_failure_position() {
    let (position, message, expected) = failure(Template::parse("{a:0}"));
    assert_eq!(position, 3);
    assert_eq!(
        message,
        "unexpected input while parsing prefix modifier - invalid character"
    );
    assert_eq!(
        expected,
        "leading integer 1-9 (see: https://datatracker.ietf.org/doc/html/rfc6570#section-2.4.1)"
    );
    let (position, _, _) = failure(Template::parse("{a:x42}"));
    assert_eq!(position, 3);
}

#[test]
fn opening_brace_failure() {
    match Expression::try_parse("valid", 0) {
        Err(ParseError::UnexpectedInput {
            position, expected, ..
        }) => {
            assert_eq!(position, 0);
            assert_eq!(expected, "opening brace ('{')");
        }
        Ok(_) => panic!("an expression parsed"),
    }
}

#[test]
fn failure_position_counts_bytes() {
    // "é" takes two bytes.
    let (position, _, _) = failure(Template::parse("é{"));
    assert_eq!(position, 3);
    let (position, _, _) = failure(Template::parse("é é"));
    assert_eq!(position, 2);
}

#[test]
fn failure_position_counts_from_global() {
    match Literal::try_parse(" x", 10) {
        Err(ParseError::UnexpectedInput { position, .. }) => assert_eq!(position, 10),
        Ok(_) => panic!("a literal parsed"),
    }
}

#[test]
fn template_components() {
    let template = Template::parse("a{b}c{+d,e:12}{#f*}").unwrap();
    let components = template.components();
    assert_eq!(components.len(), 5);
    assert_eq!(components[0], Component::Literal(Literal::new("a")));
    assert_eq!(
        components[1],
        Component::Expression(Expression::new(None, vec![(VariableName::new("b"), None)]))
    );
    assert_eq!(components[2], Component::Literal(Literal::new("c")));
    assert_eq!(
        components[3],
        Component::Expression(Expression::new(
            Some(Operator::Level2(OpLevel2::Reserved)),
            vec![
                (VariableName::new("d"), None),
                (VariableName::new("e"), Some(Modifier::Prefix(Prefix::new(12)))),
            ]
        ))
    );
    assert_eq!(
        components[4],
        Component::Expression(Expression::new(
            Some(Operator::Level2(OpLevel2::Fragment)),
            vec![(VariableName::new("f"), Some(Modifier::Explode(Explode::new())))]
        ))
    );
}

#[test]
fn every_operator_parses() {
    [
        ("+", Some(Operator::Level2(OpLevel2::Reserved))),
        ("#", Some(Operator::Level2(OpLevel2::Fragment))),
        (".", Some(Operator::Level3(OpLevel3::Label))),
        ("/", Some(Operator::Level3(OpLevel3::Path))),
        (";", Some(Operator::Level3(OpLevel3::PathParameter))),
        ("?", Some(Operator::Level3(OpLevel3::Query))),
        ("&", Some(Operator::Level3(OpLevel3::QueryContinuation))),
        ("a", None),
        ("", None),
    ]
    .into_iter()
    .for_each(|(input, operator)| {
        let (n, parsed) = <Option<Operator>>::parse(input, 0);
        assert_eq!(parsed, operator, "{input}");
        assert_eq!(n, if operator.is_some() { 1 } else { 0 });
    });
}

#[test]
fn empty_template_has_no_components() {
    assert_eq!(Template::parse("").unwrap().components().len(), 0);
}

#[test]
fn parsed_literals_are_maximal() {
    // Literal text, percent-encoded triplets and non-ASCII text make one literal.
    let template = Template::parse("hello%20world/é/'x'").unwrap();
    assert_eq!(
        template.components(),
        &vec![Component::Literal(Literal::new("hello%20world/é/'x'"))]
    );
}

#[test]
fn parsed_variable_list_and_names() {
    let (n, list) = <Vec<(VariableName<'_>, Option<Modifier>)>>::try_parse("a.b,c:9}", 0).unwrap();
    assert_eq!(n, 7);
    assert_eq!(list.len(), 2);
    assert_eq!(list[0].0.name(), "a.b");
    assert_eq!(list[1], (VariableName::new("c"), Some(Modifier::Prefix(Prefix::new(9)))));
    assert_eq!(list[1].1.unwrap(), Modifier::Prefix(Prefix::new(9)));
    if let Some(Modifier::Prefix(prefix)) = list[1].1 {
        assert_eq!(prefix.length(), 9);
    }
}

#[test]
fn parsed_variable_specification() {
    let (n, spec) = <(VariableName<'_>, Option<Modifier>)>::try_parse("ab*,c", 0).unwrap();
    assert_eq!(n, 3);
    assert_eq!(spec, (VariableName::new("ab"), Some(Modifier::Explode(Explode::new()))));
}

fn operator_text(operator: Option<Operator>) -> &'static str {
    match operator {
        None => "",
        Some(Operator::Level2(OpLevel2::Reserved)) => "+",
        Some(Operator::Level2(OpLevel2::Fragment)) => "#",
        Some(Operator::Level3(OpLevel3::Label)) => ".",
        Some(Operator::Level3(OpLevel3::Path)) => "/",
        Some(Operator::Level3(OpLevel3::PathParameter)) => ";",
        Some(Operator::Level3(OpLevel3::Query)) => "?",
        Some(Operator::Level3(OpLevel3::QueryContinuation)) => "&",
    }
}

fn write_back(template: &Template<'_>) -> String {
    let mut text = String::new();
    for component in template.components() {
        match component {
            Component::Literal(literal) => text.push_str(literal.value),
            Component::Expression(expression) => {
                text.push('{');
                text.push_str(operator_text(expression.operator));
                for (i, (name, modifier)) in expression.variable_list.iter().enumerate() {
                    if i > 0 {
                        text.push(',');
                    }
                    text.push_str(name.name());
                    match modifier {
                        None => {}
                        Some(Modifier::Explode(_)) => text.push('*'),
                        Some(Modifier::Prefix(prefix)) => {
                            text.push_str(&format!(":{}", prefix.length()));
                        }
                    }
                }
                text.push('}');
            }
        }
    }
    text
}

#[test]
fn parsed_template_writes_back() {
    for input in [
        "",
        "plain",
        "{a}",
        "x{+a,b*,c:9999}y{#d}z{.e:1}{/f*}{;g}{?h,i}{&j}",
        "%2bé{a.b%2c.d:12}'",
    ] {
        let template = Template::parse(input).unwrap();
        assert_eq!(write_back(&template), input);
    }
}

#[test]
fn parsed_templates_are_well_formed() {
    for input in ["a{b}c{d}{e}f", "{x,y:3}", "%20é{z*}"] {
        let template = Template::parse(input).unwrap();
        let components = template.components();
        for (i, component) in components.iter().enumerate() {
            match component {
                Component::Literal(literal) => {
                    assert!(!literal.value.is_empty());
                    if let Some(Component::Literal(_)) = components.get(i + 1) {
                        panic!("two literals in a row in {input}");
                    }
                }
                Component::Expression(expression) => {
                    assert!(!expression.variable_list.is_empty());
                    for (name, modifier) in &expression.variable_list {
                        assert!(!name.name().is_empty());
                        if let Some(Modifier::Prefix(prefix)) = modifier {
                            assert!(1 <= prefix.length() && prefix.length() <= 9999);
                        }
                    }
                }
            }
        }
    }
}

#[test]
fn parse_failure_within_input() {
    for input in ["{", "a{b", "é{é}", "{a:}", "x y", "{a,"] {
        match Template::parse(input) {
            Err(ParseError::UnexpectedInput { position, .. }) => {
                assert!(position <= input.len(), "{input}");
            }
            Ok(_) => panic!("{input} parsed"),
        }
    }
}

#[test]
fn literal_unicode_ranges() {
    // ucschar starts its last plane range at U+E1000 (RFC 6570, section 1.5).
    assert!(Template::parse("\u{E0000}").is_err());
    assert!(Template::parse("\u{E0FFF}").is_err());
    assert!(Template::parse("\u{E1000}").is_ok());
    assert!(Template::parse("\u{EFFFD}").is_ok());
    assert!(Template::parse("\u{E000}\u{F8FF}\u{F0000}\u{10FFFD}").is_ok());
    assert!(Template::parse("\u{FFFE}").is_err());
}

fn error_position<T>(result: Result<(usize, T), ParseError>) -> (usize, String) {
    match result {
        Ok(_) => panic!("the input parsed"),
        Err(ParseError::UnexpectedInput {
            position, message, ..
        }) => (position, message),
    }
}

// The errors below point at the position of the unexpected input, counted in
// bytes from the start of the parsed text.

#[test]
fn variable_name_errors() {
    [(".", "."), (".a", ".a"), ("$2b", "$2b"), ("/", "/"), ("", ""), ("%2", "%2"), ("ä", "ä")]
        .into_iter()
        .enumerate()
        .for_each(|(i, (input, rest))| {
            let (position, message) = error_position(VariableName::try_parse(input, 0));
            assert_eq!(&input[position..], rest, "Test Case {i}");
            assert_eq!(message, "unexpected input when parsing variable name", "Test Case {i}");
        });
}

#[test]
fn modifier_errors() {
    // The leading digit after ":" is the unexpected input.
    [(":042", "042"), (":x42", "x42"), (":", ""), (":0", "0")]
        .into_iter()
        .enumerate()
        .for_each(|(i, (input, rest))| {
            let (position, message) = error_position(<Option<Modifier>>::try_parse(input, 0));
            assert_eq!(&input[position..], rest, "Test Case {i}");
            assert_eq!(
                message,
                "unexpected input while parsing prefix modifier - invalid character",
                "Test Case {i}"
            );
        });
}

#[test]
fn literal_errors() {
    // A literal that cannot start is reported where it would start.
    [(" invalid", " invalid"), ("|invalid", "|invalid"), ("%2ketc", "%2ketc")]
        .into_iter()
        .enumerate()
        .for_each(|(i, (input, rest))| {
            let (position, message) = error_position(Literal::try_parse(input, 0));
            assert_eq!(&input[position..], rest, "Test Case {i}");
            assert_eq!(
                message,
                "unexpected input when parsing literal component",
                "Test Case {i}"
            );
        });
}
