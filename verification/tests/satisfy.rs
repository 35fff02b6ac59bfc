use uri_template_system_core::{
    is_general_delimiter_ascii,
    is_reserved_ascii,
    is_sub_delimiter_ascii,
    is_unreserved_ascii,
    string::satisfy::{
        unreserved,
        unreserved_or_reserved,
        Ascii,
        AsciiClass,
        PercentEncoded,
        Satisfy,
        Unicode,
        UnicodeClass,
    },
    string::Encode,
    template::expand::{
        Allow,
        Behaviour,
    },
    template::{
        OpLevel2,
        OpLevel3,
        Operator,
        VariableName,
    },
    Literal,
};

fn chars(s: &str) -> Vec<char> {
    s.chars().collect()
}

#[test]
fn character_classes() {
    for b in b"azAZ09-._~" {
        assert!(is_unreserved_ascii(*b));
        assert!(!is_reserved_ascii(*b));
    }
    for b in b":/?#[]@" {
        assert!(is_general_delimiter_ascii(*b));
        assert!(is_reserved_ascii(*b));
        assert!(!is_unreserved_ascii(*b));
    }
    for b in b"!$&'()*+,;=" {
        assert!(is_sub_delimiter_ascii(*b));
        assert!(is_reserved_ascii(*b));
    }
    for b in b" \"%<>\\^`{|}" {
        assert!(!is_reserved_ascii(*b));
        assert!(!is_unreserved_ascii(*b));
    }
}

#[test]
fn ascii_satisfier() {
    assert_eq!(unreserved().satisfy("abc-._~!x"), 7);
    assert_eq!(unreserved().satisfy("!abc"), 0);
    assert_eq!(unreserved().satisfy(""), 0);
    assert_eq!(Ascii::new(AsciiClass::VariableCharacter).satisfy("a_1-b"), 3);
    assert_eq!(Ascii::new(AsciiClass::Literal).satisfy("a'b c"), 3);
}

#[test]
fn percent_encoded_satisfier() {
    assert_eq!(PercentEncoded.satisfy("%20%2b%zz"), 6);
    assert_eq!(PercentEncoded.satisfy("%2"), 0);
    assert_eq!(PercentEncoded.satisfy("a%20"), 0);
}

#[test]
fn unicode_satisfier() {
    // "é" and "ü" take two bytes each, "€" three.
    assert_eq!(Unicode::new(UnicodeClass::Literal).satisfy("éü€a"), 7);
    assert_eq!(Unicode::new(UnicodeClass::Literal).satisfy_chars(&chars("éü€a")), 3);
    assert_eq!(Unicode::new(UnicodeClass::Literal).satisfy("\u{9f}"), 0);
}

#[test]
fn pair_satisfier() {
    assert_eq!(unreserved_or_reserved().satisfy("a/b%20c d"), 7);
    assert_eq!(unreserved_or_reserved().satisfy("%20%41/x%zz"), 8);
    assert_eq!(VariableName::parse().satisfy("a%2b.c"), 4);
}

#[test]
fn triple_satisfier_alternates_to_the_end() {
    // Each of the three satisfiers is tried again after another one accepted
    // something, up to the end of the literal text.
    assert_eq!(Literal::parse().satisfy("hello%20world"), 13);
    assert_eq!(Literal::parse().satisfy("é%20a%41ü b"), 11);
    assert_eq!(Literal::parse().satisfy_chars(&chars("é%20a%41ü b")), 9);
    assert_eq!(Literal::parse().satisfy("{x}"), 0);
    assert_eq!(Literal::expansion().satisfy("a%41/é"), 5);
    assert_eq!(Literal::expansion().satisfy_chars(&chars("a%41/é")), 5);
}

#[test]
fn string_encoding_with_satisfiers() {
    let mut output = String::new();
    assert!(output.encode("a b/%41", &unreserved()).is_ok());
    assert_eq!(output, "a%20b%2F%2541");
    let mut output = String::new();
    assert!(output.encode("a b/%41", &unreserved_or_reserved()).is_ok());
    assert_eq!(output, "a%20b/%41");
}

#[test]
fn behaviours() {
    let default = Behaviour::default_behaviour();
    assert_eq!(default.first, None);
    assert_eq!(default.sep, ',');
    assert!(!default.named);
    assert_eq!(default.allow, Allow::U);
    let query = Operator::Level3(OpLevel3::Query).behaviour();
    assert_eq!(query.first, Some('?'));
    assert_eq!(query.sep, '&');
    assert!(query.named);
    assert_eq!(query.ifemp, Some('='));
    let fragment = Operator::Level2(OpLevel2::Fragment).behaviour();
    assert_eq!(fragment.first, Some('#'));
    assert_eq!(fragment.allow, Allow::UR);
    assert_eq!(Allow::U.matcher().satisfy("ab/"), 2);
    assert_eq!(Allow::UR.matcher().satisfy("ab/%20 "), 6);
}
