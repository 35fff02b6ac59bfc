use uri_template_system_core::{
    codec::{
        Encode,
        Encoding,
    },
    string::satisfy::AsciiClass,
    Template,
    Value,
    Values,
};

fn encode(input: &str, encoding: &Encoding) -> String {
    let mut output = String::new();
    output.push_str_encode(input, encoding);
    output
}

#[test]
fn unreserved_encoding() {
    let encoding = Encoding::unreserved();
    assert!(!encoding.allow_encoded);
    assert_eq!(encoding.allow, AsciiClass::Unreserved);
    assert_eq!(encode("a b%20", &encoding), "a%20b%2520");
    assert_eq!(encode("AZaz09-._~", &encoding), "AZaz09-._~");
    assert_eq!(encode("/?é", &encoding), "%2F%3F%C3%A9");
    assert_eq!(encode("", &encoding), "");
}

#[test]
fn reserved_encoding() {
    let encoding = Encoding::reserved();
    assert!(encoding.allow_encoded);
    assert_eq!(encoding.allow, AsciiClass::UnreservedOrReserved);
    assert_eq!(encode("a b%20/%zz%", &encoding), "a%20b%20/%25zz%25");
    assert_eq!(encode("%4%41", &encoding), "%254%41");
    assert_eq!(encode("%%41%", &encoding), "%25%41%25");
    assert_eq!(encode("%a", &encoding), "%25a");
    assert_eq!(encode("%aB", &encoding), "%aB");
    assert_eq!(encode("€", &encoding), "%E2%82%AC");
}

#[test]
fn single_characters() {
    let mut output = String::from(">");
    output.push_encode('a', &Encoding::unreserved());
    output.push_encode('%', &Encoding::reserved());
    output.push_encode('/', &Encoding::reserved());
    output.push_encode('/', &Encoding::unreserved());
    assert_eq!(output, ">a%25/%2F");
}

#[test]
fn custom_encoding() {
    let encoding = Encoding {
        allow_encoded: true,
        allow: AsciiClass::VariableCharacter,
    };
    assert_eq!(encode("a_b.c%2Fd", &encoding), "a_b%2Ec%2Fd");
}

#[test]
fn encoders_agree() {
    let inputs = ["a b%20/%zz%", "%4%41", "Hello World!", "50%", "/foo/bar", "é%e9", ""];
    for input in inputs {
        let values = Values::default().add("x", Value::item(input));
        let simple = Template::parse("{x}").unwrap().expand(&values).unwrap();
        let reserved = Template::parse("{+x}").unwrap().expand(&values).unwrap();
        assert_eq!(encode(input, &Encoding::unreserved()), simple, "{input}");
        assert_eq!(encode(input, &Encoding::reserved()), reserved, "{input}");
    }
}

fn hex_value(c: char) -> u8 {
    c.to_digit(16).unwrap() as u8
}

fn percent_decode(s: &str) -> String {
    let chars: Vec<char> = s.chars().collect();
    let mut bytes = Vec::new();
    let mut i = 0;
    while i < chars.len() {
        if chars[i] == '%'
            && i + 2 < chars.len()
            && chars[i + 1].is_ascii_hexdigit()
            && chars[i + 2].is_ascii_hexdigit()
        {
            bytes.push(hex_value(chars[i + 1]) * 16 + hex_value(chars[i + 2]));
            i += 3;
        } else {
            let mut buffer = [0; 4];
            bytes.extend_from_slice(chars[i].encode_utf8(&mut buffer).as_bytes());
            i += 1;
        }
    }
    String::from_utf8(bytes).unwrap()
}

#[test]
fn percent_decoding_undoes_encoding() {
    for input in ["a b%20/%zz%", "50%", "é€\u{10348}", "Hello World!", "%41", ""] {
        let encoded = encode(input, &Encoding::unreserved());
        assert_eq!(percent_decode(&encoded), input);
        let values = Values::default().add("x", Value::item(input));
        let expanded = Template::parse("{x}").unwrap().expand(&values).unwrap();
        assert_eq!(percent_decode(&expanded), input);
    }
}
