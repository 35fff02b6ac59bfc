use uri_template_system_core::{
    is_reserved_ascii,
    is_unreserved_ascii,
    Template,
    Value,
    Values,
};

/// The variables of the examples of RFC 6570, section 3.2.
fn rfc_values() -> Values {
    Values::default()
        .add("count", Value::list(["one", "two", "three"]))
        .add("dom", Value::list(["example", "com"]))
        .add("dub", Value::item("me/too"))
        .add("hello", Value::item("Hello World!"))
        .add("half", Value::item("50%"))
        .add("var", Value::item("value"))
        .add("who", Value::item("fred"))
        .add("base", Value::item("http://example.com/home/"))
        .add("path", Value::item("/foo/bar"))
        .add("list", Value::list(["red", "green", "blue"]))
        .add(
            "keys",
            Value::associative_array([("semi", ";"), ("dot", "."), ("comma", ",")]),
        )
        .add("v", Value::item("6"))
        .add("x", Value::item("1024"))
        .add("y", Value::item("768"))
        .add("empty", Value::item(""))
        .add("empty_keys", Value::associative_array(Vec::<(&str, &str)>::new()))
}

fn assert_expansions(cases: &[(&str, &str)]) {
    let values = rfc_values();
    for (template, expected) in cases {
        let parsed = Template::parse(template).unwrap();
        assert_eq!(&parsed.expand(&values).unwrap(), expected, "{template}");
    }
}

#[test]
fn doc_example_expands() {
    let template = Template::parse("hello/{name}!").unwrap();
    let values = Values::default().add("name", Value::item("world"));
    assert_eq!("hello/world!", template.expand(&values).unwrap());
}

#[test]
fn parse_doc_example_is_ok() {
    let template = Template::parse("my/valid/{template}");
    assert!(template.is_ok());
}

#[test]
fn simple_example_expands() {
    let template = Template::parse("/hello/{name}{/library}").unwrap();
    let values = Values::default()
        .add("name", Value::item("world"))
        .add("library", Value::list(["uri", "template", "system"]));
    // A list that is not exploded is joined with commas (RFC 6570, 3.2.6);
    // exploded, its members are separated by "/".
    assert_eq!(
        template.expand(&values).unwrap(),
        "/hello/world/uri,template,system"
    );
    let exploded = Template::parse("/hello/{name}{/library*}").unwrap();
    assert_eq!(
        exploded.expand(&values).unwrap(),
        "/hello/world/uri/template/system"
    );
}

#[test]
fn simple_string_expansion() {
    assert_expansions(&[
        ("{var}", "value"),
        ("{hello}", "Hello%20World%21"),
        ("{half}", "50%25"),
        ("O{empty}X", "OX"),
        ("O{undef}X", "OX"),
        ("{x,y}", "1024,768"),
        ("{x,hello,y}", "1024,Hello%20World%21,768"),
        ("?{x,empty}", "?1024,"),
        ("?{x,undef}", "?1024"),
        ("?{undef,y}", "?768"),
        ("{var:3}", "val"),
        ("{var:30}", "value"),
        ("{list}", "red,green,blue"),
        ("{list*}", "red,green,blue"),
        ("{keys}", "semi,%3B,dot,.,comma,%2C"),
        ("{keys*}", "semi=%3B,dot=.,comma=%2C"),
    ]);
}

#[test]
fn reserved_expansion() {
    assert_expansions(&[
        ("{+var}", "value"),
        ("{+hello}", "Hello%20World!"),
        ("{+half}", "50%25"),
        ("{base}index", "http%3A%2F%2Fexample.com%2Fhome%2Findex"),
        ("{+base}index", "http://example.com/home/index"),
        ("O{+empty}X", "OX"),
        ("O{+undef}X", "OX"),
        ("{+path}/here", "/foo/bar/here"),
        ("here?ref={+path}", "here?ref=/foo/bar"),
        ("up{+path}{var}/here", "up/foo/barvalue/here"),
        ("{+x,hello,y}", "1024,Hello%20World!,768"),
        ("{+path,x}/here", "/foo/bar,1024/here"),
        ("{+path:6}/here", "/foo/b/here"),
        ("{+list}", "red,green,blue"),
        ("{+list*}", "red,green,blue"),
        ("{+keys}", "semi,;,dot,.,comma,,"),
        ("{+keys*}", "semi=;,dot=.,comma=,"),
    ]);
}

#[test]
fn fragment_expansion() {
    assert_expansions(&[
        ("{#var}", "#value"),
        ("{#hello}", "#Hello%20World!"),
        ("{#half}", "#50%25"),
        ("foo{#empty}", "foo#"),
        ("foo{#undef}", "foo"),
        ("{#x,hello,y}", "#1024,Hello%20World!,768"),
        ("{#path,x}/here", "#/foo/bar,1024/here"),
        ("{#path:6}/here", "#/foo/b/here"),
        ("{#list}", "#red,green,blue"),
        ("{#list*}", "#red,green,blue"),
        ("{#keys}", "#semi,;,dot,.,comma,,"),
        ("{#keys*}", "#semi=;,dot=.,comma=,"),
    ]);
}

#[test]
fn label_expansion() {
    assert_expansions(&[
        ("{.who}", ".fred"),
        ("{.who,who}", ".fred.fred"),
        ("{.half,who}", ".50%25.fred"),
        ("www{.dom*}", "www.example.com"),
        ("X{.var}", "X.value"),
        ("X{.empty}", "X."),
        ("X{.undef}", "X"),
        ("X{.var:3}", "X.val"),
        ("X{.list}", "X.red,green,blue"),
        ("X{.list*}", "X.red.green.blue"),
        ("X{.keys}", "X.semi,%3B,dot,.,comma,%2C"),
        ("X{.keys*}", "X.semi=%3B.dot=..comma=%2C"),
        ("X{.empty_keys}", "X"),
        ("X{.empty_keys*}", "X"),
    ]);
}

#[test]
fn path_expansion() {
    assert_expansions(&[
        ("{/who}", "/fred"),
        ("{/who,who}", "/fred/fred"),
        ("{/half,who}", "/50%25/fred"),
        ("{/who,dub}", "/fred/me%2Ftoo"),
        ("{/var}", "/value"),
        ("{/var,empty}", "/value/"),
        ("{/var,undef}", "/value"),
        ("{/var,x}/here", "/value/1024/here"),
        ("{/var:1,var}", "/v/value"),
        ("{/list}", "/red,green,blue"),
        ("{/list*}", "/red/green/blue"),
        ("{/list*,path:4}", "/red/green/blue/%2Ffoo"),
        ("{/keys}", "/semi,%3B,dot,.,comma,%2C"),
        ("{/keys*}", "/semi=%3B/dot=./comma=%2C"),
    ]);
}

#[test]
fn path_parameter_expansion() {
    assert_expansions(&[
        ("{;who}", ";who=fred"),
        ("{;half}", ";half=50%25"),
        ("{;empty}", ";empty"),
        ("{;v,empty,who}", ";v=6;empty;who=fred"),
        ("{;v,bar,who}", ";v=6;who=fred"),
        ("{;x,y}", ";x=1024;y=768"),
        ("{;x,y,empty}", ";x=1024;y=768;empty"),
        ("{;x,y,undef}", ";x=1024;y=768"),
        ("{;hello:5}", ";hello=Hello"),
        ("{;list}", ";list=red,green,blue"),
        ("{;list*}", ";list=red;list=green;list=blue"),
        ("{;keys}", ";keys=semi,%3B,dot,.,comma,%2C"),
        ("{;keys*}", ";semi=%3B;dot=.;comma=%2C"),
    ]);
}

#[test]
fn query_expansion() {
    assert_expansions(&[
        ("{?who}", "?who=fred"),
        ("{?half}", "?half=50%25"),
        ("{?x,y}", "?x=1024&y=768"),
        ("{?x,y,empty}", "?x=1024&y=768&empty="),
        ("{?x,y,undef}", "?x=1024&y=768"),
        ("{?var:3}", "?var=val"),
        ("{?list}", "?list=red,green,blue"),
        ("{?list*}", "?list=red&list=green&list=blue"),
        ("{?keys}", "?keys=semi,%3B,dot,.,comma,%2C"),
        ("{?keys*}", "?semi=%3B&dot=.&comma=%2C"),
    ]);
}

#[test]
fn query_continuation_expansion() {
    assert_expansions(&[
        ("{&who}", "&who=fred"),
        ("{&half}", "&half=50%25"),
        ("?fixed=yes{&x}", "?fixed=yes&x=1024"),
        ("{&x,y,empty}", "&x=1024&y=768&empty="),
        ("{&var:3}", "&var=val"),
        ("{&list}", "&list=red,green,blue"),
        ("{&list*}", "&list=red&list=green&list=blue"),
        ("{&keys}", "&keys=semi,%3B,dot,.,comma,%2C"),
        ("{&keys*}", "&semi=%3B&dot=.&comma=%2C"),
    ]);
}

#[test]
fn non_ascii_values_are_percent_encoded() {
    let values = Values::default()
        .add("e", Value::item("é"))
        .add("u", Value::item("ü/€"));
    let expand = |t: &str| Template::parse(t).unwrap().expand(&values).unwrap();
    assert_eq!(expand("{e}"), "%C3%A9");
    assert_eq!(expand("{+u}"), "%C3%BC/%E2%82%AC");
    assert_eq!(expand("{e:1}"), "%C3%A9");
}

#[test]
fn literals_are_encoded() {
    let values = Values::default();
    let expand = |t: &str| Template::parse(t).unwrap().expand(&values).unwrap();
    // Non-ASCII literal text is percent-encoded; triplets are kept as they are.
    assert_eq!(expand("é"), "%C3%A9");
    assert_eq!(expand("a%2bb"), "a%2bb");
    assert_eq!(expand("'x'"), "'x'");
}

#[test]
fn empty_items_in_lists_and_arrays() {
    let values = Values::default()
        .add("l", Value::list(["", "a", "", "b"]))
        .add("k", Value::associative_array([("x", ""), ("y", "1")]));
    let expand = |t: &str| Template::parse(t).unwrap().expand(&values).unwrap();
    // An empty string is a defined member: the separator stands between
    // every two members.
    assert_eq!(expand("{l}"), ",a,,b");
    assert_eq!(expand("{l*}"), ",a,,b");
    assert_eq!(expand("{/l*}"), "//a//b");
    assert_eq!(expand("{?l*}"), "?l=&l=a&l=&l=b");
    assert_eq!(expand("{;l*}"), ";l;l=a;l;l=b");
    assert_eq!(expand("{k}"), "x,,y,1");
    assert_eq!(expand("{k*}"), "x=,y=1");
    assert_eq!(expand("{.k*}"), ".x=.y=1");
    assert_eq!(expand("{?k}"), "?k=x,,y,1");
    assert_eq!(expand("{?k*}"), "?x=&y=1");
}

#[test]
fn empty_value_in_exploded_array_is_separated() {
    let values = Values::default().add("keys", Value::associative_array([("a", ""), ("b", "2")]));
    let expand = |t: &str| Template::parse(t).unwrap().expand(&values).unwrap();
    assert_eq!(expand("{keys*}"), "a=,b=2");
    assert_eq!(expand("{keys}"), "a,,b,2");
}

#[test]
fn undefined_expression_expands_to_nothing() {
    let values = Values::default()
        .add("l", Value::list(Vec::<&str>::new()))
        .add("k", Value::associative_array(Vec::<(&str, &str)>::new()));
    for template in ["{?l,k,u}", "{#u}", "{/l*}", "{;k*,u}", "{&u:3}", "{+l}", "{.k}"] {
        let parsed = Template::parse(template).unwrap();
        assert_eq!(parsed.expand(&values).unwrap(), "", "{template}");
    }
}

#[test]
fn expansion_depends_only_on_named_variables() {
    let template = Template::parse("X{a}Y{+b}").unwrap();
    let few = Values::default()
        .add("a", Value::item("1"))
        .add("b", Value::item("/2"));
    let more = few
        .clone()
        .add("c", Value::item("3"))
        .add("d", Value::list(["4"]));
    assert_eq!(template.expand(&few).unwrap(), "X1Y/2");
    assert_eq!(template.expand(&more).unwrap(), template.expand(&few).unwrap());
}

#[test]
fn long_prefix_keeps_whole_value() {
    let values = Values::default().add("var", Value::item("value"));
    let expand = |t: &str| Template::parse(t).unwrap().expand(&values).unwrap();
    assert_eq!(expand("{var:5}"), expand("{var}"));
    assert_eq!(expand("{?var:9999}"), expand("{?var}"));
    assert_eq!(expand("{var:4}"), "valu");
}

#[test]
fn allowed_text_is_kept() {
    let values = Values::default()
        .add("u", Value::item("AZaz09-._~"))
        .add("r", Value::item(":/?#[]@!$&'()*+,;="));
    let expand = |t: &str| Template::parse(t).unwrap().expand(&values).unwrap();
    assert_eq!(expand("{u}"), "AZaz09-._~");
    assert_eq!(expand("{+r}"), ":/?#[]@!$&'()*+,;=");
    assert_eq!(expand("{r}"), "%3A%2F%3F%23%5B%5D%40%21%24%26%27%28%29%2A%2B%2C%3B%3D");
}

#[test]
fn template_without_expressions_ignores_values() {
    let template = Template::parse("http://example.com/a b").err();
    assert!(template.is_some());
    let template = Template::parse("http://example.com/path").unwrap();
    assert_eq!(template.expand(&rfc_values()).unwrap(), "http://example.com/path");
    assert_eq!(template.expand(&Values::default()).unwrap(), "http://example.com/path");
}

fn is_uri_char(c: char) -> bool {
    c == '%' || (c.is_ascii() && (is_unreserved_ascii(c as u8) || is_reserved_ascii(c as u8)))
}

#[test]
fn expansions_are_uri_text() {
    let values = rfc_values()
        .add("odd", Value::item("a b\"<>{}|^`é€\u{10348}%zz%4"))
        .add("odd_keys", Value::associative_array([("k y", "v\u{7f}"), ("é", "")]));
    for template in [
        "{odd}",
        "{+odd}",
        "{#odd,hello}",
        "{.odd_keys*}",
        "{/odd_keys}",
        "{;odd,odd_keys*}",
        "{?odd:3,odd_keys}",
        "{&odd_keys*,list}",
        "é€x%41{keys}",
    ] {
        let expanded = Template::parse(template).unwrap().expand(&values).unwrap();
        assert!(expanded.chars().all(is_uri_char), "{template} -> {expanded}");
    }
}

#[test]
fn concatenated_templates_expand_to_concatenated_expansions() {
    let values = rfc_values();
    let expand = |t: &str| Template::parse(t).unwrap().expand(&values).unwrap();
    for (a, b) in [
        ("X{var}", "{+path}Y"),
        ("a%20", "b%41{?x,y}"),
        ("{#keys*}", "é"),
        ("", "{/list*}"),
    ] {
        let joined = format!("{a}{b}");
        assert_eq!(expand(&joined), expand(a) + &expand(b), "{a} {b}");
    }
}
