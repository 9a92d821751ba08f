use template_scan::{parse, scan, Element, Item, Policy, Wrapper};

#[test]
fn parse_curly() {
    assert_eq!(
        parse("Hello, {name}!").unwrap(),
        vec![
            Element::Text("Hello, "),
            Element::Wrapped(Item::new(Wrapper::Curly, "name")),
            Element::Text("!")
        ]
    );
}

#[test]
fn parse_double_curly() {
    assert_eq!(
        parse("Hello, {{ user.name }}").unwrap(),
        vec![
            Element::Text("Hello, "),
            Element::Wrapped(Item::new(Wrapper::DoubleCurly, " user.name "))
        ]
    );
}

#[test]
fn parse_dollar_curly() {
    assert_eq!(
        parse("A ${plus} B").unwrap(),
        vec![
            Element::Text("A "),
            Element::Wrapped(Item::new(Wrapper::DollarCurly, "plus")),
            Element::Text(" B"),
        ]
    );
}

#[test]
fn parse_curly_hash() {
    assert_eq!(
        parse("{##}").unwrap(),
        vec![Element::Wrapped(Item::new(Wrapper::CurlyHash, ""))]
    );

    assert_eq!(
        parse("{#}").unwrap(),
        vec![Element::Wrapped(Item::new(Wrapper::Curly, "#")),]
    );

    assert_eq!(
        parse("{# comment #}").unwrap(),
        vec![Element::Wrapped(Item::new(Wrapper::CurlyHash, " comment "))]
    );
}

#[test]
fn parse_curly_percent() {
    assert_eq!(
        parse("{%}").unwrap(),
        vec![Element::Wrapped(Item::new(Wrapper::Curly, "%"))]
    );

    assert_eq!(
        parse("Hello, {% name %}").unwrap(),
        vec![
            Element::Text("Hello, "),
            Element::Wrapped(Item::new(Wrapper::CurlyPercent, " name "))
        ]
    );
}

#[test]
fn parse_short() {
    assert_eq!(
        parse("{n}").unwrap(),
        vec![Element::Wrapped(Item::new(Wrapper::Curly, "n"))]
    );

    assert_eq!(
        parse("{}").unwrap(),
        vec![Element::Wrapped(Item::new(Wrapper::Curly, ""))]
    );
}

#[test]
fn parse_broken() {
    assert!(parse("${").is_err());
    assert!(parse("{{todo..").is_err());
    assert!(parse("broken {%").is_err());
}

#[test]
fn parse_empty_input() {
    assert_eq!(parse("").unwrap(), vec![]);
}

#[test]
fn parse_plain_text_only() {
    assert_eq!(parse("no markers here").unwrap(), vec![Element::Text("no markers here")]);
    assert_eq!(parse("$").unwrap(), vec![Element::Text("$")]);
    assert_eq!(parse("a}b").unwrap(), vec![Element::Text("a}b")]);
}

#[test]
fn parse_priority_over_shared_prefix() {
    assert_eq!(
        parse("{{x}}").unwrap(),
        vec![Element::Wrapped(Item::new(Wrapper::DoubleCurly, "x"))]
    );
}

#[test]
fn parse_no_nesting_inside_wrapper() {
    assert_eq!(
        parse("{{a{b}}}").unwrap(),
        vec![
            Element::Wrapped(Item::new(Wrapper::DoubleCurly, "a{b")),
            Element::Text("}")
        ]
    );
}

#[test]
fn parse_mixed_sequence() {
    assert_eq!(
        parse("Hello, {{ user.name }}! ${x}").unwrap(),
        vec![
            Element::Text("Hello, "),
            Element::Wrapped(Item::new(Wrapper::DoubleCurly, " user.name ")),
            Element::Text("! "),
            Element::Wrapped(Item::new(Wrapper::DollarCurly, "x")),
        ]
    );
}

#[test]
fn scan_lenient_unterminated() {
    assert_eq!(
        scan("${", Policy::Lenient).unwrap(),
        vec![Element::Text("${")]
    );
    assert_eq!(
        scan("{{todo..", Policy::Lenient).unwrap(),
        vec![Element::Text("{{todo..")]
    );
    assert_eq!(
        scan("broken {%", Policy::Lenient).unwrap(),
        vec![Element::Text("broken "), Element::Text("{%")]
    );
}

#[test]
fn scan_strict_unterminated() {
    let e = scan("${", Policy::Strict).unwrap_err();
    assert_eq!(e.wrapper, Wrapper::DollarCurly);
    assert_eq!(e.offset, 0);

    let e = scan("{{todo..", Policy::Strict).unwrap_err();
    assert_eq!(e.wrapper, Wrapper::DoubleCurly);
    assert_eq!(e.offset, 0);

    let e = scan("broken {%", Policy::Strict).unwrap_err();
    assert_eq!(e.wrapper, Wrapper::Curly);
    assert_eq!(e.offset, 7);
}

#[test]
fn scan_lenient_agrees_with_parse_on_closed_input() {
    let s = "Hello, {name}!";
    assert_eq!(scan(s, Policy::Lenient).unwrap(), parse(s).unwrap());
}

#[test]
fn wrapper_delimiters() {
    assert_eq!(Wrapper::DoubleCurly.get_prefix(), "{{");
    assert_eq!(Wrapper::DoubleCurly.get_suffix(), "}}");
    assert_eq!(Wrapper::CurlyPercent.get_prefix(), "{%");
    assert_eq!(Wrapper::CurlyPercent.get_suffix(), "%}");
    assert_eq!(Wrapper::CurlyHash.get_prefix(), "{#");
    assert_eq!(Wrapper::CurlyHash.get_suffix(), "#}");
    assert_eq!(Wrapper::DollarCurly.get_prefix(), "${");
    assert_eq!(Wrapper::DollarCurly.get_suffix(), "}");
    assert_eq!(Wrapper::Curly.get_prefix(), "{");
    assert_eq!(Wrapper::Curly.get_suffix(), "}");
}

#[test]
fn item_new_fields() {
    let item = Item::new(Wrapper::Curly, "abc");
    assert_eq!(item.wrapper, Wrapper::Curly);
    assert_eq!(item.text, "abc");
}
