use template_scan::{
    parse, parse_with, reconstruct, scan, substitute, substitute_chain, Item, Policy, Wrapper,
};

type Resolver = fn(&Item) -> Option<String>;

fn resolve_a_one(item: &Item) -> Option<String> {
    match item.text {
        "a" => Some("one".to_owned()),
        _ => None,
    }
}

fn resolve_ab_two(item: &Item) -> Option<String> {
    match item.text {
        "a" => Some("two-a".to_owned()),
        "b" => Some("two-b".to_owned()),
        _ => None,
    }
}

#[test]
fn format_string_with() {
    let parsed = parse_with(
        "{{greeting}}, {name}! by {hidden}",
        |item: &Item| -> Option<String> {
            match item.wrapper {
                Wrapper::Curly => match item.text.as_ref() {
                    "name" => Some("world".to_owned()),
                    _ => None,
                },
                Wrapper::DoubleCurly => match item.text.as_ref() {
                    "greeting" => Some("Hello".to_owned()),
                    _ => None,
                },
                _ => None,
            }
        },
    );
    assert_eq!(parsed.unwrap(), "Hello, world! by {hidden}");
}

#[test]
fn round_trip_reconstruction() {
    for s in [
        "",
        "plain text",
        "Hello, {name}!",
        "Hello, {{ user.name }}! ${x}",
        "{##}{}",
        "{%}",
        "{#}",
        "a {% b %} c {# d #} e",
        "{{a{b}}}",
    ] {
        assert_eq!(reconstruct(&parse(s).unwrap()), s);
    }
}

#[test]
fn round_trip_reconstruction_lenient() {
    for s in ["${", "{{todo..", "broken {%", "tail {", "{# open", "{#}{%}{}"] {
        assert_eq!(reconstruct(&scan(s, Policy::Lenient).unwrap()), s);
    }
}

#[test]
fn noop_substitution_returns_input() {
    for s in [
        "",
        "plain text",
        "Hello, {name}!",
        "Hello, {{ user.name }}! ${x}",
        "${",
        "broken {%",
    ] {
        assert_eq!(substitute(s, |_item: &Item| -> Option<String> { None }), s);
    }
}

#[test]
fn parse_with_noop_mapper_returns_input() {
    let s = "Hello, {name}!";
    assert_eq!(
        parse_with(s, |_item: &Item| -> Option<String> { None }).unwrap(),
        s
    );
}

#[test]
fn parse_with_propagates_strict_error() {
    let r = parse_with("${", |_item: &Item| -> Option<String> { None });
    let e = r.unwrap_err();
    assert_eq!(e.wrapper, Wrapper::DollarCurly);
    assert_eq!(e.offset, 0);
}

#[test]
fn substitute_resolves_and_keeps_unterminated_tail() {
    let out = substitute("{a} ${", |item: &Item| -> Option<String> {
        match item.text.as_ref() {
            "a" => Some("X".to_owned()),
            _ => None,
        }
    });
    assert_eq!(out, "X ${");
}

#[test]
fn substitute_resolves_repeated_placeholders() {
    let out = substitute("{a}{a}{b}", |item: &Item| -> Option<String> {
        match item.text.as_ref() {
            "a" => Some("1".to_owned()),
            _ => None,
        }
    });
    assert_eq!(out, "11{b}");
}

#[test]
fn substitute_chain_empty_returns_input() {
    let resolvers: Vec<Resolver> = Vec::new();
    for s in ["", "plain", "Hello, {name}!", "${", "{{ x }} {%y%}"] {
        assert_eq!(substitute_chain(s, &resolvers), s);
    }
}

#[test]
fn substitute_chain_first_resolver_wins() {
    let resolvers: Vec<Resolver> = vec![resolve_a_one, resolve_ab_two];
    assert_eq!(substitute_chain("{a} {b} {c}", &resolvers), "one two-b {c}");
}

#[test]
fn substitute_chain_order_matters() {
    let resolvers: Vec<Resolver> = vec![resolve_ab_two, resolve_a_one];
    assert_eq!(substitute_chain("{a} {b} {c}", &resolvers), "two-a two-b {c}");
}

#[test]
fn substitute_distinguishes_wrappers() {
    let out = substitute("{v} {{v}} ${v} {%v%} {#v#}", |item: &Item| -> Option<String> {
        match item.wrapper {
            Wrapper::Curly => Some("c".to_owned()),
            Wrapper::DoubleCurly => Some("d".to_owned()),
            _ => None,
        }
    });
    assert_eq!(out, "c d ${v} {%v%} {#v#}");
}
