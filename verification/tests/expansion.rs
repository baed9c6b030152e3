use uri_template::encoding::{
    pct_encode, push_allow_unreserved, push_allow_unreserved_reserved, push_literal,
};
use uri_template::{UriTemplate, Value};

fn bound(pairs: &[(&str, Value)]) -> Vec<(String, Value)> {
    pairs.iter().map(|(k, v)| (k.to_string(), v.clone())).collect()
}

fn expanded(template: &str, pairs: &[(&str, Value)]) -> String {
    UriTemplate::parse(template).expand(&bound(pairs))
}

fn literal(s: &str) -> String {
    let mut dst = String::new();
    push_literal(&mut dst, s);
    dst
}

fn unreserved(s: &str) -> String {
    let mut dst = String::new();
    push_allow_unreserved(&mut dst, s);
    dst
}

fn reserved(s: &str) -> String {
    let mut dst = String::new();
    push_allow_unreserved_reserved(&mut dst, s);
    dst
}

fn any(s: &str) -> String {
    let mut dst = String::new();
    pct_encode(|_| true, &mut dst, s);
    dst
}

#[test]
fn text_without_brace_passes_through() {
    for text in ["", "plain", "a b%c}d", "50% off", "caf\u{e9} }}", "%41%zz"] {
        assert_eq!(expanded(text, &[]), text);
        assert_eq!(expanded(text, &[("a", Value::from_string("A"))]), text);
    }
}

#[test]
fn invalid_expression_is_kept_with_its_braces() {
    for body in ["", "!x", "x,,y", "x:1y", "x:0", "x:", "x*y", "x:1*", "%0", "a b", "+", "x{y", ","] {
        let template = format!("{{{}}}", body);
        assert_eq!(expanded(&template, &[]), template);
        assert_eq!(
            expanded(&template, &[("x", Value::from_string("X"))]),
            template
        );
    }
}

#[test]
fn invalid_expression_between_text() {
    assert_eq!(
        expanded("a{!}b{x}c", &[("x", Value::from_string("X"))]),
        "a{!}bXc"
    );
    assert_eq!(expanded("{x}y}", &[]), "y}");
}

#[test]
fn unterminated_expression_is_kept() {
    assert_eq!(expanded("a{b", &[("b", Value::from_string("B"))]), "a{b");
    assert_eq!(expanded("{", &[]), "{");
    assert_eq!(
        expanded("{b}{", &[("b", Value::from_string("B"))]),
        "B{"
    );
    assert_eq!(
        expanded("{b}{c{d}", &[("b", Value::from_string("B"))]),
        "B{c{d}"
    );
}

#[test]
fn allowed_text_is_a_fixed_point() {
    let text = "AZaz09-._~";
    assert_eq!(literal(text), text);
    assert_eq!(unreserved(text), text);
    assert_eq!(reserved(text), text);
    let delims = ":/?#[]@!$&'()*+,;=";
    assert_eq!(reserved(delims), delims);
    assert_eq!(any("anything goes {here}"), "anything goes {here}");
    assert_eq!(any("with%20triplet"), "with%20triplet");
}

#[test]
fn lone_percent_is_no_fixed_point() {
    assert_eq!(any("100%"), "100%25");
    assert_eq!(any("%zz"), "%25zz");
}

#[test]
fn codec_escape_correctness() {
    assert_eq!(any("%"), "%25");
    assert_eq!(any("%2"), "%252");
    assert_eq!(any("%20"), "%20");
    assert_eq!(any("%%20"), "%25%20");
    assert_eq!(literal("%aF%Ag"), "%aF%25Ag");
    assert_eq!(literal("a b"), "a%20b");
    assert_eq!(literal("%2 "), "%252%20");
}

#[test]
fn triplets_are_kept_only_in_literal_encoding() {
    assert_eq!(literal("%20"), "%20");
    assert_eq!(unreserved("%20"), "%2520");
    assert_eq!(reserved("%20"), "%2520");
}

#[test]
fn reserved_characters_by_allowed_set() {
    assert_eq!(unreserved(":/?#[]@"), "%3A%2F%3F%23%5B%5D%40");
    assert_eq!(unreserved("!$&'()*+,;="), "%21%24%26%27%28%29%2A%2B%2C%3B%3D");
    assert_eq!(reserved("a b<>\"{}|\\^`"), "a%20b%3C%3E%22%7B%7D%7C%5C%5E%60");
}

#[test]
fn escapes_are_upper_case_utf8_bytes() {
    assert_eq!(unreserved("\u{0}"), "%00");
    assert_eq!(unreserved("\u{7f}"), "%7F");
    assert_eq!(unreserved("\u{80}"), "%C2%80");
    assert_eq!(unreserved("\u{e9}"), "%C3%A9");
    assert_eq!(unreserved("\u{7ff}"), "%DF%BF");
    assert_eq!(unreserved("\u{800}"), "%E0%A0%80");
    assert_eq!(unreserved("\u{20ac}"), "%E2%82%AC");
    assert_eq!(unreserved("\u{ffff}"), "%EF%BF%BF");
    assert_eq!(unreserved("\u{10000}"), "%F0%90%80%80");
    assert_eq!(unreserved("\u{1f600}"), "%F0%9F%98%80");
    assert_eq!(unreserved("\u{10ffff}"), "%F4%8F%BF%BF");
    assert_eq!(literal("\u{e9}%C3%a9"), "%C3%A9%C3%a9");
}

#[test]
fn undefined_variable_writes_nothing() {
    assert_eq!(expanded("{?undef}", &[]), "");
    assert_eq!(expanded("{;undef}", &[]), "");
    assert_eq!(expanded("{&undef,other}", &[]), "");
    assert_eq!(expanded("{#undef}", &[]), "");
    assert_eq!(expanded("{/undef*}", &[]), "");
    assert_eq!(
        expanded("{?undef,x}", &[("x", Value::from_string("1"))]),
        "?x=1"
    );
}

#[test]
fn empty_collection_is_like_undefined() {
    let x = ("x", Value::from_string("1"));
    let y = ("y", Value::from_string("2"));
    for template in [
        "{e}", "{+e}", "{#e}", "{.e}", "{/e}", "{;e}", "{?e}", "{&e}", "{e*}", "{?e*}", "{;e*}",
        "{x,e,y}", "{?x,e,y}", "{?e,x,y}", "{/x,e*,y}", "{e:3}", "a{e}b",
    ] {
        let undefined = expanded(template, &[x.clone(), y.clone()]);
        let list = expanded(
            template,
            &[x.clone(), ("e", Value::from_list(&[])), y.clone()],
        );
        let assoc = expanded(
            template,
            &[x.clone(), ("e", Value::from_assoc(&[])), y.clone()],
        );
        assert_eq!(list, undefined);
        assert_eq!(assoc, undefined);
    }
    assert_eq!(
        expanded("{?x,e,y}", &[x.clone(), ("e", Value::from_list(&[])), y.clone()]),
        "?x=1&y=2"
    );
}

#[test]
fn concrete_scenarios() {
    assert_eq!(expanded("{var}", &[("var", Value::from_string("value"))]), "value");
    let hello = ("hello", Value::from_string("Hello World!"));
    assert_eq!(expanded("{hello}", &[hello.clone()]), "Hello%20World%21");
    assert_eq!(expanded("{+hello}", &[hello.clone()]), "Hello%20World!");
    assert_eq!(
        expanded(
            "{;list*}",
            &[("list", Value::from_list(&["red", "green", "blue"]))]
        ),
        ";list=red;list=green;list=blue"
    );
    assert_eq!(
        expanded(
            "{?keys*}",
            &[(
                "keys",
                Value::from_assoc(&[("semi", ";"), ("dot", "."), ("comma", ",")])
            )]
        ),
        "?semi=%3B&dot=.&comma=%2C"
    );
    assert_eq!(expanded("{x:1y}", &[]), "{x:1y}");
}

#[test]
fn prefix_counts_characters_not_bytes() {
    let v = ("v", Value::from_string("\u{e9}\u{20ac}\u{1f600}z"));
    assert_eq!(expanded("{v:1}", &[v.clone()]), "%C3%A9");
    assert_eq!(expanded("{v:2}", &[v.clone()]), "%C3%A9%E2%82%AC");
    assert_eq!(expanded("{v:3}", &[v.clone()]), "%C3%A9%E2%82%AC%F0%9F%98%80");
    assert_eq!(expanded("{v:4}", &[v.clone()]), "%C3%A9%E2%82%AC%F0%9F%98%80z");
    assert_eq!(expanded("{v:9999}", &[v.clone()]), "%C3%A9%E2%82%AC%F0%9F%98%80z");
    assert_eq!(expanded("{?v:1}", &[v.clone()]), "?v=%C3%A9");
}

#[test]
fn prefix_leaves_lists_and_associative_arrays_whole() {
    let list = ("l", Value::from_list(&["red", "green"]));
    let keys = ("k", Value::from_assoc(&[("a", "1234")]));
    assert_eq!(expanded("{l:1}", &[list.clone()]), "red,green");
    assert_eq!(expanded("{?l:1}", &[list.clone()]), "?l=red,green");
    assert_eq!(expanded("{k:1}", &[keys.clone()]), "a,1234");
}

#[test]
fn explode_leaves_a_string_as_it_is() {
    let s = ("s", Value::from_string("a b"));
    assert_eq!(expanded("{s*}", &[s.clone()]), "a%20b");
    assert_eq!(expanded("{?s*}", &[s.clone()]), "?s=a%20b");
    assert_eq!(expanded("{;s*}", &[("s", Value::from_string(""))]), ";s");
    assert_eq!(expanded("{?s*}", &[("s", Value::from_string(""))]), "?s=");
}

#[test]
fn named_operators_and_empty_values() {
    let e = ("e", Value::from_string(""));
    assert_eq!(expanded("{;e}", &[e.clone()]), ";e");
    assert_eq!(expanded("{?e}", &[e.clone()]), "?e=");
    assert_eq!(expanded("{&e}", &[e.clone()]), "&e=");
    assert_eq!(expanded("{e}", &[e.clone()]), "");
    assert_eq!(expanded("{.e}", &[e.clone()]), ".");
    assert_eq!(expanded("{#e,e}", &[e.clone()]), "#,");
    let l = ("l", Value::from_list(&["", "x", ""]));
    assert_eq!(expanded("{;l*}", &[l.clone()]), ";l;l=x;l");
    assert_eq!(expanded("{?l*}", &[l.clone()]), "?l=&l=x&l=");
    assert_eq!(expanded("{?l}", &[l.clone()]), "?l=,x,");
    let k = ("k", Value::from_assoc(&[("a b", ""), ("c", "d e"), ("a b", "2")]));
    assert_eq!(expanded("{;k*}", &[k.clone()]), ";a%20b;c=d%20e;a%20b=2");
    assert_eq!(expanded("{&k*}", &[k.clone()]), "&a%20b=&c=d%20e&a%20b=2");
    assert_eq!(expanded("{+k*}", &[k.clone()]), "a%20b=,c=d%20e,a%20b=2");
    assert_eq!(expanded("{&k}", &[k.clone()]), "&k=a%20b,,c,d%20e,a%20b,2");
}

#[test]
fn separator_is_taken_only_by_what_is_written() {
    let x = ("x", Value::from_string("1"));
    assert_eq!(expanded("{#a,x,b,x,c}", &[x.clone()]), "#1,1");
    assert_eq!(expanded("{/a,b,x}", &[x.clone()]), "/1");
    assert_eq!(expanded("{.x,x,x}", &[x.clone()]), ".1.1.1");
}

#[test]
fn first_binding_of_a_name_wins() {
    let pairs = [
        ("x", Value::from_string("first")),
        ("x", Value::from_string("second")),
    ];
    assert_eq!(expanded("{x}", &pairs), "first");
}

#[test]
fn expander_replaces_a_binding() {
    let template = UriTemplate::parse("{?x,y}");
    let mut expander = template.expander();
    expander.set_string("x", "1");
    expander.set_list("y", &["a", "b"]);
    assert_eq!(expander.expand(), "?x=1&y=a,b");
    expander.set_assoc("x", &[("k", "v")]);
    assert_eq!(expander.expand(), "?x=k,v&y=a,b");
    expander.set_string("y", "");
    assert_eq!(expander.expand(), "?x=k,v&y=");
}

#[test]
fn template_is_reusable() {
    let template = UriTemplate::parse("/users{/id}{?q}");
    assert_eq!(
        template.expand(&bound(&[("id", Value::from_string("7"))])),
        "/users/7"
    );
    assert_eq!(
        template.expand(&bound(&[("q", Value::from_string("a&b"))])),
        "/users?q=a%26b"
    );
    assert_eq!(template.expand(&bound(&[])), "/users");
}
