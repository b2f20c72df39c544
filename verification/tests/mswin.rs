use std::cell::RefCell;
use varsun::mswin::substitute;

fn mapfn(name: &str) -> Option<String> {
    match name {
        "foo" => Some("foo!!".to_string()),
        "bar" => Some("!bar!".to_string()),
        "baz" => Some("%baz%".to_string()),
        _ => Some("(　・ω・)?".to_string()),
    }
}

fn known(name: &str) -> Option<String> {
    match name {
        "foo" => Some("foo!!".to_string()),
        "bar" => Some("!bar!".to_string()),
        _ => None,
    }
}

fn quoted(name: &str) -> Option<String> {
    Some(format!("<{}>", name))
}

#[test]
fn mswin_substitute_basic() {
    assert_eq!("foo!!", substitute("%foo%", mapfn));
    assert_eq!("!bar!", substitute("%bar%", mapfn));
    assert_eq!("%baz%", substitute("%baz%", mapfn));
    assert_eq!("foo is foo!!", substitute("foo is %foo%", mapfn));
    assert_eq!("!bar! not (　・ω・)?", substitute("%bar% not %foobar%", mapfn));
    assert_eq!("foo!!!bar!%baz%", substitute("%foo%%bar%%baz%", mapfn));
}

#[test]
fn mswin_unresolved_placeholder_is_restored() {
    assert_eq!("foo!!!bar!%baz%", substitute("%foo%%bar%%baz%", known));
    assert_eq!("%baz%", substitute("%baz%", known));
    assert_eq!("a %no such thing% b", substitute("a %no such thing% b", known));
}

#[test]
fn mswin_trailing_open_span_is_literal() {
    assert_eq!("abc%foo", substitute("abc%foo", known));
    assert_eq!("abc%foo", substitute("abc%foo", quoted));
    assert_eq!("%", substitute("%", quoted));
    assert_eq!("<a>%b", substitute("%a%%b", quoted));
    assert_eq!("foo!!%", substitute("%foo%%", known));
}

#[test]
fn mswin_empty_source() {
    assert_eq!("", substitute("", known));
    assert_eq!("", substitute("", mapfn));
}

#[test]
fn mswin_text_without_placeholders_is_unchanged() {
    assert_eq!("plain $text \\ ${x}", substitute("plain $text \\ ${x}", quoted));
    assert_eq!("(　・ω・)?", substitute("(　・ω・)?", mapfn));
}

#[test]
fn mswin_single_placeholder_resolves_or_stays() {
    assert_eq!("foo!!", substitute("%foo%", known));
    assert_eq!("%nothing%", substitute("%nothing%", known));
    assert_eq!("<a b-$c>", substitute("%a b-$c%", quoted));
}

#[test]
fn mswin_spans_alternate() {
    assert_eq!("<a>b<c>", substitute("%a%b%c%", quoted));
    assert_eq!("%x%foo%", substitute("%x%foo%", known));
    assert_eq!("%x%foo!!", substitute("%x%%foo%", known));
    assert_eq!("a<>b", substitute("a%%b", quoted));
    assert_eq!("a%%b", substitute("a%%b", known));
}

#[test]
fn mswin_has_no_escape() {
    assert_eq!("\\<foo>", substitute("\\%foo%", quoted));
    assert_eq!("$<foo>", substitute("$%foo%", quoted));
}

#[test]
fn mswin_values_are_not_read_again() {
    let nested = |name: &str| match name {
        "a" => Some("%b%".to_string()),
        "b" => Some("B".to_string()),
        _ => None,
    };
    assert_eq!("%b%-B", substitute("%a%-%b%", nested));
}

#[test]
fn mswin_resolver_is_asked_once_for_each_span_in_order() {
    let asked: RefCell<Vec<String>> = RefCell::new(Vec::new());
    let out = substitute("%a% b %c d%%% %a% %e", |name: &str| {
        asked.borrow_mut().push(name.to_string());
        None
    });
    assert_eq!("%a% b %c d%%% %a% %e", out);
    assert_eq!(vec!["a", "c d", "", "a"], *asked.borrow());
}

#[test]
fn mswin_resolver_is_not_asked_for_an_open_span() {
    let asked: RefCell<Vec<String>> = RefCell::new(Vec::new());
    let out = substitute("abc%foo", |name: &str| {
        asked.borrow_mut().push(name.to_string());
        Some("!".to_string())
    });
    assert_eq!("abc%foo", out);
    assert!(asked.borrow().is_empty());
}
