use std::cell::RefCell;
use varsun::posix::substitute;

fn mapfn(name: &str) -> Option<String> {
    match name {
        "foo" => Some("foo!!".to_string()),
        "bar" => Some("!bar!".to_string()),
        "baz" => Some("-baz-".to_string()),
        _ => Some("(　・ω・)?".to_string()),
    }
}

fn known(name: &str) -> Option<String> {
    match name {
        "foo" => Some("foo!!".to_string()),
        "bar" => Some("!bar!".to_string()),
        "baz" => Some("-baz-".to_string()),
        _ => None,
    }
}

fn quoted(name: &str) -> Option<String> {
    Some(format!("<{}>", name))
}

#[test]
fn posix_substitute_basic() {
    assert_eq!("foo!!", substitute("$foo", mapfn));
    assert_eq!("!bar!", substitute("${bar}", mapfn));
    assert_eq!("-baz-", substitute("$baz", mapfn));
    assert_eq!("foo is foo!!", substitute("foo is $foo", mapfn));
    assert_eq!("!bar! not (　・ω・)?", substitute("${bar} not $foobar", mapfn));
    assert_eq!("$foo is foo!!", substitute("\\$foo is $foo", mapfn));
    assert_eq!("foo!!!bar!-baz-", substitute("$foo${bar}$baz", mapfn));
}

#[test]
fn substitute_escape() {
    assert_eq!("foo!!", substitute("$foo", mapfn));
    assert_eq!("$foo", substitute("\\$foo", mapfn));
    assert_eq!("\\foo!!", substitute("\\\\$foo", mapfn));
    assert_eq!("\\${foo}", substitute("\\\\\\${foo}", mapfn));
}

#[test]
fn posix_mixed_forms_in_a_sentence() {
    assert_eq!("foo!!!bar! and -baz-.", substitute("$foo${bar} and $baz.", known));
}

#[test]
fn posix_escaped_sigil_then_placeholder() {
    assert_eq!("$foo is foo!!", substitute("\\$foo is $foo", known));
}

#[test]
fn posix_empty_source() {
    assert_eq!("", substitute("", known));
    assert_eq!("", substitute("", mapfn));
}

#[test]
fn posix_text_without_placeholders_is_unchanged() {
    assert_eq!("plain text, 100% of it {}", substitute("plain text, 100% of it {}", known));
    assert_eq!("(　・ω・)?", substitute("(　・ω・)?", mapfn));
}

#[test]
fn posix_bare_name_resolves_or_vanishes() {
    assert_eq!("foo!!", substitute("$foo", known));
    assert_eq!("", substitute("$nothing", known));
    assert_eq!("<_a1>", substitute("$_a1", quoted));
}

#[test]
fn posix_braced_equals_bare() {
    for name in ["foo", "bar", "nothing", "_", "a_1", "Z9"] {
        let bare = format!("${}", name);
        let braced = format!("${{{}}}", name);
        assert_eq!(substitute(&bare, known), substitute(&braced, known));
        assert_eq!(substitute(&bare, quoted), substitute(&braced, quoted));
        assert_eq!(format!("<{}>", name), substitute(&braced, quoted));
    }
}

#[test]
fn posix_unresolved_placeholder_is_deleted() {
    assert_eq!("a  b", substitute("a $nothing b", known));
    assert_eq!("a  b", substitute("a ${nothing} b", known));
    assert_eq!("[]", substitute("[${no such thing}]", known));
}

#[test]
fn posix_escape_is_neutral() {
    assert_eq!("$foo", substitute("\\$foo", known));
    assert_eq!("$foo", substitute("\\$foo", quoted));
    assert_eq!("$nothing", substitute("\\$nothing", known));
    assert_eq!("\\foo!!", substitute("\\\\$foo", known));
    assert_eq!("\\", substitute("\\\\$nothing", known));
    assert_eq!("\\<foo>", substitute("\\\\$foo", quoted));
}

#[test]
fn posix_backslash_escapes_one_character_only() {
    assert_eq!("ab", substitute("\\a\\b", known));
    assert_eq!("{foo!!}", substitute("\\{$foo\\}", known));
    assert_eq!("\\\\", substitute("\\\\\\\\", known));
    assert_eq!("$foo!!", substitute("\\$$foo", known));
}

#[test]
fn posix_trailing_backslash_is_dropped() {
    assert_eq!("abc", substitute("abc\\", known));
    assert_eq!("", substitute("\\", known));
}

#[test]
fn posix_bare_name_ends_at_first_other_character() {
    assert_eq!("foo!!-bar", substitute("$foo-bar", known));
    assert_eq!("foo!!.", substitute("$foo.", known));
    assert_eq!("<foo>}", substitute("$foo}", quoted));
    assert_eq!("<foo>{x}", substitute("$foo{x}", quoted));
    assert_eq!("<foo1_B>!", substitute("$foo1_B!", quoted));
    assert_eq!("<foo> <bar>", substitute("$foo $bar", quoted));
}

#[test]
fn posix_adjacent_bare_names_need_no_separator() {
    assert_eq!("foo!!!bar!", substitute("$foo$bar", known));
    assert_eq!("<a><b><c>", substitute("$a$b$c", quoted));
    assert_eq!("<a><b>", substitute("$a${b}", quoted));
    assert_eq!("<a><b>", substitute("${a}$b", quoted));
}

#[test]
fn posix_backslash_ends_a_bare_name() {
    assert_eq!("<foo>$bar", substitute("$foo\\$bar", quoted));
    assert_eq!("<foo>x", substitute("$foo\\x", quoted));
}

#[test]
fn posix_digit_cannot_open_a_bare_name() {
    assert_eq!("<>1abc", substitute("$1abc", quoted));
    assert_eq!("1abc", substitute("$1abc", known));
}

#[test]
fn posix_sigil_before_other_text_asks_for_the_empty_name() {
    assert_eq!("<> x", substitute("$ x", quoted));
    assert_eq!(" x", substitute("$ x", known));
    assert_eq!("<><a>", substitute("$$a", quoted));
    assert_eq!("<>é", substitute("$é", quoted));
}

#[test]
fn posix_trailing_sigil_is_dropped() {
    assert_eq!("abc", substitute("abc$", quoted));
    assert_eq!("", substitute("$", quoted));
}

#[test]
fn posix_trailing_bare_name_is_resolved() {
    assert_eq!("abc<foo>", substitute("abc$foo", quoted));
    assert_eq!("abc", substitute("abc$nothing", known));
}

#[test]
fn posix_braces_take_any_characters() {
    assert_eq!("<a b>", substitute("${a b}", quoted));
    assert_eq!("<1+1=$2 \\ %x%>", substitute("${1+1=$2 \\ %x%}", quoted));
    assert_eq!("<{foo>", substitute("${{foo}", quoted));
    assert_eq!("<あ>", substitute("${あ}", quoted));
    assert_eq!("<a>}", substitute("${a}}", quoted));
}

#[test]
fn posix_empty_braces_ask_for_the_empty_name() {
    assert_eq!("[<>]", substitute("[${}]", quoted));
    assert_eq!("[]", substitute("[${}]", known));
}

#[test]
fn posix_unterminated_brace_is_discarded() {
    assert_eq!("abc", substitute("abc${foo", quoted));
    assert_eq!("abc", substitute("abc${foo bar $baz", quoted));
    assert_eq!("", substitute("${", quoted));
    assert_eq!("<a>", substitute("${a}${b", quoted));
}

#[test]
fn posix_values_are_not_read_again() {
    let nested = |name: &str| match name {
        "a" => Some("$b ${b} \\$b".to_string()),
        "b" => Some("B".to_string()),
        _ => None,
    };
    assert_eq!("$b ${b} \\$b-B", substitute("$a-$b", nested));
}

#[test]
fn posix_resolver_is_asked_once_for_each_placeholder_in_order() {
    let asked: RefCell<Vec<String>> = RefCell::new(Vec::new());
    let out = substitute("$a ${b c} $a \\$d $ ${} ${e", |name: &str| {
        asked.borrow_mut().push(name.to_string());
        None
    });
    assert_eq!("   $d   ", out);
    assert_eq!(vec!["a", "b c", "a", "", ""], *asked.borrow());
}

#[test]
fn posix_resolver_is_not_asked_without_placeholders() {
    let asked: RefCell<Vec<String>> = RefCell::new(Vec::new());
    let out = substitute("no \\$placeholder here, nor ${there", |name: &str| {
        asked.borrow_mut().push(name.to_string());
        Some("!".to_string())
    });
    assert_eq!("no $placeholder here, nor ", out);
    assert!(asked.borrow().is_empty());
}
