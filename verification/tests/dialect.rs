use varsun::{substitute, Dialect};

fn known(name: &str) -> Option<String> {
    match name {
        "foo" => Some("foo!!".to_string()),
        _ => None,
    }
}

#[test]
fn substitute_reads_the_given_dialect() {
    let src = "$foo %foo% ${bar} %bar% \\$";
    assert_eq!("foo!! %foo%  %bar% $", substitute(Dialect::Posix, src, known));
    assert_eq!("$foo foo!! ${bar} %bar% \\$", substitute(Dialect::Mswin, src, known));
}

#[test]
fn substitute_agrees_with_the_dialect_modules() {
    for src in ["", "abc", "$foo", "%foo%", "a${foo}b%foo%c$x%y", "\\$foo%", "${foo"] {
        assert_eq!(varsun::posix::substitute(src, known), substitute(Dialect::Posix, src, known));
        assert_eq!(varsun::mswin::substitute(src, known), substitute(Dialect::Mswin, src, known));
    }
}

#[test]
fn plain_text_is_unchanged_in_both_dialects() {
    for src in ["", "abc", "plain text, {with} braces", "(　・ω・)?"] {
        assert_eq!(src, substitute(Dialect::Posix, src, known));
        assert_eq!(src, substitute(Dialect::Mswin, src, known));
    }
}

#[test]
fn dialects_compare_and_copy() {
    let d = Dialect::Posix;
    let e = d;
    assert_eq!(d, e);
    assert_ne!(Dialect::Posix, Dialect::Mswin);
}
