use tether::escape;

#[test]
fn empty_input() {
    assert_eq!(escape("").to_string(), "''");
}

#[test]
fn plain_text_passes_verbatim() {
    assert_eq!(escape("Hello, world!").to_string(), "'Hello, world!'");
}

#[test]
fn double_quotes_pass_verbatim() {
    assert_eq!(escape("say \"hi\"").to_string(), "'say \"hi\"'");
}

#[test]
fn line_feed_becomes_two_characters() {
    assert_eq!(escape("a\nb").to_string(), "'a\\nb'");
}

#[test]
fn carriage_return_becomes_two_characters() {
    assert_eq!(escape("a\rb").to_string(), "'a\\rb'");
}

#[test]
fn lone_apostrophe() {
    assert_eq!(escape("'").to_string(), "'\\''");
}

#[test]
fn lone_reverse_solidus() {
    assert_eq!(escape("\\").to_string(), "'\\\\'");
}

#[test]
fn line_separator_uses_u_escape() {
    assert_eq!(escape("\u{2028}").to_string(), "'\\u2028'");
}

#[test]
fn paragraph_separator_uses_u_escape() {
    assert_eq!(escape("\u{2029}").to_string(), "'\\u2029'");
}

#[test]
fn all_specials_back_to_back() {
    assert_eq!(
        escape("\n\r'\\\u{2028}\u{2029}").to_string(),
        "'\\n\\r\\'\\\\\\u2028\\u2029'"
    );
}

#[test]
fn interior_apostrophes_are_escaped() {
    assert_eq!(escape("it's a test").to_string(), "'it\\'s a test'");
}

#[test]
fn escaping_its_own_output_re_escapes() {
    let once = escape("x").to_string();
    assert_eq!(once, "'x'");
    let twice = escape(&once).to_string();
    assert_eq!(twice, "'\\'x\\''");
}

#[test]
fn escaping_twice_grows_strictly() {
    let once = escape("a\nb").to_string();
    let twice = escape(&once).to_string();
    assert_ne!(once, twice);
    assert_eq!(twice, "'\\'a\\\\nb\\''");
}

#[test]
fn output_quotes_only_at_the_ends() {
    let out = escape("it's a test").to_string();
    assert!(out.starts_with('\''));
    assert!(out.ends_with('\''));
    let inner = &out[1..out.len() - 1];
    let mut chars = inner.chars();
    while let Some(c) = chars.next() {
        assert_ne!(c, '\'', "unescaped apostrophe inside the literal body");
        if c == '\\' {
            chars.next();
        }
    }
}

#[test]
fn multibyte_text_passes_verbatim() {
    assert_eq!(
        escape("h\u{e9}llo \u{2026} \u{4f60}\u{597d}").to_string(),
        "'h\u{e9}llo \u{2026} \u{4f60}\u{597d}'"
    );
}
