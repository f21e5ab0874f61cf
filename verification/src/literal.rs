//! A specification-level evaluator for the single-quoted literals the
//! escaper produces, and proofs that escaping is safe: the literal evaluates
//! back to the original text, the apostrophes delimit it exactly, and
//! escaping its own output re-escapes rather than passing it through.

use vstd::prelude::*;
use crate::escape::escaped_char;
use crate::escape::escaped_literal;
use crate::escape::escaped_text;
use crate::escape::is_special;

verus! {

/// A hexadecimal digit, as the `\u` escape form admits it.
pub open spec fn is_hex_digit(c: char) -> bool {
    ('0' <= c && c <= '9') || ('a' <= c && c <= 'f') || ('A' <= c && c <= 'F')
}

/// The numeric value of a hexadecimal digit.
pub open spec fn hex_digit_value(c: char) -> int {
    if '0' <= c && c <= '9' {
        c as int - '0' as int
    } else if 'a' <= c && c <= 'f' {
        10 + c as int - 'a' as int
    } else {
        10 + c as int - 'A' as int
    }
}

/// A Unicode scalar value: a code point that is not a surrogate.
pub open spec fn is_scalar_value(v: int) -> bool {
    (0 <= v && v <= 0xD7FF) || (0xE000 <= v && v <= 0x10FFFF)
}

/// The character denoted by a two-character escape, for the escape letters
/// the escaper emits.
pub open spec fn single_escape_value(c: char) -> Option<char> {
    if c == 'n' {
        Some('\n')
    } else if c == 'r' {
        Some('\r')
    } else if c == '\'' {
        Some('\'')
    } else if c == '\\' {
        Some('\\')
    } else {
        None
    }
}

/// Evaluate the body of a single-quoted literal, one grammar item at a time:
/// a backslash starts an escape (a two-character escape or `\u` with four
/// hexadecimal digits), a special code point may not stand literally, and any
/// other character denotes itself. `None` where the body is not well formed.
pub open spec fn unescaped_text(t: Seq<char>) -> Option<Seq<char>>
    decreases t.len(),
{
    if t.len() == 0 {
        Some(Seq::empty())
    } else if t[0] == '\\' {
        if t.len() >= 2 && single_escape_value(t[1]) is Some {
            match unescaped_text(t.subrange(2, t.len() as int)) {
                Some(rest) => Some(seq![single_escape_value(t[1])->Some_0] + rest),
                None => None,
            }
        } else if t.len() >= 6 && t[1] == 'u' && is_hex_digit(t[2]) && is_hex_digit(t[3])
            && is_hex_digit(t[4]) && is_hex_digit(t[5]) {
            let v = 0x1000 * hex_digit_value(t[2]) + 0x100 * hex_digit_value(t[3]) + 0x10
                * hex_digit_value(t[4]) + hex_digit_value(t[5]);
            if is_scalar_value(v) {
                match unescaped_text(t.subrange(6, t.len() as int)) {
                    Some(rest) => Some(seq![v as char] + rest),
                    None => None,
                }
            } else {
                None
            }
        } else {
            None
        }
    } else if is_special(t[0]) {
        None
    } else {
        match unescaped_text(t.drop_first()) {
            Some(rest) => Some(seq![t[0]] + rest),
            None => None,
        }
    }
}

/// Evaluate a whole single-quoted literal: an apostrophe on each side and a
/// well-formed body between them.
pub open spec fn literal_value(t: Seq<char>) -> Option<Seq<char>> {
    if t.len() >= 2 && t[0] == '\'' && t[t.len() - 1] == '\'' {
        unescaped_text(t.subrange(1, t.len() - 1))
    } else {
        None
    }
}

/// Whether a scan of the body, stepping over each backslash and the character
/// after it, meets an apostrophe — one that would close the literal early.
pub open spec fn has_unescaped_quote(t: Seq<char>) -> bool
    decreases t.len(),
{
    if t.len() == 0 {
        false
    } else if t[0] == '\'' {
        true
    } else if t[0] == '\\' {
        if t.len() >= 2 {
            has_unescaped_quote(t.subrange(2, t.len() as int))
        } else {
            false
        }
    } else {
        has_unescaped_quote(t.drop_first())
    }
}

/// Evaluating the escaped form of one character, followed by any tail,
/// yields that character followed by the value of the tail.
proof fn lemma_unescape_one(c: char, t: Seq<char>)
    ensures
        unescaped_text(escaped_char(c) + t) == match unescaped_text(t) {
            Some(rest) => Some(seq![c] + rest),
            None => None::<Seq<char>>,
        },
{
    let u = escaped_char(c) + t;
    if c == '\n' || c == '\r' || c == '\'' || c == '\\' {
        assert(u.subrange(2, u.len() as int) =~= t);
    } else if c == '\u{2028}' || c == '\u{2029}' {
        assert(u.subrange(6, u.len() as int) =~= t);
        assert(c as int == 0x1000 * hex_digit_value(u[2]) + 0x100 * hex_digit_value(u[3]) + 0x10
            * hex_digit_value(u[4]) + hex_digit_value(u[5]));
        assert((c as int) as char == c);
    } else {
        assert(u[0] == c && !is_special(u[0]));
        assert(u.drop_first() =~= t);
    }
}

/// Evaluating the escaped body yields the original text.
proof fn lemma_unescape_text(s: Seq<char>)
    ensures
        unescaped_text(escaped_text(s)) == Some(s),
    decreases s.len(),
{
    if s.len() == 0 {
        assert(escaped_text(s) =~= Seq::<char>::empty());
        assert(s =~= Seq::<char>::empty());
    } else {
        lemma_unescape_text(s.drop_first());
        lemma_unescape_one(s[0], escaped_text(s.drop_first()));
        assert(seq![s[0]] + s.drop_first() =~= s);
    }
}

/// Round trip: for every text value, the escaped output, evaluated as a
/// single-quoted string literal, yields exactly the original text.
pub proof fn lemma_round_trip(s: Seq<char>)
    ensures
        literal_value(escaped_literal(s)) == Some(s),
{
    let t = escaped_literal(s);
    assert(t[0] == '\'');
    assert(t[t.len() - 1] == '\'');
    assert(t.subrange(1, t.len() - 1) =~= escaped_text(s));
    lemma_unescape_text(s);
}

/// The scan for an unescaped apostrophe steps over one character that is
/// neither an apostrophe nor a backslash.
proof fn lemma_quote_scan_step(x: char, t: Seq<char>)
    requires
        x != '\'',
        x != '\\',
    ensures
        has_unescaped_quote(seq![x] + t) == has_unescaped_quote(t),
{
    assert((seq![x] + t).drop_first() =~= t);
}

/// The scan for an unescaped apostrophe steps over the escaped form of any
/// character without finding one.
proof fn lemma_quote_free_one(c: char, t: Seq<char>)
    ensures
        has_unescaped_quote(escaped_char(c) + t) == has_unescaped_quote(t),
{
    let u = escaped_char(c) + t;
    if c == '\n' || c == '\r' || c == '\'' || c == '\\' {
        assert(u.subrange(2, u.len() as int) =~= t);
    } else if c == '\u{2028}' || c == '\u{2029}' {
        let d = if c == '\u{2028}' {
            '8'
        } else {
            '9'
        };
        assert(u.subrange(2, u.len() as int) =~= seq!['2'] + (seq!['0'] + (seq!['2'] + (seq![d]
            + t))));
        lemma_quote_scan_step('2', seq!['0'] + (seq!['2'] + (seq![d] + t)));
        lemma_quote_scan_step('0', seq!['2'] + (seq![d] + t));
        lemma_quote_scan_step('2', seq![d] + t);
        lemma_quote_scan_step(d, t);
    } else {
        assert(u[0] != '\'' && u[0] != '\\');
        assert(u.drop_first() =~= t);
    }
}

/// The escaped body never contains an unescaped apostrophe.
proof fn lemma_text_quote_free(s: Seq<char>)
    ensures
        !has_unescaped_quote(escaped_text(s)),
    decreases s.len(),
{
    if s.len() > 0 {
        lemma_text_quote_free(s.drop_first());
        lemma_quote_free_one(s[0], escaped_text(s.drop_first()));
    }
}

/// The apostrophes delimit the literal exactly: one at the very start, one at
/// the very end, the body standing between them, and the body contains no
/// unescaped apostrophe that could close the literal early.
pub proof fn lemma_quotes_delimit(s: Seq<char>)
    ensures
        escaped_literal(s).len() >= 2,
        escaped_literal(s).first() == '\'',
        escaped_literal(s).last() == '\'',
        escaped_literal(s).subrange(1, escaped_literal(s).len() - 1) == escaped_text(s),
        !has_unescaped_quote(escaped_text(s)),
{
    assert(escaped_literal(s).subrange(1, escaped_literal(s).len() - 1) =~= escaped_text(s));
    lemma_text_quote_free(s);
}

/// Each character's escaped form is at least as long as the character.
proof fn lemma_escaped_text_len(s: Seq<char>)
    ensures
        escaped_text(s).len() >= s.len(),
    decreases s.len(),
{
    if s.len() > 0 {
        lemma_escaped_text_len(s.drop_first());
    }
}

/// Escaping is not a no-op on its own output: applied to the literal it
/// produced, it re-escapes the apostrophes and reverse solidi it added, so
/// the doubly escaped literal is strictly longer than the singly escaped one
/// and evaluates back to it — not to the original text.
pub proof fn lemma_escape_not_noop(s: Seq<char>)
    ensures
        escaped_literal(escaped_literal(s)) != escaped_literal(s),
        literal_value(escaped_literal(escaped_literal(s))) == Some(escaped_literal(s)),
{
    lemma_round_trip(escaped_literal(s));
    lemma_escaped_text_len(escaped_literal(s));
    assert(escaped_literal(escaped_literal(s)).len() >= escaped_literal(s).len() + 2);
}

} // verus!
