//! Building single-quoted JavaScript string literals.
//!
//! Six code points may not stand literally inside a single-quoted literal:
//! LINE FEED, CARRIAGE RETURN, APOSTROPHE, REVERSE SOLIDUS, LINE SEPARATOR
//! and PARAGRAPH SEPARATOR. Each is replaced by a fixed escape sequence;
//! every other character is copied verbatim, and the result is wrapped in
//! apostrophes.

use vstd::prelude::*;
use vstd::string::StrSliceExecFns;

verus! {

/// The six code points that may not appear literally inside a single-quoted
/// JavaScript string literal.
pub open spec fn is_special(c: char) -> bool {
    c == '\n' || c == '\r' || c == '\'' || c == '\\' || c == '\u{2028}' || c == '\u{2029}'
}

/// The characters emitted for one input character: the substitution-table
/// entry for a special code point, the character itself for any other.
pub open spec fn escaped_char(c: char) -> Seq<char> {
    if c == '\n' {
        seq!['\\', 'n']
    } else if c == '\r' {
        seq!['\\', 'r']
    } else if c == '\'' {
        seq!['\\', '\'']
    } else if c == '\\' {
        seq!['\\', '\\']
    } else if c == '\u{2028}' {
        seq!['\\', 'u', '2', '0', '2', '8']
    } else if c == '\u{2029}' {
        seq!['\\', 'u', '2', '0', '2', '9']
    } else {
        seq![c]
    }
}

/// The body of the literal: every input character replaced by its escaped
/// form, in the same relative order.
pub open spec fn escaped_text(s: Seq<char>) -> Seq<char>
    decreases s.len(),
{
    if s.len() == 0 {
        Seq::empty()
    } else {
        escaped_char(s[0]) + escaped_text(s.drop_first())
    }
}

/// The whole literal: the escaped body wrapped in one apostrophe on each side.
pub open spec fn escaped_literal(s: Seq<char>) -> Seq<char> {
    seq!['\''] + escaped_text(s) + seq!['\'']
}

/// Appending one character to the text appends its escaped form to the body.
pub proof fn lemma_escaped_text_snoc(s: Seq<char>, c: char)
    ensures
        escaped_text(s.push(c)) == escaped_text(s) + escaped_char(c),
    decreases s.len(),
{
    if s.len() == 0 {
        assert(escaped_text(s) =~= Seq::<char>::empty());
        assert(s.push(c).drop_first() =~= s);
        assert(s.push(c)[0] == c);
        assert(escaped_text(s.push(c)) == escaped_char(c) + escaped_text(s.push(c).drop_first()));
        assert(escaped_text(s.push(c)) =~= escaped_text(s) + escaped_char(c));
    } else {
        lemma_escaped_text_snoc(s.drop_first(), c);
        assert(s.push(c).drop_first() =~= s.drop_first().push(c));
        assert(s.push(c)[0] == s[0]);
        assert(escaped_text(s.push(c)) =~= escaped_text(s) + escaped_char(c));
    }
}

/// A borrowed text value waiting to be rendered as an escaped literal.
pub struct Escaper<'a> {
    text: &'a str,
}

impl<'a> View for Escaper<'a> {
    type V = Seq<char>;

    closed spec fn view(&self) -> Seq<char> {
        self.text@
    }
}

/// Relies on String::push: appends the given character to the end of the
/// string.
#[verifier::external_body]
fn push_char(out: &mut String, c: char)
    ensures
        final(out)@ == old(out)@ + seq![c],
{
    out.push(c);
}

/// Append the escaped form of one character to the output.
fn push_escaped_char(out: &mut String, c: char)
    ensures
        final(out)@ == old(out)@ + escaped_char(c),
{
    if c == '\n' {
        push_char(out, '\\');
        push_char(out, 'n');
    } else if c == '\r' {
        push_char(out, '\\');
        push_char(out, 'r');
    } else if c == '\'' {
        push_char(out, '\\');
        push_char(out, '\'');
    } else if c == '\\' {
        push_char(out, '\\');
        push_char(out, '\\');
    } else if c == '\u{2028}' {
        push_char(out, '\\');
        push_char(out, 'u');
        push_char(out, '2');
        push_char(out, '0');
        push_char(out, '2');
        push_char(out, '8');
    } else if c == '\u{2029}' {
        push_char(out, '\\');
        push_char(out, 'u');
        push_char(out, '2');
        push_char(out, '0');
        push_char(out, '2');
        push_char(out, '9');
    } else {
        push_char(out, c);
    }
    assert(out@ =~= old(out)@ + escaped_char(c));
}

impl<'a> Escaper<'a> {
    /// Materialize the escaped literal as an owned string.
    pub fn to_string(&self) -> (r: String)
        ensures
            r@ == escaped_literal(self@),
    {
        let n: usize = self.text.unicode_len();
        let mut out = String::new();
        push_char(&mut out, '\'');
        let mut i: usize = 0;
        while i < n
            invariant
                n == self.text@.len(),
                i <= n,
                out@ == seq!['\''] + escaped_text(self.text@.take(i as int)),
            decreases n - i,
        {
            let c = self.text.get_char(i);
            push_escaped_char(&mut out, c);
            proof {
                lemma_escaped_text_snoc(self.text@.take(i as int), c);
                assert(self.text@.take(i + 1 as int) =~= self.text@.take(i as int).push(
                    self.text@[i as int],
                ));
                assert(out@ =~= seq!['\''] + escaped_text(self.text@.take(i + 1 as int)));
            }
            i = i + 1;
        }
        proof {
            assert(self.text@.take(n as int) =~= self.text@);
        }
        push_char(&mut out, '\'');
        proof {
            assert(out@ =~= escaped_literal(self@));
        }
        out
    }
}

/// Escape a text value for embedding in JavaScript source: the returned
/// `Escaper` renders it as a single-quoted string literal.
pub fn escape<'a>(string: &'a str) -> (r: Escaper<'a>)
    ensures
        r@ == string@,
{
    Escaper { text: string }
}

} // verus!
