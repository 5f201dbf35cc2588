//! Payloads of string tokens, and the tokens that replace them.
use crate::model::{escaped, fits_delimiters, payload, requoted, rewritten};
use crate::syntax::{Kind, SyntaxToken, Tree};
use vstd::prelude::*;
use vstd::string::*;

verus! {

/// Whether `c` occurs in `s`.
pub fn contains_char(s: &str, c: char) -> (r: bool)
    ensures
        r == s@.contains(c),
{
    let n = s.unicode_len();
    let mut i: usize = 0;
    while i < n
        invariant
            i <= n,
            n == s@.len(),
            forall|j: int| 0 <= j < i ==> s@[j] != c,
        decreases n - i,
    {
        if s.get_char(i) == c {
            return true;
        }
        i += 1;
    }
    false
}

/// `p` with every `"` preceded by a backslash.
pub fn escape_quotes(p: &str) -> (r: String)
    ensures
        r@ == escaped(p@),
{
    let n = p.unicode_len();
    let mut r = String::new();
    let mut i: usize = 0;
    while i < n
        invariant
            i <= n,
            n == p@.len(),
            r@ == escaped(p@.subrange(0, i as int)),
        decreases n - i,
    {
        let c = p.get_char(i);
        proof {
            assert(p@.subrange(0, i + 1).drop_last() =~= p@.subrange(0, i as int));
            reveal_strlit("\\\"");
        }
        if c == '"' {
            r.append("\\\"");
        } else {
            r.append(p.substring_char(i, i + 1));
        }
        i += 1;
    }
    assert(p@.subrange(0, n as int) =~= p@);
    r
}

/// The payload of a quoted string token: its text without the delimiters.
pub fn token_payload(token: &SyntaxToken) -> (r: &str)
    requires
        token.text@.len() >= 2,
    ensures
        r@ == payload(token.text@),
{
    let n = token.text.as_str().unicode_len();
    token.text.as_str().substring_char(1, n - 1)
}

/// The token that replaces `token` once its payload was normalized to
/// `normalized`, or `None` where nothing is to be replaced: `token` is no
/// string, or `normalized` equals its payload.
pub fn rewrite_string(token: &SyntaxToken, normalized: &str) -> (r: Option<SyntaxToken>)
    requires
        token.kind.is_string() ==> token.text@.len() >= 2,
    ensures
        r is None <==> !(token.kind.is_string() && normalized@ != payload(token.text@)),
        r matches Some(t) ==> Tree::Token(t.kind, t.text@) == requoted(
            token.kind,
            token.text@,
            normalized@,
        ),
        r matches Some(t) ==> Tree::Token(t.kind, t.text@) == rewritten(
            Tree::Token(token.kind, token.text@),
            normalized@,
        ),
{
    if !matches!(token.kind, Kind::BasicString | Kind::LiteralString) {
        return None;
    }
    let text = token.text.as_str();
    let n = text.unicode_len();
    let old_payload = String::from_str(token_payload(token));
    let new_payload = String::from_str(normalized);
    if old_payload == new_payload {
        return None;
    }
    let open = text.get_char(0);
    let close = text.get_char(n - 1);
    let fits = !contains_char(normalized, '"') && !contains_char(normalized, open)
        && !contains_char(normalized, close);
    proof {
        reveal_strlit("\"");
        assert(text@.last() == close);
        assert(text@[0] == open);
        assert(text@.subrange(0, 1) =~= seq![open]);
        assert(text@.subrange(n - 1, n as int) =~= seq![close]);
    }
    let r = if fits {
        let mut s = String::from_str(text.substring_char(0, 1));
        s.append(normalized);
        s.append(text.substring_char(n - 1, n));
        assert(s@ =~= seq![open] + normalized@ + seq![close]);
        SyntaxToken { kind: token.kind, text: s }
    } else {
        let mut s = String::from_str("\"");
        s.append(escape_quotes(normalized).as_str());
        s.append("\"");
        assert(s@ =~= seq!['"'] + escaped(normalized@) + seq!['"']);
        SyntaxToken { kind: Kind::BasicString, text: s }
    };
    proof {
        assert(fits == fits_delimiters(text@, normalized@));
        assert(Tree::Token(r.kind, r.text@) == requoted(token.kind, token.text@, normalized@));
    }
    Some(r)
}

} // verus!
