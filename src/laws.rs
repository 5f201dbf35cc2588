//! Laws of the edit, over the model of a tree.
use crate::model::{
    array_rewritten, at, children, fits_delimiters, is_string_site, kind_of, node_rewritten,
    normalized_by, payload, rewritten, strings_quoted, text_of, value_rewritten,
};
use crate::syntax::{Kind, Tree};
use vstd::prelude::*;

verus! {

proof fn lemma_value_noop(x: Tree, g: spec_fn(int) -> Seq<char>)
    requires
        forall|t: int|
            #![trigger children(x)[t]]
            0 <= t < children(x).len() && children(x)[t] is Token && kind_of(children(x)[t]).is_string()
                ==> g(t) == payload(text_of(children(x)[t])),
    ensures
        value_rewritten(x, g) == x,
{
    if let Tree::Node(k, ts) = x {
        let mt = ts.map(|t: int, c: Tree| rewritten(c, g(t)));
        assert forall|t: int| 0 <= t < ts.len() implies #[trigger] mt[t] == ts[t] by {
            assert(children(x)[t] == ts[t]);
        }
        assert(mt =~= ts);
    }
}

proof fn lemma_array_noop(x: Tree, g: spec_fn(int, int) -> Seq<char>)
    requires
        forall|v: int, t: int|
            #![trigger children(children(x)[v])[t]]
            0 <= v < children(x).len() && kind_of(children(x)[v]) == Kind::Value && children(x)[v] is Node
                && 0 <= t < children(children(x)[v]).len() && children(children(x)[v])[t] is Token
                && kind_of(children(children(x)[v])[t]).is_string()
                ==> g(v, t) == payload(text_of(children(children(x)[v])[t])),
    ensures
        array_rewritten(x, g) == x,
{
    if let Tree::Node(k, vs) = x {
        if k == Kind::Array {
            let mv = vs.map(|v: int, c: Tree| value_rewritten(c, |t: int| g(v, t)));
            assert forall|v: int| 0 <= v < vs.len() implies #[trigger] mv[v] == vs[v] by {
                assert(children(x)[v] == vs[v]);
                if kind_of(vs[v]) == Kind::Value && vs[v] is Node {
                    lemma_value_noop(vs[v], |t: int| g(v, t));
                }
            }
            assert(mv =~= vs);
        }
    }
}

/// Normalizing entries to their own payloads leaves the tree as it is: where
/// every string token is normalized to what it already holds, no token is
/// replaced.
pub proof fn lemma_equal_normalization_is_noop(n: Tree, outs: spec_fn(int, int, int) -> Seq<char>)
    requires
        forall|a: int, v: int, t: int|
            #![trigger at(n, a, v, t)]
            is_string_site(n, a, v, t) ==> outs(a, v, t) == payload(text_of(at(n, a, v, t))),
    ensures
        node_rewritten(n, outs) == n,
{
    if let Tree::Node(k, cs) = n {
        let m = cs.map(|a: int, c: Tree| array_rewritten(c, |v: int, t: int| outs(a, v, t)));
        assert forall|a: int| 0 <= a < cs.len() implies #[trigger] m[a] == cs[a] by {
            assert(children(n)[a] == cs[a]);
            if kind_of(cs[a]) == Kind::Array && cs[a] is Node {
                assert forall|v: int, t: int|
                    0 <= v < children(cs[a]).len() && kind_of(children(cs[a])[v]) == Kind::Value
                        && children(cs[a])[v] is Node && 0 <= t < children(children(cs[a])[v]).len()
                        && #[trigger] children(children(cs[a])[v])[t] is Token
                        && kind_of(children(children(cs[a])[v])[t]).is_string()
                    implies outs(a, v, t) == payload(text_of(children(children(cs[a])[v])[t])) by {
                    assert(at(n, a, v, t) == children(children(cs[a])[v])[t]);
                }
                lemma_array_noop(cs[a], |v: int, t: int| outs(a, v, t));
            }
        }
        assert(m =~= cs);
    }
}

/// Where each element of a tree goes under the edit.
proof fn lemma_rewritten_at(n: Tree, outs: spec_fn(int, int, int) -> Seq<char>)
    ensures
        kind_of(node_rewritten(n, outs)) == kind_of(n),
        children(node_rewritten(n, outs)).len() == children(n).len(),
        forall|a: int|
            0 <= a < children(n).len() && !(kind_of(children(n)[a]) == Kind::Array && children(n)[a] is Node)
                ==> #[trigger] children(node_rewritten(n, outs))[a] == children(n)[a],
        forall|a: int|
            0 <= a < children(n).len() && kind_of(children(n)[a]) == Kind::Array && children(n)[a] is Node
                ==> {
                &&& #[trigger] children(node_rewritten(n, outs))[a] is Node
                &&& kind_of(children(node_rewritten(n, outs))[a]) == Kind::Array
                &&& children(children(node_rewritten(n, outs))[a]).len() == children(children(n)[a]).len()
            },
        forall|a: int, v: int|
            0 <= a < children(n).len() && kind_of(children(n)[a]) == Kind::Array && children(n)[a] is Node
                && 0 <= v < children(children(n)[a]).len()
                && !(kind_of(children(children(n)[a])[v]) == Kind::Value && children(children(n)[a])[v] is Node)
                ==> #[trigger] children(children(node_rewritten(n, outs))[a])[v] == children(children(n)[a])[v],
        forall|a: int, v: int|
            0 <= a < children(n).len() && kind_of(children(n)[a]) == Kind::Array && children(n)[a] is Node
                && 0 <= v < children(children(n)[a]).len()
                && kind_of(children(children(n)[a])[v]) == Kind::Value && children(children(n)[a])[v] is Node
                ==> {
                &&& #[trigger] children(children(node_rewritten(n, outs))[a])[v] is Node
                &&& kind_of(children(children(node_rewritten(n, outs))[a])[v]) == Kind::Value
                &&& children(children(children(node_rewritten(n, outs))[a])[v]).len()
                    == children(children(children(n)[a])[v]).len()
            },
        forall|a: int, v: int, t: int|
            0 <= a < children(n).len() && kind_of(children(n)[a]) == Kind::Array && children(n)[a] is Node
                && 0 <= v < children(children(n)[a]).len()
                && kind_of(children(children(n)[a])[v]) == Kind::Value && children(children(n)[a])[v] is Node
                && 0 <= t < children(children(children(n)[a])[v]).len()
                ==> #[trigger] at(node_rewritten(n, outs), a, v, t) == rewritten(at(n, a, v, t), outs(a, v, t)),
{
}

/// Only string tokens are replaced: an entry `v` of array `a` none of whose
/// children is a string token (an inline table, a nested array, a number)
/// stays as it was, whatever the normalized values.
pub proof fn lemma_non_string_entry_kept(
    n: Tree,
    outs: spec_fn(int, int, int) -> Seq<char>,
    a: int,
    v: int,
)
    requires
        0 <= a < children(n).len(),
        0 <= v < children(children(n)[a]).len(),
        forall|t: int|
            0 <= t < children(children(children(n)[a])[v]).len() ==> !(#[trigger] at(n, a, v, t) is Token
                && kind_of(at(n, a, v, t)).is_string()),
    ensures
        children(children(node_rewritten(n, outs))[a])[v] == children(children(n)[a])[v],
{
    lemma_rewritten_at(n, outs);
    let e = children(children(n)[a])[v];
    if kind_of(children(n)[a]) == Kind::Array && children(n)[a] is Node && kind_of(e) == Kind::Value && e is Node {
        let e2 = children(children(node_rewritten(n, outs))[a])[v];
        assert(children(e2) =~= children(e)) by {
            assert forall|t: int| 0 <= t < children(e).len() implies #[trigger] children(e2)[t] == children(e)[t] by {
                assert(at(node_rewritten(n, outs), a, v, t) == rewritten(at(n, a, v, t), outs(a, v, t)));
            }
        }
    }
}

/// The tokens between the entries of an array (whitespace, newlines, commas,
/// comments, brackets) stay, in the same order: the array keeps its number of
/// children, and each token among them is as it was.
pub proof fn lemma_trivia_kept(n: Tree, outs: spec_fn(int, int, int) -> Seq<char>, a: int, i: int)
    requires
        0 <= a < children(n).len(),
        0 <= i < children(children(n)[a]).len(),
        children(children(n)[a])[i] is Token,
    ensures
        children(children(node_rewritten(n, outs))[a]).len() == children(children(n)[a]).len(),
        children(children(node_rewritten(n, outs))[a])[i] == children(children(n)[a])[i],
{
    lemma_rewritten_at(n, outs);
}

/// A string token whose payload is normalized to a different value that fits
/// between its delimiters keeps its kind and its delimiters; the new payload
/// stands between them.
pub proof fn lemma_quotes_kept(n: Tree, outs: spec_fn(int, int, int) -> Seq<char>, a: int, v: int, t: int)
    requires
        is_string_site(n, a, v, t),
        text_of(at(n, a, v, t)).len() >= 2,
        outs(a, v, t) != payload(text_of(at(n, a, v, t))),
        fits_delimiters(text_of(at(n, a, v, t)), outs(a, v, t)),
    ensures
        at(node_rewritten(n, outs), a, v, t) == Tree::Token(
            kind_of(at(n, a, v, t)),
            seq![text_of(at(n, a, v, t))[0]] + outs(a, v, t) + seq![text_of(at(n, a, v, t)).last()],
        ),
{
    lemma_rewritten_at(n, outs);
}

/// Running the edit a second time, with an idempotent normalization and the
/// same policy, replaces nothing: the tree stays as the first run left it.
/// This holds where no replaced payload of the first run needed escaping.
pub proof fn lemma_normalize_idempotent(n: Tree, f: spec_fn(Seq<char>) -> Seq<char>)
    requires
        strings_quoted(n),
        forall|x: Seq<char>| #[trigger] f(f(x)) == f(x),
        forall|a: int, v: int, t: int|
            #![trigger at(n, a, v, t)]
            is_string_site(n, a, v, t) && f(payload(text_of(at(n, a, v, t)))) != payload(text_of(at(n, a, v, t)))
                ==> fits_delimiters(text_of(at(n, a, v, t)), f(payload(text_of(at(n, a, v, t))))),
    ensures
        normalized_by(normalized_by(n, f), f) == normalized_by(n, f),
{
    let outs = |a: int, v: int, t: int| f(payload(text_of(at(n, a, v, t))));
    let m = node_rewritten(n, outs);
    lemma_rewritten_at(n, outs);
    assert forall|a: int, v: int, t: int| #[trigger] is_string_site(m, a, v, t) implies f(
        payload(text_of(at(m, a, v, t))),
    ) == payload(text_of(at(m, a, v, t))) by {
        assert(at(m, a, v, t) == rewritten(at(n, a, v, t), outs(a, v, t)));
        let e = at(n, a, v, t);
        assert(is_string_site(n, a, v, t));
        assert(text_of(e).len() >= 2);
        let p = payload(text_of(e));
        if f(p) != p {
            let text = text_of(e);
            assert(payload(seq![text[0]] + f(p) + seq![text.last()]) =~= f(p));
        }
    }
    lemma_equal_normalization_is_noop(m, |a: int, v: int, t: int| f(payload(text_of(at(m, a, v, t)))));
}

} // verus!
