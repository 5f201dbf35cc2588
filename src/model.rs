//! What an edit does to the model of a tree.
use crate::syntax::{Kind, Tree};
use vstd::prelude::*;

verus! {

/// The payload of a quoted token: its text without the first and the last character.
pub open spec fn payload(text: Seq<char>) -> Seq<char> {
    text.subrange(1, text.len() - 1)
}

/// `p` with every `"` preceded by a backslash.
pub open spec fn escaped(p: Seq<char>) -> Seq<char>
    decreases p.len(),
{
    if p.len() == 0 {
        Seq::empty()
    } else if p.last() == '"' {
        escaped(p.drop_last()) + seq!['\\', '"']
    } else {
        escaped(p.drop_last()).push(p.last())
    }
}

/// The payload `p` can stand between the delimiters of `text` as it is.
pub open spec fn fits_delimiters(text: Seq<char>, p: Seq<char>) -> bool {
    !p.contains('"') && !p.contains(text[0]) && !p.contains(text.last())
}

/// The token that carries payload `p` in place of the string token `(kind, text)`:
/// the same delimiters where the payload fits between them, else a basic string
/// with its double quotes escaped.
pub open spec fn requoted(kind: Kind, text: Seq<char>, p: Seq<char>) -> Tree {
    if fits_delimiters(text, p) {
        Tree::Token(kind, seq![text[0]] + p + seq![text.last()])
    } else {
        Tree::Token(Kind::BasicString, seq!['"'] + escaped(p) + seq!['"'])
    }
}

/// A child of a value node after its payload was normalized to `out`: a string
/// token whose payload differs from `out` is requoted; anything else stays.
pub open spec fn rewritten(e: Tree, out: Seq<char>) -> Tree {
    match e {
        Tree::Token(k, text) => if k.is_string() && out != payload(text) {
            requoted(k, text, out)
        } else {
            e
        },
        _ => e,
    }
}

/// A value node after child `t` of it was normalized to `outs(t)`.
pub open spec fn value_rewritten(v: Tree, outs: spec_fn(int) -> Seq<char>) -> Tree {
    match v {
        Tree::Node(k, cs) => if k == Kind::Value {
            Tree::Node(k, cs.map(|t: int, c: Tree| rewritten(c, outs(t))))
        } else {
            v
        },
        _ => v,
    }
}

/// An array node after child `t` of its entry `v` was normalized to `outs(v, t)`.
pub open spec fn array_rewritten(a: Tree, outs: spec_fn(int, int) -> Seq<char>) -> Tree {
    match a {
        Tree::Node(k, cs) => if k == Kind::Array {
            Tree::Node(k, cs.map(|v: int, c: Tree| value_rewritten(c, |t: int| outs(v, t))))
        } else {
            a
        },
        _ => a,
    }
}

/// A node holding arrays after child `t` of entry `v` of its array `a` was
/// normalized to `outs(a, v, t)`.
pub open spec fn node_rewritten(n: Tree, outs: spec_fn(int, int, int) -> Seq<char>) -> Tree {
    match n {
        Tree::Node(k, cs) => Tree::Node(
            k,
            cs.map(|a: int, c: Tree| array_rewritten(c, |v: int, t: int| outs(a, v, t))),
        ),
        _ => n,
    }
}

/// The children of a tree (none for a token).
pub open spec fn children(e: Tree) -> Seq<Tree> {
    match e {
        Tree::Node(_, cs) => cs,
        _ => Seq::empty(),
    }
}

/// The kind of a tree.
pub open spec fn kind_of(e: Tree) -> Kind {
    match e {
        Tree::Node(k, _) => k,
        Tree::Token(k, _) => k,
    }
}

/// The text of a token (empty for a node).
pub open spec fn text_of(e: Tree) -> Seq<char> {
    match e {
        Tree::Token(_, text) => text,
        _ => Seq::empty(),
    }
}

/// The element at child `t` of child `v` of child `a` of `n`, where it exists.
pub open spec fn at(n: Tree, a: int, v: int, t: int) -> Tree {
    children(children(children(n)[a])[v])[t]
}

/// Position `(a, v, t)` exists in `n` and holds an entry's string token: `a` is
/// an array, `v` a value node in it.
pub open spec fn is_string_site(n: Tree, a: int, v: int, t: int) -> bool {
    &&& 0 <= a < children(n).len()
    &&& kind_of(children(n)[a]) == Kind::Array
    &&& 0 <= v < children(children(n)[a]).len()
    &&& kind_of(children(children(n)[a])[v]) == Kind::Value
    &&& 0 <= t < children(children(children(n)[a])[v]).len()
    &&& kind_of(at(n, a, v, t)).is_string()
    &&& at(n, a, v, t) is Token
}

/// Every string token among the children of `v` has both of its delimiters.
pub open spec fn value_strings_quoted(v: Tree) -> bool {
    forall|t: int|
        #![trigger children(v)[t]]
        0 <= t < children(v).len() && children(v)[t] is Token && kind_of(children(v)[t]).is_string()
            ==> text_of(children(v)[t]).len() >= 2
}

/// Every string token of every entry of the array `a` has both of its delimiters.
pub open spec fn array_strings_quoted(a: Tree) -> bool {
    forall|v: int|
        #![trigger children(a)[v]]
        0 <= v < children(a).len() && children(a)[v] is Node && kind_of(children(a)[v]) == Kind::Value
            ==> value_strings_quoted(children(a)[v])
}

/// Every string token that the editor reads has both of its delimiters.
pub open spec fn strings_quoted(n: Tree) -> bool {
    forall|a: int|
        #![trigger children(n)[a]]
        0 <= a < children(n).len() && children(n)[a] is Node && kind_of(children(n)[a]) == Kind::Array
            ==> array_strings_quoted(children(n)[a])
}

/// Some child of the value node `v` is a string token.
pub open spec fn value_has_string(v: Tree) -> bool {
    exists|t: int|
        #![trigger children(v)[t]]
        0 <= t < children(v).len() && children(v)[t] is Token && kind_of(children(v)[t]).is_string()
}

/// Some entry of the array `a` holds a string token.
pub open spec fn array_has_string(a: Tree) -> bool {
    exists|v: int|
        #![trigger children(a)[v]]
        0 <= v < children(a).len() && children(a)[v] is Node && kind_of(children(a)[v]) == Kind::Value
            && value_has_string(children(a)[v])
}

/// Some array among the children of `n` has an entry that holds a string token.
pub open spec fn has_string(n: Tree) -> bool {
    exists|a: int|
        #![trigger children(n)[a]]
        0 <= a < children(n).len() && children(n)[a] is Node && kind_of(children(n)[a]) == Kind::Array
            && array_has_string(children(n)[a])
}

/// The edit of `n` by a pure normalization function `f`.
pub open spec fn normalized_by(n: Tree, f: spec_fn(Seq<char>) -> Seq<char>) -> Tree {
    node_rewritten(n, |a: int, v: int, t: int| f(payload(text_of(at(n, a, v, t)))))
}

} // verus!
