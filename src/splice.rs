//! Rewriting the string entries of arrays in place.
use crate::model::{
    array_has_string, array_rewritten, array_strings_quoted, children, has_string, kind_of,
    node_rewritten, payload, rewritten, strings_quoted, text_of, value_has_string,
    value_rewritten, value_strings_quoted,
};
use crate::quote::{rewrite_string, token_payload};
use crate::syntax::{element_view, Kind, SyntaxElement, SyntaxNode, Tree};
use vstd::prelude::*;

verus! {

/// Why a requirement string could not be normalized.
#[derive(Debug)]
pub struct NormalizeError {
    pub message: String,
}

/// The normalization of one requirement string: what a user of the editor
/// supplies. `keep_full_version` is handed through unchanged.
pub trait Normalizer {
    fn normalize(&self, payload: &str, keep_full_version: bool) -> Result<String, NormalizeError>;
}

proof fn lemma_node_view(n: SyntaxNode)
    ensures
        n@ == Tree::Node(n.kind, n.children@.map(|i: int, c: SyntaxElement| element_view(c))),
        children(n@).len() == n.children@.len(),
        forall|i: int| 0 <= i < n.children@.len() ==> #[trigger] children(n@)[i] == element_view(n.children@[i]),
{
    assert(children(n@) =~= n.children@.map(|i: int, c: SyntaxElement| element_view(c)));
}

/// Normalizes the string tokens among the children of the value node `value`,
/// in place. Each string token either stays, or is replaced by the requoted
/// form of what `normalizer` returned for its payload; every other child stays.
/// On an error the string tokens after the failing one stay as they were.
pub fn splice_value<N: Normalizer>(
    value: &mut SyntaxNode,
    keep_full_version: bool,
    normalizer: &N,
) -> (r: Result<(), NormalizeError>)
    requires
        old(value).kind == Kind::Value,
        value_strings_quoted(old(value)@),
    ensures
        final(value).kind == Kind::Value,
        r is Err ==> value_has_string(old(value)@),
        exists|outs: spec_fn(int) -> Seq<char>|
            #[trigger] value_rewritten(old(value)@, outs) == final(value)@,
{
    let ghost old_value = value@;
    let ghost mut outs: Seq<Seq<char>> = children(value@).map(|t: int, c: Tree| payload(text_of(c)));
    proof { lemma_node_view(*value); }
    let n = value.children.len();
    let mut t: usize = 0;
    let mut result: Result<(), NormalizeError> = Ok(());
    while t < n && result.is_ok()
        invariant
            t <= n,
            n == value.children@.len(),
            value.kind == old(value).kind,
            old_value == old(value)@,
            value_strings_quoted(old_value),
            outs.len() == n,
            children(old_value).len() == n,
            forall|i: int| 0 <= i < n ==> #[trigger] element_view(value.children@[i]) == rewritten(children(old_value)[i], outs[i]),
            forall|i: int| t <= i < n ==> #[trigger] element_view(value.children@[i]) == children(old_value)[i],
            forall|i: int| t <= i < n ==> #[trigger] outs[i] == payload(text_of(children(old_value)[i])),
            result is Err ==> value_has_string(old_value),
        decreases n - t,
    {
        let replacement = match &value.children[t] {
            SyntaxElement::Token(tok) => {
                if matches!(tok.kind, Kind::BasicString | Kind::LiteralString) {
                    assert(children(old_value)[t as int] == element_view(value.children@[t as int]));
                    match normalizer.normalize(token_payload(tok), keep_full_version) {
                        Ok(out) => {
                            let rep = rewrite_string(tok, out.as_str());
                            proof { outs = outs.update(t as int, out@); }
                            rep
                        },
                        Err(e) => {
                            assert(children(old_value)[t as int] is Token && kind_of(children(old_value)[t as int]).is_string());
                            result = Err(e);
                            None
                        },
                    }
                } else {
                    None
                }
            },
            SyntaxElement::Node(_) => None,
        };
        if let Some(tok) = replacement {
            value.children.set(t, SyntaxElement::Token(tok));
        }
        t += 1;
    }
    proof {
        lemma_node_view(*value);
        let f = |i: int| outs[i];
        assert(children(value@) =~= children(old_value).map(|i: int, c: Tree| rewritten(c, f(i))));
        assert(value_rewritten(old_value, f) == value@);
    }
    result
}

proof fn lemma_value_rewritten_ext(c: Tree, f: spec_fn(int) -> Seq<char>, g: spec_fn(int) -> Seq<char>)
    requires
        forall|t: int| #[trigger] f(t) == g(t),
    ensures
        value_rewritten(c, f) == value_rewritten(c, g),
{
    if let Tree::Node(k, cs) = c {
        assert(cs.map(|t: int, x: Tree| rewritten(x, f(t))) =~= cs.map(|t: int, x: Tree| rewritten(x, g(t))));
    }
}

/// Normalizing every child of `c` to its own payload leaves `c` as it is.
proof fn lemma_value_rewritten_same(c: Tree)
    ensures
        value_rewritten(c, |t: int| payload(text_of(children(c)[t]))) == c,
{
    let f = |t: int| payload(text_of(children(c)[t]));
    if let Tree::Node(k, cs) = c {
        let m = cs.map(|t: int, x: Tree| rewritten(x, f(t)));
        assert forall|t: int| 0 <= t < cs.len() implies #[trigger] m[t] == cs[t] by {
            assert(f(t) == payload(text_of(cs[t])));
        }
        assert(m =~= cs);
    }
}

proof fn lemma_element_view_node(n: SyntaxNode)
    ensures
        element_view(SyntaxElement::Node(n)) == n@,
        kind_of(n@) == n.kind,
        n@ is Node,
{
}

/// Normalizes the string entries of the array node `array` in place, entry by
/// entry, as `splice_value` does for one entry; every other child stays. On an
/// error the entries after the failing one stay as they were.
pub fn splice_array<N: Normalizer>(
    array: &mut SyntaxNode,
    keep_full_version: bool,
    normalizer: &N,
) -> (r: Result<(), NormalizeError>)
    requires
        old(array).kind == Kind::Array,
        array_strings_quoted(old(array)@),
    ensures
        final(array).kind == Kind::Array,
        r is Err ==> array_has_string(old(array)@),
        exists|outs: spec_fn(int, int) -> Seq<char>|
            #[trigger] array_rewritten(old(array)@, outs) == final(array)@,
{
    let ghost old_array = array@;
    proof { lemma_node_view(*array); }
    let ghost mut fs: Seq<spec_fn(int) -> Seq<char>> = children(old_array).map(
        |v: int, c: Tree| (|t: int| payload(text_of(children(c)[t]))),
    );
    assert forall|i: int| 0 <= i < children(old_array).len() implies value_rewritten(children(old_array)[i], #[trigger] fs[i])
        == children(old_array)[i] by {
        lemma_value_rewritten_same(children(old_array)[i]);
    }
    let n = array.children.len();
    let mut v: usize = 0;
    let mut result: Result<(), NormalizeError> = Ok(());
    while v < n && result.is_ok()
        invariant
            v <= n,
            n == array.children@.len(),
            array.kind == Kind::Array,
            old_array == old(array)@,
            array_strings_quoted(old_array),
            fs.len() == n,
            children(old_array).len() == n,
            forall|i: int| 0 <= i < n ==> #[trigger] element_view(array.children@[i]) == value_rewritten(children(old_array)[i], fs[i]),
            forall|i: int| v <= i < n ==> #[trigger] element_view(array.children@[i]) == children(old_array)[i],
            result is Err ==> array_has_string(old_array),
        decreases n - v,
    {
        proof {
            lemma_value_rewritten_same(children(old_array)[v as int]);
        }
        match &mut array.children[v] {
            SyntaxElement::Node(entry) => {
                if entry.kind == Kind::Value {
                    let ghost old_entry = entry@;
                    proof { lemma_element_view_node(*entry); }
                    let res = splice_value(entry, keep_full_version, normalizer);
                    proof {
                        let o = choose|o: spec_fn(int) -> Seq<char>| #[trigger] value_rewritten(old_entry, o) == entry@;
                        fs = fs.update(v as int, o);
                        lemma_element_view_node(*entry);
                        if res is Err {
                            assert(children(old_array)[v as int] == old_entry);
                        }
                    }
                    result = res;
                }
            },
            SyntaxElement::Token(_) => {},
        }
        v += 1;
    }
    proof {
        lemma_node_view(*array);
        let f = |i: int, t: int| fs[i](t);
        assert forall|i: int| 0 <= i < n implies value_rewritten(children(old_array)[i], |t: int| f(i, t))
            == #[trigger] children(array@)[i] by {
            lemma_value_rewritten_ext(children(old_array)[i], |t: int| f(i, t), fs[i]);
        }
        assert(children(array@) =~= children(old_array).map(|i: int, c: Tree| value_rewritten(c, |t: int| f(i, t))));
        assert(array_rewritten(old_array, f) == array@);
    }
    result
}

proof fn lemma_array_rewritten_ext(c: Tree, f: spec_fn(int, int) -> Seq<char>, g: spec_fn(int, int) -> Seq<char>)
    requires
        forall|v: int, t: int| #[trigger] f(v, t) == g(v, t),
    ensures
        array_rewritten(c, f) == array_rewritten(c, g),
{
    if let Tree::Node(k, cs) = c {
        assert forall|v: int| 0 <= v < cs.len() implies value_rewritten(#[trigger] cs[v], |t: int| f(v, t))
            == value_rewritten(cs[v], |t: int| g(v, t)) by {
            lemma_value_rewritten_ext(cs[v], |t: int| f(v, t), |t: int| g(v, t));
        }
        assert(cs.map(|v: int, x: Tree| value_rewritten(x, |t: int| f(v, t))) =~= cs.map(
            |v: int, x: Tree| value_rewritten(x, |t: int| g(v, t)),
        ));
    }
}

/// Normalizing every string of an array to its own payload leaves it as it is.
proof fn lemma_array_rewritten_same(c: Tree)
    ensures
        array_rewritten(c, |v: int, t: int| payload(text_of(children(children(c)[v])[t]))) == c,
{
    let f = |v: int, t: int| payload(text_of(children(children(c)[v])[t]));
    if let Tree::Node(k, cs) = c {
        let m = cs.map(|v: int, x: Tree| value_rewritten(x, |t: int| f(v, t)));
        assert forall|v: int| 0 <= v < cs.len() implies #[trigger] m[v] == cs[v] by {
            lemma_value_rewritten_ext(cs[v], |t: int| f(v, t), |t: int| payload(text_of(children(cs[v])[t])));
            lemma_value_rewritten_same(cs[v]);
        }
        assert(m =~= cs);
    }
}

/// Normalizes, in place, every string entry of every array that is a child of
/// `node` (a value that holds an array): each string token of an entry either
/// stays, or is replaced by the requoted form of what `normalizer` returned for
/// its payload. Entries that are no strings, and every token between entries,
/// stay as they were. The first error of `normalizer` ends the work and is
/// returned; what was spliced before it stays. Only `normalizer` fails, so
/// where no entry holds a string token the result is `Ok`.
pub fn normalize_array_entry<N: Normalizer>(
    node: &mut SyntaxNode,
    keep_full_version: bool,
    normalizer: &N,
) -> (r: Result<(), NormalizeError>)
    requires
        strings_quoted(old(node)@),
    ensures
        final(node).kind == old(node).kind,
        r is Err ==> has_string(old(node)@),
        exists|outs: spec_fn(int, int, int) -> Seq<char>|
            #[trigger] node_rewritten(old(node)@, outs) == final(node)@,
{
    let ghost old_node = node@;
    proof { lemma_node_view(*node); }
    let ghost mut fs: Seq<spec_fn(int, int) -> Seq<char>> = children(old_node).map(
        |a: int, c: Tree| (|v: int, t: int| payload(text_of(children(children(c)[v])[t]))),
    );
    assert forall|i: int| 0 <= i < children(old_node).len() implies array_rewritten(children(old_node)[i], #[trigger] fs[i])
        == children(old_node)[i] by {
        lemma_array_rewritten_same(children(old_node)[i]);
    }
    let n = node.children.len();
    let mut a: usize = 0;
    let mut result: Result<(), NormalizeError> = Ok(());
    while a < n && result.is_ok()
        invariant
            a <= n,
            n == node.children@.len(),
            node.kind == old(node).kind,
            old_node == old(node)@,
            strings_quoted(old_node),
            fs.len() == n,
            children(old_node).len() == n,
            forall|i: int| 0 <= i < n ==> #[trigger] element_view(node.children@[i]) == array_rewritten(children(old_node)[i], fs[i]),
            forall|i: int| a <= i < n ==> #[trigger] element_view(node.children@[i]) == children(old_node)[i],
            result is Err ==> has_string(old_node),
        decreases n - a,
    {
        match &mut node.children[a] {
            SyntaxElement::Node(array) => {
                if array.kind == Kind::Array {
                    let ghost old_array = array@;
                    proof { lemma_element_view_node(*array); }
                    let res = splice_array(array, keep_full_version, normalizer);
                    proof {
                        let o = choose|o: spec_fn(int, int) -> Seq<char>| #[trigger] array_rewritten(old_array, o) == array@;
                        fs = fs.update(a as int, o);
                        lemma_element_view_node(*array);
                        if res is Err {
                            assert(children(old_node)[a as int] == old_array);
                        }
                    }
                    result = res;
                }
            },
            SyntaxElement::Token(_) => {},
        }
        a += 1;
    }
    proof {
        lemma_node_view(*node);
        let f = |i: int, v: int, t: int| fs[i](v, t);
        assert forall|i: int| 0 <= i < n implies array_rewritten(children(old_node)[i], |v: int, t: int| f(i, v, t))
            == #[trigger] children(node@)[i] by {
            lemma_array_rewritten_ext(children(old_node)[i], |v: int, t: int| f(i, v, t), fs[i]);
        }
        assert(children(node@) =~= children(old_node).map(|i: int, c: Tree| array_rewritten(c, |v: int, t: int| f(i, v, t))));
        assert(node_rewritten(old_node, f) == node@);
    }
    result
}

} // verus!
