//! The values of a tree from left to right.

use crate::order::{faithful_clone, lemma_asymmetric, precedes, total_order};
use crate::tree::BST;
use vstd::prelude::*;

verus! {

/// Each value of `s` precedes all that follow it.
pub open spec fn ascending<T: Ord>(s: Seq<T>) -> bool {
    forall|i: int, j: int| 0 <= i < j < s.len() ==> precedes(#[trigger] s[i], #[trigger] s[j])
}

/// Appends the values of `bt`, from left to right, to `out`.
fn collect<T: Ord + Clone>(bt: &BST<T>, out: &mut Vec<T>)
    requires
        faithful_clone::<T>(),
    ensures
        final(out)@ == old(out)@ + bt.in_order(),
    decreases *bt,
{
    match *bt {
        BST::INode(ref l, ref d, ref r) => {
            collect(l, out);
            out.push(d.clone());
            collect(r, out);
            assert(out@ =~= old(out)@ + bt.in_order());
        },
        BST::Leaf(ref d) => {
            out.push(d.clone());
            assert(out@ =~= old(out)@ + bt.in_order());
        },
        BST::Empty => {
            assert(out@ =~= old(out)@ + bt.in_order());
        },
    }
}

/// The values of `bt` from left to right: in ascending order where the tree is ordered.
pub fn traverse<T: Ord + Clone>(bt: &BST<T>) -> (values: Vec<T>)
    requires
        faithful_clone::<T>(),
    ensures
        values@ == bt.in_order(),
{
    let mut values: Vec<T> = Vec::new();
    collect(bt, &mut values);
    assert(values@ =~= bt.in_order());
    values
}

/// The traversal holds exactly the contents, each node once.
pub proof fn lemma_in_order_contents<T: Ord>(t: BST<T>)
    ensures
        forall|x: T| t.in_order().contains(x) <==> t@.contains(x),
        t.in_order().len() == t.node_count(),
    decreases t,
{
    let s = t.in_order();
    match t {
        BST::INode(l, d, r) => {
            lemma_in_order_contents(*l);
            lemma_in_order_contents(*r);
            let a = l.in_order();
            let b = r.in_order();
            assert forall|x: T| s.contains(x) <==> t@.contains(x) by {
                if s.contains(x) {
                    let i = choose|i: int| 0 <= i < s.len() && s[i] == x;
                    if i < a.len() {
                        assert(a[i] == x);
                        assert(a.contains(x));
                    } else if i > a.len() {
                        assert(b[i - a.len() - 1] == x);
                        assert(b.contains(x));
                    }
                }
                if t@.contains(x) {
                    if l.contents().contains(x) {
                        assert(a.contains(x));
                        let i = choose|i: int| 0 <= i < a.len() && a[i] == x;
                        assert(s[i] == x);
                    } else if r.contents().contains(x) {
                        assert(b.contains(x));
                        let i = choose|i: int| 0 <= i < b.len() && b[i] == x;
                        assert(s[a.len() + 1 + i] == x);
                    } else {
                        assert(s[a.len() as int] == x);
                    }
                }
            }
        },
        BST::Leaf(d) => {
            assert(s[0] == d);
        },
        BST::Empty => {},
    }
}

/// The traversal of an ordered tree is strictly ascending, so no value occurs twice.
pub proof fn lemma_in_order_ascending<T: Ord>(t: BST<T>)
    requires
        total_order::<T>(),
        t.ordered(),
    ensures
        ascending(t.in_order()),
        t.in_order().no_duplicates(),
    decreases t,
{
    let s = t.in_order();
    match t {
        BST::INode(l, d, r) => {
            lemma_in_order_ascending(*l);
            lemma_in_order_ascending(*r);
            lemma_in_order_contents(*l);
            lemma_in_order_contents(*r);
            let a = l.in_order();
            let b = r.in_order();
            assert forall|i: int, j: int| 0 <= i < j < s.len() implies precedes(
                #[trigger] s[i],
                #[trigger] s[j],
            ) by {
                if i < a.len() {
                    assert(a.contains(a[i]));
                    assert(precedes(s[i], d));
                }
                if i > a.len() {
                    assert(s[i] == b[i - a.len() - 1]);
                }
                if j < a.len() {
                    assert(s[j] == a[j]);
                }
                if j > a.len() {
                    assert(b.contains(b[j - a.len() - 1]));
                    assert(precedes(d, s[j]));
                }
            }
        },
        _ => {},
    }
    assert forall|i: int, j: int| 0 <= i < s.len() && 0 <= j < s.len() && i != j implies s[i]
        != s[j] by {
        if i < j {
            lemma_asymmetric(s[i], s[j]);
        } else {
            lemma_asymmetric(s[j], s[i]);
        }
    }
}

/// An ordered tree has as many nodes as it holds values.
pub proof fn lemma_cardinality<T: Ord>(t: BST<T>)
    requires
        total_order::<T>(),
        t.ordered(),
    ensures
        t@.finite(),
        t@.len() == t.node_count(),
{
    lemma_in_order_contents(t);
    lemma_in_order_ascending(t);
    t.in_order().unique_seq_to_set();
    assert(t.in_order().to_set() =~= t@);
}

/// Two strictly ascending sequences that hold the same values are equal.
pub proof fn lemma_ascending_unique<T: Ord>(a: Seq<T>, b: Seq<T>)
    requires
        total_order::<T>(),
        ascending(a),
        ascending(b),
        forall|x: T| a.contains(x) <==> b.contains(x),
    ensures
        a == b,
    decreases a.len(),
{
    if a.len() == 0 {
        if b.len() > 0 {
            assert(b.contains(b[0]));
        }
        assert(a =~= b);
    } else {
        assert(a.contains(a.last()));
        assert(b.contains(a.last()));
        assert(b.len() > 0);
        assert(b.contains(b.last()));
        assert(a.contains(b.last()));
        let i = choose|i: int| 0 <= i < a.len() && a[i] == b.last();
        let j = choose|j: int| 0 <= j < b.len() && b[j] == a.last();
        if i < a.len() - 1 {
            assert(precedes(a[i], a.last()));
            if j < b.len() - 1 {
                assert(precedes(b[j], b.last()));
            }
            lemma_asymmetric(a[i], a.last());
        }
        assert(a.last() == b.last());
        let a0 = a.drop_last();
        let b0 = b.drop_last();
        assert forall|x: T| a0.contains(x) <==> b0.contains(x) by {
            if a0.contains(x) {
                let k = choose|k: int| 0 <= k < a0.len() && a0[k] == x;
                assert(a[k] == x);
                assert(a.contains(x));
                assert(precedes(a[k], a.last()));
                lemma_asymmetric(x, a.last());
                let m = choose|m: int| 0 <= m < b.len() && b[m] == x;
                assert(b0[m] == x);
            }
            if b0.contains(x) {
                let k = choose|k: int| 0 <= k < b0.len() && b0[k] == x;
                assert(b[k] == x);
                assert(b.contains(x));
                assert(precedes(b[k], b.last()));
                lemma_asymmetric(x, b.last());
                let m = choose|m: int| 0 <= m < a.len() && a[m] == x;
                assert(a0[m] == x);
            }
        }
        assert(ascending(a0)) by {
            assert forall|p: int, q: int| 0 <= p < q < a0.len() implies precedes(
                #[trigger] a0[p],
                #[trigger] a0[q],
            ) by {
                assert(precedes(a[p], a[q]));
            }
        }
        assert(ascending(b0)) by {
            assert forall|p: int, q: int| 0 <= p < q < b0.len() implies precedes(
                #[trigger] b0[p],
                #[trigger] b0[q],
            ) by {
                assert(precedes(b[p], b[q]));
            }
        }
        lemma_ascending_unique(a0, b0);
        assert(a =~= a0.push(a.last()));
        assert(b =~= b0.push(b.last()));
    }
}

/// The contents of an ordered tree fix its traversal, whatever its shape.
pub proof fn lemma_in_order_determined<T: Ord>(s: BST<T>, t: BST<T>)
    requires
        total_order::<T>(),
        s.ordered(),
        t.ordered(),
        s@ == t@,
    ensures
        s.in_order() == t.in_order(),
{
    lemma_in_order_ascending(s);
    lemma_in_order_ascending(t);
    lemma_in_order_contents(s);
    lemma_in_order_contents(t);
    lemma_ascending_unique(s.in_order(), t.in_order());
}

} // verus!
