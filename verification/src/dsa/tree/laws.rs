use crate::dsa::tree::shape::lemma_delete_contains;
use crate::dsa::tree::shape::lemma_delete_ordered;
use crate::dsa::tree::shape::lemma_delete_size;
use crate::dsa::tree::shape::lemma_inorder;
use crate::dsa::tree::shape::lemma_insert_contains;
use crate::dsa::tree::shape::lemma_insert_ordered;
use crate::dsa::tree::shape::lemma_insert_size;
use crate::dsa::tree::shape::lemma_pre_post;
use crate::dsa::tree::shape::strictly_increasing;
use crate::dsa::tree::shape::Shape;
use vstd::prelude::*;
use vstd::seq_lib::seq_to_set_is_finite;

verus! {

/// The tree after the values of `vs` were inserted one after the other.
pub open spec fn insert_all(t: Shape, vs: Seq<i32>) -> Shape
    decreases vs.len(),
{
    if vs.len() == 0 {
        t
    } else {
        insert_all(t, vs.drop_last()).insert(vs.last())
    }
}

/// The tree after the values of `ks` were deleted one after the other.
pub open spec fn delete_all(t: Shape, ks: Seq<i32>) -> Shape
    decreases ks.len(),
{
    if ks.len() == 0 {
        t
    } else {
        delete_all(t, ks.drop_last()).delete(ks.last())
    }
}

/// Insertions into an ordered tree leave an ordered tree, which holds what
/// the tree held and what was inserted.
pub proof fn law_insert_all(t: Shape, vs: Seq<i32>)
    requires
        t.ordered(),
    ensures
        insert_all(t, vs).ordered(),
        forall|x: i32| #[trigger] insert_all(t, vs).contains(x) <==> (t.contains(x) || vs.contains(x)),
    decreases vs.len(),
{
    if vs.len() > 0 {
        let head = vs.drop_last();
        let mid = insert_all(t, head);
        law_insert_all(t, head);
        lemma_insert_ordered(mid, vs.last());
        lemma_insert_contains(mid, vs.last());
        assert forall|x: i32| #[trigger]
            insert_all(t, vs).contains(x) <==> (t.contains(x) || vs.contains(x)) by {
            if head.contains(x) {
                let i = choose|i: int| 0 <= i < head.len() && head[i] == x;
                assert(vs[i] == x);
            }
            if vs.contains(x) {
                let i = choose|i: int| 0 <= i < vs.len() && vs[i] == x;
                if i < head.len() {
                    assert(head[i] == x);
                } else {
                    assert(x == vs.last());
                }
            }
            assert(vs[vs.len() - 1] == vs.last());
        }
    }
}

/// After any sequence of insertions into the empty tree, the
/// number of values in the tree is the number of distinct values inserted.
pub proof fn law_count_is_distinct(vs: Seq<i32>)
    ensures
        vs.to_set().finite(),
        insert_all(Shape::Empty, vs).size() == vs.to_set().len(),
    decreases vs.len(),
{
    seq_to_set_is_finite(vs);
    if vs.len() == 0 {
        assert(vs.to_set() =~= Set::<i32>::empty());
    } else {
        let head = vs.drop_last();
        let x = vs.last();
        let mid = insert_all(Shape::Empty, head);
        law_count_is_distinct(head);
        law_insert_all(Shape::Empty, head);
        lemma_insert_size(mid, x);
        assert(vs.to_set() =~= head.to_set().insert(x)) by {
            assert forall|y: i32| vs.to_set().contains(y) <==> head.to_set().insert(x).contains(
                y,
            ) by {
                if head.contains(y) {
                    let i = choose|i: int| 0 <= i < head.len() && head[i] == y;
                    assert(vs[i] == y);
                }
                if vs.contains(y) {
                    let i = choose|i: int| 0 <= i < vs.len() && vs[i] == y;
                    if i < head.len() {
                        assert(head[i] == y);
                    }
                }
                assert(vs[vs.len() - 1] == x);
            }
        }
        assert(mid.contains(x) <==> head.to_set().contains(x));
    }
}

/// The in-order sequence of an ordered tree is strictly
/// increasing, has one place for each value, and holds exactly the values
/// of the tree.
pub proof fn law_inorder_sorted(t: Shape)
    requires
        t.ordered(),
    ensures
        strictly_increasing(t.inorder()),
        t.inorder().len() == t.size(),
        forall|x: i32| #[trigger] t.inorder().contains(x) <==> t.contains(x),
{
    lemma_inorder(t);
}

/// After any sequence of insertions into the empty tree, the
/// in-order sequence is the sorted sequence of the distinct values inserted.
pub proof fn law_inorder_of_inserted(vs: Seq<i32>)
    ensures
        strictly_increasing(insert_all(Shape::Empty, vs).inorder()),
        insert_all(Shape::Empty, vs).inorder().to_set() == vs.to_set(),
{
    let t = insert_all(Shape::Empty, vs);
    law_insert_all(Shape::Empty, vs);
    lemma_inorder(t);
    assert(t.inorder().to_set() =~= vs.to_set());
}

/// The three orders hold the same values, each as often as the tree has
/// values.
pub proof fn law_traversals_agree(t: Shape)
    ensures
        t.preorder().len() == t.size(),
        t.inorder().len() == t.size(),
        t.postorder().len() == t.size(),
        forall|x: i32| #[trigger] t.preorder().contains(x) <==> t.contains(x),
        forall|x: i32| #[trigger] t.inorder().contains(x) <==> t.contains(x),
        forall|x: i32| #[trigger] t.postorder().contains(x) <==> t.contains(x),
{
    lemma_inorder(t);
    lemma_pre_post(t);
}

/// A value is in the tree right after its insertion,
/// and it stays there through insertions and through deletions of other
/// values.
pub proof fn law_inserted_is_found(t: Shape, v: i32, other: i32)
    requires
        t.ordered(),
    ensures
        t.insert(v).contains(v),
        t.contains(v) ==> t.insert(other).contains(v),
        t.contains(v) && other != v ==> t.delete(other).contains(v),
{
    lemma_insert_contains(t, v);
    lemma_insert_contains(t, other);
    lemma_delete_contains(t, other);
}

/// After the deletion of a value that the tree holds
/// the tree does not hold it, is smaller by one, and holds every other
/// value as before; the deletion of a value that the tree does not hold
/// leaves the tree as it is.
pub proof fn law_delete(t: Shape, v: i32)
    requires
        t.ordered(),
    ensures
        t.delete(v).ordered(),
        !t.delete(v).contains(v),
        forall|x: i32| x != v ==> (#[trigger] t.delete(v).contains(x) <==> t.contains(x)),
        t.contains(v) ==> t.delete(v).size() == t.size() - 1,
        !t.contains(v) ==> t.delete(v) == t,
{
    lemma_delete_ordered(t, v);
    lemma_delete_contains(t, v);
    lemma_delete_size(t, v);
}

/// Deletions from an ordered tree leave an ordered tree, which holds what
/// the tree held and was not deleted.
pub proof fn law_delete_all(t: Shape, ks: Seq<i32>)
    requires
        t.ordered(),
    ensures
        delete_all(t, ks).ordered(),
        forall|x: i32| #[trigger] delete_all(t, ks).contains(x) <==> (t.contains(x) && !ks.contains(x)),
    decreases ks.len(),
{
    if ks.len() > 0 {
        let head = ks.drop_last();
        let mid = delete_all(t, head);
        law_delete_all(t, head);
        lemma_delete_ordered(mid, ks.last());
        lemma_delete_contains(mid, ks.last());
        assert forall|x: i32| #[trigger]
            delete_all(t, ks).contains(x) <==> (t.contains(x) && !ks.contains(x)) by {
            if head.contains(x) {
                let i = choose|i: int| 0 <= i < head.len() && head[i] == x;
                assert(ks[i] == x);
            }
            if ks.contains(x) {
                let i = choose|i: int| 0 <= i < ks.len() && ks[i] == x;
                if i < head.len() {
                    assert(head[i] == x);
                } else {
                    assert(x == ks.last());
                }
            }
            assert(ks[ks.len() - 1] == ks.last());
        }
    }
}

/// Once every value that was inserted has been deleted, in
/// whatever order and however often, the tree is empty: its size is 0 and
/// it holds no value.
pub proof fn law_drain(vs: Seq<i32>, ks: Seq<i32>)
    requires
        forall|x: i32| vs.contains(x) ==> ks.contains(x),
    ensures
        delete_all(insert_all(Shape::Empty, vs), ks) == Shape::Empty,
        delete_all(insert_all(Shape::Empty, vs), ks).size() == 0,
        forall|x: i32| !delete_all(insert_all(Shape::Empty, vs), ks).contains(x),
{
    let t = insert_all(Shape::Empty, vs);
    law_insert_all(Shape::Empty, vs);
    law_delete_all(t, ks);
    let e = delete_all(t, ks);
    match e {
        Shape::Empty => {},
        Shape::Fork(_, top, _) => {
            assert(e.contains(top));
            assert(t.contains(top) && !ks.contains(top));
            assert(vs.contains(top));
        },
    }
}

} // verus!
