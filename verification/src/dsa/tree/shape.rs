use vstd::prelude::*;

verus! {

/// The mathematical model of a binary tree of integers: either nothing, or a
/// value with a left and a right subtree.
pub enum Shape {
    Empty,
    Fork(Box<Shape>, i32, Box<Shape>),
}

/// A tree that holds `v` and nothing else.
pub open spec fn leaf(v: i32) -> Shape {
    Shape::Fork(Box::new(Shape::Empty), v, Box::new(Shape::Empty))
}

/// Whether every element of `s` is smaller than each one after it.
pub open spec fn strictly_increasing(s: Seq<i32>) -> bool {
    forall|i: int, j: int| 0 <= i < j < s.len() ==> s[i] < s[j]
}

impl Shape {
    /// Number of values held.
    pub open spec fn size(self) -> nat
        decreases self,
    {
        match self {
            Shape::Empty => 0,
            Shape::Fork(l, _, r) => l.size() + 1 + r.size(),
        }
    }

    /// Number of values on the longest way from the top to the bottom.
    pub open spec fn depth(self) -> nat
        decreases self,
    {
        match self {
            Shape::Empty => 0,
            Shape::Fork(l, _, r) => if l.depth() >= r.depth() {
                l.depth() + 1
            } else {
                r.depth() + 1
            },
        }
    }

    /// Whether `x` is held anywhere in the tree.
    pub open spec fn contains(self, x: i32) -> bool
        decreases self,
    {
        match self {
            Shape::Empty => false,
            Shape::Fork(l, v, r) => x == v || l.contains(x) || r.contains(x),
        }
    }

    /// The search-tree order: below every value, all that is on its left is
    /// smaller and all that is on its right is larger.
    pub open spec fn ordered(self) -> bool
        decreases self,
    {
        match self {
            Shape::Empty => true,
            Shape::Fork(l, v, r) => {
                &&& l.ordered()
                &&& r.ordered()
                &&& forall|x: i32| #[trigger] l.contains(x) ==> x < v
                &&& forall|x: i32| #[trigger] r.contains(x) ==> v < x
            },
        }
    }

    /// The subtree whose top value is `key`, as the descent by comparison
    /// finds it; `Empty` where the descent finds none.
    pub open spec fn find(self, key: i32) -> Shape
        decreases self,
    {
        match self {
            Shape::Empty => Shape::Empty,
            Shape::Fork(l, v, r) => if key == v {
                self
            } else if key < v {
                l.find(key)
            } else {
                r.find(key)
            },
        }
    }

    /// The tree with `v` put in as a new leaf where the descent by comparison
    /// ends; the tree itself where the descent meets `v`.
    pub open spec fn insert(self, v: i32) -> Shape
        decreases self,
    {
        match self {
            Shape::Empty => leaf(v),
            Shape::Fork(l, x, r) => if v == x {
                self
            } else if v < x {
                Shape::Fork(Box::new(l.insert(v)), x, r)
            } else {
                Shape::Fork(l, x, Box::new(r.insert(v)))
            },
        }
    }

    /// The value at the end of the right spine (of a tree that is not empty).
    pub open spec fn max(self) -> i32
        decreases self,
    {
        match self {
            Shape::Empty => 0,
            Shape::Fork(_, v, r) => if *r is Empty {
                v
            } else {
                r.max()
            },
        }
    }

    /// The value at the end of the left spine (of a tree that is not empty).
    pub open spec fn min(self) -> i32
        decreases self,
    {
        match self {
            Shape::Empty => 0,
            Shape::Fork(l, v, _) => if *l is Empty {
                v
            } else {
                l.min()
            },
        }
    }

    /// The tree without `key`. A value with at most one subtree gives its
    /// place to that subtree; a value with two is replaced by the largest
    /// value on its left, which leaves its old place.
    pub open spec fn delete(self, key: i32) -> Shape
        decreases self,
    {
        match self {
            Shape::Empty => Shape::Empty,
            Shape::Fork(l, v, r) => if key < v {
                Shape::Fork(Box::new(l.delete(key)), v, r)
            } else if key > v {
                Shape::Fork(l, v, Box::new(r.delete(key)))
            } else if *l is Empty {
                *r
            } else if *r is Empty {
                *l
            } else {
                Shape::Fork(Box::new(l.delete(l.max())), l.max(), r)
            },
        }
    }

    /// Left subtree, value, right subtree.
    pub open spec fn inorder(self) -> Seq<i32>
        decreases self,
    {
        match self {
            Shape::Empty => Seq::empty(),
            Shape::Fork(l, v, r) => l.inorder() + seq![v] + r.inorder(),
        }
    }

    /// Value, left subtree, right subtree.
    pub open spec fn preorder(self) -> Seq<i32>
        decreases self,
    {
        match self {
            Shape::Empty => Seq::empty(),
            Shape::Fork(l, v, r) => seq![v] + l.preorder() + r.preorder(),
        }
    }

    /// Left subtree, right subtree, value.
    pub open spec fn postorder(self) -> Seq<i32>
        decreases self,
    {
        match self {
            Shape::Empty => Seq::empty(),
            Shape::Fork(l, v, r) => l.postorder() + r.postorder() + seq![v],
        }
    }

    /// Whether `s` stands somewhere in the tree as a whole subtree.
    pub open spec fn has_sub(self, s: Shape) -> bool
        decreases self,
    {
        self == s || match self {
            Shape::Empty => false,
            Shape::Fork(l, _, r) => l.has_sub(s) || r.has_sub(s),
        }
    }

    /// The value under which the descent by comparison would hang `v`;
    /// `None` where the tree is empty or holds `v` on that way.
    pub open spec fn slot_parent(self, v: i32) -> Option<i32>
        decreases self,
    {
        match self {
            Shape::Empty => None,
            Shape::Fork(l, x, r) => if v == x {
                None
            } else if v < x {
                if *l is Empty {
                    Some(x)
                } else {
                    l.slot_parent(v)
                }
            } else {
                if *r is Empty {
                    Some(x)
                } else {
                    r.slot_parent(v)
                }
            },
        }
    }

    /// The tree with a leaf `v` hung under the value `at`, on the side that
    /// comparison with `at` gives; the descent goes by `at`.
    pub open spec fn attach(self, at: i32, v: i32) -> Shape
        decreases self,
    {
        match self {
            Shape::Empty => Shape::Empty,
            Shape::Fork(l, x, r) => if at == x {
                if v < x {
                    Shape::Fork(Box::new(leaf(v)), x, r)
                } else {
                    Shape::Fork(l, x, Box::new(leaf(v)))
                }
            } else if at < x {
                Shape::Fork(Box::new(l.attach(at, v)), x, r)
            } else {
                Shape::Fork(l, x, Box::new(r.attach(at, v)))
            },
        }
    }

    /// The tree with the value `key` overwritten by `v`, every subtree in
    /// its place; the descent goes by `key`.
    pub open spec fn replace(self, key: i32, v: i32) -> Shape
        decreases self,
    {
        match self {
            Shape::Empty => Shape::Empty,
            Shape::Fork(l, x, r) => if key == x {
                Shape::Fork(l, v, r)
            } else if key < x {
                Shape::Fork(Box::new(l.replace(key, v)), x, r)
            } else {
                Shape::Fork(l, x, Box::new(r.replace(key, v)))
            },
        }
    }

    /// Number of subtrees below the top value that are not empty.
    pub open spec fn child_count(self) -> nat {
        match self {
            Shape::Empty => 0,
            Shape::Fork(l, _, r) => (if *l is Empty { 0nat } else { 1nat })
                + (if *r is Empty { 0nat } else { 1nat }),
        }
    }
}

/// In an ordered tree the descent by comparison finds a value exactly when the
/// tree holds it, and what it finds has that value on top and is a subtree.
pub proof fn lemma_find(t: Shape, key: i32)
    requires
        t.ordered(),
    ensures
        t.find(key) is Fork <==> t.contains(key),
        t.find(key) matches Shape::Fork(_, v, _) ==> v == key,
        t.has_sub(t.find(key)) || t.find(key) is Empty,
        t.find(key).ordered(),
    decreases t,
{
    match t {
        Shape::Empty => {},
        Shape::Fork(l, v, r) => {
            if key < v {
                lemma_find(*l, key);
                assert(t.find(key) == l.find(key));
                assert(!r.contains(key));
                assert(t.contains(key) == l.contains(key));
            } else if key > v {
                lemma_find(*r, key);
                assert(t.find(key) == r.find(key));
                assert(!l.contains(key));
                assert(t.contains(key) == r.contains(key));
            } else {
                assert(t.find(key) == t);
            }
        },
    }
}

/// What a subtree holds the whole tree holds, and a subtree of an ordered
/// tree is ordered.
pub proof fn lemma_sub(t: Shape, s: Shape)
    requires
        t.has_sub(s),
    ensures
        forall|x: i32| s.contains(x) ==> t.contains(x),
        t.ordered() ==> s.ordered(),
        s.size() <= t.size(),
    decreases t,
{
    if t != s {
        match t {
            Shape::Empty => {},
            Shape::Fork(l, v, r) => {
                if l.has_sub(s) {
                    lemma_sub(*l, s);
                } else {
                    lemma_sub(*r, s);
                }
            },
        }
    }
}

/// What a tree of one value holds.
pub proof fn lemma_leaf(v: i32)
    ensures
        leaf(v).size() == 1,
        leaf(v).depth() == 1,
        leaf(v).ordered(),
        forall|x: i32| #[trigger] leaf(v).contains(x) <==> x == v,
{
    reveal_with_fuel(Shape::size, 2);
    reveal_with_fuel(Shape::depth, 2);
    reveal_with_fuel(Shape::ordered, 2);
    reveal_with_fuel(Shape::contains, 2);
}

/// The two subtrees below the top of a subtree are subtrees too.
pub proof fn lemma_sub_children(t: Shape, s: Shape)
    requires
        t.has_sub(s),
    ensures
        s matches Shape::Fork(l, _, r) ==> t.has_sub(*l) && t.has_sub(*r),
    decreases t,
{
    match s {
        Shape::Empty => {},
        Shape::Fork(sl, _, sr) => {
            if t == s {
                assert(sl.has_sub(*sl));
                assert(sr.has_sub(*sr));
            } else {
                match t {
                    Shape::Empty => {},
                    Shape::Fork(l, _, r) => {
                        if l.has_sub(s) {
                            lemma_sub_children(*l, s);
                        } else {
                            lemma_sub_children(*r, s);
                        }
                    },
                }
            }
            assert(t.has_sub(*sl));
            assert(t.has_sub(*sr));
        },
    }
}

/// In an ordered tree a subtree is what the descent to its top value finds.
pub proof fn lemma_sub_is_found(t: Shape, s: Shape)
    requires
        t.ordered(),
        t.has_sub(s),
    ensures
        s matches Shape::Fork(_, v, _) ==> t.find(v) == s,
    decreases t,
{
    match s {
        Shape::Empty => {},
        Shape::Fork(_, sv, _) => {
            assert(s.contains(sv));
            if t == s {
                assert(t.find(sv) == s);
            } else {
                match t {
                    Shape::Empty => {},
                    Shape::Fork(l, v, r) => {
                        if l.has_sub(s) {
                            lemma_sub(*l, s);
                            lemma_sub_is_found(*l, s);
                            assert(l.contains(sv));
                            assert(t.find(sv) == l.find(sv));
                        } else {
                            lemma_sub(*r, s);
                            lemma_sub_is_found(*r, s);
                            assert(r.contains(sv));
                            assert(t.find(sv) == r.find(sv));
                        }
                    },
                }
            }
        },
    }
}

/// After an insertion the tree holds the new value and what it held before,
/// and nothing else.
pub proof fn lemma_insert_contains(t: Shape, v: i32)
    ensures
        forall|x: i32| #[trigger] t.insert(v).contains(x) <==> (x == v || t.contains(x)),
    decreases t,
{
    match t {
        Shape::Empty => {
            lemma_leaf(v);
            assert(t.insert(v) == leaf(v));
        },
        Shape::Fork(l, y, r) => {
            lemma_insert_contains(*l, v);
            lemma_insert_contains(*r, v);
            assert forall|x: i32| #[trigger]
                t.insert(v).contains(x) <==> (x == v || t.contains(x)) by {
                if v == y {
                    assert(t.insert(v) == t);
                } else if v < y {
                    assert(t.insert(v) == Shape::Fork(Box::new(l.insert(v)), y, r));
                    assert(t.insert(v).contains(x) <==> (x == y || l.insert(v).contains(x)
                        || r.contains(x)));
                } else {
                    assert(t.insert(v) == Shape::Fork(l, y, Box::new(r.insert(v))));
                    assert(t.insert(v).contains(x) <==> (x == y || l.contains(x)
                        || r.insert(v).contains(x)));
                }
                assert(t.contains(x) <==> (x == y || l.contains(x) || r.contains(x)));
            }
        },
    }
}

/// Insertion keeps the order.
pub proof fn lemma_insert_ordered(t: Shape, v: i32)
    requires
        t.ordered(),
    ensures
        t.insert(v).ordered(),
    decreases t,
{
    match t {
        Shape::Empty => {
            lemma_leaf(v);
        },
        Shape::Fork(l, y, r) => {
            lemma_insert_contains(*l, v);
            lemma_insert_contains(*r, v);
            if v < y {
                lemma_insert_ordered(*l, v);
                assert(t.insert(v) == Shape::Fork(Box::new(l.insert(v)), y, r));
                assert(t.insert(v).ordered());
            } else if v > y {
                lemma_insert_ordered(*r, v);
                assert(t.insert(v) == Shape::Fork(l, y, Box::new(r.insert(v))));
                assert(t.insert(v).ordered());
            }
        },
    }
}

/// Insertion of a value that an ordered tree holds changes nothing; of
/// another, it makes the tree larger by one.
pub proof fn lemma_insert_size(t: Shape, v: i32)
    requires
        t.ordered(),
    ensures
        t.contains(v) ==> t.insert(v) == t,
        !t.contains(v) ==> t.insert(v).size() == t.size() + 1,
    decreases t,
{
    match t {
        Shape::Empty => {
            lemma_leaf(v);
        },
        Shape::Fork(l, y, r) => {
            assert(t.contains(v) <==> (v == y || l.contains(v) || r.contains(v)));
            if v < y {
                lemma_insert_size(*l, v);
                assert(!r.contains(v));
                assert(t.insert(v) == Shape::Fork(Box::new(l.insert(v)), y, r));
                assert(t.insert(v).size() == l.insert(v).size() + 1 + r.size());
            } else if v > y {
                lemma_insert_size(*r, v);
                assert(!l.contains(v));
                assert(t.insert(v) == Shape::Fork(l, y, Box::new(r.insert(v))));
                assert(t.insert(v).size() == l.size() + 1 + r.insert(v).size());
            }
        },
    }
}

/// A tree is not deeper than it is large.
pub proof fn lemma_depth(t: Shape)
    ensures
        t.depth() <= t.size(),
    decreases t,
{
    match t {
        Shape::Empty => {},
        Shape::Fork(l, _, r) => {
            lemma_depth(*l);
            lemma_depth(*r);
        },
    }
}

/// The largest value of an ordered tree that is not empty: the tree holds it,
/// and nothing larger.
pub proof fn lemma_max(t: Shape)
    requires
        t.ordered(),
        t is Fork,
    ensures
        t.contains(t.max()),
        forall|x: i32| #[trigger] t.contains(x) ==> x <= t.max(),
    decreases t,
{
    match t {
        Shape::Empty => {},
        Shape::Fork(l, v, r) => {
            if *r is Fork {
                lemma_max(*r);
                assert(t.max() == r.max());
                assert(r.contains(r.max()));
            } else {
                assert(t.max() == v);
            }
            assert forall|x: i32| #[trigger] t.contains(x) implies x <= t.max() by {
                assert(x == v || l.contains(x) || r.contains(x));
            }
        },
    }
}

/// The smallest value of an ordered tree that is not empty: the tree holds
/// it, and nothing smaller.
pub proof fn lemma_min(t: Shape)
    requires
        t.ordered(),
        t is Fork,
    ensures
        t.contains(t.min()),
        forall|x: i32| #[trigger] t.contains(x) ==> t.min() <= x,
    decreases t,
{
    match t {
        Shape::Empty => {},
        Shape::Fork(l, v, r) => {
            if *l is Fork {
                lemma_min(*l);
                assert(t.min() == l.min());
                assert(l.contains(l.min()));
            } else {
                assert(t.min() == v);
            }
            assert forall|x: i32| #[trigger] t.contains(x) implies t.min() <= x by {
                assert(x == v || l.contains(x) || r.contains(x));
            }
        },
    }
}

/// After a deletion from an ordered tree the tree holds what it held before
/// but for the key.
pub proof fn lemma_delete_contains(t: Shape, key: i32)
    requires
        t.ordered(),
    ensures
        forall|x: i32| #[trigger] t.delete(key).contains(x) <==> (x != key && t.contains(x)),
    decreases t,
{
    match t {
        Shape::Empty => {},
        Shape::Fork(l, v, r) => {
            let d = t.delete(key);
            if key < v {
                lemma_delete_contains(*l, key);
                assert(d == Shape::Fork(Box::new(l.delete(key)), v, r));
                assert forall|x: i32| #[trigger]
                    d.contains(x) <==> (x != key && t.contains(x)) by {
                    assert(d.contains(x) <==> (x == v || l.delete(key).contains(x)
                        || r.contains(x)));
                    assert(t.contains(x) <==> (x == v || l.contains(x) || r.contains(x)));
                    assert(r.contains(x) ==> v < x);
                }
            } else if key > v {
                lemma_delete_contains(*r, key);
                assert(d == Shape::Fork(l, v, Box::new(r.delete(key))));
                assert forall|x: i32| #[trigger]
                    d.contains(x) <==> (x != key && t.contains(x)) by {
                    assert(d.contains(x) <==> (x == v || l.contains(x)
                        || r.delete(key).contains(x)));
                    assert(t.contains(x) <==> (x == v || l.contains(x) || r.contains(x)));
                    assert(l.contains(x) ==> x < v);
                }
            } else if *l is Empty {
                assert(d == *r);
                assert forall|x: i32| #[trigger]
                    d.contains(x) <==> (x != key && t.contains(x)) by {
                    assert(t.contains(x) <==> (x == v || l.contains(x) || r.contains(x)));
                    assert(r.contains(x) ==> v < x);
                }
            } else if *r is Empty {
                assert(d == *l);
                assert forall|x: i32| #[trigger]
                    d.contains(x) <==> (x != key && t.contains(x)) by {
                    assert(t.contains(x) <==> (x == v || l.contains(x) || r.contains(x)));
                    assert(l.contains(x) ==> x < v);
                }
            } else {
                lemma_max(*l);
                lemma_delete_contains(*l, l.max());
                assert(d == Shape::Fork(Box::new(l.delete(l.max())), l.max(), r));
                assert forall|x: i32| #[trigger]
                    d.contains(x) <==> (x != key && t.contains(x)) by {
                    assert(d.contains(x) <==> (x == l.max() || l.delete(l.max()).contains(x)
                        || r.contains(x)));
                    assert(t.contains(x) <==> (x == v || l.contains(x) || r.contains(x)));
                    assert(l.contains(x) ==> x < v);
                    assert(r.contains(x) ==> v < x);
                }
            }
        },
    }
}

/// Deletion keeps the order.
pub proof fn lemma_delete_ordered(t: Shape, key: i32)
    requires
        t.ordered(),
    ensures
        t.delete(key).ordered(),
    decreases t,
{
    match t {
        Shape::Empty => {},
        Shape::Fork(l, v, r) => {
            let d = t.delete(key);
            if key < v {
                lemma_delete_contains(*l, key);
                lemma_delete_ordered(*l, key);
                assert(d == Shape::Fork(Box::new(l.delete(key)), v, r));
                assert(d.ordered());
            } else if key > v {
                lemma_delete_contains(*r, key);
                lemma_delete_ordered(*r, key);
                assert(d == Shape::Fork(l, v, Box::new(r.delete(key))));
                assert(d.ordered());
            } else if *l is Fork && *r is Fork {
                lemma_max(*l);
                lemma_delete_contains(*l, l.max());
                lemma_delete_ordered(*l, l.max());
                assert(d == Shape::Fork(Box::new(l.delete(l.max())), l.max(), r));
                assert forall|x: i32| #[trigger] r.contains(x) implies l.max() < x by {
                    assert(v < x);
                }
                assert(d.ordered());
            }
        },
    }
}

/// Deletion of a value that the tree does not hold changes nothing; of one
/// that an ordered tree holds, it makes the tree smaller by one.
pub proof fn lemma_delete_size(t: Shape, key: i32)
    requires
        t.ordered(),
    ensures
        !t.contains(key) ==> t.delete(key) == t,
        t.contains(key) ==> t.delete(key).size() + 1 == t.size(),
    decreases t,
{
    match t {
        Shape::Empty => {},
        Shape::Fork(l, v, r) => {
            let d = t.delete(key);
            assert(t.contains(key) <==> (key == v || l.contains(key) || r.contains(key)));
            assert(t.size() == l.size() + 1 + r.size());
            if key < v {
                lemma_delete_size(*l, key);
                assert(!r.contains(key));
                assert(d == Shape::Fork(Box::new(l.delete(key)), v, r));
                assert(d.size() == l.delete(key).size() + 1 + r.size());
            } else if key > v {
                lemma_delete_size(*r, key);
                assert(!l.contains(key));
                assert(d == Shape::Fork(l, v, Box::new(r.delete(key))));
                assert(d.size() == l.size() + 1 + r.delete(key).size());
            } else if *l is Empty {
                assert(d == *r);
                assert(l.size() == 0);
            } else if *r is Empty {
                assert(d == *l);
                assert(r.size() == 0);
            } else {
                lemma_max(*l);
                lemma_delete_size(*l, l.max());
                assert(d == Shape::Fork(Box::new(l.delete(l.max())), l.max(), r));
                assert(d.size() == l.delete(l.max()).size() + 1 + r.size());
            }
        },
    }
}

/// The in-order sequence holds exactly the values of the tree, one place for
/// each; in an ordered tree it is strictly increasing.
pub proof fn lemma_inorder(t: Shape)
    ensures
        t.inorder().len() == t.size(),
        forall|x: i32| #[trigger] t.inorder().contains(x) <==> t.contains(x),
        t.ordered() ==> strictly_increasing(t.inorder()),
    decreases t,
{
    match t {
        Shape::Empty => {},
        Shape::Fork(l, v, r) => {
            lemma_inorder(*l);
            lemma_inorder(*r);
            let a = l.inorder();
            let b = r.inorder();
            let s = t.inorder();
            assert(s == a + seq![v] + b);
            assert forall|x: i32| #[trigger] s.contains(x) <==> t.contains(x) by {
                if s.contains(x) {
                    let i = choose|i: int| 0 <= i < s.len() && s[i] == x;
                    if i < a.len() {
                        assert(a[i] == x);
                        assert(a.contains(x));
                    } else if i > a.len() {
                        assert(b[i - a.len() - 1] == x);
                        assert(b.contains(x));
                    }
                }
                if t.contains(x) {
                    if x == v {
                        assert(s[a.len() as int] == x);
                    } else if l.contains(x) {
                        assert(a.contains(x));
                        let i = choose|i: int| 0 <= i < a.len() && a[i] == x;
                        assert(s[i] == x);
                    } else {
                        assert(b.contains(x));
                        let i = choose|i: int| 0 <= i < b.len() && b[i] == x;
                        assert(s[a.len() + 1 + i] == x);
                    }
                }
            }
            if t.ordered() {
                assert forall|i: int, j: int| 0 <= i < j < s.len() implies s[i] < s[j] by {
                    if i < a.len() {
                        assert(a.contains(a[i]));
                        assert(l.contains(s[i]));
                    } else if i > a.len() {
                        assert(b.contains(b[i - a.len() - 1]));
                        assert(r.contains(s[i]));
                    }
                    if j < a.len() {
                        assert(a.contains(a[j]));
                        assert(l.contains(s[j]));
                    } else if j > a.len() {
                        assert(b.contains(b[j - a.len() - 1]));
                        assert(r.contains(s[j]));
                    }
                }
            }
        },
    }
}

/// The pre-order and the post-order sequence hold exactly the values of the
/// tree, one place for each.
pub proof fn lemma_pre_post(t: Shape)
    ensures
        t.preorder().len() == t.size(),
        t.postorder().len() == t.size(),
        forall|x: i32| #[trigger] t.preorder().contains(x) <==> t.contains(x),
        forall|x: i32| #[trigger] t.postorder().contains(x) <==> t.contains(x),
    decreases t,
{
    match t {
        Shape::Empty => {},
        Shape::Fork(l, v, r) => {
            lemma_pre_post(*l);
            lemma_pre_post(*r);
            let a = l.preorder();
            let b = r.preorder();
            let s = t.preorder();
            assert(s == seq![v] + a + b);
            assert forall|x: i32| #[trigger] s.contains(x) <==> t.contains(x) by {
                if s.contains(x) {
                    let i = choose|i: int| 0 <= i < s.len() && s[i] == x;
                    if 1 <= i <= a.len() {
                        assert(a[i - 1] == x);
                        assert(a.contains(x));
                    } else if i > a.len() {
                        assert(b[i - a.len() - 1] == x);
                        assert(b.contains(x));
                    }
                }
                if t.contains(x) {
                    if x == v {
                        assert(s[0] == x);
                    } else if l.contains(x) {
                        assert(a.contains(x));
                        let i = choose|i: int| 0 <= i < a.len() && a[i] == x;
                        assert(s[i + 1] == x);
                    } else {
                        assert(b.contains(x));
                        let i = choose|i: int| 0 <= i < b.len() && b[i] == x;
                        assert(s[a.len() + 1 + i] == x);
                    }
                }
            }
            let c = l.postorder();
            let d = r.postorder();
            let p = t.postorder();
            assert(p == c + d + seq![v]);
            assert forall|x: i32| #[trigger] p.contains(x) <==> t.contains(x) by {
                if p.contains(x) {
                    let i = choose|i: int| 0 <= i < p.len() && p[i] == x;
                    if i < c.len() {
                        assert(c[i] == x);
                        assert(c.contains(x));
                    } else if i < c.len() + d.len() {
                        assert(d[i - c.len()] == x);
                        assert(d.contains(x));
                    }
                }
                if t.contains(x) {
                    if x == v {
                        assert(p[(c.len() + d.len()) as int] == x);
                    } else if l.contains(x) {
                        assert(c.contains(x));
                        let i = choose|i: int| 0 <= i < c.len() && c[i] == x;
                        assert(p[i] == x);
                    } else {
                        assert(d.contains(x));
                        let i = choose|i: int| 0 <= i < d.len() && d[i] == x;
                        assert(p[c.len() + i] == x);
                    }
                }
            }
        },
    }
}

/// The empty tree is a subtree of every tree, and every tree of itself.
pub proof fn lemma_sub_trivial(t: Shape)
    ensures
        t.has_sub(Shape::Empty),
        t.has_sub(t),
    decreases t,
{
    match t {
        Shape::Empty => {},
        Shape::Fork(l, _, _) => {
            lemma_sub_trivial(*l);
        },
    }
}

/// Where the descent for `v` ends under a value, the tree holds that value
/// and does not hold `v`.
pub proof fn lemma_slot_parent(t: Shape, v: i32, at: i32)
    requires
        t.ordered(),
        t.slot_parent(v) == Some(at),
    ensures
        t.contains(at),
        !t.contains(v),
        at != v,
    decreases t,
{
    match t {
        Shape::Empty => {},
        Shape::Fork(l, x, r) => {
            assert(t.contains(v) <==> (v == x || l.contains(v) || r.contains(v)));
            assert(t.contains(at) <==> (at == x || l.contains(at) || r.contains(at)));
            if v < x {
                assert(!r.contains(v));
                if *l is Fork {
                    lemma_slot_parent(*l, v, at);
                } else {
                    assert(!l.contains(v));
                }
            } else if v > x {
                assert(!l.contains(v));
                if *r is Fork {
                    lemma_slot_parent(*r, v, at);
                } else {
                    assert(!r.contains(v));
                }
            }
        },
    }
}

/// Hanging a leaf under a value that the tree does not hold changes nothing.
pub proof fn lemma_attach_absent(t: Shape, at: i32, v: i32)
    requires
        !t.contains(at),
    ensures
        t.attach(at, v) == t,
    decreases t,
{
    match t {
        Shape::Empty => {},
        Shape::Fork(l, x, r) => {
            assert(t.contains(at) <==> (at == x || l.contains(at) || r.contains(at)));
            lemma_attach_absent(*l, at, v);
            lemma_attach_absent(*r, at, v);
        },
    }
}

/// Hanging `v` under the value where its descent ends is inserting it.
pub proof fn lemma_attach_is_insert(t: Shape, at: i32, v: i32)
    requires
        t.ordered(),
        t.slot_parent(v) == Some(at),
    ensures
        t.attach(at, v) == t.insert(v),
    decreases t,
{
    match t {
        Shape::Empty => {},
        Shape::Fork(l, x, r) => {
            if v < x {
                if *l is Fork {
                    lemma_slot_parent(*l, v, at);
                    lemma_attach_is_insert(*l, at, v);
                    assert(at < x);
                    assert(t.attach(at, v) == Shape::Fork(Box::new(l.attach(at, v)), x, r));
                } else {
                    assert(at == x);
                    assert(l.insert(v) == leaf(v));
                    assert(t.attach(at, v) == Shape::Fork(Box::new(leaf(v)), x, r));
                }
                assert(t.insert(v) == Shape::Fork(Box::new(l.insert(v)), x, r));
            } else if v > x {
                if *r is Fork {
                    lemma_slot_parent(*r, v, at);
                    lemma_attach_is_insert(*r, at, v);
                    assert(at > x);
                    assert(t.attach(at, v) == Shape::Fork(l, x, Box::new(r.attach(at, v))));
                } else {
                    assert(at == x);
                    assert(r.insert(v) == leaf(v));
                    assert(t.attach(at, v) == Shape::Fork(l, x, Box::new(leaf(v))));
                }
                assert(t.insert(v) == Shape::Fork(l, x, Box::new(r.insert(v))));
            }
        },
    }
}

/// Hanging `v` where its descent ends takes every subtree to a subtree.
pub proof fn lemma_attach_sub(t: Shape, s: Shape, at: i32, v: i32)
    requires
        t.ordered(),
        t.has_sub(s),
        t.slot_parent(v) == Some(at),
    ensures
        t.attach(at, v).has_sub(s.attach(at, v)),
    decreases t,
{
    lemma_sub_trivial(t.attach(at, v));
    if t != s {
        match t {
            Shape::Empty => {},
            Shape::Fork(l, x, r) => {
                let ta = t.attach(at, v);
                if l.has_sub(s) {
                    lemma_sub(*l, s);
                    if v < x && *l is Fork {
                        lemma_slot_parent(*l, v, at);
                        assert(at < x);
                        lemma_attach_sub(*l, s, at, v);
                        assert(ta == Shape::Fork(Box::new(l.attach(at, v)), x, r));
                        assert(ta.has_sub(s.attach(at, v)));
                    } else if v < x {
                        assert(s == Shape::Empty);
                        assert(s.attach(at, v) == Shape::Empty);
                    } else {
                        if *r is Fork {
                            lemma_slot_parent(*r, v, at);
                        }
                        assert(at >= x);
                        assert(!l.contains(at));
                        assert(!s.contains(at));
                        lemma_attach_absent(s, at, v);
                        if at == x {
                            assert(ta == Shape::Fork(l, x, Box::new(leaf(v))));
                        } else {
                            assert(ta == Shape::Fork(l, x, Box::new(r.attach(at, v))));
                        }
                        assert(ta.has_sub(s));
                    }
                } else {
                    lemma_sub(*r, s);
                    if v > x && *r is Fork {
                        lemma_slot_parent(*r, v, at);
                        assert(at > x);
                        lemma_attach_sub(*r, s, at, v);
                        assert(ta == Shape::Fork(l, x, Box::new(r.attach(at, v))));
                        assert(ta.has_sub(s.attach(at, v)));
                    } else if v > x {
                        assert(s == Shape::Empty);
                        assert(s.attach(at, v) == Shape::Empty);
                    } else {
                        if *l is Fork {
                            lemma_slot_parent(*l, v, at);
                        }
                        assert(at <= x);
                        assert(!r.contains(at));
                        assert(!s.contains(at));
                        lemma_attach_absent(s, at, v);
                        if at == x {
                            assert(ta == Shape::Fork(Box::new(leaf(v)), x, r));
                        } else {
                            assert(ta == Shape::Fork(Box::new(l.attach(at, v)), x, r));
                        }
                        assert(ta.has_sub(s));
                    }
                }
            },
        }
    }
}

/// Deleting a value that has at most one subtree takes every subtree with
/// another top value to a subtree.
pub proof fn lemma_delete_sub(t: Shape, s: Shape, key: i32)
    requires
        t.ordered(),
        t.has_sub(s),
        t.find(key).child_count() <= 1,
        s matches Shape::Fork(_, sv, _) ==> sv != key,
    ensures
        t.delete(key).has_sub(s.delete(key)),
    decreases t,
{
    let td = t.delete(key);
    lemma_sub_trivial(td);
    if t != s {
        match t {
            Shape::Empty => {},
            Shape::Fork(l, x, r) => {
                if l.has_sub(s) {
                    lemma_sub(*l, s);
                    if key < x {
                        lemma_delete_sub(*l, s, key);
                        assert(td == Shape::Fork(Box::new(l.delete(key)), x, r));
                        assert(td.has_sub(s.delete(key)));
                    } else {
                        assert(!l.contains(key));
                        assert(!s.contains(key));
                        lemma_delete_size(s, key);
                        if key > x {
                            assert(td == Shape::Fork(l, x, Box::new(r.delete(key))));
                            assert(td.has_sub(s));
                        } else if *l is Empty {
                            assert(s == Shape::Empty);
                        } else {
                            assert(*r is Empty);
                            assert(td == *l);
                        }
                    }
                } else {
                    lemma_sub(*r, s);
                    if key > x {
                        lemma_delete_sub(*r, s, key);
                        assert(td == Shape::Fork(l, x, Box::new(r.delete(key))));
                        assert(td.has_sub(s.delete(key)));
                    } else {
                        assert(!r.contains(key));
                        assert(!s.contains(key));
                        lemma_delete_size(s, key);
                        if key < x {
                            assert(td == Shape::Fork(Box::new(l.delete(key)), x, r));
                            assert(td.has_sub(s));
                        } else if *r is Empty {
                            assert(s == Shape::Empty);
                        } else {
                            assert(*l is Empty);
                            assert(td == *r);
                        }
                    }
                }
            },
        }
    }
}

/// Overwriting a value that the tree does not hold changes nothing.
pub proof fn lemma_replace_absent(t: Shape, key: i32, v: i32)
    requires
        !t.contains(key),
    ensures
        t.replace(key, v) == t,
    decreases t,
{
    match t {
        Shape::Empty => {},
        Shape::Fork(l, x, r) => {
            assert(t.contains(key) <==> (key == x || l.contains(key) || r.contains(key)));
            lemma_replace_absent(*l, key, v);
            lemma_replace_absent(*r, key, v);
        },
    }
}

/// Overwriting a value takes every subtree to a subtree.
pub proof fn lemma_replace_sub(t: Shape, s: Shape, key: i32, v: i32)
    requires
        t.ordered(),
        t.has_sub(s),
    ensures
        t.replace(key, v).has_sub(s.replace(key, v)),
    decreases t,
{
    let tr = t.replace(key, v);
    lemma_sub_trivial(tr);
    if t != s {
        match t {
            Shape::Empty => {},
            Shape::Fork(l, x, r) => {
                if l.has_sub(s) {
                    lemma_sub(*l, s);
                    if key < x {
                        lemma_replace_sub(*l, s, key, v);
                        assert(tr == Shape::Fork(Box::new(l.replace(key, v)), x, r));
                        assert(tr.has_sub(s.replace(key, v)));
                    } else {
                        assert(!l.contains(key));
                        assert(!s.contains(key));
                        lemma_replace_absent(s, key, v);
                        if key == x {
                            assert(tr == Shape::Fork(l, v, r));
                        } else {
                            assert(tr == Shape::Fork(l, x, Box::new(r.replace(key, v))));
                        }
                        assert(tr.has_sub(s));
                    }
                } else {
                    lemma_sub(*r, s);
                    if key > x {
                        lemma_replace_sub(*r, s, key, v);
                        assert(tr == Shape::Fork(l, x, Box::new(r.replace(key, v))));
                        assert(tr.has_sub(s.replace(key, v)));
                    } else {
                        assert(!r.contains(key));
                        assert(!s.contains(key));
                        lemma_replace_absent(s, key, v);
                        if key == x {
                            assert(tr == Shape::Fork(l, v, r));
                        } else {
                            assert(tr == Shape::Fork(Box::new(l.replace(key, v)), x, r));
                        }
                        assert(tr.has_sub(s));
                    }
                }
            },
        }
    }
}

/// Deleting a value with two subtrees is deleting the largest value on its
/// left and then writing that value over it.
pub proof fn lemma_replace_is_delete(t: Shape, key: i32)
    requires
        t.ordered(),
        t.find(key).child_count() == 2,
    ensures
        t.find(key) matches Shape::Fork(l, _, _) && t.delete(l.max()).replace(key, l.max())
            == t.delete(key),
    decreases t,
{
    lemma_find(t, key);
    match t {
        Shape::Empty => {},
        Shape::Fork(tl, x, tr) => {
            let f = t.find(key);
            match f {
                Shape::Empty => {},
                Shape::Fork(fl, fv, fr) => {
                    let m = fl.max();
                    lemma_max(*fl);
                    assert(fl.contains(m));
                    assert(m < key);
                    if key < x {
                        lemma_replace_is_delete(*tl, key);
                        assert(f == tl.find(key));
                        assert(t.delete(m) == Shape::Fork(Box::new(tl.delete(m)), x, tr));
                        assert(t.delete(m).replace(key, m) == Shape::Fork(
                            Box::new(tl.delete(m).replace(key, m)),
                            x,
                            tr,
                        ));
                        assert(t.delete(key) == Shape::Fork(Box::new(tl.delete(key)), x, tr));
                    } else if key > x {
                        lemma_replace_is_delete(*tr, key);
                        assert(f == tr.find(key));
                        lemma_find(*tr, key);
                        lemma_sub(*tr, f);
                        assert(f.contains(m));
                        assert(tr.contains(m));
                        assert(m > x);
                        assert(t.delete(m) == Shape::Fork(tl, x, Box::new(tr.delete(m))));
                        assert(t.delete(m).replace(key, m) == Shape::Fork(
                            tl,
                            x,
                            Box::new(tr.delete(m).replace(key, m)),
                        ));
                        assert(t.delete(key) == Shape::Fork(tl, x, Box::new(tr.delete(key))));
                    } else {
                        assert(f == t);
                        assert(t.delete(m) == Shape::Fork(Box::new(tl.delete(m)), x, tr));
                        assert(t.delete(m).replace(key, m) == Shape::Fork(
                            Box::new(tl.delete(m)),
                            m,
                            tr,
                        ));
                        assert(t.delete(key) == Shape::Fork(Box::new(tl.delete(m)), m, tr));
                    }
                },
            }
        },
    }
}

} // verus!
