use crate::dsa::tree::shape::leaf;
use crate::dsa::tree::shape::lemma_attach_absent;
use crate::dsa::tree::shape::lemma_attach_is_insert;
use crate::dsa::tree::shape::lemma_attach_sub;
use crate::dsa::tree::shape::lemma_delete_ordered;
use crate::dsa::tree::shape::lemma_delete_size;
use crate::dsa::tree::shape::lemma_delete_sub;
use crate::dsa::tree::shape::lemma_insert_ordered;
use crate::dsa::tree::shape::lemma_insert_size;
use crate::dsa::tree::shape::lemma_leaf;
use crate::dsa::tree::shape::lemma_replace_absent;
use crate::dsa::tree::shape::lemma_replace_sub;
use crate::dsa::tree::shape::lemma_slot_parent;
use crate::dsa::tree::shape::lemma_sub;
use crate::dsa::tree::shape::lemma_sub_children;
use crate::dsa::tree::shape::lemma_sub_is_found;
use crate::dsa::tree::shape::Shape;
use vstd::prelude::*;

verus! {

/// What a node of the table holds: a value and three links. A link is the
/// place of another node in the table.
pub struct Cell {
    pub data: i32,
    pub parent: Option<usize>,
    pub left: Option<usize>,
    pub right: Option<usize>,
}

/// The table of a tree as a mathematical value: the nodes, the place of the
/// top node, the count, and for each place the tree that hangs there.
pub struct Table {
    pub cells: Seq<Cell>,
    pub root: Option<usize>,
    pub len: nat,
    pub shapes: Seq<Shape>,
}

/// The link of a node with at most one child that leads to it, if any.
pub open spec fn only_child(c: Cell) -> Option<usize> {
    if c.left is Some {
        c.left
    } else {
        c.right
    }
}

/// The cell with every link to `from` turned: a child link to `child`, the
/// parent link to `up`.
pub open spec fn rewired(c: Cell, from: usize, child: Option<usize>, up: Option<usize>) -> Cell {
    Cell {
        data: c.data,
        parent: if c.parent == Some(from) {
            up
        } else {
            c.parent
        },
        left: if c.left == Some(from) {
            child
        } else {
            c.left
        },
        right: if c.right == Some(from) {
            child
        } else {
            c.right
        },
    }
}

/// The link `slot` after the node at `from` moved to `to`.
pub open spec fn moved_link(slot: Option<usize>, from: usize, to: usize) -> Option<usize> {
    if slot == Some(from) {
        Some(to)
    } else {
        slot
    }
}

/// The cell with every link to `from` turned to `to`.
pub open spec fn renamed(c: Cell, from: usize, to: usize) -> Cell {
    Cell {
        data: c.data,
        parent: moved_link(c.parent, from, to),
        left: moved_link(c.left, from, to),
        right: moved_link(c.right, from, to),
    }
}

impl Table {
    /// The tree that hangs in a link.
    pub open spec fn below(self, slot: Option<usize>) -> Shape {
        match slot {
            None => Shape::Empty,
            Some(i) => self.shapes[i as int],
        }
    }

    /// The whole tree.
    pub open spec fn whole(self) -> Shape {
        self.below(self.root)
    }

    /// Whether `i` is a place of the table, and not the one that is being
    /// given up.
    pub open spec fn used(self, i: int, hole: Option<int>) -> bool {
        0 <= i < self.cells.len() && hole != Some(i)
    }

    /// Whether a child link of the node at `at` leads to a node that is
    /// linked back.
    pub open spec fn slot_ok(self, slot: Option<usize>, at: int, hole: Option<int>) -> bool {
        slot matches Some(c) ==> self.used(c as int, hole) && self.cells[c as int].parent == Some(
            at as usize,
        )
    }

    /// What holds of the node at each place in use: its shape is made of its
    /// value and of the shapes in its child links, its children are linked
    /// back to it, its parent has it as a child, and its shape stands in the
    /// whole tree.
    pub open spec fn node_ok(self, i: int, hole: Option<int>) -> bool {
        let n = self.cells[i];
        &&& self.shapes[i] == Shape::Fork(
            Box::new(self.below(n.left)),
            n.data,
            Box::new(self.below(n.right)),
        )
        &&& self.slot_ok(n.left, i, hole)
        &&& self.slot_ok(n.right, i, hole)
        &&& match n.parent {
            Some(p) => self.used(p as int, hole) && (self.cells[p as int].left == Some(i as usize)
                || self.cells[p as int].right == Some(i as usize)),
            None => self.root == Some(i as usize),
        }
        &&& self.whole().has_sub(self.shapes[i])
    }

    /// The invariant of the table, but for one place `hole` that no link
    /// leads to: the whole tree is in search-tree order, the count is its
    /// size, the table has no other gap, every node in use is in order with
    /// its neighbours, and no two hold the same value.
    pub open spec fn inv(self, hole: Option<int>) -> bool {
        &&& self.shapes.len() == self.cells.len()
        &&& self.cells.len() <= usize::MAX
        &&& self.cells.len() == self.len + (if hole is Some { 1nat } else { 0nat })
        &&& hole matches Some(h) ==> 0 <= h < self.cells.len()
        &&& self.len == self.whole().size()
        &&& self.whole().ordered()
        &&& self.root matches Some(r) ==> self.used(r as int, hole) && self.cells[r as int].parent
            is None
        &&& forall|i: int| self.used(i, hole) ==> #[trigger] self.node_ok(i, hole)
        &&& forall|i: int, j: int|
            #![trigger self.cells[i], self.cells[j]]
            self.used(i, hole) && self.used(j, hole) && self.cells[i].data == self.cells[j].data
                ==> i == j
    }

    /// What the invariant gives of the node at a place in use.
    pub proof fn lemma_node(self, i: int, hole: Option<int>)
        requires
            self.inv(hole),
            self.used(i, hole),
        ensures
            self.node_ok(i, hole),
            self.shapes[i].ordered(),
            self.shapes[i].contains(self.cells[i].data),
            self.whole().contains(self.cells[i].data),
            self.whole().find(self.cells[i].data) == self.shapes[i],
            self.whole().has_sub(self.below(self.cells[i].left)),
            self.whole().has_sub(self.below(self.cells[i].right)),
            self.below(self.cells[i].left).ordered(),
            self.below(self.cells[i].right).ordered(),
            forall|x: i32| #[trigger]
                self.below(self.cells[i].left).contains(x) ==> x < self.cells[i].data,
            forall|x: i32| #[trigger]
                self.below(self.cells[i].right).contains(x) ==> self.cells[i].data < x,
            self.shapes[i].size() == self.below(self.cells[i].left).size() + 1 + self.below(
                self.cells[i].right,
            ).size(),
    {
        assert(self.node_ok(i, hole));
        lemma_sub(self.whole(), self.shapes[i]);
        lemma_sub_is_found(self.whole(), self.shapes[i]);
        lemma_sub_children(self.whole(), self.shapes[i]);
        assert(self.shapes[i].contains(self.cells[i].data));
    }

    /// Two nodes in use that are linked are different nodes, and a child
    /// hangs in one link of its parent only.
    pub proof fn lemma_links(self, i: int, hole: Option<int>)
        requires
            self.inv(hole),
            self.used(i, hole),
        ensures
            self.cells[i].left != Some(i as usize),
            self.cells[i].right != Some(i as usize),
            self.cells[i].parent != Some(i as usize),
            self.cells[i].left is Some ==> self.cells[i].left != self.cells[i].right,
            self.cells[i].left is Some ==> self.cells[i].left != self.cells[i].parent,
            self.cells[i].right is Some ==> self.cells[i].right != self.cells[i].parent,
            self.cells[i].left matches Some(c) ==> self.used(c as int, hole) && self.below(
                self.cells[i].left,
            ) is Fork,
            self.cells[i].right matches Some(c) ==> self.used(c as int, hole) && self.below(
                self.cells[i].right,
            ) is Fork,
            self.cells[i].parent matches Some(p) ==> self.used(p as int, hole),
    {
        self.lemma_node(i, hole);
        let n = self.cells[i];
        if let Some(c) = n.left {
            self.lemma_node(c as int, hole);
            assert(self.below(n.left).contains(self.cells[c as int].data));
        }
        if let Some(c) = n.right {
            self.lemma_node(c as int, hole);
            assert(self.below(n.right).contains(self.cells[c as int].data));
        }
        if let Some(p) = n.parent {
            self.lemma_node(p as int, hole);
            let up = self.cells[p as int];
            assert(self.below(up.left) == self.shapes[i] || self.below(up.right)
                == self.shapes[i]);
            assert(self.shapes[p as int].size() > self.shapes[i].size());
        }
    }

    /// The table after a leaf with the value `v` was hung under the node at
    /// `at`, on the side that comparison gives.
    pub open spec fn attached(self, at: int, v: i32) -> Table {
        let k = self.cells.len();
        let n = self.cells[at];
        let grown = if v < n.data {
            Cell { data: n.data, parent: n.parent, left: Some(k as usize), right: n.right }
        } else {
            Cell { data: n.data, parent: n.parent, left: n.left, right: Some(k as usize) }
        };
        Table {
            cells: self.cells.update(at, grown).push(
                Cell { data: v, parent: Some(at as usize), left: None, right: None },
            ),
            root: self.root,
            len: self.len + 1,
            shapes: Seq::new(
                k + 1,
                |i: int|
                    if i < k {
                        self.shapes[i].attach(n.data, v)
                    } else {
                        leaf(v)
                    },
            ),
        }
    }

    /// Hanging a leaf where the descent for its value ends keeps the
    /// invariant and inserts the value.
    pub proof fn lemma_attach(self, at: int, v: i32)
        requires
            self.inv(None),
            0 <= at < self.cells.len(),
            self.cells.len() < usize::MAX,
            self.whole().slot_parent(v) == Some(self.cells[at].data),
            v < self.cells[at].data ==> self.cells[at].left is None,
            v > self.cells[at].data ==> self.cells[at].right is None,
        ensures
            self.attached(at, v).inv(None),
            self.attached(at, v).whole() == self.whole().insert(v),
    {
        let after = self.attached(at, v);
        let k = self.cells.len() as int;
        let d = self.cells[at].data;
        let view0 = self.whole();
        self.lemma_node(at, None);
        lemma_slot_parent(view0, v, d);
        lemma_attach_is_insert(view0, d, v);
        lemma_insert_ordered(view0, v);
        lemma_insert_size(view0, v);
        lemma_leaf(v);
        let r = self.root->0;
        assert(self.root == Some(r)) by {
            if self.root is None {
                assert(view0 == Shape::Empty);
            }
        }
        assert(after.whole() == view0.insert(v));
        assert forall|i: int| after.used(i, None) implies #[trigger] after.node_ok(i, None) by {
            if i < k {
                self.lemma_node(i, None);
                lemma_attach_sub(view0, self.shapes[i], d, v);
                let n = self.cells[i];
                let bl = self.below(n.left);
                let br = self.below(n.right);
                assert(n.left matches Some(c) ==> self.used(c as int, None));
                assert(n.right matches Some(c) ==> self.used(c as int, None));
                if i != at {
                    assert(n.data != d);
                }
                let m = after.cells[i];
                if d < n.data || (d == n.data && v < d) {
                    assert(!br.contains(d));
                    lemma_attach_absent(br, d, v);
                    assert(after.below(m.right) == br);
                    if i == at {
                        assert(after.below(m.left) == leaf(v));
                        assert(self.shapes[i].attach(d, v) == Shape::Fork(
                            Box::new(leaf(v)),
                            d,
                            Box::new(br),
                        ));
                    } else {
                        assert(after.below(m.left) == bl.attach(d, v));
                        assert(self.shapes[i].attach(d, v) == Shape::Fork(
                            Box::new(bl.attach(d, v)),
                            n.data,
                            Box::new(br),
                        ));
                    }
                } else {
                    assert(!bl.contains(d));
                    lemma_attach_absent(bl, d, v);
                    assert(after.below(m.left) == bl);
                    if i == at {
                        assert(after.below(m.right) == leaf(v));
                        assert(self.shapes[i].attach(d, v) == Shape::Fork(
                            Box::new(bl),
                            d,
                            Box::new(leaf(v)),
                        ));
                    } else {
                        assert(after.below(m.right) == br.attach(d, v));
                        assert(self.shapes[i].attach(d, v) == Shape::Fork(
                            Box::new(bl),
                            n.data,
                            Box::new(br.attach(d, v)),
                        ));
                    }
                }
                assert(after.slot_ok(m.left, i, None));
                assert(after.slot_ok(m.right, i, None));
                if let Some(q) = n.parent {
                    self.lemma_links(q as int, None);
                }
            } else {
                lemma_attach_sub(view0, self.shapes[at], d, v);
                assert(after.shapes[at] == self.shapes[at].attach(d, v));
                lemma_sub_children(after.whole(), after.shapes[at]);
            }
        }
        assert forall|i: int, j: int|
            #![trigger after.cells[i], after.cells[j]]
            after.used(i, None) && after.used(j, None) && after.cells[i].data
                == after.cells[j].data implies i == j by {
            if i < k {
                self.lemma_node(i, None);
                assert(after.cells[i].data == self.cells[i].data);
            }
            if j < k {
                self.lemma_node(j, None);
                assert(after.cells[j].data == self.cells[j].data);
            }
        }
    }

    /// The table after the node at `target`, which has at most one child,
    /// was taken out of the links: its child, or nothing, hangs in its place.
    /// The place `target` itself is left as it was, and unused.
    pub open spec fn unlinked(self, target: int) -> Table {
        let node = self.cells[target];
        let child = only_child(node);
        let first = match node.parent {
            Some(p) => {
                let up = self.cells[p as int];
                self.cells.update(
                    p as int,
                    if up.left == Some(target as usize) {
                        Cell { data: up.data, parent: up.parent, left: child, right: up.right }
                    } else {
                        Cell { data: up.data, parent: up.parent, left: up.left, right: child }
                    },
                )
            },
            None => self.cells,
        };
        let second = match child {
            Some(c) => {
                let low = first[c as int];
                first.update(
                    c as int,
                    Cell { data: low.data, parent: node.parent, left: low.left, right: low.right },
                )
            },
            None => first,
        };
        Table {
            cells: second,
            root: if node.parent is None {
                child
            } else {
                self.root
            },
            len: (self.len - 1) as nat,
            shapes: Seq::new(self.shapes.len(), |i: int| self.shapes[i].delete(node.data)),
        }
    }

    /// After the unlinking every other node is what it was, but for its
    /// links to the node that left.
    pub proof fn lemma_unlink_cells(self, target: int)
        requires
            self.inv(None),
            0 <= target < self.cells.len(),
            self.cells[target].left is None || self.cells[target].right is None,
        ensures
            self.unlinked(target).cells.len() == self.cells.len(),
            forall|i: int|
                0 <= i < self.cells.len() && i != target ==> #[trigger] self.unlinked(
                    target,
                ).cells[i] == rewired(
                    self.cells[i],
                    target as usize,
                    only_child(self.cells[target]),
                    self.cells[target].parent,
                ),
    {
        let node = self.cells[target];
        let child = only_child(node);
        let after = self.unlinked(target);
        self.lemma_links(target, None);
        self.lemma_node(target, None);
        if let Some(p) = node.parent {
            self.lemma_links(p as int, None);
        }
        if let Some(c) = child {
            self.lemma_links(c as int, None);
        }
        assert forall|i: int| 0 <= i < self.cells.len() && i != target implies #[trigger]
            after.cells[i] == rewired(self.cells[i], target as usize, child, node.parent) by {
            self.lemma_node(i, None);
            let n = self.cells[i];
            if n.left == Some(target as usize) || n.right == Some(target as usize) {
                assert(node.parent == Some(i as usize));
            }
            if n.parent == Some(target as usize) {
                assert(child == Some(i as usize));
            }
        }
    }

    /// After the unlinking every other node is in order with its neighbours.
    pub proof fn lemma_unlink_node(self, target: int, i: int)
        requires
            self.inv(None),
            0 <= target < self.cells.len(),
            self.cells[target].left is None || self.cells[target].right is None,
            0 <= i < self.cells.len(),
            i != target,
            self.unlinked(target).whole() == self.whole().delete(self.cells[target].data),
            forall|j: int|
                0 <= j < self.cells.len() && j != target ==> #[trigger] self.unlinked(
                    target,
                ).cells[j] == rewired(
                    self.cells[j],
                    target as usize,
                    only_child(self.cells[target]),
                    self.cells[target].parent,
                ),
        ensures
            self.unlinked(target).node_ok(i, Some(target)),
    {
        let node = self.cells[target];
        let key = node.data;
        let child = only_child(node);
        let after = self.unlinked(target);
        let hole = Some(target);
        let view0 = self.whole();
        let n = self.cells[i];
        let bl = self.below(n.left);
        let br = self.below(n.right);
        let kept = self.below(child);
        self.lemma_node(target, None);
        self.lemma_links(target, None);
        self.lemma_node(i, None);
        self.lemma_links(i, None);
        assert(self.used(i, None) && self.used(target, None));
        assert(n.data != key);
        assert(self.shapes[target].delete(key) == kept);
        assert(!kept.contains(key));
        lemma_sub(view0, kept);
        lemma_delete_size(kept, key);
        lemma_delete_size(bl, key);
        lemma_delete_size(br, key);
        lemma_delete_sub(view0, self.shapes[i], key);
        assert(after.cells[i] == rewired(n, target as usize, child, node.parent));
        if let Some(c) = n.left {
            if c != target {
                assert(after.cells[c as int] == rewired(
                    self.cells[c as int],
                    target as usize,
                    child,
                    node.parent,
                ));
            }
        }
        if let Some(c) = n.right {
            if c != target {
                assert(after.cells[c as int] == rewired(
                    self.cells[c as int],
                    target as usize,
                    child,
                    node.parent,
                ));
            }
        }
        if let Some(c) = child {
            self.lemma_links(c as int, None);
            assert(after.cells[c as int] == rewired(
                self.cells[c as int],
                target as usize,
                child,
                node.parent,
            ));
        }
        if let Some(q) = n.parent {
            if q != target {
                self.lemma_links(q as int, None);
                assert(after.cells[q as int] == rewired(
                    self.cells[q as int],
                    target as usize,
                    child,
                    node.parent,
                ));
            }
        }
        if let Some(q) = node.parent {
            self.lemma_links(q as int, None);
            assert(after.cells[q as int] == rewired(
                self.cells[q as int],
                target as usize,
                child,
                node.parent,
            ));
        }
        if key < n.data {
            assert(!br.contains(key));
            assert(self.shapes[i].delete(key) == Shape::Fork(
                Box::new(bl.delete(key)),
                n.data,
                Box::new(br),
            ));
            assert(n.right != Some(target as usize)) by {
                if n.right == Some(target as usize) {
                    assert(br.contains(key));
                }
            }
        } else {
            assert(!bl.contains(key));
            assert(self.shapes[i].delete(key) == Shape::Fork(
                Box::new(bl),
                n.data,
                Box::new(br.delete(key)),
            ));
            assert(n.left != Some(target as usize)) by {
                if n.left == Some(target as usize) {
                    assert(bl.contains(key));
                }
            }
        }
        let m = after.cells[i];
        assert(after.below(m.left) == bl.delete(key));
        assert(after.below(m.right) == br.delete(key));
        assert(after.slot_ok(m.left, i, hole));
        assert(after.slot_ok(m.right, i, hole));
    }

    /// Unlinking a node with at most one child deletes its value from the
    /// tree and leaves the table in order but for the place of that node.
    pub proof fn lemma_unlink(self, target: int)
        requires
            self.inv(None),
            0 <= target < self.cells.len(),
            self.cells[target].left is None || self.cells[target].right is None,
        ensures
            self.unlinked(target).inv(Some(target)),
            self.unlinked(target).whole() == self.whole().delete(self.cells[target].data),
    {
        let node = self.cells[target];
        let key = node.data;
        let child = only_child(node);
        let after = self.unlinked(target);
        let hole = Some(target);
        let view0 = self.whole();
        self.lemma_node(target, None);
        self.lemma_links(target, None);
        self.lemma_unlink_cells(target);
        lemma_delete_ordered(view0, key);
        lemma_delete_size(view0, key);
        let kept = self.below(child);
        assert(self.shapes[target].delete(key) == kept);
        lemma_sub(view0, kept);
        lemma_delete_size(kept, key);
        if node.parent is Some {
            let r = self.root->0;
            assert(self.root == Some(r)) by {
                if self.root is None {
                    assert(view0 == Shape::Empty);
                }
            }
            assert(r != target);
        }
        assert(after.whole() == view0.delete(key));
        if let Some(c) = child {
            self.lemma_links(c as int, None);
        }
        assert forall|i: int| after.used(i, hole) implies #[trigger] after.node_ok(i, hole) by {
            self.lemma_unlink_node(target, i);
        }
        assert forall|i: int, j: int|
            #![trigger after.cells[i], after.cells[j]]
            after.used(i, hole) && after.used(j, hole) && after.cells[i].data
                == after.cells[j].data implies i == j by {
            assert(self.used(i, None) && self.used(j, None));
            assert(self.cells[i].data == self.cells[j].data);
        }
        if let Some(t) = after.root {
            assert(after.used(t as int, hole));
            assert(after.cells[t as int] == rewired(
                self.cells[t as int],
                target as usize,
                child,
                node.parent,
            ));
        }
    }

    /// The table after the unused place `hole` was given up: the node at the
    /// last place stands there, and the links that led to it lead there.
    pub open spec fn released(self, hole: int) -> Table {
        let last = self.cells.len() - 1;
        let node = self.cells[last];
        let moved = self.cells.update(hole, node).drop_last();
        let first = match node.parent {
            Some(p) => {
                let up = moved[p as int];
                moved.update(
                    p as int,
                    if up.left == Some(last as usize) {
                        Cell {
                            data: up.data,
                            parent: up.parent,
                            left: Some(hole as usize),
                            right: up.right,
                        }
                    } else {
                        Cell {
                            data: up.data,
                            parent: up.parent,
                            left: up.left,
                            right: Some(hole as usize),
                        }
                    },
                )
            },
            None => moved,
        };
        let second = match node.left {
            Some(c) => {
                let low = first[c as int];
                first.update(
                    c as int,
                    Cell {
                        data: low.data,
                        parent: Some(hole as usize),
                        left: low.left,
                        right: low.right,
                    },
                )
            },
            None => first,
        };
        let third = match node.right {
            Some(c) => {
                let low = second[c as int];
                second.update(
                    c as int,
                    Cell {
                        data: low.data,
                        parent: Some(hole as usize),
                        left: low.left,
                        right: low.right,
                    },
                )
            },
            None => second,
        };
        Table {
            cells: if hole == last {
                moved
            } else {
                third
            },
            root: if hole != last && node.parent is None {
                Some(hole as usize)
            } else {
                self.root
            },
            len: self.len,
            shapes: self.shapes.update(hole, self.shapes[last]).drop_last(),
        }
    }

    /// The place before the release of the node that stands at `j` after it.
    pub open spec fn source(self, hole: int, j: int) -> int {
        if j == hole {
            self.cells.len() - 1
        } else {
            j
        }
    }

    /// After the release every node is what it was, but for its links to
    /// the node that moved.
    pub proof fn lemma_release_cells(self, hole: int)
        requires
            self.inv(Some(hole)),
        ensures
            self.released(hole).cells.len() == self.cells.len() - 1,
            forall|j: int|
                0 <= j < self.cells.len() - 1 ==> #[trigger] self.released(hole).cells[j]
                    == renamed(
                    self.cells[self.source(hole, j)],
                    (self.cells.len() - 1) as usize,
                    hole as usize,
                ),
    {
        let gap = Some(hole);
        let last = self.cells.len() - 1;
        let node = self.cells[last];
        let after = self.released(hole);
        if hole != last {
            self.lemma_links(last, gap);
            self.lemma_node(last, gap);
        }
        assert forall|j: int| 0 <= j < self.cells.len() - 1 implies #[trigger] after.cells[j]
            == renamed(self.cells[self.source(hole, j)], last as usize, hole as usize) by {
            let i = self.source(hole, j);
            self.lemma_node(i, gap);
            self.lemma_links(i, gap);
            let n = self.cells[i];
            if hole != last {
                if n.left == Some(last as usize) || n.right == Some(last as usize) {
                    assert(node.parent == Some(i as usize));
                }
                if n.parent == Some(last as usize) {
                    assert(node.left == Some(i as usize) || node.right == Some(i as usize));
                }
            }
        }
    }

    /// After the release every node is in order with its neighbours.
    pub proof fn lemma_release_node(self, hole: int, j: int)
        requires
            self.inv(Some(hole)),
            0 <= j < self.cells.len() - 1,
            self.released(hole).cells.len() == self.cells.len() - 1,
            self.released(hole).whole() == self.whole(),
            forall|k: int|
                0 <= k < self.cells.len() - 1 ==> #[trigger] self.released(hole).cells[k]
                    == renamed(
                    self.cells[self.source(hole, k)],
                    (self.cells.len() - 1) as usize,
                    hole as usize,
                ),
        ensures
            self.released(hole).node_ok(j, None),
    {
        let gap = Some(hole);
        let last = self.cells.len() - 1;
        let after = self.released(hole);
        let i = self.source(hole, j);
        let n = self.cells[i];
        let m = after.cells[j];
        self.lemma_node(i, gap);
        self.lemma_links(i, gap);
        assert(m == renamed(n, last as usize, hole as usize));
        if let Some(c) = n.left {
            let cc = if c == last {
                hole
            } else {
                c as int
            };
            assert(self.source(hole, cc) == c);
            assert(after.cells[cc] == renamed(self.cells[c as int], last as usize, hole as usize));
            assert(after.below(m.left) == self.below(n.left));
        }
        if let Some(c) = n.right {
            let cc = if c == last {
                hole
            } else {
                c as int
            };
            assert(self.source(hole, cc) == c);
            assert(after.cells[cc] == renamed(self.cells[c as int], last as usize, hole as usize));
            assert(after.below(m.right) == self.below(n.right));
        }
        if let Some(q) = n.parent {
            let qq = if q == last {
                hole
            } else {
                q as int
            };
            assert(self.source(hole, qq) == q);
            assert(after.cells[qq] == renamed(self.cells[q as int], last as usize, hole as usize));
        } else {
            assert(self.root == Some(i as usize));
            if hole != last {
                self.lemma_node(last, gap);
            }
            assert(after.root == Some(j as usize));
        }
        assert(after.shapes[j] == self.shapes[i]);
        assert(after.slot_ok(m.left, j, None));
        assert(after.slot_ok(m.right, j, None));
        assert(after.whole().has_sub(after.shapes[j]));
        assert(after.shapes[j] == Shape::Fork(
            Box::new(after.below(m.left)),
            m.data,
            Box::new(after.below(m.right)),
        ));
    }

    /// Giving up the unused place leaves the tree as it is and the table in
    /// order.
    pub proof fn lemma_release(self, hole: int)
        requires
            self.inv(Some(hole)),
        ensures
            self.released(hole).inv(None),
            self.released(hole).whole() == self.whole(),
            forall|j: int|
                0 <= j < self.cells.len() - 1 ==> (#[trigger] self.released(hole).cells[j]).data
                    == self.cells[self.source(hole, j)].data,
    {
        let gap = Some(hole);
        let last = self.cells.len() - 1;
        let after = self.released(hole);
        self.lemma_release_cells(hole);
        if let Some(r) = self.root {
            self.lemma_node(r as int, gap);
            self.lemma_links(r as int, gap);
        }
        if hole != last {
            self.lemma_node(last, gap);
            self.lemma_links(last, gap);
        }
        assert(after.whole() == self.whole());
        assert forall|j: int| after.used(j, None) implies #[trigger] after.node_ok(j, None) by {
            self.lemma_release_node(hole, j);
        }
        assert forall|i: int, j: int|
            #![trigger after.cells[i], after.cells[j]]
            after.used(i, None) && after.used(j, None) && after.cells[i].data
                == after.cells[j].data implies i == j by {
            let a = self.source(hole, i);
            let b = self.source(hole, j);
            assert(self.used(a, gap) && self.used(b, gap));
            assert(self.cells[a].data == self.cells[b].data);
        }
        if let Some(t) = after.root {
            if hole != last && self.cells[last].parent is None {
                assert(after.cells[hole] == renamed(
                    self.cells[self.source(hole, hole)],
                    last as usize,
                    hole as usize,
                ));
            } else {
                let r = self.root->0;
                let rr = if r == last {
                    hole
                } else {
                    r as int
                };
                assert(after.cells[rr] == renamed(
                    self.cells[self.source(hole, rr)],
                    last as usize,
                    hole as usize,
                ));
            }
        }
    }

    /// The table after the value at `place` was overwritten by `v`.
    pub open spec fn overwritten(self, place: int, v: i32) -> Table {
        let n = self.cells[place];
        Table {
            cells: self.cells.update(
                place,
                Cell { data: v, parent: n.parent, left: n.left, right: n.right },
            ),
            root: self.root,
            len: self.len,
            shapes: Seq::new(self.shapes.len(), |i: int| self.shapes[i].replace(n.data, v)),
        }
    }

    /// Overwriting a value by one that the tree does not hold, and that
    /// stands in order where the old one stood, keeps the invariant.
    pub proof fn lemma_overwrite(self, place: int, v: i32)
        requires
            self.inv(None),
            0 <= place < self.cells.len(),
            !self.whole().contains(v),
            self.whole().replace(self.cells[place].data, v).ordered(),
            self.whole().replace(self.cells[place].data, v).size() == self.len,
        ensures
            self.overwritten(place, v).inv(None),
            self.overwritten(place, v).whole() == self.whole().replace(self.cells[place].data, v),
    {
        let after = self.overwritten(place, v);
        let key = self.cells[place].data;
        let view0 = self.whole();
        self.lemma_node(place, None);
        assert(after.whole() == view0.replace(key, v)) by {
            if self.root is None {
                assert(view0 == Shape::Empty);
            }
        }
        assert forall|i: int| after.used(i, None) implies #[trigger] after.node_ok(i, None) by {
            self.lemma_node(i, None);
            self.lemma_links(i, None);
            let n = self.cells[i];
            let bl = self.below(n.left);
            let br = self.below(n.right);
            assert(self.used(i, None) && self.used(place, None));
            lemma_replace_sub(view0, self.shapes[i], key, v);
            if i != place {
                assert(n.data != key);
            }
            if key <= n.data {
                assert(!br.contains(key));
                lemma_replace_absent(br, key, v);
            }
            if key >= n.data {
                assert(!bl.contains(key));
                lemma_replace_absent(bl, key, v);
            }
            let m = after.cells[i];
            assert(after.below(m.left) == bl.replace(key, v));
            assert(after.below(m.right) == br.replace(key, v));
            assert(after.shapes[i] == Shape::Fork(
                Box::new(bl.replace(key, v)),
                m.data,
                Box::new(br.replace(key, v)),
            ));
            if let Some(q) = n.parent {
                self.lemma_links(q as int, None);
            }
        }
        assert forall|i: int, j: int|
            #![trigger after.cells[i], after.cells[j]]
            after.used(i, None) && after.used(j, None) && after.cells[i].data
                == after.cells[j].data implies i == j by {
            self.lemma_node(i, None);
            self.lemma_node(j, None);
            assert(self.used(i, None) && self.used(j, None));
            if i != place && j != place {
                assert(self.cells[i].data == self.cells[j].data);
            }
        }
    }
}

} // verus!
