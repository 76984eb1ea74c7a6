use crate::dsa::tree::shape::leaf;
use crate::dsa::tree::shape::lemma_delete_contains;
use crate::dsa::tree::shape::lemma_delete_ordered;
use crate::dsa::tree::shape::lemma_delete_size;
use crate::dsa::tree::shape::lemma_depth;
use crate::dsa::tree::shape::lemma_sub;
use crate::dsa::tree::shape::lemma_find;
use crate::dsa::tree::shape::lemma_inorder;
use crate::dsa::tree::shape::lemma_insert_contains;
use crate::dsa::tree::shape::lemma_insert_size;
use crate::dsa::tree::shape::lemma_leaf;
use crate::dsa::tree::shape::lemma_max;
use crate::dsa::tree::shape::lemma_replace_is_delete;
use crate::dsa::tree::shape::strictly_increasing;
use crate::dsa::tree::shape::Shape;
use crate::dsa::tree::table::Cell;
use crate::dsa::tree::table::Table;
use vstd::prelude::*;

verus! {

/// One value of the tree with its three links. A link is the place of
/// another node in the tree's table; it owns nothing.
#[derive(Clone, Copy, Debug)]
pub struct BinarySearchTreeNode {
    data: i32,
    parent: Option<usize>,
    left_child: Option<usize>,
    right_child: Option<usize>,
}

/// The three orders in which a tree is walked.
pub enum TraversalType {
    InOrder,
    PreOrder,
    PostOrder,
}

/// An ordered tree of distinct values. The nodes stand in a table without
/// gaps; `shapes` holds, for each place of the table, the tree below it.
pub struct BinarySearchTree {
    nodes: Vec<BinarySearchTreeNode>,
    root: Option<usize>,
    len: usize,
    shapes: Ghost<Seq<Shape>>,
}

impl View for BinarySearchTreeNode {
    type V = Cell;

    /// The value and the links of the node.
    closed spec fn view(&self) -> Cell {
        Cell {
            data: self.data,
            parent: self.parent,
            left: self.left_child,
            right: self.right_child,
        }
    }
}

impl BinarySearchTreeNode {
    /// Number of children that the links show.
    pub open spec fn child_count(self) -> nat {
        (if self@.left is Some { 1nat } else { 0nat }) + (if self@.right is Some {
            1nat
        } else {
            0nat
        })
    }

    /// A node without links.
    pub fn new(data: i32) -> (r: Self)
        ensures
            r@ == (Cell { data, parent: None, left: None, right: None }),
    {
        Self { data, left_child: None, right_child: None, parent: None }
    }

    /// A node without children, linked to its parent.
    pub fn with_parent(data: i32, parent: usize) -> (r: Self)
        ensures
            r@ == (Cell { data, parent: Some(parent), left: None, right: None }),
    {
        Self { data, parent: Some(parent), left_child: None, right_child: None }
    }

    /// The value that the node holds.
    pub fn get_data(&self) -> (r: i32)
        ensures
            r == self@.data,
    {
        self.data
    }

    /// Number of children: 0, 1 or 2.
    pub fn num_of_childs(&self) -> (r: usize)
        ensures
            r == self.child_count(),
    {
        let mut count: usize = 0;
        if self.left_child.is_some() {
            count += 1;
        }
        if self.right_child.is_some() {
            count += 1;
        }
        count
    }

    /// Appends to `acc` the values below and at this node: the node first,
    /// then its left side, then its right side.
    fn apply_preorder_to_node(&self, arena: &BinarySearchTree, acc: &mut Vec<i32>)
        requires
            arena.wf(),
            arena.holds(*self),
        ensures
            final(acc)@ == old(acc)@ + arena.shape_of(*self).preorder(),
        decreases arena.shape_of(*self).size(),
    {
        proof {
            arena.lemma_held(*self);
        }
        acc.push(self.data);
        if let Some(l) = self.left_child {
            arena.nodes[l].apply_preorder_to_node(arena, acc);
        }
        if let Some(r) = self.right_child {
            arena.nodes[r].apply_preorder_to_node(arena, acc);
        }
        proof {
            let sl = arena.table().below(self.left_child);
            let sr = arena.table().below(self.right_child);
            assert(self.left_child is None ==> sl.preorder() =~= Seq::<i32>::empty());
            assert(self.right_child is None ==> sr.preorder() =~= Seq::<i32>::empty());
            assert(arena.shape_of(*self).preorder() =~= seq![self.data] + sl.preorder()
                + sr.preorder());
            assert(acc@ =~= old(acc)@ + arena.shape_of(*self).preorder());
        }
    }

    /// Appends to `acc` the values below and at this node: the left side
    /// first, then the node, then its right side.
    fn apply_inorder_to_node(&self, arena: &BinarySearchTree, acc: &mut Vec<i32>)
        requires
            arena.wf(),
            arena.holds(*self),
        ensures
            final(acc)@ == old(acc)@ + arena.shape_of(*self).inorder(),
        decreases arena.shape_of(*self).size(),
    {
        proof {
            arena.lemma_held(*self);
        }
        if let Some(l) = self.left_child {
            arena.nodes[l].apply_inorder_to_node(arena, acc);
        }
        acc.push(self.data);
        if let Some(r) = self.right_child {
            arena.nodes[r].apply_inorder_to_node(arena, acc);
        }
        proof {
            let sl = arena.table().below(self.left_child);
            let sr = arena.table().below(self.right_child);
            assert(self.left_child is None ==> sl.inorder() =~= Seq::<i32>::empty());
            assert(self.right_child is None ==> sr.inorder() =~= Seq::<i32>::empty());
            assert(arena.shape_of(*self).inorder() =~= sl.inorder() + seq![self.data]
                + sr.inorder());
            assert(acc@ =~= old(acc)@ + arena.shape_of(*self).inorder());
        }
    }

    /// Appends to `acc` the values below and at this node: the left side
    /// first, then the right side, then the node.
    fn apply_postorder_to_node(&self, arena: &BinarySearchTree, acc: &mut Vec<i32>)
        requires
            arena.wf(),
            arena.holds(*self),
        ensures
            final(acc)@ == old(acc)@ + arena.shape_of(*self).postorder(),
        decreases arena.shape_of(*self).size(),
    {
        proof {
            arena.lemma_held(*self);
        }
        if let Some(l) = self.left_child {
            arena.nodes[l].apply_postorder_to_node(arena, acc);
        }
        if let Some(r) = self.right_child {
            arena.nodes[r].apply_postorder_to_node(arena, acc);
        }
        acc.push(self.data);
        proof {
            let sl = arena.table().below(self.left_child);
            let sr = arena.table().below(self.right_child);
            assert(self.left_child is None ==> sl.postorder() =~= Seq::<i32>::empty());
            assert(self.right_child is None ==> sr.postorder() =~= Seq::<i32>::empty());
            assert(arena.shape_of(*self).postorder() =~= sl.postorder() + sr.postorder()
                + seq![self.data]);
            assert(acc@ =~= old(acc)@ + arena.shape_of(*self).postorder());
        }
    }

    /// Number of nodes on the longest way from this node down.
    fn depth_below(&self, arena: &BinarySearchTree) -> (r: usize)
        requires
            arena.wf(),
            arena.holds(*self),
        ensures
            r == arena.shape_of(*self).depth(),
        decreases arena.shape_of(*self).size(),
    {
        proof {
            arena.lemma_held(*self);
            arena.lemma_node_shape(*self);
            lemma_sub(arena@, arena.shape_of(*self));
            lemma_depth(arena.shape_of(*self));
            arena.lemma_count();
        }
        let left = match self.left_child {
            Some(l) => arena.nodes[l].depth_below(arena),
            None => 0,
        };
        let right = match self.right_child {
            Some(r) => arena.nodes[r].depth_below(arena),
            None => 0,
        };
        proof {
            let sl = arena.table().below(self.left_child);
            let sr = arena.table().below(self.right_child);
            assert(self.left_child is None ==> sl.depth() == 0);
            assert(self.right_child is None ==> sr.depth() == 0);
            assert(arena.shape_of(*self).depth() == if sl.depth() >= sr.depth() {
                sl.depth() + 1
            } else {
                sr.depth() + 1
            });
        }
        if left >= right {
            left + 1
        } else {
            right + 1
        }
    }

    /// The place of the node with the largest value on the left of this
    /// node: the end of the right spine of the left child.
    fn max_in_lsub(&self, arena: &BinarySearchTree) -> (r: Option<usize>)
        requires
            arena.wf(),
            arena.holds(*self),
        ensures
            r is Some <==> self@.left is Some,
            r matches Some(m) ==> m < arena.nodes@.len() && arena.nodes@[m as int]@.right is None
                && arena.nodes@[m as int]@.data == arena.table().below(self@.left).max(),
    {
        proof {
            arena.lemma_held(*self);
        }
        match self.left_child {
            None => None,
            Some(first) => {
                let mut cur = first;
                loop
                    invariant
                        arena.wf(),
                        cur < arena.nodes@.len(),
                        arena.shapes@[cur as int].max() == arena.table().below(
                            self.left_child,
                        ).max(),
                        self.left_child is Some,
                    decreases arena.shapes@[cur as int].size(),
                {
                    proof {
                        arena.table().lemma_node(cur as int, None);
                        arena.table().lemma_links(cur as int, None);
                    }
                    let node = arena.nodes[cur];
                    match node.right_child {
                        None => {
                            return Some(cur);
                        },
                        Some(c) => {
                            cur = c;
                        },
                    }
                }
            },
        }
    }

    /// The place of the node with the smallest value on the right of this
    /// node: the end of the left spine of the right child.
    #[allow(dead_code)]
    fn min_in_rsub(&self, arena: &BinarySearchTree) -> (r: Option<usize>)
        requires
            arena.wf(),
            arena.holds(*self),
        ensures
            r is Some <==> self@.right is Some,
            r matches Some(m) ==> m < arena.nodes@.len() && arena.nodes@[m as int]@.left is None
                && arena.nodes@[m as int]@.data == arena.table().below(self@.right).min(),
    {
        proof {
            arena.lemma_held(*self);
        }
        match self.right_child {
            None => None,
            Some(first) => {
                let mut cur = first;
                loop
                    invariant
                        arena.wf(),
                        cur < arena.nodes@.len(),
                        arena.shapes@[cur as int].min() == arena.table().below(
                            self.right_child,
                        ).min(),
                        self.right_child is Some,
                    decreases arena.shapes@[cur as int].size(),
                {
                    proof {
                        arena.table().lemma_node(cur as int, None);
                        arena.table().lemma_links(cur as int, None);
                    }
                    let node = arena.nodes[cur];
                    match node.left_child {
                        None => {
                            return Some(cur);
                        },
                        Some(c) => {
                            cur = c;
                        },
                    }
                }
            },
        }
    }
}

impl View for BinarySearchTree {
    type V = Shape;

    /// The tree as a mathematical value.
    closed spec fn view(&self) -> Shape {
        self.table().whole()
    }
}

impl BinarySearchTree {
    /// The table of the tree as a mathematical value.
    pub closed spec fn table(&self) -> Table {
        Table {
            cells: Seq::new(self.nodes@.len(), |i: int| self.nodes@[i]@),
            root: self.root,
            len: self.len as nat,
            shapes: self.shapes@,
        }
    }

    /// The invariant: the tree is in search-tree order, and its table is
    /// in order.
    pub open spec fn wf(&self) -> bool {
        &&& self@.ordered()
        &&& self.linked()
    }

    /// The invariant of the table: the count is the number of nodes, no two
    /// nodes hold the same value, and every link is answered by the link
    /// back.
    pub closed spec fn linked(&self) -> bool {
        self.table().inv(None)
    }

    /// Whether `n` is a node of this tree.
    pub closed spec fn holds(&self, n: BinarySearchTreeNode) -> bool {
        exists|i: int| 0 <= i < self.nodes@.len() && self.nodes@[i] == n
    }

    /// The tree that hangs at the node `n`.
    pub closed spec fn shape_of(&self, n: BinarySearchTreeNode) -> Shape {
        Shape::Fork(
            Box::new(self.table().below(n.left_child)),
            n.data,
            Box::new(self.table().below(n.right_child)),
        )
    }

    /// What the links of a node of the tree lead to.
    proof fn lemma_held(&self, n: BinarySearchTreeNode)
        requires
            self.wf(),
            self.holds(n),
        ensures
            n.left_child matches Some(l) ==> l < self.nodes@.len() && self.holds(
                self.nodes@[l as int],
            ) && self.shape_of(self.nodes@[l as int]) == self.table().below(n.left_child),
            n.right_child matches Some(r) ==> r < self.nodes@.len() && self.holds(
                self.nodes@[r as int],
            ) && self.shape_of(self.nodes@[r as int]) == self.table().below(n.right_child),
            self.shape_of(n).size() == self.table().below(n.left_child).size() + 1
                + self.table().below(n.right_child).size(),
    {
        let i = choose|i: int| 0 <= i < self.nodes@.len() && self.nodes@[i] == n;
        self.table().lemma_node(i, None);
        if let Some(l) = n.left_child {
            self.table().lemma_node(l as int, None);
        }
        if let Some(r) = n.right_child {
            self.table().lemma_node(r as int, None);
        }
    }

    /// A node of the tree has as many children as its shape has subtrees,
    /// and its shape is what the descent to its value finds.
    pub proof fn lemma_node_shape(&self, n: BinarySearchTreeNode)
        requires
            self.wf(),
            self.holds(n),
        ensures
            self.shape_of(n).child_count() == n.child_count(),
            self@.has_sub(self.shape_of(n)),
            self@.find(n@.data) == self.shape_of(n),
    {
        let i = choose|i: int| 0 <= i < self.nodes@.len() && self.nodes@[i] == n;
        self.table().lemma_node(i, None);
        self.table().lemma_links(i, None);
    }

    /// The size of the tree is the count, which is a machine number.
    pub proof fn lemma_count(&self)
        requires
            self.wf(),
        ensures
            self@.size() <= usize::MAX,
    {
    }

    /// The node at a place of the table.
    pub closed spec fn at(&self, i: usize) -> BinarySearchTreeNode {
        self.nodes@[i as int]
    }

    /// No two nodes of the tree hold the same value.
    pub proof fn lemma_distinct(&self, a: BinarySearchTreeNode, b: BinarySearchTreeNode)
        requires
            self.wf(),
            self.holds(a),
            self.holds(b),
            a@.data == b@.data,
        ensures
            a == b,
    {
        let i = choose|i: int| 0 <= i < self.nodes@.len() && self.nodes@[i] == a;
        let j = choose|j: int| 0 <= j < self.nodes@.len() && self.nodes@[j] == b;
        assert(self.table().used(i, None) && self.table().used(j, None));
        assert(self.table().cells[i].data == self.table().cells[j].data);
    }

    /// Every link of a node of the tree leads to a node of the tree, and is
    /// answered: a child has the node as its parent, and the parent has the
    /// node as its left or as its right child. Only the top node has no
    /// parent.
    pub proof fn lemma_links_answered(&self, n: BinarySearchTreeNode)
        requires
            self.wf(),
            self.holds(n),
        ensures
            n@.left matches Some(l) ==> self.holds(self.at(l)) && self.at(l)@.parent is Some
                && self.at(self.at(l)@.parent->0) == n,
            n@.right matches Some(r) ==> self.holds(self.at(r)) && self.at(r)@.parent is Some
                && self.at(self.at(r)@.parent->0) == n,
            n@.parent matches Some(p) ==> self.holds(self.at(p)) && ((self.at(p)@.left is Some
                && self.at(self.at(p)@.left->0) == n) || (self.at(p)@.right is Some && self.at(
                self.at(p)@.right->0,
            ) == n)),
            n@.parent is None ==> self.shape_of(n) == self@,
            self.shape_of(n) == Shape::Fork(
                Box::new(
                    match n@.left {
                        Some(l) => self.shape_of(self.at(l)),
                        None => Shape::Empty,
                    },
                ),
                n@.data,
                Box::new(
                    match n@.right {
                        Some(r) => self.shape_of(self.at(r)),
                        None => Shape::Empty,
                    },
                ),
            ),
    {
        let i = choose|i: int| 0 <= i < self.nodes@.len() && self.nodes@[i] == n;
        self.table().lemma_node(i, None);
        self.table().lemma_links(i, None);
        if let Some(l) = n.left_child {
            self.table().lemma_node(l as int, None);
        }
        if let Some(r) = n.right_child {
            self.table().lemma_node(r as int, None);
        }
        if let Some(p) = n.parent {
            self.table().lemma_node(p as int, None);
        }
    }

    /// The empty tree.
    pub fn new() -> (r: Self)
        ensures
            r.wf(),
            r@ == Shape::Empty,
    {
        Self { nodes: Vec::new(), root: None, len: 0, shapes: Ghost(Seq::empty()) }
    }

    /// Number of values in the tree.
    pub fn get_len(&self) -> (r: usize)
        requires
            self.wf(),
        ensures
            r == self@.size(),
    {
        self.len
    }

    /// Number of nodes on the longest way from the top down; 0 for the
    /// empty tree.
    pub fn get_depth(&self) -> (r: usize)
        requires
            self.wf(),
        ensures
            r == self@.depth(),
    {
        match self.root {
            None => 0,
            Some(i) => {
                proof {
                    self.table().lemma_node(i as int, None);
                }
                self.nodes[i].depth_below(self)
            },
        }
    }

    /// The node at the top, if the tree is not empty.
    pub fn get_root(&self) -> (r: Option<&BinarySearchTreeNode>)
        requires
            self.wf(),
        ensures
            r is Some <==> self@ is Fork,
            r matches Some(n) ==> self.holds(*n) && self.shape_of(*n) == self@ && n@.parent
                is None,
    {
        match self.root {
            None => None,
            Some(i) => {
                proof {
                    self.table().lemma_node(i as int, None);
                }
                Some(&self.nodes[i])
            },
        }
    }

    /// The left child of a node of the tree, if it has one.
    pub fn left_of(&self, node: &BinarySearchTreeNode) -> (r: Option<&BinarySearchTreeNode>)
        requires
            self.wf(),
            self.holds(*node),
        ensures
            r is Some <==> node@.left is Some,
            r matches Some(c) ==> *c == self.at(node@.left->0) && self.holds(*c),
    {
        proof {
            self.lemma_links_answered(*node);
            self.lemma_held(*node);
        }
        match node.left_child {
            None => None,
            Some(l) => Some(&self.nodes[l]),
        }
    }

    /// The right child of a node of the tree, if it has one.
    pub fn right_of(&self, node: &BinarySearchTreeNode) -> (r: Option<&BinarySearchTreeNode>)
        requires
            self.wf(),
            self.holds(*node),
        ensures
            r is Some <==> node@.right is Some,
            r matches Some(c) ==> *c == self.at(node@.right->0) && self.holds(*c),
    {
        proof {
            self.lemma_links_answered(*node);
            self.lemma_held(*node);
        }
        match node.right_child {
            None => None,
            Some(l) => Some(&self.nodes[l]),
        }
    }

    /// The parent of a node of the tree; the top node has none.
    pub fn parent_of(&self, node: &BinarySearchTreeNode) -> (r: Option<&BinarySearchTreeNode>)
        requires
            self.wf(),
            self.holds(*node),
        ensures
            r is Some <==> node@.parent is Some,
            r matches Some(p) ==> *p == self.at(node@.parent->0) && self.holds(*p),
    {
        proof {
            self.lemma_links_answered(*node);
            let i = choose|i: int| 0 <= i < self.nodes@.len() && self.nodes@[i] == *node;
            self.table().lemma_links(i, None);
        }
        match node.parent {
            None => None,
            Some(p) => Some(&self.nodes[p]),
        }
    }

    /// The place of the node that holds `key`, found by descent from the
    /// top: left where `key` is smaller, right where it is larger.
    fn locate(&self, key: i32) -> (r: Option<usize>)
        requires
            self.wf(),
        ensures
            r is Some <==> self@.contains(key),
            r matches Some(i) ==> i < self.nodes@.len() && self.nodes@[i as int].data == key
                && self.shapes@[i as int] == self@.find(key),
    {
        let mut cur = self.root;
        proof {
            lemma_find(self@, key);
        }
        loop
            invariant
                self.wf(),
                cur matches Some(c) ==> c < self.nodes@.len(),
                self.table().below(cur).find(key) == self@.find(key),
                self@.find(key) is Fork <==> self@.contains(key),
            decreases self.table().below(cur).size(),
        {
            match cur {
                None => {
                    return None;
                },
                Some(c) => {
                    proof {
                        self.table().lemma_node(c as int, None);
                        self.table().lemma_links(c as int, None);
                    }
                    let node = self.nodes[c];
                    if key == node.data {
                        return Some(c);
                    } else if key < node.data {
                        cur = node.left_child;
                    } else {
                        cur = node.right_child;
                    }
                },
            }
        }
    }

    /// The node that holds `key`, if there is one. Nothing is changed.
    pub fn search(&self, key: i32) -> (r: Option<&BinarySearchTreeNode>)
        requires
            self.wf(),
        ensures
            r is Some <==> self@.contains(key),
            r matches Some(n) ==> n@.data == key && self.holds(*n) && self.shape_of(*n)
                == self@.find(key),
    {
        match self.locate(key) {
            None => None,
            Some(i) => {
                proof {
                    self.table().lemma_node(i as int, None);
                }
                Some(&self.nodes[i])
            },
        }
    }

    /// The values in pre-order.
    pub fn get_preorder_vec(&self) -> (r: Option<Vec<i32>>)
        requires
            self.wf(),
        ensures
            r matches Some(v) && v@ == self@.preorder(),
    {
        let mut result_vec = Vec::with_capacity(self.get_len());
        if let Some(i) = self.root {
            proof {
                self.table().lemma_node(i as int, None);
            }
            self.nodes[i].apply_preorder_to_node(self, &mut result_vec);
        }
        assert(result_vec@ =~= self@.preorder());
        Some(result_vec)
    }

    /// The values in in-order, which is from the smallest to the largest.
    pub fn get_inorder_vec(&self) -> (r: Option<Vec<i32>>)
        requires
            self.wf(),
        ensures
            r matches Some(v) && v@ == self@.inorder() && strictly_increasing(v@),
    {
        proof {
            lemma_inorder(self@);
        }
        let mut result_vec = Vec::with_capacity(self.get_len());
        if let Some(i) = self.root {
            proof {
                self.table().lemma_node(i as int, None);
            }
            self.nodes[i].apply_inorder_to_node(self, &mut result_vec);
        }
        assert(result_vec@ =~= self@.inorder());
        Some(result_vec)
    }

    /// The values in post-order.
    pub fn get_postorder_vec(&self) -> (r: Option<Vec<i32>>)
        requires
            self.wf(),
        ensures
            r matches Some(v) && v@ == self@.postorder(),
    {
        let mut result_vec = Vec::with_capacity(self.get_len());
        if let Some(i) = self.root {
            proof {
                self.table().lemma_node(i as int, None);
            }
            self.nodes[i].apply_postorder_to_node(self, &mut result_vec);
        }
        assert(result_vec@ =~= self@.postorder());
        Some(result_vec)
    }

    /// The values of the tree in the order asked for; of the empty tree, the
    /// empty sequence.
    pub fn traverse(&self, traversal_type: TraversalType) -> (r: Option<Vec<i32>>)
        requires
            self.wf(),
        ensures
            r matches Some(v) && v@ == (match traversal_type {
                TraversalType::InOrder => self@.inorder(),
                TraversalType::PreOrder => self@.preorder(),
                TraversalType::PostOrder => self@.postorder(),
            }),
    {
        match traversal_type {
            TraversalType::InOrder => self.get_inorder_vec(),
            TraversalType::PreOrder => self.get_preorder_vec(),
            TraversalType::PostOrder => self.get_postorder_vec(),
        }
    }

    /// The values at and below `root`, a node of the tree, in the order
    /// asked for; nothing where `root` is `None`.
    pub fn values_below(
        &self,
        root: Option<&BinarySearchTreeNode>,
        traversal_type: TraversalType,
    ) -> (r: Vec<i32>)
        requires
            self.wf(),
            root matches Some(n) ==> self.holds(*n),
        ensures
            r@ == (match root {
                None => Seq::<i32>::empty(),
                Some(n) => match traversal_type {
                    TraversalType::InOrder => self.shape_of(*n).inorder(),
                    TraversalType::PreOrder => self.shape_of(*n).preorder(),
                    TraversalType::PostOrder => self.shape_of(*n).postorder(),
                },
            }),
    {
        let mut result_vec = Vec::new();
        if let Some(node) = root {
            match traversal_type {
                TraversalType::InOrder => node.apply_inorder_to_node(self, &mut result_vec),
                TraversalType::PreOrder => node.apply_preorder_to_node(self, &mut result_vec),
                TraversalType::PostOrder => node.apply_postorder_to_node(self, &mut result_vec),
            }
        }
        assert(result_vec@ =~= (match root {
            None => Seq::<i32>::empty(),
            Some(n) => match traversal_type {
                TraversalType::InOrder => self.shape_of(*n).inorder(),
                TraversalType::PreOrder => self.shape_of(*n).preorder(),
                TraversalType::PostOrder => self.shape_of(*n).postorder(),
            },
        }));
        result_vec
    }

    /// Hangs a new leaf with the value `v` under the node at `at`, on the
    /// side that comparison gives, where the descent for `v` has ended.
    fn attach_leaf(&mut self, at: usize, v: i32)
        requires
            old(self).wf(),
            at < old(self).nodes@.len(),
            old(self)@.slot_parent(v) == Some(old(self).nodes@[at as int].data),
            v < old(self).nodes@[at as int].data ==> old(self).nodes@[at as int].left_child
                is None,
            v > old(self).nodes@[at as int].data ==> old(self).nodes@[at as int].right_child
                is None,
        ensures
            final(self).wf(),
            final(self)@ == old(self)@.insert(v),
    {
        let k = self.nodes.len();
        let mut parent = self.nodes[at];
        let ghost d = parent.data;
        let ghost before = *self;
        if v < parent.data {
            parent.left_child = Some(k);
        } else {
            parent.right_child = Some(k);
        }
        self.nodes.set(at, parent);
        self.nodes.push(BinarySearchTreeNode::with_parent(v, at));
        self.len = self.nodes.len();
        self.shapes = Ghost(
            Seq::new(
                (k + 1) as nat,
                |i: int|
                    if i < k {
                        before.shapes@[i].attach(d, v)
                    } else {
                        leaf(v)
                    },
            ),
        );
        proof {
            before.table().lemma_attach(at as int, v);
            let after = before.table().attached(at as int, v);
            assert(self.table().cells =~= after.cells);
            assert(self.table().shapes =~= after.shapes);
            assert(self.table() == after);
        }
    }

    /// Puts `insert_val` into the tree as a new leaf, at the place where the
    /// descent by comparison ends. A value that the tree holds already is
    /// left alone, and nothing changes.
    pub fn insert(&mut self, insert_val: i32)
        requires
            old(self).wf(),
        ensures
            final(self).wf(),
            final(self)@ == old(self)@.insert(insert_val),
            old(self)@.contains(insert_val) ==> final(self)@ == old(self)@,
            !old(self)@.contains(insert_val) ==> final(self)@.size() == old(self)@.size() + 1,
            forall|x: i32|
                #[trigger] final(self)@.contains(x) <==> (x == insert_val || old(self)@.contains(
                    x,
                )),
    {
        proof {
            lemma_insert_size(self@, insert_val);
            lemma_insert_contains(self@, insert_val);
        }
        match self.root {
            None => {
                self.nodes.push(BinarySearchTreeNode::new(insert_val));
                self.root = Some(0);
                self.len += 1;
                self.shapes = Ghost(Seq::empty().push(leaf(insert_val)));
                proof {
                    lemma_leaf(insert_val);
                    assert(self.table().node_ok(0, None));
                }
            },
            Some(top) => {
                let mut cur = top;
                loop
                    invariant
                        self.wf(),
                        *self == *old(self),
                        cur < self.nodes@.len(),
                        self@.find(insert_val) == self.shapes@[cur as int].find(insert_val),
                        self@.slot_parent(insert_val) == self.shapes@[cur as int].slot_parent(
                            insert_val,
                        ),
                    decreases self.shapes@[cur as int].size(),
                {
                    proof {
                        self.table().lemma_node(cur as int, None);
                        self.table().lemma_links(cur as int, None);
                    }
                    let node = self.nodes[cur];
                    if insert_val == node.data {
                        proof {
                            lemma_find(self@, insert_val);
                            lemma_insert_size(self@, insert_val);
                            lemma_insert_contains(self@, insert_val);
                        }
                        return ;
                    } else if insert_val < node.data {
                        match node.left_child {
                            Some(c) => {
                                cur = c;
                            },
                            None => {
                                proof {
                                    lemma_insert_size(self@, insert_val);
                                    lemma_insert_contains(self@, insert_val);
                                }
                                self.attach_leaf(cur, insert_val);
                                return ;
                            },
                        }
                    } else {
                        match node.right_child {
                            Some(c) => {
                                cur = c;
                            },
                            None => {
                                proof {
                                    lemma_insert_size(self@, insert_val);
                                    lemma_insert_contains(self@, insert_val);
                                }
                                self.attach_leaf(cur, insert_val);
                                return ;
                            },
                        }
                    }
                }
            },
        }
    }

    /// Takes the node at `target`, which has at most one child, out of the
    /// links: its child, or nothing, comes into its place under its parent
    /// or at the top. The place `target` of the table is then unused.
    fn unlink(&mut self, target: usize)
        requires
            old(self).wf(),
            target < old(self).nodes@.len(),
            old(self).nodes@[target as int].child_count() <= 1,
        ensures
            final(self).table() == old(self).table().unlinked(target as int),
            final(self).table().inv(Some(target as int)),
            final(self)@ == old(self)@.delete(old(self).nodes@[target as int].data),
    {
        let ghost before = *self;
        let node = self.nodes[target];
        proof {
            before.table().lemma_links(target as int, None);
        }
        let child = if node.left_child.is_some() {
            node.left_child
        } else {
            node.right_child
        };
        match node.parent {
            Some(p) => {
                let mut parent = self.nodes[p];
                if leads_to(parent.left_child, target) {
                    parent.left_child = child;
                } else {
                    parent.right_child = child;
                }
                self.nodes.set(p, parent);
            },
            None => {
                self.root = child;
            },
        }
        if let Some(c) = child {
            let mut below = self.nodes[c];
            below.parent = node.parent;
            self.nodes.set(c, below);
        }
        self.len -= 1;
        self.shapes = Ghost(
            Seq::new(before.shapes@.len(), |i: int| before.shapes@[i].delete(node.data)),
        );
        proof {
            before.table().lemma_unlink(target as int);
            let after = before.table().unlinked(target as int);
            assert(self.table().cells =~= after.cells);
            assert(self.table().shapes =~= after.shapes);
            assert(self.table() == after);
        }
    }

    /// Gives up the unused place `hole` of the table: the node at the last
    /// place moves there, and the links that led to it follow.
    fn release(&mut self, hole: usize)
        requires
            old(self).table().inv(Some(hole as int)),
        ensures
            final(self).table() == old(self).table().released(hole as int),
            final(self).wf(),
            final(self)@ == old(self)@,
    {
        let ghost before = *self;
        let last = self.nodes.len() - 1;
        self.nodes.swap_remove(hole);
        if hole != last {
            proof {
                before.table().lemma_links(last as int, Some(hole as int));
            }
            let node = self.nodes[hole];
            match node.parent {
                Some(p) => {
                    let mut parent = self.nodes[p];
                    if leads_to(parent.left_child, last) {
                        parent.left_child = Some(hole);
                    } else {
                        parent.right_child = Some(hole);
                    }
                    self.nodes.set(p, parent);
                },
                None => {
                    self.root = Some(hole);
                },
            }
            if let Some(c) = node.left_child {
                let mut below = self.nodes[c];
                below.parent = Some(hole);
                self.nodes.set(c, below);
            }
            if let Some(c) = node.right_child {
                let mut below = self.nodes[c];
                below.parent = Some(hole);
                self.nodes.set(c, below);
            }
        }
        self.shapes = Ghost(
            before.shapes@.update(hole as int, before.shapes@[last as int]).drop_last(),
        );
        proof {
            before.table().lemma_release(hole as int);
            let after = before.table().released(hole as int);
            assert(self.table().cells =~= after.cells);
            assert(self.table().shapes =~= after.shapes);
            assert(self.table() == after);
        }
    }

    /// Removes the node at `target` from the tree. With at most one child,
    /// the child takes its place. With two, the node that holds the largest
    /// value on the left, which has no right child, is removed in that way,
    /// and its value is written over the value at `target`.
    fn delete_node(&mut self, target: usize)
        requires
            old(self).wf(),
            target < old(self).nodes@.len(),
        ensures
            final(self).wf(),
            final(self)@ == old(self)@.delete(old(self).nodes@[target as int].data),
    {
        let ghost before = *self;
        let node = self.nodes[target];
        let ghost key = node.data;
        proof {
            before.table().lemma_node(target as int, None);
            before.table().lemma_links(target as int, None);
        }
        match node.num_of_childs() {
            2 => {
                let donor = node.max_in_lsub(self).unwrap();
                let donor_data = self.nodes[donor].data;
                let last = self.nodes.len() - 1;
                proof {
                    before.table().lemma_node(donor as int, None);
                    lemma_max(before.table().below(node.left_child));
                    lemma_replace_is_delete(before@, key);
                    lemma_delete_contains(before@, donor_data);
                    lemma_delete_ordered(before@, key);
                    lemma_delete_size(before@, key);
                    lemma_delete_size(before@, donor_data);
                }
                self.unlink(donor);
                proof {
                    self.table().lemma_release(donor as int);
                }
                self.release(donor);
                let place = if target == last {
                    donor
                } else {
                    target
                };
                let ghost middle = *self;
                let mut holder = self.nodes[place];
                holder.data = donor_data;
                self.nodes.set(place, holder);
                self.shapes = Ghost(
                    Seq::new(
                        middle.shapes@.len(),
                        |i: int| middle.shapes@[i].replace(key, donor_data),
                    ),
                );
                proof {
                    middle.table().lemma_overwrite(place as int, donor_data);
                    let after = middle.table().overwritten(place as int, donor_data);
                    assert(self.table().cells =~= after.cells);
                    assert(self.table().shapes =~= after.shapes);
                    assert(self.table() == after);
                }
            },
            _ => {
                self.unlink(target);
                self.release(target);
            },
        }
    }

    /// Removes `key` from the tree. Where the tree does not hold `key`,
    /// nothing changes.
    pub fn delete(&mut self, key: i32)
        requires
            old(self).wf(),
        ensures
            final(self).wf(),
            final(self)@ == old(self)@.delete(key),
            !old(self)@.contains(key) ==> final(self)@ == old(self)@,
            old(self)@.contains(key) ==> final(self)@.size() == old(self)@.size() - 1,
            forall|x: i32|
                #[trigger] final(self)@.contains(x) <==> (x != key && old(self)@.contains(x)),
    {
        proof {
            lemma_delete_size(self@, key);
            lemma_delete_contains(self@, key);
        }
        match self.locate(key) {
            Some(target) => {
                self.delete_node(target);
            },
            None => {
                proof {
                    lemma_delete_size(self@, key);
                }
            },
        }
    }
}

/// Whether the link `slot` leads to the place `i`.
fn leads_to(slot: Option<usize>, i: usize) -> (r: bool)
    ensures
        r == (slot == Some(i)),
{
    match slot {
        Some(j) => j == i,
        None => false,
    }
}

} // verus!
