//! The nodes of the point-location DAG.

use crate::geom::{
    left_of, lemma_turn_of_grid, orientation, orientation_at, Coords, Point, Segment,
};
use crate::route::sends_left_under;
use crate::idx::{QueryIdx, TrapezoidIdx};
use crate::text::decimal;
use text_trees::TreeNode;
use vstd::prelude::*;

verus! {

/// The tree type of the `text_trees` crate: a label and an ordered list of subtrees.
#[verifier::external_type_specification]
#[verifier::external_body]
#[verifier::reject_recursive_types(T)]
pub struct ExTreeNode<T: core::fmt::Display>(TreeNode<T>);

/// What a text tree holds: one row for each node, in the order in which the tree is
/// written out (a node, then its subtrees from first to last), each row being the depth
/// of the node below the root and its label.
pub uninterp spec fn tree_rows(tree: TreeNode<String>) -> Seq<(nat, Seq<char>)>;

/// The rows of a subtree as they stand in the tree one level up.
pub open spec fn indented(rows: Seq<(nat, Seq<char>)>) -> Seq<(nat, Seq<char>)> {
    rows.map_values(|row: (nat, Seq<char>)| (row.0 + 1, row.1))
}

/// Calls `From<String>` of `text_trees::TreeNode`: a tree that is one node without
/// subtrees, labelled `label`, so its only row is that label at depth 0.
#[verifier::external_body]
fn tree_leaf(label: String) -> (tree: TreeNode<String>)
    ensures
        tree_rows(tree) == seq![(0nat, label@)],
{
    label.into()
}

/// Calls `text_trees::TreeNode::with_child_nodes` with two subtrees: the tree's root is
/// labelled `label` and has `left` and `right` as its subtrees, in this order, so its
/// rows are the label at depth 0, then the rows of `left` and those of `right`, each one
/// level deeper.
#[verifier::external_body]
fn tree_fork(label: String, left: TreeNode<String>, right: TreeNode<String>) -> (tree: TreeNode<
    String,
>)
    ensures
        tree_rows(tree) == seq![(0nat, label@)] + indented(tree_rows(left)) + indented(
            tree_rows(right),
        ),
{
    TreeNode::with_child_nodes(label, [left, right].into_iter())
}

/// Whether every branch among `nodes` has its two children in range and behind itself.
/// Such a list of nodes holds no cycle, and every descent in it ends in a leaf.
pub open spec fn descending(nodes: Seq<QueryNode>) -> bool {
    forall|q: int|
        0 <= q < nodes.len() ==> match #[trigger] nodes[q] {
            QueryNode::Branch(left, right, _) => q < left@ < nodes.len() && q < right@
                < nodes.len(),
            QueryNode::Sink(_) => true,
        }
}

/// The text of `node` as node `q`: the handle's label in square brackets, a space, then
/// the node.
pub open spec fn indexed_text(q: int, node: QueryNode) -> Seq<char> {
    "[q"@ + decimal(q as nat) + "] "@ + node.spec_text()
}

/// Whether every walk down from node `q` ends in a leaf after fewer than `fuel` steps: `q`
/// is in range, and so is every node met below it, none more than `fuel` nodes deep.
pub open spec fn walkable(nodes: Seq<QueryNode>, q: int, fuel: nat) -> bool
    decreases fuel,
{
    0 <= q < nodes.len() && fuel > 0 && match nodes[q] {
        QueryNode::Branch(left, right, _) => walkable(nodes, left@, (fuel - 1) as nat)
            && walkable(nodes, right@, (fuel - 1) as nat),
        QueryNode::Sink(_) => true,
    }
}

/// The rows of the text tree below node `q`, as far as `fuel` nodes deep: the node with
/// its handle, then the rows of the left and of the right subtree of a branch.
pub open spec fn rows_within(nodes: Seq<QueryNode>, q: int, fuel: nat) -> Seq<(nat, Seq<char>)>
    decreases fuel,
{
    if 0 <= q < nodes.len() && fuel > 0 {
        let label = indexed_text(q, nodes[q]);
        match nodes[q] {
            QueryNode::Branch(left, right, _) => seq![(0nat, label)] + indented(
                rows_within(nodes, left@, (fuel - 1) as nat),
            ) + indented(rows_within(nodes, right@, (fuel - 1) as nat)),
            QueryNode::Sink(_) => seq![(0nat, label)],
        }
    } else {
        Seq::empty()
    }
}

/// The rows of the text tree below node `q`, where every walk down from `q` ends in a
/// leaf: the node with its handle, then the rows of the left and of the right subtree of
/// a branch. A node that is reached on several ways has its rows once for each.
pub open spec fn subtree_rows(nodes: Seq<QueryNode>, q: int) -> Seq<(nat, Seq<char>)> {
    rows_within(nodes, q, choose|fuel: nat| walkable(nodes, q, fuel))
}

/// Where every walk down from `q` ends in a leaf within two depths, the rows as far as
/// the one depth are the rows as far as the other.
pub proof fn lemma_rows_within_any_depth(nodes: Seq<QueryNode>, q: int, a: nat, b: nat)
    requires
        walkable(nodes, q, a),
        walkable(nodes, q, b),
    ensures
        rows_within(nodes, q, a) == rows_within(nodes, q, b),
    decreases a,
{
    match nodes[q] {
        QueryNode::Branch(left, right, _) => {
            lemma_rows_within_any_depth(nodes, left@, (a - 1) as nat, (b - 1) as nat);
            lemma_rows_within_any_depth(nodes, right@, (a - 1) as nat, (b - 1) as nat);
        },
        QueryNode::Sink(_) => {},
    }
}

/// The rows below a node from which every walk down ends in a leaf: its own row, and for
/// a branch the rows below its left child and those below its right child, each one level
/// deeper. Every walk down from a child ends in a leaf too.
pub proof fn lemma_subtree_rows(nodes: Seq<QueryNode>, q: int, fuel: nat)
    requires
        walkable(nodes, q, fuel),
    ensures
        subtree_rows(nodes, q) == rows_within(nodes, q, fuel),
        subtree_rows(nodes, q) == (match nodes[q] {
            QueryNode::Branch(left, right, _) => seq![(0nat, indexed_text(q, nodes[q]))]
                + indented(subtree_rows(nodes, left@)) + indented(subtree_rows(nodes, right@)),
            QueryNode::Sink(_) => seq![(0nat, indexed_text(q, nodes[q]))],
        }),
        nodes[q] matches QueryNode::Branch(left, right, _) ==> walkable(
            nodes,
            left@,
            (fuel - 1) as nat,
        ) && walkable(nodes, right@, (fuel - 1) as nat),
{
    let chosen = choose|fuel: nat| walkable(nodes, q, fuel);
    lemma_rows_within_any_depth(nodes, q, chosen, fuel);
    match nodes[q] {
        QueryNode::Branch(left, right, _) => {
            let below = (fuel - 1) as nat;
            assert(walkable(nodes, left@, below) && walkable(nodes, right@, below));
            let on_left = choose|fuel: nat| walkable(nodes, left@, fuel);
            let on_right = choose|fuel: nat| walkable(nodes, right@, fuel);
            lemma_rows_within_any_depth(nodes, left@, on_left, below);
            lemma_rows_within_any_depth(nodes, right@, on_right, below);
        },
        QueryNode::Sink(_) => {},
    }
}

/// In a list of nodes in which every branch has its children in range and behind itself,
/// every walk down from a node in range ends in a leaf.
pub proof fn lemma_descending_is_walkable(nodes: Seq<QueryNode>, q: int)
    requires
        descending(nodes),
        0 <= q < nodes.len(),
    ensures
        walkable(nodes, q, (nodes.len() - q) as nat),
    decreases nodes.len() - q,
{
    match nodes[q] {
        QueryNode::Branch(left, right, _) => {
            lemma_descending_is_walkable(nodes, left@);
            lemma_descending_is_walkable(nodes, right@);
            lemma_walkable_deeper(nodes, left@, (nodes.len() - left@) as nat, (nodes.len() - q - 1) as nat);
            lemma_walkable_deeper(nodes, right@, (nodes.len() - right@) as nat, (nodes.len() - q - 1) as nat);
        },
        QueryNode::Sink(_) => {},
    }
}

/// Walks that end within a depth end within every greater depth.
pub proof fn lemma_walkable_deeper(nodes: Seq<QueryNode>, q: int, a: nat, b: nat)
    requires
        walkable(nodes, q, a),
        a <= b,
    ensures
        walkable(nodes, q, b),
    decreases a,
{
    match nodes[q] {
        QueryNode::Branch(left, right, _) => {
            lemma_walkable_deeper(nodes, left@, (a - 1) as nat, (b - 1) as nat);
            lemma_walkable_deeper(nodes, right@, (a - 1) as nat, (b - 1) as nat);
        },
        QueryNode::Sink(_) => {},
    }
}

/// A node of the query DAG, by which the trapezoid of a point is found.
#[derive(Clone, Copy, Debug)]
pub enum QueryNode {
    /// A branch: its left child, its right child, and the test that chooses between them.
    Branch(QueryIdx, QueryIdx, QueryNodeBranch),
    /// A leaf, which designates one trapezoid.
    Sink(TrapezoidIdx),
}

/// The test of a branch: how the search for a point chooses the left or right subtree.
#[derive(Clone, Copy, Debug)]
pub enum QueryNodeBranch {
    /// The line through the lower and upper endpoint of a segment: points left of it are in
    /// the left subtree.
    X(Coords, Coords),
    /// The height of a vertex: points below it are in the left subtree.
    Y(Coords),
}

/// A query node together with its handle.
pub struct IndexedQueryNode<'a>(pub QueryIdx, pub &'a QueryNode);

impl QueryNodeBranch {
    /// Whether a search for `p` continues in the left subtree: for an X test, when `p` lies
    /// strictly left of the line through the two anchors (a point on the line goes right);
    /// for a Y test, when `p` lies strictly below the height (a point at the height goes right).
    pub open spec fn sends_left(&self, p: Point) -> bool {
        match *self {
            QueryNodeBranch::X(c_min, c_max) => left_of(c_min, c_max, p),
            QueryNodeBranch::Y(c) => p.y < c.y as real,
        }
    }

    /// Decides whether a search for the grid point `p` continues in the left subtree.
    pub fn goes_left(&self, p: Coords) -> (left: bool)
        ensures
            left == self.sends_left(p.point()),
    {
        match self {
            QueryNodeBranch::X(c_min, c_max) => {
                proof {
                    lemma_turn_of_grid(*c_min, *c_max, p);
                }
                orientation(*c_min, *c_max, p) > 0
            },
            QueryNodeBranch::Y(c) => p.y < c.y,
        }
    }

    /// Decides whether a search for the part of `s` just below height `d` continues in the
    /// left subtree.
    pub fn goes_left_under(&self, s: &Segment, d: i32) -> (left: bool)
        ensures
            left == sends_left_under(*self, *s, d as int),
    {
        match self {
            QueryNodeBranch::X(c_min, c_max) => {
                let o = orientation_at(*c_min, *c_max, s.lo, s.hi, d);
                o > 0 || (o == 0 && orientation(*c_min, *c_max, s.lo) > 0)
            },
            QueryNodeBranch::Y(c) => d <= c.y,
        }
    }

    /// The test as text: `X` with its two anchors, or `Y` with its vertex.
    pub open spec fn spec_text(&self) -> Seq<char> {
        match *self {
            QueryNodeBranch::X(c_min, c_max) => "X("@ + c_min.spec_text() + ", "@
                + c_max.spec_text() + ")"@,
            QueryNodeBranch::Y(c) => "Y("@ + c.spec_text() + ")"@,
        }
    }

    /// Appends the test as text to `out`.
    pub fn push_text(&self, out: &mut String)
        ensures
            final(out)@ == old(out)@ + self.spec_text(),
    {
        match self {
            QueryNodeBranch::X(c_min, c_max) => {
                out.append("X(");
                c_min.push_text(out);
                out.append(", ");
                c_max.push_text(out);
                out.append(")");
                assert(out@ =~= old(out)@ + self.spec_text());
            },
            QueryNodeBranch::Y(c) => {
                out.append("Y(");
                c.push_text(out);
                out.append(")");
                assert(out@ =~= old(out)@ + self.spec_text());
            },
        }
    }

    /// The test as text.
    pub fn to_text(&self) -> (text: String)
        ensures
            text@ == self.spec_text(),
    {
        let mut text = String::new();
        self.push_text(&mut text);
        assert(text@ =~= self.spec_text());
        text
    }
}

impl QueryNode {
    /// The leaf that designates trapezoid `ti`.
    pub fn root(ti: TrapezoidIdx) -> (leaf: Self)
        ensures
            leaf == QueryNode::Sink(ti),
    {
        Self::Sink(ti)
    }

    /// Turns this node into an X branch over the children `qi_left` and `qi_right`.
    /// Returns the nodes to store there: the node as it was, and a new leaf for `ti_right`.
    #[must_use]
    pub fn branch_x(
        &mut self,
        qi_left: QueryIdx,
        qi_right: QueryIdx,
        c_min_x: Coords,
        c_max_x: Coords,
        ti_right: TrapezoidIdx,
    ) -> (children: (Self, Self))
        ensures
            *final(self) == QueryNode::Branch(
                qi_left,
                qi_right,
                QueryNodeBranch::X(c_min_x, c_max_x),
            ),
            children.0 == *old(self),
            children.1 == QueryNode::Sink(ti_right),
    {
        (self.branch(qi_left, qi_right, QueryNodeBranch::X(c_min_x, c_max_x)), QueryNode::Sink(
            ti_right,
        ))
    }

    /// Turns this node into an X branch over the children `qi_left` and `qi_right`, and
    /// returns the node as it was; no leaf is made.
    #[must_use]
    pub fn merge_x(
        &mut self,
        qi_left: QueryIdx,
        qi_right: QueryIdx,
        c_min_x: Coords,
        c_max_x: Coords,
    ) -> (previous: Self)
        ensures
            *final(self) == QueryNode::Branch(
                qi_left,
                qi_right,
                QueryNodeBranch::X(c_min_x, c_max_x),
            ),
            previous == *old(self),
    {
        self.branch(qi_left, qi_right, QueryNodeBranch::X(c_min_x, c_max_x))
    }

    /// Turns this node into a Y branch over the children `qi_left` (below) and `qi_right`.
    /// Returns the nodes to store there: the node as it was, and a new leaf for `ti_up`.
    #[must_use]
    pub fn branch_y(
        &mut self,
        qi_left: QueryIdx,
        qi_right: QueryIdx,
        c_y: Coords,
        ti_up: TrapezoidIdx,
    ) -> (children: (Self, Self))
        ensures
            *final(self) == QueryNode::Branch(qi_left, qi_right, QueryNodeBranch::Y(c_y)),
            children.0 == *old(self),
            children.1 == QueryNode::Sink(ti_up),
    {
        (self.branch(qi_left, qi_right, QueryNodeBranch::Y(c_y)), QueryNode::Sink(ti_up))
    }

    /// Puts a branch with the given children and test in the place of this node, and
    /// returns the node as it was.
    #[must_use]
    fn branch(&mut self, qi_left: QueryIdx, qi_right: QueryIdx, branch: QueryNodeBranch) -> (previous: Self)
        ensures
            *final(self) == QueryNode::Branch(qi_left, qi_right, branch),
            previous == *old(self),
    {
        let mut new = QueryNode::Branch(qi_left, qi_right, branch);
        core::mem::swap(self, &mut new);
        new
    }

    /// Builds the text tree of the nodes reachable from this one, which is node `qi` of `qs`:
    /// each node labelled with its handle and its text, a branch with the trees of its left
    /// and right child below it. Every walk down from the node must end in a leaf: the
    /// children met are in range, and no node is met again below itself.
    pub fn as_text_tree(&self, qi: QueryIdx, qs: &[QueryNode]) -> (tree: TreeNode<String>)
        requires
            exists|fuel: nat| walkable(qs@, qi@, fuel),
            qs@[qi@] == *self,
        ensures
            tree_rows(tree) == subtree_rows(qs@, qi@),
    {
        let ghost fuel = choose|fuel: nat| walkable(qs@, qi@, fuel);
        self.text_tree_within(qi, qs, Ghost(fuel))
    }

    /// Builds the text tree below this node, which is node `qi` of `qs`; every walk down
    /// from it ends in a leaf within the depth `fuel`.
    fn text_tree_within(&self, qi: QueryIdx, qs: &[QueryNode], fuel: Ghost<nat>) -> (tree: TreeNode<
        String,
    >)
        requires
            walkable(qs@, qi@, fuel@),
            qs@[qi@] == *self,
        ensures
            tree_rows(tree) == rows_within(qs@, qi@, fuel@),
        decreases fuel@,
    {
        let node = IndexedQueryNode(qi, self);
        let label = node.to_text();
        match self {
            QueryNode::Branch(left, right, _) => {
                let ghost below = (fuel@ - 1) as nat;
                proof {
                    assert(walkable(qs@, left@, below) && walkable(qs@, right@, below));
                }
                let below_left = qs[left.index()].text_tree_within(*left, qs, Ghost(below));
                let below_right = qs[right.index()].text_tree_within(*right, qs, Ghost(below));
                tree_fork(label, below_left, below_right)
            },
            QueryNode::Sink(_) => tree_leaf(label),
        }
    }

    /// The node as text: the test of a branch, or `S` with the label of a leaf's trapezoid.
    pub open spec fn spec_text(&self) -> Seq<char> {
        match *self {
            QueryNode::Branch(_, _, branch) => branch.spec_text(),
            QueryNode::Sink(ti) => "S("@ + ti.spec_text() + ")"@,
        }
    }

    /// Appends the node as text to `out`.
    pub fn push_text(&self, out: &mut String)
        ensures
            final(out)@ == old(out)@ + self.spec_text(),
    {
        match self {
            QueryNode::Branch(_, _, branch) => {
                branch.push_text(out);
            },
            QueryNode::Sink(ti) => {
                out.append("S(");
                ti.push_text(out);
                out.append(")");
                assert(out@ =~= old(out)@ + self.spec_text());
            },
        }
    }

    /// The node as text.
    pub fn to_text(&self) -> (text: String)
        ensures
            text@ == self.spec_text(),
    {
        let mut text = String::new();
        self.push_text(&mut text);
        assert(text@ =~= self.spec_text());
        text
    }
}

impl<'a> IndexedQueryNode<'a> {
    /// The node with its handle as text: the handle's label in square brackets, a space,
    /// then the node.
    pub open spec fn spec_text(&self) -> Seq<char> {
        indexed_text(self.0@, *self.1)
    }

    /// The node with its handle as text.
    pub fn to_text(&self) -> (text: String)
        ensures
            text@ == self.spec_text(),
    {
        let mut text = String::new();
        text.append("[");
        self.0.push_text(&mut text);
        text.append("] ");
        self.1.push_text(&mut text);
        proof {
            reveal_strlit("[");
            reveal_strlit("q");
            reveal_strlit("[q");
            assert("[q"@ =~= "["@ + "q"@);
            assert(text@ =~= self.spec_text());
        }
        text
    }
}

} // verus!
