//! The syntax tree that the tree-sitter Java grammar produces, held as plain
//! values: its nodes in preorder, each with its depth below the root.

use vstd::prelude::*;

verus! {

/// One node of a syntax tree, as the preorder walk of the tree meets it.
#[derive(Debug, Clone)]
pub struct SyntaxNode {
    /// The grammar's name for the node's kind, such as `class_declaration`.
    pub kind: String,
    /// The field under which the node's parent holds it, such as `name` or `body`.
    pub field: Option<String>,
    /// The number of ancestors of the node; the root has depth 0.
    pub depth: usize,
    pub start_byte: usize,
    pub end_byte: usize,
    pub start_row: usize,
    pub start_col: usize,
    pub end_row: usize,
    pub end_col: usize,
}

/// The indices of the children of node `i`, scanning its preorder successors
/// from index `j` on: a child is a successor one level deeper, and the scan
/// stops at the first node that is no deeper than node `i`.
pub open spec fn child_list(t: Seq<SyntaxNode>, i: int, j: int) -> Seq<int>
    decreases t.len() - j,
{
    if j <= i || j >= t.len() || t[j].depth <= t[i].depth {
        seq![]
    } else if t[j].depth == t[i].depth + 1 {
        seq![j] + child_list(t, i, j + 1)
    } else {
        child_list(t, i, j + 1)
    }
}

/// The indices of the children of node `i`, in order.
pub open spec fn children_of(t: Seq<SyntaxNode>, i: int) -> Seq<int> {
    child_list(t, i, i + 1)
}

/// The field under which node `n` is held is `f`.
pub open spec fn has_field(n: SyntaxNode, f: Seq<char>) -> bool {
    n.field matches Some(x) && x@ == f
}

/// The first index in `cs` whose node is held under field `f`.
pub open spec fn first_with_field(t: Seq<SyntaxNode>, cs: Seq<int>, f: Seq<char>) -> Option<int>
    decreases cs.len(),
{
    if cs.len() == 0 {
        None
    } else if has_field(t[cs[0]], f) {
        Some(cs[0])
    } else {
        first_with_field(t, cs.drop_first(), f)
    }
}

/// The first child of node `i` held under field `f`.
pub open spec fn child_with_field(t: Seq<SyntaxNode>, i: int, f: Seq<char>) -> Option<int> {
    first_with_field(t, children_of(t, i), f)
}

/// The children found scanning from `j` lie after node `i`, at or after `j`, within the tree.
pub proof fn lemma_child_list_bounds(t: Seq<SyntaxNode>, i: int, j: int)
    requires
        0 <= i,
    ensures
        forall|k: int|
            0 <= k < child_list(t, i, j).len() ==> i < #[trigger] child_list(t, i, j)[k] < t.len()
                && j <= child_list(t, i, j)[k],
    decreases t.len() - j,
{
    if j <= i || j >= t.len() || t[j].depth <= t[i].depth {
    } else {
        lemma_child_list_bounds(t, i, j + 1);
        let rest = child_list(t, i, j + 1);
        if t[j].depth == t[i].depth + 1 {
            assert forall|k: int| 0 <= k < child_list(t, i, j).len() implies i < #[trigger] child_list(t, i, j)[k] < t.len()
                && j <= child_list(t, i, j)[k] by {
                if k > 0 {
                    assert(child_list(t, i, j)[k] == rest[k - 1]);
                }
            }
        }
    }
}

/// Every child of node `i` comes after it in the preorder and lies within the tree.
pub proof fn lemma_children_bounds(t: Seq<SyntaxNode>, i: int)
    requires
        0 <= i,
    ensures
        forall|k: int|
            0 <= k < children_of(t, i).len() ==> i < #[trigger] children_of(t, i)[k] < t.len(),
{
    lemma_child_list_bounds(t, i, i + 1);
}

/// The children of node `i` found scanning from `j` are one level below it,
/// come in increasing preorder, and lie before any later node `e` that is no
/// deeper than node `i` (or before the end of the tree).
pub proof fn lemma_child_list_shape(t: Seq<SyntaxNode>, i: int, j: int, e: int)
    requires
        0 <= i < j <= e <= t.len(),
        e == t.len() || t[e].depth <= t[i].depth,
    ensures
        forall|k: int|
            0 <= k < child_list(t, i, j).len() ==> j <= #[trigger] child_list(t, i, j)[k] < e
                && t[child_list(t, i, j)[k]].depth == t[i].depth + 1,
        forall|k: int, l: int|
            0 <= k < l < child_list(t, i, j).len() ==> #[trigger] child_list(t, i, j)[k]
                < #[trigger] child_list(t, i, j)[l],
    decreases t.len() - j,
{
    if j >= t.len() || t[j].depth <= t[i].depth {
    } else {
        assert(j < e);
        lemma_child_list_shape(t, i, j + 1, e);
        let rest = child_list(t, i, j + 1);
        if t[j].depth == t[i].depth + 1 {
            let all = child_list(t, i, j);
            assert(all == seq![j] + rest);
            assert forall|k: int| 0 <= k < all.len() implies j <= #[trigger] all[k] < e && t[all[k]].depth == t[i].depth + 1 by {
                if k > 0 {
                    assert(all[k] == rest[k - 1]);
                }
            }
            assert forall|k: int, l: int| 0 <= k < l < all.len() implies #[trigger] all[k] < #[trigger] all[l] by {
                assert(all[l] == rest[l - 1]);
                if k > 0 {
                    assert(all[k] == rest[k - 1]);
                }
            }
        }
    }
}

/// The child that `first_with_field` finds is one of `cs`, held under field `f`.
pub proof fn lemma_first_with_field_in(t: Seq<SyntaxNode>, cs: Seq<int>, f: Seq<char>)
    ensures
        first_with_field(t, cs, f) matches Some(c) ==> cs.contains(c) && has_field(t[c], f),
    decreases cs.len(),
{
    if cs.len() == 0 {
    } else if has_field(t[cs[0]], f) {
        assert(cs.contains(cs[0]));
    } else {
        lemma_first_with_field_in(t, cs.drop_first(), f);
        if let Some(c) = first_with_field(t, cs.drop_first(), f) {
            let k = choose|k: int| 0 <= k < cs.drop_first().len() && cs.drop_first()[k] == c;
            assert(cs[k + 1] == c);
        }
    }
}

/// Node `b` is a child of node `a`: one level deeper, and every node between
/// them in the preorder lies deeper than `a`.
pub open spec fn is_parent(t: Seq<SyntaxNode>, a: int, b: int) -> bool {
    &&& 0 <= a < b < t.len()
    &&& t[b].depth == t[a].depth + 1
    &&& forall|k: int| a < k < b ==> #[trigger] t[k].depth > t[a].depth
}

proof fn lemma_child_list_parents(t: Seq<SyntaxNode>, i: int, j: int)
    requires
        0 <= i < j,
        forall|k: int| i < k < j ==> #[trigger] t[k].depth > t[i].depth,
    ensures
        forall|k: int| 0 <= k < child_list(t, i, j).len() ==> is_parent(t, i, #[trigger] child_list(t, i, j)[k]),
    decreases t.len() - j,
{
    if j >= t.len() || t[j].depth <= t[i].depth {
    } else {
        lemma_child_list_parents(t, i, j + 1);
        if t[j].depth == t[i].depth + 1 {
            let all = child_list(t, i, j);
            let rest = child_list(t, i, j + 1);
            assert(all == seq![j] + rest);
            assert forall|k: int| 0 <= k < all.len() implies is_parent(t, i, #[trigger] all[k]) by {
                if k > 0 {
                    assert(all[k] == rest[k - 1]);
                } else {
                    assert(all[0] == j);
                }
            }
        } else {
            assert(child_list(t, i, j) == child_list(t, i, j + 1));
        }
    }
}

/// Every node that `children_of` lists for node `i` has `i` as its parent.
pub proof fn lemma_children_have_parent(t: Seq<SyntaxNode>, i: int)
    requires
        0 <= i,
    ensures
        forall|k: int| 0 <= k < children_of(t, i).len() ==> is_parent(t, i, #[trigger] children_of(t, i)[k]),
{
    lemma_child_list_parents(t, i, i + 1);
}

/// Along the preorder the depth grows by at most one from a node to the next,
/// as it does in every tree: each node after the first is a child of an
/// earlier one.
pub open spec fn well_nested(t: Seq<SyntaxNode>) -> bool {
    forall|k: int| 0 < k < t.len() ==> #[trigger] t[k].depth <= t[k - 1].depth + 1
}

/// Place `e` closes the subtree of node `i`: every node between them lies
/// deeper than `i`, and `e` is the end of the tree or a node no deeper than `i`.
pub open spec fn closes_subtree(t: Seq<SyntaxNode>, i: int, e: int) -> bool {
    &&& 0 <= i < e <= t.len()
    &&& forall|k: int| i < k < e ==> #[trigger] t[k].depth > t[i].depth
    &&& e == t.len() || t[e].depth <= t[i].depth
}

/// The preorder places `lo`, `lo + 1`, ..., `hi - 1`.
pub open spec fn places(lo: int, hi: int) -> Seq<int> {
    Seq::new((hi - lo) as nat, |k: int| lo + k)
}

/// The first place from `j` on whose node is no deeper than `d`, or the end of the tree.
pub open spec fn next_no_deeper(t: Seq<SyntaxNode>, d: int, j: int) -> int
    decreases t.len() - j,
{
    if j >= t.len() {
        t.len() as int
    } else if t[j].depth <= d {
        j
    } else {
        next_no_deeper(t, d, j + 1)
    }
}

/// `next_no_deeper` stops at or before any place `e` that is no deeper than
/// `d`, and every node it passes lies deeper than `d`.
pub proof fn lemma_next_no_deeper(t: Seq<SyntaxNode>, d: int, j: int, e: int)
    requires
        0 <= j <= e <= t.len(),
        e == t.len() || t[e].depth <= d,
    ensures
        j <= next_no_deeper(t, d, j) <= e,
        forall|k: int| j <= k < next_no_deeper(t, d, j) ==> #[trigger] t[k].depth > d,
        next_no_deeper(t, d, j) == t.len() || t[next_no_deeper(t, d, j)].depth <= d,
    decreases t.len() - j,
{
    if j < t.len() && t[j].depth > d {
        lemma_next_no_deeper(t, d, j + 1, e);
    }
}

/// Nodes more than one level below node `i` are no children of it: the scan
/// for children passes over them.
pub proof fn lemma_child_list_skip(t: Seq<SyntaxNode>, i: int, j: int, m: int)
    requires
        0 <= i < j <= m <= t.len(),
        forall|k: int| j <= k < m ==> #[trigger] t[k].depth > t[i].depth + 1,
    ensures
        child_list(t, i, j) == child_list(t, i, m),
    decreases m - j,
{
    if j < m {
        lemma_child_list_skip(t, i, j + 1, m);
    }
}

/// In a well-nested tree, the subtree of node `p` that `e` closes splits, from
/// a place `lo` that starts a child (or from `e`), into the first child's
/// subtree, closed by `next`, and the rest: the children found from `lo` are
/// `lo` and those found from `next`.
pub proof fn lemma_first_child_subtree(t: Seq<SyntaxNode>, p: int, lo: int, e: int) -> (next: int)
    requires
        well_nested(t),
        closes_subtree(t, p, e),
        p < lo < e,
        t[lo].depth == t[p].depth + 1,
    ensures
        closes_subtree(t, lo, next),
        lo < next <= e,
        next == e || t[next].depth == t[p].depth + 1,
        child_list(t, p, lo) == seq![lo] + child_list(t, p, next),
{
    let d = t[lo].depth as int;
    lemma_next_no_deeper(t, d, lo + 1, e);
    let next = next_no_deeper(t, d, lo + 1);
    lemma_child_list_skip(t, p, lo + 1, next);
    if next < e {
        assert(t[next].depth > t[p].depth);
    }
    next
}

/// In a well-nested tree, a node's first successor inside its subtree is a child of it.
pub proof fn lemma_first_successor(t: Seq<SyntaxNode>, i: int, e: int)
    requires
        well_nested(t),
        closes_subtree(t, i, e),
    ensures
        i + 1 == e || t[i + 1].depth == t[i].depth + 1,
{
    if i + 1 < e {
        assert(t[i + 1].depth <= t[i + 1 - 1].depth + 1);
    }
}

/// A syntax tree: its nodes in preorder, the root first.
#[derive(Debug)]
pub struct SyntaxTree {
    nodes: Vec<SyntaxNode>,
}

impl View for SyntaxTree {
    type V = Seq<SyntaxNode>;

    closed spec fn view(&self) -> Seq<SyntaxNode> {
        self.nodes@
    }
}

impl SyntaxTree {
    #[verifier::type_invariant]
    spec fn has_root(self) -> bool {
        self.nodes@.len() > 0
    }

    /// The tree with the given preorder nodes, if there is at least one.
    pub fn from_nodes(nodes: Vec<SyntaxNode>) -> (r: Option<SyntaxTree>)
        ensures
            r is Some <==> nodes@.len() > 0,
            r matches Some(t) ==> t@ == nodes@,
    {
        if nodes.len() == 0 {
            None
        } else {
            Some(SyntaxTree { nodes })
        }
    }

    /// The root node.
    pub fn root_node(&self) -> (r: Node<'_>)
        ensures
            r.model() == self@,
            r.idx() == 0,
            0 < r.model().len(),
    {
        proof {
            use_type_invariant(self);
        }
        Node { tree: self, index: 0 }
    }

    /// The node at place `i` of the preorder.
    pub fn node_at(&self, i: usize) -> (r: &SyntaxNode)
        requires
            i < self@.len(),
        ensures
            *r == self@[i as int],
    {
        &self.nodes[i]
    }

    /// The number of nodes.
    pub fn len(&self) -> (r: usize)
        ensures
            r == self@.len(),
    {
        self.nodes.len()
    }
}

/// A node of a syntax tree, by its place in the preorder.
#[derive(Clone, Copy)]
pub struct Node<'a> {
    tree: &'a SyntaxTree,
    index: usize,
}

impl<'a> Node<'a> {
    #[verifier::type_invariant]
    spec fn in_tree(self) -> bool {
        self.index < self.tree@.len()
    }

    /// The nodes of the tree that this node belongs to.
    pub closed spec fn model(self) -> Seq<SyntaxNode> {
        self.tree@
    }

    /// The place of this node in the preorder.
    pub closed spec fn idx(self) -> int {
        self.index as int
    }

    /// This node as a plain record.
    pub open spec fn rec(self) -> SyntaxNode {
        self.model()[self.idx()]
    }

    /// Establishes that this node lies within its tree.
    pub fn reveal_in_tree(&self)
        ensures
            0 <= self.idx() < self.model().len(),
    {
        proof {
            use_type_invariant(self);
        }
    }

    /// The record of this node.
    pub fn record(&self) -> (r: &'a SyntaxNode)
        ensures
            *r == self.rec(),
            0 <= self.idx() < self.model().len(),
    {
        proof {
            use_type_invariant(self);
        }
        &self.tree.nodes[self.index]
    }

    /// The children of this node, in order.
    pub fn children(&self) -> (r: Vec<Node<'a>>)
        ensures
            r@.len() == children_of(self.model(), self.idx()).len(),
            forall|k: int|
                0 <= k < r@.len() ==> (#[trigger] r@[k]).model() == self.model() && r@[k].idx()
                    == children_of(self.model(), self.idx())[k],
    {
        proof {
            use_type_invariant(self);
        }
        let ghost t = self.model();
        let ghost i = self.idx();
        let nodes = &self.tree.nodes;
        let depth = nodes[self.index].depth;
        let mut r: Vec<Node<'a>> = Vec::new();
        let count = nodes.len();
        let mut j = self.index + 1;
        while j < nodes.len() && nodes[j].depth > depth
            invariant
                t == nodes@,
                t == self.model(),
                i == self.index,
                i < t.len(),
                depth == t[i].depth,
                i < j <= t.len(),
                r@.len() + child_list(t, i, j as int).len() == children_of(t, i).len(),
                forall|k: int|
                    0 <= k < r@.len() ==> (#[trigger] r@[k]).model() == t && r@[k].idx()
                        == children_of(t, i)[k],
                forall|k: int|
                    0 <= k < child_list(t, i, j as int).len() ==> #[trigger] child_list(
                        t,
                        i,
                        j as int,
                    )[k] == children_of(t, i)[r@.len() + k],
            decreases nodes.len() - j,
        {
            if nodes[j].depth == depth + 1 {
                assert(child_list(t, i, j as int)[0] == j);
                let c = Node { tree: self.tree, index: j };
                r.push(c);
                assert forall|k: int| 0 <= k < child_list(t, i, j + 1).len() implies #[trigger] child_list(
                    t,
                    i,
                    j + 1,
                )[k] == children_of(t, i)[r@.len() + k] by {
                    assert(child_list(t, i, j as int)[k + 1] == child_list(t, i, j + 1)[k]);
                }
            }
            j += 1;
        }
        r
    }

    /// The kind of this node is `k`.
    pub fn kind_is(&self, k: &str) -> (r: bool)
        ensures
            r == (self.rec().kind@ == k@),
    {
        let n = self.record();
        crate::text::text_eq(n.kind.as_str(), k)
    }

    /// The first child of this node held under the field `f`.
    pub fn child_by_field_name(&self, f: &str) -> (r: Option<Node<'a>>)
        ensures
            match r {
                Some(c) => c.model() == self.model() && child_with_field(self.model(), self.idx(), f@)
                    == Some(c.idx()),
                None => child_with_field(self.model(), self.idx(), f@) is None,
            },
    {
        let cs = self.children();
        let ghost t = self.model();
        let ghost all = children_of(t, self.idx());
        let mut k: usize = 0;
        assert(all.subrange(0, all.len() as int) =~= all);
        while k < cs.len()
            invariant
                cs@.len() == all.len(),
                t == self.model(),
                all == children_of(t, self.idx()),
                forall|m: int|
                    0 <= m < cs@.len() ==> (#[trigger] cs@[m]).model() == t && cs@[m].idx() == all[m],
                0 <= k <= cs@.len(),
                first_with_field(t, all, f@) == first_with_field(t, all.subrange(k as int, all.len() as int), f@),
            decreases cs.len() - k,
        {
            let c = cs[k];
            let rec = c.record();
            let hit = match &rec.field {
                Some(x) => crate::text::text_eq(x.as_str(), f),
                None => false,
            };
            let ghost rest = all.subrange(k as int, all.len() as int);
            assert(rest[0] == c.idx());
            if hit {
                assert(has_field(t[c.idx()], f@));
                return Some(c);
            }
            assert(rest.drop_first() =~= all.subrange(k + 1, all.len() as int));
            k += 1;
        }
        None
    }
}

} // verus!

verus! {

#[verifier::external_type_specification]
#[verifier::external_body]
pub struct ExParser(tree_sitter::Parser);

#[verifier::external_type_specification]
#[verifier::external_body]
pub struct ExLanguageError(tree_sitter::LanguageError);

/// Why no syntax tree came out of a source text.
#[derive(Debug, Clone, Copy, PartialEq, Eq, Structural)]
pub enum SyntaxError {
    /// The tree-sitter library refused the Java grammar.
    GrammarRejected,
    /// The parser returned no tree.
    NoTree,
}

/// The preorder nodes of the tree that tree-sitter's Java grammar makes of
/// `source`, or `None` when the parser returns no tree.
pub uninterp spec fn java_syntax(source: Seq<u8>) -> Option<Seq<SyntaxNode>>;

/// A tree-sitter parser that holds the Java grammar; `JavaParser::create_parser`
/// makes every value of this type, right after setting that grammar.
pub struct JavaSyntaxParser {
    inner: tree_sitter::Parser,
}

/// Calls `tree_sitter::Parser::new`; nothing is claimed of the parser.
#[verifier::external_body]
fn new_parser() -> tree_sitter::Parser {
    tree_sitter::Parser::new()
}

/// Calls `tree_sitter::Parser::set_language` with `tree_sitter_java::LANGUAGE`.
///
/// The contract claims success: `set_language` accepts a grammar whose ABI
/// version lies within the library's compatible range (13 to 14 in this
/// tree-sitter), and the Java grammar is generated with ABI version 14.
#[verifier::external_body]
fn set_java_grammar(parser: &mut tree_sitter::Parser) -> (r: Result<(), tree_sitter::LanguageError>)
    ensures
        r is Ok,
{
    parser.set_language(&tree_sitter_java::LANGUAGE.into())
}

/// Calls `tree_sitter::Parser::parse` on `source` and lists the nodes of the
/// tree in preorder, through a `tree_sitter::TreeCursor` moved to each
/// descendant of the root in turn; each node keeps its kind, the field it is
/// held under, its depth, its byte range and its start and end points.
///
/// The contract claims that the outcome is the named `java_syntax` of the
/// source: a function of the source bytes alone, since the parser holds the
/// Java grammar and no timeout, cancellation flag or old tree is given. It
/// also claims that a tree comes out, holding at least its root: `parse`
/// returns no tree only without a language, after a timeout or on
/// cancellation (or on a scanner error of a WebAssembly grammar), and
/// `descendant_count` counts the root itself.
#[verifier::external_body]
fn parse_nodes(parser: &mut JavaSyntaxParser, source: &[u8]) -> (r: Option<Vec<SyntaxNode>>)
    ensures
        r is Some,
        r.unwrap()@.len() > 0,
        java_syntax(source@) == Some(r.unwrap()@),
{
    let tree = parser.inner.parse(source, None)?;
    let mut c = tree.walk();
    Some((0..tree.root_node().descendant_count()).map(|i| {
        c.goto_descendant(i);
        let (n, s, e) = (c.node(), c.node().start_position(), c.node().end_position());
        SyntaxNode { kind: n.kind().to_string(), field: c.field_name().map(String::from),
            depth: c.depth() as usize, start_byte: n.start_byte(), end_byte: n.end_byte(),
            start_row: s.row, start_col: s.column, end_row: e.row, end_col: e.column }
    }).collect())
}

impl crate::java::JavaParser {
    /// A parser that holds the Java grammar.
    fn create_parser() -> (r: Result<JavaSyntaxParser, SyntaxError>)
        ensures
            r is Ok,
    {
        let mut parser = new_parser();
        match set_java_grammar(&mut parser) {
            Ok(()) => Ok(JavaSyntaxParser { inner: parser }),
            Err(_) => Err(SyntaxError::GrammarRejected),
        }
    }

    /// The syntax tree of a Java source text; every source text has one.
    pub fn parse_source(source: &[u8]) -> (r: Result<SyntaxTree, SyntaxError>)
        ensures
            r matches Ok(t) && java_syntax(source@) == Some(t@) && t@.len() > 0,
    {
        let mut parser = Self::create_parser()?;
        match parse_nodes(&mut parser, source) {
            Some(nodes) => match SyntaxTree::from_nodes(nodes) {
                Some(t) => Ok(t),
                None => Err(SyntaxError::NoTree),
            },
            None => Err(SyntaxError::NoTree),
        }
    }
}

} // verus!
