//! The Java language support: the parser value, and whole-file outlines.

use vstd::prelude::*;
use crate::model::{import_views, reference_views, symbol_views, Import, ImportView, Reference, ReferenceView, Symbol, SymbolView};
use crate::syntax::{java_syntax, SyntaxError, SyntaxNode, SyntaxTree};
use crate::nodes::{extract_package_name, fits, node_fits, package_name, points_fit, range_of};
use crate::symbols::{
    ends_before, ends_before_later, lemma_symbols_in_start_order, range_not_empty, ranges_not_empty, starts_in_preorder,
    starts_no_later, symbols_in, symbols_in_start_order, symbols_in_strict_start_order,
};
use crate::imports::imports_in;
use crate::calls::calls_in;
use crate::declarations::stack_view;

verus! {

/// The Java language support.
pub struct JavaParser {
    _private: (),
}

impl JavaParser {
    /// The Java parser; the type has this one value.
    pub closed spec fn spec_new() -> JavaParser {
        JavaParser { _private: () }
    }

    /// A Java parser.
    pub fn new() -> (r: Self)
        ensures
            r == JavaParser::spec_new(),
    {
        Self { _private: () }
    }
}

impl Default for JavaParser {
    fn default() -> (r: Self)
        ensures
            r == JavaParser::spec_new(),
    {
        Self::new()
    }
}

/// Every node of `tree` fits `source`.
pub fn fits_source(tree: &SyntaxTree, source: &[u8]) -> (r: bool)
    ensures
        r == fits(tree@, source@),
{
    let mut k: usize = 0;
    while k < tree.len()
        invariant
            k <= tree@.len(),
            forall|i: int| 0 <= i < k ==> node_fits(#[trigger] tree@[i], source@),
        decreases tree@.len() - k,
    {
        let n = tree.node_at(k);
        let limit = u32::MAX as usize;
        if !(n.start_byte <= n.end_byte && n.end_byte <= source.len() && n.start_row < limit
            && n.start_col < limit && n.end_row < limit && n.end_col < limit) {
            assert(!node_fits(tree@[k as int], source@));
            return false;
        }
        k += 1;
    }
    true
}

/// Node `a` is open at `j`: every node between them lies deeper than `a`, so
/// `j` still belongs to the subtree of `a` or follows it directly.
pub open spec fn open_at(t: Seq<SyntaxNode>, a: int, j: int) -> bool {
    forall|k: int| a < k < j ==> #[trigger] t[k].depth > t[a].depth
}

/// The starts of nodes `a` and `b` compare as their rows and columns do.
fn starts_in_order(a: &SyntaxNode, b: &SyntaxNode) -> (r: bool)
    requires
        points_fit(*a),
        points_fit(*b),
    ensures
        r == starts_no_later(range_of(*a), range_of(*b)),
{
    a.start_row < b.start_row || (a.start_row == b.start_row && a.start_col <= b.start_col)
}

/// Node `a` ends no later than node `b` starts, as their rows and columns compare.
fn ends_in_order(a: &SyntaxNode, b: &SyntaxNode) -> (r: bool)
    requires
        points_fit(*a),
        points_fit(*b),
    ensures
        r == ends_before(range_of(*a), range_of(*b)),
{
    a.end_row < b.start_row || (a.end_row == b.start_row && a.end_col <= b.start_col)
}

/// The nodes of `tree` lie in source order: their starts never go back along
/// the preorder, and no node overlaps a later node that is no deeper.
pub fn in_source_order(tree: &SyntaxTree) -> (r: bool)
    requires
        forall|i: int| 0 <= i < tree@.len() ==> points_fit(#[trigger] tree@[i]),
    ensures
        r == (starts_in_preorder(tree@) && ends_before_later(tree@)),
{
    let ghost t = tree@;
    let n = tree.len();
    let mut path: Vec<usize> = Vec::new();
    let mut j: usize = 0;
    while j < n
        invariant
            t == tree@,
            n == t.len(),
            j <= n,
            forall|i: int| 0 <= i < t.len() ==> points_fit(#[trigger] t[i]),
            forall|a: int, b: int|
                #![trigger range_of(t[a]), range_of(t[b])]
                0 <= a <= b < j ==> starts_no_later(range_of(t[a]), range_of(t[b])),
            forall|a: int, k: int|
                #![trigger range_of(t[a]), range_of(t[k])]
                0 <= a < k < j && t[k].depth <= t[a].depth ==> ends_before(range_of(t[a]), range_of(t[k])),
            forall|p: int, q: int|
                0 <= p < q < path@.len() ==> path@[p] < path@[q] && t[path@[p] as int].depth
                    < t[path@[q] as int].depth,
            forall|p: int| 0 <= p < path@.len() ==> path@[p] < j,
            forall|a: int|
                #![trigger open_at(t, a, j as int)]
                0 <= a < j ==> (open_at(t, a, j as int) <==> path@.contains(a as usize)),
        decreases n - j,
    {
        let node = tree.node_at(j);
        if j > 0 {
            let prev = tree.node_at(j - 1);
            if !starts_in_order(prev, node) {
                return false;
            }
            assert forall|a: int, b: int|
                #![trigger range_of(t[a]), range_of(t[b])]
                0 <= a <= b < j + 1 implies starts_no_later(range_of(t[a]), range_of(t[b])) by {
                if b == j && a < j {
                    assert(starts_no_later(range_of(t[a]), range_of(t[j - 1])));
                }
            }
        }
        let d = node.depth;
        let ghost old_path = path@;
        while path.len() > 0 && tree.node_at(path[path.len() - 1]).depth >= d
            invariant
                t == tree@,
                n == t.len(),
                j < n,
                *node == t[j as int],
                d == t[j as int].depth,
                forall|i: int| 0 <= i < t.len() ==> points_fit(#[trigger] t[i]),
                path@.len() <= old_path.len(),
                forall|p: int| 0 <= p < path@.len() ==> #[trigger] path@[p] == old_path[p] && path@[p] < j,
                forall|p: int, q: int|
                    0 <= p < q < old_path.len() ==> old_path[p] < old_path[q] && t[old_path[p] as int].depth
                        < t[old_path[q] as int].depth,
                forall|p: int| 0 <= p < old_path.len() ==> old_path[p] < j,
                forall|p: int|
                    path@.len() <= p < old_path.len() ==> t[old_path[p] as int].depth >= d && ends_before(
                        range_of(t[old_path[p] as int]),
                        range_of(t[j as int]),
                    ),
            decreases path.len(),
        {
            let top = path[path.len() - 1];
            if !ends_in_order(tree.node_at(top), node) {
                assert(!ends_before(range_of(t[top as int]), range_of(t[j as int])));
                return false;
            }
            path.pop();
        }
        proof {
            let keep = path@.len();
            assert forall|p: int| 0 <= p < keep implies t[old_path[p] as int].depth < d by {
                if p < keep - 1 {
                    assert(t[old_path[p] as int].depth < t[old_path[keep - 1] as int].depth);
                }
            }
            assert forall|a: int, k: int|
                #![trigger range_of(t[a]), range_of(t[k])]
                0 <= a < k < j + 1 && t[k].depth <= t[a].depth implies ends_before(range_of(t[a]), range_of(t[k])) by {
                if k == j {
                    if open_at(t, a, j as int) {
                        assert(old_path.contains(a as usize));
                        let p = choose|p: int| 0 <= p < old_path.len() && old_path[p] == a as usize;
                        if p < keep {
                            assert(path@[p] == old_path[p]);
                            assert(t[a].depth < d);
                        }
                    } else {
                        let m = choose|m: int| a < m < j && !(#[trigger] t[m].depth > t[a].depth);
                        assert(ends_before(range_of(t[a]), range_of(t[m])));
                        assert(starts_no_later(range_of(t[m]), range_of(t[k])));
                    }
                }
            }
        }
        let ghost mid = path@;
        path.push(j);
        proof {
            assert forall|p: int, q: int|
                0 <= p < q < path@.len() implies path@[p] < path@[q] && t[path@[p] as int].depth
                    < t[path@[q] as int].depth by {
                assert(path@[p] == old_path[p]);
                if q < path@.len() - 1 {
                    assert(path@[q] == old_path[q]);
                }
            }
            let j1: int = j + 1;
            assert forall|a: int|
                #![trigger open_at(t, a, j1)]
                0 <= a < j1 implies (open_at(t, a, j1) <==> path@.contains(a as usize)) by {
                if a == j {
                    assert(path@[path@.len() - 1] == j);
                } else {
                    if open_at(t, a, j1) {
                        assert(open_at(t, a, j as int));
                        assert(old_path.contains(a as usize));
                        let p = choose|p: int| 0 <= p < old_path.len() && old_path[p] == a as usize;
                        assert(t[j as int].depth > t[a].depth);
                        if p >= mid.len() {
                            assert(t[old_path[p] as int].depth >= d);
                        }
                        assert(path@[p] == a as usize);
                    } else if path@.contains(a as usize) {
                        let p = choose|p: int| 0 <= p < path@.len() && path@[p] == a as usize;
                        assert(p < mid.len());
                        assert(mid[p] == old_path[p]);
                        assert(old_path.contains(a as usize));
                        assert(open_at(t, a, j as int));
                        assert(t[old_path[p] as int].depth < d);
                        assert forall|k: int| a < k < j1 implies #[trigger] t[k].depth > t[a].depth by {
                            if k < j {
                                assert(open_at(t, a, j as int));
                            }
                        }
                    }
                }
            }
        }
        j += 1;
    }
    true
}

/// Every symbol of `symbols` spans some text.
fn spans_text(symbols: &[Symbol]) -> (r: bool)
    ensures
        r == ranges_not_empty(symbol_views(symbols@)),
{
    let mut k: usize = 0;
    while k < symbols.len()
        invariant
            k <= symbols@.len(),
            forall|i: int| 0 <= i < k ==> range_not_empty(#[trigger] symbol_views(symbols@)[i].range),
        decreases symbols@.len() - k,
    {
        let g = symbols[k].range;
        if !(g.start_line < g.end_line || (g.start_line == g.end_line && g.start_col < g.end_col)) {
            assert(!range_not_empty(symbol_views(symbols@)[k as int].range));
            return false;
        }
        k += 1;
    }
    true
}

/// What a source file declares: its package, its symbols and its imports.
#[derive(Debug)]
pub struct FileOutline {
    pub package: String,
    pub symbols: Vec<Symbol>,
    pub imports: Vec<Import>,
}

/// Why no outline came out of a source text.
#[derive(Debug, Clone, Copy, PartialEq, Eq, Structural)]
pub enum OutlineError {
    /// No syntax tree came out of the source.
    Syntax(SyntaxError),
    /// The syntax tree holds a node that lies outside the source.
    OutsideSource,
    /// The syntax tree's nodes do not follow the source in order: a start
    /// goes back along the preorder, or a node overlaps a later one that is
    /// no deeper.
    OutOfOrder,
    /// A declaration read as a symbol spans no text.
    EmptyDeclaration,
}

/// The outline of a file whose syntax tree is `t`.
pub open spec fn outline_of(t: Seq<SyntaxNode>, src: Seq<u8>, file_id: i64) -> (Seq<char>, Seq<SymbolView>, Seq<ImportView>) {
    let pkg = package_name(t, 0, src);
    (pkg, symbols_in(t, src, file_id, pkg, Seq::empty(), 0), imports_in(t, src, file_id, 0))
}

impl JavaParser {
    /// The language's name.
    pub fn language_id(&self) -> (r: &str)
        ensures
            r@ == "java"@,
    {
        "java"
    }

    /// The file extensions of the language's sources.
    pub fn file_extensions(&self) -> (r: &[&str])
        ensures
            r@.len() == 1,
            r@[0]@ == "java"@,
    {
        &["java"]
    }

    /// Parses a Java source text and reads its package, symbols and imports.
    /// The tree is checked first to lie within the source and to follow it in
    /// order, and the symbols to span text; so they come in strictly
    /// increasing start order.
    pub fn parse_outline(&self, source: &[u8], file_id: i64) -> (r: Result<(SyntaxTree, FileOutline), OutlineError>)
        ensures
            java_syntax(source@) matches Some(v) && v.len() > 0
                && ((r matches Err(OutlineError::OutsideSource)) <==> !fits(v, source@))
                && ((r matches Err(OutlineError::OutOfOrder)) <==> fits(v, source@) && !(starts_in_preorder(v)
                    && ends_before_later(v)))
                && ((r matches Err(OutlineError::EmptyDeclaration)) <==> fits(v, source@) && starts_in_preorder(v)
                    && ends_before_later(v) && !ranges_not_empty(outline_of(v, source@, file_id).1))
                && (r is Ok <==> fits(v, source@) && starts_in_preorder(v) && ends_before_later(v)
                    && ranges_not_empty(outline_of(v, source@, file_id).1)),
            !(r matches Err(OutlineError::Syntax(_))),
            r matches Ok((t, o)) ==> {
                &&& java_syntax(source@) == Some(t@)
                &&& fits(t@, source@)
                &&& (o.package@, symbol_views(o.symbols@), import_views(o.imports@)) == outline_of(t@, source@, file_id)
                &&& symbols_in_start_order(symbol_views(o.symbols@))
                &&& symbols_in_strict_start_order(symbol_views(o.symbols@))
            },
    {
        let tree = match JavaParser::parse_source(source) {
            Ok(t) => t,
            Err(e) => return Err(OutlineError::Syntax(e)),
        };
        if !fits_source(&tree, source) {
            return Err(OutlineError::OutsideSource);
        }
        if !in_source_order(&tree) {
            return Err(OutlineError::OutOfOrder);
        }
        let root = tree.root_node();
        let package = extract_package_name(root, source);
        let mut symbols: Vec<Symbol> = Vec::new();
        let empty: Vec<String> = Vec::new();
        self.extract_symbols(root, source, file_id, package.as_str(), empty.as_slice(), &mut symbols);
        let mut imports: Vec<Import> = Vec::new();
        self.extract_imports(root, source, file_id, &mut imports);
        assert(symbol_views(Seq::<Symbol>::empty()) =~= Seq::<SymbolView>::empty());
        assert(import_views(Seq::<Import>::empty()) =~= Seq::<ImportView>::empty());
        assert(stack_view(empty@) =~= Seq::<Seq<char>>::empty());
        if !spans_text(symbols.as_slice()) {
            return Err(OutlineError::EmptyDeclaration);
        }
        proof {
            lemma_symbols_in_start_order(tree@, source@, file_id, package@, Seq::empty(), 0);
        }
        Ok((tree, FileOutline { package, symbols, imports }))
    }

    /// The call references of a file whose syntax tree is `tree`, attributed
    /// to the stored `symbols`; `None` when the tree does not lie within the source.
    pub fn call_sites(&self, tree: &SyntaxTree, source: &[u8], file_id: i64, symbols: &[Symbol]) -> (r: Option<Vec<Reference>>)
        ensures
            r is Some <==> fits(tree@, source@),
            r matches Some(v) ==> reference_views(v@) == calls_in(tree@, source@, file_id, symbol_views(symbols@), 0),
    {
        if !fits_source(tree, source) {
            return None;
        }
        let mut refs: Vec<Reference> = Vec::new();
        self.extract_calls(tree.root_node(), source, file_id, symbols, &mut refs);
        assert(reference_views(Seq::<Reference>::empty()) =~= Seq::<ReferenceView>::empty());
        Some(refs)
    }
}

} // verus!
