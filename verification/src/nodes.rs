//! Reading a syntax tree against its source: node text, node ranges, and
//! the package that a file declares.

use vstd::prelude::*;
use vstd::string::StringSliceAdditionalSpecFns;
use crate::model::SourceRange;
use crate::syntax::{children_of, lemma_children_bounds, Node, SyntaxNode};
use crate::text::{decoded_or_empty, text_or_empty};

verus! {

/// The bytes and points of node `n` lie within the source, and its points fit
/// 1-based `u32` lines and columns.
pub open spec fn node_fits(n: SyntaxNode, src: Seq<u8>) -> bool {
    &&& n.start_byte <= n.end_byte <= src.len()
    &&& points_fit(n)
}

/// The points of node `n` fit 1-based `u32` lines and columns.
pub open spec fn points_fit(n: SyntaxNode) -> bool {
    &&& n.start_row < u32::MAX
    &&& n.start_col < u32::MAX
    &&& n.end_row < u32::MAX
    &&& n.end_col < u32::MAX
}

/// Every node of the tree fits the source.
pub open spec fn fits(t: Seq<SyntaxNode>, src: Seq<u8>) -> bool {
    forall|i: int| 0 <= i < t.len() ==> node_fits(#[trigger] t[i], src)
}

/// The text of node `i`: its bytes decoded, or the empty text when they are not UTF-8.
pub open spec fn text_of(t: Seq<SyntaxNode>, i: int, src: Seq<u8>) -> Seq<char> {
    decoded_or_empty(src.subrange(t[i].start_byte as int, t[i].end_byte as int))
}

/// The 1-based line of a 0-based row.
pub open spec fn line_of(row: usize) -> u32 {
    (row + 1) as u32
}

/// The 1-based range of node `n`.
pub open spec fn range_of(n: SyntaxNode) -> SourceRange {
    SourceRange {
        start_line: line_of(n.start_row),
        start_col: line_of(n.start_col),
        end_line: line_of(n.end_row),
        end_col: line_of(n.end_col),
    }
}

/// The text of a node: its bytes as UTF-8, or `""` when they are not UTF-8.
pub fn node_text<'a>(node: Node<'a>, source: &'a [u8]) -> (r: &'a str)
    requires
        node_fits(node.rec(), source@),
    ensures
        r@ == text_of(node.model(), node.idx(), source@),
        r.spec_bytes().len() <= source@.len(),
{
    let n = node.record();
    text_or_empty(&source[n.start_byte..n.end_byte])
}

/// The 1-based range of a node.
pub fn node_range(node: Node) -> (r: SourceRange)
    requires
        points_fit(node.rec()),
    ensures
        r == range_of(node.rec()),
{
    let n = node.record();
    SourceRange {
        start_line: n.start_row as u32 + 1,
        start_col: n.start_col as u32 + 1,
        end_line: n.end_row as u32 + 1,
        end_col: n.end_col as u32 + 1,
    }
}

// Package

/// The first of the nodes `cs` that is an identifier or a scoped identifier.
pub open spec fn first_identifier(t: Seq<SyntaxNode>, cs: Seq<int>) -> Option<int>
    decreases cs.len(),
{
    if cs.len() == 0 {
        None
    } else if t[cs[0]].kind@ == "scoped_identifier"@ || t[cs[0]].kind@ == "identifier"@ {
        Some(cs[0])
    } else {
        first_identifier(t, cs.drop_first())
    }
}

/// The package named by the first package declaration among `cs` that names one.
pub open spec fn package_among(t: Seq<SyntaxNode>, src: Seq<u8>, cs: Seq<int>) -> Seq<char>
    decreases cs.len(),
{
    if cs.len() == 0 {
        seq![]
    } else if t[cs[0]].kind@ == "package_declaration"@ {
        match first_identifier(t, children_of(t, cs[0])) {
            Some(g) => text_of(t, g, src),
            None => package_among(t, src, cs.drop_first()),
        }
    } else {
        package_among(t, src, cs.drop_first())
    }
}

/// The package of a file whose root is node `i`; empty when there is none.
pub open spec fn package_name(t: Seq<SyntaxNode>, i: int, src: Seq<u8>) -> Seq<char> {
    package_among(t, src, children_of(t, i))
}

/// Node `n` can name a package: an identifier or a scoped identifier.
pub open spec fn is_package_ident(n: SyntaxNode) -> bool {
    n.kind@ == "scoped_identifier"@ || n.kind@ == "identifier"@
}

/// Node `c` is a package declaration with an identifier or scoped identifier
/// among its children.
pub open spec fn declares_package(t: Seq<SyntaxNode>, c: int) -> bool {
    &&& t[c].kind@ == "package_declaration"@
    &&& exists|q: int| 0 <= q < children_of(t, c).len() && is_package_ident(#[trigger] t[children_of(t, c)[q]])
}

proof fn lemma_first_identifier_at(t: Seq<SyntaxNode>, gs: Seq<int>, q: int)
    requires
        0 <= q < gs.len(),
        is_package_ident(t[gs[q]]),
        forall|r: int| 0 <= r < q ==> !is_package_ident(#[trigger] t[gs[r]]),
    ensures
        first_identifier(t, gs) == Some(gs[q]),
    decreases gs.len(),
{
    if q > 0 {
        assert(!is_package_ident(t[gs[0]]));
        assert forall|r: int| 0 <= r < q - 1 implies !is_package_ident(#[trigger] t[gs.drop_first()[r]]) by {
            assert(gs.drop_first()[r] == gs[r + 1]);
        }
        lemma_first_identifier_at(t, gs.drop_first(), q - 1);
    }
}

proof fn lemma_first_identifier_none(t: Seq<SyntaxNode>, gs: Seq<int>)
    requires
        forall|r: int| 0 <= r < gs.len() ==> !is_package_ident(#[trigger] t[gs[r]]),
    ensures
        first_identifier(t, gs) is None,
    decreases gs.len(),
{
    if gs.len() > 0 {
        assert(!is_package_ident(t[gs[0]]));
        assert forall|r: int| 0 <= r < gs.len() - 1 implies !is_package_ident(#[trigger] t[gs.drop_first()[r]]) by {
            assert(gs.drop_first()[r] == gs[r + 1]);
        }
        lemma_first_identifier_none(t, gs.drop_first());
    }
}

proof fn lemma_package_among_skips(t: Seq<SyntaxNode>, src: Seq<u8>, cs: Seq<int>, k: int)
    requires
        0 <= k <= cs.len(),
        forall|r: int| 0 <= r < k ==> !declares_package(t, #[trigger] cs[r]),
    ensures
        package_among(t, src, cs) == package_among(t, src, cs.skip(k)),
    decreases k,
{
    if k > 0 {
        let c = cs[0];
        assert(!declares_package(t, c));
        if t[c].kind@ == "package_declaration"@ {
            let gs = children_of(t, c);
            assert forall|r: int| 0 <= r < gs.len() implies !is_package_ident(#[trigger] t[gs[r]]) by {
                if is_package_ident(t[gs[r]]) {
                    assert(declares_package(t, c));
                }
            }
            lemma_first_identifier_none(t, gs);
        }
        assert forall|r: int| 0 <= r < k - 1 implies !declares_package(t, #[trigger] cs.drop_first()[r]) by {
            assert(cs.drop_first()[r] == cs[r + 1]);
        }
        lemma_package_among_skips(t, src, cs.drop_first(), k - 1);
        assert(cs.drop_first().skip(k - 1) =~= cs.skip(k));
    } else {
        assert(cs.skip(0) =~= cs);
    }
}

/// The package of a file is named by the first child of its root that is a
/// package declaration holding an identifier or scoped identifier, whatever
/// nodes (comments, say) come before it: it is the text of the first such
/// identifier of that declaration. When no child of the root is such a
/// declaration, the package is empty.
pub proof fn lemma_package_is_first_declared(t: Seq<SyntaxNode>, src: Seq<u8>, i: int, k: int, q: int)
    requires
        0 <= i < t.len(),
        0 <= k < children_of(t, i).len(),
        t[children_of(t, i)[k]].kind@ == "package_declaration"@,
        0 <= q < children_of(t, children_of(t, i)[k]).len(),
        is_package_ident(t[children_of(t, children_of(t, i)[k])[q]]),
        forall|r: int| 0 <= r < q ==> !is_package_ident(#[trigger] t[children_of(t, children_of(t, i)[k])[r]]),
        forall|r: int| 0 <= r < k ==> !declares_package(t, #[trigger] children_of(t, i)[r]),
    ensures
        package_name(t, i, src) == text_of(t, children_of(t, children_of(t, i)[k])[q], src),
{
    let cs = children_of(t, i);
    lemma_package_among_skips(t, src, cs, k);
    let gs = children_of(t, cs[k]);
    lemma_first_identifier_at(t, gs, q);
    assert(cs.skip(k)[0] == cs[k]);
}

/// When no child of the root is a package declaration holding an identifier
/// or scoped identifier, the file's package is empty.
pub proof fn lemma_package_absent(t: Seq<SyntaxNode>, src: Seq<u8>, i: int)
    requires
        0 <= i < t.len(),
        forall|r: int| 0 <= r < children_of(t, i).len() ==> !declares_package(t, #[trigger] children_of(t, i)[r]),
    ensures
        package_name(t, i, src) == Seq::<char>::empty(),
{
    let cs = children_of(t, i);
    lemma_package_among_skips(t, src, cs, cs.len() as int);
    assert(cs.skip(cs.len() as int) =~= Seq::<int>::empty());
}

/// The package that the file declares, or `""`.
pub fn extract_package_name(root: Node, source: &[u8]) -> (r: String)
    requires
        fits(root.model(), source@),
    ensures
        r@ == package_name(root.model(), root.idx(), source@),
{
    let ghost t = root.model();
    root.reveal_in_tree();
    proof {
        lemma_children_bounds(t, root.idx());
    }
    let cs = root.children();
    let ghost all = children_of(t, root.idx());
    let mut k: usize = 0;
    assert(all.skip(0) =~= all);
    while k < cs.len()
        invariant
            t == root.model(),
            fits(t, source@),
            all == children_of(t, root.idx()),
            cs@.len() == all.len(),
            forall|m: int| 0 <= m < cs@.len() ==> (#[trigger] cs@[m]).model() == t && cs@[m].idx() == all[m],
            forall|m: int| 0 <= m < all.len() ==> 0 <= #[trigger] all[m] < t.len(),
            k <= cs@.len(),
            package_name(t, root.idx(), source@) == package_among(t, source@, all.skip(k as int)),
        decreases cs.len() - k,
    {
        let child = cs[k];
        assert(all.skip(k as int)[0] == all[k as int]);
        assert(all.skip(k as int).drop_first() =~= all.skip(k + 1));
        if child.kind_is("package_declaration") {
            let ghost ci = child.idx();
            proof {
                lemma_children_bounds(t, ci);
            }
            let gcs = child.children();
            let ghost gall = children_of(t, ci);
            let mut m: usize = 0;
            assert(gall.skip(0) =~= gall);
            while m < gcs.len()
                invariant
                    t == root.model(),
                    fits(t, source@),
                    0 <= ci < t.len(),
                    gall == children_of(t, ci),
                    gcs@.len() == gall.len(),
                    forall|q: int|
                        0 <= q < gcs@.len() ==> (#[trigger] gcs@[q]).model() == t && gcs@[q].idx()
                            == gall[q],
                    forall|q: int| 0 <= q < gall.len() ==> ci < #[trigger] gall[q] < t.len(),
                    m <= gcs@.len(),
                    first_identifier(t, gall) == first_identifier(t, gall.skip(m as int)),
                    all.skip(k as int).len() > 0,
                    all.skip(k as int)[0] == ci,
                    t[ci].kind@ == "package_declaration"@,
                    package_name(t, root.idx(), source@) == package_among(t, source@, all.skip(k as int)),
                decreases gcs.len() - m,
            {
                let gc = gcs[m];
                assert(gall.skip(m as int)[0] == gall[m as int]);
                if gc.kind_is("scoped_identifier") || gc.kind_is("identifier") {
                    assert(first_identifier(t, gall) == Some(gc.idx()));
                    return node_text(gc, source).to_owned();
                }
                assert(gall.skip(m as int).drop_first() =~= gall.skip(m + 1));
                m += 1;
            }
        }
        k += 1;
    }
    String::new()
}

} // verus!
