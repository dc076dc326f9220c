//! The call sites of a file: method invocations and object creations,
//! each attributed to the innermost symbol that encloses it.

use vstd::prelude::*;
use vstd::utf8::encode_utf8;
use crate::model::{reference_views, symbol_views, RefKind, Reference, ReferenceView, Symbol, SymbolView};
use crate::syntax::{
    child_list, children_of, closes_subtree, lemma_children_bounds, lemma_first_child_subtree, lemma_first_successor, places,
    well_nested, Node, SyntaxNode,
};
use crate::text::{lemma_truncated, truncate_utf8, truncated};
use crate::nodes::{fits, line_of, node_fits, node_text, points_fit, text_of};
use crate::java::JavaParser;

verus! {

/// Symbol `s` covers the 1-based line `line`.
pub open spec fn covers(s: SymbolView, line: u32) -> bool {
    s.range.start_line <= line <= s.range.end_line
}

/// The number of lines that symbol `s` spans beyond its first.
pub open spec fn span(s: SymbolView) -> int {
    s.range.end_line - s.range.start_line
}

/// The index of the symbol that covers `line` with the smallest span, the
/// earliest among equals, scanning from index `k` with `best` found so far.
pub open spec fn enclosing_from(syms: Seq<SymbolView>, line: u32, k: int, best: Option<int>) -> Option<int>
    decreases syms.len() - k,
{
    if k < 0 || k >= syms.len() {
        best
    } else {
        let better = covers(syms[k], line) && match best {
            None => true,
            Some(b) => span(syms[k]) < span(syms[b]),
        };
        enclosing_from(syms, line, k + 1, if better { Some(k) } else { best })
    }
}

/// The index of the innermost symbol that covers `line`: the one with the
/// smallest span, the earliest among equals.
pub open spec fn enclosing(syms: Seq<SymbolView>, line: u32) -> Option<int> {
    enclosing_from(syms, line, 0, None)
}

/// What `enclosing_from` finds is a symbol that covers the line; it finds
/// nothing only when no symbol from index `k` on covers the line and none was found before.
pub proof fn lemma_enclosing_from(syms: Seq<SymbolView>, line: u32, k: int, best: Option<int>)
    requires
        0 <= k,
        best matches Some(b) ==> 0 <= b < syms.len() && covers(syms[b], line),
    ensures
        enclosing_from(syms, line, k, best) matches Some(j) ==> 0 <= j < syms.len() && covers(
            syms[j],
            line,
        ),
        enclosing_from(syms, line, k, best) is None ==> best is None && forall|q: int|
            k <= q < syms.len() ==> !covers(#[trigger] syms[q], line),
    decreases syms.len() - k,
{
    if k >= syms.len() {
    } else {
        let better = covers(syms[k], line) && match best {
            None => true,
            Some(b) => span(syms[k]) < span(syms[b]),
        };
        lemma_enclosing_from(syms, line, k + 1, if better { Some(k) } else { best });
    }
}

/// Symbol `j` is the innermost among symbols `0..k` that cover `line`: it
/// covers the line, no covering symbol before `k` spans fewer lines, and none
/// before `j` spans as few.
pub open spec fn innermost_below(syms: Seq<SymbolView>, line: u32, k: int, j: int) -> bool {
    &&& 0 <= j < k
    &&& j < syms.len()
    &&& covers(syms[j], line)
    &&& forall|q: int| 0 <= q < k && q < syms.len() && covers(#[trigger] syms[q], line) ==> span(syms[j]) <= span(syms[q])
    &&& forall|q: int| 0 <= q < j && covers(#[trigger] syms[q], line) ==> span(syms[j]) < span(syms[q])
}

proof fn lemma_enclosing_from_innermost(syms: Seq<SymbolView>, line: u32, k: int, best: Option<int>)
    requires
        0 <= k <= syms.len(),
        best matches Some(b) ==> innermost_below(syms, line, k, b),
        best is None ==> forall|q: int| 0 <= q < k ==> !covers(#[trigger] syms[q], line),
    ensures
        enclosing_from(syms, line, k, best) matches Some(j) ==> innermost_below(syms, line, syms.len() as int, j),
        enclosing_from(syms, line, k, best) is None ==> forall|q: int|
            0 <= q < syms.len() ==> !covers(#[trigger] syms[q], line),
    decreases syms.len() - k,
{
    if k < syms.len() {
        let better = covers(syms[k], line) && match best {
            None => true,
            Some(b) => span(syms[k]) < span(syms[b]),
        };
        let next = if better { Some(k) } else { best };
        if better {
            assert forall|q: int| 0 <= q < k + 1 && q < syms.len() && covers(#[trigger] syms[q], line) implies span(syms[k]) <= span(syms[q]) by {
                if q < k {
                    if let Some(b) = best {
                        assert(span(syms[b]) <= span(syms[q]));
                    }
                }
            }
            assert forall|q: int| 0 <= q < k && covers(#[trigger] syms[q], line) implies span(syms[k]) < span(syms[q]) by {
                if let Some(b) = best {
                    assert(span(syms[b]) <= span(syms[q]));
                }
            }
        }
        lemma_enclosing_from_innermost(syms, line, k + 1, next);
    }
}

/// The symbol that `enclosing` picks is the innermost one that covers the
/// line: no covering symbol spans fewer lines, and none before it spans as
/// few; it picks none exactly when no symbol covers the line.
pub proof fn lemma_enclosing_innermost(syms: Seq<SymbolView>, line: u32)
    ensures
        enclosing(syms, line) matches Some(j) ==> innermost_below(syms, line, syms.len() as int, j),
        enclosing(syms, line) is None <==> forall|q: int| 0 <= q < syms.len() ==> !covers(#[trigger] syms[q], line),
{
    lemma_enclosing_from_innermost(syms, line, 0, None);
}

/// The symbol that encloses the start of `node`: of those whose range covers
/// its line, the one with the fewest lines, the earliest among equals.
pub fn find_enclosing_symbol<'a>(node: Node, symbols: &'a [Symbol]) -> (r: Option<&'a Symbol>)
    requires
        points_fit(node.rec()),
    ensures
        match enclosing(symbol_views(symbols@), line_of(node.rec().start_row)) {
            Some(j) => 0 <= j < symbols@.len() && (r matches Some(s) && *s == symbols@[j]),
            None => r is None,
        },
{
    proof {
        lemma_enclosing_from(symbol_views(symbols@), line_of(node.rec().start_row), 0, None);
    }
    let n = node.record();
    let line = n.start_row as u32 + 1;
    let ghost syms = symbol_views(symbols@);
    let mut best: Option<usize> = None;
    let mut k: usize = 0;
    while k < symbols.len()
        invariant
            syms == symbol_views(symbols@),
            k <= symbols@.len(),
            line == line_of(node.rec().start_row),
            best matches Some(b) ==> b < k && covers(syms[b as int], line),
            enclosing(syms, line) == enclosing_from(
                syms,
                line,
                k as int,
                match best {
                    Some(b) => Some(b as int),
                    None => None,
                },
            ),
        decreases symbols.len() - k,
    {
        let s = &symbols[k];
        assert(syms[k as int] == s@);
        if s.contains_line(line) {
            let better = match best {
                None => true,
                Some(b) => {
                    let cur = &symbols[b];
                    assert(syms[b as int] == cur@);
                    s.range.end_line - s.range.start_line < cur.range.end_line - cur.range.start_line
                },
            };
            if better {
                best = Some(k);
            }
        }
        k += 1;
    }
    match best {
        Some(b) => Some(&symbols[b]),
        None => None,
    }
}

/// Node `n` is a call site: a method invocation or an object creation.
pub open spec fn is_call_site(n: SyntaxNode) -> bool {
    n.kind@ == "method_invocation"@ || n.kind@ == "object_creation_expression"@
}

/// The unresolved call reference of call site `c`, attributed to the symbol
/// that encloses it, with its text cut to 120 bytes.
pub open spec fn call_ref(t: Seq<SyntaxNode>, src: Seq<u8>, file_id: i64, syms: Seq<SymbolView>, c: int) -> ReferenceView {
    ReferenceView {
        id: 0,
        target_symbol_id: 0,
        source_file_id: file_id,
        source_symbol_id: match enclosing(syms, line_of(t[c].start_row)) {
            Some(j) => Some(syms[j].id),
            None => None,
        },
        kind: RefKind::Call,
        start_line: line_of(t[c].start_row),
        start_col: line_of(t[c].start_col),
        end_line: line_of(t[c].end_row),
        end_col: line_of(t[c].end_col),
        text: truncated(text_of(t, c, src), 120),
    }
}

/// The call references under node `i`, in preorder.
pub open spec fn calls_in(t: Seq<SyntaxNode>, src: Seq<u8>, file_id: i64, syms: Seq<SymbolView>, i: int) -> Seq<ReferenceView>
    decreases t.len() - i, children_of(t, i).len() + 1,
{
    if 0 <= i < t.len() {
        calls_among(t, src, file_id, syms, i, children_of(t, i))
    } else {
        seq![]
    }
}

/// The call references at and under the children `cs` of node `p`, in preorder.
pub open spec fn calls_among(t: Seq<SyntaxNode>, src: Seq<u8>, file_id: i64, syms: Seq<SymbolView>, p: int, cs: Seq<int>) -> Seq<ReferenceView>
    decreases t.len() - p, cs.len(),
{
    if cs.len() == 0 {
        seq![]
    } else {
        let c = cs[0];
        (if p < c < t.len() {
            (if is_call_site(t[c]) {
                seq![call_ref(t, src, file_id, syms, c)]
            } else {
                seq![]
            }) + calls_in(t, src, file_id, syms, c)
        } else {
            seq![]
        }) + calls_among(t, src, file_id, syms, p, cs.drop_first())
    }
}

/// A freshly extracted call reference: not yet stored (id 0), unresolved
/// (target 0), a call, of the file being read, and with a text of at most 120 bytes.
pub open spec fn fresh_reference(r: ReferenceView, file_id: i64) -> bool {
    &&& r.id == 0
    &&& r.target_symbol_id == 0
    &&& r.kind == RefKind::Call
    &&& r.source_file_id == file_id
    &&& encode_utf8(r.text).len() <= 120
}

/// Every reference of `v` is fresh.
pub open spec fn all_fresh_refs(v: Seq<ReferenceView>, file_id: i64) -> bool {
    forall|k: int| 0 <= k < v.len() ==> fresh_reference(#[trigger] v[k], file_id)
}

proof fn lemma_all_fresh_refs_concat(a: Seq<ReferenceView>, b: Seq<ReferenceView>, file_id: i64)
    requires
        all_fresh_refs(a, file_id),
        all_fresh_refs(b, file_id),
    ensures
        all_fresh_refs(a + b, file_id),
{
    assert forall|k: int| 0 <= k < (a + b).len() implies fresh_reference(#[trigger] (a + b)[k], file_id) by {
        if k < a.len() {
            assert((a + b)[k] == a[k]);
        } else {
            assert((a + b)[k] == b[k - a.len()]);
        }
    }
}

proof fn lemma_fresh_calls_in(t: Seq<SyntaxNode>, src: Seq<u8>, file_id: i64, syms: Seq<SymbolView>, i: int)
    ensures
        all_fresh_refs(calls_in(t, src, file_id, syms, i), file_id),
    decreases t.len() - i, children_of(t, i).len() + 1,
{
    if 0 <= i < t.len() {
        lemma_fresh_calls_among(t, src, file_id, syms, i, children_of(t, i));
    }
}

proof fn lemma_fresh_calls_among(t: Seq<SyntaxNode>, src: Seq<u8>, file_id: i64, syms: Seq<SymbolView>, p: int, cs: Seq<int>)
    ensures
        all_fresh_refs(calls_among(t, src, file_id, syms, p, cs), file_id),
    decreases t.len() - p, cs.len(),
{
    if cs.len() > 0 {
        let c = cs[0];
        let head = if p < c < t.len() {
            (if is_call_site(t[c]) {
                seq![call_ref(t, src, file_id, syms, c)]
            } else {
                seq![]
            }) + calls_in(t, src, file_id, syms, c)
        } else {
            seq![]
        };
        if p < c < t.len() {
            lemma_fresh_calls_in(t, src, file_id, syms, c);
            lemma_truncated(text_of(t, c, src), 120);
            let own = if is_call_site(t[c]) {
                seq![call_ref(t, src, file_id, syms, c)]
            } else {
                seq![]
            };
            lemma_all_fresh_refs_concat(own, calls_in(t, src, file_id, syms, c), file_id);
        }
        lemma_fresh_calls_among(t, src, file_id, syms, p, cs.drop_first());
        lemma_all_fresh_refs_concat(head, calls_among(t, src, file_id, syms, p, cs.drop_first()), file_id);
    }
}

/// Every call reference that the walk of a node yields is fresh: not yet
/// stored (id 0), unresolved (target 0), a call, of the file being read, with
/// a text of at most 120 bytes; and it is attributed to the innermost symbol
/// that covers its first line, or to none when no symbol covers that line.
pub proof fn lemma_call_references(t: Seq<SyntaxNode>, src: Seq<u8>, file_id: i64, syms: Seq<SymbolView>, i: int, c: int)
    ensures
        forall|k: int| 0 <= k < calls_in(t, src, file_id, syms, i).len() ==> fresh_reference(
            #[trigger] calls_in(t, src, file_id, syms, i)[k],
            file_id,
        ),
        call_ref(t, src, file_id, syms, c).source_symbol_id matches Some(id) ==> exists|j: int|
            innermost_below(syms, line_of(t[c].start_row), syms.len() as int, j) && #[trigger] syms[j].id == id,
        call_ref(t, src, file_id, syms, c).source_symbol_id is None ==> forall|q: int|
            0 <= q < syms.len() ==> !covers(#[trigger] syms[q], line_of(t[c].start_row)),
{
    lemma_fresh_calls_in(t, src, file_id, syms, i);
    lemma_enclosing_innermost(syms, line_of(t[c].start_row));
}

/// The reference of place `c` when it is a call site: one reference, or none.
spec fn own_call(t: Seq<SyntaxNode>, src: Seq<u8>, file_id: i64, syms: Seq<SymbolView>, c: int) -> Seq<ReferenceView> {
    if is_call_site(t[c]) {
        seq![call_ref(t, src, file_id, syms, c)]
    } else {
        seq![]
    }
}

/// The references of the call sites at places `lo..hi`, scanning them in order.
spec fn scanned_calls(t: Seq<SyntaxNode>, src: Seq<u8>, file_id: i64, syms: Seq<SymbolView>, lo: int, hi: int) -> Seq<ReferenceView>
    decreases hi - lo,
{
    if lo >= hi {
        seq![]
    } else {
        own_call(t, src, file_id, syms, lo) + scanned_calls(t, src, file_id, syms, lo + 1, hi)
    }
}

proof fn lemma_scanned_concat(t: Seq<SyntaxNode>, src: Seq<u8>, file_id: i64, syms: Seq<SymbolView>, lo: int, mid: int, hi: int)
    requires
        lo <= mid <= hi,
    ensures
        scanned_calls(t, src, file_id, syms, lo, mid) + scanned_calls(t, src, file_id, syms, mid, hi)
            == scanned_calls(t, src, file_id, syms, lo, hi),
    decreases mid - lo,
{
    if lo == mid {
        assert(Seq::<ReferenceView>::empty() + scanned_calls(t, src, file_id, syms, mid, hi) =~= scanned_calls(t, src, file_id, syms, mid, hi));
    } else {
        lemma_scanned_concat(t, src, file_id, syms, lo + 1, mid, hi);
        assert(own_call(t, src, file_id, syms, lo) + scanned_calls(t, src, file_id, syms, lo + 1, mid)
            + scanned_calls(t, src, file_id, syms, mid, hi) =~= own_call(t, src, file_id, syms, lo) + (
        scanned_calls(t, src, file_id, syms, lo + 1, mid) + scanned_calls(t, src, file_id, syms, mid, hi)));
    }
}

proof fn lemma_scanned_filtered(t: Seq<SyntaxNode>, src: Seq<u8>, file_id: i64, syms: Seq<SymbolView>, lo: int, hi: int)
    requires
        lo <= hi,
    ensures
        scanned_calls(t, src, file_id, syms, lo, hi) == places(lo, hi).filter(|c: int| is_call_site(t[c])).map_values(
            |c: int| call_ref(t, src, file_id, syms, c),
        ),
    decreases hi - lo,
{
    let ps = places(lo, hi);
    reveal(Seq::filter);
    if lo == hi {
        assert(ps =~= Seq::<int>::empty());
        assert(ps.filter(|c: int| is_call_site(t[c])) =~= Seq::<int>::empty());
    } else {
        lemma_scanned_filtered(t, src, file_id, syms, lo, hi - 1);
        lemma_scanned_concat(t, src, file_id, syms, lo, hi - 1, hi);
        assert(ps.drop_last() =~= places(lo, hi - 1));
        assert(ps.last() == hi - 1);
        let pred = |c: int| is_call_site(t[c]);
        let f = ps.filter(pred);
        let g = places(lo, hi - 1).filter(pred);
        assert(scanned_calls(t, src, file_id, syms, hi, hi) =~= Seq::<ReferenceView>::empty());
        assert(scanned_calls(t, src, file_id, syms, hi - 1, hi) =~= own_call(t, src, file_id, syms, hi - 1));
        assert(f == (if pred(ps.last()) { ps.drop_last().filter(pred).push(ps.last()) } else { ps.drop_last().filter(pred) }));
        if is_call_site(t[hi - 1]) {
            assert(f == g.push(hi - 1));
            assert(f.map_values(|c: int| call_ref(t, src, file_id, syms, c)) =~= g.map_values(
                |c: int| call_ref(t, src, file_id, syms, c),
            ) + seq![call_ref(t, src, file_id, syms, hi - 1)]);
        } else {
            assert(f == g);
            assert(g.map_values(|c: int| call_ref(t, src, file_id, syms, c)) + Seq::<ReferenceView>::empty()
                =~= g.map_values(|c: int| call_ref(t, src, file_id, syms, c)));
        }
    }
}

proof fn lemma_calls_in_scanned(t: Seq<SyntaxNode>, src: Seq<u8>, file_id: i64, syms: Seq<SymbolView>, i: int, e: int)
    requires
        well_nested(t),
        closes_subtree(t, i, e),
    ensures
        calls_in(t, src, file_id, syms, i) == scanned_calls(t, src, file_id, syms, i + 1, e),
    decreases t.len() - i, t.len() - i,
{
    lemma_first_successor(t, i, e);
    lemma_calls_among_scanned(t, src, file_id, syms, i, i + 1, e);
}

proof fn lemma_calls_among_scanned(t: Seq<SyntaxNode>, src: Seq<u8>, file_id: i64, syms: Seq<SymbolView>, p: int, lo: int, e: int)
    requires
        well_nested(t),
        closes_subtree(t, p, e),
        p < lo <= e,
        lo == e || t[lo].depth == t[p].depth + 1,
    ensures
        calls_among(t, src, file_id, syms, p, child_list(t, p, lo)) == scanned_calls(t, src, file_id, syms, lo, e),
    decreases t.len() - p, t.len() - lo,
{
    if lo == e {
        assert(child_list(t, p, lo) =~= Seq::<int>::empty());
    } else {
        let next = lemma_first_child_subtree(t, p, lo, e);
        lemma_calls_in_scanned(t, src, file_id, syms, lo, next);
        lemma_calls_among_scanned(t, src, file_id, syms, p, next, e);
        let cs = child_list(t, p, lo);
        assert(cs[0] == lo);
        assert(cs.drop_first() =~= child_list(t, p, next));
        lemma_scanned_concat(t, src, file_id, syms, lo + 1, next, e);
        assert(own_call(t, src, file_id, syms, lo) + calls_in(t, src, file_id, syms, lo) + calls_among(
            t,
            src,
            file_id,
            syms,
            p,
            child_list(t, p, next),
        ) =~= own_call(t, src, file_id, syms, lo) + scanned_calls(t, src, file_id, syms, lo + 1, e));
    }
}

/// In a well-nested tree the walk of node `i` yields exactly one reference
/// for each call site below `i` (each method invocation and object creation,
/// call sites nested in the arguments or receiver of other call sites
/// included) and nothing else, in preorder: for the place `e` that closes the
/// subtree of `i`, the references are those of the call sites among the places
/// `i + 1 .. e`, so there are as many references as call sites.
pub proof fn lemma_calls_are_the_call_sites_below(t: Seq<SyntaxNode>, src: Seq<u8>, file_id: i64, syms: Seq<SymbolView>, i: int, e: int)
    requires
        well_nested(t),
        closes_subtree(t, i, e),
    ensures
        calls_in(t, src, file_id, syms, i) == places(i + 1, e).filter(|c: int| is_call_site(t[c])).map_values(
            |c: int| call_ref(t, src, file_id, syms, c),
        ),
        calls_in(t, src, file_id, syms, i).len() == places(i + 1, e).filter(|c: int| is_call_site(t[c])).len(),
{
    lemma_calls_in_scanned(t, src, file_id, syms, i, e);
    lemma_scanned_filtered(t, src, file_id, syms, i + 1, e);
}

impl JavaParser {
    /// Appends a call reference for every method invocation and object
    /// creation under `node`, in preorder.
    pub fn extract_calls(
        &self,
        node: Node,
        source: &[u8],
        file_id: i64,
        symbols: &[Symbol],
        refs: &mut Vec<Reference>,
    )
        requires
            fits(node.model(), source@),
        ensures
            reference_views(final(refs)@) == reference_views(old(refs)@) + calls_in(
                node.model(),
                source@,
                file_id,
                symbol_views(symbols@),
                node.idx(),
            ),
        decreases node.model().len() - node.idx(),
    {
        let ghost t = node.model();
        let ghost i = node.idx();
        let ghost syms = symbol_views(symbols@);
        let ghost start = reference_views(refs@);
        node.reveal_in_tree();
        proof {
            lemma_children_bounds(t, i);
        }
        let cs = node.children();
        let ghost all = children_of(t, i);
        let mut k: usize = 0;
        assert(all.skip(0) =~= all);
        while k < cs.len()
            invariant
                t == node.model(),
                i == node.idx(),
                0 <= i < t.len(),
                syms == symbol_views(symbols@),
                fits(t, source@),
                all == children_of(t, i),
                cs@.len() == all.len(),
                forall|m: int|
                    0 <= m < cs@.len() ==> (#[trigger] cs@[m]).model() == t && cs@[m].idx() == all[m],
                forall|m: int| 0 <= m < all.len() ==> i < #[trigger] all[m] < t.len(),
                k <= cs@.len(),
                reference_views(refs@) + calls_among(t, source@, file_id, syms, i, all.skip(k as int))
                    == start + calls_among(t, source@, file_id, syms, i, all),
            decreases cs.len() - k,
        {
            let child = cs[k];
            let ghost c = child.idx();
            let ghost before = reference_views(refs@);
            let ghost rest = calls_among(t, source@, file_id, syms, i, all.skip(k + 1));
            assert(all.skip(k as int)[0] == c);
            assert(all.skip(k as int).drop_first() =~= all.skip(k + 1));
            assert(node_fits(t[c], source@));
            if child.kind_is("method_invocation") || child.kind_is("object_creation_expression") {
                let enclosing = find_enclosing_symbol(child, symbols);
                let n = child.record();
                let _ = source.len();
                let text = truncate_utf8(node_text(child, source), 120);
                refs.push(
                    Reference {
                        id: 0,
                        target_symbol_id: 0,
                        source_file_id: file_id,
                        source_symbol_id: match enclosing {
                            Some(s) => Some(s.id),
                            None => None,
                        },
                        kind: RefKind::Call,
                        start_line: n.start_row as u32 + 1,
                        start_col: n.start_col as u32 + 1,
                        end_line: n.end_row as u32 + 1,
                        end_col: n.end_col as u32 + 1,
                        text,
                    },
                );
                assert(reference_views(refs@) =~= before.push(call_ref(t, source@, file_id, syms, c)));
            }
            let ghost mid = reference_views(refs@);
            self.extract_calls(child, source, file_id, symbols, refs);
            assert(reference_views(refs@) + rest =~= before + calls_among(
                t,
                source@,
                file_id,
                syms,
                i,
                all.skip(k as int),
            ));
            k += 1;
        }
        assert(all.skip(cs@.len() as int) =~= Seq::<int>::empty());
    }
}

} // verus!
