//! The named imports of a file.

use vstd::prelude::*;
use crate::model::{import_views, Import, ImportView};
use crate::syntax::{children_of, lemma_children_bounds, Node, SyntaxNode};
use crate::text::{after_last, after_last_chars, chars_of, ends_with, ends_with_chars, strip_prefix_all, strip_prefix_chars, strip_suffix_all, strip_suffix_chars, string_of, trim, trim_chars};
use crate::nodes::{fits, line_of, node_fits, node_text, text_of};
use crate::symbols::opt_seq;
use crate::java::JavaParser;

verus! {

/// The path of an import declaration's text: every leading `import` removed,
/// then every leading `static` that directly follows (so `static` after a
/// space stays, as in `import static a.B.c;`), then the surrounding white
/// space, the trailing `;` characters, and the white space again.
pub open spec fn import_path(text: Seq<char>) -> Seq<char> {
    trim(strip_suffix_all(trim(strip_prefix_all(strip_prefix_all(text, "import"@), "static"@)), ';'))
}

/// The import that declaration `c` makes; none for a wildcard import.
pub open spec fn import_at(t: Seq<SyntaxNode>, src: Seq<u8>, file_id: i64, c: int) -> Option<ImportView> {
    let path = import_path(text_of(t, c, src));
    if ends_with(path, ".*"@) {
        None
    } else {
        Some(
            ImportView {
                id: 0,
                file_id,
                local_name: after_last(path, '.'),
                qualified_target: path,
                alias: None,
                start_line: line_of(t[c].start_row),
                start_col: line_of(t[c].start_col),
            },
        )
    }
}

/// The imports that the import declarations among `cs` make, in order.
pub open spec fn imports_among(t: Seq<SyntaxNode>, src: Seq<u8>, file_id: i64, cs: Seq<int>) -> Seq<ImportView>
    decreases cs.len(),
{
    if cs.len() == 0 {
        seq![]
    } else {
        (if t[cs[0]].kind@ == "import_declaration"@ {
            opt_seq(import_at(t, src, file_id, cs[0]))
        } else {
            seq![]
        }) + imports_among(t, src, file_id, cs.drop_first())
    }
}

/// The imports that the children of node `i` declare.
pub open spec fn imports_in(t: Seq<SyntaxNode>, src: Seq<u8>, file_id: i64, i: int) -> Seq<ImportView> {
    imports_among(t, src, file_id, children_of(t, i))
}

/// A freshly extracted import: not yet stored (id 0), of the file being
/// read, without alias, not a wildcard, and named by the last part of its path.
pub open spec fn fresh_import(x: ImportView, file_id: i64) -> bool {
    &&& x.id == 0
    &&& x.file_id == file_id
    &&& x.alias is None
    &&& !ends_with(x.qualified_target, ".*"@)
    &&& x.local_name == after_last(x.qualified_target, '.')
}

/// Every import that the import declarations among a node's children yield is
/// fresh; in particular no wildcard import is ever kept.
pub proof fn lemma_imports_fresh(t: Seq<SyntaxNode>, src: Seq<u8>, file_id: i64, cs: Seq<int>)
    ensures
        forall|k: int| 0 <= k < imports_among(t, src, file_id, cs).len() ==> fresh_import(
            #[trigger] imports_among(t, src, file_id, cs)[k],
            file_id,
        ),
    decreases cs.len(),
{
    if cs.len() > 0 {
        lemma_imports_fresh(t, src, file_id, cs.drop_first());
        let head = if t[cs[0]].kind@ == "import_declaration"@ {
            opt_seq(import_at(t, src, file_id, cs[0]))
        } else {
            seq![]
        };
        let rest = imports_among(t, src, file_id, cs.drop_first());
        assert forall|k: int| 0 <= k < (head + rest).len() implies fresh_import(#[trigger] (head + rest)[k], file_id) by {
            if k < head.len() {
                assert((head + rest)[k] == head[k]);
            } else {
                assert((head + rest)[k] == rest[k - head.len()]);
            }
        }
    }
}

impl JavaParser {
    /// Appends the imports that the import declarations among the children of
    /// `node` make.
    pub fn extract_imports(&self, node: Node, source: &[u8], file_id: i64, imports: &mut Vec<Import>)
        requires
            fits(node.model(), source@),
        ensures
            import_views(final(imports)@) == import_views(old(imports)@) + imports_in(
                node.model(),
                source@,
                file_id,
                node.idx(),
            ),
    {
        let ghost t = node.model();
        let ghost i = node.idx();
        let ghost start = import_views(imports@);
        node.reveal_in_tree();
        proof {
            lemma_children_bounds(t, i);
        }
        let cs = node.children();
        let ghost all = children_of(t, i);
        let mut k: usize = 0;
        assert(all.skip(0) =~= all);
        while k < cs.len()
            invariant
                t == node.model(),
                i == node.idx(),
                fits(t, source@),
                all == children_of(t, i),
                cs@.len() == all.len(),
                forall|m: int|
                    0 <= m < cs@.len() ==> (#[trigger] cs@[m]).model() == t && cs@[m].idx() == all[m],
                forall|m: int| 0 <= m < all.len() ==> i < #[trigger] all[m] < t.len(),
                k <= cs@.len(),
                import_views(imports@) + imports_among(t, source@, file_id, all.skip(k as int))
                    == start + imports_among(t, source@, file_id, all),
            decreases cs.len() - k,
        {
            let child = cs[k];
            let ghost before = import_views(imports@);
            let ghost rest = imports_among(t, source@, file_id, all.skip(k + 1));
            assert(all.skip(k as int)[0] == child.idx());
            assert(all.skip(k as int).drop_first() =~= all.skip(k + 1));
            if child.kind_is("import_declaration") {
                self.extract_import(child, source, file_id, imports);
            }
            assert(import_views(imports@) + rest =~= before + imports_among(
                t,
                source@,
                file_id,
                all.skip(k as int),
            ));
            k += 1;
        }
        assert(all.skip(cs@.len() as int) =~= Seq::<int>::empty());
    }

    /// Appends the import that an import declaration makes; nothing for a
    /// wildcard import.
    pub fn extract_import(&self, node: Node, source: &[u8], file_id: i64, imports: &mut Vec<Import>)
        requires
            fits(node.model(), source@),
        ensures
            import_views(final(imports)@) == import_views(old(imports)@) + opt_seq(
                import_at(node.model(), source@, file_id, node.idx()),
            ),
    {
        let ghost t = node.model();
        node.reveal_in_tree();
        assert(node_fits(t[node.idx()], source@));
        let text = chars_of(node_text(node, source));
        let a = strip_prefix_chars(&text, &chars_of("import"));
        let b = strip_prefix_chars(&a, &chars_of("static"));
        let c = trim_chars(&b);
        let d = strip_suffix_chars(&c, ';');
        let path = trim_chars(&d);
        if ends_with_chars(&path, &chars_of(".*")) {
            assert(import_views(imports@) =~= import_views(imports@) + Seq::<ImportView>::empty());
            return ;
        }
        let local_name = string_of(&after_last_chars(&path, '.'));
        let n = node.record();
        let ghost before = import_views(imports@);
        imports.push(
            Import {
                id: 0,
                file_id,
                local_name,
                qualified_target: string_of(&path),
                alias: None,
                start_line: n.start_row as u32 + 1,
                start_col: n.start_col as u32 + 1,
            },
        );
        assert(import_views(imports@) =~= before + opt_seq(import_at(t, source@, file_id, node.idx())));
    }
}

} // verus!
