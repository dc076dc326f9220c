//! What a declaration states of itself: its qualified name, visibility,
//! modifiers and signature.

use vstd::prelude::*;
use crate::model::Visibility;
use crate::syntax::{children_of, lemma_children_bounds, Node, SyntaxNode};
use crate::text::{chars_of, contains_chars, contains_text, decoded_or_empty, first_index_from, first_line, first_line_chars, join, lemma_first_index_from, string_of, text_or_empty, trim, trim_chars};
use crate::nodes::{fits, node_fits, node_text, text_of};

verus! {

/// The character sequences of a list of strings.
pub open spec fn stack_view(s: Seq<String>) -> Seq<Seq<char>> {
    s.map_values(|x: String| x@)
}

/// The dotted name of `name` declared in the classes `stack` of package `pkg`:
/// the package (when it is not empty), the classes from the outermost in, and
/// the name, joined with `"."`.
pub open spec fn qualified(pkg: Seq<char>, stack: Seq<Seq<char>>, name: Seq<char>) -> Seq<char> {
    join((if pkg.len() == 0 { Seq::<Seq<char>>::empty() } else { seq![pkg] }) + stack + seq![name], "."@)
}

/// The strings `parts`, joined with `sep`.
fn join_strings(parts: &Vec<String>, sep: &str) -> (r: String)
    ensures
        r@ == join(stack_view(parts@), sep@),
{
    let mut r = String::new();
    let ghost all = stack_view(parts@);
    assert(all.take(0) =~= Seq::<Seq<char>>::empty());
    for i in 0..parts.len()
        invariant
            all == stack_view(parts@),
            r@ == join(all.take(i as int), sep@),
    {
        assert(all.take(i + 1).drop_last() =~= all.take(i as int));
        assert(all.take(i + 1).last() == parts@[i as int]@);
        if i != 0 {
            r.append(sep);
        } else {
            assert(all.take(1) =~= seq![parts@[0]@]);
        }
        r.append(parts[i].as_str());
    }
    assert(all.take(parts@.len() as int) =~= all);
    r
}

/// The dotted name of a method: the package (when not empty), the enclosing
/// classes from the outermost in, and the method's name, joined with `"."`.
pub fn build_qualified_name(package: &str, class_stack: &[String], method_name: &str) -> (r: String)
    ensures
        r@ == qualified(package@, stack_view(class_stack@), method_name@),
{
    let mut parts: Vec<String> = Vec::new();
    if !package.is_empty() {
        parts.push(package.to_owned());
    }
    let ghost pre = parts@;
    for k in 0..class_stack.len()
        invariant
            pre == (if package@.len() == 0 { Seq::<String>::empty() } else { seq![parts@[0]] }),
            pre.len() <= parts@.len(),
            parts@.len() == pre.len() + k,
            stack_view(parts@) == stack_view(pre) + stack_view(class_stack@).take(k as int),
            package@.len() != 0 ==> parts@[0]@ == package@,
    {
        let ghost before = parts@;
        let item = class_stack[k].clone();
        parts.push(item);
        assert(stack_view(parts@) =~= stack_view(before).push(class_stack@[k as int]@));
        assert(stack_view(class_stack@).take(k + 1) =~= stack_view(class_stack@).take(k as int).push(class_stack@[k as int]@));
        assert(stack_view(parts@) =~= stack_view(pre) + stack_view(class_stack@).take(k + 1));
    }
    let ghost before = parts@;
    parts.push(method_name.to_owned());
    assert(stack_view(parts@) =~= stack_view(before).push(method_name@));
    assert(stack_view(pre) =~= (if package@.len() == 0 { Seq::<Seq<char>>::empty() } else { seq![package@] }));
    assert(stack_view(class_stack@).take(class_stack@.len() as int) =~= stack_view(class_stack@));
    assert(stack_view(parts@) =~= (if package@.len() == 0 { Seq::<Seq<char>>::empty() } else { seq![package@] }) + stack_view(class_stack@) + seq![method_name@]);
    join_strings(&parts, ".")
}

// Modifiers and signature

/// The visibility that the first `modifiers` node among `cs` that names one declares;
/// private when none does.
pub open spec fn visibility_among(t: Seq<SyntaxNode>, src: Seq<u8>, cs: Seq<int>) -> Visibility
    decreases cs.len(),
{
    if cs.len() == 0 {
        Visibility::Private
    } else if t[cs[0]].kind@ == "modifiers"@ {
        let m = text_of(t, cs[0], src);
        if contains_text(m, "public"@) {
            Visibility::Public
        } else if contains_text(m, "protected"@) {
            Visibility::PubCrate
        } else if contains_text(m, "private"@) {
            Visibility::Private
        } else {
            visibility_among(t, src, cs.drop_first())
        }
    } else {
        visibility_among(t, src, cs.drop_first())
    }
}

/// The visibility that the modifiers of node `i` declare.
pub open spec fn visibility_of(t: Seq<SyntaxNode>, i: int, src: Seq<u8>) -> Visibility {
    visibility_among(t, src, children_of(t, i))
}

/// `word` occurs in `text` starting at place `p`.
pub open spec fn occurs_at(text: Seq<char>, word: Seq<char>, p: int) -> bool {
    &&& 0 <= p
    &&& p + word.len() <= text.len()
    &&& text.subrange(p, p + word.len()) == word
}

/// `word` occurs somewhere in `text`.
pub open spec fn occurs_in(text: Seq<char>, word: Seq<char>) -> bool {
    exists|p: int| #[trigger] occurs_at(text, word, p)
}

/// Node `c` is a `modifiers` node whose text names a visibility: `public`,
/// `protected` or `private` occurs in it.
pub open spec fn names_visibility(t: Seq<SyntaxNode>, src: Seq<u8>, c: int) -> bool {
    &&& t[c].kind@ == "modifiers"@
    &&& occurs_in(text_of(t, c, src), "public"@) || occurs_in(text_of(t, c, src), "protected"@) || occurs_in(
        text_of(t, c, src),
        "private"@,
    )
}

proof fn lemma_contains_occurs(text: Seq<char>, word: Seq<char>)
    ensures
        contains_text(text, word) <==> occurs_in(text, word),
{
    if contains_text(text, word) {
        let k = choose|k: int|
            0 <= k && k + word.len() <= text.len() && #[trigger] text.subrange(k, k + word.len()) == word;
        assert(occurs_at(text, word, k));
    }
    if occurs_in(text, word) {
        let p = choose|p: int| #[trigger] occurs_at(text, word, p);
        assert(text.subrange(p, p + word.len()) == word);
    }
}

proof fn lemma_visibility_among_skips(t: Seq<SyntaxNode>, src: Seq<u8>, cs: Seq<int>, k: int)
    requires
        0 <= k <= cs.len(),
        forall|r: int| 0 <= r < k ==> !names_visibility(t, src, #[trigger] cs[r]),
    ensures
        visibility_among(t, src, cs) == visibility_among(t, src, cs.skip(k)),
    decreases k,
{
    if k > 0 {
        let c = cs[0];
        assert(!names_visibility(t, src, c));
        let m = text_of(t, c, src);
        lemma_contains_occurs(m, "public"@);
        lemma_contains_occurs(m, "protected"@);
        lemma_contains_occurs(m, "private"@);
        assert forall|r: int| 0 <= r < k - 1 implies !names_visibility(t, src, #[trigger] cs.drop_first()[r]) by {
            assert(cs.drop_first()[r] == cs[r + 1]);
        }
        lemma_visibility_among_skips(t, src, cs.drop_first(), k - 1);
        assert(cs.drop_first().skip(k - 1) =~= cs.skip(k));
    } else {
        assert(cs.skip(0) =~= cs);
    }
}

/// The visibility of declaration `i` is set by the first of its `modifiers`
/// children whose text names one, wherever in that text the word stands
/// (after annotations, say): public when `public` occurs in it, crate-wide
/// when `protected` does and `public` does not, private when only `private`
/// does.
pub proof fn lemma_visibility_from_modifiers(t: Seq<SyntaxNode>, src: Seq<u8>, i: int, k: int)
    requires
        0 <= k < children_of(t, i).len(),
        t[children_of(t, i)[k]].kind@ == "modifiers"@,
        forall|r: int| 0 <= r < k ==> !names_visibility(t, src, #[trigger] children_of(t, i)[r]),
    ensures
        occurs_in(text_of(t, children_of(t, i)[k], src), "public"@) ==> visibility_of(t, i, src) == Visibility::Public,
        !occurs_in(text_of(t, children_of(t, i)[k], src), "public"@) && occurs_in(
            text_of(t, children_of(t, i)[k], src),
            "protected"@,
        ) ==> visibility_of(t, i, src) == Visibility::PubCrate,
        !occurs_in(text_of(t, children_of(t, i)[k], src), "public"@) && !occurs_in(
            text_of(t, children_of(t, i)[k], src),
            "protected"@,
        ) && occurs_in(text_of(t, children_of(t, i)[k], src), "private"@) ==> visibility_of(t, i, src)
            == Visibility::Private,
{
    let cs = children_of(t, i);
    lemma_visibility_among_skips(t, src, cs, k);
    let m = text_of(t, cs[k], src);
    lemma_contains_occurs(m, "public"@);
    lemma_contains_occurs(m, "protected"@);
    lemma_contains_occurs(m, "private"@);
    assert(cs.skip(k)[0] == cs[k]);
}

/// A declaration none of whose `modifiers` children names a visibility is private.
pub proof fn lemma_visibility_default(t: Seq<SyntaxNode>, src: Seq<u8>, i: int)
    requires
        forall|r: int| 0 <= r < children_of(t, i).len() ==> !names_visibility(t, src, #[trigger] children_of(t, i)[r]),
    ensures
        visibility_of(t, i, src) == Visibility::Private,
{
    let cs = children_of(t, i);
    lemma_visibility_among_skips(t, src, cs, cs.len() as int);
    assert(cs.skip(cs.len() as int) =~= Seq::<int>::empty());
}

/// The first `modifiers` node among `cs` holds the text `m`.
pub open spec fn modifier_among(t: Seq<SyntaxNode>, src: Seq<u8>, cs: Seq<int>, m: Seq<char>) -> bool
    decreases cs.len(),
{
    if cs.len() == 0 {
        false
    } else if t[cs[0]].kind@ == "modifiers"@ {
        contains_text(text_of(t, cs[0], src), m)
    } else {
        modifier_among(t, src, cs.drop_first(), m)
    }
}

/// The modifiers of node `i` hold the text `m`.
pub open spec fn has_modifier_text(t: Seq<SyntaxNode>, i: int, src: Seq<u8>, m: Seq<char>) -> bool {
    modifier_among(t, src, children_of(t, i), m)
}

/// The visibility that a declaration's modifiers state: public, protected
/// (as crate-wide) or private; private when they state none.
pub fn extract_visibility(node: Node, source: &[u8]) -> (r: Visibility)
    requires
        fits(node.model(), source@),
    ensures
        r == visibility_of(node.model(), node.idx(), source@),
{
    let ghost t = node.model();
    node.reveal_in_tree();
    proof {
        lemma_children_bounds(t, node.idx());
    }
    let cs = node.children();
    let ghost all = children_of(t, node.idx());
    let public = chars_of("public");
    let protected = chars_of("protected");
    let private = chars_of("private");
    let mut k: usize = 0;
    assert(all.skip(0) =~= all);
    while k < cs.len()
        invariant
            t == node.model(),
            fits(t, source@),
            all == children_of(t, node.idx()),
            cs@.len() == all.len(),
            forall|m: int| 0 <= m < cs@.len() ==> (#[trigger] cs@[m]).model() == t && cs@[m].idx() == all[m],
            forall|m: int| 0 <= m < all.len() ==> 0 <= #[trigger] all[m] < t.len(),
            k <= cs@.len(),
            public@ == "public"@,
            protected@ == "protected"@,
            private@ == "private"@,
            visibility_of(t, node.idx(), source@) == visibility_among(t, source@, all.skip(k as int)),
        decreases cs.len() - k,
    {
        let child = cs[k];
        assert(all.skip(k as int)[0] == all[k as int]);
        assert(all.skip(k as int).drop_first() =~= all.skip(k + 1));
        if child.kind_is("modifiers") {
            let text = chars_of(node_text(child, source));
            if contains_chars(&text, &public) {
                return Visibility::Public;
            } else if contains_chars(&text, &protected) {
                return Visibility::PubCrate;
            } else if contains_chars(&text, &private) {
                return Visibility::Private;
            }
        }
        k += 1;
    }
    Visibility::Private
}

/// The first `modifiers` child of a declaration holds the text `modifier`.
pub fn has_modifier(node: Node, source: &[u8], modifier: &str) -> (r: bool)
    requires
        fits(node.model(), source@),
    ensures
        r == has_modifier_text(node.model(), node.idx(), source@, modifier@),
{
    let ghost t = node.model();
    node.reveal_in_tree();
    proof {
        lemma_children_bounds(t, node.idx());
    }
    let cs = node.children();
    let ghost all = children_of(t, node.idx());
    let wanted = chars_of(modifier);
    let mut k: usize = 0;
    assert(all.skip(0) =~= all);
    while k < cs.len()
        invariant
            t == node.model(),
            fits(t, source@),
            all == children_of(t, node.idx()),
            cs@.len() == all.len(),
            forall|m: int| 0 <= m < cs@.len() ==> (#[trigger] cs@[m]).model() == t && cs@[m].idx() == all[m],
            forall|m: int| 0 <= m < all.len() ==> 0 <= #[trigger] all[m] < t.len(),
            k <= cs@.len(),
            wanted@ == modifier@,
            has_modifier_text(t, node.idx(), source@, modifier@) == modifier_among(t, source@, all.skip(k as int), modifier@),
        decreases cs.len() - k,
    {
        let child = cs[k];
        assert(all.skip(k as int)[0] == all[k as int]);
        assert(all.skip(k as int).drop_first() =~= all.skip(k + 1));
        if child.kind_is("modifiers") {
            let text = chars_of(node_text(child, source));
            return contains_chars(&text, &wanted);
        }
        k += 1;
    }
    false
}

/// The signature of the declaration `n`: the source from its start up to the
/// first `{`, or else up to the first `;`, trimmed; when neither follows, the
/// first line of its first 200 bytes.
pub open spec fn signature_text(src: Seq<u8>, n: SyntaxNode) -> Seq<char> {
    let start = n.start_byte as int;
    let rest = src.subrange(start, src.len() as int);
    match first_index_from(rest, 123u8, 0) {
        Some(p) => trim(decoded_or_empty(rest.subrange(0, p))),
        None => match first_index_from(rest, 59u8, 0) {
            Some(q) => trim(decoded_or_empty(rest.subrange(0, q))),
            None => {
                let end = if n.end_byte <= start + 200 { n.end_byte as int } else { start + 200 };
                first_line(decoded_or_empty(src.subrange(start, end)))
            },
        },
    }
}

proof fn lemma_first_index_is(s: Seq<u8>, x: u8, p: int)
    requires
        0 <= p < s.len(),
        s[p] == x,
        forall|q: int| 0 <= q < p ==> s[q] != x,
    ensures
        first_index_from(s, x, 0) == Some(p),
{
    lemma_first_index_from(s, x, 0);
    if let Some(f) = first_index_from(s, x, 0) {
        if f > p {
            assert(s[p] != x);
        }
    }
}

/// When a `{` follows the start of declaration `n`, its signature is the
/// source from that start up to the first `{` (where the body opens),
/// trimmed, whatever `;` come before or after that `{`.
pub proof fn lemma_signature_ends_at_brace(src: Seq<u8>, n: SyntaxNode, p: int)
    requires
        n.start_byte <= src.len(),
        0 <= p,
        n.start_byte + p < src.len(),
        src[n.start_byte + p] == 123u8,
        forall|q: int| n.start_byte <= q < n.start_byte + p ==> src[q] != 123u8,
    ensures
        signature_text(src, n) == trim(decoded_or_empty(src.subrange(n.start_byte as int, n.start_byte + p))),
{
    let start = n.start_byte as int;
    let rest = src.subrange(start, src.len() as int);
    assert forall|q: int| 0 <= q < p implies rest[q] != 123u8 by {
        assert(rest[q] == src[start + q]);
    }
    lemma_first_index_is(rest, 123u8, p);
    assert(rest.subrange(0, p) =~= src.subrange(start, start + p));
}

/// When no `{` follows the start of declaration `n` but a `;` does, its
/// signature is the source from that start up to the first `;`, trimmed.
pub proof fn lemma_signature_ends_at_semicolon(src: Seq<u8>, n: SyntaxNode, p: int)
    requires
        n.start_byte <= src.len(),
        0 <= p,
        n.start_byte + p < src.len(),
        src[n.start_byte + p] == 59u8,
        forall|q: int| n.start_byte <= q < n.start_byte + p ==> src[q] != 59u8,
        forall|q: int| n.start_byte <= q < src.len() ==> src[q] != 123u8,
    ensures
        signature_text(src, n) == trim(decoded_or_empty(src.subrange(n.start_byte as int, n.start_byte + p))),
{
    let start = n.start_byte as int;
    let rest = src.subrange(start, src.len() as int);
    assert forall|q: int| 0 <= q < p implies rest[q] != 59u8 by {
        assert(rest[q] == src[start + q]);
    }
    lemma_first_index_is(rest, 59u8, p);
    lemma_first_index_from(rest, 123u8, 0);
    if let Some(f) = first_index_from(rest, 123u8, 0) {
        assert(rest[f] == src[start + f]);
    }
    assert(rest.subrange(0, p) =~= src.subrange(start, start + p));
}

/// The first index of the byte `x` in `s`.
fn find_byte(s: &[u8], x: u8) -> (r: Option<usize>)
    ensures
        match r {
            Some(p) => first_index_from(s@, x, 0) == Some(p as int) && p < s@.len(),
            None => first_index_from(s@, x, 0) is None,
        },
{
    proof {
        lemma_first_index_from(s@, x, 0);
    }
    let mut k: usize = 0;
    while k < s.len()
        invariant
            k <= s@.len(),
            first_index_from(s@, x, 0) == first_index_from(s@, x, k as int),
        decreases s.len() - k,
    {
        if s[k] == x {
            return Some(k);
        }
        k += 1;
    }
    None
}

/// The signature of a declaration: the source from its start up to the first
/// `{`, or else up to the first `;`, trimmed; when neither follows, the first
/// line of its first 200 bytes.
pub fn extract_signature(node: Node, source: &[u8]) -> (r: String)
    requires
        node_fits(node.rec(), source@),
    ensures
        r@ == signature_text(source@, node.rec()),
{
    let n = node.record();
    let start = n.start_byte;
    let text = &source[start..source.len()];
    if let Some(brace_pos) = find_byte(text, 123u8) {
        let sig = trim_chars(&chars_of(text_or_empty(&text[0..brace_pos])));
        string_of(&sig)
    } else if let Some(semi_pos) = find_byte(text, 59u8) {
        let sig = trim_chars(&chars_of(text_or_empty(&text[0..semi_pos])));
        string_of(&sig)
    } else {
        let end = if n.end_byte - start <= 200 { n.end_byte } else { start + 200 };
        let line = first_line_chars(&chars_of(text_or_empty(&source[start..end])));
        string_of(&line)
    }
}

} // verus!
