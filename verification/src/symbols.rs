//! The symbols of a file: methods and constructors of classes and enums,
//! and method declarations of interfaces, nested types included.

use vstd::prelude::*;
use crate::model::{symbol_views, SourceRange, Symbol, SymbolKind, SymbolView};
use crate::syntax::{
    child_with_field, children_of, has_field, is_parent, lemma_child_list_shape, lemma_children_bounds, lemma_children_have_parent,
    lemma_first_with_field_in, Node, SyntaxNode,
};
use crate::text::{ends_with, join};
use crate::nodes::{fits, node_fits, node_range, node_text, range_of, text_of};
use crate::declarations::{build_qualified_name, extract_signature, extract_visibility, has_modifier, has_modifier_text, qualified, signature_text, stack_view, visibility_of};
use crate::java::JavaParser;

verus! {

/// The one symbol of `o`, or none.
pub open spec fn opt_seq<A>(o: Option<A>) -> Seq<A> {
    match o {
        Some(x) => seq![x],
        None => Seq::<A>::empty(),
    }
}

/// The symbol of a declaration `m` with the given kind, named by its `name` child.
pub open spec fn declared_symbol(
    t: Seq<SyntaxNode>,
    src: Seq<u8>,
    file_id: i64,
    pkg: Seq<char>,
    stack: Seq<Seq<char>>,
    m: int,
    kind: SymbolKind,
) -> Option<SymbolView> {
    match child_with_field(t, m, "name"@) {
        None => None,
        Some(nm) => {
            let name = text_of(t, nm, src);
            Some(
                SymbolView {
                    id: 0,
                    file_id,
                    name,
                    qualified_name: qualified(pkg, stack, name),
                    kind,
                    range: range_of(t[m]),
                    signature: Some(signature_text(src, t[m])),
                    visibility: visibility_of(t, m, src),
                },
            )
        },
    }
}

/// The symbol of a method declaration `m` in a class: a class method when its
/// modifiers hold `static`, a method otherwise; none when it has no name.
pub open spec fn method_symbol(
    t: Seq<SyntaxNode>,
    src: Seq<u8>,
    file_id: i64,
    pkg: Seq<char>,
    stack: Seq<Seq<char>>,
    m: int,
) -> Option<SymbolView> {
    declared_symbol(
        t,
        src,
        file_id,
        pkg,
        stack,
        m,
        if has_modifier_text(t, m, src, "static"@) {
            SymbolKind::ClassMethod
        } else {
            SymbolKind::Method
        },
    )
}

/// The symbol of a constructor declaration `m`: a method; none when it has no name.
pub open spec fn constructor_symbol(
    t: Seq<SyntaxNode>,
    src: Seq<u8>,
    file_id: i64,
    pkg: Seq<char>,
    stack: Seq<Seq<char>>,
    m: int,
) -> Option<SymbolView> {
    declared_symbol(t, src, file_id, pkg, stack, m, SymbolKind::Method)
}

/// The symbol of a method declaration `m` in an interface: a method when it
/// has a body, a method declaration otherwise; none when it has no name.
pub open spec fn interface_method_symbol(
    t: Seq<SyntaxNode>,
    src: Seq<u8>,
    file_id: i64,
    pkg: Seq<char>,
    stack: Seq<Seq<char>>,
    m: int,
) -> Option<SymbolView> {
    declared_symbol(
        t,
        src,
        file_id,
        pkg,
        stack,
        m,
        if child_with_field(t, m, "body"@) is Some {
            SymbolKind::Method
        } else {
            SymbolKind::TraitMethodDecl
        },
    )
}

/// Node `n` declares a class or an enum.
pub open spec fn is_class_like(n: SyntaxNode) -> bool {
    n.kind@ == "class_declaration"@ || n.kind@ == "enum_declaration"@
}

/// Node `n` declares an interface.
pub open spec fn is_interface(n: SyntaxNode) -> bool {
    n.kind@ == "interface_declaration"@
}

/// The symbols under node `i`, found by walking its children: classes, enums
/// and interfaces are read as type declarations, other nodes are walked in turn.
pub open spec fn symbols_in(
    t: Seq<SyntaxNode>,
    src: Seq<u8>,
    file_id: i64,
    pkg: Seq<char>,
    stack: Seq<Seq<char>>,
    i: int,
) -> Seq<SymbolView>
    decreases t.len() - i, children_of(t, i).len() + 1,
{
    if 0 <= i < t.len() {
        symbols_among(t, src, file_id, pkg, stack, i, children_of(t, i))
    } else {
        seq![]
    }
}

/// The symbols under the children `cs` of node `p`, in order.
pub open spec fn symbols_among(
    t: Seq<SyntaxNode>,
    src: Seq<u8>,
    file_id: i64,
    pkg: Seq<char>,
    stack: Seq<Seq<char>>,
    p: int,
    cs: Seq<int>,
) -> Seq<SymbolView>
    decreases t.len() - p, cs.len(),
{
    if cs.len() == 0 {
        seq![]
    } else {
        let c = cs[0];
        (if p < c < t.len() {
            if is_class_like(t[c]) {
                class_symbols(t, src, file_id, pkg, stack, c)
            } else if is_interface(t[c]) {
                interface_symbols(t, src, file_id, pkg, stack, c)
            } else {
                symbols_in(t, src, file_id, pkg, stack, c)
            }
        } else {
            seq![]
        }) + symbols_among(t, src, file_id, pkg, stack, p, cs.drop_first())
    }
}

/// The symbols of class (or enum) declaration `c` nested in the classes `stack`:
/// those of the members of its body, inside the class's name; none when it has
/// no name or no body.
pub open spec fn class_symbols(
    t: Seq<SyntaxNode>,
    src: Seq<u8>,
    file_id: i64,
    pkg: Seq<char>,
    stack: Seq<Seq<char>>,
    c: int,
) -> Seq<SymbolView>
    decreases t.len() - c, 0int,
{
    match child_with_field(t, c, "name"@) {
        None => seq![],
        Some(nm) => match child_with_field(t, c, "body"@) {
            None => seq![],
            Some(b) => if c < b < t.len() {
                class_members(
                    t,
                    src,
                    file_id,
                    pkg,
                    stack.push(text_of(t, nm, src)),
                    b,
                    children_of(t, b),
                )
            } else {
                seq![]
            },
        },
    }
}

/// The symbols of the members `cs` of class body `b`: methods, constructors,
/// and nested classes, enums and interfaces.
pub open spec fn class_members(
    t: Seq<SyntaxNode>,
    src: Seq<u8>,
    file_id: i64,
    pkg: Seq<char>,
    stack: Seq<Seq<char>>,
    b: int,
    cs: Seq<int>,
) -> Seq<SymbolView>
    decreases t.len() - b, cs.len(),
{
    if cs.len() == 0 {
        seq![]
    } else {
        let c = cs[0];
        (if b < c < t.len() {
            if t[c].kind@ == "method_declaration"@ {
                opt_seq(method_symbol(t, src, file_id, pkg, stack, c))
            } else if t[c].kind@ == "constructor_declaration"@ {
                opt_seq(constructor_symbol(t, src, file_id, pkg, stack, c))
            } else if is_class_like(t[c]) {
                class_symbols(t, src, file_id, pkg, stack, c)
            } else if is_interface(t[c]) {
                interface_symbols(t, src, file_id, pkg, stack, c)
            } else {
                seq![]
            }
        } else {
            seq![]
        }) + class_members(t, src, file_id, pkg, stack, b, cs.drop_first())
    }
}

/// The symbols of interface declaration `c` nested in the classes `stack`:
/// those of the members of its body, inside the interface's name; none when
/// it has no name or no body.
pub open spec fn interface_symbols(
    t: Seq<SyntaxNode>,
    src: Seq<u8>,
    file_id: i64,
    pkg: Seq<char>,
    stack: Seq<Seq<char>>,
    c: int,
) -> Seq<SymbolView>
    decreases t.len() - c, 0int,
{
    match child_with_field(t, c, "name"@) {
        None => seq![],
        Some(nm) => match child_with_field(t, c, "body"@) {
            None => seq![],
            Some(b) => if c < b < t.len() {
                interface_members(
                    t,
                    src,
                    file_id,
                    pkg,
                    stack.push(text_of(t, nm, src)),
                    b,
                    children_of(t, b),
                )
            } else {
                seq![]
            },
        },
    }
}

/// The symbols of the members `cs` of interface body `b`: method declarations,
/// and nested classes, enums and interfaces.
pub open spec fn interface_members(
    t: Seq<SyntaxNode>,
    src: Seq<u8>,
    file_id: i64,
    pkg: Seq<char>,
    stack: Seq<Seq<char>>,
    b: int,
    cs: Seq<int>,
) -> Seq<SymbolView>
    decreases t.len() - b, cs.len(),
{
    if cs.len() == 0 {
        seq![]
    } else {
        let c = cs[0];
        (if b < c < t.len() {
            if t[c].kind@ == "method_declaration"@ {
                opt_seq(interface_method_symbol(t, src, file_id, pkg, stack, c))
            } else if is_class_like(t[c]) {
                class_symbols(t, src, file_id, pkg, stack, c)
            } else if is_interface(t[c]) {
                interface_symbols(t, src, file_id, pkg, stack, c)
            } else {
                seq![]
            }
        } else {
            seq![]
        }) + interface_members(t, src, file_id, pkg, stack, b, cs.drop_first())
    }
}


/// The stack of class names `stack` with `name` pushed.
fn pushed_stack(stack: &[String], name: String) -> (r: Vec<String>)
    ensures
        stack_view(r@) == stack_view(stack@).push(name@),
{
    let mut r: Vec<String> = Vec::new();
    for k in 0..stack.len()
        invariant
            stack_view(r@) == stack_view(stack@).take(k as int),
    {
        let ghost before = r@;
        r.push(stack[k].clone());
        assert(stack_view(r@) =~= stack_view(before).push(stack@[k as int]@));
        assert(stack_view(stack@).take(k + 1) =~= stack_view(stack@).take(k as int).push(
            stack@[k as int]@,
        ));
    }
    assert(stack_view(stack@).take(stack@.len() as int) =~= stack_view(stack@));
    let ghost before = r@;
    r.push(name);
    assert(stack_view(r@) =~= stack_view(before).push(name@));
    r
}

/// The symbol of declaration `node` with the given kind, named by its `name` child.
fn declared_symbol_at(
    node: Node,
    source: &[u8],
    file_id: i64,
    package: &str,
    class_stack: &[String],
    kind: SymbolKind,
) -> (r: Option<Symbol>)
    requires
        fits(node.model(), source@),
    ensures
        match r {
            Some(s) => declared_symbol(
                node.model(),
                source@,
                file_id,
                package@,
                stack_view(class_stack@),
                node.idx(),
                kind,
            ) == Some(s@),
            None => declared_symbol(
                node.model(),
                source@,
                file_id,
                package@,
                stack_view(class_stack@),
                node.idx(),
                kind,
            ) is None,
        },
{
    let ghost t = node.model();
    let ghost i = node.idx();
    node.reveal_in_tree();
    proof {
        lemma_children_bounds(t, i);
        lemma_first_with_field_in(t, children_of(t, i), "name"@);
    }
    let name_node = match node.child_by_field_name("name") {
        Some(n) => n,
        None => return None,
    };
    assert(node_fits(t[name_node.idx()], source@));
    let name = node_text(name_node, source).to_owned();
    let qualified_name = build_qualified_name(package, class_stack, name.as_str());
    let visibility = extract_visibility(node, source);
    let signature = extract_signature(node, source);
    assert(node_fits(t[i], source@));
    let range = node_range(node);
    Some(
        Symbol {
            id: 0,
            file_id,
            name,
            qualified_name,
            kind,
            range,
            signature: Some(signature),
            visibility,
        },
    )
}

impl JavaParser {
    /// The symbol of a method declaration in a class: a class method when its
    /// modifiers hold `static`, a method otherwise; none when it has no name.
    pub fn extract_method(
        &self,
        node: Node,
        source: &[u8],
        file_id: i64,
        package: &str,
        class_stack: &[String],
    ) -> (r: Option<Symbol>)
        requires
            fits(node.model(), source@),
        ensures
            match r {
                Some(s) => method_symbol(
                    node.model(),
                    source@,
                    file_id,
                    package@,
                    stack_view(class_stack@),
                    node.idx(),
                ) == Some(s@),
                None => method_symbol(
                    node.model(),
                    source@,
                    file_id,
                    package@,
                    stack_view(class_stack@),
                    node.idx(),
                ) is None,
            },
    {
        let is_static = has_modifier(node, source, "static");
        let kind = if is_static {
            SymbolKind::ClassMethod
        } else {
            SymbolKind::Method
        };
        declared_symbol_at(node, source, file_id, package, class_stack, kind)
    }

    /// The symbol of a constructor declaration: a method; none when it has no name.
    pub fn extract_constructor(
        &self,
        node: Node,
        source: &[u8],
        file_id: i64,
        package: &str,
        class_stack: &[String],
    ) -> (r: Option<Symbol>)
        requires
            fits(node.model(), source@),
        ensures
            match r {
                Some(s) => constructor_symbol(
                    node.model(),
                    source@,
                    file_id,
                    package@,
                    stack_view(class_stack@),
                    node.idx(),
                ) == Some(s@),
                None => constructor_symbol(
                    node.model(),
                    source@,
                    file_id,
                    package@,
                    stack_view(class_stack@),
                    node.idx(),
                ) is None,
            },
    {
        declared_symbol_at(node, source, file_id, package, class_stack, SymbolKind::Method)
    }
}


/// A qualified name ends with the name it qualifies.
pub proof fn lemma_qualified_ends_with_name(pkg: Seq<char>, stack: Seq<Seq<char>>, name: Seq<char>)
    ensures
        ends_with(qualified(pkg, stack, name), name),
{
    let parts = (if pkg.len() == 0 { Seq::<Seq<char>>::empty() } else { seq![pkg] }) + stack + seq![name];
    let q = qualified(pkg, stack, name);
    assert(parts.last() == name);
    if parts.len() == 1 {
        assert(q == name);
        assert(q.subrange(q.len() - name.len(), q.len() as int) =~= name);
    } else {
        assert(q == join(parts.drop_last(), "."@) + "."@ + name);
        assert(q.subrange(q.len() - name.len(), q.len() as int) =~= name);
    }
}

/// The symbol of a declaration, when there is one, is qualified by its name.
proof fn lemma_declared_symbol_named(t: Seq<SyntaxNode>, src: Seq<u8>, file_id: i64, pkg: Seq<char>, stack: Seq<Seq<char>>, m: int, kind: SymbolKind)
    ensures
        declared_symbol(t, src, file_id, pkg, stack, m, kind) matches Some(s) ==> ends_with(s.qualified_name, s.name),
{
    if let Some(nm) = child_with_field(t, m, "name"@) {
        lemma_qualified_ends_with_name(pkg, stack, text_of(t, nm, src));
    }
}

/// A freshly extracted symbol: not yet stored (id 0), of the file being read,
/// with a signature, with a qualified name that ends with its name, and a
/// method, class method or method declaration.
pub open spec fn fresh_symbol(s: SymbolView, file_id: i64) -> bool {
    &&& s.id == 0
    &&& s.file_id == file_id
    &&& s.signature is Some
    &&& ends_with(s.qualified_name, s.name)
    &&& (s.kind == SymbolKind::Method || s.kind == SymbolKind::ClassMethod || s.kind == SymbolKind::TraitMethodDecl)
}

/// Every symbol of `v` is fresh.
pub open spec fn all_fresh(v: Seq<SymbolView>, file_id: i64) -> bool {
    forall|k: int| 0 <= k < v.len() ==> fresh_symbol(#[trigger] v[k], file_id)
}

proof fn lemma_all_fresh_concat(a: Seq<SymbolView>, b: Seq<SymbolView>, file_id: i64)
    requires
        all_fresh(a, file_id),
        all_fresh(b, file_id),
    ensures
        all_fresh(a + b, file_id),
{
    assert forall|k: int| 0 <= k < (a + b).len() implies fresh_symbol(#[trigger] (a + b)[k], file_id) by {
        if k < a.len() {
            assert((a + b)[k] == a[k]);
        } else {
            assert((a + b)[k] == b[k - a.len()]);
        }
    }
}

proof fn lemma_fresh_symbols_in(t: Seq<SyntaxNode>, src: Seq<u8>, file_id: i64, pkg: Seq<char>, stack: Seq<Seq<char>>, i: int)
    ensures
        all_fresh(symbols_in(t, src, file_id, pkg, stack, i), file_id),
    decreases t.len() - i, children_of(t, i).len() + 1,
{
    if 0 <= i < t.len() {
        lemma_fresh_symbols_among(t, src, file_id, pkg, stack, i, children_of(t, i));
    }
}

proof fn lemma_fresh_symbols_among(t: Seq<SyntaxNode>, src: Seq<u8>, file_id: i64, pkg: Seq<char>, stack: Seq<Seq<char>>, p: int, cs: Seq<int>)
    ensures
        all_fresh(symbols_among(t, src, file_id, pkg, stack, p, cs), file_id),
    decreases t.len() - p, cs.len(),
{
    if cs.len() > 0 {
        let c = cs[0];
        if p < c < t.len() {
            if is_class_like(t[c]) {
                lemma_fresh_class_symbols(t, src, file_id, pkg, stack, c);
            } else if is_interface(t[c]) {
                lemma_fresh_interface_symbols(t, src, file_id, pkg, stack, c);
            } else {
                lemma_fresh_symbols_in(t, src, file_id, pkg, stack, c);
            }
        }
        lemma_fresh_symbols_among(t, src, file_id, pkg, stack, p, cs.drop_first());
        let head = if p < c < t.len() {
            if is_class_like(t[c]) {
                class_symbols(t, src, file_id, pkg, stack, c)
            } else if is_interface(t[c]) {
                interface_symbols(t, src, file_id, pkg, stack, c)
            } else {
                symbols_in(t, src, file_id, pkg, stack, c)
            }
        } else {
            seq![]
        };
        lemma_all_fresh_concat(head, symbols_among(t, src, file_id, pkg, stack, p, cs.drop_first()), file_id);
    }
}

proof fn lemma_fresh_class_symbols(t: Seq<SyntaxNode>, src: Seq<u8>, file_id: i64, pkg: Seq<char>, stack: Seq<Seq<char>>, c: int)
    ensures
        all_fresh(class_symbols(t, src, file_id, pkg, stack, c), file_id),
    decreases t.len() - c, 0int,
{
    if let Some(nm) = child_with_field(t, c, "name"@) {
        if let Some(b) = child_with_field(t, c, "body"@) {
            if c < b < t.len() {
                lemma_fresh_class_members(t, src, file_id, pkg, stack.push(text_of(t, nm, src)), b, children_of(t, b));
            }
        }
    }
}

proof fn lemma_fresh_class_members(t: Seq<SyntaxNode>, src: Seq<u8>, file_id: i64, pkg: Seq<char>, stack: Seq<Seq<char>>, b: int, cs: Seq<int>)
    ensures
        all_fresh(class_members(t, src, file_id, pkg, stack, b, cs), file_id),
    decreases t.len() - b, cs.len(),
{
    if cs.len() > 0 {
        let c = cs[0];
        if b < c < t.len() {
            if t[c].kind@ == "method_declaration"@ {
                lemma_declared_symbol_named(t, src, file_id, pkg, stack, c, if has_modifier_text(t, c, src, "static"@) {
                    SymbolKind::ClassMethod
                } else {
                    SymbolKind::Method
                });
            } else if t[c].kind@ == "constructor_declaration"@ {
                lemma_declared_symbol_named(t, src, file_id, pkg, stack, c, SymbolKind::Method);
            } else if is_class_like(t[c]) {
                lemma_fresh_class_symbols(t, src, file_id, pkg, stack, c);
            } else if is_interface(t[c]) {
                lemma_fresh_interface_symbols(t, src, file_id, pkg, stack, c);
            }
        }
        lemma_fresh_class_members(t, src, file_id, pkg, stack, b, cs.drop_first());
        let head = if b < c < t.len() {
            if t[c].kind@ == "method_declaration"@ {
                opt_seq(method_symbol(t, src, file_id, pkg, stack, c))
            } else if t[c].kind@ == "constructor_declaration"@ {
                opt_seq(constructor_symbol(t, src, file_id, pkg, stack, c))
            } else if is_class_like(t[c]) {
                class_symbols(t, src, file_id, pkg, stack, c)
            } else if is_interface(t[c]) {
                interface_symbols(t, src, file_id, pkg, stack, c)
            } else {
                seq![]
            }
        } else {
            seq![]
        };
        lemma_all_fresh_concat(head, class_members(t, src, file_id, pkg, stack, b, cs.drop_first()), file_id);
    }
}

proof fn lemma_fresh_interface_symbols(t: Seq<SyntaxNode>, src: Seq<u8>, file_id: i64, pkg: Seq<char>, stack: Seq<Seq<char>>, c: int)
    ensures
        all_fresh(interface_symbols(t, src, file_id, pkg, stack, c), file_id),
    decreases t.len() - c, 0int,
{
    if let Some(nm) = child_with_field(t, c, "name"@) {
        if let Some(b) = child_with_field(t, c, "body"@) {
            if c < b < t.len() {
                lemma_fresh_interface_members(t, src, file_id, pkg, stack.push(text_of(t, nm, src)), b, children_of(t, b));
            }
        }
    }
}

proof fn lemma_fresh_interface_members(t: Seq<SyntaxNode>, src: Seq<u8>, file_id: i64, pkg: Seq<char>, stack: Seq<Seq<char>>, b: int, cs: Seq<int>)
    ensures
        all_fresh(interface_members(t, src, file_id, pkg, stack, b, cs), file_id),
    decreases t.len() - b, cs.len(),
{
    if cs.len() > 0 {
        let c = cs[0];
        if b < c < t.len() {
            if t[c].kind@ == "method_declaration"@ {
                lemma_declared_symbol_named(t, src, file_id, pkg, stack, c, if child_with_field(t, c, "body"@) is Some {
                    SymbolKind::Method
                } else {
                    SymbolKind::TraitMethodDecl
                });
            } else if is_class_like(t[c]) {
                lemma_fresh_class_symbols(t, src, file_id, pkg, stack, c);
            } else if is_interface(t[c]) {
                lemma_fresh_interface_symbols(t, src, file_id, pkg, stack, c);
            }
        }
        lemma_fresh_interface_members(t, src, file_id, pkg, stack, b, cs.drop_first());
        let head = if b < c < t.len() {
            if t[c].kind@ == "method_declaration"@ {
                opt_seq(interface_method_symbol(t, src, file_id, pkg, stack, c))
            } else if is_class_like(t[c]) {
                class_symbols(t, src, file_id, pkg, stack, c)
            } else if is_interface(t[c]) {
                interface_symbols(t, src, file_id, pkg, stack, c)
            } else {
                seq![]
            }
        } else {
            seq![]
        };
        lemma_all_fresh_concat(head, interface_members(t, src, file_id, pkg, stack, b, cs.drop_first()), file_id);
    }
}

/// Every symbol that the walk of a node yields is fresh: not yet stored
/// (id 0), of the file being read, with a signature, with a qualified name
/// that ends with its name, and a method, class method or method declaration.
pub proof fn lemma_extracted_symbols_fresh(t: Seq<SyntaxNode>, src: Seq<u8>, file_id: i64, pkg: Seq<char>, stack: Seq<Seq<char>>, i: int)
    ensures
        forall|k: int| 0 <= k < symbols_in(t, src, file_id, pkg, stack, i).len() ==> fresh_symbol(
            #[trigger] symbols_in(t, src, file_id, pkg, stack, i)[k],
            file_id,
        ),
{
    lemma_fresh_symbols_in(t, src, file_id, pkg, stack, i);
}

/// Symbol `s` stands for member `m` held in body `b` of type declaration `a`
/// (`b` a child of `a` under the field `body`, `m` a child of `b`): it has the
/// range of `m`, and its kind is set by the kind of `a` alone. In an
/// interface, `m` is a method declaration, a method when it has a body and a
/// method declaration when it has none; in a class or an enum, `m` is a
/// method, a class method when its modifiers hold `static`, or a constructor,
/// a method.
pub open spec fn member_symbol_of(t: Seq<SyntaxNode>, src: Seq<u8>, s: SymbolView, a: int, b: int, m: int) -> bool {
    &&& is_parent(t, a, b)
    &&& has_field(t[b], "body"@)
    &&& is_parent(t, b, m)
    &&& s.range == range_of(t[m])
    &&& if is_interface(t[a]) {
        &&& t[m].kind@ == "method_declaration"@
        &&& s.kind == (if child_with_field(t, m, "body"@) is Some {
            SymbolKind::Method
        } else {
            SymbolKind::TraitMethodDecl
        })
    } else {
        &&& is_class_like(t[a])
        &&& ((t[m].kind@ == "method_declaration"@ && s.kind == (if has_modifier_text(t, m, src, "static"@) {
            SymbolKind::ClassMethod
        } else {
            SymbolKind::Method
        })) || (t[m].kind@ == "constructor_declaration"@ && s.kind == SymbolKind::Method))
    }
}

/// Symbol `s` stands for a member of the body of some type declaration.
pub open spec fn stands_for_member(t: Seq<SyntaxNode>, src: Seq<u8>, s: SymbolView) -> bool {
    exists|a: int, b: int, m: int| #[trigger] member_symbol_of(t, src, s, a, b, m)
}

spec fn all_members(t: Seq<SyntaxNode>, src: Seq<u8>, v: Seq<SymbolView>) -> bool {
    forall|k: int| 0 <= k < v.len() ==> stands_for_member(t, src, #[trigger] v[k])
}

proof fn lemma_all_members_concat(t: Seq<SyntaxNode>, src: Seq<u8>, x: Seq<SymbolView>, y: Seq<SymbolView>)
    requires
        all_members(t, src, x),
        all_members(t, src, y),
    ensures
        all_members(t, src, x + y),
{
    assert forall|k: int| 0 <= k < (x + y).len() implies stands_for_member(t, src, #[trigger] (x + y)[k]) by {
        if k < x.len() {
            assert((x + y)[k] == x[k]);
        } else {
            assert((x + y)[k] == y[k - x.len()]);
        }
    }
}

/// The body child of type declaration `c`, when `child_with_field` finds one, is a child of `c` under the field `body`.
proof fn lemma_body_child(t: Seq<SyntaxNode>, c: int)
    requires
        0 <= c,
    ensures
        child_with_field(t, c, "body"@) matches Some(b) ==> is_parent(t, c, b) && has_field(t[b], "body"@),
{
    lemma_first_with_field_in(t, children_of(t, c), "body"@);
    lemma_children_have_parent(t, c);
    if let Some(b) = child_with_field(t, c, "body"@) {
        let k = choose|k: int| 0 <= k < children_of(t, c).len() && children_of(t, c)[k] == b;
        assert(is_parent(t, c, children_of(t, c)[k]));
    }
}

proof fn lemma_class_like_is_no_interface(n: SyntaxNode)
    ensures
        is_class_like(n) ==> !is_interface(n),
{
    reveal_strlit("class_declaration");
    reveal_strlit("enum_declaration");
    reveal_strlit("interface_declaration");
    assert("class_declaration"@[0] != "interface_declaration"@[0]);
    assert("enum_declaration"@[0] != "interface_declaration"@[0]);
}

proof fn lemma_members_symbols_in(t: Seq<SyntaxNode>, src: Seq<u8>, file_id: i64, pkg: Seq<char>, stack: Seq<Seq<char>>, i: int)
    ensures
        all_members(t, src, symbols_in(t, src, file_id, pkg, stack, i)),
    decreases t.len() - i, children_of(t, i).len() + 1,
{
    if 0 <= i < t.len() {
        lemma_members_symbols_among(t, src, file_id, pkg, stack, i, children_of(t, i));
    }
}

proof fn lemma_members_symbols_among(t: Seq<SyntaxNode>, src: Seq<u8>, file_id: i64, pkg: Seq<char>, stack: Seq<Seq<char>>, p: int, cs: Seq<int>)
    requires
        0 <= p,
    ensures
        all_members(t, src, symbols_among(t, src, file_id, pkg, stack, p, cs)),
    decreases t.len() - p, cs.len(),
{
    if cs.len() > 0 {
        let c = cs[0];
        if p < c < t.len() {
            if is_class_like(t[c]) {
                lemma_members_class_symbols(t, src, file_id, pkg, stack, c);
            } else if is_interface(t[c]) {
                lemma_members_interface_symbols(t, src, file_id, pkg, stack, c);
            } else {
                lemma_members_symbols_in(t, src, file_id, pkg, stack, c);
            }
        }
        lemma_members_symbols_among(t, src, file_id, pkg, stack, p, cs.drop_first());
        let head = if p < c < t.len() {
            if is_class_like(t[c]) {
                class_symbols(t, src, file_id, pkg, stack, c)
            } else if is_interface(t[c]) {
                interface_symbols(t, src, file_id, pkg, stack, c)
            } else {
                symbols_in(t, src, file_id, pkg, stack, c)
            }
        } else {
            seq![]
        };
        lemma_all_members_concat(t, src, head, symbols_among(t, src, file_id, pkg, stack, p, cs.drop_first()));
    }
}

proof fn lemma_members_class_symbols(t: Seq<SyntaxNode>, src: Seq<u8>, file_id: i64, pkg: Seq<char>, stack: Seq<Seq<char>>, c: int)
    requires
        0 <= c < t.len(),
        is_class_like(t[c]),
    ensures
        all_members(t, src, class_symbols(t, src, file_id, pkg, stack, c)),
    decreases t.len() - c, 0int,
{
    if let Some(nm) = child_with_field(t, c, "name"@) {
        if let Some(b) = child_with_field(t, c, "body"@) {
            if 0 <= c < b < t.len() {
                lemma_body_child(t, c);
                lemma_children_have_parent(t, b);
                lemma_members_class_members(t, src, file_id, pkg, stack.push(text_of(t, nm, src)), c, b, children_of(t, b));
            }
        }
    }
}

proof fn lemma_members_class_members(t: Seq<SyntaxNode>, src: Seq<u8>, file_id: i64, pkg: Seq<char>, stack: Seq<Seq<char>>, a: int, b: int, cs: Seq<int>)
    requires
        is_class_like(t[a]),
        is_parent(t, a, b),
        has_field(t[b], "body"@),
        forall|k: int| 0 <= k < cs.len() ==> is_parent(t, b, #[trigger] cs[k]),
    ensures
        all_members(t, src, class_members(t, src, file_id, pkg, stack, b, cs)),
    decreases t.len() - b, cs.len(),
{
    if cs.len() > 0 {
        let c = cs[0];
        assert(is_parent(t, b, c));
        lemma_class_like_is_no_interface(t[a]);
        let head = if b < c < t.len() {
            if t[c].kind@ == "method_declaration"@ {
                opt_seq(method_symbol(t, src, file_id, pkg, stack, c))
            } else if t[c].kind@ == "constructor_declaration"@ {
                opt_seq(constructor_symbol(t, src, file_id, pkg, stack, c))
            } else if is_class_like(t[c]) {
                class_symbols(t, src, file_id, pkg, stack, c)
            } else if is_interface(t[c]) {
                interface_symbols(t, src, file_id, pkg, stack, c)
            } else {
                seq![]
            }
        } else {
            seq![]
        };
        if t[c].kind@ == "method_declaration"@ || t[c].kind@ == "constructor_declaration"@ {
            if head.len() > 0 {
                assert(member_symbol_of(t, src, head[0], a, b, c));
            }
            assert(all_members(t, src, head));
        } else if is_class_like(t[c]) {
            lemma_members_class_symbols(t, src, file_id, pkg, stack, c);
        } else if is_interface(t[c]) {
            lemma_members_interface_symbols(t, src, file_id, pkg, stack, c);
        }
        assert forall|k: int| 0 <= k < cs.drop_first().len() implies is_parent(t, b, #[trigger] cs.drop_first()[k]) by {
            assert(cs.drop_first()[k] == cs[k + 1]);
        }
        lemma_members_class_members(t, src, file_id, pkg, stack, a, b, cs.drop_first());
        lemma_all_members_concat(t, src, head, class_members(t, src, file_id, pkg, stack, b, cs.drop_first()));
    }
}

proof fn lemma_members_interface_symbols(t: Seq<SyntaxNode>, src: Seq<u8>, file_id: i64, pkg: Seq<char>, stack: Seq<Seq<char>>, c: int)
    requires
        0 <= c < t.len(),
        is_interface(t[c]),
    ensures
        all_members(t, src, interface_symbols(t, src, file_id, pkg, stack, c)),
    decreases t.len() - c, 0int,
{
    if let Some(nm) = child_with_field(t, c, "name"@) {
        if let Some(b) = child_with_field(t, c, "body"@) {
            if 0 <= c < b < t.len() {
                lemma_body_child(t, c);
                lemma_children_have_parent(t, b);
                lemma_members_interface_members(t, src, file_id, pkg, stack.push(text_of(t, nm, src)), c, b, children_of(t, b));
            }
        }
    }
}

proof fn lemma_members_interface_members(t: Seq<SyntaxNode>, src: Seq<u8>, file_id: i64, pkg: Seq<char>, stack: Seq<Seq<char>>, a: int, b: int, cs: Seq<int>)
    requires
        is_interface(t[a]),
        is_parent(t, a, b),
        has_field(t[b], "body"@),
        forall|k: int| 0 <= k < cs.len() ==> is_parent(t, b, #[trigger] cs[k]),
    ensures
        all_members(t, src, interface_members(t, src, file_id, pkg, stack, b, cs)),
    decreases t.len() - b, cs.len(),
{
    if cs.len() > 0 {
        let c = cs[0];
        assert(is_parent(t, b, c));
        let head = if b < c < t.len() {
            if t[c].kind@ == "method_declaration"@ {
                opt_seq(interface_method_symbol(t, src, file_id, pkg, stack, c))
            } else if is_class_like(t[c]) {
                class_symbols(t, src, file_id, pkg, stack, c)
            } else if is_interface(t[c]) {
                interface_symbols(t, src, file_id, pkg, stack, c)
            } else {
                seq![]
            }
        } else {
            seq![]
        };
        if t[c].kind@ == "method_declaration"@ {
            if head.len() > 0 {
                assert(member_symbol_of(t, src, head[0], a, b, c));
            }
            assert(all_members(t, src, head));
        } else if is_class_like(t[c]) {
            lemma_members_class_symbols(t, src, file_id, pkg, stack, c);
        } else if is_interface(t[c]) {
            lemma_members_interface_symbols(t, src, file_id, pkg, stack, c);
        }
        assert forall|k: int| 0 <= k < cs.drop_first().len() implies is_parent(t, b, #[trigger] cs.drop_first()[k]) by {
            assert(cs.drop_first()[k] == cs[k + 1]);
        }
        lemma_members_interface_members(t, src, file_id, pkg, stack, a, b, cs.drop_first());
        lemma_all_members_concat(t, src, head, interface_members(t, src, file_id, pkg, stack, b, cs.drop_first()));
    }
}

/// Every symbol that the walk of a node yields stands for a member `m` held
/// in the body of a type declaration `a`, with the range of `m` and a kind
/// that the kind of `a` alone sets, wherever `a` is nested: in an interface
/// (one nested in a class included) a method declaration without a body is a
/// method declaration and one with a body a method; in a class or an enum a
/// method is a class method when static and a method otherwise, and a
/// constructor is a method.
pub proof fn lemma_symbols_stand_for_members(t: Seq<SyntaxNode>, src: Seq<u8>, file_id: i64, pkg: Seq<char>, stack: Seq<Seq<char>>, i: int)
    ensures
        forall|k: int| 0 <= k < symbols_in(t, src, file_id, pkg, stack, i).len() ==> stands_for_member(
            t,
            src,
            #[trigger] symbols_in(t, src, file_id, pkg, stack, i)[k],
        ),
{
    lemma_members_symbols_in(t, src, file_id, pkg, stack, i);
}

/// Range `a` starts no later than range `b`: on an earlier line, or on the
/// same line at the same or an earlier column.
pub open spec fn starts_no_later(a: SourceRange, b: SourceRange) -> bool {
    a.start_line < b.start_line || (a.start_line == b.start_line && a.start_col <= b.start_col)
}

/// Range `a` ends no later than range `b` starts.
pub open spec fn ends_before(a: SourceRange, b: SourceRange) -> bool {
    a.end_line < b.start_line || (a.end_line == b.start_line && a.end_col <= b.start_col)
}

/// Every node ends no later than any later node that is no deeper starts:
/// siblings, and the nodes that follow a subtree, never overlap it.
pub open spec fn ends_before_later(t: Seq<SyntaxNode>) -> bool {
    forall|i: int, k: int|
        #![trigger range_of(t[i]), range_of(t[k])]
        0 <= i < k < t.len() && t[k].depth <= t[i].depth ==> ends_before(range_of(t[i]), range_of(t[k]))
}

/// The 1-based starts of the nodes never go back along the preorder.
pub open spec fn starts_in_preorder(t: Seq<SyntaxNode>) -> bool {
    forall|i: int, j: int|
        #![trigger range_of(t[i]), range_of(t[j])]
        0 <= i <= j < t.len() ==> starts_no_later(range_of(t[i]), range_of(t[j]))
}

/// The symbols `v` come in source order and do not overlap: each starts no
/// later than, and ends no later than the start of, every symbol after it.
pub open spec fn symbols_in_start_order(v: Seq<SymbolView>) -> bool {
    forall|i: int, j: int| 0 <= i < j < v.len() ==> starts_no_later(#[trigger] v[i].range, #[trigger] v[j].range)
        && ends_before(v[i].range, v[j].range)
}

/// Every symbol of `v` starts no earlier than node `lo` and, when `hi` is a
/// node, starts and ends no later than node `hi` starts.
spec fn starts_between(v: Seq<SymbolView>, t: Seq<SyntaxNode>, lo: int, hi: int) -> bool {
    forall|k: int| 0 <= k < v.len() ==> starts_no_later(range_of(t[lo]), #[trigger] v[k].range)
        && (hi < t.len() ==> starts_no_later(v[k].range, range_of(t[hi])) && ends_before(v[k].range, range_of(t[hi])))
}

/// Children of node `p` from some place on, all before `hi`, which is the end
/// of the tree or a node no deeper than `p`.
spec fn sibling_run(t: Seq<SyntaxNode>, p: int, cs: Seq<int>, hi: int) -> bool {
    &&& 0 <= p < hi <= t.len()
    &&& hi == t.len() || t[hi].depth <= t[p].depth
    &&& forall|k: int| 0 <= k < cs.len() ==> p < #[trigger] cs[k] < hi && t[cs[k]].depth == t[p].depth + 1
    &&& forall|k: int, l: int| 0 <= k < l < cs.len() ==> #[trigger] cs[k] < #[trigger] cs[l]
}

proof fn lemma_children_run(t: Seq<SyntaxNode>, p: int, hi: int)
    requires
        0 <= p < hi <= t.len(),
        hi == t.len() || t[hi].depth <= t[p].depth,
    ensures
        sibling_run(t, p, children_of(t, p), hi),
{
    lemma_child_list_shape(t, p, p + 1, hi);
}

proof fn lemma_run_rest(t: Seq<SyntaxNode>, p: int, cs: Seq<int>, hi: int)
    requires
        sibling_run(t, p, cs, hi),
        cs.len() > 0,
    ensures
        sibling_run(t, p, cs.drop_first(), hi),
{
    assert forall|k: int, l: int| 0 <= k < l < cs.drop_first().len() implies #[trigger] cs.drop_first()[k] < #[trigger] cs.drop_first()[l] by {
        assert(cs[k + 1] < cs[l + 1]);
    }
}

proof fn lemma_between_concat(t: Seq<SyntaxNode>, a: Seq<SymbolView>, b: Seq<SymbolView>, lo: int, mid: int, hi: int)
    requires
        starts_in_preorder(t),
        ends_before_later(t),
        0 <= lo <= mid <= hi <= t.len(),
        lo < t.len(),
        symbols_in_start_order(a),
        symbols_in_start_order(b),
        starts_between(a, t, lo, mid),
        starts_between(b, t, mid, hi),
        b.len() > 0 ==> mid < t.len(),
    ensures
        symbols_in_start_order(a + b),
        starts_between(a + b, t, lo, hi),
{
    let v = a + b;
    assert(range_of(t[lo]) == range_of(t[lo]));
    if mid < t.len() {
        assert(starts_no_later(range_of(t[lo]), range_of(t[mid])));
        if hi < t.len() {
            assert(starts_no_later(range_of(t[mid]), range_of(t[hi])));
        }
    }
    assert forall|k: int| 0 <= k < v.len() implies starts_no_later(range_of(t[lo]), #[trigger] v[k].range)
        && (hi < t.len() ==> starts_no_later(v[k].range, range_of(t[hi]))) by {
        if k < a.len() {
            assert(v[k] == a[k]);
        } else {
            assert(v[k] == b[k - a.len()]);
        }
    }
    assert forall|i: int, j: int| 0 <= i < j < v.len() implies starts_no_later(#[trigger] v[i].range, #[trigger] v[j].range) by {
        if j < a.len() {
            assert(v[i] == a[i] && v[j] == a[j]);
        } else if i >= a.len() {
            assert(v[i] == b[i - a.len()] && v[j] == b[j - a.len()]);
        } else {
            assert(v[i] == a[i] && v[j] == b[j - a.len()]);
        }
    }
}

proof fn lemma_between_widen(t: Seq<SyntaxNode>, v: Seq<SymbolView>, lo: int, lo2: int, hi: int)
    requires
        starts_in_preorder(t),
        ends_before_later(t),
        0 <= lo <= lo2 < t.len(),
        starts_between(v, t, lo2, hi),
    ensures
        starts_between(v, t, lo, hi),
{
    assert(starts_no_later(range_of(t[lo]), range_of(t[lo2])));
}

proof fn lemma_declared_between(t: Seq<SyntaxNode>, src: Seq<u8>, file_id: i64, pkg: Seq<char>, stack: Seq<Seq<char>>, m: int, kind: SymbolKind, hi: int)
    requires
        starts_in_preorder(t),
        ends_before_later(t),
        0 <= m < hi <= t.len(),
        hi == t.len() || t[hi].depth <= t[m].depth,
    ensures
        symbols_in_start_order(opt_seq(declared_symbol(t, src, file_id, pkg, stack, m, kind))),
        starts_between(opt_seq(declared_symbol(t, src, file_id, pkg, stack, m, kind)), t, m, hi),
{
    assert(starts_no_later(range_of(t[m]), range_of(t[m])));
    if hi < t.len() {
        assert(starts_no_later(range_of(t[m]), range_of(t[hi])));
        assert(ends_before(range_of(t[m]), range_of(t[hi])));
    }
}

proof fn lemma_order_symbols_in(t: Seq<SyntaxNode>, src: Seq<u8>, file_id: i64, pkg: Seq<char>, stack: Seq<Seq<char>>, i: int, hi: int)
    requires
        starts_in_preorder(t),
        ends_before_later(t),
        0 <= i < hi <= t.len(),
        hi == t.len() || t[hi].depth <= t[i].depth,
    ensures
        symbols_in_start_order(symbols_in(t, src, file_id, pkg, stack, i)),
        starts_between(symbols_in(t, src, file_id, pkg, stack, i), t, i, hi),
    decreases t.len() - i, children_of(t, i).len() + 1,
{
    let cs = children_of(t, i);
    lemma_children_run(t, i, hi);
    lemma_order_symbols_among(t, src, file_id, pkg, stack, i, cs, hi);
    if cs.len() > 0 {
        lemma_between_widen(t, symbols_in(t, src, file_id, pkg, stack, i), i, cs[0], hi);
    }
}

proof fn lemma_order_symbols_among(t: Seq<SyntaxNode>, src: Seq<u8>, file_id: i64, pkg: Seq<char>, stack: Seq<Seq<char>>, p: int, cs: Seq<int>, hi: int)
    requires
        starts_in_preorder(t),
        ends_before_later(t),
        sibling_run(t, p, cs, hi),
    ensures
        symbols_in_start_order(symbols_among(t, src, file_id, pkg, stack, p, cs)),
        cs.len() == 0 ==> symbols_among(t, src, file_id, pkg, stack, p, cs).len() == 0,
        cs.len() > 0 ==> starts_between(symbols_among(t, src, file_id, pkg, stack, p, cs), t, cs[0], hi),
    decreases t.len() - p, cs.len(),
{
    if cs.len() > 0 {
        let c = cs[0];
        let next = if cs.len() > 1 { cs[1] } else { hi };
        assert(c < next);
        let head = if is_class_like(t[c]) {
            lemma_order_class_symbols(t, src, file_id, pkg, stack, c, next);
            class_symbols(t, src, file_id, pkg, stack, c)
        } else if is_interface(t[c]) {
            lemma_order_interface_symbols(t, src, file_id, pkg, stack, c, next);
            interface_symbols(t, src, file_id, pkg, stack, c)
        } else {
            lemma_order_symbols_in(t, src, file_id, pkg, stack, c, next);
            symbols_in(t, src, file_id, pkg, stack, c)
        };
        lemma_run_rest(t, p, cs, hi);
        let rest = symbols_among(t, src, file_id, pkg, stack, p, cs.drop_first());
        lemma_order_symbols_among(t, src, file_id, pkg, stack, p, cs.drop_first(), hi);
        lemma_between_concat(t, head, rest, c, next, hi);
    }
}

proof fn lemma_order_class_symbols(t: Seq<SyntaxNode>, src: Seq<u8>, file_id: i64, pkg: Seq<char>, stack: Seq<Seq<char>>, c: int, hi: int)
    requires
        starts_in_preorder(t),
        ends_before_later(t),
        0 <= c < hi <= t.len(),
        hi == t.len() || t[hi].depth <= t[c].depth,
    ensures
        symbols_in_start_order(class_symbols(t, src, file_id, pkg, stack, c)),
        starts_between(class_symbols(t, src, file_id, pkg, stack, c), t, c, hi),
    decreases t.len() - c, 0int,
{
    if let Some(nm) = child_with_field(t, c, "name"@) {
        if let Some(b) = child_with_field(t, c, "body"@) {
            if c < b < t.len() {
                lemma_children_run(t, c, hi);
                lemma_first_with_field_in(t, children_of(t, c), "body"@);
                let k = choose|k: int| 0 <= k < children_of(t, c).len() && children_of(t, c)[k] == b;
                assert(b < hi && t[b].depth == t[c].depth + 1);
                let st = stack.push(text_of(t, nm, src));
                let cs = children_of(t, b);
                lemma_children_run(t, b, hi);
                lemma_order_class_members(t, src, file_id, pkg, st, b, cs, hi);
                if cs.len() > 0 {
                    lemma_between_widen(t, class_symbols(t, src, file_id, pkg, stack, c), c, cs[0], hi);
                }
            }
        }
    }
}

proof fn lemma_order_class_members(t: Seq<SyntaxNode>, src: Seq<u8>, file_id: i64, pkg: Seq<char>, stack: Seq<Seq<char>>, b: int, cs: Seq<int>, hi: int)
    requires
        starts_in_preorder(t),
        ends_before_later(t),
        sibling_run(t, b, cs, hi),
    ensures
        symbols_in_start_order(class_members(t, src, file_id, pkg, stack, b, cs)),
        cs.len() == 0 ==> class_members(t, src, file_id, pkg, stack, b, cs).len() == 0,
        cs.len() > 0 ==> starts_between(class_members(t, src, file_id, pkg, stack, b, cs), t, cs[0], hi),
    decreases t.len() - b, cs.len(),
{
    if cs.len() > 0 {
        let c = cs[0];
        let next = if cs.len() > 1 { cs[1] } else { hi };
        assert(c < next);
        let head = if t[c].kind@ == "method_declaration"@ {
            let kind = if has_modifier_text(t, c, src, "static"@) { SymbolKind::ClassMethod } else { SymbolKind::Method };
            lemma_declared_between(t, src, file_id, pkg, stack, c, kind, next);
            opt_seq(method_symbol(t, src, file_id, pkg, stack, c))
        } else if t[c].kind@ == "constructor_declaration"@ {
            lemma_declared_between(t, src, file_id, pkg, stack, c, SymbolKind::Method, next);
            opt_seq(constructor_symbol(t, src, file_id, pkg, stack, c))
        } else if is_class_like(t[c]) {
            lemma_order_class_symbols(t, src, file_id, pkg, stack, c, next);
            class_symbols(t, src, file_id, pkg, stack, c)
        } else if is_interface(t[c]) {
            lemma_order_interface_symbols(t, src, file_id, pkg, stack, c, next);
            interface_symbols(t, src, file_id, pkg, stack, c)
        } else {
            Seq::<SymbolView>::empty()
        };
        lemma_run_rest(t, b, cs, hi);
        let rest = class_members(t, src, file_id, pkg, stack, b, cs.drop_first());
        lemma_order_class_members(t, src, file_id, pkg, stack, b, cs.drop_first(), hi);
        lemma_between_concat(t, head, rest, c, next, hi);
    }
}

proof fn lemma_order_interface_symbols(t: Seq<SyntaxNode>, src: Seq<u8>, file_id: i64, pkg: Seq<char>, stack: Seq<Seq<char>>, c: int, hi: int)
    requires
        starts_in_preorder(t),
        ends_before_later(t),
        0 <= c < hi <= t.len(),
        hi == t.len() || t[hi].depth <= t[c].depth,
    ensures
        symbols_in_start_order(interface_symbols(t, src, file_id, pkg, stack, c)),
        starts_between(interface_symbols(t, src, file_id, pkg, stack, c), t, c, hi),
    decreases t.len() - c, 0int,
{
    if let Some(nm) = child_with_field(t, c, "name"@) {
        if let Some(b) = child_with_field(t, c, "body"@) {
            if c < b < t.len() {
                lemma_children_run(t, c, hi);
                lemma_first_with_field_in(t, children_of(t, c), "body"@);
                let k = choose|k: int| 0 <= k < children_of(t, c).len() && children_of(t, c)[k] == b;
                assert(b < hi && t[b].depth == t[c].depth + 1);
                let st = stack.push(text_of(t, nm, src));
                let cs = children_of(t, b);
                lemma_children_run(t, b, hi);
                lemma_order_interface_members(t, src, file_id, pkg, st, b, cs, hi);
                if cs.len() > 0 {
                    lemma_between_widen(t, interface_symbols(t, src, file_id, pkg, stack, c), c, cs[0], hi);
                }
            }
        }
    }
}

proof fn lemma_order_interface_members(t: Seq<SyntaxNode>, src: Seq<u8>, file_id: i64, pkg: Seq<char>, stack: Seq<Seq<char>>, b: int, cs: Seq<int>, hi: int)
    requires
        starts_in_preorder(t),
        ends_before_later(t),
        sibling_run(t, b, cs, hi),
    ensures
        symbols_in_start_order(interface_members(t, src, file_id, pkg, stack, b, cs)),
        cs.len() == 0 ==> interface_members(t, src, file_id, pkg, stack, b, cs).len() == 0,
        cs.len() > 0 ==> starts_between(interface_members(t, src, file_id, pkg, stack, b, cs), t, cs[0], hi),
    decreases t.len() - b, cs.len(),
{
    if cs.len() > 0 {
        let c = cs[0];
        let next = if cs.len() > 1 { cs[1] } else { hi };
        assert(c < next);
        let head = if t[c].kind@ == "method_declaration"@ {
            let kind = if child_with_field(t, c, "body"@) is Some { SymbolKind::Method } else { SymbolKind::TraitMethodDecl };
            lemma_declared_between(t, src, file_id, pkg, stack, c, kind, next);
            opt_seq(interface_method_symbol(t, src, file_id, pkg, stack, c))
        } else if is_class_like(t[c]) {
            lemma_order_class_symbols(t, src, file_id, pkg, stack, c, next);
            class_symbols(t, src, file_id, pkg, stack, c)
        } else if is_interface(t[c]) {
            lemma_order_interface_symbols(t, src, file_id, pkg, stack, c, next);
            interface_symbols(t, src, file_id, pkg, stack, c)
        } else {
            Seq::<SymbolView>::empty()
        };
        lemma_run_rest(t, b, cs, hi);
        let rest = interface_members(t, src, file_id, pkg, stack, b, cs.drop_first());
        lemma_order_interface_members(t, src, file_id, pkg, stack, b, cs.drop_first(), hi);
        lemma_between_concat(t, head, rest, c, next, hi);
    }
}

/// When the nodes' starts never go back along the preorder and no node
/// overlaps a later node that is no deeper, the symbols that the walk of a
/// node yields come in source order without overlap; so their starts (line,
/// then column) strictly increase past every symbol whose range is not empty.
pub proof fn lemma_symbols_in_start_order(t: Seq<SyntaxNode>, src: Seq<u8>, file_id: i64, pkg: Seq<char>, stack: Seq<Seq<char>>, i: int)
    requires
        starts_in_preorder(t),
        ends_before_later(t),
        0 <= i < t.len(),
    ensures
        symbols_in_start_order(symbols_in(t, src, file_id, pkg, stack, i)),
        forall|a: int, b: int|
            0 <= a < b < symbols_in(t, src, file_id, pkg, stack, i).len() && range_not_empty(
                #[trigger] symbols_in(t, src, file_id, pkg, stack, i)[a].range,
            ) ==> starts_strictly_before(
                symbols_in(t, src, file_id, pkg, stack, i)[a].range,
                #[trigger] symbols_in(t, src, file_id, pkg, stack, i)[b].range,
            ),
{
    lemma_order_symbols_in(t, src, file_id, pkg, stack, i, t.len() as int);
}

/// Range `r` is not empty: it starts before it ends.
pub open spec fn range_not_empty(r: SourceRange) -> bool {
    r.start_line < r.end_line || (r.start_line == r.end_line && r.start_col < r.end_col)
}

/// Range `a` starts strictly before range `b`: on an earlier line, or on the
/// same line at an earlier column.
pub open spec fn starts_strictly_before(a: SourceRange, b: SourceRange) -> bool {
    a.start_line < b.start_line || (a.start_line == b.start_line && a.start_col < b.start_col)
}

/// Every symbol of `v` spans some text: its range is not empty.
pub open spec fn ranges_not_empty(v: Seq<SymbolView>) -> bool {
    forall|k: int| 0 <= k < v.len() ==> range_not_empty(#[trigger] v[k].range)
}

/// The symbols `v` start strictly one after another: each on an earlier line
/// than every symbol after it, or on the same line at an earlier column.
pub open spec fn symbols_in_strict_start_order(v: Seq<SymbolView>) -> bool {
    forall|a: int, b: int| 0 <= a < b < v.len() ==> starts_strictly_before(#[trigger] v[a].range, #[trigger] v[b].range)
}

impl JavaParser {
    /// Walks the children of `node` and appends the symbols it finds: classes,
    /// enums and interfaces are read as type declarations, other nodes are
    /// walked in turn.
    pub fn extract_symbols(
        &self,
        node: Node,
        source: &[u8],
        file_id: i64,
        package: &str,
        class_stack: &[String],
        symbols: &mut Vec<Symbol>,
    )
        requires
            fits(node.model(), source@),
        ensures
            symbol_views(final(symbols)@) == symbol_views(old(symbols)@) + symbols_in(
                node.model(),
                source@,
                file_id,
                package@,
                stack_view(class_stack@),
                node.idx(),
            ),
        decreases node.model().len() - node.idx(),
    {
        let ghost t = node.model();
        let ghost i = node.idx();
        let ghost st = stack_view(class_stack@);
        let ghost start = symbol_views(symbols@);
        node.reveal_in_tree();
        proof {
            lemma_children_bounds(t, i);
        }
        let cs = node.children();
        let ghost all = children_of(t, i);
        let mut k: usize = 0;
        assert(all.skip(0) =~= all);
        while k < cs.len()
            invariant
                t == node.model(),
                i == node.idx(),
                0 <= i < t.len(),
                st == stack_view(class_stack@),
                fits(t, source@),
                all == children_of(t, i),
                cs@.len() == all.len(),
                forall|m: int|
                    0 <= m < cs@.len() ==> (#[trigger] cs@[m]).model() == t && cs@[m].idx() == all[m],
                forall|m: int| 0 <= m < all.len() ==> i < #[trigger] all[m] < t.len(),
                k <= cs@.len(),
                symbol_views(symbols@) + symbols_among(t, source@, file_id, package@, st, i, all.skip(k as int))
                    == start + symbols_among(t, source@, file_id, package@, st, i, all),
            decreases cs.len() - k,
        {
            let child = cs[k];
            let ghost c = child.idx();
            let ghost before = symbol_views(symbols@);
            let ghost rest = symbols_among(t, source@, file_id, package@, st, i, all.skip(k + 1));
            assert(all.skip(k as int)[0] == c);
            assert(all.skip(k as int).drop_first() =~= all.skip(k + 1));
            if child.kind_is("class_declaration") || child.kind_is("enum_declaration") {
                self.extract_class(child, source, file_id, package, class_stack, symbols);
            } else if child.kind_is("interface_declaration") {
                self.extract_interface(child, source, file_id, package, class_stack, symbols);
            } else {
                self.extract_symbols(child, source, file_id, package, class_stack, symbols);
            }
            assert(symbol_views(symbols@) + rest =~= before + symbols_among(
                t,
                source@,
                file_id,
                package@,
                st,
                i,
                all.skip(k as int),
            ));
            k += 1;
        }
        assert(all.skip(cs@.len() as int) =~= Seq::<int>::empty());
    }

    /// Appends the symbols of a class (or enum) declaration nested in the
    /// classes `class_stack`: those of the members of its body, inside the
    /// class's name; nothing when it has no name or no body.
    pub fn extract_class(
        &self,
        node: Node,
        source: &[u8],
        file_id: i64,
        package: &str,
        class_stack: &[String],
        symbols: &mut Vec<Symbol>,
    )
        requires
            fits(node.model(), source@),
        ensures
            symbol_views(final(symbols)@) == symbol_views(old(symbols)@) + class_symbols(
                node.model(),
                source@,
                file_id,
                package@,
                stack_view(class_stack@),
                node.idx(),
            ),
        decreases node.model().len() - node.idx(),
    {
        let ghost t = node.model();
        let ghost i = node.idx();
        let ghost start = symbol_views(symbols@);
        node.reveal_in_tree();
        proof {
            lemma_children_bounds(t, i);
            lemma_first_with_field_in(t, children_of(t, i), "name"@);
            lemma_first_with_field_in(t, children_of(t, i), "body"@);
        }
        let name_node = match node.child_by_field_name("name") {
            Some(n) => n,
            None => {
                assert(symbol_views(symbols@) =~= start + Seq::<SymbolView>::empty());
                return ;
            },
        };
        assert(node_fits(t[name_node.idx()], source@));
        let class_name = node_text(name_node, source).to_owned();
        let new_stack = pushed_stack(class_stack, class_name);
        let body = match node.child_by_field_name("body") {
            Some(b) => b,
            None => {
                assert(symbol_views(symbols@) =~= start + Seq::<SymbolView>::empty());
                return ;
            },
        };
        let ghost b = body.idx();
        let ghost st = stack_view(new_stack@);
        proof {
            lemma_children_bounds(t, b);
        }
        let cs = body.children();
        let ghost all = children_of(t, b);
        let mut k: usize = 0;
        assert(all.skip(0) =~= all);
        while k < cs.len()
            invariant
                t == node.model(),
                i == node.idx(),
                i < b < t.len(),
                st == stack_view(new_stack@),
                fits(t, source@),
                all == children_of(t, b),
                cs@.len() == all.len(),
                forall|m: int|
                    0 <= m < cs@.len() ==> (#[trigger] cs@[m]).model() == t && cs@[m].idx() == all[m],
                forall|m: int| 0 <= m < all.len() ==> b < #[trigger] all[m] < t.len(),
                k <= cs@.len(),
                symbol_views(symbols@) + class_members(t, source@, file_id, package@, st, b, all.skip(k as int))
                    == start + class_members(t, source@, file_id, package@, st, b, all),
            decreases cs.len() - k,
        {
            let child = cs[k];
            let ghost c = child.idx();
            let ghost before = symbol_views(symbols@);
            let ghost rest = class_members(t, source@, file_id, package@, st, b, all.skip(k + 1));
            assert(all.skip(k as int)[0] == c);
            assert(all.skip(k as int).drop_first() =~= all.skip(k + 1));
            if child.kind_is("method_declaration") {
                if let Some(sym) = self.extract_method(child, source, file_id, package, new_stack.as_slice()) {
                    symbols.push(sym);
                    assert(symbol_views(symbols@) =~= before.push(sym@));
                }
            } else if child.kind_is("constructor_declaration") {
                if let Some(sym) = self.extract_constructor(child, source, file_id, package, new_stack.as_slice()) {
                    symbols.push(sym);
                    assert(symbol_views(symbols@) =~= before.push(sym@));
                }
            } else if child.kind_is("class_declaration") || child.kind_is("enum_declaration") {
                self.extract_class(child, source, file_id, package, new_stack.as_slice(), symbols);
            } else if child.kind_is("interface_declaration") {
                self.extract_interface(child, source, file_id, package, new_stack.as_slice(), symbols);
            }
            assert(symbol_views(symbols@) + rest =~= before + class_members(
                t,
                source@,
                file_id,
                package@,
                st,
                b,
                all.skip(k as int),
            ));
            k += 1;
        }
        assert(all.skip(cs@.len() as int) =~= Seq::<int>::empty());
    }

    /// Appends the symbols of an interface declaration nested in the classes
    /// `class_stack`: its method declarations (a method when it has a body, a
    /// method declaration otherwise) and nested types, inside the interface's
    /// name; nothing when it has no name or no body.
    pub fn extract_interface(
        &self,
        node: Node,
        source: &[u8],
        file_id: i64,
        package: &str,
        class_stack: &[String],
        symbols: &mut Vec<Symbol>,
    )
        requires
            fits(node.model(), source@),
        ensures
            symbol_views(final(symbols)@) == symbol_views(old(symbols)@) + interface_symbols(
                node.model(),
                source@,
                file_id,
                package@,
                stack_view(class_stack@),
                node.idx(),
            ),
        decreases node.model().len() - node.idx(),
    {
        let ghost t = node.model();
        let ghost i = node.idx();
        let ghost start = symbol_views(symbols@);
        node.reveal_in_tree();
        proof {
            lemma_children_bounds(t, i);
            lemma_first_with_field_in(t, children_of(t, i), "name"@);
            lemma_first_with_field_in(t, children_of(t, i), "body"@);
        }
        let name_node = match node.child_by_field_name("name") {
            Some(n) => n,
            None => {
                assert(symbol_views(symbols@) =~= start + Seq::<SymbolView>::empty());
                return ;
            },
        };
        assert(node_fits(t[name_node.idx()], source@));
        let iface_name = node_text(name_node, source).to_owned();
        let new_stack = pushed_stack(class_stack, iface_name);
        let body = match node.child_by_field_name("body") {
            Some(b) => b,
            None => {
                assert(symbol_views(symbols@) =~= start + Seq::<SymbolView>::empty());
                return ;
            },
        };
        let ghost b = body.idx();
        let ghost st = stack_view(new_stack@);
        proof {
            lemma_children_bounds(t, b);
        }
        let cs = body.children();
        let ghost all = children_of(t, b);
        let mut k: usize = 0;
        assert(all.skip(0) =~= all);
        while k < cs.len()
            invariant
                t == node.model(),
                i == node.idx(),
                i < b < t.len(),
                st == stack_view(new_stack@),
                fits(t, source@),
                all == children_of(t, b),
                cs@.len() == all.len(),
                forall|m: int|
                    0 <= m < cs@.len() ==> (#[trigger] cs@[m]).model() == t && cs@[m].idx() == all[m],
                forall|m: int| 0 <= m < all.len() ==> b < #[trigger] all[m] < t.len(),
                k <= cs@.len(),
                symbol_views(symbols@) + interface_members(t, source@, file_id, package@, st, b, all.skip(k as int))
                    == start + interface_members(t, source@, file_id, package@, st, b, all),
            decreases cs.len() - k,
        {
            let child = cs[k];
            let ghost c = child.idx();
            let ghost before = symbol_views(symbols@);
            let ghost rest = interface_members(t, source@, file_id, package@, st, b, all.skip(k + 1));
            assert(all.skip(k as int)[0] == c);
            assert(all.skip(k as int).drop_first() =~= all.skip(k + 1));
            if child.kind_is("method_declaration") {
                let has_body = child.child_by_field_name("body").is_some();
                let kind = if has_body {
                    SymbolKind::Method
                } else {
                    SymbolKind::TraitMethodDecl
                };
                if let Some(sym) = declared_symbol_at(child, source, file_id, package, new_stack.as_slice(), kind) {
                    symbols.push(sym);
                    assert(symbol_views(symbols@) =~= before.push(sym@));
                }
            } else if child.kind_is("class_declaration") || child.kind_is("enum_declaration") {
                self.extract_class(child, source, file_id, package, new_stack.as_slice(), symbols);
            } else if child.kind_is("interface_declaration") {
                self.extract_interface(child, source, file_id, package, new_stack.as_slice(), symbols);
            }
            assert(symbol_views(symbols@) + rest =~= before + interface_members(
                t,
                source@,
                file_id,
                package@,
                st,
                b,
                all.skip(k as int),
            ));
            k += 1;
        }
        assert(all.skip(cs@.len() as int) =~= Seq::<int>::empty());
    }
}

} // verus!
