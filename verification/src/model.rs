//! The records that outline extraction produces: symbols, imports and
//! call-site references, each with a view of plain mathematical values.

use vstd::prelude::*;

verus! {

/// What a symbol is.
#[derive(Debug, Clone, Copy, PartialEq, Eq, Structural)]
pub enum SymbolKind {
    Function,
    Method,
    ClassMethod,
    TraitMethod,
    TraitMethodDecl,
}

/// Who may see a symbol.
#[derive(Debug, Clone, Copy, PartialEq, Eq, Structural)]
pub enum Visibility {
    Public,
    PubCrate,
    Private,
}

/// What a reference does.
#[derive(Debug, Clone, Copy, PartialEq, Eq, Structural)]
pub enum RefKind {
    Call,
}

/// A span of source, in 1-based lines and columns.
#[derive(Debug, Clone, Copy, PartialEq, Eq, Structural)]
pub struct SourceRange {
    pub start_line: u32,
    pub start_col: u32,
    pub end_line: u32,
    pub end_col: u32,
}

/// A callable declaration found in a source file.
#[derive(Debug, Clone)]
pub struct Symbol {
    pub id: i64,
    pub file_id: i64,
    pub name: String,
    pub qualified_name: String,
    pub kind: SymbolKind,
    pub range: SourceRange,
    pub signature: Option<String>,
    pub visibility: Visibility,
}

/// The view of a [`Symbol`]: its strings as character sequences.
pub struct SymbolView {
    pub id: i64,
    pub file_id: i64,
    pub name: Seq<char>,
    pub qualified_name: Seq<char>,
    pub kind: SymbolKind,
    pub range: SourceRange,
    pub signature: Option<Seq<char>>,
    pub visibility: Visibility,
}

impl View for Symbol {
    type V = SymbolView;

    open spec fn view(&self) -> SymbolView {
        SymbolView {
            id: self.id,
            file_id: self.file_id,
            name: self.name@,
            qualified_name: self.qualified_name@,
            kind: self.kind,
            range: self.range,
            signature: match self.signature {
                Some(s) => Some(s@),
                None => None,
            },
            visibility: self.visibility,
        }
    }
}

impl Symbol {
    /// The symbol's range covers the 1-based line `line`.
    pub open spec fn spec_contains_line(&self, line: u32) -> bool {
        self.range.start_line <= line <= self.range.end_line
    }

    /// The symbol's range covers the 1-based line `line`.
    #[verifier::when_used_as_spec(spec_contains_line)]
    pub fn contains_line(&self, line: u32) -> (r: bool)
        ensures
            r == self.spec_contains_line(line),
    {
        self.range.start_line <= line && line <= self.range.end_line
    }
}

/// The views of a sequence of symbols.
pub open spec fn symbol_views(s: Seq<Symbol>) -> Seq<SymbolView> {
    s.map_values(|x: Symbol| x@)
}

/// A named import of a source file.
#[derive(Debug, Clone)]
pub struct Import {
    pub id: i64,
    pub file_id: i64,
    pub local_name: String,
    pub qualified_target: String,
    pub alias: Option<String>,
    pub start_line: u32,
    pub start_col: u32,
}

/// The view of an [`Import`].
pub struct ImportView {
    pub id: i64,
    pub file_id: i64,
    pub local_name: Seq<char>,
    pub qualified_target: Seq<char>,
    pub alias: Option<Seq<char>>,
    pub start_line: u32,
    pub start_col: u32,
}

impl View for Import {
    type V = ImportView;

    open spec fn view(&self) -> ImportView {
        ImportView {
            id: self.id,
            file_id: self.file_id,
            local_name: self.local_name@,
            qualified_target: self.qualified_target@,
            alias: match self.alias {
                Some(s) => Some(s@),
                None => None,
            },
            start_line: self.start_line,
            start_col: self.start_col,
        }
    }
}

/// The views of a sequence of imports.
pub open spec fn import_views(s: Seq<Import>) -> Seq<ImportView> {
    s.map_values(|x: Import| x@)
}

/// A reference from a source site, such as a call, not yet resolved to its target.
#[derive(Debug, Clone)]
pub struct Reference {
    pub id: i64,
    pub target_symbol_id: i64,
    pub source_file_id: i64,
    pub source_symbol_id: Option<i64>,
    pub kind: RefKind,
    pub start_line: u32,
    pub start_col: u32,
    pub end_line: u32,
    pub end_col: u32,
    pub text: String,
}

/// The view of a [`Reference`].
pub struct ReferenceView {
    pub id: i64,
    pub target_symbol_id: i64,
    pub source_file_id: i64,
    pub source_symbol_id: Option<i64>,
    pub kind: RefKind,
    pub start_line: u32,
    pub start_col: u32,
    pub end_line: u32,
    pub end_col: u32,
    pub text: Seq<char>,
}

impl View for Reference {
    type V = ReferenceView;

    open spec fn view(&self) -> ReferenceView {
        ReferenceView {
            id: self.id,
            target_symbol_id: self.target_symbol_id,
            source_file_id: self.source_file_id,
            source_symbol_id: self.source_symbol_id,
            kind: self.kind,
            start_line: self.start_line,
            start_col: self.start_col,
            end_line: self.end_line,
            end_col: self.end_col,
            text: self.text@,
        }
    }
}

/// The views of a sequence of references.
pub open spec fn reference_views(s: Seq<Reference>) -> Seq<ReferenceView> {
    s.map_values(|x: Reference| x@)
}

} // verus!
