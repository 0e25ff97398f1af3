//! What extraction makes of a source file: code nodes, edges between them,
//! and the context that collects both.

use vstd::prelude::*;
use crate::index::node_id::{generate_node_id, node_id};
use crate::index::source::{part_at, text_at};
use crate::index::extractors::{c_cpp, go, java, python, rust, typescript};
use crate::index::qualified_name::{assign, module_parts, module_path_of, qualified};
use crate::index::syntax::{parsed, shape, syntax_tree, tree_of, Grammar, ParseFault, Shape, SyntaxNode};
use crate::index::tier::IndexingTier;
use crate::lookup::put;
use crate::text::{chars_of, joined, same_text};

verus! {

// ---- metadata ---------------------------------------------------------------------

/// A value of a node's metadata.
#[derive(Clone, Debug)]
pub enum MetaValue {
    Flag(bool),
    Text(String),
    List(Vec<String>),
}

pub enum MetaView {
    Flag(bool),
    Text(Seq<char>),
    List(Seq<Seq<char>>),
}

impl DeepView for MetaValue {
    type V = MetaView;

    open spec fn deep_view(&self) -> MetaView {
        match self {
            MetaValue::Flag(b) => MetaView::Flag(*b),
            MetaValue::Text(t) => MetaView::Text(t@),
            MetaValue::List(v) => MetaView::List(v.deep_view()),
        }
    }
}

/// What is noted of a node beyond its name and place.
#[derive(Clone, Debug)]
pub struct Metadata {
    pub entries: Vec<(String, MetaValue)>,
}

pub type Meta = Seq<(Seq<char>, MetaView)>;

impl DeepView for Metadata {
    type V = Seq<(Seq<char>, MetaView)>;

    open spec fn deep_view(&self) -> Seq<(Seq<char>, MetaView)> {
        self.entries.deep_view()
    }
}

/// The value under a key: that of the first entry with the key.
pub open spec fn meta_value(meta: Meta, key: Seq<char>) -> Option<MetaView>
    decreases meta.len(),
{
    if meta.len() == 0 {
        None
    } else if meta[0].0 == key {
        Some(meta[0].1)
    } else {
        meta_value(meta.skip(1), key)
    }
}

/// Metadata with one more flag, where it holds.
pub open spec fn with_flag(meta: Meta, key: Seq<char>, holds: bool) -> Meta {
    if holds {
        meta.push((key, MetaView::Flag(true)))
    } else {
        meta
    }
}

/// Metadata with one more text, where there is one.
pub open spec fn with_text(meta: Meta, key: Seq<char>, text: Option<Seq<char>>) -> Meta {
    match text {
        Some(t) => meta.push((key, MetaView::Text(t))),
        None => meta,
    }
}

/// Metadata with one more list, unless it is empty.
pub open spec fn with_list(meta: Meta, key: Seq<char>, list: Seq<Seq<char>>) -> Meta {
    if list.len() > 0 {
        meta.push((key, MetaView::List(list)))
    } else {
        meta
    }
}

impl Metadata {
    pub fn new() -> (r: Self)
        ensures
            r.deep_view() == Meta::empty(),
    {
        let r = Metadata { entries: Vec::new() };
        assert(r.deep_view() =~= Meta::empty());
        r
    }

    /// Adds an entry.
    pub fn note(&mut self, key: &str, value: MetaValue)
        ensures
            final(self).deep_view() == old(self).deep_view().push((key@, value.deep_view())),
    {
        let entry = (key.to_owned(), value);
        assert(entry.deep_view() == (key@, value.deep_view()));
        put(&mut self.entries, entry);
    }

    /// Adds a flag where it holds.
    pub fn note_flag(&mut self, key: &str, holds: bool)
        ensures
            final(self).deep_view() == with_flag(old(self).deep_view(), key@, holds),
    {
        if holds {
            self.note(key, MetaValue::Flag(true));
        }
    }

    /// Adds a text where there is one.
    pub fn note_text(&mut self, key: &str, text: Option<&str>)
        ensures
            final(self).deep_view() == with_text(
                old(self).deep_view(),
                key@,
                match text {
                    Some(t) => Some(t@),
                    None => None,
                },
            ),
    {
        match text {
            Some(t) => self.note(key, MetaValue::Text(t.to_owned())),
            None => {},
        }
    }

    /// Adds a list unless it is empty.
    pub fn note_list(&mut self, key: &str, list: Vec<String>)
        ensures
            final(self).deep_view() == with_list(old(self).deep_view(), key@, list.deep_view()),
    {
        if list.len() > 0 {
            self.note(key, MetaValue::List(list));
        }
    }

    /// The value under a key.
    pub fn get(&self, key: &str) -> (r: Option<&MetaValue>)
        ensures
            match r {
                Some(v) => meta_value(self.deep_view(), key@) == Some(v.deep_view()),
                None => meta_value(self.deep_view(), key@) is None,
            },
    {
        let ghost all = self.deep_view();
        let mut i: usize = 0;
        assert(all.skip(0) =~= all);
        while i < self.entries.len()
            invariant
                i <= self.entries@.len(),
                all == self.deep_view(),
                meta_value(all, key@) == meta_value(all.skip(i as int), key@),
            decreases self.entries.len() - i,
        {
            let entry = &self.entries[i];
            assert(all[i as int] == (entry.0@, entry.1.deep_view()));
            assert(all.skip(i as int)[0] == all[i as int]);
            if same_text(entry.0.as_str(), key) {
                return Some(&entry.1);
            }
            assert(all.skip(i as int).skip(1) =~= all.skip(i + 1));
            i = i + 1;
        }
        None
    }
}

impl MetaValue {
    /// The text of a value, if it is one.
    pub fn as_str(&self) -> (r: Option<&str>)
        ensures
            match r {
                Some(t) => self.deep_view() == MetaView::Text(t@),
                None => !(self is Text),
            },
    {
        match self {
            MetaValue::Text(t) => Some(t.as_str()),
            _ => None,
        }
    }
}

// ---- nodes and edges --------------------------------------------------------------

/// A code entity extracted from source.
#[derive(Clone, Debug)]
pub struct CodeNode {
    pub id: String,
    pub name: String,
    pub node_type: String,
    pub language: String,
    pub start_line: Option<i64>,
    pub end_line: Option<i64>,
    pub content: Option<String>,
    pub metadata: Metadata,
    /// Module path, containment chain and name, joined by `::`. Empty until
    /// the whole file has been extracted.
    pub qualified_name: String,
}

pub struct CodeView {
    pub id: Seq<char>,
    pub name: Seq<char>,
    pub node_type: Seq<char>,
    pub language: Seq<char>,
    pub start_line: Option<i64>,
    pub end_line: Option<i64>,
    pub content: Option<Seq<char>>,
    pub metadata: Meta,
    pub qualified_name: Seq<char>,
}

impl DeepView for CodeNode {
    type V = CodeView;

    open spec fn deep_view(&self) -> CodeView {
        CodeView {
            id: self.id@,
            name: self.name@,
            node_type: self.node_type@,
            language: self.language@,
            start_line: self.start_line,
            end_line: self.end_line,
            content: self.content.deep_view(),
            metadata: self.metadata.deep_view(),
            qualified_name: self.qualified_name@,
        }
    }
}

/// A relationship between two code nodes.
#[derive(Clone, Debug)]
pub struct CodeEdge {
    pub from_id: String,
    /// The target's id; empty while the target is known by name only.
    pub to_id: String,
    pub to_name: Option<String>,
    pub to_type: Option<String>,
    pub edge_type: String,
    /// `EXTRACTED` where the source says it outright, `INFERRED` otherwise.
    pub confidence: String,
}

pub struct CodeEdgeView {
    pub from_id: Seq<char>,
    pub to_id: Seq<char>,
    pub to_name: Option<Seq<char>>,
    pub to_type: Option<Seq<char>>,
    pub edge_type: Seq<char>,
    pub confidence: Seq<char>,
}

impl DeepView for CodeEdge {
    type V = CodeEdgeView;

    open spec fn deep_view(&self) -> CodeEdgeView {
        CodeEdgeView {
            from_id: self.from_id@,
            to_id: self.to_id@,
            to_name: self.to_name.deep_view(),
            to_type: self.to_type.deep_view(),
            edge_type: self.edge_type@,
            confidence: self.confidence@,
        }
    }
}

// ---- what extraction collects ---------------------------------------------------------

/// What an extractor reads beside the tree.
pub struct Env {
    pub project: Seq<char>,
    pub file: Seq<char>,
    pub language: Seq<char>,
    pub source: Seq<char>,
    pub tier: IndexingTier,
}

/// What has been collected so far.
pub struct Out {
    pub nodes: Seq<CodeView>,
    pub edges: Seq<CodeEdgeView>,
}

/// The line of a row, counted from one in thirty-two bits.
pub open spec fn line(row: nat) -> u32 {
    if row < u32::MAX {
        (row + 1) as u32
    } else {
        0
    }
}

/// Is a text free of line breaks, as every name is?
pub open spec fn is_one_line(s: Seq<char>) -> bool {
    forall|i: int| 0 <= i < s.len() ==> #[trigger] s[i] != '\n' && s[i] != '\r'
}

impl Env {
    /// The id of a node of this file.
    pub open spec fn id(self, name: Seq<char>, node_type: Seq<char>, start: Option<u32>) -> Seq<char> {
        node_id(self.project, self.file, name, node_type, start)
    }

    /// The source text of a syntax node.
    pub open spec fn text(self, s: Shape) -> Seq<char> {
        text_at(self.source, s.start_byte, s.end_byte)
    }
}

pub open spec fn wide(l: Option<u32>) -> Option<i64> {
    match l {
        Some(n) => Some(n as i64),
        None => None,
    }
}

impl Out {
    /// With one more node, not yet qualified.
    pub open spec fn node(
        self,
        env: Env,
        name: Seq<char>,
        node_type: Seq<char>,
        start: Option<u32>,
        end: Option<u32>,
        content: Option<Seq<char>>,
        metadata: Meta,
    ) -> Out {
        Out {
            nodes: self.nodes.push(
                CodeView {
                    id: env.id(name, node_type, start),
                    name,
                    node_type,
                    language: env.language,
                    start_line: wide(start),
                    end_line: wide(end),
                    content,
                    metadata,
                    qualified_name: Seq::empty(),
                },
            ),
            edges: self.edges,
        }
    }

    /// With one more edge between nodes whose ids are known.
    pub open spec fn edge(
        self,
        from_id: Seq<char>,
        to_id: Seq<char>,
        edge_type: Seq<char>,
        confidence: Seq<char>,
    ) -> Out {
        Out {
            nodes: self.nodes,
            edges: self.edges.push(
                CodeEdgeView { from_id, to_id, to_name: None, to_type: None, edge_type, confidence },
            ),
        }
    }

    /// With an edge from an owner, where there is one.
    pub open spec fn owned(
        self,
        owner: Option<Seq<char>>,
        to_id: Seq<char>,
        edge_type: Seq<char>,
    ) -> Out {
        match owner {
            Some(from_id) => self.edge(from_id, to_id, edge_type, "EXTRACTED"@),
            None => self,
        }
    }

    /// With one more edge to a target that is known by name only; a name
    /// with a line break in it is none, and gives no edge.
    pub open spec fn name_edge(
        self,
        from_id: Seq<char>,
        to_name: Seq<char>,
        to_type: Seq<char>,
        edge_type: Seq<char>,
        confidence: Seq<char>,
    ) -> Out {
        if is_one_line(to_name) {
            Out {
                nodes: self.nodes,
                edges: self.edges.push(
                    CodeEdgeView {
                        from_id,
                        to_id: Seq::empty(),
                        to_name: Some(to_name),
                        to_type: Some(to_type),
                        edge_type,
                        confidence,
                    },
                ),
            }
        } else {
            self
        }
    }

    /// With a call edge, as every language records one.
    pub open spec fn call(self, from_id: Seq<char>, callee: Seq<char>) -> Out {
        self.name_edge(from_id, callee, "function"@, "calls"@, "INFERRED"@)
    }
}

/// Is a text free of line breaks?
pub fn on_one_line(s: &str) -> (r: bool)
    ensures
        r == is_one_line(s@),
{
    let v = chars_of(s);
    let mut i: usize = 0;
    while i < v.len()
        invariant
            v@ == s@,
            i <= v@.len(),
            forall|k: int| 0 <= k < i ==> #[trigger] s@[k] != '\n' && s@[k] != '\r',
        decreases v.len() - i,
    {
        if v[i] == '\n' || v[i] == '\r' {
            assert(s@[i as int] == '\n' || s@[i as int] == '\r');
            return false;
        }
        i = i + 1;
    }
    true
}

/// The line of a row.
pub fn line_of(row: u32) -> (r: u32)
    ensures
        r == line(row as nat),
{
    if row < u32::MAX {
        row + 1
    } else {
        0
    }
}

/// The context that an extractor works in.
pub struct ExtractionContext {
    pub project_id: String,
    pub file_path: String,
    pub language: String,
    pub source: String,
    pub tier: IndexingTier,
    pub nodes: Vec<CodeNode>,
    pub edges: Vec<CodeEdge>,
}

/// The view of an owner's id.
pub open spec fn id_of(owner: Option<&str>) -> Option<Seq<char>> {
    match owner {
        Some(id) => Some(id@),
        None => None,
    }
}

impl ExtractionContext {
    pub open spec fn env(&self) -> Env {
        Env {
            project: self.project_id@,
            file: self.file_path@,
            language: self.language@,
            source: self.source@,
            tier: self.tier,
        }
    }

    pub open spec fn out(&self) -> Out {
        Out { nodes: self.nodes.deep_view(), edges: self.edges.deep_view() }
    }

    /// Adds a node and returns its id.
    pub fn add_node(
        &mut self,
        name: &str,
        node_type: &str,
        start_line: Option<u32>,
        end_line: Option<u32>,
        content: Option<String>,
        metadata: Metadata,
    ) -> (id: String)
        ensures
            id@ == old(self).env().id(name@, node_type@, start_line),
            final(self).env() == old(self).env(),
            final(self).out() == old(self).out().node(
                old(self).env(),
                name@,
                node_type@,
                start_line,
                end_line,
                content.deep_view(),
                metadata.deep_view(),
            ),
    {
        let id = generate_node_id(
            self.project_id.as_str(),
            self.file_path.as_str(),
            name,
            node_type,
            start_line,
        );
        let start: Option<i64> = match start_line {
            Some(n) => Some(n as i64),
            None => None,
        };
        let end: Option<i64> = match end_line {
            Some(n) => Some(n as i64),
            None => None,
        };
        let node = CodeNode {
            id: id.as_str().to_owned(),
            name: name.to_owned(),
            node_type: node_type.to_owned(),
            language: self.language.as_str().to_owned(),
            start_line: start,
            end_line: end,
            content,
            metadata,
            qualified_name: String::new(),
        };
        assert(node.qualified_name@ =~= Seq::empty());
        put(&mut self.nodes, node);
        id
    }

    /// Adds an edge between two nodes whose ids are known.
    pub fn add_edge(&mut self, from_id: &str, to_id: &str, edge_type: &str, confidence: &str)
        ensures
            final(self).env() == old(self).env(),
            final(self).out() == old(self).out().edge(from_id@, to_id@, edge_type@, confidence@),
    {
        let edge = CodeEdge {
            from_id: from_id.to_owned(),
            to_id: to_id.to_owned(),
            to_name: None,
            to_type: None,
            edge_type: edge_type.to_owned(),
            confidence: confidence.to_owned(),
        };
        put(&mut self.edges, edge);
    }

    /// Adds an edge from an owner, where there is one.
    pub fn add_owned(&mut self, owner: Option<&str>, to_id: &str, edge_type: &str)
        ensures
            final(self).env() == old(self).env(),
            final(self).out() == old(self).out().owned(id_of(owner), to_id@, edge_type@),
    {
        match owner {
            Some(from_id) => self.add_edge(from_id, to_id, edge_type, "EXTRACTED"),
            None => {},
        }
    }

    /// Adds an edge to a target that is known by name only. A capture that
    /// spans lines is no name and is dropped.
    pub fn add_name_edge(
        &mut self,
        from_id: &str,
        to_name: &str,
        to_type: &str,
        edge_type: &str,
        confidence: &str,
    )
        ensures
            final(self).env() == old(self).env(),
            final(self).out() == old(self).out().name_edge(
                from_id@,
                to_name@,
                to_type@,
                edge_type@,
                confidence@,
            ),
    {
        if !on_one_line(to_name) {
            return;
        }
        let edge = CodeEdge {
            from_id: from_id.to_owned(),
            to_id: String::new(),
            to_name: Some(to_name.to_owned()),
            to_type: Some(to_type.to_owned()),
            edge_type: edge_type.to_owned(),
            confidence: confidence.to_owned(),
        };
        assert(edge.to_id@ =~= Seq::empty());
        put(&mut self.edges, edge);
    }

    /// Adds a call edge.
    pub fn add_call(&mut self, caller_id: &str, callee: &str)
        ensures
            final(self).env() == old(self).env(),
            final(self).out() == old(self).out().call(caller_id@, callee@),
    {
        self.add_name_edge(caller_id, callee, "function", "calls", "INFERRED");
    }

    /// The source text of a syntax node.
    pub fn node_text(&self, node: &SyntaxNode) -> (r: &str)
        ensures
            r@ == self.env().text(shape(*node)),
    {
        part_at(self.source.as_str(), node.start_byte, node.end_byte)
    }
}

// ---- source files ------------------------------------------------------------------------

/// What a source file holds.
#[derive(Debug)]
pub struct ParsedFile {
    pub language: String,
    pub nodes: Vec<CodeNode>,
    pub edges: Vec<CodeEdge>,
}

pub struct ParsedView {
    pub language: Seq<char>,
    pub nodes: Seq<CodeView>,
    pub edges: Seq<CodeEdgeView>,
}

impl DeepView for ParsedFile {
    type V = ParsedView;

    open spec fn deep_view(&self) -> ParsedView {
        ParsedView {
            language: self.language@,
            nodes: self.nodes.deep_view(),
            edges: self.edges.deep_view(),
        }
    }
}

/// Why a source file was not parsed.
#[derive(Clone, Debug)]
pub enum ParseError {
    /// No language has the file's extension.
    UnsupportedExtension(String),
    /// The language's grammar does not fit the parser.
    Language(String),
    /// The parser made nothing of the file.
    Text(String),
}

pub enum ParseErrorView {
    UnsupportedExtension(Seq<char>),
    Language(Seq<char>),
    Text(Seq<char>),
}

impl DeepView for ParseError {
    type V = ParseErrorView;

    open spec fn deep_view(&self) -> ParseErrorView {
        match self {
            ParseError::UnsupportedExtension(t) => ParseErrorView::UnsupportedExtension(t@),
            ParseError::Language(t) => ParseErrorView::Language(t@),
            ParseError::Text(t) => ParseErrorView::Text(t@),
        }
    }
}

impl ParseError {
    /// The error in words.
    pub fn message(&self) -> (r: String)
        ensures
            r@ == match self.deep_view() {
                ParseErrorView::UnsupportedExtension(t) => "unsupported extension: "@ + t,
                ParseErrorView::Language(t) => "failed to set language: "@ + t,
                ParseErrorView::Text(t) => "tree-sitter parse failed: "@ + t,
            },
    {
        let (what, which) = match self {
            ParseError::UnsupportedExtension(t) => ("unsupported extension: ", t),
            ParseError::Language(t) => ("failed to set language: ", t),
            ParseError::Text(t) => ("tree-sitter parse failed: ", t),
        };
        let mut r = what.to_owned();
        r.append(which.as_str());
        r
    }
}

/// The language of a file extension.
pub open spec fn language_of(ext: Seq<char>) -> Option<Seq<char>> {
    if ext == "rs"@ {
        Some("rust"@)
    } else if ext == "ts"@ || ext == "tsx"@ {
        Some("typescript"@)
    } else if ext == "js"@ || ext == "jsx"@ || ext == "mjs"@ || ext == "cjs"@ {
        Some("javascript"@)
    } else if ext == "py"@ || ext == "pyi"@ {
        Some("python"@)
    } else if ext == "go"@ {
        Some("go"@)
    } else if ext == "java"@ {
        Some("java"@)
    } else if ext == "c"@ || ext == "h"@ {
        Some("c"@)
    } else if ext == "cc"@ || ext == "cpp"@ || ext == "cxx"@ || ext == "hpp"@ || ext == "hxx"@ || ext == "hh"@ {
        Some("cpp"@)
    } else {
        None
    }
}

/// The language of a file extension.
pub fn extension_to_language(ext: &str) -> (r: Option<&'static str>)
    ensures
        match r {
            Some(language) => language_of(ext@) == Some(language@),
            None => language_of(ext@) is None,
        },
{
    if same_text(ext, "rs") {
        Some("rust")
    } else if same_text(ext, "ts") || same_text(ext, "tsx") {
        Some("typescript")
    } else if same_text(ext, "js") || same_text(ext, "jsx") || same_text(ext, "mjs") || same_text(ext, "cjs") {
        Some("javascript")
    } else if same_text(ext, "py") || same_text(ext, "pyi") {
        Some("python")
    } else if same_text(ext, "go") {
        Some("go")
    } else if same_text(ext, "java") {
        Some("java")
    } else if same_text(ext, "c") || same_text(ext, "h") {
        Some("c")
    } else if same_text(ext, "cc") || same_text(ext, "cpp") || same_text(ext, "cxx") || same_text(ext, "hpp")
        || same_text(ext, "hxx") || same_text(ext, "hh") {
        Some("cpp")
    } else {
        None
    }
}

/// The grammar for files with an extension. A file that can carry elements
/// between angle brackets is parsed with the grammar that knows them; without
/// it they would read as comparisons.
pub open spec fn grammar_of(ext: Seq<char>) -> Grammar {
    if ext == "tsx"@ || ext == "jsx"@ {
        Grammar::Tsx
    } else if ext == "rs"@ {
        Grammar::Rust
    } else if ext == "py"@ || ext == "pyi"@ {
        Grammar::Python
    } else if ext == "go"@ {
        Grammar::Go
    } else if ext == "java"@ {
        Grammar::Java
    } else if ext == "c"@ || ext == "h"@ {
        Grammar::C
    } else if language_of(ext) == Some("cpp"@) {
        Grammar::Cpp
    } else {
        Grammar::TypeScript
    }
}

/// The grammar for files with an extension that has a language.
pub fn grammar_for(ext: &str) -> (r: Grammar)
    ensures
        r == grammar_of(ext@),
{
    if same_text(ext, "tsx") || same_text(ext, "jsx") {
        Grammar::Tsx
    } else if same_text(ext, "rs") {
        Grammar::Rust
    } else if same_text(ext, "py") || same_text(ext, "pyi") {
        Grammar::Python
    } else if same_text(ext, "go") {
        Grammar::Go
    } else if same_text(ext, "java") {
        Grammar::Java
    } else if same_text(ext, "c") || same_text(ext, "h") {
        Grammar::C
    } else {
        match extension_to_language(ext) {
            Some(language) => if same_text(language, "cpp") {
                Grammar::Cpp
            } else {
                Grammar::TypeScript
            },
            None => Grammar::TypeScript,
        }
    }
}

/// What a language's extractor makes of a tree.
pub open spec fn extracted(env: Env, root: Shape) -> Out {
    let nothing = Out { nodes: Seq::empty(), edges: Seq::empty() };
    if env.language == "rust"@ {
        rust::items(env, root.children, None, nothing)
    } else if env.language == "typescript"@ || env.language == "javascript"@ {
        typescript::file(env, root, nothing)
    } else if env.language == "python"@ {
        python::node(env, root, None, nothing)
    } else if env.language == "go"@ {
        go::file(env, root, nothing)
    } else if env.language == "java"@ {
        java::node(env, root, None, nothing)
    } else if env.language == "c"@ || env.language == "cpp"@ {
        c_cpp::all_nodes(env, root.children, None, c_cpp::declaration(env, root, None, nothing))
    } else {
        nothing
    }
}

/// What a file holds: what its extractor makes of its tree, every node with
/// its qualified name.
pub open spec fn file_view(env: Env, root: Shape) -> ParsedView {
    let out = extracted(env, root);
    ParsedView {
        language: env.language,
        nodes: qualified(out.nodes, out.edges, joined(module_parts(env.file, env.language), "::"@)),
        edges: out.edges,
    }
}

/// Runs a language's extractor on a tree.
fn extract(ctx: &mut ExtractionContext, root: &SyntaxNode)
    requires
        old(ctx).out() == (Out { nodes: Seq::empty(), edges: Seq::empty() }),
    ensures
        final(ctx).env() == old(ctx).env(),
        final(ctx).out() == extracted(old(ctx).env(), shape(*root)),
{
    let language = ctx.language.as_str().to_owned();
    let name = language.as_str();
    if same_text(name, "rust") {
        rust::extract(ctx, root);
    } else if same_text(name, "typescript") || same_text(name, "javascript") {
        typescript::extract(ctx, root);
    } else if same_text(name, "python") {
        python::extract(ctx, root);
    } else if same_text(name, "go") {
        go::extract(ctx, root);
    } else if same_text(name, "java") {
        java::extract(ctx, root);
    } else if same_text(name, "c") || same_text(name, "cpp") {
        c_cpp::extract(ctx, root);
    }
}

/// What the file with a given syntax tree holds.
pub fn read_file(
    root: &SyntaxNode,
    source: &str,
    language: &str,
    rel_path: &str,
    project_id: &str,
    tier: IndexingTier,
) -> (r: ParsedFile)
    ensures
        r.deep_view() == file_view(
            (Env {
                project: project_id@,
                file: rel_path@,
                language: language@,
                source: source@,
                tier,
            }),
            shape(*root),
        ),
{
    let mut ctx = ExtractionContext {
        project_id: project_id.to_owned(),
        file_path: rel_path.to_owned(),
        language: language.to_owned(),
        source: source.to_owned(),
        tier,
        nodes: Vec::new(),
        edges: Vec::new(),
    };
    assert(ctx.nodes.deep_view() =~= Seq::empty());
    assert(ctx.edges.deep_view() =~= Seq::empty());
    extract(&mut ctx, root);
    let module = module_path_of(rel_path, language);
    let mut nodes = ctx.nodes;
    let edges = ctx.edges;
    assign(&mut nodes, &edges, module.as_str());
    ParsedFile { language: ctx.language, nodes, edges }
}

/// Parses a source file, given its extension and its text.
pub fn parse_file(
    ext: &str,
    source: &str,
    rel_path: &str,
    project_id: &str,
    tier: IndexingTier,
) -> (r: Result<ParsedFile, ParseError>)
    ensures
        match (language_of(ext@), r) {
            (None, Err(e)) => e.deep_view() == ParseErrorView::UnsupportedExtension(ext@),
            (None, Ok(_)) => false,
            (Some(language), _) => match (parsed(source@, grammar_of(ext@)), r) {
                (Ok(rows), Ok(file)) => file.deep_view() == file_view(
                    (Env { project: project_id@, file: rel_path@, language, source: source@, tier }),
                    tree_of(rows),
                ),
                (Err(ParseFault::Language), Err(e)) => e.deep_view() == ParseErrorView::Language(language),
                (Err(ParseFault::Text), Err(e)) => e.deep_view() == ParseErrorView::Text(rel_path@),
                _ => false,
            },
        },
{
    match extension_to_language(ext) {
        None => Err(ParseError::UnsupportedExtension(ext.to_owned())),
        Some(language) => match syntax_tree(source, grammar_for(ext)) {
            Ok(root) => Ok(read_file(&root, source, language, rel_path, project_id, tier)),
            Err(ParseFault::Language) => Err(ParseError::Language(language.to_owned())),
            Err(ParseFault::Text) => Err(ParseError::Text(rel_path.to_owned())),
        },
    }
}

} // verus!
