//! Syntax trees: what the extractors read of a parsed source file.
//!
//! A parse is listed row by row, a node before its children, each row with
//! its depth; the tree is grown from that listing.

use vstd::prelude::*;
use crate::lookup::{lemma_take_next, put};

verus! {

/// The grammars that source files are parsed with.
#[derive(Clone, Copy, Debug, PartialEq, Eq, Structural)]
pub enum Grammar {
    Rust,
    TypeScript,
    Tsx,
    Python,
    Go,
    Java,
    C,
    Cpp,
}

/// One node of a parse: its depth below the root, its kind, the field of its
/// parent that it fills, and where it stands in the source.
#[derive(Clone, Debug)]
pub struct SyntaxRow {
    pub depth: u32,
    pub kind: String,
    pub field: Option<String>,
    pub start_byte: usize,
    pub end_byte: usize,
    pub start_row: u32,
    pub end_row: u32,
}

pub struct Row {
    pub depth: nat,
    pub kind: Seq<char>,
    pub field: Option<Seq<char>>,
    pub start_byte: nat,
    pub end_byte: nat,
    pub start_row: nat,
    pub end_row: nat,
}

impl DeepView for SyntaxRow {
    type V = Row;

    open spec fn deep_view(&self) -> Row {
        Row {
            depth: self.depth as nat,
            kind: self.kind@,
            field: self.field.deep_view(),
            start_byte: self.start_byte as nat,
            end_byte: self.end_byte as nat,
            start_row: self.start_row as nat,
            end_row: self.end_row as nat,
        }
    }
}

#[verifier::external_type_specification]
#[verifier::external_body]
pub struct ExTree(tree_sitter::Tree);

/// The nodes of a parse, each before its children and its later siblings.
pub uninterp spec fn tree_rows(tree: tree_sitter::Tree) -> Seq<Row>;

/// Why a source text has no parse.
#[derive(Clone, Copy, Debug, PartialEq, Eq, Structural)]
pub enum ParseFault {
    /// The parser cannot work with the grammar.
    Language,
    /// The parser made nothing of the text.
    Text,
}

/// What a grammar's parser makes of a source text, if it makes anything.
pub uninterp spec fn parsed(source: Seq<char>, grammar: Grammar) -> Result<Seq<Row>, ParseFault>;

/// `tree_sitter::Parser::parse`, after `set_language` with the grammar's
/// language: a parse without an old tree, cancellation or time limit depends
/// on the text and the language alone. A parse has at least its root.
#[verifier::external_body]
fn parse_text(source: &str, grammar: Grammar) -> (r: Result<tree_sitter::Tree, ParseFault>)
    ensures
        match r {
            Ok(tree) => parsed(source@, grammar) == Ok::<_, ParseFault>(tree_rows(tree)) && tree_rows(tree).len() > 0,
            Err(fault) => parsed(source@, grammar) == Err::<Seq<Row>, _>(fault),
        },
{
    let mut parser = tree_sitter::Parser::new();
    let language: tree_sitter::Language = match grammar {
        Grammar::Rust => tree_sitter_rust::LANGUAGE.into(),
        Grammar::TypeScript => tree_sitter_typescript::LANGUAGE_TYPESCRIPT.into(),
        Grammar::Tsx => tree_sitter_typescript::LANGUAGE_TSX.into(),
        Grammar::Python => tree_sitter_python::LANGUAGE.into(),
        Grammar::Go => tree_sitter_go::LANGUAGE.into(),
        Grammar::Java => tree_sitter_java::LANGUAGE.into(),
        Grammar::C => tree_sitter_c::LANGUAGE.into(),
        Grammar::Cpp => tree_sitter_cpp::LANGUAGE.into(),
    };
    parser.set_language(&language).map_err(|_| ParseFault::Language)?;
    parser.parse(source, None).ok_or(ParseFault::Text)
}

/// `tree_sitter::Node::descendant_count` of the root: how many nodes the
/// parse has, the root with them.
#[verifier::external_body]
fn count_rows(tree: &tree_sitter::Tree) -> (r: usize)
    ensures
        r == tree_rows(*tree).len(),
{
    tree.root_node().descendant_count()
}

/// `tree_sitter::TreeCursor::goto_descendant`: the node with that number,
/// counted from the root, a node before its children; its depth and field
/// name as the cursor tells them, the rest as the node does. Rows are counted
/// in thirty-two bits there.
#[verifier::external_body]
fn read_row(tree: &tree_sitter::Tree, i: usize) -> (r: SyntaxRow)
    requires
        i < tree_rows(*tree).len(),
    ensures
        r.deep_view() == tree_rows(*tree)[i as int],
{
    let mut cursor = tree.walk();
    cursor.goto_descendant(i);
    let node = cursor.node();
    SyntaxRow {
        depth: cursor.depth(),
        kind: node.kind().to_string(),
        field: cursor.field_name().map(|f| f.to_string()),
        start_byte: node.start_byte(),
        end_byte: node.end_byte(),
        start_row: node.start_position().row as u32,
        end_row: node.end_position().row as u32,
    }
}

/// A node of a syntax tree.
pub struct SyntaxNode {
    pub kind: String,
    pub field: Option<String>,
    pub start_byte: usize,
    pub end_byte: usize,
    pub start_row: u32,
    pub end_row: u32,
    pub children: Vec<SyntaxNode>,
}

/// A node of a syntax tree, as a value.
pub struct Shape {
    pub kind: Seq<char>,
    pub field: Option<Seq<char>>,
    pub start_byte: nat,
    pub end_byte: nat,
    pub start_row: nat,
    pub end_row: nat,
    pub children: Seq<Shape>,
}

/// The value of a node.
pub open spec fn shape(n: SyntaxNode) -> Shape
    decreases n,
{
    Shape {
        kind: n.kind@,
        field: n.field.deep_view(),
        start_byte: n.start_byte as nat,
        end_byte: n.end_byte as nat,
        start_row: n.start_row as nat,
        end_row: n.end_row as nat,
        children: shapes(n.children@),
    }
}

/// The values of some nodes.
pub open spec fn shapes(s: Seq<SyntaxNode>) -> Seq<Shape>
    decreases s,
{
    if s.len() == 0 {
        Seq::empty()
    } else {
        shapes(s.drop_last()).push(shape(s.last()))
    }
}

/// The values of nodes stand at the nodes' places.
pub proof fn lemma_shapes(s: Seq<SyntaxNode>)
    ensures
        shapes(s).len() == s.len(),
        forall|i: int| 0 <= i < s.len() ==> #[trigger] shapes(s)[i] == shape(s[i]),
    decreases s.len(),
{
    if s.len() > 0 {
        lemma_shapes(s.drop_last());
    }
}

/// The place of the first row, from `j` on and before `end`, that is no
/// deeper than `depth`; `end` if there is none.
pub open spec fn past(rows: Seq<Row>, depth: nat, j: int, end: int) -> int
    decreases end - j,
{
    if j >= end || rows[j].depth <= depth {
        j
    } else {
        past(rows, depth, j + 1, end)
    }
}

proof fn lemma_past(rows: Seq<Row>, depth: nat, j: int, end: int)
    requires
        j <= end,
    ensures
        j <= past(rows, depth, j, end) <= end,
    decreases end - j,
{
    if j < end && rows[j].depth > depth {
        lemma_past(rows, depth, j + 1, end);
    }
}

/// The node of a row with some children.
pub open spec fn grown(row: Row, children: Seq<Shape>) -> Shape {
    Shape {
        kind: row.kind,
        field: row.field,
        start_byte: row.start_byte,
        end_byte: row.end_byte,
        start_row: row.start_row,
        end_row: row.end_row,
        children,
    }
}

/// The trees that the rows from `from` up to `end` list: every row is
/// followed by its descendants, which are the deeper rows.
pub open spec fn forest(rows: Seq<Row>, from: int, end: int) -> Seq<Shape>
    decreases end - from,
{
    if from >= end {
        Seq::empty()
    } else {
        let mid = past(rows, rows[from].depth, from + 1, end);
        if from < mid <= end {
            seq![grown(rows[from], forest(rows, from + 1, mid))] + forest(rows, mid, end)
        } else {
            Seq::empty()
        }
    }
}

/// The tree that rows list.
pub open spec fn tree_of(rows: Seq<Row>) -> Shape {
    forest(rows, 0, rows.len() as int)[0]
}

fn find_past(rows: &Vec<SyntaxRow>, depth: u32, from: usize, end: usize) -> (r: usize)
    requires
        from <= end <= rows@.len(),
    ensures
        r == past(rows.deep_view(), depth as nat, from as int, end as int),
        from <= r <= end,
{
    let mut j: usize = from;
    while j < end && rows[j].depth > depth
        invariant
            from <= j <= end <= rows@.len(),
            past(rows.deep_view(), depth as nat, from as int, end as int) == past(
                rows.deep_view(),
                depth as nat,
                j as int,
                end as int,
            ),
        decreases end - j,
    {
        assert(rows.deep_view()[j as int] == rows@[j as int].deep_view());
        j = j + 1;
    }
    if j < end {
        assert(rows.deep_view()[j as int] == rows@[j as int].deep_view());
    }
    j
}

fn copy_field(f: &Option<String>) -> (r: Option<String>)
    ensures
        r.deep_view() == f.deep_view(),
{
    match f {
        Some(t) => Some(t.as_str().to_owned()),
        None => None,
    }
}

/// Grows the trees that some rows list.
fn grow(rows: &Vec<SyntaxRow>, from: usize, end: usize) -> (r: Vec<SyntaxNode>)
    requires
        from <= end <= rows@.len(),
    ensures
        shapes(r@) == forest(rows.deep_view(), from as int, end as int),
    decreases end - from,
{
    let ghost all = rows.deep_view();
    let mut out: Vec<SyntaxNode> = Vec::new();
    let mut at: usize = from;
    while at < end
        invariant
            from <= at <= end <= rows@.len(),
            all == rows.deep_view(),
            forest(all, from as int, end as int) == shapes(out@) + forest(all, at as int, end as int),
        decreases end - at,
    {
        let row = &rows[at];
        assert(all[at as int] == row.deep_view());
        let mid = find_past(rows, row.depth, at + 1, end);
        let node = SyntaxNode {
            kind: row.kind.as_str().to_owned(),
            field: copy_field(&row.field),
            start_byte: row.start_byte,
            end_byte: row.end_byte,
            start_row: row.start_row,
            end_row: row.end_row,
            children: grow(rows, at + 1, mid),
        };
        let ghost before = out@;
        out.push(node);
        proof {
            assert(out@.drop_last() =~= before);
            assert(shapes(out@) == shapes(before).push(shape(node)));
            assert(shape(node) == grown(all[at as int], forest(all, at + 1, mid as int)));
            assert(shapes(out@) + forest(all, mid as int, end as int) =~= shapes(before) + (seq![shape(node)]
                + forest(all, mid as int, end as int)));
        }
        at = mid;
    }
    assert(shapes(out@) + forest(all, at as int, end as int) =~= shapes(out@));
    out
}

fn read_rows(tree: &tree_sitter::Tree) -> (r: Vec<SyntaxRow>)
    ensures
        r.deep_view() == tree_rows(*tree),
{
    let n = count_rows(tree);
    let ghost want = tree_rows(*tree);
    let mut out: Vec<SyntaxRow> = Vec::new();
    let mut i: usize = 0;
    assert(out.deep_view() =~= want.take(0));
    while i < n
        invariant
            i <= n == want.len(),
            want == tree_rows(*tree),
            out.deep_view() == want.take(i as int),
        decreases n - i,
    {
        proof {
            lemma_take_next(want, i as int);
        }
        put(&mut out, read_row(tree, i));
        i = i + 1;
    }
    assert(want.take(n as int) =~= want);
    out
}

/// The syntax tree of a source text, if its parser makes one.
pub fn syntax_tree(source: &str, grammar: Grammar) -> (r: Result<SyntaxNode, ParseFault>)
    ensures
        match r {
            Ok(node) => parsed(source@, grammar) is Ok && shape(node) == tree_of(parsed(source@, grammar)->Ok_0),
            Err(fault) => parsed(source@, grammar) == Err::<Seq<Row>, _>(fault),
        },
{
    match parse_text(source, grammar) {
        Err(fault) => Err(fault),
        Ok(tree) => {
            let rows = read_rows(&tree);
            assert(rows.deep_view().len() == rows@.len());
            let mut trees = grow(&rows, 0, rows.len());
            proof {
                let all = rows.deep_view();
                lemma_past(all, all[0].depth, 1, all.len() as int);
                lemma_shapes(trees@);
            }
            Ok(trees.swap_remove(0))
        },
    }
}

} // verus!
