//! The Markdown syntax tree shared by the Typst and GitBook renderers, and
//! its mathematical model.
use vstd::prelude::*;

verus! {

/// Inline content of a paragraph, heading, cell or label.
#[derive(Debug, PartialEq, Eq)]
pub enum Inline {
    Text(String),
    Strong(Vec<Inline>),
    Emphasis(Vec<Inline>),
    Strike(Vec<Inline>),
    Code(String),
    Term(Vec<Inline>),
    Link { target: String, content: Vec<Inline> },
    Break,
}

/// One item of a bullet or ordered list.
#[derive(Debug, PartialEq, Eq)]
pub struct ListItem {
    pub blocks: Vec<Block>,
}

/// A block of the Markdown dialect the book uses.
#[derive(Debug, PartialEq, Eq)]
pub enum Block {
    Heading { level: usize, content: Vec<Inline> },
    Paragraph(Vec<Inline>),
    Code { language: String, source: String },
    BulletList(Vec<ListItem>),
    OrderedList { start: u64, items: Vec<ListItem> },
    Quote(Vec<Block>),
    Card(Vec<Block>),
    CardLabel(Vec<Inline>),
    Table { header: Vec<Vec<Inline>>, rows: Vec<Vec<Vec<Inline>>> },
    Image { alt: String, path: String, caption: Option<String> },
    Rule,
}

/// The model of [`Inline`].
pub enum InlineM {
    Text(Seq<char>),
    Strong(Seq<InlineM>),
    Emphasis(Seq<InlineM>),
    Strike(Seq<InlineM>),
    Code(Seq<char>),
    Term(Seq<InlineM>),
    Link { target: Seq<char>, content: Seq<InlineM> },
    Break,
}

/// The model of [`Block`]; a list item is the sequence of its blocks.
pub enum BlockM {
    Heading { level: nat, content: Seq<InlineM> },
    Paragraph(Seq<InlineM>),
    Code { language: Seq<char>, source: Seq<char> },
    BulletList(Seq<Seq<BlockM>>),
    OrderedList { start: nat, items: Seq<Seq<BlockM>> },
    Quote(Seq<BlockM>),
    Card(Seq<BlockM>),
    CardLabel(Seq<InlineM>),
    Table { header: Seq<Seq<InlineM>>, rows: Seq<Seq<Seq<InlineM>>> },
    Image { alt: Seq<char>, path: Seq<char>, caption: Option<Seq<char>> },
    Rule,
}

pub open spec fn inline_model(x: Inline) -> InlineM
    decreases x,
{
    match x {
        Inline::Text(s) => InlineM::Text(s@),
        Inline::Strong(c) => InlineM::Strong(inlines_model(c@)),
        Inline::Emphasis(c) => InlineM::Emphasis(inlines_model(c@)),
        Inline::Strike(c) => InlineM::Strike(inlines_model(c@)),
        Inline::Code(s) => InlineM::Code(s@),
        Inline::Term(c) => InlineM::Term(inlines_model(c@)),
        Inline::Link { target, content } => InlineM::Link {
            target: target@,
            content: inlines_model(content@),
        },
        Inline::Break => InlineM::Break,
    }
}

pub open spec fn inlines_model(v: Seq<Inline>) -> Seq<InlineM>
    decreases v,
{
    if v.len() == 0 {
        seq![]
    } else {
        inlines_model(v.drop_last()).push(inline_model(v.last()))
    }
}

} // verus!

verus! {

pub proof fn lemma_inlines_model_push(v: Seq<Inline>, x: Inline)
    ensures
        inlines_model(v.push(x)) == inlines_model(v).push(inline_model(x)),
{
    assert(v.push(x).drop_last() =~= v);
}

pub proof fn lemma_inlines_model_len(v: Seq<Inline>)
    ensures
        inlines_model(v).len() == v.len(),
    decreases v.len(),
{
    if v.len() > 0 {
        lemma_inlines_model_len(v.drop_last());
    }
}

pub proof fn lemma_inlines_model_index(v: Seq<Inline>, i: int)
    requires
        0 <= i < v.len(),
    ensures
        inlines_model(v)[i] == inline_model(v[i]),
        inlines_model(v).len() == v.len(),
    decreases v.len(),
{
    lemma_inlines_model_len(v);
    if i < v.len() - 1 {
        lemma_inlines_model_index(v.drop_last(), i);
    }
}

} // verus!

verus! {

/// Kind of a list marker.
#[derive(Clone, Copy, Debug, PartialEq, Eq, Structural)]
pub enum ListKind {
    Bullet,
    Ordered,
}

/// A list marker line: its indentation, kind, first number and the text after it.
pub struct ListMarker {
    pub indent: usize,
    pub kind: ListKind,
    pub start: u64,
    pub content: Vec<char>,
}

/// The model of a list marker.
pub struct ListMarkerM {
    pub indent: nat,
    pub kind: ListKind,
    pub start: nat,
    pub content: Seq<char>,
}

pub open spec fn marker_model(m: ListMarker) -> ListMarkerM {
    ListMarkerM { indent: m.indent as nat, kind: m.kind, start: m.start as nat, content: m.content@ }
}

pub open spec fn block_model(b: Block) -> BlockM
    decreases b,
{
    match b {
        Block::Heading { level, content } => BlockM::Heading {
            level: level as nat,
            content: inlines_model(content@),
        },
        Block::Paragraph(c) => BlockM::Paragraph(inlines_model(c@)),
        Block::Code { language, source } => BlockM::Code { language: language@, source: source@ },
        Block::BulletList(items) => BlockM::BulletList(items_model(items@)),
        Block::OrderedList { start, items } => BlockM::OrderedList {
            start: start as nat,
            items: items_model(items@),
        },
        Block::Quote(c) => BlockM::Quote(blocks_model(c@)),
        Block::Card(c) => BlockM::Card(blocks_model(c@)),
        Block::CardLabel(c) => BlockM::CardLabel(inlines_model(c@)),
        Block::Table { header, rows } => BlockM::Table {
            header: cells_model(header@),
            rows: rows_model(rows@),
        },
        Block::Image { alt, path, caption } => BlockM::Image {
            alt: alt@,
            path: path@,
            caption: match caption {
                Some(c) => Some(c@),
                None => None,
            },
        },
        Block::Rule => BlockM::Rule,
    }
}

pub open spec fn blocks_model(v: Seq<Block>) -> Seq<BlockM>
    decreases v,
{
    if v.len() == 0 {
        seq![]
    } else {
        blocks_model(v.drop_last()).push(block_model(v.last()))
    }
}

pub open spec fn items_model(v: Seq<ListItem>) -> Seq<Seq<BlockM>>
    decreases v,
{
    if v.len() == 0 {
        seq![]
    } else {
        items_model(v.drop_last()).push(blocks_model(v.last().blocks@))
    }
}

pub open spec fn cells_model(v: Seq<Vec<Inline>>) -> Seq<Seq<InlineM>>
    decreases v,
{
    if v.len() == 0 {
        seq![]
    } else {
        cells_model(v.drop_last()).push(inlines_model(v.last()@))
    }
}

pub open spec fn rows_model(v: Seq<Vec<Vec<Inline>>>) -> Seq<Seq<Seq<InlineM>>>
    decreases v,
{
    if v.len() == 0 {
        seq![]
    } else {
        rows_model(v.drop_last()).push(cells_model(v.last()@))
    }
}

pub proof fn lemma_blocks_model_push(v: Seq<Block>, x: Block)
    ensures
        blocks_model(v.push(x)) == blocks_model(v).push(block_model(x)),
{
    assert(v.push(x).drop_last() =~= v);
}

pub proof fn lemma_items_model_push(v: Seq<ListItem>, x: ListItem)
    ensures
        items_model(v.push(x)) == items_model(v).push(blocks_model(x.blocks@)),
{
    assert(v.push(x).drop_last() =~= v);
}

pub proof fn lemma_cells_model_push(v: Seq<Vec<Inline>>, x: Vec<Inline>)
    ensures
        cells_model(v.push(x)) == cells_model(v).push(inlines_model(x@)),
{
    assert(v.push(x).drop_last() =~= v);
}

pub proof fn lemma_rows_model_push(v: Seq<Vec<Vec<Inline>>>, x: Vec<Vec<Inline>>)
    ensures
        rows_model(v.push(x)) == rows_model(v).push(cells_model(x@)),
{
    assert(v.push(x).drop_last() =~= v);
}

pub proof fn lemma_blocks_model_len(v: Seq<Block>)
    ensures
        blocks_model(v).len() == v.len(),
    decreases v.len(),
{
    if v.len() > 0 {
        lemma_blocks_model_len(v.drop_last());
    }
}

pub proof fn lemma_blocks_model_index(v: Seq<Block>, i: int)
    requires
        0 <= i < v.len(),
    ensures
        blocks_model(v)[i] == block_model(v[i]),
        blocks_model(v).len() == v.len(),
    decreases v.len(),
{
    lemma_blocks_model_len(v);
    if i < v.len() - 1 {
        lemma_blocks_model_index(v.drop_last(), i);
    }
}

pub proof fn lemma_cells_model_len(v: Seq<Vec<Inline>>)
    ensures
        cells_model(v).len() == v.len(),
    decreases v.len(),
{
    if v.len() > 0 {
        lemma_cells_model_len(v.drop_last());
    }
}

pub proof fn lemma_cells_model_index(v: Seq<Vec<Inline>>, i: int)
    requires
        0 <= i < v.len(),
    ensures
        cells_model(v)[i] == inlines_model(v[i]@),
        cells_model(v).len() == v.len(),
    decreases v.len(),
{
    lemma_cells_model_len(v);
    if i < v.len() - 1 {
        lemma_cells_model_index(v.drop_last(), i);
    }
}

pub proof fn lemma_rows_model_len(v: Seq<Vec<Vec<Inline>>>)
    ensures
        rows_model(v).len() == v.len(),
    decreases v.len(),
{
    if v.len() > 0 {
        lemma_rows_model_len(v.drop_last());
    }
}

pub proof fn lemma_rows_model_index(v: Seq<Vec<Vec<Inline>>>, i: int)
    requires
        0 <= i < v.len(),
    ensures
        rows_model(v)[i] == cells_model(v[i]@),
        rows_model(v).len() == v.len(),
    decreases v.len(),
{
    lemma_rows_model_len(v);
    if i < v.len() - 1 {
        lemma_rows_model_index(v.drop_last(), i);
    }
}

pub proof fn lemma_items_model_len(v: Seq<ListItem>)
    ensures
        items_model(v).len() == v.len(),
    decreases v.len(),
{
    if v.len() > 0 {
        lemma_items_model_len(v.drop_last());
    }
}

pub proof fn lemma_items_model_index(v: Seq<ListItem>, i: int)
    requires
        0 <= i < v.len(),
    ensures
        items_model(v)[i] == blocks_model(v[i].blocks@),
        items_model(v).len() == v.len(),
    decreases v.len(),
{
    lemma_items_model_len(v);
    if i < v.len() - 1 {
        lemma_items_model_index(v.drop_last(), i);
    }
}

} // verus!
