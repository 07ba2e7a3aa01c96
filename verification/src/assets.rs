//! What a chapter refers to outside itself (link targets and image paths),
//! and the registry that numbers the images copied into the output.
use vstd::prelude::*;

use crate::book::RenderError;
use crate::markdown::{
    Block, BlockM, Inline, InlineM, ListItem, block_model, blocks_model, cells_model,
    inline_model, inlines_model, items_model, lemma_blocks_model_index, lemma_blocks_model_len,
    lemma_cells_model_index, lemma_cells_model_len, lemma_inlines_model_index,
    lemma_inlines_model_len, lemma_items_model_index, lemma_items_model_len,
    lemma_rows_model_index, lemma_rows_model_len, rows_model,
};
use crate::text::{
    chars_of, copy_range, eq_chars, lemma_rfind_upto, push_all, push_str, rfind, rfind_exec, string_of, zero_padded,
    zero_padded_exec,
};

verus! {

/// A reference of a chapter: `(true, path)` for an image, `(false, target)`
/// for a link.
pub type RefM = (bool, Seq<char>);

pub open spec fn inl_refs(c: Seq<InlineM>) -> Seq<RefM>
    decreases c,
{
    if c.len() == 0 {
        seq![]
    } else {
        inl_refs(c.drop_last()) + inl_ref(c.last())
    }
}

pub open spec fn inl_ref(x: InlineM) -> Seq<RefM>
    decreases x,
{
    match x {
        InlineM::Strong(c) => inl_refs(c),
        InlineM::Emphasis(c) => inl_refs(c),
        InlineM::Strike(c) => inl_refs(c),
        InlineM::Term(c) => inl_refs(c),
        InlineM::Link { target, content } => inl_refs(content).push((false, target)),
        _ => seq![],
    }
}

pub open spec fn cells_refs(c: Seq<Seq<InlineM>>) -> Seq<RefM>
    decreases c.len(),
{
    if c.len() == 0 {
        seq![]
    } else {
        cells_refs(c.drop_last()) + inl_refs(c.last())
    }
}

pub open spec fn rows_refs(r: Seq<Seq<Seq<InlineM>>>) -> Seq<RefM>
    decreases r.len(),
{
    if r.len() == 0 {
        seq![]
    } else {
        rows_refs(r.drop_last()) + cells_refs(r.last())
    }
}

/// The references of blocks in the order the renderer meets them.
pub open spec fn blocks_refs(bs: Seq<BlockM>) -> Seq<RefM>
    decreases bs,
{
    if bs.len() == 0 {
        seq![]
    } else {
        blocks_refs(bs.drop_last()) + block_refs(bs.last())
    }
}

pub open spec fn items_refs(items: Seq<Seq<BlockM>>) -> Seq<RefM>
    decreases items,
{
    if items.len() == 0 {
        seq![]
    } else {
        items_refs(items.drop_last()) + blocks_refs(items.last())
    }
}

pub open spec fn block_refs(b: BlockM) -> Seq<RefM>
    decreases b,
{
    match b {
        BlockM::Heading { level, content } => inl_refs(content),
        BlockM::Paragraph(c) => inl_refs(c),
        BlockM::CardLabel(c) => inl_refs(c),
        BlockM::BulletList(items) => items_refs(items),
        BlockM::OrderedList { start, items } => items_refs(items),
        BlockM::Quote(c) => blocks_refs(c),
        BlockM::Card(c) => blocks_refs(c),
        BlockM::Table { header, rows } => cells_refs(header) + rows_refs(rows),
        BlockM::Image { alt, path, caption } => seq![(true, path)],
        _ => seq![],
    }
}

pub open spec fn refs_view(v: Seq<(bool, Vec<char>)>) -> Seq<RefM> {
    Seq::new(v.len(), |k: int| (v[k].0, v[k].1@))
}

fn append_refs(out: &mut Vec<(bool, Vec<char>)>, more: Vec<(bool, Vec<char>)>)
    ensures
        refs_view(final(out)@) == refs_view(old(out)@) + refs_view(more@),
{
    let ghost start = refs_view(out@);
    let mut more = more;
    let ghost mv = refs_view(more@);
    let mut k: usize = 0;
    let n = more.len();
    let mut rev: Vec<(bool, Vec<char>)> = Vec::new();
    while more.len() > 0
        invariant
            more@.len() + rev@.len() == n,
            n == mv.len(),
            forall|j: int| 0 <= j < more@.len() ==> (#[trigger] more@[j]).0 == mv[j].0 && more@[j].1@ == mv[j].1,
            forall|j: int| 0 <= j < rev@.len() ==> (#[trigger] rev@[j]).0 == mv[n - 1 - j].0 && rev@[j].1@ == mv[n - 1 - j].1,
        decreases more@.len(),
    {
        let x = more.pop().unwrap();
        rev.push(x);
    }
    while rev.len() > 0
        invariant
            rev@.len() <= n,
            n == mv.len(),
            forall|j: int| 0 <= j < rev@.len() ==> (#[trigger] rev@[j]).0 == mv[n - 1 - j].0 && rev@[j].1@ == mv[n - 1 - j].1,
            refs_view(out@) == start + mv.take(n - rev@.len()),
        decreases rev@.len(),
    {
        let ghost before = refs_view(out@);
        let ghost m = n - rev@.len();
        let x = rev.pop().unwrap();
        out.push(x);
        proof {
            assert(refs_view(out@) =~= before.push(mv[m]));
            assert(mv.take(m + 1) =~= mv.take(m).push(mv[m]));
        }
    }
    proof {
        assert(mv.take(n as int) =~= mv);
    }
}

/// The references of inline content.
pub fn inline_refs(content: &[Inline]) -> (r: Vec<(bool, Vec<char>)>)
    ensures
        refs_view(r@) == inl_refs(inlines_model(content@)),
    decreases content@,
{
    let ghost m = inlines_model(content@);
    let mut out: Vec<(bool, Vec<char>)> = Vec::new();
    let mut i: usize = 0;
    proof {
        lemma_inlines_model_len(content@);
        assert(refs_view(out@) =~= inl_refs(m.take(0)));
    }
    while i < content.len()
        invariant
            i <= content@.len(),
            m == inlines_model(content@),
            m.len() == content@.len(),
            refs_view(out@) == inl_refs(m.take(i as int)),
        decreases content@.len() - i,
    {
        proof {
            lemma_inlines_model_index(content@, i as int);
            assert(m.take(i + 1).drop_last() =~= m.take(i as int));
        }
        let piece: Vec<(bool, Vec<char>)> = match &content[i] {
            Inline::Strong(c) => inline_refs(c.as_slice()),
            Inline::Emphasis(c) => inline_refs(c.as_slice()),
            Inline::Strike(c) => inline_refs(c.as_slice()),
            Inline::Term(c) => inline_refs(c.as_slice()),
            Inline::Link { target, content } => {
                let mut v = inline_refs(content.as_slice());
                let ghost before = refs_view(v@);
                v.push((false, chars_of(target.as_str())));
                proof {
                    assert(refs_view(v@) =~= before.push((false, target@)));
                }
                v
            },
            _ => {
                let v: Vec<(bool, Vec<char>)> = Vec::new();
                proof {
                    assert(refs_view(v@) =~= Seq::<RefM>::empty());
                }
                v
            },
        };
        proof {
            assert(m.take(i + 1).last() == m[i as int]);
            assert(refs_view(piece@) == inl_ref(m[i as int]));
        }
        append_refs(&mut out, piece);
        i = i + 1;
    }
    proof {
        assert(m.take(content@.len() as int) =~= m);
    }
    out
}

fn cell_list_refs(cells: &[Vec<Inline>]) -> (r: Vec<(bool, Vec<char>)>)
    ensures
        refs_view(r@) == cells_refs(cells_model(cells@)),
{
    let ghost m = cells_model(cells@);
    let mut out: Vec<(bool, Vec<char>)> = Vec::new();
    let mut i: usize = 0;
    proof {
        lemma_cells_model_len(cells@);
        assert(refs_view(out@) =~= cells_refs(m.take(0)));
    }
    while i < cells.len()
        invariant
            i <= cells@.len(),
            m == cells_model(cells@),
            m.len() == cells@.len(),
            refs_view(out@) == cells_refs(m.take(i as int)),
        decreases cells@.len() - i,
    {
        proof {
            lemma_cells_model_index(cells@, i as int);
            assert(m.take(i + 1).drop_last() =~= m.take(i as int));
        }
        let piece = inline_refs(cells[i].as_slice());
        append_refs(&mut out, piece);
        i = i + 1;
    }
    proof {
        assert(m.take(cells@.len() as int) =~= m);
    }
    out
}

fn row_list_refs(rows: &[Vec<Vec<Inline>>]) -> (r: Vec<(bool, Vec<char>)>)
    ensures
        refs_view(r@) == rows_refs(rows_model(rows@)),
{
    let ghost m = rows_model(rows@);
    let mut out: Vec<(bool, Vec<char>)> = Vec::new();
    let mut i: usize = 0;
    proof {
        lemma_rows_model_len(rows@);
        assert(refs_view(out@) =~= rows_refs(m.take(0)));
    }
    while i < rows.len()
        invariant
            i <= rows@.len(),
            m == rows_model(rows@),
            m.len() == rows@.len(),
            refs_view(out@) == rows_refs(m.take(i as int)),
        decreases rows@.len() - i,
    {
        proof {
            lemma_rows_model_index(rows@, i as int);
            assert(m.take(i + 1).drop_last() =~= m.take(i as int));
        }
        let piece = cell_list_refs(rows[i].as_slice());
        append_refs(&mut out, piece);
        i = i + 1;
    }
    proof {
        assert(m.take(rows@.len() as int) =~= m);
    }
    out
}

/// The references of blocks, in the order the renderer meets them.
pub fn block_list_refs(blocks: &[Block]) -> (r: Vec<(bool, Vec<char>)>)
    ensures
        refs_view(r@) == blocks_refs(blocks_model(blocks@)),
    decreases blocks@,
{
    let ghost m = blocks_model(blocks@);
    let mut out: Vec<(bool, Vec<char>)> = Vec::new();
    let mut i: usize = 0;
    proof {
        lemma_blocks_model_len(blocks@);
        assert(refs_view(out@) =~= blocks_refs(m.take(0)));
    }
    while i < blocks.len()
        invariant
            i <= blocks@.len(),
            m == blocks_model(blocks@),
            m.len() == blocks@.len(),
            refs_view(out@) == blocks_refs(m.take(i as int)),
        decreases blocks@.len() - i,
    {
        proof {
            lemma_blocks_model_index(blocks@, i as int);
            assert(m.take(i + 1).drop_last() =~= m.take(i as int));
        }
        let piece = one_block_refs(&blocks[i]);
        append_refs(&mut out, piece);
        i = i + 1;
    }
    proof {
        assert(m.take(blocks@.len() as int) =~= m);
    }
    out
}

fn item_list_refs(items: &[ListItem]) -> (r: Vec<(bool, Vec<char>)>)
    ensures
        refs_view(r@) == items_refs(items_model(items@)),
    decreases items@,
{
    let ghost m = items_model(items@);
    let mut out: Vec<(bool, Vec<char>)> = Vec::new();
    let mut i: usize = 0;
    proof {
        lemma_items_model_len(items@);
        assert(refs_view(out@) =~= items_refs(m.take(0)));
    }
    while i < items.len()
        invariant
            i <= items@.len(),
            m == items_model(items@),
            m.len() == items@.len(),
            refs_view(out@) == items_refs(m.take(i as int)),
        decreases items@.len() - i,
    {
        proof {
            lemma_items_model_index(items@, i as int);
            assert(m.take(i + 1).drop_last() =~= m.take(i as int));
        }
        let piece = block_list_refs(items[i].blocks.as_slice());
        append_refs(&mut out, piece);
        i = i + 1;
    }
    proof {
        assert(m.take(items@.len() as int) =~= m);
    }
    out
}

fn one_block_refs(b: &Block) -> (r: Vec<(bool, Vec<char>)>)
    ensures
        refs_view(r@) == block_refs(block_model(*b)),
    decreases b,
{
    match b {
        Block::Heading { level, content } => inline_refs(content.as_slice()),
        Block::Paragraph(c) => inline_refs(c.as_slice()),
        Block::CardLabel(c) => inline_refs(c.as_slice()),
        Block::BulletList(items) => item_list_refs(items.as_slice()),
        Block::OrderedList { start, items } => item_list_refs(items.as_slice()),
        Block::Quote(c) => block_list_refs(c.as_slice()),
        Block::Card(c) => block_list_refs(c.as_slice()),
        Block::Table { header, rows } => {
            let mut v = cell_list_refs(header.as_slice());
            let w = row_list_refs(rows.as_slice());
            append_refs(&mut v, w);
            v
        },
        Block::Image { alt, path, caption } => {
            let mut v: Vec<(bool, Vec<char>)> = Vec::new();
            v.push((true, chars_of(path.as_str())));
            proof {
                assert(refs_view(v@) =~= seq![(true, path@)]);
            }
            v
        },
        _ => {
            let v: Vec<(bool, Vec<char>)> = Vec::new();
            proof {
                assert(refs_view(v@) =~= Seq::<RefM>::empty());
            }
            v
        },
    }
}

/// The last component of a `/`-separated path.
pub open spec fn file_name_of(path: Seq<char>) -> Seq<char> {
    match rfind(path, "/"@) {
        Some(k) => path.subrange(k + 1, path.len() as int),
        None => path,
    }
}

/// `Path::extension` of a file name: the text after its last dot, unless the
/// dot starts the name or the name is `..`.
pub open spec fn extension_of(name: Seq<char>) -> Option<Seq<char>> {
    if name == ".."@ {
        None
    } else {
        match rfind(name, "."@) {
            None => None,
            Some(k) => if k <= 0 {
                None
            } else {
                Some(name.subrange(k + 1, name.len() as int))
            },
        }
    }
}

/// The ASCII lowercase letters.
pub open spec fn lower_letters() -> Seq<char> {
    "abcdefghijklmnopqrstuvwxyz"@
}

/// `char::to_ascii_lowercase`.
pub open spec fn ascii_lower(c: char) -> char {
    if 'A' <= c && c <= 'Z' {
        lower_letters()[(c as int) - ('A' as int)]
    } else {
        c
    }
}

/// `str::to_ascii_lowercase`.
pub open spec fn lower(s: Seq<char>) -> Seq<char> {
    Seq::new(s.len(), |k: int| ascii_lower(s[k]))
}

/// The image formats the book may embed.
pub open spec fn image_format(ext: Seq<char>) -> bool {
    ||| ext == "png"@
    ||| ext == "jpg"@
    ||| ext == "jpeg"@
    ||| ext == "gif"@
    ||| ext == "svg"@
    ||| ext == "webp"@
    ||| ext == "pdf"@
}

/// The published path recorded for `source`, if any.
pub open spec fn registered(reg: Seq<(Seq<char>, Seq<char>)>, source: Seq<char>) -> Option<Seq<char>>
    decreases reg.len(),
{
    if reg.len() == 0 {
        None
    } else if reg[0].0 == source {
        Some(reg[0].1)
    } else {
        registered(reg.drop_first(), source)
    }
}

/// What registering an image does: reuse its earlier publication, or name
/// the next asset `asset-NNNN.ext` after the images already registered.
/// `Ok((true, published))` reuses, `Ok((false, file_name))` is new.
pub open spec fn asset_plan(reg: Seq<(Seq<char>, Seq<char>)>, canonical: Seq<char>) -> Result<
    (bool, Seq<char>),
    Seq<char>,
> {
    match registered(reg, canonical) {
        Some(p) => Ok((true, p)),
        None => match extension_of(file_name_of(canonical)) {
            None => Err("local image has no file extension"@),
            Some(ext) => if !image_format(lower(ext)) {
                Err("unsupported local image format: "@ + lower(ext))
            } else {
                Ok((false, "asset-"@ + zero_padded(reg.len() as nat, 4) + "."@ + lower(ext)))
            },
        },
    }
}

/// A link target that the renderers look up among the book's chapters:
/// not remote, not `mailto:`, and not a fragment of the current chapter.
pub open spec fn local_link(t: Seq<char>) -> bool {
    !crate::typst::remote(t) && !crate::text::starts_with(t, "mailto:"@) && !crate::text::starts_with(
        t,
        "#"@,
    )
}

/// The targets of `refs` that need a lookup, each once, in the order they
/// first occur: local image paths when `images`, local link targets when not.
pub open spec fn lookup_targets(refs: Seq<RefM>, images: bool) -> Seq<Seq<char>>
    decreases refs.len(),
{
    if refs.len() == 0 {
        seq![]
    } else {
        let prev = lookup_targets(refs.drop_last(), images);
        let (is_image, t) = refs.last();
        let wanted = if images {
            is_image && !crate::typst::remote(t)
        } else {
            !is_image && local_link(t)
        };
        if wanted && !prev.contains(t) {
            prev.push(t)
        } else {
            prev
        }
    }
}

fn contains_target(v: &Vec<Vec<char>>, x: &[char]) -> (b: bool)
    ensures
        b == v@.map_values(|p: Vec<char>| p@).contains(x@),
{
    let ghost dv = v@.map_values(|p: Vec<char>| p@);
    let mut k: usize = 0;
    while k < v.len()
        invariant
            k <= v@.len(),
            dv == v@.map_values(|p: Vec<char>| p@),
            forall|j: int| 0 <= j < k ==> dv[j] != x@,
        decreases v@.len() - k,
    {
        if eq_chars(v[k].as_slice(), x) {
            proof {
                assert(dv[k as int] == x@);
            }
            return true;
        }
        k = k + 1;
    }
    false
}

fn lookup_targets_exec(refs: &Vec<(bool, Vec<char>)>, images: bool) -> (r: Vec<Vec<char>>)
    ensures
        r@.map_values(|p: Vec<char>| p@) == lookup_targets(refs_view(refs@), images),
{
    let ghost rv = refs_view(refs@);
    let mut out: Vec<Vec<char>> = Vec::new();
    let mailto = chars_of("mailto:");
    let hash = chars_of("#");
    let mut i: usize = 0;
    proof {
        assert(rv.take(0) =~= Seq::<RefM>::empty());
        assert(out@.map_values(|p: Vec<char>| p@) =~= Seq::<Seq<char>>::empty());
    }
    while i < refs.len()
        invariant
            i <= refs@.len(),
            rv == refs_view(refs@),
            mailto@ == "mailto:"@,
            hash@ == "#"@,
            out@.map_values(|p: Vec<char>| p@) == lookup_targets(rv.take(i as int), images),
        decreases refs@.len() - i,
    {
        proof {
            assert(rv.take(i + 1).drop_last() =~= rv.take(i as int));
            assert(rv.take(i + 1).last() == rv[i as int]);
        }
        let t = refs[i].1.as_slice();
        let is_image = refs[i].0;
        let wanted = if images {
            is_image && !crate::typst::is_remote_target(t)
        } else {
            !is_image && !crate::typst::is_remote_target(t) && !crate::text::starts_with_exec(
                t,
                mailto.as_slice(),
            ) && !crate::text::starts_with_exec(t, hash.as_slice())
        };
        if wanted && !contains_target(&out, t) {
            let ghost before = out@.map_values(|p: Vec<char>| p@);
            out.push(copy_range(t, 0, t.len()));
            proof {
                assert(t@.subrange(0, t@.len() as int) =~= t@);
                assert(out@.map_values(|p: Vec<char>| p@) =~= before.push(t@));
            }
        }
        i = i + 1;
    }
    proof {
        assert(rv.take(refs@.len() as int) =~= rv);
    }
    out
}

/// The local link targets of a chapter that the renderers look up, each
/// once, in the order they first occur (see [`lookup_targets`]).
pub fn chapter_link_targets(blocks: &[Block]) -> (r: Vec<Vec<char>>)
    ensures
        r@.map_values(|p: Vec<char>| p@) == lookup_targets(blocks_refs(blocks_model(blocks@)), false),
{
    let refs = block_list_refs(blocks);
    lookup_targets_exec(&refs, false)
}

/// The local image paths of a chapter that are published, each once, in the
/// order they first occur (see [`lookup_targets`]).
pub fn chapter_image_paths(blocks: &[Block]) -> (r: Vec<Vec<char>>)
    ensures
        r@.map_values(|p: Vec<char>| p@) == lookup_targets(blocks_refs(blocks_model(blocks@)), true),
{
    let refs = block_list_refs(blocks);
    lookup_targets_exec(&refs, true)
}

/// Images copied into the output, by canonical source path.
pub struct AssetRegistry {
    by_source: Vec<(String, String)>,
}

/// What to do for one image.
pub enum AssetPlan {
    /// The image was published before under this path.
    Existing(String),
    /// Copy the image to `assets/<file_name>` and record it.
    New(String),
}

impl View for AssetRegistry {
    type V = Seq<(Seq<char>, Seq<char>)>;

    closed spec fn view(&self) -> Seq<(Seq<char>, Seq<char>)> {
        Seq::new(self.by_source@.len(), |k: int| (self.by_source@[k].0@, self.by_source@[k].1@))
    }
}

fn lower_exec(s: &[char]) -> (v: Vec<char>)
    ensures
        v@ == lower(s@),
{
    let mut v: Vec<char> = Vec::new();
    let mut i: usize = 0;
    while i < s.len()
        invariant
            i <= s@.len(),
            v@ == lower(s@.take(i as int)),
        decreases s@.len() - i,
    {
        let c = s[i];
        let d = if 'A' <= c && c <= 'Z' {
            char_from_upper(c)
        } else {
            c
        };
        v.push(d);
        i = i + 1;
        proof {
            assert(v@ =~= lower(s@.take(i as int)));
        }
    }
    proof {
        assert(s@.take(s@.len() as int) =~= s@);
    }
    v
}

fn char_from_upper(c: char) -> (d: char)
    requires
        'A' <= c && c <= 'Z',
    ensures
        d == ascii_lower(c),
{
    let letters = chars_of("abcdefghijklmnopqrstuvwxyz");
    proof {
        reveal_strlit("abcdefghijklmnopqrstuvwxyz");
    }
    let k: usize = ((c as u32) - ('A' as u32)) as usize;
    letters[k]
}

impl AssetRegistry {
    pub fn new() -> (r: Self)
        ensures
            r@ == Seq::<(Seq<char>, Seq<char>)>::empty(),
    {
        let r = AssetRegistry { by_source: Vec::new() };
        proof {
            assert(r@ =~= Seq::<(Seq<char>, Seq<char>)>::empty());
        }
        r
    }

    /// Number of images registered.
    pub fn len(&self) -> (n: usize)
        ensures
            n == self@.len(),
    {
        self.by_source.len()
    }

    /// Decides how to publish the image at `canonical` (see [`asset_plan`]).
    pub fn plan(&self, canonical: &str) -> (r: Result<AssetPlan, RenderError>)
        ensures
            match r {
                Ok(AssetPlan::Existing(p)) => asset_plan(self@, canonical@) == Ok::<
                    (bool, Seq<char>),
                    Seq<char>,
                >((true, p@)),
                Ok(AssetPlan::New(n)) => asset_plan(self@, canonical@) == Ok::<
                    (bool, Seq<char>),
                    Seq<char>,
                >((false, n@)),
                Err(e) => asset_plan(self@, canonical@) == Err::<(bool, Seq<char>), Seq<char>>(
                    e@,
                ),
            },
    {
        let ghost reg = self@;
        let c = chars_of(canonical);
        let mut k: usize = 0;
        proof {
            assert(reg.skip(0) =~= reg);
        }
        while k < self.by_source.len()
            invariant
                k <= self.by_source@.len(),
                reg == self@,
                c@ == canonical@,
                registered(reg, canonical@) == registered(reg.skip(k as int), canonical@),
            decreases self.by_source@.len() - k,
        {
            proof {
                assert(reg.skip(k as int)[0] == reg[k as int]);
                assert(reg.skip(k as int).drop_first() =~= reg.skip(k + 1));
            }
            let kc = chars_of(self.by_source[k].0.as_str());
            if eq_chars(kc.as_slice(), c.as_slice()) {
                return Ok(AssetPlan::Existing(self.by_source[k].1.clone()));
            }
            k = k + 1;
        }
        proof {
            assert(reg.skip(reg.len() as int).len() == 0);
            reveal_strlit("/");
            reveal_strlit(".");
            reveal_strlit("..");
        }
        proof {
            lemma_rfind_upto(c@, c@.len() - 1, "/"@);
        }
        let _n = c.len();
        let slash = chars_of("/");
        let name = match rfind_exec(c.as_slice(), slash.as_slice()) {
            Some(j) => copy_range(c.as_slice(), j + 1, c.len()),
            None => copy_range(c.as_slice(), 0, c.len()),
        };
        proof {
            assert(name@ =~= file_name_of(c@));
        }
        proof {
            lemma_rfind_upto(name@, name@.len() - 1, "."@);
        }
        let dotdot = chars_of("..");
        let dot = chars_of(".");
        let ext = if eq_chars(name.as_slice(), dotdot.as_slice()) {
            None
        } else {
            match rfind_exec(name.as_slice(), dot.as_slice()) {
                None => None,
                Some(j) => if j == 0 {
                    None
                } else {
                    Some(copy_range(name.as_slice(), j + 1, name.len()))
                },
            }
        };
        let ext = match ext {
            None => {
                return Err(RenderError::new("local image has no file extension"));
            },
            Some(e) => lower_exec(e.as_slice()),
        };
        let formats = ["png", "jpg", "jpeg", "gif", "svg", "webp", "pdf"];
        let mut ok = false;
        let mut f: usize = 0;
        while f < 7
            invariant
                f <= 7,
                ok == exists|j: int| 0 <= j < f && ext@ == formats@[j]@,
            decreases 7 - f,
        {
            let fc = chars_of(formats[f]);
            if eq_chars(ext.as_slice(), fc.as_slice()) {
                ok = true;
            }
            f = f + 1;
        }
        if !ok {
            return Err(RenderError::with_detail("unsupported local image format: ", ext.as_slice()));
        }
        let mut out: Vec<char> = Vec::new();
        push_str(&mut out, "asset-");
        let n = zero_padded_exec(self.by_source.len() as u64, 4);
        push_all(&mut out, n.as_slice());
        push_str(&mut out, ".");
        push_all(&mut out, ext.as_slice());
        Ok(AssetPlan::New(string_of(out.as_slice())))
    }

    /// Records that `canonical` was copied to `assets/<file_name>`, and
    /// returns that published path.
    pub fn record(&mut self, canonical: &str, file_name: &str) -> (r: String)
        ensures
            r@ == "assets/"@ + file_name@,
            final(self)@ == old(self)@.push((canonical@, r@)),
    {
        let ghost before = self@;
        let mut p: Vec<char> = Vec::new();
        push_str(&mut p, "assets/");
        push_str(&mut p, file_name);
        let published = string_of(p.as_slice());
        self.by_source.push((String::from_str(canonical), published.clone()));
        proof {
            assert(self@ =~= before.push((canonical@, published@)));
        }
        published
    }
}

proof fn lemma_registered_push(reg: Seq<(Seq<char>, Seq<char>)>, x: (Seq<char>, Seq<char>), c: Seq<char>)
    ensures
        registered(reg.push(x), c) == match registered(reg, c) {
            Some(p) => Some(p),
            None => if x.0 == c {
                Some(x.1)
            } else {
                None
            },
        },
    decreases reg.len(),
{
    if reg.len() == 0 {
        assert(reg.push(x).drop_first() =~= reg);
    } else {
        assert(reg.push(x).drop_first() =~= reg.drop_first().push(x));
        lemma_registered_push(reg.drop_first(), x, c);
    }
}

/// Recording an image never changes where an image registered earlier was
/// published, and the recorded image is reused from then on: each image is
/// copied once, and every later reference to it gets the same path.
pub proof fn law_recorded_image_is_reused(
    reg: Seq<(Seq<char>, Seq<char>)>,
    canonical: Seq<char>,
    published: Seq<char>,
    other: Seq<char>,
)
    requires
        registered(reg, canonical) is None,
    ensures
        asset_plan(reg.push((canonical, published)), canonical) == Ok::<(bool, Seq<char>), Seq<char>>(
            (true, published),
        ),
        registered(reg, other) is Some ==> asset_plan(reg.push((canonical, published)), other)
            == asset_plan(reg, other),
{
    lemma_registered_push(reg, (canonical, published), canonical);
    lemma_registered_push(reg, (canonical, published), other);
}

} // verus!
