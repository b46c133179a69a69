use vstd::prelude::*;

verus! {

/// One content unit of a notification message.
#[derive(Clone, Debug)]
pub enum Block {
    Header(String),
    Section(String),
    /// An image: its URL and its alternative text.
    Image(String, String),
    Divider,
    Context(String),
}

pub enum BlockView {
    Header(Seq<char>),
    Section(Seq<char>),
    Image(Seq<char>, Seq<char>),
    Divider,
    Context(Seq<char>),
}

impl View for Block {
    type V = BlockView;

    open spec fn view(&self) -> BlockView {
        match self {
            Block::Header(t) => BlockView::Header(t@),
            Block::Section(t) => BlockView::Section(t@),
            Block::Image(u, a) => BlockView::Image(u@, a@),
            Block::Divider => BlockView::Divider,
            Block::Context(t) => BlockView::Context(t@),
        }
    }
}

pub open spec fn blocks_view(s: Seq<Block>) -> Seq<BlockView> {
    s.map_values(|b: Block| b@)
}

impl Block {
    /// A block with the same model.
    pub fn copy_of(&self) -> (r: Block)
        ensures
            r@ == self@,
    {
        match self {
            Block::Header(t) => Block::Header(t.clone()),
            Block::Section(t) => Block::Section(t.clone()),
            Block::Image(u, a) => Block::Image(u.clone(), a.clone()),
            Block::Divider => Block::Divider,
            Block::Context(t) => Block::Context(t.clone()),
        }
    }
}

/// Appends copies of `src` to `dst`.
pub fn extend_blocks(dst: &mut Vec<Block>, src: &Vec<Block>)
    ensures
        blocks_view(final(dst)@) == blocks_view(old(dst)@) + blocks_view(src@),
{
    let ghost start = blocks_view(dst@);
    let mut i: usize = 0;
    while i < src.len()
        invariant
            i <= src@.len(),
            blocks_view(dst@) == start + blocks_view(src@.subrange(0, i as int)),
        decreases src@.len() - i,
    {
        let ghost before = dst@;
        dst.push(src[i].copy_of());
        assert(blocks_view(dst@) =~= blocks_view(before).push(src@[i as int]@));
        assert(blocks_view(src@.subrange(0, i + 1)) =~= blocks_view(src@.subrange(0, i as int)).push(
            src@[i as int]@,
        ));
        i = i + 1;
    }
    assert(src@.subrange(0, i as int) =~= src@);
}

} // verus!
