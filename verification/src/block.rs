//! The block: a node of the content tree, constructed in memory unsaved and
//! persisted exactly once.

use vstd::prelude::*;

use crate::clock::UtcTime;
use crate::content::BlockContent;
use crate::content::block_type_from_content_type;
use crate::content::spec_block_type;
use crate::ids::fresh_id;
use crate::clock::now_rfc3339;

verus! {

/// The mathematical model of a block: every text as a character sequence,
/// the children as a sequence of models.
#[verifier::ext_equal]
pub struct BlockModel {
    pub id: u128,
    pub parent_id: u128,
    pub block_type: Seq<char>,
    pub content_type: Seq<char>,
    pub contents: Option<Seq<char>>,
    pub title: Option<Seq<char>>,
    pub block_order: Option<int>,
    pub favorite: bool,
    pub created_at_utc: Seq<char>,
    pub updated_at_utc: Seq<char>,
    pub children: Seq<BlockModel>,
}

/// The view of an optional text.
pub open spec fn opt_view(o: Option<String>) -> Option<Seq<char>> {
    match o {
        Some(s) => Some(s@),
        None => None,
    }
}

/// A node of the content tree. `children` is a view materialized on read,
/// never itself persisted; `block_order` is `None` before first persistence.
#[derive(Debug)]
pub struct Block {
    pub id: u128,
    pub parent_id: u128,
    pub block_type: String,
    pub block_contents: BlockContent,
    pub block_order: Option<i32>,
    pub favorite: bool,
    pub children: Vec<Block>,
    pub created_at_utc: UtcTime,
    pub updated_at_utc: UtcTime,
}

/// The models of a sequence of blocks, in order.
pub open spec fn models_of(blocks: Seq<Block>) -> Seq<BlockModel> {
    Seq::new(blocks.len(), |i: int| blocks[i].model())
}

impl Block {
    /// The mathematical model of this block.
    pub open spec fn model(self) -> BlockModel
        decreases self,
    {
        BlockModel {
            id: self.id,
            parent_id: self.parent_id,
            block_type: self.block_type@,
            content_type: self.block_contents.content_type@,
            contents: opt_view(self.block_contents.contents),
            title: opt_view(self.block_contents.title),
            block_order: match self.block_order {
                Some(o) => Some(o as int),
                None => None,
            },
            favorite: self.favorite,
            created_at_utc: self.created_at_utc.rfc3339@,
            updated_at_utc: self.updated_at_utc.rfc3339@,
            children: Seq::new(
                self.children@.len(),
                |i: int|
                    if 0 <= i < self.children@.len() {
                        self.children@[i].model()
                    } else {
                        vstd::pervasive::arbitrary()
                    },
            ),
        }
    }

    /// A fresh, unsaved block under `parent_id`: its block type is derived
    /// from the content type by the fixed mapping, its payload carries the
    /// raw text, and its identifier and timestamps are newly generated.
    pub fn new(parent_id: u128, block_content_type: String, raw_data: String) -> (r: Self)
        ensures
            r.parent_id == parent_id,
            r.block_type@ == spec_block_type(block_content_type@),
            r.block_contents.content_type == block_content_type,
            r.block_contents.contents == Some(raw_data),
            r.block_contents.title is None,
            r.block_order is None,
            r.favorite == false,
            r.children@ =~= Seq::<Block>::empty(),
    {
        let block_type = block_type_from_content_type(block_content_type.as_str());
        Block {
            id: fresh_id(),
            parent_id,
            block_type,
            block_contents: BlockContent::new(block_content_type, raw_data),
            block_order: None,
            favorite: false,
            children: Vec::new(),
            created_at_utc: now_rfc3339(),
            updated_at_utc: now_rfc3339(),
        }
    }
}

/// The response shape for listing a page's direct children: the page's
/// identifier text as handed in, and its blocks in sibling order.
pub struct PageBlocksResponse {
    pub page_id: Option<String>,
    pub blocks: Vec<Block>,
}

} // verus!
