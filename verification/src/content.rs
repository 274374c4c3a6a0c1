//! The content payload carried by a block, and the fixed mapping from a
//! content type to the block type discriminator.

use vstd::prelude::*;

verus! {

/// The closed set of block discriminators that the content mapping targets.
#[derive(Clone, Copy, Debug, PartialEq, Eq, Structural)]
pub enum BlockType {
    Text,
    Page,
}

impl Default for BlockType {
    fn default() -> (r: Self)
        ensures
            r == BlockType::Text,
    {
        BlockType::Text
    }
}

/// The part of a content payload that every payload kind shares.
#[derive(Debug)]
pub struct BaseBlockContent {
    pub content_type: String,
}

/// A paragraph-like payload.
pub struct TextBlockContent {
    pub base_content: BaseBlockContent,
}

/// A page payload.
pub struct PageBlockContent {
    pub base_content: BaseBlockContent,
}

/// Read access to the shared part of a content payload.
pub trait BaseBlockTrait {
    /// The content type this payload carries, as a sequence of characters.
    spec fn content_type_view(&self) -> Seq<char>;

    fn get_content_type(&self) -> (r: String)
        ensures
            r@ == self.content_type_view(),
    ;
}

impl BaseBlockTrait for TextBlockContent {
    open spec fn content_type_view(&self) -> Seq<char> {
        self.base_content.content_type@
    }

    fn get_content_type(&self) -> (r: String) {
        self.base_content.content_type.clone()
    }
}

impl BaseBlockTrait for PageBlockContent {
    open spec fn content_type_view(&self) -> Seq<char> {
        self.base_content.content_type@
    }

    fn get_content_type(&self) -> (r: String) {
        self.base_content.content_type.clone()
    }
}

/// The variant payload stored with every block: a content-type tag, an
/// optional contents text and an optional title.
#[derive(Debug)]
pub struct BlockContent {
    pub content_type: String,
    pub contents: Option<String>,
    pub title: Option<String>,
}

impl Clone for BlockContent {
    fn clone(&self) -> (r: Self)
        ensures
            r == *self,
    {
        BlockContent {
            content_type: self.content_type.clone(),
            contents: match &self.contents {
                Some(s) => Some(s.clone()),
                None => None,
            },
            title: match &self.title {
                Some(s) => Some(s.clone()),
                None => None,
            },
        }
    }
}

impl BlockContent {
    /// A payload of the given content type whose contents is the given raw
    /// text and whose title is absent.
    pub fn new(block_content_type: String, raw_data: String) -> (r: Self)
        ensures
            r.content_type == block_content_type,
            r.contents == Some(raw_data),
            r.title is None,
    {
        BlockContent { content_type: block_content_type, contents: Some(raw_data), title: None }
    }
}

/// The fixed mapping from a content type to the block type discriminator:
/// `"paragraph"` maps to `"text"`, `"page"` to `"page"`, anything else to
/// `"text"`.
pub open spec fn spec_block_type(content_type: Seq<char>) -> Seq<char> {
    if content_type == "page"@ {
        "page"@
    } else {
        "text"@
    }
}

pub fn block_type_from_content_type(content_type: &str) -> (r: String)
    ensures
        r@ == spec_block_type(content_type@),
{
    proof {
        reveal_strlit("paragraph");
        reveal_strlit("page");
        reveal_strlit("text");
    }
    if crate::text::str_eq(content_type, "paragraph") {
        "text".to_owned()
    } else if crate::text::str_eq(content_type, "page") {
        "page".to_owned()
    } else {
        "text".to_owned()
    }
}

} // verus!
