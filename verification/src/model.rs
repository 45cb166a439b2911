//! The block model: positions, text runs, placeable blocks, documents and
//! image assets, with validated construction.
//!
//! Numeric fields are stored in integer page units. Constructors take `i64`
//! so that every out-of-range host value (zero, negative, too large) is
//! representable and rejected with `PdfError::Validation`.

use vstd::prelude::*;

use crate::error::PdfError;

verus! {

/// A position on the canvas. The origin is the top-left corner, y grows
/// downward, and negative values place content off-canvas (a caller
/// choice, not a structural error).
#[derive(Clone, Copy, Debug, PartialEq, Eq, Structural)]
pub struct Pos {
    pub x: i32,
    pub y: i32,
}

/// One run of text rendered at a single style. `content` holds the UTF-8
/// bytes of the run.
#[derive(Clone, Debug)]
pub struct TextNode {
    pub content: Vec<u8>,
    pub font_size: u32,
    pub line_height: u32,
}

/// Mathematical image of a `TextNode`.
pub struct TextNodeV {
    pub content: Seq<u8>,
    pub font_size: int,
    pub line_height: int,
}

impl TextNodeV {
    /// Structural validity: both sizes are positive.
    pub open spec fn wf(self) -> bool {
        &&& self.font_size >= 1
        &&& self.line_height >= 1
    }
}

impl View for TextNode {
    type V = TextNodeV;

    open spec fn view(&self) -> TextNodeV {
        TextNodeV {
            content: self.content@,
            font_size: self.font_size as int,
            line_height: self.line_height as int,
        }
    }
}

impl TextNode {
    /// Validated construction. Succeeds exactly when both sizes are
    /// positive and fit the unit range; the content bytes are kept as
    /// given.
    pub fn new(content: Vec<u8>, font_size: i64, line_height: i64) -> (r: Result<TextNode, PdfError>)
        ensures
            (1 <= font_size <= u32::MAX && 1 <= line_height <= u32::MAX) ==> {
                &&& r matches Ok(n)
                &&& n@.content == content@
                &&& n@.font_size == font_size
                &&& n@.line_height == line_height
                &&& n@.wf()
            },
            !(1 <= font_size <= u32::MAX && 1 <= line_height <= u32::MAX)
                ==> r == Err::<TextNode, PdfError>(PdfError::Validation),
    {
        if 1 <= font_size && font_size <= u32::MAX as i64 && 1 <= line_height
            && line_height <= u32::MAX as i64
        {
            Ok(TextNode {
                content,
                font_size: font_size as u32,
                line_height: line_height as u32,
            })
        } else {
            Err(PdfError::Validation)
        }
    }
}

/// One placeable unit of content.
#[derive(Clone, Debug)]
pub enum PdfBlock {
    /// An image asset, referenced by path, scaled by `dpi` (dots per inch)
    /// and placed with its top-left corner at `pos`.
    Image { path: Vec<u8>, dpi: u32, pos: Pos },
    /// An ordered sequence of text runs laid out from `pos` downward.
    TextSection { nodes: Vec<TextNode>, pos: Pos },
}

/// Mathematical image of a `PdfBlock`.
pub enum PdfBlockV {
    Image { path: Seq<u8>, dpi: int, x: int, y: int },
    TextSection { nodes: Seq<TextNodeV>, x: int, y: int },
}

impl PdfBlockV {
    /// Structural validity: an image has a non-empty path and a positive
    /// resolution; a text section holds only valid runs.
    pub open spec fn wf(self) -> bool {
        match self {
            PdfBlockV::Image { path, dpi, .. } => path.len() >= 1 && dpi >= 1,
            PdfBlockV::TextSection { nodes, .. } => forall|i: int|
                0 <= i < nodes.len() ==> (#[trigger] nodes[i]).wf(),
        }
    }
}

impl View for PdfBlock {
    type V = PdfBlockV;

    open spec fn view(&self) -> PdfBlockV {
        match self {
            PdfBlock::Image { path, dpi, pos } => PdfBlockV::Image {
                path: path@,
                dpi: *dpi as int,
                x: pos.x as int,
                y: pos.y as int,
            },
            PdfBlock::TextSection { nodes, pos } => PdfBlockV::TextSection {
                nodes: nodes@.map_values(|n: TextNode| n@),
                x: pos.x as int,
                y: pos.y as int,
            },
        }
    }
}

/// Spec shorthand: does `(x, y)` fit the stored position range?
pub open spec fn pos_in_range(x: i64, y: i64) -> bool {
    &&& i32::MIN <= x <= i32::MAX
    &&& i32::MIN <= y <= i32::MAX
}

impl PdfBlock {
    /// Validated image construction. Succeeds exactly when the path is
    /// non-empty, the resolution is positive and in range, and the
    /// position fits the unit range.
    pub fn image(path: Vec<u8>, dpi: i64, x: i64, y: i64) -> (r: Result<PdfBlock, PdfError>)
        ensures
            (path@.len() >= 1 && 1 <= dpi <= u32::MAX && pos_in_range(x, y)) ==> {
                &&& r matches Ok(b)
                &&& b@ == (PdfBlockV::Image { path: path@, dpi: dpi as int, x: x as int, y: y as int })
                &&& b@.wf()
            },
            !(path@.len() >= 1 && 1 <= dpi <= u32::MAX && pos_in_range(x, y))
                ==> r == Err::<PdfBlock, PdfError>(PdfError::Validation),
    {
        if path.len() >= 1 && 1 <= dpi && dpi <= u32::MAX as i64 && i32::MIN as i64 <= x
            && x <= i32::MAX as i64 && i32::MIN as i64 <= y && y <= i32::MAX as i64
        {
            Ok(PdfBlock::Image {
                path,
                dpi: dpi as u32,
                pos: Pos { x: x as i32, y: y as i32 },
            })
        } else {
            Err(PdfError::Validation)
        }
    }

    /// Validated text-section construction. Succeeds exactly when every
    /// node has positive sizes and the position fits the unit range; the
    /// node order is kept as given.
    pub fn text_section(nodes: Vec<TextNode>, x: i64, y: i64) -> (r: Result<PdfBlock, PdfError>)
        ensures
            ((forall|i: int| 0 <= i < nodes@.len() ==> (#[trigger] nodes@[i])@.wf())
                && pos_in_range(x, y)) ==> {
                &&& r matches Ok(b)
                &&& b@ == (PdfBlockV::TextSection {
                    nodes: nodes@.map_values(|n: TextNode| n@),
                    x: x as int,
                    y: y as int,
                })
                &&& b@.wf()
            },
            !((forall|i: int| 0 <= i < nodes@.len() ==> (#[trigger] nodes@[i])@.wf())
                && pos_in_range(x, y))
                ==> r == Err::<PdfBlock, PdfError>(PdfError::Validation),
    {
        let mut i: usize = 0;
        while i < nodes.len()
            invariant
                i <= nodes@.len(),
                forall|j: int| 0 <= j < i ==> (#[trigger] nodes@[j])@.wf(),
            decreases nodes@.len() - i,
        {
            if nodes[i].font_size < 1 || nodes[i].line_height < 1 {
                return Err(PdfError::Validation);
            }
            i = i + 1;
        }
        if i32::MIN as i64 <= x && x <= i32::MAX as i64 && i32::MIN as i64 <= y
            && y <= i32::MAX as i64
        {
            let b = PdfBlock::TextSection {
                nodes,
                pos: Pos { x: x as i32, y: y as i32 },
            };
            assert(b@ matches PdfBlockV::TextSection { nodes: ns, .. } && forall|i: int|
                0 <= i < ns.len() ==> (#[trigger] ns[i]).wf());
            Ok(b)
        } else {
            Err(PdfError::Validation)
        }
    }
}

/// A document: canvas dimensions plus an ordered sequence of blocks,
/// assembled once and then submitted whole for rendering.
#[derive(Clone, Debug)]
pub struct Doc {
    pub width: u32,
    pub height: u32,
    pub blocks: Vec<PdfBlock>,
}

/// Mathematical image of a `Doc`.
pub struct DocV {
    pub width: int,
    pub height: int,
    pub blocks: Seq<PdfBlockV>,
}

impl DocV {
    /// Structural validity: positive canvas dimensions and valid blocks.
    pub open spec fn wf(self) -> bool {
        &&& self.width >= 1
        &&& self.height >= 1
        &&& forall|i: int| 0 <= i < self.blocks.len() ==> (#[trigger] self.blocks[i]).wf()
    }
}

impl View for Doc {
    type V = DocV;

    open spec fn view(&self) -> DocV {
        DocV {
            width: self.width as int,
            height: self.height as int,
            blocks: self.blocks@.map_values(|b: PdfBlock| b@),
        }
    }
}

impl Doc {
    /// Validated construction of an empty document. Succeeds exactly when
    /// both dimensions are positive and fit the unit range, and keeps the
    /// given values exactly.
    pub fn new(width: i64, height: i64) -> (r: Result<Doc, PdfError>)
        ensures
            (1 <= width <= u32::MAX && 1 <= height <= u32::MAX) ==> {
                &&& r matches Ok(d)
                &&& d@.width == width
                &&& d@.height == height
                &&& d@.blocks.len() == 0
                &&& d@.wf()
            },
            !(1 <= width <= u32::MAX && 1 <= height <= u32::MAX)
                ==> r == Err::<Doc, PdfError>(PdfError::Validation),
    {
        if 1 <= width && width <= u32::MAX as i64 && 1 <= height && height <= u32::MAX as i64 {
            Ok(Doc { width: width as u32, height: height as u32, blocks: Vec::new() })
        } else {
            Err(PdfError::Validation)
        }
    }

    /// Appends already-validated blocks in the given order, exactly: no
    /// deduplication, no reordering. Later blocks may overlap earlier
    /// ones; paint order is sequence order.
    pub fn with_blocks(self, blocks: Vec<PdfBlock>) -> (r: Doc)
        ensures
            r@.width == self@.width,
            r@.height == self@.height,
            r@.blocks == self@.blocks + blocks@.map_values(|b: PdfBlock| b@),
            (self@.wf() && (forall|i: int|
                0 <= i < blocks@.len() ==> (#[trigger] blocks@[i])@.wf())) ==> r@.wf(),
    {
        let mut out = self.blocks;
        let mut rest = blocks;
        out.append(&mut rest);
        let r = Doc { width: self.width, height: self.height, blocks: out };
        assert(r@.blocks =~= self@.blocks + blocks@.map_values(|b: PdfBlock| b@));
        r
    }
}

/// An image asset handed to the renderer: the path a block refers to it
/// by, and the raw bytes of the asset file.
#[derive(Clone, Debug)]
pub struct Asset {
    pub path: Vec<u8>,
    pub data: Vec<u8>,
}

/// Mathematical image of an `Asset`.
pub struct AssetV {
    pub path: Seq<u8>,
    pub data: Seq<u8>,
}

impl View for Asset {
    type V = AssetV;

    open spec fn view(&self) -> AssetV {
        AssetV { path: self.path@, data: self.data@ }
    }
}

} // verus!
