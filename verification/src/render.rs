//! The renderer: resolves each block of a document against the canvas and
//! the supplied image assets, and emits the serialized binary artifact.
//!
//! The artifact is fully determined by the document and the assets: a
//! five-byte header (magic `PDFB` and a version byte), the canvas
//! dimensions, the block count, and then each block in sequence order.
//! An image block carries its position, its placed size in page units
//! (intrinsic pixel size scaled at 72 units per inch by the block's dpi,
//! rounded down), and the raw asset bytes. A text section carries its
//! position and, for each run in order, the style values and the wrapped
//! lines; a reader recovers each line's place by starting a vertical
//! cursor at the section position and advancing it by the run's line
//! height per line. Content that overflows the canvas is rendered past
//! the boundary, not clipped.

use vstd::prelude::*;

use crate::codec::{emit_bytes, emit_i32, emit_u32, emit_u64, enc_bytes, enc_i32, enc_u32, enc_u64};
use crate::error::PdfError;
use crate::model::{Asset, AssetV, Doc, DocV, PdfBlock, PdfBlockV, TextNode, TextNodeV};
use crate::wrap::{wrap_line, wrap_spec};
use crate::UNITS_PER_INCH;

verus! {

/// Artifact block tag for a placed image.
pub const TAG_IMAGE: u8 = 1;

/// Artifact block tag for a text section.
pub const TAG_TEXT: u8 = 2;

/// The first asset whose path matches, if any: assets are consulted in
/// the order they were handed in.
pub open spec fn lookup(assets: Seq<AssetV>, path: Seq<u8>) -> Option<AssetV>
    decreases assets.len(),
{
    if assets.len() == 0 {
        None
    } else if assets[0].path == path {
        Some(assets[0])
    } else {
        lookup(assets.skip(1), path)
    }
}

/// The eight-byte PNG file signature.
pub open spec fn png_sig() -> Seq<u8> {
    seq![137u8, 80u8, 78u8, 71u8, 13u8, 10u8, 26u8, 10u8]
}

/// The IHDR chunk tag.
pub open spec fn ihdr_tag() -> Seq<u8> {
    seq![73u8, 72u8, 68u8, 82u8]
}

/// Big-endian 32-bit value at offset `i`.
pub open spec fn be_u32(b: Seq<u8>, i: int) -> int {
    b[i] * 16777216 + b[i + 1] * 65536 + b[i + 2] * 256 + b[i + 3]
}

/// Intrinsic pixel dimensions of a PNG asset: the width and height fields
/// of its IHDR chunk, provided the signature and chunk tag are in place
/// and both are positive. `None` means the asset is not decodable.
pub open spec fn png_dims(data: Seq<u8>) -> Option<(int, int)> {
    if data.len() >= 24 && data.subrange(0, 8) == png_sig() && data.subrange(12, 16) == ihdr_tag()
        && be_u32(data, 16) >= 1 && be_u32(data, 20) >= 1 {
        Some((be_u32(data, 16), be_u32(data, 20)))
    } else {
        None
    }
}

/// Placed length in page units of `px` pixels at `dpi` dots per inch,
/// rounded down: `px / dpi * 72` in exact integer arithmetic.
pub open spec fn placed_len(px: int, dpi: int) -> int {
    px * (UNITS_PER_INCH as int) / dpi
}

/// Byte advance per character of a run: half the font size, at least one
/// unit.
pub open spec fn advance_of(font_size: int) -> int {
    if font_size / 2 < 1 {
        1
    } else {
        font_size / 2
    }
}

/// How many bytes of a run fit on one line: the room between the section's
/// horizontal origin and the right canvas edge, divided by the advance,
/// and at least one so that wrapping always makes progress.
pub open spec fn cols_for(width: int, x: int, font_size: int) -> int {
    let avail = width - x;
    if avail < advance_of(font_size) {
        1
    } else {
        avail / advance_of(font_size)
    }
}

/// The column budget is positive and no wider than the full span from
/// the section origin to the right canvas edge.
pub proof fn lemma_cols_bound(width: int, x: int, font_size: int)
    ensures
        1 <= cols_for(width, x, font_size),
        cols_for(width, x, font_size) <= if width - x < 1 {
            1int
        } else {
            width - x
        },
{
    let adv = advance_of(font_size);
    let avail = width - x;
    if avail < adv {
    } else {
        assert(1 <= avail / adv <= avail) by (nonlinear_arith)
            requires
                1 <= adv <= avail,
        ;
    }
}

/// Byte form of one wrapped line list: each line length-prefixed, in order.
pub open spec fn enc_line_list(ls: Seq<Seq<u8>>) -> Seq<u8>
    decreases ls.len(),
{
    if ls.len() == 0 {
        Seq::empty()
    } else {
        enc_bytes(ls[0]) + enc_line_list(ls.skip(1))
    }
}

/// Byte form of one text run: style values, then its wrapped lines.
pub open spec fn enc_node(n: TextNodeV, width: int, x: int) -> Seq<u8> {
    let lines = wrap_spec(n.content, cols_for(width, x, n.font_size));
    enc_u32(n.font_size) + enc_u32(n.line_height) + enc_u64(lines.len() as int) + enc_line_list(
        lines,
    )
}

/// Byte form of a run list, in order.
pub open spec fn enc_node_list(ns: Seq<TextNodeV>, width: int, x: int) -> Seq<u8>
    decreases ns.len(),
{
    if ns.len() == 0 {
        Seq::empty()
    } else {
        enc_node(ns[0], width, x) + enc_node_list(ns.skip(1), width, x)
    }
}

/// Byte form of one block. The image branch is only meaningful when the
/// block resolves (`block_ok`); elsewhere the renderer reports an error
/// instead of emitting anything.
#[verifier::opaque]
pub open spec fn enc_block(b: PdfBlockV, width: int, assets: Seq<AssetV>) -> Seq<u8> {
    match b {
        PdfBlockV::Image { path, dpi, x, y } => match lookup(assets, path) {
            Some(a) => match png_dims(a.data) {
                Some(wh) => seq![TAG_IMAGE] + enc_i32(x) + enc_i32(y) + enc_u64(
                    placed_len(wh.0, dpi),
                ) + enc_u64(placed_len(wh.1, dpi)) + enc_bytes(a.data),
                None => Seq::empty(),
            },
            None => Seq::empty(),
        },
        PdfBlockV::TextSection { nodes, x, y } => seq![TAG_TEXT] + enc_i32(x) + enc_i32(y)
            + enc_u64(nodes.len() as int) + enc_node_list(nodes, width, x),
    }
}

/// Byte form of a block list, in order.
pub open spec fn enc_block_list(bs: Seq<PdfBlockV>, width: int, assets: Seq<AssetV>) -> Seq<u8>
    decreases bs.len(),
{
    if bs.len() == 0 {
        Seq::empty()
    } else {
        enc_block(bs[0], width, assets) + enc_block_list(bs.skip(1), width, assets)
    }
}

/// Does one block resolve against the assets? Text always does; an image
/// needs a listed asset with a decodable PNG header.
pub open spec fn block_ok(b: PdfBlockV, assets: Seq<AssetV>) -> bool {
    match b {
        PdfBlockV::Image { path, .. } => match lookup(assets, path) {
            Some(a) => png_dims(a.data) is Some,
            None => false,
        },
        PdfBlockV::TextSection { .. } => true,
    }
}

/// Does every block of the document resolve?
pub open spec fn doc_ok(d: DocV, assets: Seq<AssetV>) -> bool {
    forall|i: int| 0 <= i < d.blocks.len() ==> block_ok(#[trigger] d.blocks[i], assets)
}

/// The whole artifact: magic, version, canvas size, block count, blocks.
pub open spec fn artifact_spec(d: DocV, assets: Seq<AssetV>) -> Seq<u8> {
    seq![80u8, 68u8, 70u8, 66u8, 1u8] + enc_u32(d.width) + enc_u32(d.height) + enc_u64(
        d.blocks.len() as int,
    ) + enc_block_list(d.blocks, d.width, assets)
}

proof fn lemma_enc_line_list_snoc(ls: Seq<Seq<u8>>, x: Seq<u8>)
    ensures
        enc_line_list(ls + seq![x]) == enc_line_list(ls) + enc_bytes(x),
    decreases ls.len(),
{
    if ls.len() == 0 {
        assert(ls + seq![x] =~= seq![x]);
        assert((seq![x]).skip(1) =~= Seq::<Seq<u8>>::empty());
        assert(enc_line_list(Seq::<Seq<u8>>::empty()) == Seq::<u8>::empty());
        assert(enc_line_list(seq![x]) == enc_bytes(x) + enc_line_list((seq![x]).skip(1)));
        assert(enc_line_list(ls + seq![x]) =~= enc_line_list(ls) + enc_bytes(x));
    } else {
        assert((ls + seq![x])[0] == ls[0]);
        assert((ls + seq![x]).skip(1) =~= ls.skip(1) + seq![x]);
        lemma_enc_line_list_snoc(ls.skip(1), x);
        assert(enc_line_list(ls + seq![x]) == enc_bytes(ls[0]) + enc_line_list(
            ls.skip(1) + seq![x],
        ));
        assert(enc_line_list(ls) == enc_bytes(ls[0]) + enc_line_list(ls.skip(1)));
        assert(enc_bytes(ls[0]) + (enc_line_list(ls.skip(1)) + enc_bytes(x)) =~= (enc_bytes(ls[0])
            + enc_line_list(ls.skip(1))) + enc_bytes(x));
    }
}

proof fn lemma_enc_node_list_snoc(ns: Seq<TextNodeV>, n: TextNodeV, width: int, x: int)
    ensures
        enc_node_list(ns + seq![n], width, x) == enc_node_list(ns, width, x) + enc_node(
            n,
            width,
            x,
        ),
    decreases ns.len(),
{
    if ns.len() == 0 {
        assert(ns + seq![n] =~= seq![n]);
        assert((seq![n]).skip(1) =~= Seq::<TextNodeV>::empty());
        assert(enc_node_list(Seq::<TextNodeV>::empty(), width, x) == Seq::<u8>::empty());
        assert(enc_node_list(seq![n], width, x) == enc_node(n, width, x) + enc_node_list(
            (seq![n]).skip(1),
            width,
            x,
        ));
        assert(enc_node_list(ns + seq![n], width, x) =~= enc_node_list(ns, width, x) + enc_node(
            n,
            width,
            x,
        ));
    } else {
        assert((ns + seq![n])[0] == ns[0]);
        assert((ns + seq![n]).skip(1) =~= ns.skip(1) + seq![n]);
        lemma_enc_node_list_snoc(ns.skip(1), n, width, x);
        assert(enc_node_list(ns + seq![n], width, x) == enc_node(ns[0], width, x) + enc_node_list(
            ns.skip(1) + seq![n],
            width,
            x,
        ));
        assert(enc_node_list(ns, width, x) == enc_node(ns[0], width, x) + enc_node_list(
            ns.skip(1),
            width,
            x,
        ));
        assert(enc_node(ns[0], width, x) + (enc_node_list(ns.skip(1), width, x) + enc_node(
            n,
            width,
            x,
        )) =~= (enc_node(ns[0], width, x) + enc_node_list(ns.skip(1), width, x)) + enc_node(
            n,
            width,
            x,
        ));
    }
}

proof fn lemma_enc_block_list_snoc(bs: Seq<PdfBlockV>, b: PdfBlockV, width: int, assets: Seq<AssetV>)
    ensures
        enc_block_list(bs + seq![b], width, assets) == enc_block_list(bs, width, assets)
            + enc_block(b, width, assets),
    decreases bs.len(),
{
    if bs.len() == 0 {
        assert(bs + seq![b] =~= seq![b]);
        assert((seq![b]).skip(1) =~= Seq::<PdfBlockV>::empty());
        assert(enc_block_list(Seq::<PdfBlockV>::empty(), width, assets) == Seq::<u8>::empty());
        assert(enc_block_list(seq![b], width, assets) == enc_block(b, width, assets)
            + enc_block_list((seq![b]).skip(1), width, assets));
        assert(enc_block_list(bs + seq![b], width, assets) =~= enc_block_list(bs, width, assets)
            + enc_block(b, width, assets));
    } else {
        assert((bs + seq![b])[0] == bs[0]);
        assert((bs + seq![b]).skip(1) =~= bs.skip(1) + seq![b]);
        lemma_enc_block_list_snoc(bs.skip(1), b, width, assets);
        assert(enc_block_list(bs + seq![b], width, assets) == enc_block(bs[0], width, assets)
            + enc_block_list(bs.skip(1) + seq![b], width, assets));
        assert(enc_block_list(bs, width, assets) == enc_block(bs[0], width, assets)
            + enc_block_list(bs.skip(1), width, assets));
        assert(enc_block(bs[0], width, assets) + (enc_block_list(bs.skip(1), width, assets)
            + enc_block(b, width, assets)) =~= (enc_block(bs[0], width, assets) + enc_block_list(
            bs.skip(1),
            width,
            assets,
        )) + enc_block(b, width, assets));
    }
}

/// The vertical position of line `index` of a run whose section cursor
/// stands at `y`: the cursor advances by the run's line height once per
/// emitted line, past the canvas boundary if need be (no clipping and no
/// automatic pagination). `None` exactly when the position leaves the
/// signed 64-bit range.
pub fn line_position(y: i32, line_height: u32, index: u64) -> (r: Option<i64>)
    ensures
        y + index * line_height <= i64::MAX ==> (r matches Some(v) && v == y + index
            * line_height),
        y + index * line_height > i64::MAX ==> r is None,
{
    proof {
        assert(index * line_height <= u64::MAX * u32::MAX) by (nonlinear_arith)
            requires
                0 <= index <= u64::MAX,
                0 <= line_height <= u32::MAX,
        ;
    }
    let prod: u128 = (index as u128) * (line_height as u128);
    let sum: i128 = (y as i128) + (prod as i128);
    if sum <= i64::MAX as i128 {
        Some(sum as i64)
    } else {
        None
    }
}

/// Byte-string equality, decided element by element.
pub fn bytes_eq(a: &Vec<u8>, b: &Vec<u8>) -> (r: bool)
    ensures
        r == (a@ == b@),
{
    if a.len() != b.len() {
        return false;
    }
    let mut i: usize = 0;
    while i < a.len()
        invariant
            i <= a@.len(),
            a@.len() == b@.len(),
            forall|j: int| 0 <= j < i ==> a@[j] == b@[j],
        decreases a@.len() - i,
    {
        if a[i] != b[i] {
            return false;
        }
        i = i + 1;
    }
    proof {
        assert(a@ =~= b@);
    }
    true
}

/// The first asset whose path matches, as `lookup` describes.
pub fn find_asset<'a>(assets: &'a Vec<Asset>, path: &Vec<u8>) -> (r: Option<&'a Asset>)
    ensures
        match lookup(assets@.map_values(|a: Asset| a@), path@) {
            Some(av) => r matches Some(a) && a@ == av,
            None => r is None,
        },
{
    let ghost av = assets@.map_values(|a: Asset| a@);
    assert(av.skip(0) =~= av);
    let mut i: usize = 0;
    while i < assets.len()
        invariant
            i <= av.len(),
            av == assets@.map_values(|a: Asset| a@),
            lookup(av, path@) == lookup(av.skip(i as int), path@),
        decreases av.len() - i,
    {
        assert(av.skip(i as int)[0] == av[i as int]);
        if bytes_eq(&assets[i].path, path) {
            assert(lookup(av.skip(i as int), path@) == Some(av[i as int]));
            return Some(&assets[i]);
        }
        assert(lookup(av.skip(i as int), path@) == lookup(av.skip(i as int).skip(1), path@));
        assert(av.skip(i as int).skip(1) =~= av.skip(i as int + 1));
        i = i + 1;
    }
    assert(av.skip(av.len() as int) =~= Seq::<AssetV>::empty());
    None
}

/// Reads the intrinsic pixel dimensions from a PNG header, exactly as
/// `png_dims` describes.
pub fn parse_png_dims(data: &Vec<u8>) -> (r: Option<(u32, u32)>)
    ensures
        match png_dims(data@) {
            Some(wh) => r matches Some(p) && p.0 == wh.0 && p.1 == wh.1,
            None => r is None,
        },
{
    if data.len() < 24 {
        return None;
    }
    let sig_ok = data[0] == 137 && data[1] == 80 && data[2] == 78 && data[3] == 71 && data[4]
        == 13 && data[5] == 10 && data[6] == 26 && data[7] == 10;
    let tag_ok = data[12] == 73 && data[13] == 72 && data[14] == 68 && data[15] == 82;
    if !sig_ok {
        assert(data@.subrange(0, 8) != png_sig()) by {
            if data@.subrange(0, 8) == png_sig() {
                assert(forall|j: int| 0 <= j < 8 ==> data@[j] == #[trigger] png_sig()[j]);
            }
        }
        return None;
    }
    if !tag_ok {
        assert(data@.subrange(12, 16) != ihdr_tag()) by {
            if data@.subrange(12, 16) == ihdr_tag() {
                assert(forall|j: int| 0 <= j < 4 ==> data@[12 + j] == #[trigger] ihdr_tag()[j]);
            }
        }
        return None;
    }
    assert(data@.subrange(0, 8) =~= png_sig());
    assert(data@.subrange(12, 16) =~= ihdr_tag());
    let w: u32 = (data[16] as u32) * 16777216 + (data[17] as u32) * 65536 + (data[18] as u32)
        * 256 + (data[19] as u32);
    let h: u32 = (data[20] as u32) * 16777216 + (data[21] as u32) * 65536 + (data[22] as u32)
        * 256 + (data[23] as u32);
    if w >= 1 && h >= 1 {
        Some((w, h))
    } else {
        None
    }
}

/// How many bytes of a run fit on one line, exactly as `cols_for`
/// describes.
fn cols_exec(width: u32, x: i32, font_size: u32) -> (r: u64)
    ensures
        r as int == cols_for(width as int, x as int, font_size as int),
        r >= 1,
{
    let adv: i64 = if font_size / 2 < 1 {
        1
    } else {
        (font_size / 2) as i64
    };
    let avail: i64 = width as i64 - x as i64;
    if avail < adv {
        1
    } else {
        proof {
            assert(1 <= avail as int / adv as int <= avail as int) by (nonlinear_arith)
                requires
                    1 <= adv as int <= avail as int,
            ;
        }
        (avail / adv) as u64
    }
}

/// Emits one text run: style values, then its wrapped lines.
fn emit_node(out: &mut Vec<u8>, n: &TextNode, width: u32, x: i32)
    ensures
        final(out)@ == old(out)@ + enc_node(n@, width as int, x as int),
{
    emit_u32(out, n.font_size);
    emit_u32(out, n.line_height);
    let cols = cols_exec(width, x, n.font_size);
    let lines = wrap_line(&n.content, cols);
    let ghost lv = lines@.map_values(|l: Vec<u8>| l@);
    assert(lv == wrap_spec(n@.content, cols_for(width as int, x as int, n@.font_size)));
    emit_u64(out, lines.len() as u64);
    let ghost mid = out@;
    let mut i: usize = 0;
    while i < lines.len()
        invariant
            i <= lv.len(),
            lv == lines@.map_values(|l: Vec<u8>| l@),
            out@ == mid + enc_line_list(lv.take(i as int)),
        decreases lv.len() - i,
    {
        assert(lv[i as int] == lines@[i as int]@);
        emit_bytes(out, &lines[i]);
        proof {
            assert(lv.take(i as int + 1) =~= lv.take(i as int) + seq![lv[i as int]]);
            lemma_enc_line_list_snoc(lv.take(i as int), lv[i as int]);
            assert(out@ =~= mid + enc_line_list(lv.take(i as int + 1)));
        }
        i = i + 1;
    }
    assert(lv.take(lv.len() as int) =~= lv);
    assert(out@ =~= old(out)@ + enc_node(n@, width as int, x as int));
}

/// Emits one text section: tag, position, run count, runs in order.
fn emit_text_section(out: &mut Vec<u8>, nodes: &Vec<TextNode>, x: i32, y: i32, width: u32)
    ensures
        final(out)@ == old(out)@ + enc_block(
            PdfBlockV::TextSection { nodes: nodes@.map_values(|n: TextNode| n@), x: x as int, y: y as int },
            width as int,
            Seq::<AssetV>::empty(),
        ),
{
    proof {
        reveal(enc_block);
    }
    let ghost nv = nodes@.map_values(|n: TextNode| n@);
    out.push(TAG_TEXT);
    emit_i32(out, x);
    emit_i32(out, y);
    emit_u64(out, nodes.len() as u64);
    let ghost mid = out@;
    assert(mid =~= old(out)@ + (seq![TAG_TEXT] + enc_i32(x as int) + enc_i32(y as int) + enc_u64(
        nv.len() as int,
    )));
    let mut i: usize = 0;
    while i < nodes.len()
        invariant
            i <= nv.len(),
            nv == nodes@.map_values(|n: TextNode| n@),
            out@ == mid + enc_node_list(nv.take(i as int), width as int, x as int),
        decreases nv.len() - i,
    {
        assert(nv[i as int] == nodes@[i as int]@);
        emit_node(out, &nodes[i], width, x);
        proof {
            assert(nv.take(i as int + 1) =~= nv.take(i as int) + seq![nv[i as int]]);
            lemma_enc_node_list_snoc(nv.take(i as int), nv[i as int], width as int, x as int);
            assert(out@ =~= mid + enc_node_list(nv.take(i as int + 1), width as int, x as int));
        }
        i = i + 1;
    }
    assert(nv.take(nv.len() as int) =~= nv);
    assert(out@ =~= old(out)@ + enc_block(
        PdfBlockV::TextSection { nodes: nv, x: x as int, y: y as int },
        width as int,
        Seq::<AssetV>::empty(),
    ));
}

/// Renders a document against the supplied assets. The artifact is the
/// exact byte string `artifact_spec` gives; rendering fails, with
/// `AssetLoad` and nothing else, exactly when some image block does not
/// resolve. Rendering the same document and assets always yields the
/// same bytes.
#[verifier::rlimit(100)]
pub fn render(doc: &Doc, assets: &Vec<Asset>) -> (r: Result<Vec<u8>, PdfError>)
    requires
        doc@.wf(),
    ensures
        doc_ok(doc@, assets@.map_values(|a: Asset| a@)) ==> (r matches Ok(v) && v@
            == artifact_spec(doc@, assets@.map_values(|a: Asset| a@))),
        !doc_ok(doc@, assets@.map_values(|a: Asset| a@)) ==> r == Err::<Vec<u8>, PdfError>(
            PdfError::AssetLoad,
        ),
{
    let ghost av = assets@.map_values(|a: Asset| a@);
    let ghost bv = doc@.blocks;
    let mut out: Vec<u8> = Vec::new();
    out.push(80);
    out.push(68);
    out.push(70);
    out.push(66);
    out.push(1);
    emit_u32(&mut out, doc.width);
    emit_u32(&mut out, doc.height);
    emit_u64(&mut out, doc.blocks.len() as u64);
    let ghost header = out@;
    assert(header =~= seq![80u8, 68u8, 70u8, 66u8, 1u8] + enc_u32(doc@.width) + enc_u32(
        doc@.height,
    ) + enc_u64(bv.len() as int));
    let mut i: usize = 0;
    while i < doc.blocks.len()
        invariant
            i <= bv.len(),
            bv == doc@.blocks,
            av == assets@.map_values(|a: Asset| a@),
            doc@.wf(),
            header == seq![80u8, 68u8, 70u8, 66u8, 1u8] + enc_u32(doc@.width) + enc_u32(
                doc@.height,
            ) + enc_u64(bv.len() as int),
            out@ == header + enc_block_list(bv.take(i as int), doc@.width, av),
            forall|j: int| 0 <= j < i ==> block_ok(#[trigger] bv[j], av),
        decreases bv.len() - i,
    {
        proof {
            reveal(enc_block);
        }
        let ghost prev = out@;
        assert(bv[i as int] == doc.blocks@[i as int]@);
        assert(bv[i as int].wf());
        let b = &doc.blocks[i];
        match b {
            PdfBlock::Image { path, dpi, pos } => {
                match find_asset(assets, path) {
                    None => {
                        assert(!block_ok(bv[i as int], av));
                        assert(!doc_ok(doc@, av));
                        return Err(PdfError::AssetLoad);
                    },
                    Some(a) => {
                        match parse_png_dims(&a.data) {
                            None => {
                                assert(!block_ok(bv[i as int], av));
                                assert(!doc_ok(doc@, av));
                                return Err(PdfError::AssetLoad);
                            },
                            Some((w, h)) => {
                                out.push(TAG_IMAGE);
                                emit_i32(&mut out, pos.x);
                                emit_i32(&mut out, pos.y);
                                let pw: u64 = (w as u64) * UNITS_PER_INCH / (*dpi as u64);
                                let ph: u64 = (h as u64) * UNITS_PER_INCH / (*dpi as u64);
                                assert(pw as int == placed_len(w as int, *dpi as int));
                                assert(ph as int == placed_len(h as int, *dpi as int));
                                emit_u64(&mut out, pw);
                                emit_u64(&mut out, ph);
                                emit_bytes(&mut out, &a.data);
                                assert(block_ok(bv[i as int], av));
                                assert(out@ =~= prev + enc_block(bv[i as int], doc@.width, av));
                            },
                        }
                    },
                }
            },
            PdfBlock::TextSection { nodes, pos } => {
                emit_text_section(&mut out, nodes, pos.x, pos.y, doc.width);
                assert(block_ok(bv[i as int], av));
                assert(out@ =~= prev + enc_block(bv[i as int], doc@.width, av));
            },
        }
        proof {
            assert(bv.take(i as int + 1) =~= bv.take(i as int) + seq![bv[i as int]]);
            lemma_enc_block_list_snoc(bv.take(i as int), bv[i as int], doc@.width, av);
            assert(out@ =~= header + enc_block_list(bv.take(i as int + 1), doc@.width, av));
        }
        i = i + 1;
    }
    assert(bv.take(bv.len() as int) =~= bv);
    assert(doc_ok(doc@, av));
    assert(out@ =~= artifact_spec(doc@, av));
    Ok(out)
}

} // verus!
