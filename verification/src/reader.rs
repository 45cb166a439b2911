//! A conforming reader for the artifact: the parsing rules in
//! specification form, an executable extractor held to them, and the
//! proof that the reader recovers a rendered document's text exactly.
//!
//! The reader walks the artifact: it checks the magic, reads the block
//! count, skips image payloads by their length prefixes, and collects
//! every text line of every run in order. The round-trip theorem states
//! that on `artifact_spec` of any resolvable document it returns exactly
//! the document's wrapped lines.

use vstd::prelude::*;

use crate::codec::{dec_u64, enc_bytes, enc_i32, enc_u32, enc_u64, lemma_dec_enc_u64};
use crate::model::{AssetV, DocV, PdfBlockV, TextNodeV};
use crate::render::{
    artifact_spec, block_ok, cols_for, doc_ok, enc_block, enc_block_list, enc_line_list, enc_node,
    enc_node_list, lemma_cols_bound, lookup, png_dims, placed_len, TAG_IMAGE, TAG_TEXT,
};
use crate::wrap::{lemma_wrap_count, lemma_wrap_line_bounds, sub_bytes, wrap_spec};

verus! {

/// One upper bound shared by every length prefix in the artifact.
pub open spec fn fits_u64(n: int) -> bool {
    n < 0x1_0000_0000_0000_0000
}

/// Reads a 64-bit length prefix: its value and the next offset.
pub open spec fn take_u64(b: Seq<u8>, i: int) -> Option<(int, int)> {
    if 0 <= i && i + 8 <= b.len() {
        Some((dec_u64(b, i), i + 8))
    } else {
        None
    }
}

/// Reads one length-prefixed byte string.
pub open spec fn read_line(b: Seq<u8>, i: int) -> Option<(Seq<u8>, int)> {
    match take_u64(b, i) {
        Some((len, j)) => if 0 <= len && j + len <= b.len() {
            Some((b.subrange(j, j + len), j + len))
        } else {
            None
        },
        None => None,
    }
}

/// Reads `n` lines in sequence.
pub open spec fn read_lines(b: Seq<u8>, i: int, n: nat) -> Option<(Seq<Seq<u8>>, int)>
    decreases n,
{
    if n == 0 {
        Some((Seq::empty(), i))
    } else {
        match read_line(b, i) {
            Some((l, j)) => match read_lines(b, j, (n - 1) as nat) {
                Some((ls, k)) => Some((seq![l] + ls, k)),
                None => None,
            },
            None => None,
        }
    }
}

/// Reads one text run: the style values are skipped, the line count is
/// read, the lines are collected.
pub open spec fn read_node(b: Seq<u8>, i: int) -> Option<(Seq<Seq<u8>>, int)> {
    match take_u64(b, i + 8) {
        Some((n, j)) => if n >= 0 {
            read_lines(b, j, n as nat)
        } else {
            None
        },
        None => None,
    }
}

/// Reads `n` runs in sequence, collecting all their lines.
pub open spec fn read_nodes(b: Seq<u8>, i: int, n: nat) -> Option<(Seq<Seq<u8>>, int)>
    decreases n,
{
    if n == 0 {
        Some((Seq::empty(), i))
    } else {
        match read_node(b, i) {
            Some((ls, j)) => match read_nodes(b, j, (n - 1) as nat) {
                Some((more, k)) => Some((ls + more, k)),
                None => None,
            },
            None => None,
        }
    }
}

/// Reads one block: an image contributes no text and its payload is
/// skipped by its length prefix; a text section contributes its lines.
pub open spec fn read_block(b: Seq<u8>, i: int) -> Option<(Seq<Seq<u8>>, int)> {
    if !(0 <= i && i + 1 <= b.len()) {
        None
    } else if b[i] == TAG_IMAGE {
        match take_u64(b, i + 25) {
            Some((len, j)) => if 0 <= len && j + len <= b.len() {
                Some((Seq::empty(), j + len))
            } else {
                None
            },
            None => None,
        }
    } else if b[i] == TAG_TEXT {
        match take_u64(b, i + 9) {
            Some((n, j)) => if n >= 0 {
                read_nodes(b, j, n as nat)
            } else {
                None
            },
            None => None,
        }
    } else {
        None
    }
}

/// Reads `n` blocks in sequence, collecting all their lines.
pub open spec fn read_blocks(b: Seq<u8>, i: int, n: nat) -> Option<(Seq<Seq<u8>>, int)>
    decreases n,
{
    if n == 0 {
        Some((Seq::empty(), i))
    } else {
        match read_block(b, i) {
            Some((ls, j)) => match read_blocks(b, j, (n - 1) as nat) {
                Some((more, k)) => Some((ls + more, k)),
                None => None,
            },
            None => None,
        }
    }
}

/// All text lines of an artifact, provided the magic matches, every
/// block reads, and the bytes end exactly where the last block does.
pub open spec fn artifact_lines(b: Seq<u8>) -> Option<Seq<Seq<u8>>> {
    if b.len() >= 21 && b.subrange(0, 5) == seq![80u8, 68u8, 70u8, 66u8, 1u8] {
        match take_u64(b, 13) {
            Some((n, _j)) => if n >= 0 {
                match read_blocks(b, 21, n as nat) {
                    Some((ls, k)) => if k == b.len() {
                        Some(ls)
                    } else {
                        None
                    },
                    None => None,
                }
            } else {
                None
            },
            None => None,
        }
    } else {
        None
    }
}

/// The wrapped lines of one run, as placed on the canvas.
pub open spec fn node_lines(n: TextNodeV, width: int, x: int) -> Seq<Seq<u8>> {
    wrap_spec(n.content, cols_for(width, x, n.font_size))
}

/// The wrapped lines of a run list, in order.
pub open spec fn nodes_lines(ns: Seq<TextNodeV>, width: int, x: int) -> Seq<Seq<u8>>
    decreases ns.len(),
{
    if ns.len() == 0 {
        Seq::empty()
    } else {
        node_lines(ns[0], width, x) + nodes_lines(ns.skip(1), width, x)
    }
}

/// The text lines one block contributes: none for an image.
pub open spec fn block_lines(bk: PdfBlockV, width: int) -> Seq<Seq<u8>> {
    match bk {
        PdfBlockV::Image { .. } => Seq::empty(),
        PdfBlockV::TextSection { nodes, x, .. } => nodes_lines(nodes, width, x),
    }
}

/// The text lines of a block list, in order.
pub open spec fn blocks_lines(bs: Seq<PdfBlockV>, width: int) -> Seq<Seq<u8>>
    decreases bs.len(),
{
    if bs.len() == 0 {
        Seq::empty()
    } else {
        block_lines(bs[0], width) + blocks_lines(bs.skip(1), width)
    }
}

/// Every text line of the document, in paint order.
pub open spec fn doc_lines(d: DocV) -> Seq<Seq<u8>> {
    blocks_lines(d.blocks, d.width)
}

/// The size bounds that every executable document and asset list
/// satisfies: counts and byte lengths fit the 64-bit length prefixes,
/// and values fit the stored unit ranges.
pub open spec fn block_fits(bk: PdfBlockV, assets: Seq<AssetV>) -> bool {
    match bk {
        PdfBlockV::Image { path, .. } => match lookup(assets, path) {
            Some(a) => fits_u64(a.data.len() as int),
            None => true,
        },
        PdfBlockV::TextSection { nodes, x, .. } => {
            &&& fits_u64(nodes.len() as int)
            &&& i32::MIN <= x <= i32::MAX
            &&& forall|j: int|
                0 <= j < nodes.len() ==> fits_u64(((#[trigger] nodes[j]).content.len() + 1) as int)
        },
    }
}

/// The whole document's size bounds.
pub open spec fn doc_fits(d: DocV, assets: Seq<AssetV>) -> bool {
    &&& fits_u64(d.blocks.len() as int)
    &&& d.width <= u32::MAX
    &&& forall|i: int| 0 <= i < d.blocks.len() ==> block_fits(#[trigger] d.blocks[i], assets)
}

/// Reads the 64-bit length prefix at `i`, exactly as `take_u64`
/// describes.
pub fn read_u64_at(b: &Vec<u8>, i: usize) -> (r: Option<(u64, usize)>)
    ensures
        match take_u64(b@, i as int) {
            Some(p) => r matches Some(q) && q.0 == p.0 && q.1 == p.1,
            None => r is None,
        },
{
    if i <= b.len() && b.len() - i >= 8 {
        let v: u64 = (b[i] as u64) + (b[i + 1] as u64) * 256 + (b[i + 2] as u64) * 65536 + (b[i
            + 3] as u64) * 16777216 + (b[i + 4] as u64) * 4294967296 + (b[i + 5] as u64)
            * 1099511627776 + (b[i + 6] as u64) * 281474976710656 + (b[i + 7] as u64)
            * 72057594037927936;
        assert(v as int == dec_u64(b@, i as int));
        Some((v, i + 8))
    } else {
        None
    }
}

/// `o` with `acc` prepended to its line list.
pub open spec fn with_acc(acc: Seq<Seq<u8>>, o: Option<(Seq<Seq<u8>>, int)>) -> Option<
    (Seq<Seq<u8>>, int),
> {
    match o {
        Some((ls, k)) => Some((acc + ls, k)),
        None => None,
    }
}

/// `o` with one more line list in front of its own.
pub open spec fn cons_acc(ls0: Seq<Seq<u8>>, o: Option<(Seq<Seq<u8>>, int)>) -> Option<
    (Seq<Seq<u8>>, int),
> {
    match o {
        Some((ls, k)) => Some((ls0 + ls, k)),
        None => None,
    }
}

proof fn lemma_with_acc_cons(acc: Seq<Seq<u8>>, ls0: Seq<Seq<u8>>, o: Option<(Seq<Seq<u8>>, int)>)
    ensures
        with_acc(acc, cons_acc(ls0, o)) == with_acc(acc + ls0, o),
{
    match o {
        Some((ls, k)) => {
            assert(acc + (ls0 + ls) =~= (acc + ls0) + ls);
        },
        None => {},
    }
}

proof fn lemma_pad_empty(t: Seq<u8>)
    ensures
        t + Seq::<u8>::empty() == t,
{
    assert(t + Seq::<u8>::empty() =~= t);
}

proof fn lemma_shape_two(p: Seq<u8>, a: Seq<u8>, t: Seq<u8>, r: Seq<u8>)
    ensures
        (p + (a + t)) + r == (p + a) + (t + r),
{
    assert((p + (a + t)) + r =~= (p + a) + (t + r));
}

proof fn lemma_shape_node(p: Seq<u8>, a: Seq<u8>, b: Seq<u8>, u: Seq<u8>, t: Seq<u8>, r: Seq<u8>)
    ensures
        (p + (((a + b) + u) + t)) + r == (((p + a) + b) + u) + (t + r),
{
    assert((p + (((a + b) + u) + t)) + r =~= (((p + a) + b) + u) + (t + r));
}

proof fn lemma_read_line_enc(pre: Seq<u8>, l: Seq<u8>, rest: Seq<u8>)
    requires
        fits_u64(l.len() as int),
    ensures
        read_line(pre + enc_bytes(l) + rest, pre.len() as int) == Some(
            (l, pre.len() as int + 8 + l.len()),
        ),
{
    let b = pre + enc_bytes(l) + rest;
    let n = pre.len() as int;
    let u = enc_u64(l.len() as int);
    assert(enc_bytes(l) == u + l);
    lemma_shape_two(pre, u, l, rest);
    assert(b == (pre + u) + (l + rest));
    lemma_dec_enc_u64(pre, l.len() as int, l + rest);
    assert(take_u64(b, n) == Some((l.len() as int, n + 8)));
    assert(b.subrange(n + 8, n + 8 + l.len()) =~= l);
}

#[verifier::rlimit(100)]
proof fn lemma_read_lines_enc(pre: Seq<u8>, ls: Seq<Seq<u8>>, rest: Seq<u8>)
    requires
        forall|i: int| 0 <= i < ls.len() ==> fits_u64((#[trigger] ls[i]).len() as int),
    ensures
        read_lines(pre + enc_line_list(ls) + rest, pre.len() as int, ls.len()) == Some(
            (ls, pre.len() as int + enc_line_list(ls).len()),
        ),
    decreases ls.len(),
{
    if ls.len() == 0 {
        assert(enc_line_list(ls) == Seq::<u8>::empty());
        assert(ls =~= Seq::<Seq<u8>>::empty());
        lemma_pad_empty(pre);
        assert((pre + Seq::<u8>::empty()) + rest =~= pre + rest);
    } else {
        let l0 = ls[0];
        let b = pre + enc_line_list(ls) + rest;
        let e0 = enc_bytes(l0);
        let tail = enc_line_list(ls.skip(1));
        assert(enc_line_list(ls) == e0 + tail);
        lemma_shape_two(pre, e0, tail, rest);
        assert(b == (pre + e0) + (tail + rest));
        lemma_read_line_enc(pre, l0, tail + rest);
        assert(read_line(b, pre.len() as int) == Some((l0, pre.len() as int + 8 + l0.len())));
        let pre2 = pre + e0;
        assert(pre2.len() == pre.len() + 8 + l0.len());
        lemma_shape_tail(pre2, tail, rest);
        assert(b == (pre2 + tail) + rest);
        lemma_read_lines_enc(pre2, ls.skip(1), rest);
        assert(read_lines(b, pre2.len() as int, ls.skip(1).len()) == Some(
            (ls.skip(1), pre2.len() as int + tail.len()),
        ));
        assert(seq![l0] + ls.skip(1) =~= ls);
        assert(read_lines(b, pre.len() as int, ls.len()) == Some(
            (ls, pre.len() as int + enc_line_list(ls).len()),
        ));
    }
}

#[verifier::rlimit(100)]
proof fn lemma_read_node_enc(pre: Seq<u8>, n: TextNodeV, width: int, x: int, rest: Seq<u8>)
    requires
        fits_u64((n.content.len() + 1) as int),
        i32::MIN <= x <= i32::MAX,
        0 <= width <= u32::MAX,
    ensures
        read_node(pre + enc_node(n, width, x) + rest, pre.len() as int) == Some(
            (node_lines(n, width, x), pre.len() as int + enc_node(n, width, x).len()),
        ),
{
    let cols = cols_for(width, x, n.font_size);
    let lines = wrap_spec(n.content, cols);
    lemma_cols_bound(width, x, n.font_size);
    lemma_wrap_count(n.content, cols);
    lemma_wrap_line_bounds(n.content, cols);
    assert(forall|i: int| 0 <= i < lines.len() ==> fits_u64((#[trigger] lines[i]).len() as int));
    let b = pre + enc_node(n, width, x) + rest;
    let fa = enc_u32(n.font_size);
    let fb = enc_u32(n.line_height);
    let u = enc_u64(lines.len() as int);
    let t = enc_line_list(lines);
    assert(enc_node(n, width, x) == ((fa + fb) + u) + t);
    lemma_shape_node(pre, fa, fb, u, t, rest);
    assert(b == (((pre + fa) + fb) + u) + (t + rest));
    let pre2 = (pre + fa) + fb;
    assert(pre2.len() == pre.len() + 8);
    lemma_dec_enc_u64(pre2, lines.len() as int, t + rest);
    assert(take_u64(b, pre.len() as int + 8) == Some(
        (lines.len() as int, pre.len() as int + 16),
    ));
    let pre3 = pre2 + u;
    assert(pre3.len() == pre.len() + 16);
    assert(b == (pre3 + t) + rest) by {
        assert((((pre + fa) + fb) + u) + (t + rest) =~= (pre3 + t) + rest);
    }
    lemma_read_lines_enc(pre3, lines, rest);
    assert(read_lines(b, pre3.len() as int, lines.len()) == Some(
        (lines, pre3.len() as int + t.len()),
    ));
    assert(enc_node(n, width, x).len() == 16 + t.len());
}

#[verifier::rlimit(100)]
proof fn lemma_read_nodes_enc(pre: Seq<u8>, ns: Seq<TextNodeV>, width: int, x: int, rest: Seq<u8>)
    requires
        forall|j: int| 0 <= j < ns.len() ==> fits_u64(((#[trigger] ns[j]).content.len() + 1) as int),
        i32::MIN <= x <= i32::MAX,
        0 <= width <= u32::MAX,
    ensures
        read_nodes(pre + enc_node_list(ns, width, x) + rest, pre.len() as int, ns.len()) == Some(
            (nodes_lines(ns, width, x), pre.len() as int + enc_node_list(ns, width, x).len()),
        ),
    decreases ns.len(),
{
    if ns.len() == 0 {
        assert(enc_node_list(ns, width, x) == Seq::<u8>::empty());
        assert(nodes_lines(ns, width, x) =~= Seq::<Seq<u8>>::empty());
        lemma_pad_empty(pre);
        assert((pre + Seq::<u8>::empty()) + rest =~= pre + rest);
    } else {
        let n0 = ns[0];
        let b = pre + enc_node_list(ns, width, x) + rest;
        let e0 = enc_node(n0, width, x);
        let tail = enc_node_list(ns.skip(1), width, x);
        assert(enc_node_list(ns, width, x) == e0 + tail);
        lemma_shape_two(pre, e0, tail, rest);
        assert(b == (pre + e0) + (tail + rest));
        lemma_read_node_enc(pre, n0, width, x, tail + rest);
        let pre2 = pre + e0;
        lemma_shape_tail(pre2, tail, rest);
        assert(b == (pre2 + tail) + rest);
        lemma_read_nodes_enc(pre2, ns.skip(1), width, x, rest);
        assert(nodes_lines(ns, width, x) == node_lines(n0, width, x) + nodes_lines(
            ns.skip(1),
            width,
            x,
        ));
        assert(read_nodes(b, pre.len() as int, ns.len()) == Some(
            (nodes_lines(ns, width, x), pre.len() as int + enc_node_list(ns, width, x).len()),
        ));
    }
}

proof fn lemma_shape_mid(p: Seq<u8>, m: Seq<u8>, u: Seq<u8>, t: Seq<u8>, r: Seq<u8>)
    ensures
        (p + ((m + u) + t)) + r == ((p + m) + u) + (t + r),
{
    assert((p + ((m + u) + t)) + r =~= ((p + m) + u) + (t + r));
}

proof fn lemma_shape_img(p: Seq<u8>, m: Seq<u8>, u: Seq<u8>, d: Seq<u8>, r: Seq<u8>)
    ensures
        (p + (m + (u + d))) + r == ((p + m) + u) + (d + r),
{
    assert((p + (m + (u + d))) + r =~= ((p + m) + u) + (d + r));
}

proof fn lemma_shape_tail(a: Seq<u8>, t: Seq<u8>, r: Seq<u8>)
    ensures
        a + (t + r) == (a + t) + r,
{
    assert(a + (t + r) =~= (a + t) + r);
}

proof fn lemma_read_block_enc_image(
    pre: Seq<u8>,
    bk: PdfBlockV,
    width: int,
    assets: Seq<AssetV>,
    rest: Seq<u8>,
)
    requires
        bk is Image,
        block_ok(bk, assets),
        block_fits(bk, assets),
    ensures
        read_block(pre + enc_block(bk, width, assets) + rest, pre.len() as int) == Some(
            (block_lines(bk, width), pre.len() as int + enc_block(bk, width, assets).len()),
        ),
{
    reveal(enc_block);
    let b = pre + enc_block(bk, width, assets) + rest;
    let n = pre.len() as int;
    let path = bk->Image_path;
    let dpi = bk->Image_dpi;
    let x = bk->Image_x;
    let y = bk->Image_y;
    let a = lookup(assets, path)->Some_0;
    let wh = png_dims(a.data)->Some_0;
    let mid = seq![TAG_IMAGE] + enc_i32(x) + enc_i32(y) + enc_u64(placed_len(wh.0, dpi)) + enc_u64(
        placed_len(wh.1, dpi),
    );
    let u = enc_u64(a.data.len() as int);
    assert(mid.len() == 25);
    assert(enc_block(bk, width, assets) == mid + enc_bytes(a.data));
    assert(enc_bytes(a.data) == u + a.data);
    assert(mid[0] == TAG_IMAGE);
    assert(enc_block(bk, width, assets)[0] == mid[0]);
    assert(b[n] == enc_block(bk, width, assets)[0]);
    lemma_shape_img(pre, mid, u, a.data, rest);
    assert(b == ((pre + mid) + u) + (a.data + rest));
    lemma_dec_enc_u64(pre + mid, a.data.len() as int, a.data + rest);
    assert(take_u64(b, n + 25) == Some((a.data.len() as int, n + 33)));
    assert(n + 33 + a.data.len() <= b.len());
    assert(read_block(b, n) == Some((Seq::<Seq<u8>>::empty(), n + 33 + a.data.len())));
    assert(enc_block(bk, width, assets).len() == 33 + a.data.len());
}

proof fn lemma_read_block_enc_text(
    pre: Seq<u8>,
    bk: PdfBlockV,
    width: int,
    assets: Seq<AssetV>,
    rest: Seq<u8>,
)
    requires
        bk is TextSection,
        block_fits(bk, assets),
        0 <= width <= u32::MAX,
    ensures
        read_block(pre + enc_block(bk, width, assets) + rest, pre.len() as int) == Some(
            (block_lines(bk, width), pre.len() as int + enc_block(bk, width, assets).len()),
        ),
{
    reveal(enc_block);
    let b = pre + enc_block(bk, width, assets) + rest;
    let n = pre.len() as int;
    let nodes = bk->TextSection_nodes;
    let x = bk->TextSection_x;
    let y = bk->TextSection_y;
    let mid = seq![TAG_TEXT] + enc_i32(x) + enc_i32(y);
    let u = enc_u64(nodes.len() as int);
    let nl = enc_node_list(nodes, width, x);
    assert(mid.len() == 9);
    assert(enc_block(bk, width, assets) == (mid + u) + nl);
    assert(mid[0] == TAG_TEXT);
    assert(enc_block(bk, width, assets)[0] == mid[0]);
    assert(b[n] == enc_block(bk, width, assets)[0]);
    assert(TAG_TEXT != TAG_IMAGE);
    lemma_shape_mid(pre, mid, u, nl, rest);
    assert(b == ((pre + mid) + u) + (nl + rest));
    lemma_dec_enc_u64(pre + mid, nodes.len() as int, nl + rest);
    assert(take_u64(b, n + 9) == Some((nodes.len() as int, n + 17)));
    let pre2 = (pre + mid) + u;
    assert(pre2.len() == n + 17);
    lemma_shape_tail(pre2, nl, rest);
    assert(b == (pre2 + nl) + rest);
    lemma_read_nodes_enc(pre2, nodes, width, x, rest);
    assert(read_nodes(b, n + 17, nodes.len()) == Some(
        (nodes_lines(nodes, width, x), pre2.len() as int + nl.len()),
    ));
    assert(read_block(b, n) == Some(
        (block_lines(bk, width), pre.len() as int + enc_block(bk, width, assets).len()),
    ));
}

proof fn lemma_read_block_enc(
    pre: Seq<u8>,
    bk: PdfBlockV,
    width: int,
    assets: Seq<AssetV>,
    rest: Seq<u8>,
)
    requires
        block_ok(bk, assets),
        block_fits(bk, assets),
        0 <= width <= u32::MAX,
    ensures
        read_block(pre + enc_block(bk, width, assets) + rest, pre.len() as int) == Some(
            (block_lines(bk, width), pre.len() as int + enc_block(bk, width, assets).len()),
        ),
{
    match bk {
        PdfBlockV::Image { .. } => lemma_read_block_enc_image(pre, bk, width, assets, rest),
        PdfBlockV::TextSection { .. } => lemma_read_block_enc_text(pre, bk, width, assets, rest),
    }
}

#[verifier::rlimit(100)]
proof fn lemma_read_blocks_enc(pre: Seq<u8>, bs: Seq<PdfBlockV>, width: int, assets: Seq<AssetV>, rest: Seq<u8>)
    requires
        forall|i: int| 0 <= i < bs.len() ==> block_ok(#[trigger] bs[i], assets),
        forall|i: int| 0 <= i < bs.len() ==> block_fits(#[trigger] bs[i], assets),
        0 <= width <= u32::MAX,
    ensures
        read_blocks(pre + enc_block_list(bs, width, assets) + rest, pre.len() as int, bs.len())
            == Some((blocks_lines(bs, width), pre.len() as int + enc_block_list(bs, width, assets).len())),
    decreases bs.len(),
{
    if bs.len() == 0 {
        assert(enc_block_list(bs, width, assets) == Seq::<u8>::empty());
        assert(blocks_lines(bs, width) =~= Seq::<Seq<u8>>::empty());
    } else {
        let b0 = bs[0];
        let b = pre + enc_block_list(bs, width, assets) + rest;
        assert(enc_block_list(bs, width, assets) == enc_block(b0, width, assets) + enc_block_list(
            bs.skip(1),
            width,
            assets,
        ));
        let e0 = enc_block(b0, width, assets);
        let tail = enc_block_list(bs.skip(1), width, assets);
        lemma_shape_two(pre, e0, tail, rest);
        assert(b == (pre + e0) + (tail + rest));
        lemma_read_block_enc(pre, b0, width, assets, tail + rest);
        let pre2 = pre + e0;
        lemma_shape_tail(pre2, tail, rest);
        assert(b == (pre2 + tail) + rest);
        lemma_read_blocks_enc(pre2, bs.skip(1), width, assets, rest);
        assert(blocks_lines(bs, width) == block_lines(b0, width) + blocks_lines(
            bs.skip(1),
            width,
        ));
        assert(read_blocks(b, pre.len() as int, bs.len()) == Some(
            (blocks_lines(bs, width), pre.len() as int + enc_block_list(bs, width, assets).len()),
        ));
    }
}

/// Round trip: on the artifact of any document whose blocks all resolve
/// (and whose sizes fit the length prefixes, as every executable value
/// does), a conforming reader recovers exactly the document's wrapped
/// text lines, in paint order.
pub proof fn lemma_artifact_text_round_trip(d: DocV, assets: Seq<AssetV>)
    requires
        d.wf(),
        doc_ok(d, assets),
        doc_fits(d, assets),
    ensures
        artifact_lines(artifact_spec(d, assets)) == Some(doc_lines(d)),
{
    let b = artifact_spec(d, assets);
    let magic = seq![80u8, 68u8, 70u8, 66u8, 1u8];
    let pre13 = magic + enc_u32(d.width) + enc_u32(d.height);
    assert(pre13.len() == 13);
    assert(b =~= pre13 + enc_u64(d.blocks.len() as int) + (enc_block_list(
        d.blocks,
        d.width,
        assets,
    ) + Seq::<u8>::empty()));
    lemma_dec_enc_u64(pre13, d.blocks.len() as int, enc_block_list(d.blocks, d.width, assets)
        + Seq::<u8>::empty());
    assert(take_u64(b, 13) == Some((d.blocks.len() as int, 21int)));
    assert(b.subrange(0, 5) =~= magic);
    let pre21 = pre13 + enc_u64(d.blocks.len() as int);
    assert(pre21.len() == 21);
    assert(b =~= pre21 + enc_block_list(d.blocks, d.width, assets) + Seq::<u8>::empty());
    lemma_read_blocks_enc(pre21, d.blocks, d.width, assets, Seq::<u8>::empty());
    assert(read_blocks(b, 21, d.blocks.len()) == Some(
        (blocks_lines(d.blocks, d.width), 21int + enc_block_list(d.blocks, d.width, assets).len()),
    ));
    assert(21 + enc_block_list(d.blocks, d.width, assets).len() == b.len());
}

proof fn lemma_read_lines_bound(b: Seq<u8>, i: int, n: nat)
    requires
        0 <= i <= b.len(),
    ensures
        read_lines(b, i, n) matches Some(p) ==> 0 <= p.1 <= b.len(),
    decreases n,
{
    if n > 0 {
        match read_line(b, i) {
            Some((l, j)) => {
                lemma_read_lines_bound(b, j, (n - 1) as nat);
            },
            None => {},
        }
    }
}

proof fn lemma_read_node_bound(b: Seq<u8>, i: int)
    ensures
        read_node(b, i) matches Some(p) ==> 0 <= p.1 <= b.len(),
{
    match take_u64(b, i + 8) {
        Some((n, j)) => {
            if n >= 0 {
                lemma_read_lines_bound(b, j, n as nat);
            }
        },
        None => {},
    }
}

proof fn lemma_read_nodes_bound(b: Seq<u8>, i: int, n: nat)
    requires
        0 <= i <= b.len(),
    ensures
        read_nodes(b, i, n) matches Some(p) ==> 0 <= p.1 <= b.len(),
    decreases n,
{
    if n > 0 {
        match read_node(b, i) {
            Some((ls, j)) => {
                lemma_read_node_bound(b, i);
                lemma_read_nodes_bound(b, j, (n - 1) as nat);
            },
            None => {},
        }
    }
}

proof fn lemma_read_block_bound(b: Seq<u8>, i: int)
    ensures
        read_block(b, i) matches Some(p) ==> 0 <= p.1 <= b.len(),
{
    if 0 <= i && i + 1 <= b.len() && b[i] == TAG_TEXT {
        match take_u64(b, i + 9) {
            Some((n, j)) => {
                if n >= 0 {
                    lemma_read_nodes_bound(b, j, n as nat);
                }
            },
            None => {},
        }
    }
}

/// Reads one text run, appending its lines, exactly as `read_node`
/// describes. On malformed bytes the collected lines are meaningless and
/// `None` is returned.
pub fn read_node_exec(art: &Vec<u8>, off: usize, lines: &mut Vec<Vec<u8>>) -> (r: Option<usize>)
    ensures
        match read_node(art@, off as int) {
            Some((ls, j)) => r matches Some(j2) && j2 as int == j && final(lines)@.map_values(
                |l: Vec<u8>| l@,
            ) == old(lines)@.map_values(|l: Vec<u8>| l@) + ls,
            None => r is None,
        },
{
    let blen = art.len();
    if blen < 16 || off > blen - 16 {
        assert(take_u64(art@, off as int + 8) is None);
        return None;
    }
    let lcount: u64 = match read_u64_at(art, off + 8) {
        Some(p) => p.0,
        None => {
            proof {
                assert(false);
            }
            return None;
        },
    };
    assert(take_u64(art@, off as int + 8) == Some((lcount as int, off as int + 16)));
    let ghost c = read_lines(art@, off as int + 16, lcount as nat);
    assert(read_node(art@, off as int) == c);
    let ghost lm0 = old(lines)@.map_values(|l: Vec<u8>| l@);
    let mut offl: usize = off + 16;
    let mut reml: u64 = lcount;
    while reml > 0
        invariant
            offl <= blen,
            blen == art@.len(),
            c == read_lines(art@, off as int + 16, lcount as nat),
            read_node(art@, off as int) == c,
            lm0 == old(lines)@.map_values(|l: Vec<u8>| l@),
            with_acc(lines@.map_values(|l: Vec<u8>| l@), read_lines(art@, offl as int, reml as nat))
                == with_acc(lm0, c),
        decreases reml,
    {
        let ghost offl_old = offl as int;
        let ghost lm_now = lines@.map_values(|l: Vec<u8>| l@);
        if blen - offl < 8 {
            assert(take_u64(art@, offl_old) is None);
            assert(read_line(art@, offl_old) is None);
            assert(read_lines(art@, offl_old, reml as nat) is None);
            assert(c is None);
            return None;
        }
        let llen: u64 = match read_u64_at(art, offl) {
            Some(p) => p.0,
            None => {
                proof {
                    assert(false);
                }
                return None;
            },
        };
        assert(take_u64(art@, offl_old) == Some((llen as int, offl_old + 8)));
        if llen > (blen - (offl + 8)) as u64 {
            assert(read_line(art@, offl_old) is None);
            assert(read_lines(art@, offl_old, reml as nat) is None);
            assert(c is None);
            return None;
        }
        let lu: usize = llen as usize;
        let l = sub_bytes(art, offl + 8, offl + 8 + lu);
        let ghost lsub = art@.subrange(offl_old + 8, offl_old + 8 + llen as int);
        assert(l@ == lsub);
        assert(read_line(art@, offl_old) == Some((lsub, offl_old + 8 + llen as int)));
        lines.push(l);
        assert(lines@.map_values(|l2: Vec<u8>| l2@) =~= lm_now + seq![lsub]);
        offl = offl + 8 + lu;
        reml = reml - 1;
        proof {
            assert(read_lines(art@, offl_old, (reml + 1) as nat) == cons_acc(
                seq![lsub],
                read_lines(art@, offl as int, reml as nat),
            ));
            lemma_with_acc_cons(lm_now, seq![lsub], read_lines(art@, offl as int, reml as nat));
        }
    }
    let ghost lm_end = lines@.map_values(|l: Vec<u8>| l@);
    assert(read_lines(art@, offl as int, 0) == Some((Seq::<Seq<u8>>::empty(), offl as int)));
    assert(lm_end + Seq::<Seq<u8>>::empty() =~= lm_end);
    assert(with_acc(lm0, c) == Some((lm_end, offl as int)));
    assert(c matches Some(p) && lm0 + p.0 == lm_end && p.1 == offl as int);
    Some(offl)
}

/// Reads one block, appending any text lines, exactly as `read_block`
/// describes.
pub fn read_block_exec(art: &Vec<u8>, off: usize, lines: &mut Vec<Vec<u8>>) -> (r: Option<usize>)
    ensures
        match read_block(art@, off as int) {
            Some((ls, j)) => r matches Some(j2) && j2 as int == j && final(lines)@.map_values(
                |l: Vec<u8>| l@,
            ) == old(lines)@.map_values(|l: Vec<u8>| l@) + ls,
            None => r is None,
        },
{
    let blen = art.len();
    if off >= blen {
        assert(read_block(art@, off as int) is None);
        return None;
    }
    let tag = art[off];
    if tag == TAG_IMAGE {
        if blen - off < 33 {
            assert(take_u64(art@, off as int + 25) is None);
            assert(read_block(art@, off as int) is None);
            return None;
        }
        let dlen: u64 = match read_u64_at(art, off + 25) {
            Some(p) => p.0,
            None => {
                proof {
                    assert(false);
                }
                return None;
            },
        };
        assert(take_u64(art@, off as int + 25) == Some((dlen as int, off as int + 33)));
        if dlen > (blen - (off + 33)) as u64 {
            assert(read_block(art@, off as int) is None);
            return None;
        }
        let j: usize = off + 33 + dlen as usize;
        assert(read_block(art@, off as int) == Some((Seq::<Seq<u8>>::empty(), j as int)));
        assert(old(lines)@.map_values(|l: Vec<u8>| l@) + Seq::<Seq<u8>>::empty() =~= old(
            lines,
        )@.map_values(|l: Vec<u8>| l@));
        Some(j)
    } else if tag == TAG_TEXT {
        if blen - off < 17 {
            assert(take_u64(art@, off as int + 9) is None);
            assert(read_block(art@, off as int) is None);
            return None;
        }
        let ncount: u64 = match read_u64_at(art, off + 9) {
            Some(p) => p.0,
            None => {
                proof {
                    assert(false);
                }
                return None;
            },
        };
        assert(take_u64(art@, off as int + 9) == Some((ncount as int, off as int + 17)));
        let ghost c = read_nodes(art@, off as int + 17, ncount as nat);
        assert(read_block(art@, off as int) == c);
        let ghost lm0 = old(lines)@.map_values(|l: Vec<u8>| l@);
        let mut offn: usize = off + 17;
        let mut remn: u64 = ncount;
        while remn > 0
            invariant
                offn <= blen,
                blen == art@.len(),
                c == read_nodes(art@, off as int + 17, ncount as nat),
                read_block(art@, off as int) == c,
                lm0 == old(lines)@.map_values(|l: Vec<u8>| l@),
                with_acc(
                    lines@.map_values(|l: Vec<u8>| l@),
                    read_nodes(art@, offn as int, remn as nat),
                ) == with_acc(lm0, c),
            decreases remn,
        {
            let ghost offn_old = offn as int;
            let ghost lm_now = lines@.map_values(|l: Vec<u8>| l@);
            let next = read_node_exec(art, offn, lines);
            match next {
                None => {
                    assert(read_node(art@, offn_old) is None);
                    assert(read_nodes(art@, offn_old, remn as nat) is None);
                    assert(c is None);
                    return None;
                },
                Some(j) => {
                    let ghost nls = read_node(art@, offn_old)->Some_0.0;
                    assert(read_node(art@, offn_old) matches Some(p) && p.0 == nls && p.1
                        == j as int);
                    assert(lines@.map_values(|l: Vec<u8>| l@) == lm_now + nls);
                    proof {
                        lemma_read_node_bound(art@, offn_old);
                    }
                    assert(j <= blen);
                    offn = j;
                    remn = remn - 1;
                    proof {
                        assert(read_nodes(art@, offn_old, (remn + 1) as nat) == cons_acc(
                            nls,
                            read_nodes(art@, offn as int, remn as nat),
                        ));
                        lemma_with_acc_cons(lm_now, nls, read_nodes(art@, offn as int, remn as nat));
                    }
                },
            }
        }
        let ghost lm_end = lines@.map_values(|l: Vec<u8>| l@);
        assert(read_nodes(art@, offn as int, 0) == Some((Seq::<Seq<u8>>::empty(), offn as int)));
        assert(lm_end + Seq::<Seq<u8>>::empty() =~= lm_end);
        assert(with_acc(lm0, c) == Some((lm_end, offn as int)));
        assert(c matches Some(p) && lm0 + p.0 == lm_end && p.1 == offn as int);
        Some(offn)
    } else {
        assert(read_block(art@, off as int) is None);
        None
    }
}

/// Extracts every text line from an artifact, exactly as the conforming
/// reader `artifact_lines` describes; `None` for malformed bytes.
pub fn extract_lines(art: &Vec<u8>) -> (r: Option<Vec<Vec<u8>>>)
    ensures
        match artifact_lines(art@) {
            Some(ls) => r matches Some(v) && v@.map_values(|l: Vec<u8>| l@) == ls,
            None => r is None,
        },
{
    let blen = art.len();
    if blen < 21 {
        return None;
    }
    if !(art[0] == 80 && art[1] == 68 && art[2] == 70 && art[3] == 66 && art[4] == 1) {
        assert(art@.subrange(0, 5) != seq![80u8, 68u8, 70u8, 66u8, 1u8]) by {
            if art@.subrange(0, 5) == seq![80u8, 68u8, 70u8, 66u8, 1u8] {
                assert(forall|j: int|
                    0 <= j < 5 ==> #[trigger] art@[j] == seq![80u8, 68u8, 70u8, 66u8, 1u8][j]);
            }
        }
        return None;
    }
    assert(art@.subrange(0, 5) =~= seq![80u8, 68u8, 70u8, 66u8, 1u8]);
    let total: u64 = match read_u64_at(art, 13) {
        Some(p) => p.0,
        None => {
            proof {
                assert(false);
            }
            return None;
        },
    };
    assert(take_u64(art@, 13) == Some((total as int, 21int)));
    let mut lines: Vec<Vec<u8>> = Vec::new();
    let mut off: usize = 21;
    let mut rem: u64 = total;
    let ghost goal = read_blocks(art@, 21, total as nat);
    assert(lines@.map_values(|l: Vec<u8>| l@) =~= Seq::<Seq<u8>>::empty());
    assert(with_acc(Seq::<Seq<u8>>::empty(), goal) == goal) by {
        match goal {
            Some((ls, k)) => {
                assert(Seq::<Seq<u8>>::empty() + ls =~= ls);
            },
            None => {},
        }
    }
    while rem > 0
        invariant
            off <= art@.len(),
            art@.len() >= 21,
            art@.subrange(0, 5) == seq![80u8, 68u8, 70u8, 66u8, 1u8],
            take_u64(art@, 13) == Some((total as int, 21int)),
            goal == read_blocks(art@, 21, total as nat),
            with_acc(lines@.map_values(|l: Vec<u8>| l@), read_blocks(art@, off as int, rem as nat))
                == goal,
        decreases rem,
    {
        let ghost off_old = off as int;
        let ghost lm_now = lines@.map_values(|l: Vec<u8>| l@);
        let next = read_block_exec(art, off, &mut lines);
        match next {
            None => {
                assert(read_block(art@, off_old) is None);
                assert(read_blocks(art@, off_old, rem as nat) is None);
                assert(goal is None);
                return None;
            },
            Some(j) => {
                let ghost bls = read_block(art@, off_old)->Some_0.0;
                assert(read_block(art@, off_old) matches Some(p) && p.0 == bls && p.1 == j as int);
                assert(lines@.map_values(|l: Vec<u8>| l@) == lm_now + bls);
                proof {
                    lemma_read_block_bound(art@, off_old);
                }
                assert(j <= art@.len());
                off = j;
                rem = rem - 1;
                proof {
                    assert(read_blocks(art@, off_old, (rem + 1) as nat) == cons_acc(
                        bls,
                        read_blocks(art@, off as int, rem as nat),
                    ));
                    lemma_with_acc_cons(lm_now, bls, read_blocks(art@, off as int, rem as nat));
                }
            },
        }
    }
    let ghost lm_end = lines@.map_values(|l: Vec<u8>| l@);
    assert(read_blocks(art@, off as int, 0) == Some((Seq::<Seq<u8>>::empty(), off as int)));
    assert(lm_end + Seq::<Seq<u8>>::empty() =~= lm_end);
    assert(goal == Some((lm_end, off as int)));
    if off == art.len() {
        assert(artifact_lines(art@) == Some(lm_end));
        Some(lines)
    } else {
        assert(artifact_lines(art@) is None);
        None
    }
}

} // verus!
