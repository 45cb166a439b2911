//! The library's stated laws, as proof functions over the renderer's
//! mathematical model.

use vstd::prelude::*;

use crate::model::{AssetV, DocV, PdfBlockV};
use crate::reader::{doc_fits, doc_lines, lemma_artifact_text_round_trip};
use crate::render::{artifact_spec, doc_ok, enc_block, enc_block_list};

verus! {

/// Rendering is deterministic: one document and one asset list have
/// exactly one artifact, so rendering the same document twice — to two
/// different destinations — yields byte-identical output. `render`
/// ensures its result equals `artifact_spec`, so any two successful
/// results for the same inputs are the same bytes.
pub proof fn lemma_render_deterministic(d: DocV, assets: Seq<AssetV>, r1: Seq<u8>, r2: Seq<u8>)
    requires
        r1 == artifact_spec(d, assets),
        r2 == artifact_spec(d, assets),
    ensures
        r1 == r2,
{
}

/// Equal-length halves of one concatenation written both ways are the
/// same.
proof fn lemma_swap_concat(s1: Seq<u8>, s2: Seq<u8>)
    requires
        s1.len() == s2.len(),
        s1 + s2 == s2 + s1,
    ensures
        s1 == s2,
{
    assert(s1 =~= (s1 + s2).take(s1.len() as int));
    assert(s2 =~= (s2 + s1).take(s1.len() as int));
}

/// Concatenation cancels a shared prefix.
proof fn lemma_prefix_cancel(h: Seq<u8>, x: Seq<u8>, y: Seq<u8>)
    requires
        h + x == h + y,
    ensures
        x == y,
{
    assert(x =~= (h + x).skip(h.len() as int));
    assert(y =~= (h + y).skip(h.len() as int));
}

/// Content-order determinism: the artifact lists blocks in sequence
/// order, with no reordering and no z-order inference. For one canvas and
/// two blocks of equal encoded length, the document `[a, b]` and its swap
/// `[b, a]` produce identical artifacts exactly when the two blocks'
/// byte forms are identical — so swapping distinct visible content,
/// overlapping or not, changes the artifact.
#[verifier::rlimit(100)]
pub proof fn lemma_order_preserved(
    d1: DocV,
    d2: DocV,
    assets: Seq<AssetV>,
    a: PdfBlockV,
    b: PdfBlockV,
)
    requires
        d1.width == d2.width,
        d1.height == d2.height,
        d1.blocks == seq![a, b],
        d2.blocks == seq![b, a],
        enc_block(a, d1.width, assets).len() == enc_block(b, d1.width, assets).len(),
    ensures
        (artifact_spec(d1, assets) == artifact_spec(d2, assets)) <==> (enc_block(
            a,
            d1.width,
            assets,
        ) == enc_block(b, d1.width, assets)),
{
    let w = d1.width;
    let ea = enc_block(a, w, assets);
    let eb = enc_block(b, w, assets);
    let h = seq![80u8, 68u8, 70u8, 66u8, 1u8] + crate::codec::enc_u32(w) + crate::codec::enc_u32(
        d1.height,
    ) + crate::codec::enc_u64(2);
    assert(artifact_spec(d1, assets) == h + enc_block_list(seq![a, b], w, assets));
    assert(artifact_spec(d2, assets) == h + enc_block_list(seq![b, a], w, assets));
    assert((seq![a, b]).skip(1) =~= seq![b]);
    assert((seq![b, a]).skip(1) =~= seq![a]);
    assert((seq![b]).skip(1) =~= Seq::<PdfBlockV>::empty());
    assert((seq![a]).skip(1) =~= Seq::<PdfBlockV>::empty());
    assert(enc_block_list(Seq::<PdfBlockV>::empty(), w, assets) == Seq::<u8>::empty());
    assert((seq![a, b])[0] == a && (seq![b, a])[0] == b && (seq![a])[0] == a && (seq![b])[0] == b);
    assert(enc_block_list(seq![b], w, assets) == eb + enc_block_list(
        Seq::<PdfBlockV>::empty(),
        w,
        assets,
    ));
    assert(enc_block_list(seq![a], w, assets) == ea + enc_block_list(
        Seq::<PdfBlockV>::empty(),
        w,
        assets,
    ));
    assert(enc_block_list(seq![a, b], w, assets) == ea + enc_block_list(seq![b], w, assets));
    assert(enc_block_list(seq![b, a], w, assets) == eb + enc_block_list(seq![a], w, assets));
    assert(enc_block_list(seq![a, b], w, assets) == ea + (eb + Seq::<u8>::empty()));
    assert(enc_block_list(seq![b, a], w, assets) == eb + (ea + Seq::<u8>::empty()));
    assert(ea + (eb + Seq::<u8>::empty()) =~= ea + eb);
    assert(eb + (ea + Seq::<u8>::empty()) =~= eb + ea);
    if artifact_spec(d1, assets) == artifact_spec(d2, assets) {
        lemma_prefix_cancel(h, ea + eb, eb + ea);
        lemma_swap_concat(ea, eb);
    }
}

/// Text content is never lost in the byte stream: two documents whose
/// text lines differ — in content or in order — can never render to the
/// same artifact, because a conforming reader recovers the lines from
/// the bytes alone.
pub proof fn lemma_distinct_text_distinct_artifacts(d1: DocV, d2: DocV, assets: Seq<AssetV>)
    requires
        d1.wf(),
        d2.wf(),
        doc_ok(d1, assets),
        doc_ok(d2, assets),
        doc_fits(d1, assets),
        doc_fits(d2, assets),
        doc_lines(d1) != doc_lines(d2),
    ensures
        artifact_spec(d1, assets) != artifact_spec(d2, assets),
{
    if artifact_spec(d1, assets) == artifact_spec(d2, assets) {
        lemma_artifact_text_round_trip(d1, assets);
        lemma_artifact_text_round_trip(d2, assets);
    }
}

} // verus!
