//! The speaker encoder: its layers, the rows that its strided convolutions keep, the segments
//! that its context is pooled over.

use vstd::prelude::*;
use vstd::string::StringExecFns;
use crate::plan;
use crate::plan::ConvPlan;
use crate::plan::ConvShape;
use crate::text;

verus! {

/// Channels that each dense layer adds.
pub const GROWTH: usize = 32;

/// Channels of the bottleneck of a dense layer.
pub const BOTTLENECK: usize = 128;

/// Frames of a pooling segment.
pub const SEGMENT: usize = 100;

/// Dense layers of block `b`.
pub open spec fn block_layers(b: int) -> int {
    if b == 0 {
        12
    } else if b == 1 {
        24
    } else {
        16
    }
}

/// Dilation of the layers of block `b`.
pub open spec fn block_dilation(b: int) -> int {
    if b == 0 {
        1
    } else {
        2
    }
}

/// Channels before block `b`: each block adds its growth, and what follows it halves them.
pub open spec fn channels_before(b: int) -> int
    decreases b,
{
    if b <= 0 {
        128
    } else {
        (channels_before(b - 1) + block_layers(b - 1) * 32) / 2
    }
}

/// The channels before the three blocks and after the last.
pub proof fn lemma_channels()
    ensures
        channels_before(0) == 128,
        channels_before(1) == 256,
        channels_before(2) == 512,
        channels_before(3) == 512,
{
    reveal_with_fuel(channels_before, 4);
}

/// A convolution of one tap without a bias.
pub open spec fn pointwise(prefix: Seq<char>, inputs: int, outputs: int) -> ConvShape {
    ConvShape { bias: false, ..plan::conv_shape(prefix, inputs, outputs, 1, 1, 0) }
}

/// A convolution of one tap without a bias.
fn pointwise_conv(prefix: String, inputs: usize, outputs: usize) -> (c: ConvPlan)
    ensures
        c@ == pointwise(prefix@, inputs as int, outputs as int),
{
    ConvPlan {
        prefix,
        in_channels: inputs,
        out_channels: outputs,
        kernel: 1,
        stride: 1,
        padding: 0,
        dilation: 1,
        groups: 1,
        bias: false,
    }
}

/// A batch norm: where its weights stand, its channels, whether it scales.
pub struct NormPlan {
    /// Where its weights stand.
    pub prefix: String,
    /// Its channels.
    pub channels: usize,
    /// Whether it has a scale and a shift of its own.
    pub affine: bool,
}

/// Whether a norm is the one with the given name and size.
pub open spec fn is_norm(n: NormPlan, prefix: Seq<char>, channels: int, affine: bool) -> bool {
    n.prefix@ == prefix && n.channels == channels && n.affine == affine
}

/// A norm with the given name and size.
fn norm(prefix: String, channels: usize, affine: bool) -> (n: NormPlan)
    ensures
        is_norm(n, prefix@, channels as int, affine),
{
    NormPlan { prefix, channels, affine }
}

/// A dense layer.
pub struct DensePlan {
    /// The norm of all channels so far.
    pub bn1: NormPlan,
    /// The convolution into the bottleneck.
    pub linear1: ConvPlan,
    /// The norm of the bottleneck.
    pub bn2: NormPlan,
    /// The dilated convolution.
    pub local: ConvPlan,
    /// The first convolution of the context mask.
    pub mask1: ConvPlan,
    /// The second convolution of the context mask.
    pub mask2: ConvPlan,
}

/// Where the weights of layer `i` of block `b` stand.
pub open spec fn dense_name(b: int, i: int) -> Seq<char> {
    plan::numbered_name(
        plan::numbered_name("xvector.block"@, (b + 1) as nat) + ".tdnnd"@,
        (i + 1) as nat,
    )
}

/// Whether a plan is that of layer `i` of block `b`.
pub open spec fn is_dense(l: DensePlan, b: int, i: int) -> bool {
    let n = dense_name(b, i);
    let inputs = channels_before(b) + 32 * i;
    let d = block_dilation(b);
    &&& is_norm(l.bn1, n + ".nonlinear1.batchnorm"@, inputs, true)
    &&& l.linear1@ == pointwise(n + ".linear1"@, inputs, 128)
    &&& is_norm(l.bn2, n + ".nonlinear2.batchnorm"@, 128, true)
    &&& l.local@ == (ConvShape {
        dilation: d,
        bias: false,
        ..plan::conv_shape(n + ".cam_layer.linear_local"@, 128, 32, 3, 1, d)
    })
    &&& l.mask1@ == plan::conv_shape(n + ".cam_layer.linear1"@, 128, 64, 1, 1, 0)
    &&& l.mask2@ == plan::conv_shape(n + ".cam_layer.linear2"@, 64, 32, 1, 1, 0)
}

/// The layer `i` of block `b`, which `inputs` channels enter.
fn dense(b: usize, i: usize, inputs: usize, dilation: usize) -> (l: DensePlan)
    requires
        b < 3,
        i < 24,
        inputs == channels_before(b as int) + 32 * i,
        dilation == block_dilation(b as int),
    ensures
        is_dense(l, b as int, i as int),
{
    let block: String = plan::numbered("xvector.block", b + 1);
    let stem: String = text::joined(block.as_str(), ".tdnnd");
    let name: String = plan::numbered(stem.as_str(), i + 1);
    let n: &str = name.as_str();
    DensePlan {
        bn1: norm(text::joined(n, ".nonlinear1.batchnorm"), inputs, true),
        linear1: pointwise_conv(text::joined(n, ".linear1"), inputs, BOTTLENECK),
        bn2: norm(text::joined(n, ".nonlinear2.batchnorm"), BOTTLENECK, true),
        local: ConvPlan {
            prefix: text::joined(n, ".cam_layer.linear_local"),
            in_channels: BOTTLENECK,
            out_channels: GROWTH,
            kernel: 3,
            stride: 1,
            padding: dilation,
            dilation,
            groups: 1,
            bias: false,
        },
        mask1: plan::conv(text::joined(n, ".cam_layer.linear1"), 128, 64, 1, 1, 0),
        mask2: plan::conv(text::joined(n, ".cam_layer.linear2"), 64, 32, 1, 1, 0),
    }
}

/// A block with what follows it.
pub struct BlockPlan {
    /// The dense layers.
    pub layers: Vec<DensePlan>,
    /// The norm after them.
    pub transit_norm: NormPlan,
    /// The convolution that halves the channels.
    pub transit: ConvPlan,
}

/// Whether a plan is that of block `b`.
pub open spec fn is_block(p: BlockPlan, b: int) -> bool {
    let n = plan::numbered_name("xvector.transit"@, (b + 1) as nat);
    let wide = channels_before(b) + 32 * block_layers(b);
    &&& p.layers.len() == block_layers(b)
    &&& forall|i: int| 0 <= i < p.layers.len() ==> is_dense(#[trigger] p.layers@[i], b, i)
    &&& is_norm(p.transit_norm, n + ".nonlinear.batchnorm"@, wide, true)
    &&& p.transit@ == pointwise(n + ".linear"@, wide, wide / 2)
}

/// A two-dimensional convolution of the front end, without a bias: rows are taken in steps.
pub struct RowConvPlan {
    /// Where its weights stand.
    pub prefix: String,
    /// Channels that come in.
    pub in_channels: usize,
    /// Channels that go out.
    pub out_channels: usize,
    /// Length of either side of the kernel.
    pub kernel: usize,
    /// Step of the rows.
    pub row_stride: usize,
    /// Zeros on every side.
    pub padding: usize,
}

/// Whether a plan is that of the convolution with the given name and sizes.
pub open spec fn is_row_conv(
    c: RowConvPlan,
    prefix: Seq<char>,
    inputs: int,
    outputs: int,
    kernel: int,
    stride: int,
    padding: int,
) -> bool {
    &&& c.prefix@ == prefix
    &&& c.in_channels == inputs
    &&& c.out_channels == outputs
    &&& c.kernel == kernel
    &&& c.row_stride == stride
    &&& c.padding == padding
}

/// A residual block of the front end.
pub struct ResPlan {
    /// The first convolution; it takes the steps.
    pub conv1: RowConvPlan,
    /// The norm after it.
    pub bn1: NormPlan,
    /// The second convolution.
    pub conv2: RowConvPlan,
    /// The norm after it.
    pub bn2: NormPlan,
    /// The convolution and norm of the shortcut, where the sizes change.
    pub shortcut: Option<(RowConvPlan, NormPlan)>,
}

/// Whether a plan is that of the residual block `prefix` with row steps of `stride`.
pub open spec fn is_res(r: ResPlan, prefix: Seq<char>, stride: int) -> bool {
    &&& is_row_conv(r.conv1, prefix + ".conv1"@, 32, 32, 3, stride, 1)
    &&& is_norm(r.bn1, prefix + ".bn1"@, 32, true)
    &&& is_row_conv(r.conv2, prefix + ".conv2"@, 32, 32, 3, 1, 1)
    &&& is_norm(r.bn2, prefix + ".bn2"@, 32, true)
    &&& r.shortcut is Some <==> stride != 1
    &&& r.shortcut is Some ==> is_row_conv(
        (r.shortcut->0).0,
        prefix + ".shortcut.0"@,
        32,
        32,
        1,
        stride,
        0,
    ) && is_norm((r.shortcut->0).1, prefix + ".shortcut.1"@, 32, true)
}

/// A convolution of the front end.
fn row_conv(
    prefix: String,
    in_channels: usize,
    out_channels: usize,
    kernel: usize,
    row_stride: usize,
    padding: usize,
) -> (c: RowConvPlan)
    ensures
        is_row_conv(
            c,
            prefix@,
            in_channels as int,
            out_channels as int,
            kernel as int,
            row_stride as int,
            padding as int,
        ),
{
    RowConvPlan { prefix, in_channels, out_channels, kernel, row_stride, padding }
}

/// The residual block `prefix` with row steps of `stride`.
fn res(prefix: &str, stride: usize) -> (r: ResPlan)
    ensures
        is_res(r, prefix@, stride as int),
{
    let shortcut: Option<(RowConvPlan, NormPlan)> = if stride != 1 {
        Some(
            (
                row_conv(text::joined(prefix, ".shortcut.0"), 32, 32, 1, stride, 0),
                norm(text::joined(prefix, ".shortcut.1"), 32, true),
            ),
        )
    } else {
        None
    };
    ResPlan {
        conv1: row_conv(text::joined(prefix, ".conv1"), 32, 32, 3, stride, 1),
        bn1: norm(text::joined(prefix, ".bn1"), 32, true),
        conv2: row_conv(text::joined(prefix, ".conv2"), 32, 32, 3, 1, 1),
        bn2: norm(text::joined(prefix, ".bn2"), 32, true),
        shortcut,
    }
}

/// The layers of the speaker encoder.
pub struct CamPlan {
    /// The first convolution of the front end.
    pub head_conv1: RowConvPlan,
    /// The norm after it.
    pub head_bn1: NormPlan,
    /// The residual blocks of the front end.
    pub head_res: Vec<ResPlan>,
    /// The last convolution of the front end.
    pub head_conv2: RowConvPlan,
    /// The norm after it.
    pub head_bn2: NormPlan,
    /// The convolution that halves the frames.
    pub tdnn: ConvPlan,
    /// The norm after it.
    pub tdnn_bn: NormPlan,
    /// The dense blocks.
    pub blocks: Vec<BlockPlan>,
    /// The norm after them.
    pub out_bn: NormPlan,
    /// The matrix of the embedding.
    pub dense: ConvPlan,
    /// The norm of the embedding.
    pub dense_bn: NormPlan,
}

/// The name of residual block `k` of the front end.
pub open spec fn res_name(k: int) -> Seq<char> {
    if k == 0 {
        "head.layer1.0"@
    } else if k == 1 {
        "head.layer1.1"@
    } else if k == 2 {
        "head.layer2.0"@
    } else {
        "head.layer2.1"@
    }
}

/// The block `b`.
fn block(b: usize, channels: usize, layers: usize, dilation: usize) -> (p: BlockPlan)
    requires
        b < 3,
        channels == channels_before(b as int),
        channels <= 512,
        layers == block_layers(b as int),
        dilation == block_dilation(b as int),
    ensures
        is_block(p, b as int),
{
    let mut out: Vec<DensePlan> = Vec::new();
    let mut i: usize = 0;
    while i < layers
        invariant
            b < 3,
            channels == channels_before(b as int),
            channels <= 512,
            layers == block_layers(b as int),
            dilation == block_dilation(b as int),
            i <= layers,
            out.len() == i,
            forall|k: int| 0 <= k < i ==> is_dense(#[trigger] out@[k], b as int, k),
        decreases layers - i,
    {
        out.push(dense(b, i, channels + i * GROWTH, dilation));
        i = i + 1;
    }
    let wide: usize = channels + layers * GROWTH;
    let name: String = plan::numbered("xvector.transit", b + 1);
    BlockPlan {
        layers: out,
        transit_norm: norm(
            text::joined(name.as_str(), ".nonlinear.batchnorm"),
            wide,
            true,
        ),
        transit: pointwise_conv(text::joined(name.as_str(), ".linear"), wide, wide / 2),
    }
}

/// The layers of the speaker encoder.
pub fn load_plan() -> (p: CamPlan)
    ensures
        is_row_conv(p.head_conv1, "head.conv1"@, 1, 32, 3, 1, 1),
        is_norm(p.head_bn1, "head.bn1"@, 32, true),
        p.head_res.len() == 4,
        forall|k: int|
            0 <= k < 4 ==> is_res(
                #[trigger] p.head_res@[k],
                res_name(k),
                if k % 2 == 0 {
                    2
                } else {
                    1
                },
            ),
        is_row_conv(p.head_conv2, "head.conv2"@, 32, 32, 3, 2, 1),
        is_norm(p.head_bn2, "head.bn2"@, 32, true),
        p.tdnn@ == (ConvShape {
            bias: false,
            ..plan::conv_shape("xvector.tdnn.linear"@, 320, 128, 5, 2, 2)
        }),
        is_norm(p.tdnn_bn, "xvector.tdnn.nonlinear.batchnorm"@, 128, true),
        p.blocks.len() == 3,
        forall|b: int| 0 <= b < 3 ==> is_block(#[trigger] p.blocks@[b], b),
        is_norm(p.out_bn, "xvector.out_nonlinear.batchnorm"@, channels_before(3), true),
        p.dense@ == pointwise("xvector.dense.linear"@, 2 * channels_before(3), 192),
        is_norm(p.dense_bn, "xvector.dense.nonlinear.batchnorm"@, 192, false),
{
    proof {
        lemma_channels();
    }
    let mut head_res: Vec<ResPlan> = Vec::new();
    head_res.push(res("head.layer1.0", 2));
    head_res.push(res("head.layer1.1", 1));
    head_res.push(res("head.layer2.0", 2));
    head_res.push(res("head.layer2.1", 1));
    let mut blocks: Vec<BlockPlan> = Vec::new();
    let mut channels: usize = 128;
    let mut b: usize = 0;
    while b < 3
        invariant
            b <= 3,
            channels == channels_before(b as int),
            channels <= 512,
            blocks.len() == b,
            forall|k: int| 0 <= k < b ==> is_block(#[trigger] blocks@[k], k),
        decreases 3 - b,
    {
        proof {
            lemma_channels();
        }
        let layers: usize = if b == 0 {
            12
        } else if b == 1 {
            24
        } else {
            16
        };
        let dilation: usize = if b == 0 { 1 } else { 2 };
        blocks.push(block(b, channels, layers, dilation));
        channels = (channels + layers * GROWTH) / 2;
        b = b + 1;
    }
    CamPlan {
        head_conv1: row_conv(String::from_str("head.conv1"), 1, 32, 3, 1, 1),
        head_bn1: norm(String::from_str("head.bn1"), 32, true),
        head_res,
        head_conv2: row_conv(String::from_str("head.conv2"), 32, 32, 3, 2, 1),
        head_bn2: norm(String::from_str("head.bn2"), 32, true),
        tdnn: ConvPlan {
            prefix: String::from_str("xvector.tdnn.linear"),
            in_channels: 320,
            out_channels: 128,
            kernel: 5,
            stride: 2,
            padding: 2,
            dilation: 1,
            groups: 1,
            bias: false,
        },
        tdnn_bn: norm(String::from_str("xvector.tdnn.nonlinear.batchnorm"), 128, true),
        blocks,
        out_bn: norm(String::from_str("xvector.out_nonlinear.batchnorm"), channels, true),
        dense: pointwise_conv(String::from_str("xvector.dense.linear"), channels * 2, 192),
        dense_bn: norm(String::from_str("xvector.dense.nonlinear.batchnorm"), 192, false),
    }
}

/// How many rows a step of `stride` keeps of `rows`.
pub open spec fn kept_count(rows: int, stride: int) -> int {
    (rows + stride - 1) / stride
}

/// The rows that a step of `stride` keeps of `rows`: every `stride`-th from the first on.
pub fn kept_rows(rows: usize, stride: usize) -> (v: Vec<usize>)
    requires
        0 < stride,
        rows + stride <= usize::MAX,
    ensures
        v.len() == kept_count(rows as int, stride as int),
        forall|k: int| 0 <= k < v.len() ==> #[trigger] v@[k] == k * stride && v@[k] < rows,
{
    let mut v: Vec<usize> = Vec::new();
    let mut at: usize = 0;
    assert(0 * stride == 0) by (nonlinear_arith);
    while at < rows
        invariant
            0 < stride,
            rows + stride <= usize::MAX,
            at == v.len() * stride,
            at < rows + stride,
            forall|k: int| 0 <= k < v.len() ==> #[trigger] v@[k] == k * stride && v@[k] < rows,
        decreases rows + stride - at,
    {
        v.push(at);
        proof {
            let n = v.len() as int;
            assert((n - 1) * stride + stride == n * stride) by (nonlinear_arith);
        }
        at = at + stride;
    }
    proof {
        let n = v.len() as int;
        let top = rows + stride - 1;
        vstd::arithmetic::div_mod::lemma_fundamental_div_mod_converse(
            top,
            stride as int,
            n,
            top - n * stride,
        );
    }
    v
}

/// The rows that are left after the convolutions of the front end that take steps of two.
pub open spec fn head_rows(bands: int) -> int {
    kept_count(kept_count(kept_count(bands, 2), 2), 2)
}

/// Of any number of bands the front end keeps one
/// row in eight, rounded up, and of the 80 that come in ten, which in 32 channels are the 320
/// values that the next layer takes.
pub proof fn law_head_keeps_one_row_in_eight(bands: int)
    requires
        0 <= bands,
    ensures
        head_rows(bands) == kept_count(bands, 8),
        32 * head_rows(80) == 320,
{
}

/// The segment `s` of `t` frames: where it starts and how long it is.
pub open spec fn segment(t: int, s: int) -> (int, int) {
    (s * 100, if t - s * 100 < 100 { t - s * 100 } else { 100 })
}

/// The segments of `t` frames.
pub fn segments(t: usize) -> (v: Vec<(usize, usize)>)
    requires
        t + 100 <= usize::MAX,
    ensures
        v.len() == (t + 99) / 100,
        forall|s: int|
            0 <= s < v.len() ==> (#[trigger] v@[s]).0 == segment(t as int, s).0 && v@[s].1
                == segment(t as int, s).1,
{
    let n: usize = (t + 99) / 100;
    let mut v: Vec<(usize, usize)> = Vec::new();
    let mut s: usize = 0;
    while s < n
        invariant
            n == (t + 99) / 100,
            s <= n,
            v.len() == s,
            forall|k: int|
                0 <= k < s ==> (#[trigger] v@[k]).0 == segment(t as int, k).0 && v@[k].1
                    == segment(t as int, k).1,
        decreases n - s,
    {
        let start: usize = s * SEGMENT;
        let left: usize = t - start;
        let len: usize = if left < SEGMENT { left } else { SEGMENT };
        v.push((start, len));
        s = s + 1;
    }
    v
}

/// The segments lie one after the other and cover all frames; none is empty.
pub proof fn law_segments_cover(t: int, s: int)
    requires
        0 <= s < (t + 99) / 100,
    ensures
        0 < segment(t, s).1 <= SEGMENT,
        segment(t, 0).0 == 0,
        s + 1 < (t + 99) / 100 ==> segment(t, s + 1).0 == segment(t, s).0 + segment(t, s).1,
        s + 1 == (t + 99) / 100 ==> segment(t, s).0 + segment(t, s).1 == t,
{
}

/// Every segment but the last one is full.
pub proof fn law_segments_are_full(t: int, s: int)
    requires
        0 <= s,
        s + 1 < (t + 99) / 100,
    ensures
        segment(t, s) == (100 * s, 100int),
{
}

/// Steps keep every row that is a whole number of steps from the first: as many as fit.
pub proof fn law_steps_keep_what_fits(rows: int, stride: int)
    requires
        0 < rows,
        0 < stride,
    ensures
        (kept_count(rows, stride) - 1) * stride < rows <= kept_count(rows, stride) * stride,
        kept_count(rows, 1) == rows,
{
    let k = kept_count(rows, stride);
    vstd::arithmetic::div_mod::lemma_fundamental_div_mod(rows + stride - 1, stride);
    vstd::arithmetic::div_mod::lemma_mod_bound(rows + stride - 1, stride);
    assert((k - 1) * stride == stride * k - stride) by (nonlinear_arith);
    assert(k * stride == stride * k) by (nonlinear_arith);
}

/// The dense layers of a block fit together: each takes what the one before took and the 32
/// channels that it gave, narrows them to 128, and weighs its 32 by a mask of as many that comes
/// through 64; none changes the number of frames.
pub proof fn law_dense_layers_grow(l: DensePlan, m: DensePlan, b: int, i: int, n: int)
    requires
        0 <= b < 3,
        0 <= i,
        is_dense(l, b, i),
        is_dense(m, b, i + 1),
    ensures
        m.linear1@.in_channels == l.linear1@.in_channels + l.local@.out_channels,
        l.local@.out_channels == 32,
        l.bn1.channels == l.linear1@.in_channels,
        l.linear1@.out_channels == l.bn2.channels && l.bn2.channels == l.local@.in_channels,
        l.local@.in_channels == 128 && l.mask1@.in_channels == 128,
        l.mask1@.out_channels == 64 && l.mask2@.in_channels == 64,
        l.mask2@.out_channels == l.local@.out_channels,
        l.local@.dilation == (if b == 0 {
            1int
        } else {
            2int
        }),
        plan::conv_len(l.local@, n) == n,
{
    let d = block_dilation(b);
    plan::lemma_lengths(l.local@, n, 3, 1, d, d);
    assert(d * (3 - 1) == 2 * d);
}

/// A block hands half of its channels on: those that came in and 32 for each of its layers, of
/// which there are 12, 24 and 16; the next block takes them.
pub proof fn law_blocks_halve_what_they_gather(p: BlockPlan, b: int)
    requires
        0 <= b < 3,
        is_block(p, b),
    ensures
        p.layers.len() == (if b == 0 {
            12int
        } else if b == 1 {
            24int
        } else {
            16int
        }),
        p.transit@.in_channels == p.layers@[0].linear1@.in_channels + 32 * p.layers.len(),
        p.transit_norm.channels == p.transit@.in_channels,
        2 * p.transit@.out_channels == p.transit@.in_channels,
        p.transit@.out_channels == channels_before(b + 1),
{
    lemma_channels();
    assert(is_dense(p.layers@[0], b, 0));
}

} // verus!
