//! The ECAPA speaker encoder: its settings, its layers, what it accepts.

use vstd::prelude::*;
use vstd::string::StringExecFns;
use crate::arith;
use crate::arith::Real;
use crate::config::MelConfig;
use crate::error;
use crate::error::Error;
use crate::plan;
use crate::plan::ConvPlan;
use crate::plan::ConvShape;
use crate::text;

verus! {

/// Settings of the encoder.
#[derive(Debug, Clone, Copy, PartialEq, Eq, Structural)]
pub struct EcapaConfig {
    /// Bands of the features that come in.
    pub n_mels: usize,
    /// Channels of the four stages.
    pub channels: usize,
    /// Channels after the stages are brought together.
    pub mfa_channels: usize,
    /// Parts that a stage splits its channels into.
    pub res2net_scale: usize,
    /// Channels of the squeeze.
    pub se_channels: usize,
    /// Channels of the attention of the pooling.
    pub attention_channels: usize,
    /// Values of an embedding.
    pub embedding_dim: usize,
    /// Samples per second that it expects.
    pub sample_rate: usize,
}

impl Default for EcapaConfig {
    /// The published sizes.
    fn default() -> (c: Self)
        ensures
            c == (EcapaConfig {
                n_mels: 80,
                channels: 1024,
                mfa_channels: 3072,
                res2net_scale: 8,
                se_channels: 128,
                attention_channels: 128,
                embedding_dim: 192,
                sample_rate: 16_000,
            }),
    {
        EcapaConfig {
            n_mels: 80,
            channels: 1024,
            mfa_channels: 3072,
            res2net_scale: 8,
            se_channels: 128,
            attention_channels: 128,
            embedding_dim: 192,
            sample_rate: 16_000,
        }
    }
}

/// A convolution with as much padding as keeps the length.
pub open spec fn tdnn_shape(
    prefix: Seq<char>,
    inputs: int,
    outputs: int,
    kernel: int,
    dilation: int,
) -> ConvShape {
    ConvShape {
        dilation,
        ..plan::conv_shape(prefix + ".conv"@, inputs, outputs, kernel, 1, dilation * (kernel - 1) / 2)
    }
}

/// A convolution with as much padding as keeps the length.
fn tdnn(prefix: &str, inputs: usize, outputs: usize, kernel: usize, dilation: usize) -> (c: ConvPlan)
    requires
        kernel == 1 || kernel == 3 || kernel == 5,
        1 <= dilation <= 4,
    ensures
        c@ == tdnn_shape(prefix@, inputs as int, outputs as int, kernel as int, dilation as int),
{
    assert(0 <= dilation * (kernel - 1) <= 16) by (nonlinear_arith)
        requires
            1 <= kernel <= 5,
            1 <= dilation <= 4,
    ;
    ConvPlan {
        prefix: text::joined(prefix, ".conv"),
        in_channels: inputs,
        out_channels: outputs,
        kernel,
        stride: 1,
        padding: dilation * (kernel - 1) / 2,
        dilation,
        groups: 1,
        bias: true,
    }
}

/// A stage of the encoder.
pub struct StagePlan {
    /// The convolution before the split.
    pub tdnn1: ConvPlan,
    /// The convolutions of the parts; the first part has none.
    pub parts: Vec<ConvPlan>,
    /// The convolution after the split.
    pub tdnn2: ConvPlan,
    /// The first convolution of the squeeze.
    pub se1: ConvPlan,
    /// The second convolution of the squeeze.
    pub se2: ConvPlan,
}

/// The name of stage `i`, of those after the stem.
pub open spec fn stage_name(i: int) -> Seq<char> {
    plan::numbered_name("blocks."@, (i + 1) as nat)
}

/// Whether a plan is that of stage `i`: the stages dilate by two, three and four.
pub open spec fn is_stage(p: StagePlan, cfg: EcapaConfig, i: int) -> bool {
    let n = stage_name(i);
    let c = cfg.channels as int;
    let part = c / cfg.res2net_scale as int;
    &&& p.tdnn1@ == tdnn_shape(n + ".tdnn1"@, c, c, 1, 1)
    &&& p.parts.len() == cfg.res2net_scale - 1
    &&& forall|k: int|
        0 <= k < p.parts.len() ==> (#[trigger] p.parts@[k])@ == tdnn_shape(
            plan::numbered_name(n + ".res2net_block.blocks."@, k as nat),
            part,
            part,
            3,
            i + 2,
        )
    &&& p.tdnn2@ == tdnn_shape(n + ".tdnn2"@, c, c, 1, 1)
    &&& p.se1@ == plan::conv_shape(n + ".se_block.conv1"@, c, cfg.se_channels as int, 1, 1, 0)
    &&& p.se2@ == plan::conv_shape(n + ".se_block.conv2"@, cfg.se_channels as int, c, 1, 1, 0)
}

/// The layers of the encoder. Behind each convolution of a stem, stage part or aggregation stands
/// a norm of as many channels as go out, under the same name with `norm` for `conv`.
pub struct EcapaPlan {
    /// The stem.
    pub stem: ConvPlan,
    /// The stages.
    pub stages: Vec<StagePlan>,
    /// What brings the stages together.
    pub mfa: ConvPlan,
    /// The first convolution of the pooling's attention.
    pub asp_tdnn: ConvPlan,
    /// The second convolution of the pooling's attention.
    pub asp_conv: ConvPlan,
    /// Channels of the norm after the pooling.
    pub asp_norm: usize,
    /// The matrix of the embedding.
    pub fc: ConvPlan,
}

impl EcapaConfig {
    /// Whether layers of these sizes can be built.
    pub open spec fn buildable(&self) -> bool {
        &&& 0 < self.res2net_scale
        &&& self.channels % self.res2net_scale == 0
        &&& self.channels * 3 <= usize::MAX
        &&& self.mfa_channels * 3 <= usize::MAX
    }

    /// Settings of the features: windows of 25 ms every 10 ms, over the whole band.
    pub fn feature_config<T: Real>(&self) -> (m: MelConfig<T>)
        ensures
            m.sample_rate == self.sample_rate,
            m.n_fft == 400,
            m.hop_length == self.sample_rate / 100,
            m.win_length == self.sample_rate / 40,
            m.n_mels == self.n_mels,
            arith::deterministic::<T>() ==> m.f_min == arith::whole::<T>(0),
            arith::deterministic::<T>() ==> m.f_max == arith::over(
                arith::count::<T>(self.sample_rate),
                arith::whole(2),
            ),
    {
        MelConfig {
            sample_rate: self.sample_rate,
            n_fft: 400,
            hop_length: self.sample_rate / 100,
            win_length: self.sample_rate / 40,
            n_mels: self.n_mels,
            f_min: T::whole(0),
            f_max: T::count(self.sample_rate).over(T::whole(2)),
        }
    }

    /// Tests the rate of a signal that is to be embedded.
    pub fn check_rate(&self, sample_rate: usize) -> (r: Result<(), Error>)
        ensures
            r is Ok <==> sample_rate == self.sample_rate,
            r is Err ==> error::input_error(
                r,
                "expected "@ + text::digits(self.sample_rate as nat) + " Hz input, got "@
                    + text::digits(sample_rate as nat) + " Hz (resample first)"@,
            ),
    {
        if sample_rate != self.sample_rate {
            let want: String = text::decimal(self.sample_rate as u64);
            let got: String = text::decimal(sample_rate as u64);
            let mut m: String = String::from_str("expected ");
            m.append(want.as_str());
            m.append(" Hz input, got ");
            m.append(got.as_str());
            m.append(" Hz (resample first)");
            return Err(Error::Input(m));
        }
        Ok(())
    }

    /// The layers of stage `i`.
    fn stage(&self, i: usize) -> (p: StagePlan)
        requires
            self.buildable(),
            i < 3,
        ensures
            is_stage(p, *self, i as int),
    {
        let name: String = plan::numbered("blocks.", i + 1);
        let n: &str = name.as_str();
        let c: usize = self.channels;
        let part: usize = c / self.res2net_scale;
        let stem: String = text::joined(n, ".res2net_block.blocks.");
        let mut parts: Vec<ConvPlan> = Vec::new();
        let mut k: usize = 0;
        while k < self.res2net_scale - 1
            invariant
                0 < self.res2net_scale,
                i < 3,
                part == self.channels as int / self.res2net_scale as int,
                stem@ == stage_name(i as int) + ".res2net_block.blocks."@,
                k <= self.res2net_scale - 1,
                parts.len() == k,
                forall|j: int|
                    0 <= j < k ==> (#[trigger] parts@[j])@ == tdnn_shape(
                        plan::numbered_name(stem@, j as nat),
                        part as int,
                        part as int,
                        3,
                        i + 2,
                    ),
            decreases self.res2net_scale - 1 - k,
        {
            let p: String = plan::numbered(stem.as_str(), k);
            parts.push(tdnn(p.as_str(), part, part, 3, i + 2));
            k = k + 1;
        }
        let n1: String = text::joined(n, ".tdnn1");
        let n2: String = text::joined(n, ".tdnn2");
        StagePlan {
            tdnn1: tdnn(n1.as_str(), c, c, 1, 1),
            parts,
            tdnn2: tdnn(n2.as_str(), c, c, 1, 1),
            se1: plan::conv(text::joined(n, ".se_block.conv1"), c, self.se_channels, 1, 1, 0),
            se2: plan::conv(text::joined(n, ".se_block.conv2"), self.se_channels, c, 1, 1, 0),
        }
    }

    /// The layers of the encoder.
    pub fn load_plan(&self) -> (p: EcapaPlan)
        requires
            self.buildable(),
        ensures
            p.stem@ == tdnn_shape("blocks.0"@, self.n_mels as int, self.channels as int, 5, 1),
            p.stages.len() == 3,
            forall|i: int| 0 <= i < 3 ==> is_stage(#[trigger] p.stages@[i], *self, i),
            p.mfa@ == tdnn_shape("mfa"@, self.channels * 3, self.mfa_channels as int, 1, 1),
            p.asp_tdnn@ == tdnn_shape(
                "asp.tdnn"@,
                self.mfa_channels * 3,
                self.attention_channels as int,
                1,
                1,
            ),
            p.asp_conv@ == plan::conv_shape(
                "asp.conv"@,
                self.attention_channels as int,
                self.mfa_channels as int,
                1,
                1,
                0,
            ),
            p.asp_norm == self.mfa_channels * 2,
            p.fc@ == plan::conv_shape(
                "fc"@,
                self.mfa_channels * 2,
                self.embedding_dim as int,
                1,
                1,
                0,
            ),
    {
        let mut stages: Vec<StagePlan> = Vec::new();
        let mut i: usize = 0;
        while i < 3
            invariant
                self.buildable(),
                i <= 3,
                stages.len() == i,
                forall|k: int| 0 <= k < i ==> is_stage(#[trigger] stages@[k], *self, k),
            decreases 3 - i,
        {
            stages.push(self.stage(i));
            i = i + 1;
        }
        EcapaPlan {
            stem: tdnn("blocks.0", self.n_mels, self.channels, 5, 1),
            stages,
            mfa: tdnn("mfa", self.channels * 3, self.mfa_channels, 1, 1),
            asp_tdnn: tdnn("asp.tdnn", self.mfa_channels * 3, self.attention_channels, 1, 1),
            asp_conv: plan::conv(
                String::from_str("asp.conv"),
                self.attention_channels,
                self.mfa_channels,
                1,
                1,
                0,
            ),
            asp_norm: self.mfa_channels * 2,
            fc: plan::conv(
                String::from_str("fc"),
                self.mfa_channels * 2,
                self.embedding_dim,
                1,
                1,
                0,
            ),
        }
    }
}

/// The convolutions of the encoder keep the number of frames.
pub proof fn law_convolutions_keep_length(
    prefix: Seq<char>,
    inputs: int,
    outputs: int,
    kernel: int,
    dilation: int,
    n: int,
)
    requires
        kernel % 2 == 1,
        0 < kernel,
        0 < dilation,
    ensures
        plan::conv_len(tdnn_shape(prefix, inputs, outputs, kernel, dilation), n) == n,
{
    let h = (kernel - 1) / 2;
    assert(dilation * (kernel - 1) == 2 * (dilation * h)) by (nonlinear_arith)
        requires
            kernel - 1 == 2 * h,
    ;
}

/// The parts of a stage take all of its channels, the same number each.
pub proof fn law_parts_take_all_channels(cfg: EcapaConfig)
    requires
        cfg.buildable(),
    ensures
        cfg.res2net_scale * (cfg.channels as int / cfg.res2net_scale as int) == cfg.channels,
{
    vstd::arithmetic::div_mod::lemma_fundamental_div_mod(
        cfg.channels as int,
        cfg.res2net_scale as int,
    );
}

} // verus!
