//! The content encoder's front end: the 80-band log-mel of half a minute of audio, and the
//! layers of the encoder.

use vstd::prelude::*;
use vstd::string::StringExecFns;
use crate::arith;
use crate::arith::Real;
use crate::arith::Wide;
use crate::fourier;
use crate::fourier::Transform;
use crate::plan;
use crate::plan::ConvPlan;
use crate::plan::LinearPlan;
use crate::spectra;

verus! {

/// Length of the transform.
pub const N_FFT: usize = 400;

/// Samples from frame to frame.
pub const HOP: usize = 160;

/// Number of mel bands.
pub const N_MELS: usize = 80;

/// Samples of half a minute at 16 kHz.
pub const CHUNK: usize = 480_000;

/// Frames of half a minute.
pub const FRAMES: usize = 3_000;

/// Width of the encoder.
pub const DIM: usize = 768;

/// Layers of the encoder.
pub const LAYERS: usize = 12;

/// The mel value of a frequency: linear below 1 kHz, logarithmic above.
pub open spec fn hz_to_mel<W: Real>(f: W) -> W {
    if arith::below(f, arith::whole(1_000)) {
        arith::over(arith::times(f, arith::whole(3)), arith::whole(200))
    } else {
        arith::plus(
            arith::whole(15),
            arith::times(
                arith::logarithm(arith::over(f, arith::whole(1_000))),
                arith::over(arith::whole(27), arith::logarithm(arith::fraction(64, 10))),
            ),
        )
    }
}

/// The frequency of a mel value.
pub open spec fn mel_to_hz<W: Real>(m: W) -> W {
    if arith::below(m, arith::whole(15)) {
        arith::over(arith::times(m, arith::whole(200)), arith::whole(3))
    } else {
        arith::times(
            arith::whole(1_000),
            arith::exponential(
                arith::over(
                    arith::times(
                        arith::minus(m, arith::whole(15)),
                        arith::logarithm(arith::fraction(64, 10)),
                    ),
                    arith::whole(27),
                ),
            ),
        )
    }
}

/// The mel value of a frequency.
fn mel_of<W: Real>(f: W) -> (m: W)
    ensures
        arith::deterministic::<W>() ==> m == hz_to_mel(f),
{
    if f.below(W::whole(1_000)) {
        f.times(W::whole(3)).over(W::whole(200))
    } else {
        W::whole(15).plus(
            f.over(W::whole(1_000)).logarithm().times(
                W::whole(27).over(W::fraction(64, 10).logarithm()),
            ),
        )
    }
}

/// The frequency of a mel value.
fn hz_of<W: Real>(m: W) -> (f: W)
    ensures
        arith::deterministic::<W>() ==> f == mel_to_hz(m),
{
    if m.below(W::whole(15)) {
        m.times(W::whole(200)).over(W::whole(3))
    } else {
        W::whole(1_000).times(
            m.minus(W::whole(15)).times(W::fraction(64, 10).logarithm()).over(
                W::whole(27),
            ).exponential(),
        )
    }
}

/// The corner `i` of the bands.
pub open spec fn corner<W: Real>(i: int) -> W {
    let lo = hz_to_mel::<W>(arith::whole(0));
    let hi = hz_to_mel::<W>(arith::whole(8_000));
    mel_to_hz(
        arith::plus(
            lo,
            arith::over(
                arith::times(arith::minus(hi, lo), arith::count(i as usize)),
                arith::count(81),
            ),
        ),
    )
}

/// The corner `i` of the bands.
fn corner_at<W: Real>(i: usize) -> (f: W)
    ensures
        arith::deterministic::<W>() ==> f == corner::<W>(i as int),
{
    let lo: W = mel_of(W::whole(0));
    let hi: W = mel_of(W::whole(8_000));
    hz_of(lo.plus(hi.minus(lo).times(W::count(i)).over(W::count(81))))
}

/// The weight of bin `k` in band `m`.
pub open spec fn weight<W: Real>(m: int, k: int) -> W {
    let lo = corner::<W>(m);
    let ctr = corner::<W>(m + 1);
    let hi = corner::<W>(m + 2);
    let f = arith::over(
        arith::times(arith::count(k as usize), arith::count(16_000)),
        arith::count(400),
    );
    arith::times(
        arith::larger(
            arith::smaller(
                arith::over(arith::minus(f, lo), arith::minus(ctr, lo)),
                arith::over(arith::minus(hi, f), arith::minus(hi, ctr)),
            ),
            arith::whole(0),
        ),
        arith::over(arith::whole(2), arith::minus(hi, lo)),
    )
}

/// The weights of all bands.
pub open spec fn bands<W: Real>() -> Seq<Seq<W>> {
    Seq::new(80, |m: int| Seq::new(201, |k: int| weight::<W>(m, k)))
}

/// The weights of all bands.
fn band_table<W: Real>() -> (banks: Vec<Vec<W>>)
    ensures
        banks.len() == N_MELS,
        forall|m: int| 0 <= m < N_MELS ==> (#[trigger] banks@[m]).len() == 201,
        arith::deterministic::<W>() ==> spectra::grid(banks@) == bands::<W>(),
{
    let mut banks: Vec<Vec<W>> = Vec::new();
    let mut m: usize = 0;
    while m < N_MELS
        invariant
            m <= N_MELS,
            banks.len() == m,
            forall|j: int| 0 <= j < m ==> (#[trigger] banks@[j]).len() == 201,
            arith::deterministic::<W>() ==> forall|j: int|
                0 <= j < m ==> (#[trigger] banks@[j])@ == bands::<W>()[j],
        decreases N_MELS - m,
    {
        let lo: W = corner_at(m);
        let ctr: W = corner_at(m + 1);
        let hi: W = corner_at(m + 2);
        let enorm: W = W::whole(2).over(hi.minus(lo));
        let mut bank: Vec<W> = Vec::new();
        let mut k: usize = 0;
        while k < 201
            invariant
                k <= 201,
                m < N_MELS,
                bank.len() == k,
                arith::deterministic::<W>() ==> {
                    &&& lo == corner::<W>(m as int)
                    &&& ctr == corner::<W>(m + 1)
                    &&& hi == corner::<W>(m + 2)
                    &&& enorm == arith::over(arith::whole::<W>(2), arith::minus(hi, lo))
                },
                arith::deterministic::<W>() ==> forall|j: int|
                    0 <= j < k ==> #[trigger] bank@[j] == weight::<W>(m as int, j),
            decreases 201 - k,
        {
            let f: W = W::count(k).times(W::count(16_000)).over(W::count(400));
            let w: W = f.minus(lo).over(ctr.minus(lo)).smaller(
                hi.minus(f).over(hi.minus(ctr)),
            ).larger(W::whole(0));
            bank.push(w.times(enorm));
            k = k + 1;
        }
        proof {
            if arith::deterministic::<W>() {
                assert(bank@ =~= bands::<W>()[m as int]);
            }
        }
        banks.push(bank);
        m = m + 1;
    }
    proof {
        if arith::deterministic::<W>() {
            assert(spectra::grid(banks@) =~= bands::<W>());
        }
    }
    banks
}

/// The periodic Hann window at place `i`.
pub open spec fn window_at<W: Real>(i: int) -> W {
    arith::minus(
        arith::fraction(1, 2),
        arith::times(
            arith::fraction(1, 2),
            arith::cosine(
                arith::over(
                    arith::times(
                        arith::times(arith::whole(2), arith::pi()),
                        arith::count(i as usize),
                    ),
                    arith::count::<W>(400),
                ),
            ),
        ),
    )
}

/// The window of a frame.
pub open spec fn window<W: Real>() -> Seq<W> {
    Seq::new(400, |i: int| window_at::<W>(i))
}

/// The window of a frame.
fn window_table<W: Real>() -> (w: Vec<W>)
    ensures
        w.len() == N_FFT,
        arith::deterministic::<W>() ==> w@ == window::<W>(),
{
    let mut w: Vec<W> = Vec::new();
    let mut i: usize = 0;
    while i < N_FFT
        invariant
            i <= N_FFT,
            w.len() == i,
            arith::deterministic::<W>() ==> forall|k: int|
                0 <= k < i ==> #[trigger] w@[k] == window_at::<W>(k),
        decreases N_FFT - i,
    {
        w.push(
            W::fraction(1, 2).minus(
                W::fraction(1, 2).times(
                    W::whole(2).times(W::pi()).times(W::count(i)).over(W::count(400)).cosine(),
                ),
            ),
        );
        i = i + 1;
    }
    proof {
        if arith::deterministic::<W>() {
            assert(w@ =~= window::<W>());
        }
    }
    w
}

/// Half a minute of audio in the wider type: what is missing is silence, what is over is cut.
pub open spec fn chunk<T: Real, W: Wide<T>>(wave: Seq<T>) -> Seq<W> {
    Seq::new(
        CHUNK as nat,
        |i: int|
            if i < wave.len() {
                arith::widened::<T, W>(wave[i])
            } else {
                arith::whole::<W>(0)
            },
    )
}

/// The unscaled value of band `m` in frame `t`.
pub open spec fn raw_value<T: Real, W: Wide<T>, F: Transform<W>>(
    wave: Seq<T>,
    fft: F,
    m: int,
    t: int,
) -> T {
    let bins = spectra::frame_bins::<W, F>(
        spectra::reflected(chunk::<T, W>(wave), 200),
        t * HOP,
        0,
        window::<W>(),
        400,
        fft,
    );
    let e = crate::fir::convolved(bands::<W>()[m], spectra::powers(bins, 201));
    arith::narrowed::<T, W>(
        arith::decimal_logarithm(arith::larger(e, arith::fraction(1, 10_000_000_000))),
    )
}

/// The unscaled values of all bands, a row for each.
pub open spec fn raw_table<T: Real, W: Wide<T>, F: Transform<W>>(
    wave: Seq<T>,
    fft: F,
) -> Seq<Seq<T>> {
    Seq::new(
        80,
        |m: int| Seq::new(3_000, |t: int| raw_value::<T, W, F>(wave, fft, m, t)),
    )
}

/// The log-mel of audio at 16 kHz, brought to half a minute: 80 rows of 3000 values.
pub fn log_mel<T: Real, W: Wide<T>, F: Transform<W>>(wave16k: &[T], fft: &F) -> (mel: Vec<Vec<T>>)
    requires
        fourier::keeps_length::<W, F>(*fft),
    ensures
        mel.len() == N_MELS,
        forall|m: int| 0 <= m < N_MELS ==> (#[trigger] mel@[m]).len() == FRAMES,
        arith::wide_deterministic::<T, W>() && fourier::functional::<W, F>(*fft) ==> ({
            let raw = raw_table::<T, W, F>(wave16k@, *fft);
            forall|m: int, t: int|
                0 <= m < N_MELS && 0 <= t < FRAMES ==> #[trigger] mel@[m]@[t]
                    == spectra::whisper_scaled(raw[m][t], spectra::grid_top(raw))
        }),
{
    let mut y: Vec<W> = Vec::new();
    let mut i: usize = 0;
    while i < CHUNK
        invariant
            i <= CHUNK,
            y.len() == i,
            arith::wide_deterministic::<T, W>() ==> forall|k: int|
                0 <= k < i ==> #[trigger] y@[k] == chunk::<T, W>(wave16k@)[k],
        decreases CHUNK - i,
    {
        if i < wave16k.len() {
            y.push(W::widened(wave16k[i]));
        } else {
            y.push(W::whole(0));
        }
        i = i + 1;
    }
    proof {
        if arith::wide_deterministic::<T, W>() {
            assert(y@ =~= chunk::<T, W>(wave16k@));
        }
    }
    let p: Vec<W> = spectra::reflect_pad(y.as_slice(), 200);
    let win: Vec<W> = window_table();
    let banks: Vec<Vec<W>> = band_table();
    let mut rows: Vec<Vec<T>> = Vec::new();
    let mut t: usize = 0;
    while t < FRAMES
        invariant
            t <= FRAMES,
            fourier::keeps_length::<W, F>(*fft),
            p@ == spectra::reflected(y@, 200),
            win.len() == N_FFT,
            banks.len() == N_MELS,
            forall|m: int| 0 <= m < N_MELS ==> (#[trigger] banks@[m]).len() == 201,
            arith::wide_deterministic::<T, W>() ==> {
                &&& y@ == chunk::<T, W>(wave16k@)
                &&& win@ == window::<W>()
                &&& spectra::grid(banks@) == bands::<W>()
            },
            rows.len() == t,
            forall|k: int| 0 <= k < t ==> (#[trigger] rows@[k]).len() == N_MELS,
            arith::wide_deterministic::<T, W>() && fourier::functional::<W, F>(*fft)
                ==> forall|k: int, m: int|
                0 <= k < t && 0 <= m < N_MELS ==> #[trigger] rows@[k]@[m] == raw_value::<
                    T,
                    W,
                    F,
                >(wave16k@, *fft, m, k),
        decreases FRAMES - t,
    {
        let bins = spectra::analyse(&p, t * HOP, 0, &win, N_FFT, fft);
        let power: Vec<W> = spectra::power_of(&bins, 201);
        let sums: Vec<W> = spectra::sum_bands(&banks, &power);
        let mut row: Vec<T> = Vec::new();
        let mut m: usize = 0;
        while m < N_MELS
            invariant
                m <= N_MELS,
                sums.len() == N_MELS,
                row.len() == m,
                arith::wide_deterministic::<T, W>() ==> forall|k: int|
                    0 <= k < m ==> #[trigger] row@[k] == arith::narrowed::<T, W>(
                        arith::decimal_logarithm(
                            arith::larger(sums@[k], arith::fraction(1, 10_000_000_000)),
                        ),
                    ),
            decreases N_MELS - m,
        {
            row.push(
                sums[m].larger(W::fraction(1, 10_000_000_000)).decimal_logarithm().narrowed(),
            );
            m = m + 1;
        }
        rows.push(row);
        t = t + 1;
    }
    let raw: Vec<Vec<T>> = spectra::transpose(&rows, N_MELS);
    proof {
        if arith::wide_deterministic::<T, W>() && fourier::functional::<W, F>(*fft) {
            let table = raw_table::<T, W, F>(wave16k@, *fft);
            assert forall|m: int| 0 <= m < N_MELS implies #[trigger] spectra::grid(raw@)[m]
                == table[m] by {
                assert forall|k: int| 0 <= k < FRAMES implies #[trigger] raw@[m]@[k]
                    == table[m][k] by {
                    assert(raw@[m]@[k] == rows@[k]@[m]);
                }
                assert(raw@[m]@ =~= table[m]);
            }
            assert(spectra::grid(raw@) =~= table);
        }
    }
    spectra::whisper_scale(&raw)
}

/// Number of features that belong to `n` samples: one for each 320, and one more.
pub fn feature_count(n: usize) -> (k: usize)
    ensures
        k == n / 320 + 1,
{
    n / 320 + 1
}

/// One layer of the encoder.
pub struct LayerPlan {
    /// The norm before the attention.
    pub ln1: String,
    /// Queries.
    pub q: LinearPlan,
    /// Keys.
    pub k: LinearPlan,
    /// Values.
    pub v: LinearPlan,
    /// The output of the attention.
    pub o: LinearPlan,
    /// The norm before the network.
    pub ln2: String,
    /// The first matrix of the network.
    pub fc1: LinearPlan,
    /// The second matrix of the network.
    pub fc2: LinearPlan,
}

/// The layers of the encoder.
pub struct WhisperPlan {
    /// The first convolution.
    pub conv1: ConvPlan,
    /// The second convolution; it halves the frames.
    pub conv2: ConvPlan,
    /// The table of positions: a row for each feature of half a minute.
    pub positions: String,
    /// Rows of the table of positions.
    pub position_count: usize,
    /// Numbers of a feature: the columns of the table of positions, and the size of each norm.
    pub width: usize,
    /// The layers.
    pub layers: Vec<LayerPlan>,
    /// The last norm.
    pub ln_post: String,
}

/// Where the weights of layer `i` stand.
pub open spec fn layer_name(i: int) -> Seq<char> {
    plan::numbered_name("model.encoder.layers."@, i as nat)
}

/// Whether a plan is that of layer `i`.
pub open spec fn is_layer(l: LayerPlan, i: int) -> bool {
    let n = layer_name(i);
    &&& l.ln1@ == n + ".self_attn_layer_norm"@
    &&& l.q@ == plan::linear_shape(n + ".self_attn.q_proj"@, 768, 768, true)
    &&& l.k@ == plan::linear_shape(n + ".self_attn.k_proj"@, 768, 768, false)
    &&& l.v@ == plan::linear_shape(n + ".self_attn.v_proj"@, 768, 768, true)
    &&& l.o@ == plan::linear_shape(n + ".self_attn.out_proj"@, 768, 768, true)
    &&& l.ln2@ == n + ".final_layer_norm"@
    &&& l.fc1@ == plan::linear_shape(n + ".fc1"@, 768, 3_072, true)
    &&& l.fc2@ == plan::linear_shape(n + ".fc2"@, 3_072, 768, true)
}

/// The matrix `name` under `prefix`.
fn matrix(prefix: &str, name: &str, inputs: usize, outputs: usize, bias: bool) -> (l: LinearPlan)
    ensures
        l@ == plan::linear_shape(prefix@ + name@, inputs as int, outputs as int, bias),
{
    LinearPlan { prefix: crate::text::joined(prefix, name), inputs, outputs, bias }
}

/// The layers of the encoder.
pub fn load_plan() -> (p: WhisperPlan)
    ensures
        p.conv1@ == plan::conv_shape("model.encoder.conv1"@, 80, 768, 3, 1, 1),
        p.conv2@ == plan::conv_shape("model.encoder.conv2"@, 768, 768, 3, 2, 1),
        p.positions@ == "model.encoder.embed_positions.weight"@,
        p.position_count == 1_500,
        p.width == 768,
        p.layers.len() == LAYERS,
        forall|i: int| 0 <= i < LAYERS ==> is_layer(#[trigger] p.layers@[i], i),
        p.ln_post@ == "model.encoder.layer_norm"@,
{
    let mut layers: Vec<LayerPlan> = Vec::new();
    let mut i: usize = 0;
    while i < LAYERS
        invariant
            i <= LAYERS,
            layers.len() == i,
            forall|k: int| 0 <= k < i ==> is_layer(#[trigger] layers@[k], k),
        decreases LAYERS - i,
    {
        let name: String = plan::numbered("model.encoder.layers.", i);
        let n: &str = name.as_str();
        layers.push(
            LayerPlan {
                ln1: crate::text::joined(n, ".self_attn_layer_norm"),
                q: matrix(n, ".self_attn.q_proj", DIM, DIM, true),
                k: matrix(n, ".self_attn.k_proj", DIM, DIM, false),
                v: matrix(n, ".self_attn.v_proj", DIM, DIM, true),
                o: matrix(n, ".self_attn.out_proj", DIM, DIM, true),
                ln2: crate::text::joined(n, ".final_layer_norm"),
                fc1: matrix(n, ".fc1", DIM, 3_072, true),
                fc2: matrix(n, ".fc2", 3_072, DIM, true),
            },
        );
        i = i + 1;
    }
    WhisperPlan {
        conv1: plan::conv(String::from_str("model.encoder.conv1"), N_MELS, DIM, 3, 1, 1),
        conv2: plan::conv(String::from_str("model.encoder.conv2"), DIM, DIM, 3, 2, 1),
        positions: String::from_str("model.encoder.embed_positions.weight"),
        position_count: FRAMES / 2,
        width: DIM,
        layers,
        ln_post: String::from_str("model.encoder.layer_norm"),
    }
}

/// The convolutions of the encoder make one feature of two frames, 1500 of half a minute, as
/// many as there are positions; and no audio of half a minute at most asks for more.
pub proof fn law_features_have_positions(n: int)
    requires
        0 <= n < CHUNK,
    ensures
        plan::conv_len(
            plan::conv_shape("model.encoder.conv2"@, 768, 768, 3, 2, 1),
            plan::conv_len(
                plan::conv_shape("model.encoder.conv1"@, 80, 768, 3, 1, 1),
                FRAMES as int,
            ),
        ) == 1500,
        n / 320 + 1 <= 1500,
{
    plan::lemma_lengths(
        plan::conv_shape("model.encoder.conv1"@, 80, 768, 3, 1, 1),
        3000,
        3,
        1,
        1,
        1,
    );
    plan::lemma_lengths(
        plan::conv_shape("model.encoder.conv2"@, 768, 768, 3, 2, 1),
        3000,
        3,
        2,
        1,
        1,
    );
}

/// Half a minute of audio: what is missing is silence, what is over is cut.
pub open spec fn half_a_minute<T: Real>(wave: Seq<T>) -> Seq<T> {
    Seq::new(
        CHUNK as nat,
        |i: int|
            if i < wave.len() {
                wave[i]
            } else {
                arith::whole(0)
            },
    )
}

/// The log-mel of any audio is that of the audio brought to half a minute: the values that it is
/// made of are the same. Zero has to be zero in the wider type, too, as it is for IEEE types.
pub proof fn law_log_mel_is_of_half_a_minute<T: Real, W: Wide<T>, F: Transform<W>>(
    wave: Seq<T>,
    fft: F,
)
    requires
        arith::widened::<T, W>(arith::whole(0)) == arith::whole::<W>(0),
    ensures
        half_a_minute(wave).len() == CHUNK,
        raw_table::<T, W, F>(wave, fft) == raw_table::<T, W, F>(half_a_minute(wave), fft),
{
    assert(chunk::<T, W>(wave) =~= chunk::<T, W>(half_a_minute(wave)));
    let a = raw_table::<T, W, F>(wave, fft);
    let b = raw_table::<T, W, F>(half_a_minute(wave), fft);
    assert forall|m: int| 0 <= m < 80 implies #[trigger] a[m] == b[m] by {
        assert(a[m] =~= b[m]);
    }
    assert(a =~= b);
}

/// The sample `j` of the padded half minute.
proof fn lemma_padded_place<W>(y: Seq<W>, t: int, i: int)
    requires
        y.len() == CHUNK,
        0 <= t < FRAMES,
        0 <= i < N_FFT,
    ensures
        ({
            let p = spectra::reflected(y, 200);
            let at = t * HOP + i - 200;
            &&& p.len() == CHUNK + 400
            &&& 0 <= t * HOP + i < p.len()
            &&& p[t * HOP + i] == (if at < 0 {
                y[-at]
            } else if at < CHUNK {
                y[at]
            } else {
                y[2 * CHUNK - 2 - at]
            })
        }),
{
}

/// Frame `t` is the spectrum of the audio around sample `160 t`: a change of the audio more than
/// 200 samples away leaves the unscaled values of the frame as they are.
pub proof fn law_frame_hears_its_surroundings<T: Real, W: Wide<T>, F: Transform<W>>(
    wave: Seq<T>,
    other: Seq<T>,
    fft: F,
    m: int,
    t: int,
)
    requires
        wave.len() == other.len(),
        0 <= t < FRAMES,
        forall|k: int|
            0 <= k < wave.len() && 160 * t - 200 <= k && (k < 160 * t + 200 || k == 200)
                ==> #[trigger] wave[k] == other[k],
    ensures
        raw_value::<T, W, F>(wave, fft, m, t) == raw_value::<T, W, F>(other, fft, m, t),
{
    let y = chunk::<T, W>(wave);
    let z = chunk::<T, W>(other);
    let p = spectra::reflected(y, 200);
    let q = spectra::reflected(z, 200);
    assert forall|i: int| 0 <= i < 400 implies #[trigger] p[t * HOP + i] == q[t * HOP + i] by {
        lemma_padded_place(y, t, i);
        lemma_padded_place(z, t, i);
        let at = t * HOP + i - 200;
        let k = if at < 0 {
            -at
        } else if at < CHUNK {
            at
        } else {
            2 * CHUNK - 2 - at
        };
        assert(y[k] == z[k]) by {
            if k < wave.len() {
                assert(wave[k] == other[k]);
            }
        }
    }
    lemma_padded_place(y, t, 0);
    lemma_padded_place(y, t, 399);
    spectra::law_spectrum_is_of_its_frame::<W, F>(
        p,
        t * HOP,
        q,
        t * HOP,
        0,
        window::<W>(),
        400,
        fft,
    );
}

/// Audio that comes 160 samples later shows one frame later: away from the edges of the half
/// minute, frame `t + 1` has the unscaled values that frame `t` had.
pub proof fn law_later_audio_shows_later<T: Real, W: Wide<T>, F: Transform<W>>(
    wave: Seq<T>,
    later: Seq<T>,
    fft: F,
    m: int,
    t: int,
)
    requires
        2 <= t,
        t + 1 < FRAMES - 1,
        wave.len() == CHUNK,
        later.len() == CHUNK,
        forall|k: int| 0 <= k < CHUNK - 160 ==> #[trigger] later[k + 160] == wave[k],
    ensures
        raw_value::<T, W, F>(later, fft, m, t + 1) == raw_value::<T, W, F>(wave, fft, m, t),
{
    let y = chunk::<T, W>(wave);
    let z = chunk::<T, W>(later);
    let p = spectra::reflected(y, 200);
    let q = spectra::reflected(z, 200);
    assert((t + 1) * HOP == t * HOP + 160) by (nonlinear_arith)
        requires
            HOP == 160,
    ;
    assert forall|i: int| 0 <= i < 400 implies #[trigger] q[(t + 1) * HOP + i] == p[t * HOP
        + i] by {
        lemma_padded_place(y, t, i);
        lemma_padded_place(z, t + 1, i);
        let k = t * HOP + i - 200;
        assert(later[k + 160] == wave[k]);
    }
    lemma_padded_place(y, t, 0);
    lemma_padded_place(y, t, 399);
    lemma_padded_place(z, t + 1, 399);
    spectra::law_spectrum_is_of_its_frame::<W, F>(
        q,
        (t + 1) * HOP,
        p,
        t * HOP,
        0,
        window::<W>(),
        400,
        fft,
    );
}

/// Below 1 kHz the scale is linear, three mel for 200 Hz, and at 1 kHz it goes on from 15 mel
/// with a logarithm that takes 27 mel for a factor of 6.4.
pub proof fn law_scale_is_linear_then_logarithmic<W: Real>(f: W)
    requires
        arith::neutral::<W>(),
        ({
            let step = arith::logarithm::<W>(arith::fraction(64, 10));
            arith::times(step, arith::over(arith::whole(27), step)) == arith::whole::<W>(27)
        }),
        arith::over(arith::times(arith::whole::<W>(200), arith::whole(3)), arith::whole(200))
            == arith::whole::<W>(3),
        arith::over(arith::whole::<W>(0), arith::whole(200)) == arith::whole::<W>(0),
    ensures
        f == arith::whole::<W>(0) && arith::below(f, arith::whole(1_000)) ==> hz_to_mel(f)
            == arith::whole::<W>(0),
        f == arith::whole::<W>(200) && arith::below(f, arith::whole(1_000)) ==> hz_to_mel(f)
            == arith::whole::<W>(3),
        !arith::below(f, arith::whole(1_000)) && arith::logarithm(
            arith::over(f, arith::whole(1_000)),
        ) == arith::whole::<W>(0) ==> hz_to_mel(f) == arith::whole::<W>(15),
        !arith::below(f, arith::whole(1_000)) && arith::logarithm(
            arith::over(f, arith::whole(1_000)),
        ) == arith::logarithm::<W>(arith::fraction(64, 10)) ==> hz_to_mel(f) == arith::plus(
            arith::whole::<W>(15),
            arith::whole(27),
        ),
{
}

/// Whether the scale can be undone at `f`, as in exact arithmetic: an exponential undoes the
/// logarithm, each of the scale's steps its counterpart, and the border of 1 kHz is that of 15 mel.
pub open spec fn scale_is_exact<W: Real>(f: W) -> bool {
    let low = arith::over(arith::times(f, arith::whole::<W>(3)), arith::whole(200));
    let step = arith::logarithm::<W>(arith::fraction(64, 10));
    let part = arith::times(
        arith::logarithm(arith::over(f, arith::whole(1_000))),
        arith::over(arith::whole(27), step),
    );
    let high = arith::plus(arith::whole::<W>(15), part);
    &&& arith::below(f, arith::whole(1_000)) ==> {
        &&& arith::below(low, arith::whole(15))
        &&& arith::over(arith::times(low, arith::whole(200)), arith::whole(3)) == f
    }
    &&& !arith::below(f, arith::whole(1_000)) ==> {
        &&& !arith::below(high, arith::whole(15))
        &&& arith::minus(high, arith::whole(15)) == part
        &&& arith::times(
            arith::whole(1_000),
            arith::exponential(arith::over(arith::times(part, step), arith::whole(27))),
        ) == f
    }
}

/// The two mel functions undo each other.
pub proof fn law_scale_can_be_undone<W: Real>(f: W)
    requires
        scale_is_exact(f),
    ensures
        mel_to_hz(hz_to_mel(f)) == f,
{
}

/// The corners reach from zero to 8 kHz.
pub proof fn law_corners_reach_from_end_to_end<W: Real>()
    requires
        arith::neutral::<W>(),
        scale_is_exact(arith::whole::<W>(0)),
        scale_is_exact(arith::whole::<W>(8_000)),
        arith::count::<W>(0) == arith::whole::<W>(0),
        arith::over(arith::whole::<W>(0), arith::count(81)) == arith::whole::<W>(0),
        forall|a: W, b: W|
            arith::plus(
                a,
                arith::over(
                    #[trigger] arith::times(arith::minus(b, a), arith::count(81)),
                    arith::count(81),
                ),
            ) == b,
    ensures
        corner::<W>(0) == arith::whole::<W>(0),
        corner::<W>(81) == arith::whole::<W>(8_000),
{
    let lo = hz_to_mel::<W>(arith::whole(0));
    let hi = hz_to_mel::<W>(arith::whole(8_000));
    assert(arith::plus(
        lo,
        arith::over(arith::times(arith::minus(hi, lo), arith::count(81)), arith::count(81)),
    ) == hi);
}

/// The corners stand at equal distances on the mel scale: each is half-way between its
/// neighbours.
pub proof fn law_corners_are_evenly_spaced<W: Real>(i: int)
    requires
        1 <= i <= 80,
        forall|x: W| #[trigger] hz_to_mel(mel_to_hz(x)) == x,
        forall|a: W, d: W, n: W|
            ({
                let at = |k: int|
                    arith::plus(
                        a,
                        arith::over(arith::times(d, arith::count::<W>(k as usize)), n),
                    );
                arith::plus(at(i - 1), at(i + 1)) == #[trigger] arith::plus(
                    arith::plus(a, arith::over(arith::times(d, arith::count(i as usize)), n)),
                    arith::plus(a, arith::over(arith::times(d, arith::count(i as usize)), n)),
                )
            }),
    ensures
        arith::plus(hz_to_mel(corner::<W>(i - 1)), hz_to_mel(corner::<W>(i + 1))) == arith::plus(
            hz_to_mel(corner::<W>(i)),
            hz_to_mel(corner::<W>(i)),
        ),
{
    let lo = hz_to_mel::<W>(arith::whole(0));
    let d = arith::minus(hz_to_mel::<W>(arith::whole(8_000)), lo);
    let n = arith::count::<W>(81);
    assert(arith::plus(
        arith::plus(lo, arith::over(arith::times(d, arith::count((i - 1) as usize)), n)),
        arith::plus(lo, arith::over(arith::times(d, arith::count((i + 1) as usize)), n)),
    ) == arith::plus(
        arith::plus(lo, arith::over(arith::times(d, arith::count(i as usize)), n)),
        arith::plus(lo, arith::over(arith::times(d, arith::count(i as usize)), n)),
    ));
}

/// A band rises from its first corner to its centre and falls to its third: a bin on a corner at
/// the end has no weight, and one on the centre as much as makes the area one. Less than something
/// is the smaller, and nothing is not below zero.
pub proof fn law_band_peaks_at_its_centre<W: Real>(m: int, k: int)
    requires
        arith::neutral::<W>(),
        0 <= m < 80,
        0 <= k < 201,
        arith::larger(arith::whole::<W>(0), arith::whole(0)) == arith::whole::<W>(0),
        arith::larger(arith::whole::<W>(1), arith::whole(0)) == arith::whole::<W>(1),
        arith::smaller(arith::whole::<W>(1), arith::whole(1)) == arith::whole::<W>(1),
    ensures
        ({
            let f = arith::over(
                arith::times(arith::count::<W>(k as usize), arith::count(16_000)),
                arith::count(400),
            );
            let (lo, ctr, hi) = (corner::<W>(m), corner::<W>(m + 1), corner::<W>(m + 2));
            let rise = arith::over(arith::minus(f, lo), arith::minus(ctr, lo));
            let fall = arith::over(arith::minus(hi, f), arith::minus(hi, ctr));
            let zero = arith::whole::<W>(0);
            let one = arith::whole::<W>(1);
            &&& bands::<W>().len() == 80
            &&& bands::<W>()[m].len() == 201
            &&& rise == zero && arith::smaller(zero, fall) == zero ==> bands::<W>()[m][k] == zero
            &&& fall == zero && arith::smaller(rise, zero) == zero ==> bands::<W>()[m][k] == zero
            &&& rise == one && fall == one ==> bands::<W>()[m][k] == arith::over(
                arith::whole(2),
                arith::minus(hi, lo),
            )
        }),
{
}

/// The window is zero where the cosine is one, at its start, and one where the cosine is less one,
/// in its middle, and mirrors itself there.
pub proof fn law_window_rises_and_falls<W: Real>(i: int)
    requires
        arith::neutral::<W>(),
        0 < i < 400,
        arith::minus(arith::fraction::<W>(1, 2), arith::fraction(1, 2)) == arith::whole::<W>(0),
        arith::minus(
            arith::fraction::<W>(1, 2),
            arith::times(arith::fraction(1, 2), arith::whole((-1) as i64)),
        ) == arith::whole::<W>(1),
    ensures
        ({
            let turn = |k: int|
                arith::cosine(
                    arith::over(
                        arith::times(
                            arith::times(arith::whole::<W>(2), arith::pi()),
                            arith::count(k as usize),
                        ),
                        arith::count(400),
                    ),
                );
            let w = window::<W>();
            &&& w.len() == 400
            &&& turn(i) == arith::whole::<W>(1) ==> w[i] == arith::whole::<W>(0)
            &&& turn(0) == arith::whole::<W>(1) ==> w[0] == arith::whole::<W>(0)
            &&& turn(i) == arith::whole::<W>((-1) as i64) ==> w[i] == arith::whole::<W>(1)
            &&& turn(400 - i) == turn(i) ==> w[400 - i] == w[i]
        }),
{
}

/// Each value is that of its own band and frame: where one bin of a frame alone has power, the
/// value is the logarithm of that power times the band's weight for the bin, and never less than
/// that of 1e-10.
pub proof fn law_value_is_of_its_band<T: Real, W: Wide<T>, F: Transform<W>>(
    wave: Seq<T>,
    fft: F,
    m: int,
    t: int,
    k: int,
)
    requires
        arith::neutral::<W>(),
        0 <= m < 80,
        0 <= t < 3_000,
        0 <= k < 201,
        ({
            let bins = spectra::frame_bins::<W, F>(
                spectra::reflected(chunk::<T, W>(wave), 200),
                160 * t,
                0,
                window::<W>(),
                400,
                fft,
            );
            forall|j: int|
                0 <= j < 201 && j != k ==> #[trigger] spectra::powers(bins, 201)[j]
                    == arith::whole::<W>(0)
        }),
    ensures
        ({
            let bins = spectra::frame_bins::<W, F>(
                spectra::reflected(chunk::<T, W>(wave), 200),
                160 * t,
                0,
                window::<W>(),
                400,
                fft,
            );
            let e = arith::times(bands::<W>()[m][k], spectra::powers(bins, 201)[k]);
            let least = arith::fraction::<W>(1, 10_000_000_000);
            let v = raw_table::<T, W, F>(wave, fft)[m][t];
            &&& arith::larger(e, least) == e ==> v == arith::narrowed::<T, W>(
                arith::decimal_logarithm(e),
            )
            &&& arith::larger(e, least) == least ==> v == arith::narrowed::<T, W>(
                arith::decimal_logarithm(least),
            )
        }),
{
    assert(160 * t == t * HOP);
    let bins = spectra::frame_bins::<W, F>(
        spectra::reflected(chunk::<T, W>(wave), 200),
        160 * t,
        0,
        window::<W>(),
        400,
        fft,
    );
    let p = spectra::powers(bins, 201);
    crate::fir::law_each_sample_has_its_coefficient(bands::<W>()[m], p, k);
}

/// The matrices of a layer fit together: attention works on 768 values and gives 768, and what
/// follows widens them fourfold and brings them back.
pub proof fn law_layer_keeps_its_width(l: LayerPlan, i: int)
    requires
        is_layer(l, i),
    ensures
        l.q@.inputs == 768 && l.q@.outputs == 768 && l.q@.bias,
        l.k@.inputs == 768 && l.k@.outputs == l.q@.outputs && !l.k@.bias,
        l.v@.inputs == 768 && l.v@.outputs == l.o@.inputs && l.v@.bias,
        l.o@.inputs == 768 && l.o@.outputs == l.fc1@.inputs && l.o@.bias,
        l.fc1@.outputs == l.fc2@.inputs && l.fc1@.outputs == 4 * l.fc1@.inputs && l.fc1@.bias,
        l.fc2@.outputs == 768 && l.fc2@.bias,
{
}

} // verus!
