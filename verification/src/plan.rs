//! What a model asks of its checkpoint: the layers, by the names and sizes of their weights.

use vstd::prelude::*;
use vstd::string::StringExecFns;
use crate::text;

verus! {

/// A one-dimensional or two-dimensional convolution, as a statement about it sees it.
pub struct ConvShape {
    /// Where its weights stand.
    pub prefix: Seq<char>,
    /// Channels that come in.
    pub in_channels: int,
    /// Channels that go out.
    pub out_channels: int,
    /// Length of the kernel.
    pub kernel: int,
    /// Step of the kernel.
    pub stride: int,
    /// Zeros on either side.
    pub padding: int,
    /// Distance of the kernel's taps.
    pub dilation: int,
    /// Groups of channels that do not mix.
    pub groups: int,
    /// Whether there is a bias.
    pub bias: bool,
}

/// A convolution of a model.
pub struct ConvPlan {
    /// Where its weights stand.
    pub prefix: String,
    /// Channels that come in.
    pub in_channels: usize,
    /// Channels that go out.
    pub out_channels: usize,
    /// Length of the kernel.
    pub kernel: usize,
    /// Step of the kernel.
    pub stride: usize,
    /// Zeros on either side.
    pub padding: usize,
    /// Distance of the kernel's taps.
    pub dilation: usize,
    /// Groups of channels that do not mix.
    pub groups: usize,
    /// Whether there is a bias.
    pub bias: bool,
}

impl ConvPlan {
    /// The convolution as a statement about it sees it.
    pub open spec fn view(&self) -> ConvShape {
        ConvShape {
            prefix: self.prefix@,
            in_channels: self.in_channels as int,
            out_channels: self.out_channels as int,
            kernel: self.kernel as int,
            stride: self.stride as int,
            padding: self.padding as int,
            dilation: self.dilation as int,
            groups: self.groups as int,
            bias: self.bias,
        }
    }
}

/// A convolution with a bias, of adjacent taps over all channels.
pub open spec fn conv_shape(
    prefix: Seq<char>,
    in_channels: int,
    out_channels: int,
    kernel: int,
    stride: int,
    padding: int,
) -> ConvShape {
    ConvShape {
        prefix,
        in_channels,
        out_channels,
        kernel,
        stride,
        padding,
        dilation: 1,
        groups: 1,
        bias: true,
    }
}

/// A convolution with a bias, of adjacent taps over all channels.
pub fn conv(
    prefix: String,
    in_channels: usize,
    out_channels: usize,
    kernel: usize,
    stride: usize,
    padding: usize,
) -> (c: ConvPlan)
    ensures
        c@ == conv_shape(
            prefix@,
            in_channels as int,
            out_channels as int,
            kernel as int,
            stride as int,
            padding as int,
        ),
{
    ConvPlan {
        prefix,
        in_channels,
        out_channels,
        kernel,
        stride,
        padding,
        dilation: 1,
        groups: 1,
        bias: true,
    }
}

/// The shapes of a list of convolutions.
pub open spec fn shapes(v: Seq<ConvPlan>) -> Seq<ConvShape> {
    Seq::new(v.len(), |i: int| v[i]@)
}

/// The number of values that a convolution makes of `n`.
pub open spec fn conv_len(c: ConvShape, n: int) -> int {
    (n + 2 * c.padding - c.dilation * (c.kernel - 1) - 1) / c.stride + 1
}

/// The number of values that a transposed convolution makes of `n`.
pub open spec fn transposed_len(c: ConvShape, n: int) -> int {
    (n - 1) * c.stride - 2 * c.padding + c.kernel
}

/// The lengths with the sizes of the convolution filled in.
pub proof fn lemma_lengths(c: ConvShape, n: int, kernel: int, stride: int, padding: int, dilation: int)
    requires
        c.kernel == kernel,
        c.stride == stride,
        c.padding == padding,
        c.dilation == dilation,
    ensures
        conv_len(c, n) == (n + 2 * padding - dilation * (kernel - 1) - 1) / stride + 1,
        transposed_len(c, n) == (n - 1) * stride - 2 * padding + kernel,
{
}

/// A name with a number behind it.
pub open spec fn numbered_name(prefix: Seq<char>, i: nat) -> Seq<char> {
    prefix + text::digits(i)
}

/// A name with a number behind it.
pub fn numbered(prefix: &str, i: usize) -> (s: String)
    ensures
        s@ == numbered_name(prefix@, i as nat),
{
    let d: String = text::decimal(i as u64);
    text::joined(prefix, d.as_str())
}

/// A name under another one.
pub open spec fn under_name(a: Seq<char>, b: Seq<char>) -> Seq<char> {
    a + "."@ + b
}

/// A name under another one.
pub fn under(a: &str, b: &str) -> (s: String)
    ensures
        s@ == under_name(a@, b@),
{
    let mut s: String = String::from_str(a);
    s.append(".");
    s.append(b);
    s
}

/// A matrix of a model, as a statement about it sees it.
pub struct LinearShape {
    /// Where its weights stand.
    pub prefix: Seq<char>,
    /// Values that come in.
    pub inputs: int,
    /// Values that go out.
    pub outputs: int,
    /// Whether there is a bias.
    pub bias: bool,
}

/// A matrix of a model.
pub struct LinearPlan {
    /// Where its weights stand.
    pub prefix: String,
    /// Values that come in.
    pub inputs: usize,
    /// Values that go out.
    pub outputs: usize,
    /// Whether there is a bias.
    pub bias: bool,
}

impl LinearPlan {
    /// The matrix as a statement about it sees it.
    pub open spec fn view(&self) -> LinearShape {
        LinearShape {
            prefix: self.prefix@,
            inputs: self.inputs as int,
            outputs: self.outputs as int,
            bias: self.bias,
        }
    }
}

/// A matrix of a model.
pub open spec fn linear_shape(
    prefix: Seq<char>,
    inputs: int,
    outputs: int,
    bias: bool,
) -> LinearShape {
    LinearShape { prefix, inputs, outputs, bias }
}

/// A convolution of one tap keeps the length, and a transposed convolution is undone, in length,
/// by the convolution of the same sizes.
pub proof fn law_lengths_are_inverse(c: ConvShape, n: int)
    requires
        c.dilation == 1,
        0 < c.stride,
        0 < n,
    ensures
        conv_len(c, transposed_len(c, n)) == n,
        c.kernel == 1 && c.stride == 1 && c.padding == 0 ==> conv_len(c, n) == n
            && transposed_len(c, n) == n,
{
    assert(1 * (c.kernel - 1) == c.kernel - 1);
    let x = (n - 1) * c.stride;
    assert(x / c.stride == n - 1) by {
        vstd::arithmetic::div_mod::lemma_div_multiples_vanish(n - 1, c.stride);
        assert(x == c.stride * (n - 1)) by (nonlinear_arith)
            requires
                x == (n - 1) * c.stride,
        ;
    }
    assert(transposed_len(c, n) + 2 * c.padding - (c.kernel - 1) - 1 == x);
}

} // verus!
