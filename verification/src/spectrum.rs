//! Shaping of spectra.
use vstd::prelude::*;

use crate::complex::{complex_minus, complex_zero, scaled, Complex};
use crate::sample::{exact, functional, fused, negated, one, times, two, Sample};
use crate::transforms::{
    fft_real_of, functional_transforms, ifft_complex_of, run_fft_real, run_ifft_complex,
    Transforms,
};

verus! {

/// The analytic-signal spectrum of `n` bins from the unique bins: those at
/// frequency 0 and at the folding frequency as they are, those between doubled,
/// the negative frequencies zero. An odd number of bins has no folding frequency.
pub open spec fn one_sided<T: Sample>(half: Seq<Complex<T>>, n: nat) -> Seq<Complex<T>> {
    Seq::new(
        n,
        |k: int|
            if k == 0 || 2 * k == n {
                half[k]
            } else if 2 * k < n {
                scaled(half[k], two())
            } else {
                complex_zero()
            },
    )
}

/// The analytic-signal spectrum of `n` bins from the unique bins.
pub fn analytic_spectrum<T: Sample>(half: &[Complex<T>], n: usize) -> (spectrum: Vec<Complex<T>>)
    requires
        functional::<T>(),
        n >= 2,
        half.len() == n / 2 + 1,
    ensures
        spectrum@ == one_sided(half@, n as nat),
{
    let mut spectrum: Vec<Complex<T>> = Vec::new();
    spectrum.push(half[0]);
    while spectrum.len() < half.len() - 1
        invariant
            functional::<T>(),
            n >= 2,
            half.len() == n / 2 + 1,
            1 <= spectrum.len() <= half.len() - 1,
            forall|k: int|
                0 <= k < spectrum.len() ==> spectrum[k] == one_sided(half@, n as nat)[k],
        decreases half.len() - spectrum.len(),
    {
        spectrum.push(scaled(half[spectrum.len()], two()));
    }
    let last: Complex<T> = half[half.len() - 1];
    spectrum.push(
        if n % 2 == 0 {
            last
        } else {
            scaled(last, two())
        },
    );
    while spectrum.len() < n
        invariant
            functional::<T>(),
            half.len() == n / 2 + 1,
            half.len() <= spectrum.len() <= n,
            forall|k: int|
                0 <= k < spectrum.len() ==> spectrum[k] == one_sided(half@, n as nat)[k],
        decreases n - spectrum.len(),
    {
        spectrum.push(complex_zero());
    }
    proof {
        assert(spectrum@ =~= one_sided(half@, n as nat));
    }
    spectrum
}

/// How often bin `k` of `n` counts in an analytic signal: once at frequency 0
/// and at the folding frequency, twice between, not at all above.
pub open spec fn bin_weight(n: nat, k: int) -> nat {
    if k == 0 || 2 * k == n {
        1
    } else if 2 * k < n {
        2
    } else {
        0
    }
}

/// The weights of the first `count` bins together.
pub open spec fn weights_up_to(n: nat, count: nat) -> nat
    decreases count,
{
    if count == 0 {
        0
    } else {
        weights_up_to(n, (count - 1) as nat) + bin_weight(n, count - 1)
    }
}

proof fn lemma_weights_up_to(n: nat, count: nat)
    requires
        1 <= count <= n,
    ensures
        weights_up_to(n, count) == if 2 * (count - 1) < n {
            (2 * count - 1) as nat
        } else {
            n
        },
    decreases count,
{
    if count > 1 {
        lemma_weights_up_to(n, (count - 1) as nat);
    } else {
        assert(weights_up_to(n, 0) == 0);
    }
}

/// The weights of all bins add up to their number: what is taken from the
/// negative frequencies is what the positive ones gain.
pub proof fn law_bin_weights_balance(n: nat)
    requires
        n >= 1,
    ensures
        weights_up_to(n, n) == n,
{
    lemma_weights_up_to(n, n);
}

/// [`one_sided`] counts each bin by its weight.
pub proof fn law_one_sided_counts_by_weight<T: Sample>(half: Seq<Complex<T>>, n: nat, k: int)
    requires
        0 <= k < n,
    ensures
        bin_weight(n, k) == 0 ==> one_sided(half, n)[k] == complex_zero::<T>(),
        bin_weight(n, k) == 1 ==> one_sided(half, n)[k] == half[k],
        bin_weight(n, k) == 2 ==> one_sided(half, n)[k] == scaled(half[k], two()),
{
}

/// The gain at bin `k`: 1 where no gains are given.
pub open spec fn gain_at<T: Sample>(gain: Option<Seq<T>>, k: int) -> T {
    match gain {
        Some(gains) => gains[k],
        None => one(),
    }
}

/// The whole spectrum with each bin counted by its weight and multiplied by its
/// gain.
pub open spec fn shaped<T: Sample>(spectrum: Seq<Complex<T>>, gain: Option<Seq<T>>) -> Seq<
    Complex<T>,
> {
    let n = spectrum.len();
    Seq::new(
        n,
        |k: int|
            if bin_weight(n, k) == 0 {
                complex_zero()
            } else if bin_weight(n, k) == 1 {
                scaled(spectrum[k], gain_at(gain, k))
            } else {
                scaled(spectrum[k], times(two(), gain_at(gain, k)))
            },
    )
}

/// Rounding aside, without gains each bin is counted by its weight: the result is
/// the Hilbert transform's analytic signal.
pub proof fn law_without_gains_is_hilbert<T: Sample>(
    value: spec_fn(T) -> real,
    spectrum: Seq<Complex<T>>,
    k: int,
)
    requires
        exact(value),
        0 <= k < spectrum.len(),
    ensures
        ({
            let bin = shaped(spectrum, None)[k];
            let weight = bin_weight(spectrum.len(), k);
            &&& weight == 0 ==> value(bin.re) == 0real && value(bin.im) == 0real
            &&& weight == 1 ==> value(bin.re) == value(spectrum[k].re) && value(bin.im) == value(
                spectrum[k].im,
            )
            &&& weight == 2 ==> value(bin.re) == 2real * value(spectrum[k].re) && value(bin.im)
                == 2real * value(spectrum[k].im)
        }),
{
    let once = value(one::<T>());
    let twice = value(times(two::<T>(), one::<T>()));
    assert(value(two::<T>()) == 2real);
    assert(2real * once == 2real) by (nonlinear_arith)
        requires
            once == 1real,
    ;
    assert(twice == 2real);
    lemma_counted(value(spectrum[k].re), once, twice);
    lemma_counted(value(spectrum[k].im), once, twice);
}

proof fn lemma_counted(part: real, once: real, twice: real)
    requires
        once == 1real,
        twice == 2real,
    ensures
        part * once == part,
        part * twice == 2real * part,
{
    assert(part * once == part) by (nonlinear_arith)
        requires
            once == 1real,
    ;
    assert(part * twice == 2real * part) by (nonlinear_arith)
        requires
            twice == 2real,
    ;
}

/// What [`analytic_antibell`] answers.
pub open spec fn analytic_of<T: Sample, X: Transforms<T>>(
    transforms: X,
    input: Seq<T>,
    gain: Option<Seq<T>>,
) -> Seq<Complex<T>> {
    if input.len() == 0 {
        Seq::empty()
    } else {
        ifft_complex_of(transforms, shaped(fft_real_of(transforms, input), gain))
    }
}

/// The gains as a sequence.
pub open spec fn gain_view<T>(gain: Option<&[T]>) -> Option<Seq<T>> {
    match gain {
        Some(gains) => Some(gains@),
        None => None,
    }
}

/// The gain at bin `k`.
fn gain_of<T: Sample>(gain: Option<&[T]>, k: usize) -> (g: T)
    requires
        functional::<T>(),
        gain is Some ==> k < gain->0.len(),
    ensures
        g == gain_at(gain_view(gain), k as int),
{
    match gain {
        Some(gains) => gains[k],
        None => one(),
    }
}

/// The analytic signal of a real one, with a gain for each bin of the positive
/// half spectrum applied on the way. Without gains it is the Hilbert
/// transform's analytic signal.
pub fn analytic_antibell<T: Sample, X: Transforms<T>>(
    input: &[T],
    transforms: &X,
    gain: Option<&[T]>,
) -> (output: Vec<Complex<T>>)
    requires
        functional::<T>(),
        input.len() > 0 ==> functional_transforms::<T, X>(*transforms, input@.len()),
        input.len() > 0 && gain is Some ==> input.len() / 2 < gain->0.len(),
    ensures
        output@ == analytic_of(*transforms, input@, gain_view(gain)),
        output.len() == input.len(),
{
    let n: usize = input.len();
    if n == 0 {
        return Vec::new();
    }
    let spectrum: Vec<Complex<T>> = run_fft_real(transforms, input);
    let mut weighted: Vec<Complex<T>> = Vec::new();
    while weighted.len() < n
        invariant
            functional::<T>(),
            n == input.len(),
            spectrum.len() == n,
            gain is Some ==> n / 2 < gain->0.len(),
            weighted.len() <= n,
            forall|k: int|
                0 <= k < weighted.len() ==> weighted[k] == shaped(spectrum@, gain_view(gain))[k],
        decreases n - weighted.len(),
    {
        let k: usize = weighted.len();
        let bin: Complex<T> = if k == 0 || (k == n / 2 && n % 2 == 0) {
            scaled(spectrum[k], gain_of(gain, k))
        } else if k <= (n - 1) / 2 {
            scaled(spectrum[k], times(two(), gain_of(gain, k)))
        } else {
            complex_zero()
        };
        weighted.push(bin);
    }
    proof {
        assert(weighted@ =~= shaped(spectrum@, gain_view(gain)));
    }
    run_ifft_complex(transforms, weighted.as_slice())
}

/// A bin times a filter coefficient.
pub open spec fn spec_multiply_spectrum_sample<T: Sample>(
    sample: Complex<T>,
    filter: Complex<T>,
) -> Complex<T> {
    Complex {
        re: fused(sample.re, filter.re, negated(times(sample.im, filter.im))),
        im: fused(sample.re, filter.im, times(sample.im, filter.re)),
    }
}

/// A bin times a filter coefficient.
#[verifier::when_used_as_spec(spec_multiply_spectrum_sample)]
pub fn multiply_spectrum_sample<T: Sample>(sample: Complex<T>, filter: Complex<T>) -> (product:
    Complex<T>)
    requires
        functional::<T>(),
    ensures
        product == spec_multiply_spectrum_sample(sample, filter),
{
    Complex {
        re: fused(sample.re, filter.re, negated(times(sample.im, filter.im))),
        im: fused(sample.re, filter.im, times(sample.im, filter.re)),
    }
}

/// The spectrum, each bin multiplied by its real gain.
pub open spec fn with_gains<T: Sample>(spectrum: Seq<Complex<T>>, gains: Seq<T>) -> Seq<
    Complex<T>,
> {
    Seq::new(spectrum.len(), |k: int| scaled(spectrum[k], gains[k]))
}

/// Multiplies each bin by its real gain.
pub fn multiply_spectrum_real<T: Sample>(spectrum: &mut Vec<Complex<T>>, filter: &[T])
    requires
        functional::<T>(),
        filter.len() == old(spectrum).len(),
    ensures
        final(spectrum)@ == with_gains(old(spectrum)@, filter@),
{
    let ghost before = spectrum@;
    let mut index: usize = 0;
    while index < spectrum.len()
        invariant
            functional::<T>(),
            index <= spectrum.len(),
            spectrum.len() == before.len(),
            filter.len() == before.len(),
            forall|k: int| 0 <= k < index ==> spectrum[k] == scaled(before[k], filter[k]),
            forall|k: int| index <= k < before.len() ==> spectrum[k] == before[k],
        decreases spectrum.len() - index,
    {
        let bin: Complex<T> = scaled(spectrum[index], filter[index]);
        spectrum[index] = bin;
        index = index + 1;
    }
    proof {
        assert(spectrum@ =~= with_gains(before, filter@));
    }
}

/// The spectrum, each bin multiplied by its complex coefficient.
pub open spec fn filtered_spectrum<T: Sample>(
    spectrum: Seq<Complex<T>>,
    filter: Seq<Complex<T>>,
) -> Seq<Complex<T>> {
    Seq::new(spectrum.len(), |k: int| multiply_spectrum_sample(spectrum[k], filter[k]))
}

/// The spectrum times a filter, bin by bin.
pub fn spectrum_times_filter<T: Sample>(spectrum: &[Complex<T>], filter: &[Complex<T>]) -> (product:
    Vec<Complex<T>>)
    requires
        functional::<T>(),
        filter.len() == spectrum.len(),
    ensures
        product@ == filtered_spectrum(spectrum@, filter@),
{
    let mut product: Vec<Complex<T>> = Vec::new();
    while product.len() < spectrum.len()
        invariant
            functional::<T>(),
            filter.len() == spectrum.len(),
            product.len() <= spectrum.len(),
            forall|k: int|
                0 <= k < product.len() ==> product[k] == multiply_spectrum_sample(
                    spectrum[k],
                    filter[k],
                ),
        decreases spectrum.len() - product.len(),
    {
        let k: usize = product.len();
        product.push(multiply_spectrum_sample(spectrum[k], filter[k]));
    }
    proof {
        assert(product@ =~= filtered_spectrum(spectrum@, filter@));
    }
    product
}

/// The differences between neighbours, with a zero in front.
pub open spec fn differences<T: Sample>(values: Seq<Complex<T>>) -> Seq<Complex<T>> {
    Seq::new(
        if values.len() == 0 {
            1
        } else {
            values.len()
        },
        |k: int|
            if k == 0 {
                complex_zero()
            } else {
                complex_minus(values[k], values[k - 1])
            },
    )
}

/// The differences between neighbours, with a zero in front.
pub fn ediff1d_complex_to_begin_zero<T: Sample>(values: &[Complex<T>]) -> (out: Vec<Complex<T>>)
    requires
        functional::<T>(),
    ensures
        out@ == differences(values@),
{
    let mut out: Vec<Complex<T>> = Vec::new();
    out.push(complex_zero());
    while out.len() < values.len()
        invariant
            functional::<T>(),
            1 <= out.len(),
            out.len() <= values.len() || out.len() == 1,
            forall|k: int| 0 <= k < out.len() ==> out[k] == differences(values@)[k],
        decreases values.len() - out.len(),
    {
        let k: usize = out.len();
        out.push(complex_minus(values[k], values[k - 1]));
    }
    proof {
        assert(out@ =~= differences(values@));
    }
    out
}

/// The part of a block between its cuts.
pub fn slice_vec<T>(values: &[T], blockcut: usize, blockcut_end: usize) -> (kept: &[T])
    requires
        blockcut + blockcut_end <= values.len(),
    ensures
        kept@ == values@.subrange(blockcut as int, values.len() - blockcut_end),
{
    vstd::slice::slice_subrange(values, blockcut, values.len() - blockcut_end)
}

} // verus!
