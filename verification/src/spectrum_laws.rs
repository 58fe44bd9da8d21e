//! What filtering a spectrum does to the signal.
//!
//! Spectra are compared as pairs of real numbers. As a premise stands what every
//! Fourier transform does: the forward transform gives back the bins that the
//! inverse was made from. Rounding is left aside.
use vstd::prelude::*;

use crate::complex::Complex;
use crate::reals::{lemma_real_associates, lemma_real_distributes};
use crate::sample::{exact, from_count, one, over, times, two, Sample, Single};
use crate::spectrum::{differences, filtered_spectrum, one_sided, shaped, with_gains};
use crate::transform_laws::{is_multiple_of, same_bins};
use crate::transforms::{c2r_of, irfft_of, r2c_of, signal_len, without_residue, Transforms};

verus! {

/// Real and imaginary part of the number that a sample stands for.
pub open spec fn number_of<T>(value: spec_fn(T) -> real, z: Complex<T>) -> (real, real) {
    (value(z.re), value(z.im))
}

/// The numbers that a spectrum stands for.
pub open spec fn numbers_of<T>(value: spec_fn(T) -> real, spectrum: Seq<Complex<T>>) -> Seq<
    (real, real),
> {
    spectrum.map_values(|z: Complex<T>| number_of(value, z))
}

/// The product of two complex numbers.
pub open spec fn product(a: (real, real), b: (real, real)) -> (real, real) {
    (a.0 * b.0 - a.1 * b.1, a.0 * b.1 + a.1 * b.0)
}

/// The products of two sequences of complex numbers, place by place.
pub open spec fn products(a: Seq<(real, real)>, b: Seq<(real, real)>) -> Seq<(real, real)> {
    Seq::new(a.len(), |k: int| product(a[k], b[k]))
}

/// Complex numbers times real ones, place by place.
pub open spec fn multiples<T>(
    value: spec_fn(T) -> real,
    a: Seq<(real, real)>,
    gains: Seq<T>,
) -> Seq<(real, real)> {
    Seq::new(a.len(), |k: int| (a[k].0 * value(gains[k]), a[k].1 * value(gains[k])))
}

/// The signal has these bins: those at frequency 0 and at the folding frequency
/// by their real parts, as a real signal can have no other.
pub open spec fn has_bins<T, X: Transforms<T>>(
    value: spec_fn(T) -> real,
    transforms: X,
    signal: Seq<T>,
    bins: Seq<(real, real)>,
) -> bool {
    let half = r2c_of(transforms, signal);
    &&& half.len() == bins.len()
    &&& bins.len() == signal.len() / 2 + 1
    &&& forall|k: int|
        0 <= k < half.len() ==> value((#[trigger] half[k]).re) == bins[k].0 && value(half[k].im)
            == if k == 0 || 2 * k == signal.len() {
            0real
        } else {
            bins[k].1
        }
}

/// No bin that a real signal must have real has an imaginary part.
pub open spec fn is_clean<T>(
    value: spec_fn(T) -> real,
    half: Seq<Complex<T>>,
    n: nat,
) -> bool {
    forall|k: int|
        0 <= k < half.len() && (k == 0 || 2 * k == n) ==> value((#[trigger] half[k]).im) == 0real
}

/// The half transforms of `n` samples give back the bins: the forward transform
/// of a signal whose multiple by its length is the inverse of a half spectrum is
/// that half spectrum.
pub open spec fn bins_come_back<T: Single, X: Transforms<T>>(
    value: spec_fn(T) -> real,
    transforms: X,
    n: nat,
) -> bool {
    forall|half: Seq<Complex<T>>, signal: Seq<T>|
        #![trigger c2r_of(transforms, half), r2c_of(transforms, signal)]
        half.len() == n / 2 + 1 && is_clean(value, half, n) ==> {
            &&& c2r_of(transforms, half).len() == n
            &&& is_multiple_of(
                value,
                value(from_count::<T>(n as usize)),
                c2r_of(transforms, half),
                signal,
            ) ==> same_bins(value, r2c_of(transforms, signal), half)
        }
}

/// The inverse real transform of a half spectrum has the bins of that spectrum.
pub proof fn law_inverse_has_the_bins<T: Single, X: Transforms<T>>(
    value: spec_fn(T) -> real,
    transforms: X,
    half: Seq<Complex<T>>,
    n: Option<usize>,
)
    requires
        exact(value),
        half.len() > 0,
        signal_len(n, half.len()) <= usize::MAX,
        half.len() == signal_len(n, half.len()) / 2 + 1,
        bins_come_back(value, transforms, signal_len(n, half.len())),
        value(from_count::<T>(signal_len(n, half.len()) as usize)) != 0real,
    ensures
        irfft_of(transforms, half, n).len() == signal_len(n, half.len()),
        has_bins(value, transforms, irfft_of(transforms, half, n), numbers_of(value, half)),
{
    let len = signal_len(n, half.len());
    let clean = without_residue(half, len);
    let raw = c2r_of(transforms, clean);
    let count = value(from_count::<T>(len as usize));
    let inverse = over(one::<T>(), from_count::<T>(len as usize));
    let signal = irfft_of(transforms, half, n);
    assert(is_clean(value, clean, len));
    let bins = r2c_of(transforms, signal);
    assert(raw.len() == len);
    assert(value(inverse) * count == 1real);
    assert(signal.len() == len);
    assert forall|i: int| 0 <= i < signal.len() implies value(#[trigger] raw[i]) == count * value(
        signal[i],
    ) by {
        assert(signal[i] == times(raw[i], inverse));
        let whole = value(raw[i]);
        let part = value(inverse);
        assert(count * (whole * part) == whole) by (nonlinear_arith)
            requires
                part * count == 1real,
        ;
    }
    assert(is_multiple_of(value, count, raw, signal));
    assert(same_bins(value, bins, clean));
    assert forall|k: int| 0 <= k < bins.len() implies value((#[trigger] bins[k]).re)
        == numbers_of(value, half)[k].0 && value(bins[k].im) == if k == 0 || 2 * k
        == signal.len() {
        0real
    } else {
        numbers_of(value, half)[k].1
    } by {
        assert(clean[k].re == half[k].re);
    }
}

/// Applying a complex filter multiplies each bin by the filter's.
pub proof fn law_filter_multiplies_bins<T: Sample>(
    value: spec_fn(T) -> real,
    spectrum: Seq<Complex<T>>,
    filter: Seq<Complex<T>>,
)
    requires
        exact(value),
        spectrum.len() == filter.len(),
    ensures
        numbers_of(value, filtered_spectrum(spectrum, filter)) == products(
            numbers_of(value, spectrum),
            numbers_of(value, filter),
        ),
{
    let filtered = numbers_of(value, filtered_spectrum(spectrum, filter));
    let expected = products(numbers_of(value, spectrum), numbers_of(value, filter));
    assert forall|k: int| 0 <= k < spectrum.len() implies #[trigger] filtered[k]
        == expected[k] by {
        let z = spectrum[k];
        let h = filter[k];
        let p = filtered_spectrum(spectrum, filter)[k];
        lemma_real_distributes(value(z.im), value(h.im), 0real);
        lemma_real_distributes(value(z.im), value(h.re), 0real);
        lemma_real_distributes(value(z.re), value(h.re), 0real);
        lemma_real_distributes(value(z.re), value(h.im), 0real);
        assert(value(p.re) == value(z.re) * value(h.re) - value(z.im) * value(h.im));
        assert(value(p.im) == value(z.re) * value(h.im) + value(z.im) * value(h.re));
    }
    assert(filtered =~= expected);
}

/// Applying real gains multiplies both parts of each bin by its gain.
pub proof fn law_gains_multiply_bins<T: Sample>(
    value: spec_fn(T) -> real,
    spectrum: Seq<Complex<T>>,
    gains: Seq<T>,
)
    requires
        exact(value),
        spectrum.len() <= gains.len(),
    ensures
        numbers_of(value, with_gains(spectrum, gains)) == multiples(
            value,
            numbers_of(value, spectrum),
            gains,
        ),
{
    let amplified = numbers_of(value, with_gains(spectrum, gains));
    let expected = multiples(value, numbers_of(value, spectrum), gains);
    assert forall|k: int| 0 <= k < spectrum.len() implies #[trigger] amplified[k]
        == expected[k] by {
        lemma_real_distributes(value(spectrum[k].re), value(gains[k]), 0real);
        lemma_real_distributes(value(spectrum[k].im), value(gains[k]), 0real);
    }
    assert(amplified =~= expected);
}

/// A complex number times a real one.
pub open spec fn multiple(factor: real, a: (real, real)) -> (real, real) {
    (factor * a.0, factor * a.1)
}

/// The spectrum of the analytic signal of a half spectrum: frequency 0 and the
/// folding frequency stand once, the frequencies between twice, the negative ones
/// not at all.
pub proof fn law_one_sided_doubles_bins<T: Sample>(
    value: spec_fn(T) -> real,
    half: Seq<Complex<T>>,
    n: nat,
    k: int,
)
    requires
        exact(value),
        half.len() == n / 2 + 1,
        0 <= k < n,
    ensures
        ({
            let bin = number_of(value, one_sided(half, n)[k]);
            &&& 2 * k > n ==> bin == (0real, 0real)
            &&& k == 0 || 2 * k == n ==> bin == number_of(value, half[k])
            &&& 0 < 2 * k < n ==> bin == multiple(2real, number_of(value, half[k]))
        }),
{
    if 0 < 2 * k < n {
        assert(value(two::<T>()) == 2real);
        lemma_twice(value(half[k].re), value(two::<T>()));
        lemma_twice(value(half[k].im), value(two::<T>()));
    }
}

proof fn lemma_twice(part: real, twice: real)
    requires
        twice == 2real,
    ensures
        part * twice == 2real * part,
        twice * part == 2real * part,
{
    assert(part * twice == 2real * part) by (nonlinear_arith)
        requires
            twice == 2real,
    ;
    assert(twice * part == 2real * part) by (nonlinear_arith)
        requires
            twice == 2real,
    ;
}

/// With gains the analytic signal of a whole spectrum has each of those bins
/// times its gain.
pub proof fn law_shaping_multiplies_by_the_gains<T: Sample>(
    value: spec_fn(T) -> real,
    spectrum: Seq<Complex<T>>,
    gains: Seq<T>,
    k: int,
)
    requires
        exact(value),
        0 <= k < spectrum.len(),
        gains.len() >= spectrum.len() / 2 + 1,
    ensures
        ({
            let n = spectrum.len();
            let bin = number_of(value, shaped(spectrum, Some(gains))[k]);
            let amplified = multiple(value(gains[k]), number_of(value, spectrum[k]));
            &&& 2 * k > n ==> bin == (0real, 0real)
            &&& k == 0 || 2 * k == n ==> bin == amplified
            &&& 0 < 2 * k < n ==> bin == multiple(2real, amplified)
        }),
{
    let gain = value(gains[k]);
    let z = spectrum[k];
    lemma_real_distributes(gain, value(z.re), 0real);
    lemma_real_distributes(gain, value(z.im), 0real);
    assert(value(two::<T>()) == 2real);
    let twice = value(times(two::<T>(), gains[k]));
    lemma_twice(gain, value(two::<T>()));
    assert(twice == 2real * gain);
    lemma_real_associates(2real, gain, value(z.re));
    lemma_real_associates(2real, gain, value(z.im));
    lemma_real_distributes(twice, value(z.re), 0real);
    lemma_real_distributes(twice, value(z.im), 0real);
}

/// The differences begin with zero, and each of the others is a sample less the
/// one before it: together they give each sample less the first.
pub proof fn law_differences_add_up<T: Sample>(
    value: spec_fn(T) -> real,
    samples: Seq<Complex<T>>,
    k: int,
)
    requires
        exact(value),
        0 < k < samples.len(),
    ensures
        ({
            let steps = differences(samples);
            &&& steps.len() == samples.len()
            &&& number_of(value, steps[0]) == (0real, 0real)
            &&& value(steps[k].re) + value(samples[k - 1].re) == value(samples[k].re)
            &&& value(steps[k].im) + value(samples[k - 1].im) == value(samples[k].im)
        }),
{
}

} // verus!
