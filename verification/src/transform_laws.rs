//! What the signal chain keeps of a signal when it goes through its spectrum.
//!
//! The transforms come from outside. The laws here take as a premise what every
//! Fourier transform does: the inverse undoes the forward transform. Rounding is
//! left aside.
use vstd::prelude::*;

use crate::complex::Complex;
use crate::reals::{lemma_real_associates, lemma_real_distributes};
use crate::sample::{
    exact, from_count, fused, is_zero, negated, one, over, rank, times, zero, Sample, Single,
};
use crate::spectrum::{
    analytic_of, bin_weight, filtered_spectrum, law_without_gains_is_hilbert,
    multiply_spectrum_sample, shaped, with_gains,
};
use crate::transforms::{
    c2r_of, fft_real_of, ifft_complex_of, irfft_of, r2c_of, signal_len, without_residue,
    Transforms,
};

verus! {

/// The bin of the opposite frequency among `n`.
pub open spec fn opposite(n: nat, k: int) -> int {
    if k == 0 {
        0
    } else {
        n - k
    }
}

/// The symmetric part of one spectrum is the other: the part whose bins of
/// opposite frequencies are conjugates.
pub open spec fn symmetric_part_is<T>(
    value: spec_fn(T) -> real,
    spectrum: Seq<Complex<T>>,
    part: Seq<Complex<T>>,
) -> bool {
    spectrum.len() == part.len() && forall|k: int|
        0 <= k < part.len() ==> {
            let other = spectrum[opposite(part.len(), k)];
            &&& value(spectrum[k].re) + value(other.re) == 2real * value((#[trigger] part[k]).re)
            &&& value(spectrum[k].im) - value(other.im) == 2real * value(part[k].im)
        }
}

/// The real parts of the samples are the signal.
pub open spec fn real_parts_are<T>(
    value: spec_fn(T) -> real,
    samples: Seq<Complex<T>>,
    signal: Seq<T>,
) -> bool {
    samples.len() == signal.len() && forall|i: int|
        0 <= i < signal.len() ==> value((#[trigger] samples[i]).re) == value(signal[i])
}

/// The whole transforms of `n` samples undo each other: the spectrum of a real
/// signal is symmetric, and the real part of the inverse of any spectrum with
/// that symmetric part is the signal again.
pub open spec fn undo_each_other<T, X: Transforms<T>>(
    value: spec_fn(T) -> real,
    transforms: X,
    n: nat,
) -> bool {
    forall|signal: Seq<T>| #![trigger fft_real_of(transforms, signal)]
        signal.len() == n ==> {
            let spectrum = fft_real_of(transforms, signal);
            &&& spectrum.len() == n
            &&& symmetric_part_is(value, spectrum, spectrum)
            &&& forall|other: Seq<Complex<T>>| #[trigger]
                symmetric_part_is(value, other, spectrum) ==> real_parts_are(
                    value,
                    ifft_complex_of(transforms, other),
                    signal,
                )
        }
}

/// Without gains, the real part of the analytic signal is the signal itself.
pub proof fn law_analytic_signal_keeps_its_real_part<T: Sample, X: Transforms<T>>(
    value: spec_fn(T) -> real,
    transforms: X,
    signal: Seq<T>,
)
    requires
        exact(value),
        undo_each_other(value, transforms, signal.len()),
    ensures
        real_parts_are(value, analytic_of(transforms, signal, None), signal),
{
    if signal.len() > 0 {
        let n = signal.len();
        let spectrum = fft_real_of(transforms, signal);
        let weighted = shaped(spectrum, None);
        assert forall|k: int| 0 <= k < n implies {
            let other = weighted[opposite(n, k)];
            &&& value(weighted[k].re) + value(other.re) == 2real * value(
                (#[trigger] spectrum[k]).re,
            )
            &&& value(weighted[k].im) - value(other.im) == 2real * value(spectrum[k].im)
        } by {
            let m = opposite(n, k);
            law_without_gains_is_hilbert(value, spectrum, k);
            law_without_gains_is_hilbert(value, spectrum, m);
            assert(value(spectrum[k].re) + value(spectrum[m].re) == 2real * value(
                spectrum[k].re,
            ));
            assert(value(spectrum[k].im) - value(spectrum[m].im) == 2real * value(
                spectrum[k].im,
            ));
            if k == 0 || 2 * k == n {
                assert(bin_weight(n, k) == 1);
            } else if 2 * k < n {
                assert(bin_weight(n, k) == 2);
                assert(bin_weight(n, m) == 0);
            } else {
                assert(bin_weight(n, k) == 0);
                assert(bin_weight(n, m) == 2);
            }
        }
        assert(symmetric_part_is(value, weighted, spectrum));
    }
}

/// Two spectra that stand for the same numbers.
pub open spec fn same_bins<T>(
    value: spec_fn(T) -> real,
    one: Seq<Complex<T>>,
    other: Seq<Complex<T>>,
) -> bool {
    one.len() == other.len() && forall|k: int|
        0 <= k < one.len() ==> value((#[trigger] one[k]).re) == value(other[k].re) && value(
            one[k].im,
        ) == value(other[k].im)
}

/// The samples are `factor` times the signal.
pub open spec fn is_multiple_of<T>(
    value: spec_fn(T) -> real,
    factor: real,
    samples: Seq<T>,
    signal: Seq<T>,
) -> bool {
    samples.len() == signal.len() && forall|i: int|
        0 <= i < signal.len() ==> value(#[trigger] samples[i]) == factor * value(signal[i])
}

/// The half transforms of `n` samples undo each other, up to their length: the
/// half spectrum of a real signal has no imaginary part at frequency 0 and at the
/// folding frequency, and the inverse of what stands for the same numbers is the
/// signal times its length.
pub open spec fn halves_undo_each_other<T: Single, X: Transforms<T>>(
    value: spec_fn(T) -> real,
    transforms: X,
    n: nat,
) -> bool {
    forall|signal: Seq<T>| #![trigger r2c_of(transforms, signal)]
        signal.len() == n ==> {
            let half = r2c_of(transforms, signal);
            &&& half.len() == n / 2 + 1
            &&& forall|k: int|
                0 <= k < half.len() && (k == 0 || 2 * k == n) ==> value((#[trigger] half[k]).im)
                    == 0real
            &&& forall|other: Seq<Complex<T>>| #[trigger]
                same_bins(value, other, half) ==> is_multiple_of(
                    value,
                    value(from_count::<T>(n as usize)),
                    c2r_of(transforms, other),
                    signal,
                )
        }
}

proof fn lemma_scaled_back(count: real, inverse: real, sample: real)
    requires
        inverse * count == 1real,
    ensures
        (count * sample) * inverse == sample,
{
    lemma_real_associates(inverse, count, sample);
    assert((count * sample) * inverse == inverse * (count * sample)) by (nonlinear_arith);
    assert((inverse * count) * sample == sample) by (nonlinear_arith)
        requires
            inverse * count == 1real,
    ;
}

/// The inverse real transform undoes the forward one, whether the length is given
/// or follows from the number of bins.
pub proof fn law_inverse_undoes_forward<T: Single, X: Transforms<T>>(
    value: spec_fn(T) -> real,
    transforms: X,
    signal: Seq<T>,
    n: Option<usize>,
)
    requires
        exact(value),
        signal_len(n, signal.len() / 2 + 1) == signal.len(),
        signal.len() <= usize::MAX,
        halves_undo_each_other(value, transforms, signal.len()),
        value(from_count::<T>(signal.len() as usize)) != 0real,
    ensures
        is_multiple_of(value, 1real, irfft_of(transforms, r2c_of(transforms, signal), n), signal),
{
    let len = signal.len();
    let half = r2c_of(transforms, signal);
    let clean = without_residue(half, len);
    assert(same_bins(value, clean, half));
    let raw = c2r_of(transforms, clean);
    let count = value(from_count::<T>(len as usize));
    let inverse = over(one::<T>(), from_count::<T>(len as usize));
    assert(is_multiple_of(value, count, raw, signal));
    assert(value(inverse) * count == 1real);
    let output = irfft_of(transforms, half, n);
    assert forall|i: int| 0 <= i < len implies value(#[trigger] output[i]) == 1real * value(
        signal[i],
    ) by {
        assert(output[i] == times(raw[i], inverse));
        assert(value(raw[i]) == count * value(signal[i]));
        lemma_scaled_back(count, value(inverse), value(signal[i]));
    }
}

/// A real filter as complex coefficients.
pub open spec fn as_complex<T: Sample>(gains: Seq<T>) -> Seq<Complex<T>> {
    gains.map_values(|gain: T| Complex { re: gain, im: zero() })
}

/// Real gains do what the complex product with them does.
pub proof fn law_real_gains_are_complex_ones<T: Sample>(
    value: spec_fn(T) -> real,
    spectrum: Seq<Complex<T>>,
    gains: Seq<T>,
)
    requires
        exact(value),
        spectrum.len() == gains.len(),
    ensures
        same_bins(
            value,
            with_gains(spectrum, gains),
            filtered_spectrum(spectrum, as_complex(gains)),
        ),
{
    assert forall|k: int| 0 <= k < spectrum.len() implies {
        let plain = #[trigger] with_gains(spectrum, gains)[k];
        let product = filtered_spectrum(spectrum, as_complex(gains))[k];
        value(plain.re) == value(product.re) && value(plain.im) == value(product.im)
    } by {
        assert(value(spectrum[k].im) * 0real == 0real) by (nonlinear_arith);
        assert(value(spectrum[k].re) * 0real == 0real) by (nonlinear_arith);
        lemma_real_distributes(value(spectrum[k].re), 0real, 0real);
        assert(filtered_spectrum(spectrum, as_complex(gains))[k] == multiply_spectrum_sample(
            spectrum[k],
            Complex { re: gains[k], im: zero() },
        ));
    }
}

/// Zero behaves in products as it does on machine numbers: a product of a number
/// with it is a zero of some sign, and adding a zero, or the product with one,
/// changes no number. `finite` says which samples are finite.
pub open spec fn zero_vanishes<T: Sample>(finite: spec_fn(T) -> bool) -> bool {
    &&& forall|a: T| finite(a) ==> is_zero(negated(#[trigger] times(a, zero())))
    &&& forall|a: T, b: T, z: T|
        finite(a) && finite(b) && is_zero(z) ==> rank(#[trigger] fused(a, b, z)) == rank(
            times(a, b),
        )
    &&& forall|a: T, c: T| finite(a) ==> rank(#[trigger] fused(a, zero(), c)) == rank(c)
}

/// On finite samples, real gains compare equal to what the complex product with
/// them gives: the two differ at most in the sign of a zero.
pub proof fn law_real_gains_compare_equal<T: Sample>(
    finite: spec_fn(T) -> bool,
    spectrum: Seq<Complex<T>>,
    gains: Seq<T>,
    k: int,
)
    requires
        zero_vanishes(finite),
        spectrum.len() == gains.len(),
        0 <= k < spectrum.len(),
        finite(spectrum[k].re),
        finite(spectrum[k].im),
        finite(gains[k]),
    ensures
        rank(with_gains(spectrum, gains)[k].re) == rank(
            filtered_spectrum(spectrum, as_complex(gains))[k].re,
        ),
        rank(with_gains(spectrum, gains)[k].im) == rank(
            filtered_spectrum(spectrum, as_complex(gains))[k].im,
        ),
{
    let bin = spectrum[k];
    let none = times(bin.im, zero::<T>());
    assert(is_zero(negated(none)));
    assert(rank(fused(bin.re, gains[k], negated(none))) == rank(times(bin.re, gains[k])));
    assert(rank(fused(bin.re, zero(), times(bin.im, gains[k]))) == rank(
        times(bin.im, gains[k]),
    ));
}

} // verus!
