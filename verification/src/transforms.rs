//! Fourier transforms of one length, as the signal chain uses them.
use vstd::prelude::*;
use vstd::slice::slice_to_vec;

use crate::complex::Complex;
use crate::sample::{
    from_count, functional, functional_single, lemma_functional_single, one, over, times, zero,
    Sample, Single,
};

verus! {

/// Transforms of one length.
pub trait Transforms<T> {
    /// The unique half of the spectrum of a real signal.
    fn r2c(&self, signal: &[T]) -> Vec<Complex<T>>;

    /// The real signal with the given half spectrum, times its length.
    fn c2r(&self, spectrum: &[Complex<T>]) -> Vec<T>;

    /// The whole spectrum of a real signal.
    fn fft_real(&self, signal: &[T]) -> Vec<Complex<T>>;

    /// The complex signal with the given whole spectrum.
    fn ifft_complex(&self, spectrum: &[Complex<T>]) -> Vec<Complex<T>>;
}

/// `output` is what the transform may answer.
pub open spec fn r2c_answers<T, X: Transforms<T>>(
    transforms: X,
    signal: Seq<T>,
    output: Seq<Complex<T>>,
) -> bool {
    exists|x: &[T], y: Vec<Complex<T>>| #[trigger]
        call_ensures(X::r2c, (&transforms, x), y) && x@ == signal && y@ == output
}

/// The half spectrum of a real signal.
pub open spec fn r2c_of<T, X: Transforms<T>>(transforms: X, signal: Seq<T>) -> Seq<Complex<T>> {
    choose|output: Seq<Complex<T>>| r2c_answers(transforms, signal, output)
}

/// `output` is what the transform may answer.
pub open spec fn c2r_answers<T, X: Transforms<T>>(
    transforms: X,
    spectrum: Seq<Complex<T>>,
    output: Seq<T>,
) -> bool {
    exists|x: &[Complex<T>], y: Vec<T>| #[trigger]
        call_ensures(X::c2r, (&transforms, x), y) && x@ == spectrum && y@ == output
}

/// The real signal of a half spectrum, times its length.
pub open spec fn c2r_of<T, X: Transforms<T>>(transforms: X, spectrum: Seq<Complex<T>>) -> Seq<T> {
    choose|output: Seq<T>| c2r_answers(transforms, spectrum, output)
}

/// `output` is what the transform may answer.
pub open spec fn fft_real_answers<T, X: Transforms<T>>(
    transforms: X,
    signal: Seq<T>,
    output: Seq<Complex<T>>,
) -> bool {
    exists|x: &[T], y: Vec<Complex<T>>| #[trigger]
        call_ensures(X::fft_real, (&transforms, x), y) && x@ == signal && y@ == output
}

/// The whole spectrum of a real signal.
pub open spec fn fft_real_of<T, X: Transforms<T>>(
    transforms: X,
    signal: Seq<T>,
) -> Seq<Complex<T>> {
    choose|output: Seq<Complex<T>>| fft_real_answers(transforms, signal, output)
}

/// `output` is what the transform may answer.
pub open spec fn ifft_complex_answers<T, X: Transforms<T>>(
    transforms: X,
    spectrum: Seq<Complex<T>>,
    output: Seq<Complex<T>>,
) -> bool {
    exists|x: &[Complex<T>], y: Vec<Complex<T>>| #[trigger]
        call_ensures(X::ifft_complex, (&transforms, x), y) && x@ == spectrum && y@ == output
}

/// The complex signal of a whole spectrum.
pub open spec fn ifft_complex_of<T, X: Transforms<T>>(
    transforms: X,
    spectrum: Seq<Complex<T>>,
) -> Seq<Complex<T>> {
    choose|output: Seq<Complex<T>>| ifft_complex_answers(transforms, spectrum, output)
}

/// The transforms answer the same for the same input, and are of length `len`: a
/// signal of that many samples has `len / 2 + 1` unique bins.
#[verifier::opaque]
pub open spec fn functional_transforms<T, X: Transforms<T>>(transforms: X, len: nat) -> bool {
    &&& forall|x: Seq<T>, y: Seq<Complex<T>>, z: Seq<Complex<T>>|
        #![trigger r2c_answers(transforms, x, y), r2c_answers(transforms, x, z)]
        r2c_answers(transforms, x, y) && r2c_answers(transforms, x, z) ==> y == z
    &&& forall|x: Seq<T>, y: Seq<Complex<T>>|
        #[trigger] r2c_answers(transforms, x, y) && x.len() == len ==> y.len() == len / 2 + 1
    &&& forall|x: Seq<Complex<T>>, y: Seq<T>, z: Seq<T>|
        #![trigger c2r_answers(transforms, x, y), c2r_answers(transforms, x, z)]
        c2r_answers(transforms, x, y) && c2r_answers(transforms, x, z) ==> y == z
    &&& forall|x: Seq<Complex<T>>, y: Seq<T>|
        #[trigger] c2r_answers(transforms, x, y) && x.len() == len / 2 + 1 ==> y.len() == len
    &&& forall|x: Seq<T>, y: Seq<Complex<T>>, z: Seq<Complex<T>>|
        #![trigger fft_real_answers(transforms, x, y), fft_real_answers(transforms, x, z)]
        fft_real_answers(transforms, x, y) && fft_real_answers(transforms, x, z) ==> y == z
    &&& forall|x: Seq<T>, y: Seq<Complex<T>>|
        #[trigger] fft_real_answers(transforms, x, y) && x.len() == len ==> y.len() == len
    &&& forall|x: Seq<Complex<T>>, y: Seq<Complex<T>>, z: Seq<Complex<T>>|
        #![trigger ifft_complex_answers(transforms, x, y), ifft_complex_answers(transforms, x, z)]
        ifft_complex_answers(transforms, x, y) && ifft_complex_answers(transforms, x, z) ==> y == z
    &&& forall|x: Seq<Complex<T>>, y: Seq<Complex<T>>|
        #[trigger] ifft_complex_answers(transforms, x, y) && x.len() == len ==> y.len() == len
}

/// The half spectrum of a real signal.
pub fn run_r2c<T, X: Transforms<T>>(
    transforms: &X,
    signal: &[T],
) -> (output: Vec<Complex<T>>)
    requires
        functional_transforms::<T, X>(*transforms, signal@.len()),
    ensures
        output@ == r2c_of(*transforms, signal@),
        r2c_answers(*transforms, signal@, output@),
        output.len() == signal.len() / 2 + 1,
{
    reveal(functional_transforms);
    let output: Vec<Complex<T>> = transforms.r2c(signal);
    proof {
        assert(r2c_answers(*transforms, signal@, output@));
    }
    output
}

/// The real signal of a half spectrum, times its length.
pub fn run_c2r<T, X: Transforms<T>>(
    transforms: &X,
    spectrum: &[Complex<T>],
    len: usize,
) -> (output: Vec<T>)
    requires
        functional_transforms::<T, X>(*transforms, len as nat),
        spectrum.len() == len / 2 + 1,
    ensures
        output@ == c2r_of(*transforms, spectrum@),
        c2r_answers(*transforms, spectrum@, output@),
        output.len() == len,
{
    reveal(functional_transforms);
    let output: Vec<T> = transforms.c2r(spectrum);
    proof {
        assert(c2r_answers(*transforms, spectrum@, output@));
    }
    output
}

/// The whole spectrum of a real signal.
pub fn run_fft_real<T, X: Transforms<T>>(
    transforms: &X,
    signal: &[T],
) -> (output: Vec<Complex<T>>)
    requires
        functional_transforms::<T, X>(*transforms, signal@.len()),
    ensures
        output@ == fft_real_of(*transforms, signal@),
        fft_real_answers(*transforms, signal@, output@),
        output.len() == signal.len(),
{
    reveal(functional_transforms);
    let output: Vec<Complex<T>> = transforms.fft_real(signal);
    proof {
        assert(fft_real_answers(*transforms, signal@, output@));
    }
    output
}

/// The complex signal of a whole spectrum.
pub fn run_ifft_complex<T, X: Transforms<T>>(
    transforms: &X,
    spectrum: &[Complex<T>],
) -> (output: Vec<Complex<T>>)
    requires
        functional_transforms::<T, X>(*transforms, spectrum@.len()),
    ensures
        output@ == ifft_complex_of(*transforms, spectrum@),
        ifft_complex_answers(*transforms, spectrum@, output@),
        output.len() == spectrum.len(),
{
    reveal(functional_transforms);
    let output: Vec<Complex<T>> = transforms.ifft_complex(spectrum);
    proof {
        assert(ifft_complex_answers(*transforms, spectrum@, output@));
    }
    output
}

/// The spectrum of a real signal of `n` samples, with what cannot be there taken
/// away: the imaginary parts at frequency 0 and at the folding frequency, which
/// an odd number of samples does not have.
pub open spec fn without_residue<T: Sample>(spectrum: Seq<Complex<T>>, n: nat) -> Seq<
    Complex<T>,
> {
    Seq::new(
        spectrum.len(),
        |k: int|
            if k == 0 || 2 * k == n {
                Complex { im: zero(), ..spectrum[k] }
            } else {
                spectrum[k]
            },
    )
}

/// The samples, each multiplied by `factor`.
pub open spec fn amplified<T: Sample>(signal: Seq<T>, factor: T) -> Seq<T> {
    signal.map_values(|sample: T| times(sample, factor))
}

/// The length of the signal that a half spectrum stands for, unless it is given.
pub open spec fn signal_len(n: Option<usize>, bins: nat) -> nat {
    match n {
        Some(n) => n as nat,
        None => (2 * (bins - 1)) as nat,
    }
}

/// What [`irfft_owned_f32`] answers.
pub open spec fn irfft_of<T: Single, X: Transforms<T>>(
    transforms: X,
    spectrum: Seq<Complex<T>>,
    n: Option<usize>,
) -> Seq<T> {
    if spectrum.len() == 0 {
        Seq::empty()
    } else {
        let len = signal_len(n, spectrum.len());
        amplified(
            c2r_of(transforms, without_residue(spectrum, len)),
            over(one(), from_count(len as usize)),
        )
    }
}

/// The half spectrum of a real signal. The buffer is used up.
pub fn rfft_owned_f32<T, X: Transforms<T>>(
    buffer: Vec<T>,
    transforms: &X,
) -> (output: Vec<Complex<T>>)
    requires
        functional_transforms::<T, X>(*transforms, buffer@.len()),
    ensures
        output@ == r2c_of(*transforms, buffer@),
        output.len() == buffer.len() / 2 + 1,
{
    run_r2c(transforms, buffer.as_slice())
}

/// The half spectrum of a real signal.
pub fn rfft_f32<T, X: Transforms<T>>(input: &[T], transforms: &X) -> (output: Vec<Complex<T>>)
    requires
        functional_transforms::<T, X>(*transforms, input@.len()),
    ensures
        output@ == r2c_of(*transforms, input@),
        output.len() == input.len() / 2 + 1,
{
    run_r2c(transforms, input)
}

/// The real signal with the given half spectrum. Its length is `n`, or twice
/// the number of bins after the first. The spectrum is used up.
pub fn irfft_owned_f32<T: Single, X: Transforms<T>>(
    spectrum: Vec<Complex<T>>,
    n: Option<usize>,
    transforms: &X,
) -> (output: Vec<T>)
    requires
        functional_single::<T>(),
        spectrum.len() > 0 ==> {
            &&& signal_len(n, spectrum@.len()) <= usize::MAX
            &&& functional_transforms::<T, X>(*transforms, signal_len(n, spectrum@.len()))
            &&& spectrum.len() == signal_len(n, spectrum@.len()) / 2 + 1
        },
    ensures
        output@ == irfft_of(*transforms, spectrum@, n),
        spectrum.len() == 0 ==> output.len() == 0,
        spectrum.len() > 0 ==> output.len() == signal_len(n, spectrum@.len()),
{
    proof {
        lemma_functional_single::<T>();
    }
    if spectrum.is_empty() {
        return Vec::new();
    }
    let len: usize = match n {
        Some(n) => n,
        None => 2 * (spectrum.len() - 1),
    };
    let mut cleaned: Vec<Complex<T>> = spectrum;
    let ghost before = cleaned@;
    let mut first: Complex<T> = cleaned[0];
    first.im = zero();
    cleaned[0] = first;
    if len % 2 == 0 {
        let mut middle: Complex<T> = cleaned[len / 2];
        middle.im = zero();
        cleaned[len / 2] = middle;
    }
    proof {
        assert(cleaned@ =~= without_residue(before, len as nat));
    }
    let raw: Vec<T> = run_c2r(transforms, cleaned.as_slice(), len);
    let inv_scale: T = over(one(), from_count(len));
    let mut output: Vec<T> = Vec::new();
    while output.len() < raw.len()
        invariant
            functional::<T>(),
            output.len() <= raw.len(),
            forall|k: int| 0 <= k < output.len() ==> output[k] == times(raw[k], inv_scale),
        decreases raw.len() - output.len(),
    {
        output.push(times(raw[output.len()], inv_scale));
    }
    proof {
        assert(output@ =~= amplified(raw@, inv_scale));
    }
    output
}

/// The real signal with the given half spectrum.
pub fn irfft_f32<T: Single, X: Transforms<T>>(
    input: &[Complex<T>],
    n: Option<usize>,
    transforms: &X,
) -> (output: Vec<T>)
    requires
        functional_single::<T>(),
        input.len() > 0 ==> {
            &&& signal_len(n, input@.len()) <= usize::MAX
            &&& functional_transforms::<T, X>(*transforms, signal_len(n, input@.len()))
            &&& input.len() == signal_len(n, input@.len()) / 2 + 1
        },
    ensures
        output@ == irfft_of(*transforms, input@, n),
        input.len() == 0 ==> output.len() == 0,
        input.len() > 0 ==> output.len() == signal_len(n, input@.len()),
{
    irfft_owned_f32(slice_to_vec(input), n, transforms)
}

} // verus!
