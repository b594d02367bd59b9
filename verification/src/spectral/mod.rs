//! Windows, transforms, and short-time spectral processing.

pub mod band;
pub mod dft;
pub mod fft;
pub mod fourier;
pub mod reconstruction;
pub mod selection;
pub mod spectral_filter;
pub mod stft;
pub mod window;
