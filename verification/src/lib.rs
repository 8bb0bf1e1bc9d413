//! Mass-spectrometry spectrum processing: cleaning and centroiding of raw
//! peak lists, and an entropy-based similarity score between cleaned spectra.
//!
//! All quantities are fixed-point integers: m/z values and tolerances are in
//! caller-chosen mass units (one micro-Dalton per unit works well), relative
//! tolerances and noise fractions are in millionths, and normalized
//! intensities are in units of `INTENSITY_ONE`.

pub mod spectrum;
pub mod centroid;
pub mod cleaner;
pub mod entropy;
