//! Online extraction of spectral landmarks: the time-frequency points that
//! are local maxima of signal energy in a stream of spectral frames.
//!
//! Amplitudes and frequencies are fixed-point integers: an amplitude is a
//! non-negative magnitude in whatever unit the analyzer chose, a frequency is
//! a count of the analyzer's frequency units (millihertz, for instance).
pub mod display;
pub mod feature;
pub mod spectral;
