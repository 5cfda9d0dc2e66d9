//! A verified core for the Brutal congestion controller and for the transport
//! configuration that selects it.
//!
//! [`congestion_control`] holds the controller and the reader of bandwidth texts,
//! [`transport`] the configuration. What holds of them beyond single calls stands in
//! [`controller_laws`], [`event_laws`], [`round_laws`], [`window_laws`], [`accuracy_laws`],
//! [`bandwidth_laws`] and [`transport_laws`].
//!
//! Bandwidths, gains and rates are IEEE 754 binary64 numbers. The crate computes
//! with them through integers only: [`rounding`] defines the rounding to the
//! nearest representable number, with [`natural`] for long integers; [`binary64`] is
//! the number type, [`decimal`] its text form, and [`binary64_laws`] and [`decimal_laws`]
//! say what holds of them. [`time`] holds spans and points of time, [`text`] what is needed of strings.

pub mod rounding;
pub mod natural;
pub mod binary64;
pub mod binary64_laws;
pub mod text;
pub mod decimal;
pub mod decimal_laws;
pub mod time;
pub mod congestion_control;
pub mod controller_laws;
pub mod event_laws;
pub mod round_laws;
pub mod window_laws;
pub mod accuracy_laws;
pub mod bandwidth_laws;
pub mod transport;
pub mod transport_laws;
