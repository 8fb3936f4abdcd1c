//! Temporal anomaly detection for hardware timing measurements.
//!
//! A measurement of how many cycles a batch of operations took goes through five
//! stages ([`fold`]) that strip clock frequency, instruction count, temperature and
//! load, and end in a decision. A detector ([`detector`]) runs the pipeline online,
//! over a sliding window. Calibration ([`profile`]) turns timed batches into the
//! profile that measurements are compared with.
//!
//! All numbers are doubles ([`double`], [`arithmetic`]), modelled bit for bit on a
//! ladder of magnitudes ([`ladder`]). What holds of the whole is in [`laws`] and
//! [`agreement`].
//!
//! What the numbers mean is stated in the reals, with room for rounding ([`exact`]): of
//! the stages and their decisions ([`meaning`], [`judgement`], [`scores`]), of calibration
//! ([`calibrated`], [`spreads`]), of counts and synthetic loads ([`shares`]), and of text
//! that is written and read ([`written`]).
pub mod agreement;
pub mod arithmetic;
pub mod batches;
pub mod calibrated;
pub mod detector;
pub mod double;
pub mod exact;
pub mod fold;
pub mod judgement;
pub mod ladder;
pub mod laws;
pub mod meaning;
pub mod order;
pub mod profile;
pub mod readings;
pub mod render;
pub mod report;
pub mod scenario;
pub mod scores;
pub mod settle;
pub mod shares;
pub mod spreads;
pub mod table;
pub mod text;
pub mod types;
pub mod written;
