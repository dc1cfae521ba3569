//! Timing and judgement core of a rhythm game.
//!
//! A chart is a set of time-ordered event sequences. The scheduler turns the
//! chart into live lane groups and notes as the clock advances, and the judge
//! matches key presses against the live notes and retires them with a grade.
//!
//! All quantities are integers. Times are whole microseconds. Screen
//! coordinates, colour components and the cutoff ratio are counted in
//! millionths. Tempo is counted in thousandths of a beat per minute, and a
//! tempo position in the product of the two time units, so that the integral of
//! tempo over time is exact.

pub mod chart;
pub mod judge;
pub mod laser;
pub mod schedule;
pub mod tempo;
pub mod timed;
pub mod units;
