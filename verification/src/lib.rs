//! A cooperative loop that steps its units in turn on a value they share,
//! with a console pair of units to show it, and a small complex number type.

pub mod complex;
pub mod console;
pub mod decimal;
pub mod event_loop;
