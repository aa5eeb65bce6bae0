//! Verified core of two interactive value editors: a circular angle slider and
//! a three-axis orientation ball.
//!
//! Everything is integer arithmetic. Angles are in millidegrees, screen
//! positions in whole points (`y` grows downwards), quaternion components are
//! scaled by `quat::ONE`, and axis vectors by `quat::ONE` squared.
pub mod angle;
pub mod ball;
pub mod decimal;
pub mod geom;
pub mod panel;
pub mod quat;
pub mod slider;
pub mod sqrt;
