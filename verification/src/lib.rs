//! Perception core of a driver-assistance pipeline.
//!
//! Given per-frame line segments and bounding-box detections, the crate
//! stabilizes the ego lane boundaries over time, decides which detections
//! lie inside or near the ego lane, tracks objects across frames with
//! distance / closing-speed / time-to-collision estimates, and classifies
//! traffic-light color in the upper band of a frame.
//!
//! All geometry is integer pixels; distances are millimeters, speeds
//! millimeters per second, and times milliseconds, so that every contract
//! is stated over exact integer arithmetic.

pub mod geometry;
pub mod lane_detect;
pub mod lane_manager;
pub mod object_proc;
pub mod traffic_light;
