//! Verified core of a post-processor for camera detections: parsing decisions,
//! per-camera grouping and routing of converted coordinates, and stream replies.

pub mod coordinate_converter;
pub mod message_parser;
pub mod stream_reply;
