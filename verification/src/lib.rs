//! Reading instrument displays from video: regions that follow a display
//! between keyframes, the preparation of a cropped region for recognition,
//! and the fusion of what several recognition engines read into one
//! trustworthy value per region and frame.
//!
//! Quantities that are fractions elsewhere are whole numbers here: times
//! are microseconds, values and confidences are millionths, validation
//! scores are hundred-thousandths.

pub mod config;
pub mod number;
pub mod ocr;
pub mod processor;
pub mod raster;
pub mod rounding;
pub mod text;
pub mod video;
