//! Optical-mark-recognition engine for multiple-choice answer sheets.
//!
//! Given a binarized scan of a filled-in answer sheet and a machine-readable
//! layout description (a [`template::Template`]), the library locates the
//! sheet's registration marks, recovers the affine transform from template
//! coordinates to scan pixels, measures how far each answer bubble is filled
//! in, and scores the detected answers against a versioned exam key.
//!
//! All geometry and all fill-ratio decisions are carried out in exact integer
//! and rational arithmetic, so every step of the pipeline has a precise
//! contract.

pub mod appstate;
pub mod bitmap;
pub mod form;
pub mod frac;
pub mod json;
pub mod point;
pub mod report;
pub mod rgb;
pub mod scan;
pub mod template;
pub mod template_scan;
