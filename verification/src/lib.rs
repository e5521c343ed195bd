//! The verified core of a photo-retouching tool.

pub mod ai_masks;
pub mod bits;
pub mod blobs;
pub mod bounds;
pub mod brightness;
pub mod cofactors;
pub mod coverings;
pub mod composing;
pub mod copies;
pub mod cropping;
pub mod detail;
pub mod detect;
pub mod disks;
pub mod donors;
pub mod double;
pub mod exact;
pub mod film;
pub mod finish;
pub mod fixed;
pub mod frame;
pub mod gesture;
pub mod grade;
pub mod grading;
pub mod hdr;
pub mod heal;
pub mod homography;
pub mod hues;
pub mod lens;
pub mod limits;
pub mod master;
pub mod mending;
pub mod mixing;
pub mod numbers;
pub mod orders;
pub mod painted;
pub mod painting;
pub mod passes;
pub mod patches;
pub mod paths;
pub mod pixels;
pub mod placing;
pub mod planes;
pub mod planning;
pub mod plans;
pub mod profile;
pub mod reals;
pub mod recipe;
pub mod regions;
pub mod replies;
pub mod retouch;
pub mod rounding;
pub mod scan;
pub mod segment;
pub mod settling;
pub mod sidecar;
pub mod single;
pub mod sliding;
pub mod spots;
pub mod stamping;
pub mod tempering;
pub mod text;
pub mod texture;
pub mod tone;
pub mod toning;
pub mod transform;
pub mod upright;
pub mod validate;
pub mod vanishing;
pub mod walk;
pub mod wayback;
pub mod whole;
