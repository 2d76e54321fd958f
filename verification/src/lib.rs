//! Verified core of an NHVSing-based UTAU resampler backend: the binary
//! analysis-file formats it reads (LLSM containers, FRQ pitch files), the
//! feature-cache codec, the vocoder pool rotation and the configuration
//! rules.
pub mod audio;
pub mod consts;
pub mod model;
pub mod utils;
