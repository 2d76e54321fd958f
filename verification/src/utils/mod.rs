pub mod cache;
pub mod llsm;
pub mod vuv;
