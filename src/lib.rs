//! Data plane of a virtual-texturing engine: page-oriented texture storage,
//! streaming mip-pyramid generation and page-identifier feedback reduction.

pub mod import;
pub mod layout;
pub mod metadata;
pub mod mip_generator;
pub mod page_id;
pub mod resample;
pub mod storage;
