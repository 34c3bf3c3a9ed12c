pub mod cstore;
pub mod event;
pub mod interval;
pub mod ops;
pub mod props;
pub mod search;
pub mod space;
pub mod term;
pub mod trilean;
pub mod util;
pub mod vmap;
pub mod vstore;
