pub mod coding;
pub mod comparator;
pub mod crc32c;
pub mod filter_policy;
pub mod hash;
pub mod number;
pub mod random;
pub mod result;
