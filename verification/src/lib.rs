//! Thinning of dense variant call sets: a random subset of SNP records in
//! which no two records of one scaffold lie closer than a minimum distance.

pub mod decode;
pub mod encode;
pub mod numerals;
pub mod output_order;
pub mod quota;
pub mod record;
pub mod sampler;
pub mod selection;
pub mod spacing;
pub mod text;
pub mod thin;
