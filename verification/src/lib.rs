//! Representations of orders over a finite set of elements, collections of
//! such orders, and voting methods that count them.

pub mod util;
pub mod parse;
pub mod random;
pub mod partial_order;
pub mod order;
pub mod binary;
pub mod cardinal;
pub mod specific;
pub mod strict;
pub mod tied;
pub mod categories;
pub mod rank;
pub mod votes;
pub mod toi;
pub mod toc;
pub mod methods;
pub mod star;
pub mod soi;
pub mod soc;
pub mod ranks;
pub mod total_ranking;
pub mod chains;
pub mod random_ballot;
pub mod roundtrip;
pub mod sort;
