//! Applications, what they leave behind, and how both are removed.
pub mod brew;
pub mod bundle;
pub mod found;
pub mod leftovers;
pub mod plist;
pub mod removal;
