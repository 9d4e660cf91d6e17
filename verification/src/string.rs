//! String algorithms: prefix-match lengths and palindrome radii.

pub mod palindrome;
pub mod z;
