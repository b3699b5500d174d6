pub mod finite;
pub mod first_follow;
pub mod itemset;
pub mod map_set;
pub mod parsing;
pub mod parsing_table;
pub mod reach;
pub mod rule_depend;
pub mod syntax;
pub mod tarjan;

use vstd::prelude::*;

verus! {

} // verus!
