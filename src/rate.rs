//! Conversion rates between assets.

use crate::account::Quantity;
use crate::asset::Asset;
use std::collections::HashMap;
use vstd::prelude::*;

verus! {

/// What one unit of a trade yields and costs: the buyer receives `credit`
/// and gives up `debit`, and the seller the reverse.
#[derive(Debug, PartialEq, Eq)]
pub struct Rate<A: Asset> {
    pub credit: HashMap<A, Quantity>,
    pub debit: HashMap<A, Quantity>,
}

} // verus!
