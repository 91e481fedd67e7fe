//! Verified manipulation of genomic interval annotations in the
//! tab-delimited BED family of formats: record modelling, interval
//! algebra, fraction extraction and block splicing.

pub mod extract;
pub mod merge;
pub mod structs;
pub mod text;

use vstd::prelude::*;

verus! {

} // verus!
