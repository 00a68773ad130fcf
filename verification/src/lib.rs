//! Translation of i18n resource files: parsing of the three supported
//! formats, ICU MessageFormat handling and placeholder checks.
use vstd::prelude::*;

pub mod icu;
pub mod text;
pub mod types;
pub mod order;
pub mod parse;
pub mod translate;

verus! {

} // verus!
