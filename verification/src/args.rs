use vstd::prelude::*;

verus! {

/// The options a caller hands the library's surrounding command-line layer:
/// the query to match with, and whether only usage help was asked for.
pub struct Args {
    pub query: String,
    pub is_help: bool,
}

} // verus!
