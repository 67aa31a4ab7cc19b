use vstd::prelude::*;

use crate::contract::HandlerResponse;
use crate::msg::BalancerMigrateMsg;

verus! {

/// Unused for now but provided here as an example: migrating answers an
/// empty response. Contract version is migrated automatically.
pub fn migrate_handler(_msg: BalancerMigrateMsg) -> (r: HandlerResponse)
    ensures
        r.attributes@.len() == 0,
{
    HandlerResponse { attributes: Vec::new() }
}

} // verus!
