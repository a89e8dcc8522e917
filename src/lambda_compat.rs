//! What the adapter from serverless events hands to handlers.

use vstd::prelude::*;

verus! {

/// The address of the client that sent the request, as the event source
/// reported it.
#[derive(Clone, Debug)]
pub struct SourceIp<T>(pub T);

} // verus!
