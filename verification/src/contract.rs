use vstd::prelude::*;

verus! {

/// The namespace for the app, like "abstract" -> "abstract:template"
pub const MODULE_NAMESPACE: &'static str = "equilibrium";

/// The name of the app, excluding the namespace
pub const BALANCER_ID: &'static str = "balancer";

/// One key and value of a response's attributes.
pub struct Attribute {
    pub key: String,
    pub value: String,
}

/// What a handler answers: the attributes of its response.
pub struct HandlerResponse {
    pub attributes: Vec<Attribute>,
}

} // verus!
