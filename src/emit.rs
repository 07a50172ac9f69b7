use vstd::prelude::*;

verus! {

/// What the generation phase emits for a registry.
pub enum Registration {
    /// The fixed empty-registration construct, with a warning.
    Empty,
    /// A registration of exactly these identifiers, in this order.
    Commands(Vec<String>),
}

/// The registration for a normalized registry: the empty construct when it
/// holds nothing, else all its identifiers in the order given.
pub fn plan_registration(registry: Vec<String>) -> (r: Registration)
    ensures
        r is Empty <==> registry@.len() == 0,
        r matches Registration::Commands(v) ==> v@ == registry@,
{
    if registry.len() == 0 {
        Registration::Empty
    } else {
        Registration::Commands(registry)
    }
}

} // verus!
