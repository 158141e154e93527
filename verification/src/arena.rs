use vstd::prelude::*;

use id_arena::{Arena, DefaultArenaBehavior, Id};

verus! {

#[verifier::external_type_specification]
#[verifier::external_body]
#[verifier::reject_recursive_types(T)]
#[verifier::reject_recursive_types(A)]
pub struct ExArena<T, A>(Arena<T, A>);

#[verifier::external_type_specification]
#[verifier::external_body]
#[verifier::reject_recursive_types(T)]
pub struct ExDefaultArenaBehavior<T>(DefaultArenaBehavior<T>);

#[verifier::external_type_specification]
#[verifier::external_body]
#[verifier::reject_recursive_types(T)]
pub struct ExId<T>(Id<T>);

} // verus!
