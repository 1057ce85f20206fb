use std::any::TypeId;
use std::marker::PhantomData;
use vstd::prelude::*;

verus! {

/// `std::any::TypeId`, carried as an opaque value.
#[verifier::external_type_specification]
#[verifier::external_body]
pub struct ExTypeId(TypeId);

/// The identifier of type `T`: some value fixed for each type, which one
/// being up to the compiler. This is the trusted name for what
/// `std::any::TypeId::of::<T>()` returns (see `type_id_of`); it is built from
/// `arbitrary` so that it depends on `T` alone and claims nothing else, in
/// particular not that different types get different identifiers.
pub open spec fn type_id_for<T: ?Sized>() -> TypeId {
    vstd::pervasive::arbitrary::<(TypeId, PhantomData<T>)>().0
}

/// Calls `std::any::TypeId::of::<T>()`. Claimed: the result depends on `T`
/// alone. Which value a type gets, and that different types get different
/// values, is not stated.
#[verifier::external_body]
fn type_id_of<T: ?Sized + 'static>() -> (id: TypeId)
    ensures
        id == type_id_for::<T>(),
{
    TypeId::of::<T>()
}

/// Calls `==` on two `std::any::TypeId`s. Claimed: it holds exactly when the
/// two identifiers are the same value (std compares their representations).
#[verifier::external_body]
fn type_id_eq(a: &TypeId, b: &TypeId) -> (r: bool)
    ensures
        r == (*a == *b),
{
    *a == *b
}

/// Identifies a resource by the type that holds it.
#[derive(Clone, Copy, Debug, Eq, Hash, PartialOrd, Ord)]
pub struct ResourceId {
    type_id: TypeId,
}

impl ResourceId {
    /// The type identifier this id is made of.
    pub closed spec fn type_id(&self) -> TypeId {
        self.type_id
    }
}

/// Two resource ids are the same exactly when their type identifiers are.
pub proof fn lemma_same_type_id_same_resource(a: ResourceId, b: ResourceId)
    ensures
        (a == b) <==> (a.type_id() == b.type_id()),
{
}

/// The id of a resource type is made of that type's identifier.
pub proof fn lemma_resource_id_of_type<T: ?Sized>()
    ensures
        resource_id_of::<T>().type_id() == type_id_for::<T>(),
{
}

/// The id of the resource held in type `T`.
pub closed spec fn resource_id_of<T: ?Sized>() -> ResourceId {
    ResourceId { type_id: type_id_for::<T>() }
}

impl ResourceId {
    /// Creates a new resource id from a given type.
    #[inline]
    pub fn new<T: 'static>() -> (id: Self)
        ensures
            id == resource_id_of::<T>(),
    {
        ResourceId { type_id: type_id_of::<T>() }
    }
}

impl PartialEq for ResourceId {
    fn eq(&self, other: &Self) -> (r: bool) {
        type_id_eq(&self.type_id, &other.type_id)
    }
}

impl vstd::std_specs::cmp::PartialEqSpecImpl for ResourceId {
    open spec fn obeys_eq_spec() -> bool {
        true
    }

    open spec fn eq_spec(&self, other: &Self) -> bool {
        *self == *other
    }
}

} // verus!
