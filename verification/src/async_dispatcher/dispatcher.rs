use std::sync::Arc;
use vstd::prelude::*;
use vstd::rwlock::RwLock;

use super::resource_locks::{exclusive, may_read, may_write, ResourceLocks};
use super::{resource_id_of, RequiredResources, ResourceId};

verus! {

/// What the lock table of a dispatcher over `registered` may hold: a
/// well-formed table of exactly those resources.
pub open spec fn table_of(registered: Set<ResourceId>) -> spec_fn(ResourceLocks) -> bool {
    |t: ResourceLocks| t.wf() && t@.dom() == registered
}

/// Collects the resources that a dispatcher will arbitrate.
pub struct DispatcherBuilder {
    resource_ids: Vec<ResourceId>,
}

impl View for DispatcherBuilder {
    type V = Set<ResourceId>;

    closed spec fn view(&self) -> Set<ResourceId> {
        self.resource_ids@.to_set()
    }
}

/// Copies a list of ids.
fn copy_ids(ids: &Vec<ResourceId>) -> (r: Vec<ResourceId>)
    ensures
        r@ == ids@,
{
    let mut r: Vec<ResourceId> = Vec::new();
    let mut i: usize = 0;
    while i < ids.len()
        invariant
            i <= ids.len(),
            r@ == ids@.take(i as int),
        decreases ids.len() - i,
    {
        r.push(ids[i]);
        assert(ids@.take(i + 1) =~= ids@.take(i as int).push(ids@[i as int]));
        i = i + 1;
    }
    assert(ids@.take(ids.len() as int) =~= ids@);
    r
}

/// Whether `id` occurs in `ids`.
fn contains_id(ids: &Vec<ResourceId>, id: &ResourceId) -> (r: bool)
    ensures
        r == ids@.contains(*id),
{
    let mut i: usize = 0;
    while i < ids.len()
        invariant
            i <= ids.len(),
            forall|j: int| 0 <= j < i ==> ids@[j] != *id,
        decreases ids.len() - i,
    {
        if ids[i] == *id {
            assert(ids@[i as int] == *id);
            return true;
        }
        i = i + 1;
    }
    false
}

impl DispatcherBuilder {
    #[verifier::type_invariant]
    closed spec fn inv(&self) -> bool {
        self.resource_ids@.no_duplicates()
    }

    /// Creates a builder with no resources.
    pub fn new() -> (b: Self)
        ensures
            b@ == Set::<ResourceId>::empty(),
    {
        let b = DispatcherBuilder { resource_ids: Vec::new() };
        assert(b@ =~= Set::<ResourceId>::empty());
        b
    }

    /// Registers the resource `id`; registering it again changes nothing.
    pub fn register_resource_id(&mut self, id: ResourceId)
        ensures
            final(self)@ == old(self)@.insert(id),
    {
        proof {
            use_type_invariant(&*self);
        }
        let mut ids: Vec<ResourceId> = Vec::new();
        std::mem::swap(&mut ids, &mut self.resource_ids);
        if !contains_id(&ids, &id) {
            let ghost before = ids@;
            ids.push(id);
            assert(ids@.no_duplicates()) by {
                assert forall|a: int, b: int| 0 <= a < ids@.len() && 0 <= b < ids@.len() && a != b implies ids@[a] != ids@[b] by {
                    if a < before.len() && b < before.len() {
                    } else if a == before.len() {
                        assert(before.contains(before[b]));
                    } else {
                        assert(before.contains(before[a]));
                    }
                }
            }
            assert forall|x: ResourceId| ids@.contains(x) <==> before.to_set().insert(id).contains(x) by {
                if x == id {
                    assert(ids@[before.len() as int] == id);
                }
                if before.contains(x) {
                    let k: int = choose|k: int| 0 <= k < before.len() && before[k] == x;
                    assert(ids@[k] == x);
                }
                if ids@.contains(x) {
                    let k: int = choose|k: int| 0 <= k < ids@.len() && ids@[k] == x;
                    if k < before.len() {
                        assert(before[k] == x);
                    }
                }
            }
            assert(ids@.to_set() =~= before.to_set().insert(id));
        } else {
            assert(ids@.to_set() =~= ids@.to_set().insert(id));
        }
        self.resource_ids = ids;
    }

    /// Registers the resource held by type `T`.
    pub fn register_resource<T: 'static>(self) -> (b: Self)
        ensures
            b@ == self@.insert(resource_id_of::<T>()),
    {
        let mut b = self;
        let id = ResourceId::new::<T>();
        b.register_resource_id(id);
        b
    }

    /// Creates a dispatcher over the registered resources, all free.
    pub fn build(self) -> (d: Dispatcher)
        ensures
            d.registered() == self@,
    {
        proof {
            use_type_invariant(&self);
        }
        let DispatcherBuilder { resource_ids } = self;
        let table = ResourceLocks::new(&resource_ids);
        let ghost registered = resource_ids@.to_set();
        assert(table@.dom() =~= registered);
        let locks = RwLock::new(table, Ghost(table_of(registered)));
        let terminating = RwLock::new(false, Ghost(|b: bool| true));
        Dispatcher { resource_ids, locks, terminating }
    }
}

/// Registering a resource that is already registered changes nothing.
pub proof fn lemma_registering_again_changes_nothing(before: DispatcherBuilder, after: DispatcherBuilder, id: ResourceId)
    requires
        before@.contains(id),
        after@ == before@.insert(id),
    ensures
        after@ == before@,
{
    assert(before@.insert(id) =~= before@);
}

/// Every lock table that a dispatcher over `registered` may hold keeps each
/// written resource free of other holders.
pub proof fn lemma_dispatcher_tables_are_exclusive(registered: Set<ResourceId>, table: ResourceLocks)
    requires
        table_of(registered)(table),
    ensures
        exclusive(table@),
{
    table.lemma_wf_exclusive();
}

/// Hands out read and write access to registered resources, so that no
/// resource is written by one holder while another holds it.
pub struct Dispatcher {
    resource_ids: Vec<ResourceId>,
    locks: RwLock<ResourceLocks, spec_fn(ResourceLocks) -> bool>,
    terminating: RwLock<bool, spec_fn(bool) -> bool>,
}

impl Dispatcher {
    #[verifier::type_invariant]
    closed spec fn inv(&self) -> bool {
        &&& self.resource_ids@.no_duplicates()
        &&& self.locks.pred() == table_of(self.resource_ids@.to_set())
        &&& forall|b: bool| #[trigger] self.terminating.inv(b)
    }

    /// The resources this dispatcher arbitrates.
    pub closed spec fn registered(&self) -> Set<ResourceId> {
        self.resource_ids@.to_set()
    }

    /// Whether `id` is one of the resources this dispatcher arbitrates.
    pub fn has_resource(&self, id: &ResourceId) -> (r: bool)
        ensures
            r == self.registered().contains(*id),
    {
        contains_id(&self.resource_ids, id)
    }

    /// Whether every id in `ids` is one of the resources this dispatcher
    /// arbitrates.
    fn has_all(&self, ids: &Vec<ResourceId>) -> (r: bool)
        ensures
            r == forall|i: int| 0 <= i < ids@.len() ==> self.registered().contains(#[trigger] ids@[i]),
    {
        let mut i: usize = 0;
        while i < ids.len()
            invariant
                i <= ids.len(),
                forall|j: int| 0 <= j < i ==> self.registered().contains(#[trigger] ids@[j]),
            decreases ids.len() - i,
        {
            if !self.has_resource(&ids[i]) {
                return false;
            }
            i = i + 1;
        }
        true
    }

    /// Whether every resource that `required` reads or writes is one this
    /// dispatcher arbitrates; a request that names another can never be
    /// granted.
    pub fn has_all_resources<T>(&self, required: &RequiredResources<T>) -> (r: bool)
        ensures
            r == ((forall|i: int| 0 <= i < required.read_ids().len() ==> self.registered().contains(#[trigger] required.read_ids()[i]))
                && (forall|i: int| 0 <= i < required.write_ids().len() ==> self.registered().contains(#[trigger] required.write_ids()[i]))),
    {
        self.has_all(required.reads()) && self.has_all(required.writes())
    }

    /// Grants the request if no current holder conflicts with it; otherwise
    /// changes nothing. A request that names an unregistered resource, writes
    /// a resource twice, or both reads and writes one is never granted; a
    /// request for nothing always is. Which other requests are granted, and
    /// that granted ones never conflict, is stated and proved of the lock
    /// table (`ResourceLocks::try_acquire`, `lemma_granted_requests_do_not_conflict`,
    /// `lemma_acquire_keeps_exclusive`); the table sits behind this
    /// dispatcher's lock, so this contract states only what holds whatever
    /// the other holders have.
    pub fn try_acquire(&self, reads: &Vec<ResourceId>, writes: &Vec<ResourceId>) -> (granted: bool)
        ensures
            reads@.len() == 0 && writes@.len() == 0 ==> granted,
            granted ==> forall|i: int| 0 <= i < reads@.len() ==> self.registered().contains(#[trigger] reads@[i]),
            granted ==> forall|i: int| 0 <= i < writes@.len() ==> self.registered().contains(#[trigger] writes@[i]),
            granted ==> writes@.no_duplicates(),
            granted ==> forall|i: int, j: int| 0 <= i < reads@.len() && 0 <= j < writes@.len() ==> reads@[i] != writes@[j],
    {
        proof {
            use_type_invariant(self);
        }
        let (mut table, handle) = self.locks.acquire_write();
        let ghost before = table@;
        let granted = table.try_acquire(reads, writes);
        proof {
            if granted {
                assert(table@.dom() =~= before.dom());
                assert forall|i: int| 0 <= i < reads@.len() implies self.registered().contains(#[trigger] reads@[i]) by {
                    assert(may_read(before, reads@[i], reads@.len()));
                }
                assert forall|i: int| 0 <= i < writes@.len() implies self.registered().contains(#[trigger] writes@[i]) by {
                    assert(may_write(before, writes@[i]));
                }
            }
        }
        handle.release_write(table);
        granted
    }

    /// Gives back a request granted by `try_acquire`.
    pub(crate) fn release(&self, reads: &Vec<ResourceId>, writes: &Vec<ResourceId>) {
        proof {
            use_type_invariant(self);
        }
        let (mut table, handle) = self.locks.acquire_write();
        let ghost before = table@;
        table.release(reads, writes);
        assert(table@.dom() =~= before.dom());
        handle.release_write(table);
    }

    /// Asks the game loop to stop after the current frame.
    pub fn end_game_loop(&self) {
        proof {
            use_type_invariant(self);
        }
        let (_running, handle) = self.terminating.acquire_write();
        handle.release_write(true);
    }

    /// Whether `end_game_loop` has been called.
    pub fn is_terminating(&self) -> bool {
        let handle = self.terminating.acquire_read();
        let value = *handle.borrow();
        handle.release_read();
        value
    }
}

/// The access granted to one request; give it back with `release`.
pub struct AcquiredResourcesLockGuards<T> {
    dispatcher: Arc<Dispatcher>,
    required: RequiredResources<T>,
}

impl<T> AcquiredResourcesLockGuards<T> {
    /// The dispatcher that granted the access.
    pub closed spec fn granted_by(&self) -> Dispatcher {
        *self.dispatcher
    }

    /// The resources read.
    pub closed spec fn read_ids(&self) -> Seq<ResourceId> {
        self.required.read_ids()
    }

    /// The resources written.
    pub closed spec fn write_ids(&self) -> Seq<ResourceId> {
        self.required.write_ids()
    }

    /// Takes the access that `required` asks for, if no current holder
    /// conflicts with it; a request for nothing is always granted.
    pub fn try_acquire(dispatcher: &Arc<Dispatcher>, required: &RequiredResources<T>) -> (r: Option<Self>)
        ensures
            required.read_ids().len() == 0 && required.write_ids().len() == 0 ==> r is Some,
            r matches Some(g) ==> {
                &&& g.granted_by() == **dispatcher
                &&& g.read_ids() == required.read_ids()
                &&& g.write_ids() == required.write_ids()
                &&& forall|i: int| 0 <= i < g.read_ids().len() ==> dispatcher.registered().contains(#[trigger] g.read_ids()[i])
                &&& forall|i: int| 0 <= i < g.write_ids().len() ==> dispatcher.registered().contains(#[trigger] g.write_ids()[i])
            },
    {
        if dispatcher.try_acquire(required.reads(), required.writes()) {
            let reads = copy_ids(required.reads());
            let writes = copy_ids(required.writes());
            Some(AcquiredResourcesLockGuards {
                dispatcher: dispatcher.clone(),
                required: RequiredResources::new(reads, writes),
            })
        } else {
            None
        }
    }

    /// Gives the access back to the dispatcher.
    pub fn release(self) {
        self.dispatcher.release(self.required.reads(), self.required.writes());
    }
}

} // verus!
