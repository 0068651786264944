//! The world: component storage, type-keyed resources and the schedule, with
//! entities as handles onto the storage.
use vstd::prelude::*;
use crate::keyed::{has_key, lemma_put, lemma_without, lookup, put, unique_keys, without, Keyed};
use crate::schedule::{systems_of, Schedule, StageRun, System};
use crate::storage::{
    borrowed, conflicts, first_guard, fresh_row, guard_view, guards_view, is_picked, lemma_first_only, lemma_picked,
    lock_rows, picked, refusal, rows_of, selection, Borrow, BorrowError, Guard, Storage, Tables,
};

verus! {

/// Relies on `rand::random::<u64>`: a number drawn from the thread-local
/// generator. Nothing is known of which.
#[verifier::external_body]
fn random_id() -> (r: u64) {
    rand::random::<u64>()
}

/// Components, resources and systems.
pub struct World<C, R, S> {
    pub components: Storage<C>,
    pub resources: Keyed<R>,
    pub systems: Schedule<S>,
}

/// A handle on an entity: the id its rows carry.
#[derive(Clone, Copy, Debug, PartialEq, Eq, Structural)]
pub struct Entity {
    pub id: u64,
}

impl<C, R, S> World<C, R, S> {
    /// Well-formed: each part is.
    pub open spec fn wf(&self) -> bool {
        &&& self.components.wf()
        &&& self.resources.wf()
        &&& self.systems.wf()
    }

    /// An empty world.
    pub fn new() -> (r: Self)
        ensures
            r.wf(),
            r.components@ == Tables::<C>::empty(),
            r.resources@ == Seq::<(u64, R)>::empty(),
            forall|stage: u64| systems_of(r.systems@, stage).len() == 0,
    {
        World { components: Storage::new(), resources: Keyed::new(), systems: Schedule::new() }
    }

    /// A new entity with a random id. Nothing is stored until a component is
    /// inserted for it.
    pub fn spawn(&self) -> (r: Entity) {
        Entity::new(random_id())
    }

    /// Borrows, shared, every row of component type `key`, in storage order.
    pub fn get(&mut self, key: u64) -> (r: Result<Vec<Guard>, BorrowError>)
        requires
            old(self).wf(),
        ensures
            final(self).wf(),
            final(self).resources == old(self).resources,
            final(self).systems == old(self).systems,
            borrowed(old(self).components@, final(self).components@, key, None, false, false, guards_view(r)),
    {
        self.components.borrow_rows(key, None, false, false)
    }

    /// Borrows, exclusively, every row of component type `key`, in storage order.
    pub fn get_mut(&mut self, key: u64) -> (r: Result<Vec<Guard>, BorrowError>)
        requires
            old(self).wf(),
        ensures
            final(self).wf(),
            final(self).resources == old(self).resources,
            final(self).systems == old(self).systems,
            borrowed(old(self).components@, final(self).components@, key, None, false, true, guards_view(r)),
    {
        self.components.borrow_rows(key, None, false, true)
    }

    /// Stores `resource` as the one value of type `key`, replacing any earlier one.
    pub fn add_resource(&mut self, key: u64, resource: R)
        requires
            old(self).wf(),
        ensures
            final(self).wf(),
            final(self).resources@ == put(old(self).resources@, key, resource),
            final(self).components == old(self).components,
            final(self).systems == old(self).systems,
    {
        let _ = self.resources.insert(key, resource);
    }

    /// The resource of type `key`.
    pub fn get_resource(&self, key: u64) -> (r: Option<&R>)
        requires
            self.wf(),
        ensures
            match r {
                Some(v) => lookup(self.resources@, key) == Some(*v),
                None => lookup(self.resources@, key) is None,
            },
    {
        self.resources.get(key)
    }

    /// The resource of type `key`, to change in place.
    pub fn get_resource_mut(&mut self, key: u64) -> (r: Option<&mut R>)
        requires
            old(self).wf(),
        ensures
            final(self).wf(),
            final(self).components == old(self).components,
            final(self).systems == old(self).systems,
            match r {
                Some(v) => {
                    &&& lookup(old(self).resources@, key) == Some(*v)
                    &&& final(self).resources@ == put(old(self).resources@, key, *final(v))
                },
                None => {
                    &&& lookup(old(self).resources@, key) is None
                    &&& final(self).resources@ == old(self).resources@
                },
            },
    {
        self.resources.get_mut(key)
    }

    /// Removes the resource of type `key` and hands it over.
    pub fn take_resource(&mut self, key: u64) -> (r: Option<R>)
        requires
            old(self).wf(),
        ensures
            final(self).wf(),
            r == lookup(old(self).resources@, key),
            final(self).resources@ == without(old(self).resources@, key),
            final(self).components == old(self).components,
            final(self).systems == old(self).systems,
    {
        self.resources.remove(key)
    }

    /// Appends a system, under `name`, to the systems of `stage`.
    pub fn add_system(&mut self, stage: u64, name: String, system: S)
        requires
            old(self).wf(),
        ensures
            final(self).wf(),
            systems_of(final(self).systems@, stage) == systems_of(old(self).systems@, stage).push(
                System { name, run: system },
            ),
            forall|other: u64|
                other != stage ==> systems_of(final(self).systems@, other) == systems_of(
                    old(self).systems@,
                    other,
                ),
            final(self).components == old(self).components,
            final(self).resources == old(self).resources,
    {
        self.systems.add_system(stage, name, system);
    }

    /// A run of `stage`: it hands out the stage's systems in order of
    /// registration, each once. The caller runs each and stops the process
    /// on the first that fails, naming it.
    pub fn run_system(&self, stage: u64) -> (r: StageRun)
        requires
            self.wf(),
        ensures
            r == (StageRun { stage, count: systems_of(self.systems@, stage).len() as usize, position: 0 }),
    {
        self.systems.start(stage)
    }
}

impl Entity {
    /// The handle of the entity with this id.
    pub fn new(id: u64) -> (r: Entity)
        ensures
            r.id == id,
    {
        Entity { id }
    }

    /// Attaches `value`, of component type `key`, to this entity: it goes at
    /// the end of that type's rows.
    pub fn insert<'a, C, R, S>(&'a self, world: &mut World<C, R, S>, key: u64, value: C) -> (r: &'a Self)
        requires
            old(world).wf(),
        ensures
            r == self,
            final(world).wf(),
            final(world).components@ == put(
                old(world).components@,
                key,
                rows_of(old(world).components@, key).push(fresh_row(self.id, value)),
            ),
            final(world).resources == old(world).resources,
            final(world).systems == old(world).systems,
    {
        world.components.insert(key, self.id, value);
        self
    }

    /// Borrows, shared, this entity's components of type `key`, in storage order.
    pub fn get<C, R, S>(&self, world: &mut World<C, R, S>, key: u64) -> (r: Result<Vec<Guard>, BorrowError>)
        requires
            old(world).wf(),
        ensures
            final(world).wf(),
            final(world).resources == old(world).resources,
            final(world).systems == old(world).systems,
            borrowed(old(world).components@, final(world).components@, key, Some(self.id), false, false, guards_view(r)),
    {
        world.components.borrow_rows(key, Some(self.id), false, false)
    }

    /// Borrows, exclusively, this entity's components of type `key`.
    pub fn get_mut<C, R, S>(&self, world: &mut World<C, R, S>, key: u64) -> (r: Result<Vec<Guard>, BorrowError>)
        requires
            old(world).wf(),
        ensures
            final(world).wf(),
            final(world).resources == old(world).resources,
            final(world).systems == old(world).systems,
            borrowed(old(world).components@, final(world).components@, key, Some(self.id), false, true, guards_view(r)),
    {
        world.components.borrow_rows(key, Some(self.id), false, true)
    }

    /// Borrows, shared, this entity's first component of type `key`, if it has one.
    pub fn get_one<C, R, S>(&self, world: &mut World<C, R, S>, key: u64) -> (r: Result<Option<Guard>, BorrowError>)
        requires
            old(world).wf(),
        ensures
            final(world).wf(),
            final(world).resources == old(world).resources,
            final(world).systems == old(world).systems,
            borrowed(old(world).components@, final(world).components@, key, Some(self.id), true, false, guard_view(r)),
    {
        let r = world.components.borrow_rows(key, Some(self.id), true, false);
        proof {
            lemma_first_only(rows_of(old(world).components@, key), Some(self.id));
        }
        first_guard(r)
    }

    /// Borrows, exclusively, this entity's first component of type `key`, if it has one.
    pub fn get_one_mut<C, R, S>(&self, world: &mut World<C, R, S>, key: u64) -> (r: Result<Option<Guard>, BorrowError>)
        requires
            old(world).wf(),
        ensures
            final(world).wf(),
            final(world).resources == old(world).resources,
            final(world).systems == old(world).systems,
            borrowed(old(world).components@, final(world).components@, key, Some(self.id), true, true, guard_view(r)),
    {
        let r = world.components.borrow_rows(key, Some(self.id), true, true);
        proof {
            lemma_first_only(rows_of(old(world).components@, key), Some(self.id));
        }
        first_guard(r)
    }
}

/// A resource type holds one value: after two additions of the same type
/// the later value is the one found, and after it is taken nothing is found;
/// other types are untouched throughout.
pub proof fn lemma_resource_singleton<R>(res: Seq<(u64, R)>, key: u64, first: R, second: R, other: u64)
    requires
        unique_keys(res),
        other != key,
    ensures
        lookup(put(put(res, key, first), key, second), key) == Some(second),
        lookup(without(put(put(res, key, first), key, second), key), key) is None,
        lookup(without(put(put(res, key, first), key, second), key), other) == lookup(res, other),
{
    lemma_put(res, key, first);
    lemma_put(put(res, key, first), key, second);
    lemma_without(put(put(res, key, first), key, second), key);
}

/// While a row is borrowed exclusively, every further borrow request that
/// selects it is refused and changes nothing; while it is read, every
/// exclusive request that selects it is.
pub proof fn lemma_borrow_refused<C>(
    s: Tables<C>,
    key: u64,
    who: Option<u64>,
    first_only: bool,
    exclusive: bool,
    idx: usize,
    s2: Tables<C>,
    r: Result<Seq<Guard>, BorrowError>,
)
    requires
        selection(rows_of(s, key), who, first_only).contains(idx),
        rows_of(s, key)[idx as int].borrow == Borrow::Writing || (exclusive && rows_of(
            s,
            key,
        )[idx as int].borrow is Reading),
        borrowed(s, s2, key, who, first_only, exclusive, r),
    ensures
        r == Err::<Seq<Guard>, BorrowError>(refusal(exclusive)),
        s2 == s,
{
    let sel = selection(rows_of(s, key), who, first_only);
    let k = choose|k: int| 0 <= k < sel.len() && sel[k] == idx;
    assert(conflicts(rows_of(s, key)[sel[k] as int].borrow, exclusive));
}

/// An exclusive borrow of every row of a type, once granted, makes every
/// later borrow request on that type's rows fail while it is held.
pub proof fn lemma_write_blocks<C>(
    s0: Tables<C>,
    s1: Tables<C>,
    key: u64,
    g: Seq<Guard>,
    exclusive: bool,
    s2: Tables<C>,
    r: Result<Seq<Guard>, BorrowError>,
)
    requires
        unique_keys(s0),
        rows_of(s0, key).len() > 0,
        rows_of(s0, key).len() <= usize::MAX,
        borrowed(s0, s1, key, None, false, true, Ok(g)),
        borrowed(s1, s2, key, None, false, exclusive, r),
    ensures
        r == Err::<Seq<Guard>, BorrowError>(refusal(exclusive)),
        s2 == s1,
{
    let rows = rows_of(s0, key);
    lemma_picked(rows, None);
    assert(is_picked(rows[0], None));
    assert(picked(rows, None).contains(0int as usize));
    let locked = lock_rows(rows, selection(rows, None, false), true);
    assert(has_key(s0, key));
    lemma_put(s0, key, locked);
    assert(rows_of(s1, key) == locked);
    lemma_picked(locked, None);
    assert(locked[0].borrow == Borrow::Writing);
    assert(is_picked(locked[0], None));
    assert(selection(locked, None, false).contains(0int as usize));
    lemma_borrow_refused(s1, key, None, false, exclusive, 0, s2, r);
}

} // verus!
