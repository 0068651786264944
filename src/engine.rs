//! The engine: a world under construction, with the start-up system in
//! place, built up by chained calls before it runs.
use vstd::prelude::*;
use crate::keyed::put;
use crate::schedule::{systems_of, System, INIT};
use crate::storage::Tables;
use crate::world::World;

verus! {

/// A world being set up.
pub struct Engine<C, R, S> {
    pub world: World<C, R, S>,
}

impl<C, R, S> Engine<C, R, S> {
    /// An engine whose `INIT` stage holds `init`, under the name `init`,
    /// and nothing else.
    pub fn new(init: S) -> (r: Self)
        ensures
            r.world.wf(),
            r.world.components@ == Tables::<C>::empty(),
            r.world.resources@ == Seq::<(u64, R)>::empty(),
            systems_of(r.world.systems@, INIT).len() == 1,
            systems_of(r.world.systems@, INIT)[0].name@ == "init"@,
            systems_of(r.world.systems@, INIT)[0].run == init,
            forall|stage: u64| stage != INIT ==> systems_of(r.world.systems@, stage).len() == 0,
    {
        let mut world: World<C, R, S> = World::new();
        let name = "init".to_string();
        world.add_system(INIT, name, init);
        Engine { world }
    }

    /// Appends `system`, under `name`, to `stage`.
    pub fn add_system(self, stage: u64, name: String, system: S) -> (r: Self)
        requires
            self.world.wf(),
        ensures
            r.world.wf(),
            systems_of(r.world.systems@, stage) == systems_of(self.world.systems@, stage).push(
                System { name, run: system },
            ),
            forall|other: u64|
                other != stage ==> systems_of(r.world.systems@, other) == systems_of(
                    self.world.systems@,
                    other,
                ),
            r.world.components == self.world.components,
            r.world.resources == self.world.resources,
    {
        let mut e = self;
        e.world.add_system(stage, name, system);
        e
    }

    /// Stores `resource` as the one value of type `key`.
    pub fn add_resource(self, key: u64, resource: R) -> (r: Self)
        requires
            self.world.wf(),
        ensures
            r.world.wf(),
            r.world.resources@ == put(self.world.resources@, key, resource),
            r.world.components == self.world.components,
            r.world.systems == self.world.systems,
    {
        let mut e = self;
        e.world.add_resource(key, resource);
        e
    }
}

} // verus!
