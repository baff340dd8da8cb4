//! The game manager: hands out object ids, keeps the entity of each object and
//! counts simulation ticks.
use vstd::prelude::*;
use std::collections::HashMap;

verus! {

broadcast use vstd::std_specs::hash::group_hash_axioms;

/// Hands out object ids (1, 2, ...), maps each id to its entity, and counts ticks.
pub struct GameManager {
    last_id: u64,
    current_tick: u64,
    entity_from_id: HashMap<u64, Option<u64>>,
}

/// A networked object, named by its id.
pub struct Object {
    id: u64,
}

impl Object {
    /// The object's id.
    pub closed spec fn id_spec(&self) -> u64 {
        self.id
    }
}

impl GameManager {
    /// The last id handed out (0 before the first).
    pub closed spec fn last_id_spec(&self) -> u64 {
        self.last_id
    }

    /// The current tick.
    pub closed spec fn tick_spec(&self) -> u64 {
        self.current_tick
    }

    /// The entity of each object id.
    pub closed spec fn entities(&self) -> Map<u64, Option<u64>> {
        self.entity_from_id@
    }

    /// Every registered id is one already handed out.
    pub open spec fn wf(&self) -> bool {
        forall|k: u64| #[trigger] self.entities().contains_key(k) ==> 1 <= k <= self.last_id_spec()
    }

    /// A fresh id: one more than the last.
    pub fn new_id(&mut self) -> (id: u64)
        requires
            old(self).last_id_spec() < u64::MAX,
        ensures
            id == old(self).last_id_spec() + 1,
            final(self).last_id_spec() == id,
            final(self).tick_spec() == old(self).tick_spec(),
            final(self).entities() == old(self).entities(),
    {
        self.last_id = self.last_id + 1;
        self.last_id
    }

    /// Registers `entity` as a new object under a fresh id.
    pub fn new_object(&mut self, entity: u64) -> (o: Object)
        requires
            old(self).wf(),
            old(self).last_id_spec() < u64::MAX,
        ensures
            o.id_spec() == old(self).last_id_spec() + 1,
            !old(self).entities().contains_key(o.id_spec()),
            final(self).entities() == old(self).entities().insert(o.id_spec(), Option::Some(entity)),
            final(self).last_id_spec() == o.id_spec(),
            final(self).tick_spec() == old(self).tick_spec(),
            final(self).wf(),
    {
        let id = self.new_id();
        self.entity_from_id.insert(id, Some(entity));
        Object { id }
    }

    /// Advances the tick by one.
    pub fn tick_step(&mut self)
        requires
            old(self).tick_spec() < u64::MAX,
        ensures
            final(self).tick_spec() == old(self).tick_spec() + 1,
            final(self).last_id_spec() == old(self).last_id_spec(),
            final(self).entities() == old(self).entities(),
    {
        self.current_tick = self.current_tick + 1;
    }

    /// Sets the tick.
    pub fn set_tick(&mut self, new_tick: u64)
        ensures
            final(self).tick_spec() == new_tick,
            final(self).last_id_spec() == old(self).last_id_spec(),
            final(self).entities() == old(self).entities(),
    {
        self.current_tick = new_tick;
    }

    /// The current tick.
    pub fn get_tick(&self) -> (r: u64)
        ensures
            r == self.tick_spec(),
    {
        self.current_tick
    }
}

impl Default for GameManager {
    fn default() -> (r: Self)
        ensures
            r.last_id_spec() == 0,
            r.tick_spec() == 0,
            r.entities() == Map::<u64, Option<u64>>::empty(),
            r.wf(),
    {
        GameManager { last_id: 0, current_tick: 0, entity_from_id: HashMap::new() }
    }
}

/// Objects registered one after the other get different ids, and both stay registered.
pub proof fn lemma_objects_distinct(m: Map<u64, Option<u64>>, last: u64, e1: u64, e2: u64)
    requires
        forall|k: u64| #[trigger] m.contains_key(k) ==> 1 <= k <= last,
        last + 2 <= u64::MAX,
    ensures
        ({
            let id1 = (last + 1) as u64;
            let id2 = (last + 2) as u64;
            let m2 = m.insert(id1, Option::Some(e1)).insert(id2, Option::Some(e2));
            &&& id1 != id2
            &&& !m.contains_key(id1)
            &&& m2[id1] == Option::Some(e1)
            &&& m2[id2] == Option::Some(e2)
        }),
{
}

} // verus!
