//! The registry of simulation entities: stable numeric ids handed out in
//! increasing order, each tied to what the entity is and to a handle of the
//! store that keeps its other state.
use vstd::prelude::*;

use std::collections::BTreeMap;
use vstd::std_specs::cmp::OrdSpec;
use vstd::std_specs::iter::IteratorSpec;

use crate::components::Caste;

verus! {

broadcast use {vstd::std_specs::btree::group_btree_axioms, vstd::laws_cmp::group_laws_cmp};

/// What an entity is, as far as the simulation's bookkeeping cares.
#[derive(Clone, Copy, PartialEq, Eq, Debug, Structural)]
pub enum EntityKind {
    Ant(Caste),
    Food,
    Egg,
    Predator,
}

/// Snapshot code of an entity kind: queen 0, worker 1, food 2, egg 3,
/// predator 4, soldier 5.
pub open spec fn kind_code_spec(k: EntityKind) -> u8 {
    match k {
        EntityKind::Ant(Caste::Queen) => 0,
        EntityKind::Ant(Caste::Worker) => 1,
        EntityKind::Food => 2,
        EntityKind::Egg => 3,
        EntityKind::Predator => 4,
        EntityKind::Ant(Caste::Soldier) => 5,
    }
}

impl EntityKind {
    pub fn code(self) -> (c: u8)
        ensures
            c == kind_code_spec(self),
    {
        match self {
            EntityKind::Ant(Caste::Queen) => 0,
            EntityKind::Ant(Caste::Worker) => 1,
            EntityKind::Food => 2,
            EntityKind::Egg => 3,
            EntityKind::Predator => 4,
            EntityKind::Ant(Caste::Soldier) => 5,
        }
    }
}

/// The families of entities the simulation walks over.
#[derive(Clone, Copy, PartialEq, Eq, Debug, Structural)]
pub enum KindClass {
    Ants,
    Foods,
    Eggs,
    Predators,
}

pub open spec fn in_class(k: EntityKind, c: KindClass) -> bool {
    match c {
        KindClass::Ants => k is Ant,
        KindClass::Foods => k == EntityKind::Food,
        KindClass::Eggs => k == EntityKind::Egg,
        KindClass::Predators => k == EntityKind::Predator,
    }
}

/// The ids in the map whose entity belongs to class `c`.
pub open spec fn class_ids<H>(m: Map<u32, (EntityKind, H)>, c: KindClass) -> Set<u32> {
    m.dom().filter(|id: u32| in_class(m[id].0, c))
}

/// The ids in the map of ants of one caste.
pub open spec fn caste_ids<H>(m: Map<u32, (EntityKind, H)>, caste: Caste) -> Set<u32> {
    m.dom().filter(|id: u32| m[id].0 == EntityKind::Ant(caste))
}

/// The entry registered under `id`, if any.
pub open spec fn entry_of<H>(m: Map<u32, (EntityKind, H)>, id: u32) -> Option<(EntityKind, H)> {
    if m.contains_key(id) {
        Some(m[id])
    } else {
        None
    }
}

proof fn lemma_filter_insert<H>(
    m: Map<u32, (EntityKind, H)>,
    id: u32,
    v: (EntityKind, H),
    p: spec_fn(EntityKind) -> bool,
)
    requires
        m.dom().finite(),
        !m.contains_key(id),
    ensures
        m.dom().filter(|k: u32| p(m[k].0)).finite(),
        m.insert(id, v).dom().filter(|k: u32| p(m.insert(id, v)[k].0)).len() == m.dom().filter(
            |k: u32| p(m[k].0),
        ).len() + if p(v.0) {
            1int
        } else {
            0int
        },
{
    let f = |k: u32| p(m[k].0);
    let m2 = m.insert(id, v);
    let f2 = |k: u32| p(m2[k].0);
    m.dom().lemma_len_filter(f);
    if p(v.0) {
        assert(m2.dom().filter(f2) =~= m.dom().filter(f).insert(id));
    } else {
        assert(m2.dom().filter(f2) =~= m.dom().filter(f));
    }
}

proof fn lemma_filter_remove<H>(m: Map<u32, (EntityKind, H)>, id: u32, p: spec_fn(EntityKind) -> bool)
    requires
        m.dom().finite(),
        m.contains_key(id),
    ensures
        m.dom().filter(|k: u32| p(m[k].0)).finite(),
        m.dom().filter(|k: u32| p(m[k].0)).len() == m.remove(id).dom().filter(
            |k: u32| p(m.remove(id)[k].0),
        ).len() + if p(m[id].0) {
            1int
        } else {
            0int
        },
{
    let f = |k: u32| p(m[k].0);
    let m2 = m.remove(id);
    let f2 = |k: u32| p(m2[k].0);
    m.dom().lemma_len_filter(f);
    if p(m[id].0) {
        assert(m2.dom().filter(f2) =~= m.dom().filter(f).remove(id));
    } else {
        assert(m2.dom().filter(f2) =~= m.dom().filter(f));
    }
}

/// A map's entries come out of its iterator in increasing key order.
proof fn lemma_keys_increasing<H>(
    m: &BTreeMap<u32, (EntityKind, H)>,
    iter: std::collections::btree_map::Iter<'_, u32, (EntityKind, H)>,
)
    requires
        vstd::std_specs::btree::key_obeys_cmp_spec::<u32>() ==> {
            &&& iter == vstd::std_specs::btree::spec_btree_map_iter(m)
            &&& vstd::std_specs::btree::increasing_seq(
                iter.remaining().map_values(|kv: (&u32, &(EntityKind, H))| *kv.0),
            )
        },
    ensures
        iter == vstd::std_specs::btree::spec_btree_map_iter(m),
        forall|a: int, b: int|
            0 <= a < b < iter.remaining().len() ==> *iter.remaining()[a].0 < *iter.remaining()[b].0,
{
    assert(vstd::laws_cmp::obeys_cmp::<u32>());
    assert(vstd::std_specs::btree::key_obeys_cmp_spec::<u32>());
    let s = iter.remaining();
    let ks = s.map_values(|kv: (&u32, &(EntityKind, H))| *kv.0);
    assert forall|a: int, b: int| 0 <= a < b < s.len() implies *s[a].0 < *s[b].0 by {
        assert(ks[a] == *s[a].0);
        assert(ks[b] == *s[b].0);
        assert(ks[a].cmp_spec(&ks[b]) is Less);
    }
}

/// Registered entities keyed by id, with the number of living ants and of
/// each fighting caste kept alongside.
pub struct Roster<H> {
    entries: BTreeMap<u32, (EntityKind, H)>,
    next_id: u32,
    ants: u32,
    workers: u32,
    soldiers: u32,
}

/// The kind of an ant of this caste, as a predicate.
pub open spec fn is_caste(caste: Caste) -> spec_fn(EntityKind) -> bool {
    |k: EntityKind| k == EntityKind::Ant(caste)
}

impl<H> View for Roster<H> {
    type V = Map<u32, (EntityKind, H)>;

    /// The registered entries by id.
    closed spec fn view(&self) -> Map<u32, (EntityKind, H)> {
        self.entries@
    }
}

impl<H: Copy> Roster<H> {
    /// Every id lies below the next id; the counters are exact.
    pub closed spec fn wf(&self) -> bool {
        &&& forall|id: u32| #[trigger] self.entries@.contains_key(id) ==> id < self.next_id
        &&& self.ants == class_ids(self.entries@, KindClass::Ants).len()
        &&& self.workers == caste_ids(self.entries@, Caste::Worker).len()
        &&& self.soldiers == caste_ids(self.entries@, Caste::Soldier).len()
        &&& self.ants <= self.next_id
        &&& self.workers <= self.next_id
        &&& self.soldiers <= self.next_id
    }

    /// The id the next registration will receive.
    pub closed spec fn next_id_spec(&self) -> u32 {
        self.next_id
    }

    /// Every registered id lies below the next id to be handed out, so an id
    /// is never handed out twice.
    pub proof fn lemma_ids_fresh(self)
        requires
            self.wf(),
        ensures
            forall|id: u32| #[trigger] self@.contains_key(id) ==> id < self.next_id_spec(),
            self@.dom().finite(),
    {
    }

    pub fn new() -> (r: Roster<H>)
        ensures
            r.wf(),
            r@ == Map::<u32, (EntityKind, H)>::empty(),
            r.next_id_spec() == 0,
    {
        let r = Roster { entries: BTreeMap::new(), next_id: 0, ants: 0, workers: 0, soldiers: 0 };
        proof {
            assert(class_ids(r.entries@, KindClass::Ants) =~= Set::empty());
            assert(caste_ids(r.entries@, Caste::Worker) =~= Set::empty());
            assert(caste_ids(r.entries@, Caste::Soldier) =~= Set::empty());
        }
        r
    }

    /// Registers a new entity under a fresh id and returns the id.
    pub fn register(&mut self, kind: EntityKind, handle: H) -> (id: u32)
        requires
            old(self).wf(),
            old(self).next_id_spec() < u32::MAX,
        ensures
            final(self).wf(),
            id == old(self).next_id_spec(),
            final(self).next_id_spec() == id + 1,
            !old(self)@.contains_key(id),
            final(self)@ == old(self)@.insert(id, (kind, handle)),
    {
        let id = self.next_id;
        let ghost m = self.entries@;
        proof {
            lemma_filter_insert(m, id, (kind, handle), |k: EntityKind| in_class(k, KindClass::Ants));
            lemma_filter_insert(m, id, (kind, handle), is_caste(Caste::Worker));
            lemma_filter_insert(m, id, (kind, handle), is_caste(Caste::Soldier));
            assert(class_ids(m, KindClass::Ants) =~= m.dom().filter(
                |k: u32| (|k: EntityKind| in_class(k, KindClass::Ants))(m[k].0),
            ));
        }
        self.entries.insert(id, (kind, handle));
        self.next_id = id + 1;
        match kind {
            EntityKind::Ant(caste) => {
                self.ants = self.ants + 1;
                match caste {
                    Caste::Worker => self.workers = self.workers + 1,
                    Caste::Soldier => self.soldiers = self.soldiers + 1,
                    Caste::Queen => {},
                }
            },
            _ => {},
        }
        proof {
            let m2 = self.entries@;
            assert(class_ids(m2, KindClass::Ants) =~= m2.dom().filter(
                |k: u32| (|k: EntityKind| in_class(k, KindClass::Ants))(m2[k].0),
            ));
            assert(caste_ids(m2, Caste::Worker) =~= m2.dom().filter(
                |k: u32| is_caste(Caste::Worker)(m2[k].0),
            ));
            assert(caste_ids(m, Caste::Worker) =~= m.dom().filter(
                |k: u32| is_caste(Caste::Worker)(m[k].0),
            ));
            assert(caste_ids(m2, Caste::Soldier) =~= m2.dom().filter(
                |k: u32| is_caste(Caste::Soldier)(m2[k].0),
            ));
            assert(caste_ids(m, Caste::Soldier) =~= m.dom().filter(
                |k: u32| is_caste(Caste::Soldier)(m[k].0),
            ));
        }
        id
    }

    /// The kind and handle registered under `id`.
    pub fn get(&self, id: u32) -> (r: Option<(EntityKind, H)>)
        requires
            self.wf(),
        ensures
            r == entry_of(self@, id),
    {
        match self.entries.get(&id) {
            Some(e) => Some(*e),
            None => None,
        }
    }

    pub fn contains(&self, id: u32) -> (b: bool)
        requires
            self.wf(),
        ensures
            b == self@.contains_key(id),
    {
        self.get(id).is_some()
    }

    /// Whether `id` names a living ant.
    pub fn is_ant(&self, id: u32) -> (b: bool)
        requires
            self.wf(),
        ensures
            b == (entry_of(self@, id) matches Some(e) && e.0 is Ant),
    {
        match self.get(id) {
            Some((EntityKind::Ant(_), _)) => true,
            _ => false,
        }
    }

    /// Whether `id` names something that can be attacked: an ant or a predator.
    pub fn is_attackable(&self, id: u32) -> (b: bool)
        requires
            self.wf(),
        ensures
            b == (entry_of(self@, id) matches Some(e) && (e.0 is Ant || e.0 == EntityKind::Predator)),
    {
        match self.get(id) {
            Some((EntityKind::Ant(_), _)) => true,
            Some((EntityKind::Predator, _)) => true,
            _ => false,
        }
    }

    /// Unregisters `id`, returning what it was.
    pub fn remove(&mut self, id: u32) -> (r: Option<(EntityKind, H)>)
        requires
            old(self).wf(),
        ensures
            final(self).wf(),
            r == entry_of(old(self)@, id),
            final(self)@ == old(self)@.remove(id),
            final(self).next_id_spec() == old(self).next_id_spec(),
    {
        let ghost m = self.entries@;
        proof {
            if m.contains_key(id) {
                lemma_filter_remove(m, id, |k: EntityKind| in_class(k, KindClass::Ants));
                lemma_filter_remove(m, id, is_caste(Caste::Worker));
                lemma_filter_remove(m, id, is_caste(Caste::Soldier));
                assert(class_ids(m, KindClass::Ants) =~= m.dom().filter(
                    |k: u32| (|k: EntityKind| in_class(k, KindClass::Ants))(m[k].0),
                ));
                assert(caste_ids(m, Caste::Worker) =~= m.dom().filter(
                    |k: u32| is_caste(Caste::Worker)(m[k].0),
                ));
                assert(caste_ids(m, Caste::Soldier) =~= m.dom().filter(
                    |k: u32| is_caste(Caste::Soldier)(m[k].0),
                ));
            }
        }
        let r = self.entries.remove(&id);
        match r {
            Some((EntityKind::Ant(caste), _)) => {
                self.ants = self.ants - 1;
                match caste {
                    Caste::Worker => self.workers = self.workers - 1,
                    Caste::Soldier => self.soldiers = self.soldiers - 1,
                    Caste::Queen => {},
                }
            },
            _ => {},
        }
        proof {
            let m2 = self.entries@;
            if m.contains_key(id) {
                assert(class_ids(m2, KindClass::Ants) =~= m2.dom().filter(
                    |k: u32| (|k: EntityKind| in_class(k, KindClass::Ants))(m2[k].0),
                ));
                assert(caste_ids(m2, Caste::Worker) =~= m2.dom().filter(
                    |k: u32| is_caste(Caste::Worker)(m2[k].0),
                ));
                assert(caste_ids(m2, Caste::Soldier) =~= m2.dom().filter(
                    |k: u32| is_caste(Caste::Soldier)(m2[k].0),
                ));
            } else {
                assert(m2 =~= m);
            }
        }
        r
    }

    /// Number of living ants.
    pub fn ant_count(&self) -> (n: u32)
        requires
            self.wf(),
        ensures
            n == class_ids(self@, KindClass::Ants).len(),
    {
        self.ants
    }

    /// The id the next registration will receive.
    pub fn next_id(&self) -> (n: u32)
        requires
            self.wf(),
        ensures
            n == self.next_id_spec(),
    {
        self.next_id
    }

    /// Numbers of living workers and soldiers.
    pub fn caste_counts(&self) -> (r: (u32, u32))
        requires
            self.wf(),
        ensures
            r.0 == caste_ids(self@, Caste::Worker).len(),
            r.1 == caste_ids(self@, Caste::Soldier).len(),
    {
        (self.workers, self.soldiers)
    }

    /// Ids of all entities of class `c`, in increasing order.
    pub fn ids_of(&self, c: KindClass) -> (r: Vec<u32>)
        requires
            self.wf(),
        ensures
            forall|id: u32| r@.contains(id) <==> class_ids(self@, c).contains(id),
            forall|a: int, b: int| 0 <= a < b < r@.len() ==> r@[a] < r@[b],
    {
        let mut r: Vec<u32> = Vec::new();
        let ghost mut pos: Seq<int> = Seq::empty();
        let entries = self.entries.iter();
        proof {
            lemma_keys_increasing(&self.entries, entries);
        }
        for kv in it: entries
            invariant
                it.seq() == vstd::std_specs::btree::spec_btree_map_iter(&self.entries).remaining(),
                pos.len() == r@.len(),
                forall|m: int|
                    0 <= m < r@.len() ==> 0 <= #[trigger] pos[m] < it.index() && *it.seq()[pos[m]].0
                        == r@[m] && in_class(it.seq()[pos[m]].1.0, c),
                forall|j: int|
                    0 <= j < it.index() && in_class(#[trigger] it.seq()[j].1.0, c) ==> r@.contains(
                        *it.seq()[j].0,
                    ),
                forall|a: int, b: int| 0 <= a < b < r@.len() ==> r@[a] < r@[b],
                forall|a: int, b: int|
                    0 <= a < b < it.seq().len() ==> *it.seq()[a].0 < *it.seq()[b].0,
        {
            let ghost j = it.index();
            assert(kv == it.seq()[j]);
            let (id, e) = kv;
            let keep = match c {
                KindClass::Ants => match e.0 {
                    EntityKind::Ant(_) => true,
                    _ => false,
                },
                KindClass::Foods => e.0 == EntityKind::Food,
                KindClass::Eggs => e.0 == EntityKind::Egg,
                KindClass::Predators => e.0 == EntityKind::Predator,
            };
            let ghost r0 = r@;
            if keep {
                r.push(*id);
                proof {
                    pos = pos.push(j);
                }
            }
            proof {
                assert(keep == in_class(it.seq()[j].1.0, c));
                assert forall|k: int|
                    0 <= k < j + 1 && in_class(#[trigger] it.seq()[k].1.0, c) implies r@.contains(
                    *it.seq()[k].0) by {
                    if k < j {
                        let m = choose|m: int| 0 <= m < r0.len() && r0[m] == *it.seq()[k].0;
                        assert(r@[m] == r0[m]);
                    } else {
                        assert(r@[r@.len() - 1] == *it.seq()[k].0);
                    }
                }
                if keep {
                    assert forall|a: int, b: int| 0 <= a < b < r@.len() implies r@[a] < r@[b] by {
                        if b == r@.len() - 1 {
                            assert(pos[a] < j);
                        }
                    }
                }
            }
        }
        proof {
            let s = vstd::std_specs::btree::spec_btree_map_iter(&self.entries).remaining();
            assert forall|id: u32| r@.contains(id) <==> class_ids(self@, c).contains(id) by {
                if r@.contains(id) {
                    let m = choose|m: int| 0 <= m < r@.len() && r@[m] == id;
                    assert(pos[m] >= 0);
                    assert(self.entries@.contains_key(*s[pos[m]].0));
                }
                if class_ids(self@, c).contains(id) {
                    assert(self.entries@.contains_key(id));
                    assert(s.contains((&id, &self.entries@[id])));
                    let k = choose|k: int| 0 <= k < s.len() && s[k] == (&id, &self.entries@[id]);
                    assert(in_class(s[k].1.0, c));
                }
            }
        }
        r
    }
}

} // verus!
