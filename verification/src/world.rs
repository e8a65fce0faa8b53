//! The world orchestrator: registry, spatial map, derived connection
//! graph, id allocator, round-robin cursors and the outgoing event log,
//! with the per-tick update algorithm.

use vstd::prelude::*;

use crate::building::{
    same_shape,
    spec_new_building,
    Building,
    BuildingAction,
    BuildingStateView,
    BuildingType,
    BuildingView,
};
use crate::building_map::BuildingMap;
use crate::building_storage::{lemma_spec_find, spec_find, BuildingStorage};
use crate::connection_graph::{
    graph_has_edge,
    spec_edge_derived,
    ConnectionEdge,
    ConnectionGraph,
    OutputRole,
};
use crate::dto::{BuildingId, Vec2i};
use crate::filters::FilterConfig;
use crate::packet::{Packet, PacketView};
use crate::traffic::Traffic;

verus! {

/// An event appended to the world's outgoing log.
pub enum WorldEvent {
    BuildingPlaced { id: BuildingId, pos: Vec2i, building_type: BuildingType, rotation: i32 },
    BuildingRemoved { id: BuildingId, pos: Vec2i },
    BuildingProgressUpdated { id: BuildingId, progress: u64 },
    PacketMoved { packet: Packet, from_id: BuildingId, to_id: BuildingId, progress_start: u64 },
}

/// Spec-level image of an event.
pub enum WorldEventView {
    BuildingPlaced { id: BuildingId, pos: Vec2i, building_type: BuildingType, rotation: i32 },
    BuildingRemoved { id: BuildingId, pos: Vec2i },
    BuildingProgressUpdated { id: BuildingId, progress: u64 },
    PacketMoved { packet: PacketView, from_id: BuildingId, to_id: BuildingId, progress_start: u64 },
}

impl View for WorldEvent {
    type V = WorldEventView;

    open spec fn view(&self) -> WorldEventView {
        match self {
            WorldEvent::BuildingPlaced { id, pos, building_type, rotation } => {
                WorldEventView::BuildingPlaced {
                    id: *id,
                    pos: *pos,
                    building_type: *building_type,
                    rotation: *rotation,
                }
            },
            WorldEvent::BuildingRemoved { id, pos } => {
                WorldEventView::BuildingRemoved { id: *id, pos: *pos }
            },
            WorldEvent::BuildingProgressUpdated { id, progress } => {
                WorldEventView::BuildingProgressUpdated { id: *id, progress: *progress }
            },
            WorldEvent::PacketMoved { packet, from_id, to_id, progress_start } => {
                WorldEventView::PacketMoved {
                    packet: packet@,
                    from_id: *from_id,
                    to_id: *to_id,
                    progress_start: *progress_start,
                }
            },
        }
    }
}

/// The views of an event sequence.
pub open spec fn event_views(s: Seq<WorldEvent>) -> Seq<WorldEventView> {
    s.map_values(|e: WorldEvent| e@)
}

/// A round-robin cursor key: the source structure and the routing role of
/// the bucket the cursor walks.
pub type CounterKey = (BuildingId, OutputRole);

/// The map a cursor association list denotes.
pub open spec fn counters_map(s: Seq<(CounterKey, u64)>) -> Map<CounterKey, u64>
    decreases s.len(),
{
    if s.len() == 0 {
        Map::empty()
    } else {
        counters_map(s.drop_last()).insert(s.last().0, s.last().1)
    }
}

/// No two cursor entries share a key.
pub open spec fn counter_keys_unique(s: Seq<(CounterKey, u64)>) -> bool {
    forall|i: int, j: int| 0 <= i < j < s.len() ==> s[i].0 != s[j].0
}

/// A cursor value under the map semantics: zero when absent.
pub open spec fn counter_of(m: Map<CounterKey, u64>, key: CounterKey) -> u64 {
    if m.contains_key(key) {
        m[key]
    } else {
        0u64
    }
}

proof fn lemma_counters_found(s: Seq<(CounterKey, u64)>, k: CounterKey, j: int)
    requires
        0 <= j < s.len(),
        s[j].0 == k,
        forall|l: int| j < l < s.len() ==> s[l].0 != k,
    ensures
        counters_map(s).contains_key(k),
        counters_map(s)[k] == s[j].1,
    decreases s.len(),
{
    if j < s.len() - 1 {
        lemma_counters_found(s.drop_last(), k, j);
    }
}

proof fn lemma_counters_absent(s: Seq<(CounterKey, u64)>, k: CounterKey)
    requires
        forall|l: int| 0 <= l < s.len() ==> s[l].0 != k,
    ensures
        !counters_map(s).contains_key(k),
    decreases s.len(),
{
    if s.len() > 0 {
        lemma_counters_absent(s.drop_last(), k);
    }
}

proof fn lemma_counters_update(s: Seq<(CounterKey, u64)>, j: int, v: u64)
    requires
        counter_keys_unique(s),
        0 <= j < s.len(),
    ensures
        counters_map(s.update(j, (s[j].0, v))) == counters_map(s).insert(s[j].0, v),
    decreases s.len(),
{
    let k = s[j].0;
    let t = s.update(j, (k, v));
    if j == s.len() - 1 {
        assert(t.drop_last() =~= s.drop_last());
        assert(counters_map(t) =~= counters_map(s).insert(k, v));
    } else {
        assert(t.drop_last() =~= s.drop_last().update(j, (k, v)));
        assert(counter_keys_unique(s.drop_last()));
        lemma_counters_update(s.drop_last(), j, v);
        assert(s.last().0 != k);
        assert(counters_map(t) =~= counters_map(s).insert(k, v));
    }
}

/// The persistent round-robin cursors.
pub struct RouteCounters {
    entries: Vec<(CounterKey, u64)>,
}

impl View for RouteCounters {
    type V = Map<CounterKey, u64>;

    closed spec fn view(&self) -> Map<CounterKey, u64> {
        counters_map(self.entries@)
    }
}

impl RouteCounters {
    pub closed spec fn wf(self) -> bool {
        counter_keys_unique(self.entries@)
    }

    /// No cursors.
    pub fn new() -> (r: Self)
        ensures
            r@ == Map::<CounterKey, u64>::empty(),
            r.wf(),
    {
        RouteCounters { entries: Vec::new() }
    }

    fn index_of(&self, key: CounterKey) -> (r: Option<usize>)
        ensures
            match r {
                Some(i) => i < self.entries@.len() && self.entries@[i as int].0 == key,
                None => forall|l: int| 0 <= l < self.entries@.len() ==> self.entries@[l].0 != key,
            },
    {
        let n = self.entries.len();
        let mut i: usize = 0;
        while i < n
            invariant
                n == self.entries@.len(),
                i <= n,
                forall|l: int| 0 <= l < i ==> self.entries@[l].0 != key,
            decreases n - i,
        {
            let entry_key = self.entries[i].0;
            if entry_key.0 == key.0 && role_eq(entry_key.1, key.1) {
                proof {
                    assert(entry_key == key);
                }
                return Some(i);
            }
            i = i + 1;
        }
        None
    }

    /// The cursor under `key`, zero when none was stored yet.
    pub fn get(&self, key: CounterKey) -> (r: u64)
        requires
            self.wf(),
        ensures
            r == counter_of(self@, key),
    {
        match self.index_of(key) {
            Some(i) => {
                proof {
                    lemma_counters_found(self.entries@, key, i as int);
                }
                self.entries[i].1
            },
            None => {
                proof {
                    lemma_counters_absent(self.entries@, key);
                }
                0
            },
        }
    }

    /// Store a cursor value.
    pub fn set(&mut self, key: CounterKey, value: u64)
        requires
            old(self).wf(),
        ensures
            final(self)@ == old(self)@.insert(key, value),
            final(self).wf(),
    {
        match self.index_of(key) {
            Some(i) => {
                proof {
                    lemma_counters_update(self.entries@, i as int, value);
                }
                self.entries[i] = (key, value);
            },
            None => {
                let ghost s0 = self.entries@;
                self.entries.push((key, value));
                proof {
                    assert(self.entries@.drop_last() =~= s0);
                }
            },
        }
    }
}

proof fn lemma_counters_lookup(s: Seq<(CounterKey, u64)>, k: CounterKey)
    requires
        counter_keys_unique(s),
    ensures
        counters_map(s).contains_key(k) <==> exists|l: int| 0 <= l < s.len() && (#[trigger] s[l]).0
            == k,
        forall|l: int|
            0 <= l < s.len() && (#[trigger] s[l]).0 == k ==> counters_map(s)[k] == s[l].1,
{
    if exists|l: int| 0 <= l < s.len() && (#[trigger] s[l]).0 == k {
        let l = choose|l: int| 0 <= l < s.len() && (#[trigger] s[l]).0 == k;
        lemma_counters_found(s, k, l);
        assert forall|l2: int|
            0 <= l2 < s.len() && (#[trigger] s[l2]).0 == k implies counters_map(s)[k]
            == s[l2].1 by {
            assert(l2 == l);
        }
    } else {
        assert(forall|l: int| 0 <= l < s.len() ==> (#[trigger] s[l]).0 != k);
        lemma_counters_absent(s, k);
    }
}

impl RouteCounters {
    /// Drop every cursor whose source id no longer has an outgoing edge
    /// bucket in the graph.
    #[verifier::rlimit(50)]
    pub fn retain_in_graph(&mut self, graph: &ConnectionGraph)
        requires
            old(self).wf(),
            graph.wf(),
        ensures
            final(self).wf(),
            forall|k: CounterKey|
                #[trigger] final(self)@.contains_key(k) <==> (old(self)@.contains_key(k)
                    && graph@.contains_key(k.0)),
            forall|k: CounterKey|
                final(self)@.contains_key(k) ==> final(self)@[k] == old(self)@[k],
    {
        let ghost old_entries = self.entries@;
        let n = self.entries.len();
        let mut kept: Vec<(CounterKey, u64)> = Vec::new();
        let mut i: usize = 0;
        while i < n
            invariant
                graph.wf(),
                n == self.entries@.len(),
                i <= n,
                old_entries == self.entries@,
                counter_keys_unique(old_entries),
                counter_keys_unique(kept@),
                forall|a: int|
                    0 <= a < kept@.len() ==> exists|b: int|
                        0 <= b < i && (#[trigger] kept@[a]) == old_entries[b],
                forall|a: int|
                    0 <= a < kept@.len() ==> graph@.contains_key((#[trigger] kept@[a]).0.0),
                forall|b: int|
                    0 <= b < i && graph@.contains_key((#[trigger] old_entries[b]).0.0)
                        ==> exists|a: int|
                        0 <= a < kept@.len() && (#[trigger] kept@[a]) == old_entries[b],
            decreases n - i,
        {
            let ghost kept0 = kept@;
            let entry = self.entries[i];
            proof {
                assert(entry == old_entries[i as int]);
            }
            let keep = match graph.get_outputs(entry.0.0) {
                Some(_) => true,
                None => false,
            };
            if keep {
                kept.push(entry);
                proof {
                    assert(kept@[kept@.len() - 1] == old_entries[i as int]);
                    assert forall|a: int, b: int|
                        0 <= a < b < kept@.len() implies kept@[a].0 != kept@[b].0 by {
                        if b == kept@.len() - 1 {
                            let b0 = choose|b0: int|
                                0 <= b0 < i && (#[trigger] kept0[a]) == old_entries[b0];
                            assert(old_entries[b0].0 != old_entries[i as int].0);
                        }
                    }
                }
            } else {
                proof {
                    assert(!graph@.contains_key(old_entries[i as int].0.0));
                }
            }
            proof {
                assert forall|b: int|
                    0 <= b < i + 1 && graph@.contains_key(
                        (#[trigger] old_entries[b]).0.0,
                    ) implies exists|a: int|
                    0 <= a < kept@.len() && (#[trigger] kept@[a]) == old_entries[b] by {
                    if b == i {
                        assert(kept@[kept@.len() - 1] == old_entries[b]);
                    } else {
                        let a0 = choose|a0: int|
                            0 <= a0 < kept0.len() && (#[trigger] kept0[a0]) == old_entries[b];
                        assert(kept@[a0] == old_entries[b]);
                    }
                }
            }
            i = i + 1;
        }
        self.entries = kept;
        proof {
            assert forall|k: CounterKey| #[trigger]
                counters_map(kept@).contains_key(k) implies (counters_map(
                old_entries,
            ).contains_key(k) && graph@.contains_key(k.0) && counters_map(kept@)[k] == counters_map(
                old_entries,
            )[k]) by {
                lemma_counters_lookup(kept@, k);
                let a = choose|a: int| 0 <= a < kept@.len() && (#[trigger] kept@[a]).0 == k;
                let b = choose|b: int| 0 <= b < n && (#[trigger] kept@[a]) == old_entries[b];
                lemma_counters_lookup(old_entries, k);
            }
            assert forall|k: CounterKey|
                (counters_map(old_entries).contains_key(k) && graph@.contains_key(
                    k.0,
                )) implies #[trigger] counters_map(kept@).contains_key(k) by {
                lemma_counters_lookup(old_entries, k);
                let b = choose|b: int| 0 <= b < n && (#[trigger] old_entries[b]).0 == k;
                let a = choose|a: int|
                    0 <= a < kept@.len() && (#[trigger] kept@[a]) == old_entries[b];
                lemma_counters_lookup(kept@, k);
            }
        }
    }

    /// Drop every cursor whose source is the removed structure `id`.
    #[verifier::rlimit(50)]
    pub fn retain_not_id(&mut self, id: BuildingId)
        requires
            old(self).wf(),
        ensures
            final(self).wf(),
            forall|k: CounterKey|
                #[trigger] final(self)@.contains_key(k) <==> (old(self)@.contains_key(k) && k.0
                    != id),
            forall|k: CounterKey|
                final(self)@.contains_key(k) ==> final(self)@[k] == old(self)@[k],
    {
        let ghost old_entries = self.entries@;
        let n = self.entries.len();
        let mut kept: Vec<(CounterKey, u64)> = Vec::new();
        let mut i: usize = 0;
        while i < n
            invariant
                n == self.entries@.len(),
                i <= n,
                old_entries == self.entries@,
                counter_keys_unique(old_entries),
                counter_keys_unique(kept@),
                forall|a: int|
                    0 <= a < kept@.len() ==> exists|b: int|
                        0 <= b < i && (#[trigger] kept@[a]) == old_entries[b],
                forall|a: int| 0 <= a < kept@.len() ==> (#[trigger] kept@[a]).0.0 != id,
                forall|b: int|
                    0 <= b < i && (#[trigger] old_entries[b]).0.0 != id ==> exists|a: int|
                        0 <= a < kept@.len() && (#[trigger] kept@[a]) == old_entries[b],
            decreases n - i,
        {
            let ghost kept0 = kept@;
            let entry = self.entries[i];
            proof {
                assert(entry == old_entries[i as int]);
            }
            if entry.0.0 != id {
                kept.push(entry);
                proof {
                    assert(kept@[kept@.len() - 1] == old_entries[i as int]);
                    assert forall|a: int, b: int|
                        0 <= a < b < kept@.len() implies kept@[a].0 != kept@[b].0 by {
                        if b == kept@.len() - 1 {
                            let b0 = choose|b0: int|
                                0 <= b0 < i && (#[trigger] kept0[a]) == old_entries[b0];
                            assert(old_entries[b0].0 != old_entries[i as int].0);
                        }
                    }
                }
            }
            proof {
                assert forall|b: int|
                    0 <= b < i + 1 && (#[trigger] old_entries[b]).0.0 != id implies exists|a: int|
                    0 <= a < kept@.len() && (#[trigger] kept@[a]) == old_entries[b] by {
                    if b == i {
                        assert(kept@[kept@.len() - 1] == old_entries[b]);
                    } else {
                        let a0 = choose|a0: int|
                            0 <= a0 < kept0.len() && (#[trigger] kept0[a0]) == old_entries[b];
                        assert(kept@[a0] == old_entries[b]);
                    }
                }
            }
            i = i + 1;
        }
        self.entries = kept;
        proof {
            assert forall|k: CounterKey| #[trigger]
                counters_map(kept@).contains_key(k) implies (counters_map(
                old_entries,
            ).contains_key(k) && k.0 != id && counters_map(kept@)[k] == counters_map(
                old_entries,
            )[k]) by {
                lemma_counters_lookup(kept@, k);
                let a = choose|a: int| 0 <= a < kept@.len() && (#[trigger] kept@[a]).0 == k;
                let b = choose|b: int| 0 <= b < n && (#[trigger] kept@[a]) == old_entries[b];
                lemma_counters_lookup(old_entries, k);
            }
            assert forall|k: CounterKey|
                (counters_map(old_entries).contains_key(k) && k.0 != id) implies #[trigger]
                counters_map(kept@).contains_key(k) by {
                lemma_counters_lookup(old_entries, k);
                let b = choose|b: int| 0 <= b < n && (#[trigger] old_entries[b]).0 == k;
                let a = choose|a: int|
                    0 <= a < kept@.len() && (#[trigger] kept@[a]) == old_entries[b];
                lemma_counters_lookup(kept@, k);
            }
        }
    }
}

/// Executable equality of routing roles.
fn role_eq(a: OutputRole, b: OutputRole) -> (r: bool)
    ensures
        r == (a == b),
{
    crate::connection_graph::role_index(a) == crate::connection_graph::role_index(b)
}

/// Spec-level image of a whole world.
pub struct WorldView {
    pub storage: Seq<BuildingView>,
    pub map: Map<Vec2i, BuildingId>,
    pub graph: Map<BuildingId, Seq<ConnectionEdge>>,
    pub next_id: BuildingId,
    pub events: Seq<WorldEventView>,
    pub counters: Map<CounterKey, u64>,
    pub score: u32,
}

/// The world: registry, map, graph, id allocator, cursors, event log and
/// score cell.
pub struct World {
    pub storage: BuildingStorage,
    map: BuildingMap,
    graph: ConnectionGraph,
    next_id: BuildingId,
    events: Vec<WorldEvent>,
    route_counters: RouteCounters,
    pub score: u32,
}

impl View for World {
    type V = WorldView;

    closed spec fn view(&self) -> WorldView {
        WorldView {
            storage: self.storage@,
            map: self.map@,
            graph: self.graph@,
            next_id: self.next_id,
            events: event_views(self.events@),
            counters: self.route_counters@,
            score: self.score,
        }
    }
}

impl World {
    /// Structural well-formedness: the components are well-formed, every
    /// id is below the allocator cursor, and the occupancy invariant
    /// holds — every occupied tile belongs to exactly the stored structure
    /// whose footprint covers it, and every footprint tile is occupied by
    /// its owner.
    pub closed spec fn wf(self) -> bool {
        &&& self.storage.wf()
        &&& self.map.wf()
        &&& self.graph.wf()
        &&& self.route_counters.wf()
        &&& forall|i: int| 0 <= i < self@.storage.len() ==> (#[trigger] self@.storage[i]).id
            < self@.next_id
        &&& forall|t: Vec2i| #[trigger]
            self@.map.contains_key(t) ==> spec_find(self@.storage, self@.map[t]) != -1
                && self@.storage[spec_find(self@.storage, self@.map[t])].in_footprint(t)
        &&& forall|i: int, t: Vec2i|
            0 <= i < self@.storage.len() && #[trigger] self@.storage[i].in_footprint(t)
                ==> self@.map.contains_key(t) && self@.map[t] == self@.storage[i].id
    }

    /// An empty world.
    pub fn new() -> (r: Self)
        ensures
            r@.storage == Seq::<BuildingView>::empty(),
            r@.map == Map::<Vec2i, BuildingId>::empty(),
            r@.graph == Map::<BuildingId, Seq<ConnectionEdge>>::empty(),
            r@.next_id == 0u64,
            r@.events == Seq::<WorldEventView>::empty(),
            r@.counters == Map::<CounterKey, u64>::empty(),
            r@.score == 0u32,
            r.wf(),
    {
        let r = World {
            storage: BuildingStorage::new(),
            map: BuildingMap::new(),
            graph: ConnectionGraph::new(),
            next_id: 0,
            events: Vec::new(),
            route_counters: RouteCounters::new(),
            score: 0,
        };
        proof {
            assert(event_views(r.events@) =~= Seq::<WorldEventView>::empty());
        }
        r
    }
}

/// Whether placing `b` would overlap an occupied tile.
pub open spec fn spec_collision(w: WorldView, b: BuildingView) -> bool {
    exists|t: Vec2i| #[trigger] b.in_footprint(t) && w.map.contains_key(t)
}

/// Whether a placement attempt of `b` is rejected: a footprint collision,
/// or an exhausted id allocator.
pub open spec fn spec_place_rejected(w: WorldView, b: BuildingView) -> bool {
    spec_collision(w, b) || w.next_id == u64::MAX
}

/// The graph holds exactly the edges derived from the current map and
/// registry.
pub open spec fn spec_graph_coherent(w: WorldView) -> bool {
    forall|f: BuildingId, e: ConnectionEdge|
        #[trigger] graph_has_edge(w.graph, f, e) <==> (spec_find(w.storage, f) != -1
            && spec_edge_derived(w.storage, w.map, w.storage[spec_find(w.storage, f)], e))
}

/// `c1` is `c0` with every cursor dropped whose source has no bucket in
/// `g`, the remaining values unchanged.
pub open spec fn spec_counters_pruned(
    c0: Map<CounterKey, u64>,
    c1: Map<CounterKey, u64>,
    g: Map<BuildingId, Seq<ConnectionEdge>>,
) -> bool {
    &&& forall|k: CounterKey| #[trigger] c1.contains_key(k) <==> (c0.contains_key(k)
        && g.contains_key(k.0))
    &&& forall|k: CounterKey| #[trigger] c1.contains_key(k) ==> c1[k] == c0[k]
}

/// The outcome of a successful placement of `b`: the registry gains `b`,
/// the allocator advances, exactly the footprint tiles of `b` join the
/// map pointing at `b`, the graph is rebuilt from the new geometry, stale
/// cursors are pruned, and a placement event is appended.
pub open spec fn spec_placed(w0: WorldView, w1: WorldView, b: BuildingView, rotation: i32) -> bool {
    &&& w1.storage == w0.storage.push(b)
    &&& w1.next_id == w0.next_id + 1
    &&& forall|t: Vec2i| #[trigger] b.in_footprint(t) ==> w1.map.contains_key(t) && w1.map[t]
        == b.id
    &&& forall|t: Vec2i| #[trigger]
        w0.map.contains_key(t) ==> w1.map.contains_key(t) && w1.map[t] == w0.map[t]
    &&& forall|t: Vec2i| #[trigger]
        w1.map.contains_key(t) ==> w0.map.contains_key(t) || b.in_footprint(t)
    &&& spec_graph_coherent(w1)
    &&& spec_counters_pruned(w0.counters, w1.counters, w1.graph)
    &&& w1.events == w0.events.push(
        WorldEventView::BuildingPlaced {
            id: b.id,
            pos: b.pos,
            building_type: b.btype(),
            rotation,
        },
    )
    &&& w1.score == w0.score
}

impl World {
    /// Rebuild the connection graph from the current map and registry and
    /// prune round-robin cursors whose source lost all outgoing edges.
    pub fn rebuild_connections(&mut self)
        requires
            old(self).wf(),
        ensures
            final(self).wf(),
            final(self)@.storage == old(self)@.storage,
            final(self)@.map == old(self)@.map,
            final(self)@.next_id == old(self)@.next_id,
            final(self)@.events == old(self)@.events,
            final(self)@.score == old(self)@.score,
            spec_graph_coherent(final(self)@),
            spec_counters_pruned(old(self)@.counters, final(self)@.counters, final(self)@.graph),
    {
        self.graph.rebuild(&self.map, &self.storage);
        self.route_counters.retain_in_graph(&self.graph);
        proof {
            assert(self@.storage == old(self)@.storage);
            assert(self@.map == old(self)@.map);
            assert forall|t: Vec2i| #[trigger]
                self@.map.contains_key(t) implies spec_find(self@.storage, self@.map[t]) != -1
                && self@.storage[spec_find(self@.storage, self@.map[t])].in_footprint(t) by {
                assert(old(self)@.map.contains_key(t));
            }
            assert forall|i: int, t: Vec2i|
                0 <= i < self@.storage.len() && #[trigger] self@.storage[i].in_footprint(
                    t,
                ) implies self@.map.contains_key(t) && self@.map[t] == self@.storage[i].id by {
                assert(old(self)@.storage[i].in_footprint(t));
            }
        }
    }

    /// Place a prepared structure: reject silently on collision (or an
    /// exhausted allocator), otherwise register it, occupy its footprint,
    /// rebuild the graph and emit the placement event.
    #[verifier::rlimit(80)]
    fn place_structure(&mut self, building: Building, rotation: i32)
        requires
            old(self).wf(),
            building@.id == old(self)@.next_id,
            building@.rot == rotation,
            building@.wf(),
        ensures
            final(self).wf(),
            if spec_place_rejected(old(self)@, building@) {
                final(self)@ == old(self)@
            } else {
                spec_placed(old(self)@, final(self)@, building@, rotation)
            },
    {
        let ghost b = building@;
        let ghost w0 = self@;
        if self.next_id == u64::MAX {
            return;
        }
        let id = self.next_id;
        let pos = building.pos;
        let btype = building.building_type();
        let tiles = building.footprint_tiles();
        proof {
            crate::building::lemma_footprint_seq(b);
        }
        let nt = tiles.len();
        let mut i: usize = 0;
        while i < nt
            invariant
                self@ == w0,
                self.wf(),
                b == building@,
                tiles@ == b.footprint_seq(),
                forall|t: Vec2i| #[trigger] b.footprint_seq().contains(t) <==> b.in_footprint(t),
                nt == tiles@.len(),
                i <= nt,
                forall|l: int| 0 <= l < i ==> !w0.map.contains_key(#[trigger] tiles@[l]),
            decreases nt - i,
        {
            match self.map.get(&tiles[i]) {
                Some(_) => {
                    proof {
                        assert(b.footprint_seq().contains(tiles@[i as int]));
                        assert(b.in_footprint(tiles@[i as int]) && w0.map.contains_key(
                            tiles@[i as int],
                        ));
                    }
                    return;
                },
                None => {},
            }
            i = i + 1;
        }
        proof {
            assert(!spec_collision(w0, b)) by {
                if spec_collision(w0, b) {
                    let t = choose|t: Vec2i| #[trigger]
                        b.in_footprint(t) && w0.map.contains_key(t);
                    assert(b.footprint_seq().contains(t));
                    let l = choose|l: int| 0 <= l < tiles@.len() && tiles@[l] == t;
                }
            }
        }
        self.next_id = id + 1;
        proof {
            assert forall|a: int| 0 <= a < w0.storage.len() implies w0.storage[a].id < b.id by {}
        }
        self.storage.add_building(building);
        let mut i: usize = 0;
        while i < nt
            invariant
                self.storage.wf(),
                self.map.wf(),
                self.graph.wf(),
                self.route_counters.wf(),
                self@.storage == w0.storage.push(b),
                self@.graph == w0.graph,
                self@.counters == w0.counters,
                self@.events == w0.events,
                self@.score == w0.score,
                self@.next_id == w0.next_id + 1,
                b.id == w0.next_id,
                id == b.id,
                b == building@,
                b.wf(),
                forall|a: int| 0 <= a < w0.storage.len() ==> (#[trigger] w0.storage[a]).id < b.id,
                forall|t2: Vec2i| #[trigger]
                    w0.map.contains_key(t2) ==> spec_find(w0.storage, w0.map[t2]) != -1
                        && w0.storage[spec_find(w0.storage, w0.map[t2])].in_footprint(t2),
                forall|a: int, t2: Vec2i|
                    0 <= a < w0.storage.len() && #[trigger] w0.storage[a].in_footprint(t2)
                        ==> w0.map.contains_key(t2) && w0.map[t2] == w0.storage[a].id,
                tiles@ == b.footprint_seq(),
                forall|t: Vec2i| #[trigger] b.footprint_seq().contains(t) <==> b.in_footprint(t),
                nt == tiles@.len(),
                i <= nt,
                forall|l: int| 0 <= l < nt ==> !w0.map.contains_key(#[trigger] tiles@[l]),
                forall|t: Vec2i| #[trigger]
                    w0.map.contains_key(t) ==> self@.map.contains_key(t) && self@.map[t]
                        == w0.map[t],
                forall|l: int|
                    0 <= l < i ==> self@.map.contains_key(#[trigger] tiles@[l])
                        && self@.map[tiles@[l]] == b.id,
                forall|t: Vec2i| #[trigger]
                    self@.map.contains_key(t) ==> (w0.map.contains_key(t) && self@.map[t]
                        == w0.map[t]) || (exists|l: int|
                        0 <= l < i && tiles@[l] == t && self@.map[t] == b.id),
            decreases nt - i,
        {
            let ghost m0 = self@.map;
            self.map.insert(tiles[i], id);
            proof {
                assert(self@.map == m0.insert(tiles@[i as int], id));
                assert forall|t: Vec2i| #[trigger]
                    self@.map.contains_key(t) implies (w0.map.contains_key(t) && self@.map[t]
                    == w0.map[t]) || (exists|l: int|
                    0 <= l < i + 1 && tiles@[l] == t && self@.map[t] == b.id) by {
                    if t == tiles@[i as int] {
                        assert(tiles@[i as int] == t && self@.map[t] == b.id);
                    } else {
                        assert(m0.contains_key(t) && m0[t] == self@.map[t]);
                    }
                }
            }
            i = i + 1;
        }
        proof {
            let w1 = self@;
            lemma_spec_find(w0.storage, b.id);
            assert(spec_find(w0.storage, b.id) == -1) by {
                if spec_find(w0.storage, b.id) != -1 {
                    assert(w0.storage[spec_find(w0.storage, b.id)].id < b.id);
                }
            }
            crate::building_storage::lemma_spec_find_push(w0.storage, b, b.id);
            assert(spec_find(w1.storage, b.id) == w0.storage.len());
            assert forall|t: Vec2i| #[trigger]
                w1.map.contains_key(t) implies spec_find(w1.storage, w1.map[t]) != -1
                && w1.storage[spec_find(w1.storage, w1.map[t])].in_footprint(t) by {
                if w0.map.contains_key(t) && w1.map[t] == w0.map[t] {
                    let oid = w0.map[t];
                    lemma_spec_find(w0.storage, oid);
                    crate::building_storage::lemma_spec_find_push(w0.storage, b, oid);
                    assert(w1.storage[spec_find(w0.storage, oid)] == w0.storage[spec_find(
                        w0.storage,
                        oid,
                    )]);
                } else {
                    let l = choose|l: int| 0 <= l < nt && tiles@[l] == t && w1.map[t] == b.id;
                    assert(b.footprint_seq().contains(t));
                    assert(w1.storage[w0.storage.len() as int] == b);
                }
            }
            assert forall|a: int, t: Vec2i|
                0 <= a < w1.storage.len() && #[trigger] w1.storage[a].in_footprint(t) implies
                w1.map.contains_key(t) && w1.map[t] == w1.storage[a].id by {
                if a < w0.storage.len() {
                    assert(w1.storage[a] == w0.storage[a]);
                    assert(w0.storage[a].in_footprint(t));
                    assert(w0.map.contains_key(t));
                } else {
                    assert(w1.storage[a] == b);
                    assert(b.footprint_seq().contains(t));
                    let l = choose|l: int| 0 <= l < tiles@.len() && tiles@[l] == t;
                }
            }
            assert(self.wf());
        }
        self.rebuild_connections();
        let ghost w2 = self@;
        self.events.push(
            WorldEvent::BuildingPlaced { id, pos, building_type: btype, rotation },
        );
        proof {
            assert(event_views(self.events@) =~= w2.events.push(
                WorldEventView::BuildingPlaced {
                    id: b.id,
                    pos: b.pos,
                    building_type: b.btype(),
                    rotation,
                },
            ));
        }
    }

    /// Place a structure of `building_type` with its top-left tile at
    /// `pos`; a placement overlapping any occupied tile is rejected
    /// silently.
    pub fn place_building(&mut self, pos: Vec2i, building_type: BuildingType, rotation: i32)
        requires
            old(self).wf(),
            pos.in_range(),
        ensures
            final(self).wf(),
            ({
                let b = spec_new_building(old(self)@.next_id, pos, rotation, building_type);
                if spec_place_rejected(old(self)@, b) {
                    final(self)@ == old(self)@
                } else {
                    spec_placed(old(self)@, final(self)@, b, rotation)
                }
            }),
    {
        let building = Building::new(self.next_id, pos, rotation, building_type);
        self.place_structure(building, rotation);
    }
}

impl World {
    /// Place an IP filter that starts out configured.
    pub fn place_ip_filter_with_config(
        &mut self,
        pos: Vec2i,
        rotation: i32,
        config: crate::filters::IpFilterConfig,
    )
        requires
            old(self).wf(),
            pos.in_range(),
        ensures
            final(self).wf(),
            ({
                let b = BuildingView {
                    id: old(self)@.next_id,
                    pos,
                    rot: rotation,
                    state: BuildingStateView::Filter {
                        config: FilterConfig::Ip(Some(config)),
                        buffer: None,
                    },
                };
                if spec_place_rejected(old(self)@, b) {
                    final(self)@ == old(self)@
                } else {
                    spec_placed(old(self)@, final(self)@, b, rotation)
                }
            }),
    {
        let building = Building::new_filter_with_config(
            self.next_id,
            pos,
            rotation,
            FilterConfig::Ip(Some(config)),
        );
        self.place_structure(building, rotation);
    }

    /// Place a port filter that starts out configured.
    pub fn place_port_filter_with_config(
        &mut self,
        pos: Vec2i,
        rotation: i32,
        config: crate::filters::PortFilterConfig,
    )
        requires
            old(self).wf(),
            pos.in_range(),
        ensures
            final(self).wf(),
            ({
                let b = BuildingView {
                    id: old(self)@.next_id,
                    pos,
                    rot: rotation,
                    state: BuildingStateView::Filter {
                        config: FilterConfig::Port(Some(config)),
                        buffer: None,
                    },
                };
                if spec_place_rejected(old(self)@, b) {
                    final(self)@ == old(self)@
                } else {
                    spec_placed(old(self)@, final(self)@, b, rotation)
                }
            }),
    {
        let building = Building::new_filter_with_config(
            self.next_id,
            pos,
            rotation,
            FilterConfig::Port(Some(config)),
        );
        self.place_structure(building, rotation);
    }

    /// Place a length filter that starts out configured.
    pub fn place_length_filter_with_config(
        &mut self,
        pos: Vec2i,
        rotation: i32,
        config: crate::filters::LengthFilterConfig,
    )
        requires
            old(self).wf(),
            pos.in_range(),
        ensures
            final(self).wf(),
            ({
                let b = BuildingView {
                    id: old(self)@.next_id,
                    pos,
                    rot: rotation,
                    state: BuildingStateView::Filter {
                        config: FilterConfig::Length(Some(config)),
                        buffer: None,
                    },
                };
                if spec_place_rejected(old(self)@, b) {
                    final(self)@ == old(self)@
                } else {
                    spec_placed(old(self)@, final(self)@, b, rotation)
                }
            }),
    {
        let building = Building::new_filter_with_config(
            self.next_id,
            pos,
            rotation,
            FilterConfig::Length(Some(config)),
        );
        self.place_structure(building, rotation);
    }

    /// Place a protocol filter that starts out configured.
    pub fn place_protocol_filter_with_config(
        &mut self,
        pos: Vec2i,
        rotation: i32,
        config: crate::filters::ProtocolFilterConfig,
    )
        requires
            old(self).wf(),
            pos.in_range(),
        ensures
            final(self).wf(),
            ({
                let b = BuildingView {
                    id: old(self)@.next_id,
                    pos,
                    rot: rotation,
                    state: BuildingStateView::Filter {
                        config: FilterConfig::Protocol(Some(config)),
                        buffer: None,
                    },
                };
                if spec_place_rejected(old(self)@, b) {
                    final(self)@ == old(self)@
                } else {
                    spec_placed(old(self)@, final(self)@, b, rotation)
                }
            }),
    {
        let building = Building::new_filter_with_config(
            self.next_id,
            pos,
            rotation,
            FilterConfig::Protocol(Some(config)),
        );
        self.place_structure(building, rotation);
    }

    /// Place a content filter that starts out configured.
    pub fn place_content_filter_with_config(
        &mut self,
        pos: Vec2i,
        rotation: i32,
        config: crate::filters::ContentFilterConfig,
    )
        requires
            old(self).wf(),
            pos.in_range(),
        ensures
            final(self).wf(),
            ({
                let b = BuildingView {
                    id: old(self)@.next_id,
                    pos,
                    rot: rotation,
                    state: BuildingStateView::Filter {
                        config: FilterConfig::Content(Some(config)),
                        buffer: None,
                    },
                };
                if spec_place_rejected(old(self)@, b) {
                    final(self)@ == old(self)@
                } else {
                    spec_placed(old(self)@, final(self)@, b, rotation)
                }
            }),
    {
        let building = Building::new_filter_with_config(
            self.next_id,
            pos,
            rotation,
            FilterConfig::Content(Some(config)),
        );
        self.place_structure(building, rotation);
    }

    /// Remove the structure occupying `pos`, clearing its whole footprint,
    /// deleting its graph node and cursors and emitting a removal event;
    /// an unoccupied tile is a silent no-op.
    #[verifier::rlimit(100)]
    pub fn remove_building(&mut self, pos: &Vec2i)
        requires
            old(self).wf(),
        ensures
            final(self).wf(),
            ({
                let w0 = old(self)@;
                let w1 = final(self)@;
                if !w0.map.contains_key(*pos) {
                    w1 == w0
                } else {
                    let id = w0.map[*pos];
                    let j = spec_find(w0.storage, id);
                    &&& w1.storage == w0.storage.remove(j)
                    &&& forall|t: Vec2i| #[trigger]
                        w0.storage[j].in_footprint(t) ==> !w1.map.contains_key(t)
                    &&& forall|t: Vec2i| #[trigger]
                        w1.map.contains_key(t) ==> w0.map.contains_key(t) && w1.map[t] == w0.map[t]
                    &&& forall|t: Vec2i| #[trigger]
                        w0.map.contains_key(t) && !w0.storage[j].in_footprint(t)
                            ==> w1.map.contains_key(t)
                    &&& (forall|f: BuildingId|
                        #[trigger] w1.graph.contains_key(f) <==> (w0.graph.contains_key(f) && f
                            != id && w0.graph[f].filter(|e: ConnectionEdge| e.to_id != id).len()
                            > 0))
                    &&& (forall|f: BuildingId|
                        w1.graph.contains_key(f) ==> w1.graph[f] == w0.graph[f].filter(
                            |e: ConnectionEdge| e.to_id != id,
                        ))
                    &&& (forall|k: CounterKey|
                        #[trigger] w1.counters.contains_key(k) <==> (w0.counters.contains_key(k)
                            && k.0 != id))
                    &&& (forall|k: CounterKey|
                        w1.counters.contains_key(k) ==> w1.counters[k] == w0.counters[k])
                    &&& w1.events == w0.events.push(
                        WorldEventView::BuildingRemoved { id, pos: *pos },
                    )
                    &&& w1.next_id == w0.next_id
                    &&& w1.score == w0.score
                }
            }),
    {
        let ghost w0 = self@;
        let found = self.map.get(pos);
        match found {
            None => {},
            Some(id) => {
                let ji = match self.storage.index_of(id) {
                    Some(j) => j,
                    None => {
                        proof {
                            assert(false);
                        }
                        vstd::pervasive::unreached()
                    },
                };
                let ghost bj = self@.storage[ji as int];
                proof {
                    assert(bj.wf());
                    crate::building::lemma_footprint_seq(bj);
                }
                let tiles = self.storage.building_at(ji).footprint_tiles();
                let nt = tiles.len();
                let mut i: usize = 0;
                while i < nt
                    invariant
                        self.storage.wf(),
                        self.map.wf(),
                        self.graph.wf(),
                        self.route_counters.wf(),
                        self@.storage == w0.storage,
                        self@.graph == w0.graph,
                        self@.counters == w0.counters,
                        self@.events == w0.events,
                        self@.next_id == w0.next_id,
                        self@.score == w0.score,
                        tiles@ == bj.footprint_seq(),
                        forall|t: Vec2i| #[trigger]
                            bj.footprint_seq().contains(t) <==> bj.in_footprint(t),
                        nt == tiles@.len(),
                        i <= nt,
                        forall|t: Vec2i| #[trigger]
                            self@.map.contains_key(t) ==> w0.map.contains_key(t) && self@.map[t]
                                == w0.map[t],
                        forall|l: int|
                            0 <= l < i ==> !self@.map.contains_key(#[trigger] tiles@[l]),
                        forall|t: Vec2i| #[trigger]
                            w0.map.contains_key(t) && !self@.map.contains_key(t) ==> exists|l: int|
                                0 <= l < i && tiles@[l] == t,
                    decreases nt - i,
                {
                    let ghost m0 = self@.map;
                    self.map.remove(&tiles[i]);
                    proof {
                        assert(self@.map == m0.remove(tiles@[i as int]));
                        assert forall|t: Vec2i| #[trigger]
                            self@.map.contains_key(t) implies w0.map.contains_key(t)
                            && self@.map[t] == w0.map[t] by {
                            assert(m0.contains_key(t) && m0[t] == self@.map[t]);
                        }
                    }
                    i = i + 1;
                }
                self.storage.remove(id);
                self.graph.remove_node(id);
                self.route_counters.retain_not_id(id);
                let ghost w2 = self@;
                self.events.push(WorldEvent::BuildingRemoved { id, pos: *pos });
                proof {
                    assert(event_views(self.events@) =~= w2.events.push(
                        WorldEventView::BuildingRemoved { id, pos: *pos },
                    ));
                    let j = ji as int;
                    let w1 = self@;
                    assert(w1.storage == w0.storage.remove(j));
                    // The footprint of the removed structure is exactly what
                    // left the map.
                    assert forall|t: Vec2i| #[trigger]
                        w0.storage[j].in_footprint(t) implies !w1.map.contains_key(t) by {
                        assert(bj.footprint_seq().contains(t));
                        let l = choose|l: int| 0 <= l < tiles@.len() && tiles@[l] == t;
                    }
                    // Remaining structures: indices shift across the removal.
                    assert forall|a: int|
                        0 <= a < w1.storage.len() implies (#[trigger] w1.storage[a]).wf()
                        && w1.storage[a].id < w1.next_id && (a < j ==> w1.storage[a]
                        == w0.storage[a]) && (a >= j ==> w1.storage[a] == w0.storage[a + 1]) by {
                        if a < j {
                            assert(w0.storage[a].wf());
                        } else {
                            assert(w0.storage[a + 1].wf());
                        }
                    }
                    // Occupancy invariant, both directions.
                    assert forall|t: Vec2i| #[trigger]
                        w1.map.contains_key(t) implies spec_find(w1.storage, w1.map[t]) != -1
                        && w1.storage[spec_find(w1.storage, w1.map[t])].in_footprint(t) by {
                        let oid = w1.map[t];
                        assert(w0.map.contains_key(t) && w0.map[t] == oid);
                        let j2 = spec_find(w0.storage, oid);
                        lemma_spec_find(w0.storage, oid);
                        assert(j2 != -1 && w0.storage[j2].in_footprint(t));
                        assert(j2 != j) by {
                            if j2 == j {
                                assert(w0.storage[j].in_footprint(t));
                                assert(!w1.map.contains_key(t));
                            }
                        }
                        let a = if j2 < j {
                            j2
                        } else {
                            j2 - 1
                        };
                        assert(w1.storage[a] == w0.storage[j2]);
                        lemma_spec_find(w1.storage, oid);
                        assert(spec_find(w1.storage, oid) != -1) by {
                            if spec_find(w1.storage, oid) == -1 {
                                assert(w1.storage[a].id != oid);
                            }
                        }
                        let f1 = spec_find(w1.storage, oid);
                        assert(w1.storage[f1].id == oid);
                        assert(w1.storage[f1] == w0.storage[j2]) by {
                            if f1 < j {
                                assert(w1.storage[f1] == w0.storage[f1]);
                                if f1 != j2 {
                                    assert(w0.storage[f1].id != w0.storage[j2].id);
                                }
                            } else {
                                assert(w1.storage[f1] == w0.storage[f1 + 1]);
                                if f1 + 1 != j2 {
                                    assert(w0.storage[f1 + 1].id != w0.storage[j2].id);
                                }
                            }
                        }
                    }
                    assert forall|a: int, t: Vec2i|
                        0 <= a < w1.storage.len() && #[trigger] w1.storage[a].in_footprint(
                            t,
                        ) implies w1.map.contains_key(t) && w1.map[t] == w1.storage[a].id by {
                        let a2 = if a < j {
                            a
                        } else {
                            a + 1
                        };
                        assert(w1.storage[a] == w0.storage[a2]);
                        assert(w0.storage[a2].in_footprint(t));
                        assert(w0.map.contains_key(t) && w0.map[t] == w0.storage[a2].id);
                        assert(w1.map.contains_key(t)) by {
                            if !w1.map.contains_key(t) {
                                let l = choose|l: int|
                                    0 <= l < nt && tiles@[l] == t && !w1.map.contains_key(t);
                                assert(bj.footprint_seq().contains(t));
                                assert(bj.in_footprint(t));
                                assert(w0.map[t] == bj.id);
                                assert(w0.storage[a2].id != bj.id) by {
                                    assert(a2 != j);
                                }
                            }
                        }
                    }
                    assert(self.wf());
                }
            },
        }
    }
}

// ---------------------------------------------------------------------
// The per-tick update algorithm, phase by phase.
// ---------------------------------------------------------------------

/// Phase one: every structure advanced by `delta`.
pub open spec fn spec_advance_storage(s: Seq<BuildingView>, delta: u64) -> Seq<BuildingView> {
    s.map_values(|b: BuildingView| b.advanced(delta))
}

/// Phase one's progress events, in storage order: one event per structure
/// whose displayed progress changed.
pub open spec fn spec_advance_events(s: Seq<BuildingView>, delta: u64) -> Seq<WorldEventView>
    decreases s.len(),
{
    if s.len() == 0 {
        Seq::empty()
    } else {
        let pre = spec_advance_events(s.drop_last(), delta);
        let b = s.last();
        let nb = b.advanced(delta);
        if nb.progress() != b.progress() {
            pre.push(WorldEventView::BuildingProgressUpdated { id: b.id, progress: nb.progress() })
        } else {
            pre
        }
    }
}

/// One round-robin pick from a bucket: the edge at the cursor (modulo the
/// bucket length), with the cursor advanced; an empty bucket yields
/// nothing and leaves every cursor alone.
pub open spec fn spec_rr_select(
    from_id: BuildingId,
    role: OutputRole,
    counters: Map<CounterKey, u64>,
    edges: Seq<ConnectionEdge>,
) -> (Option<ConnectionEdge>, Map<CounterKey, u64>) {
    if edges.len() == 0 {
        (None, counters)
    } else {
        let cursor = counter_of(counters, (from_id, role));
        let index = (cursor as int) % (edges.len() as int);
        let bumped = if cursor == u64::MAX {
            0int
        } else {
            cursor as int + 1
        };
        (
            Some(edges[index]),
            counters.insert((from_id, role), (bumped % (edges.len() as int)) as u64),
        )
    }
}

/// The bucket a source tries first: match or mismatch for a classified
/// filter packet, default for everything else.
pub open spec fn spec_primary_role(b: BuildingView, filter_result: Option<bool>) -> OutputRole {
    if b.btype().spec_is_filter() {
        match filter_result {
            Some(true) => OutputRole::FilterMatch,
            Some(false) => OutputRole::FilterMismatch,
            None => OutputRole::Default,
        }
    } else {
        OutputRole::Default
    }
}

/// The bucket belonging to a role.
pub open spec fn spec_bucket_for(
    role: OutputRole,
    defaults: Seq<ConnectionEdge>,
    matches: Seq<ConnectionEdge>,
    mismatches: Seq<ConnectionEdge>,
) -> Seq<ConnectionEdge> {
    match role {
        OutputRole::Default => defaults,
        OutputRole::FilterMatch => matches,
        OutputRole::FilterMismatch => mismatches,
    }
}

/// Edge selection with fallback: the primary bucket first, then default,
/// match and mismatch in that order, each by the round-robin rule, with
/// the cursor map threaded through the probes.
pub open spec fn spec_select_edge(
    from_id: BuildingId,
    primary: OutputRole,
    counters: Map<CounterKey, u64>,
    defaults: Seq<ConnectionEdge>,
    matches: Seq<ConnectionEdge>,
    mismatches: Seq<ConnectionEdge>,
) -> (Option<ConnectionEdge>, Map<CounterKey, u64>) {
    let r1 = spec_rr_select(
        from_id,
        primary,
        counters,
        spec_bucket_for(primary, defaults, matches, mismatches),
    );
    if r1.0 is Some {
        r1
    } else {
        let r2 = spec_rr_select(from_id, OutputRole::Default, r1.1, defaults);
        if r2.0 is Some {
            r2
        } else {
            let r3 = spec_rr_select(from_id, OutputRole::FilterMatch, r2.1, matches);
            if r3.0 is Some {
                r3
            } else {
                spec_rr_select(from_id, OutputRole::FilterMismatch, r3.1, mismatches)
            }
        }
    }
}

/// Whether an edge's target still exists in the registry.
pub open spec fn spec_live_edge(storage: Seq<BuildingView>, e: ConnectionEdge) -> bool {
    spec_find(storage, e.to_id) != -1
}

/// Whether an edge's target exists and currently accepts the packet from
/// the source's position.
pub open spec fn spec_accepting_edge(
    storage: Seq<BuildingView>,
    e: ConnectionEdge,
    p: PacketView,
    src: Vec2i,
) -> bool {
    spec_live_edge(storage, e) && storage[spec_find(storage, e.to_id)].accepts(p, src)
}

/// The accepting edges of one role, in bucket order.
pub open spec fn spec_role_bucket(
    storage: Seq<BuildingView>,
    edges: Seq<ConnectionEdge>,
    p: PacketView,
    src: Vec2i,
    role: OutputRole,
) -> Seq<ConnectionEdge> {
    edges.filter(|e: ConnectionEdge| spec_accepting_edge(storage, e, p, src) && e.role == role)
}

/// Phase two, one source: if it can offload, classify its next packet,
/// partition its edges into accepting role buckets, and select a
/// destination; without a bucket (or without any surviving target, or
/// with targets that were filtered out for another reason) the packet is
/// marked for a forced drop, while a full set of merely busy targets
/// leaves it queued.
pub open spec fn spec_decide_step(
    storage: Seq<BuildingView>,
    graph: Map<BuildingId, Seq<ConnectionEdge>>,
    counters: Map<CounterKey, u64>,
    b: BuildingView,
) -> (Option<(BuildingId, ConnectionEdge)>, Option<BuildingId>, Map<CounterKey, u64>) {
    if !b.can_offload() {
        (None, None, counters)
    } else {
        let p = b.peek()->Some_0;
        let fr = b.filter_result(p);
        if !graph.contains_key(b.id) {
            (None, Some(b.id), counters)
        } else {
            let edges = graph[b.id];
            let defaults = spec_role_bucket(storage, edges, p, b.pos, OutputRole::Default);
            let matches = spec_role_bucket(storage, edges, p, b.pos, OutputRole::FilterMatch);
            let mismatches = spec_role_bucket(storage, edges, p, b.pos, OutputRole::FilterMismatch);
            let sel = spec_select_edge(
                b.id,
                spec_primary_role(b, fr),
                counters,
                defaults,
                matches,
                mismatches,
            );
            if sel.0 is Some {
                (Some((b.id, sel.0->Some_0)), None, sel.1)
            } else {
                let has_targets = exists|l: int|
                    0 <= l < edges.len() && spec_live_edge(storage, #[trigger] edges[l]);
                let has_accepting = exists|l: int|
                    0 <= l < edges.len() && spec_accepting_edge(
                        storage,
                        #[trigger] edges[l],
                        p,
                        b.pos,
                    );
                if !has_targets {
                    (None, Some(b.id), sel.1)
                } else if !has_accepting {
                    (None, None, sel.1)
                } else {
                    (None, Some(b.id), sel.1)
                }
            }
        }
    }
}

/// Phase two over the first `k` sources, in ascending storage (and so
/// ascending id) order.
pub open spec fn spec_decide(
    storage: Seq<BuildingView>,
    graph: Map<BuildingId, Seq<ConnectionEdge>>,
    counters0: Map<CounterKey, u64>,
    k: int,
) -> (Seq<(BuildingId, ConnectionEdge)>, Seq<BuildingId>, Map<CounterKey, u64>)
    decreases k,
{
    if k <= 0 {
        (Seq::empty(), Seq::empty(), counters0)
    } else {
        let prev = spec_decide(storage, graph, counters0, k - 1);
        let step = spec_decide_step(storage, graph, prev.2, storage[k - 1]);
        (
            match step.0 {
                Some(d) => prev.0.push(d),
                None => prev.0,
            },
            match step.1 {
                Some(r) => prev.1.push(r),
                None => prev.1,
            },
            step.2,
        )
    }
}

/// Phase three, one decision: with both endpoints still present, distinct
/// and the source still ready, the packet moves and a movement event is
/// appended; anything else is skipped.
pub open spec fn spec_commit_step(
    storage: Seq<BuildingView>,
    events: Seq<WorldEventView>,
    from_id: BuildingId,
    edge: ConnectionEdge,
) -> (Seq<BuildingView>, Seq<WorldEventView>) {
    let fi = spec_find(storage, from_id);
    let ti = spec_find(storage, edge.to_id);
    if fi == -1 || ti == -1 || from_id == edge.to_id {
        (storage, events)
    } else if !storage[fi].can_offload() {
        (storage, events)
    } else {
        let p = storage[fi].peek()->Some_0;
        let src = storage[fi].pos;
        let s1 = storage.update(fi, storage[fi].offloaded());
        let s2 = s1.update(ti, s1[ti].accepted(p, src));
        (
            s2,
            events.push(
                WorldEventView::PacketMoved {
                    packet: p,
                    from_id,
                    to_id: edge.to_id,
                    progress_start: p.progress,
                },
            ),
        )
    }
}

/// Phase three over the first `k` decisions.
pub open spec fn spec_commit(
    storage: Seq<BuildingView>,
    events: Seq<WorldEventView>,
    decisions: Seq<(BuildingId, ConnectionEdge)>,
    k: int,
) -> (Seq<BuildingView>, Seq<WorldEventView>)
    decreases k,
{
    if k <= 0 {
        (storage, events)
    } else {
        let prev = spec_commit(storage, events, decisions, k - 1);
        spec_commit_step(prev.0, prev.1, decisions[k - 1].0, decisions[k - 1].1)
    }
}

/// Phase four, one marked source: if it still holds a ready packet and is
/// not the discarding sink, the packet is removed and thrown away.
pub open spec fn spec_drop_step(storage: Seq<BuildingView>, id: BuildingId) -> Seq<BuildingView> {
    let j = spec_find(storage, id);
    if j == -1 {
        storage
    } else if storage[j].btype() != BuildingType::RecycleBin && storage[j].can_offload() {
        storage.update(j, storage[j].offloaded())
    } else {
        storage
    }
}

/// Phase four over the first `k` marked sources.
pub open spec fn spec_drops(storage: Seq<BuildingView>, drops: Seq<BuildingId>, k: int) -> Seq<
    BuildingView,
>
    decreases k,
{
    if k <= 0 {
        storage
    } else {
        spec_drop_step(spec_drops(storage, drops, k - 1), drops[k - 1])
    }
}

/// One whole tick: advance, decide, commit, forced drops. The map, graph,
/// id allocator and score are untouched; the cursors are those phase two
/// left behind, and the event log grows by the progress and movement
/// events.
pub open spec fn spec_tick(w: WorldView, delta: u64) -> WorldView {
    let s1 = spec_advance_storage(w.storage, delta);
    let ev1 = w.events + spec_advance_events(w.storage, delta);
    let d = spec_decide(s1, w.graph, w.counters, s1.len() as int);
    let c = spec_commit(s1, ev1, d.0, d.0.len() as int);
    let s3 = spec_drops(c.0, d.1, d.1.len() as int);
    WorldView { storage: s3, events: c.1, counters: d.2, ..w }
}

/// One round-robin pick from a bucket, advancing the stored cursor.
fn rr_select(
    counters: &mut RouteCounters,
    from_id: BuildingId,
    role: OutputRole,
    edges: &Vec<ConnectionEdge>,
) -> (r: Option<ConnectionEdge>)
    requires
        old(counters).wf(),
    ensures
        final(counters).wf(),
        (r, final(counters)@) == spec_rr_select(from_id, role, old(counters)@, edges@),
{
    let len = edges.len();
    if len == 0 {
        return None;
    }
    let cursor = counters.get((from_id, role));
    let index = (cursor % (len as u64)) as usize;
    let edge = edges[index];
    let bumped = if cursor == u64::MAX {
        0
    } else {
        cursor + 1
    };
    counters.set((from_id, role), bumped % (len as u64));
    Some(edge)
}

/// Edge selection with fallback across the four bucket probes.
fn select_edge_for_building(
    counters: &mut RouteCounters,
    from_id: BuildingId,
    primary: OutputRole,
    defaults: &Vec<ConnectionEdge>,
    matches: &Vec<ConnectionEdge>,
    mismatches: &Vec<ConnectionEdge>,
) -> (r: Option<ConnectionEdge>)
    requires
        old(counters).wf(),
    ensures
        final(counters).wf(),
        (r, final(counters)@) == spec_select_edge(
            from_id,
            primary,
            old(counters)@,
            defaults@,
            matches@,
            mismatches@,
        ),
{
    let primary_bucket = match primary {
        OutputRole::Default => defaults,
        OutputRole::FilterMatch => matches,
        OutputRole::FilterMismatch => mismatches,
    };
    let r1 = rr_select(counters, from_id, primary, primary_bucket);
    match r1 {
        Some(e) => Some(e),
        None => {
            let r2 = rr_select(counters, from_id, OutputRole::Default, defaults);
            match r2 {
                Some(e) => Some(e),
                None => {
                    let r3 = rr_select(counters, from_id, OutputRole::FilterMatch, matches);
                    match r3 {
                        Some(e) => Some(e),
                        None => rr_select(counters, from_id, OutputRole::FilterMismatch, mismatches),
                    }
                },
            }
        },
    }
}

/// The occupancy invariant and id bound transfer between two registries
/// whose entries pairwise agree on identity, position and kind.
proof fn lemma_occupancy_shape(
    s0: Seq<BuildingView>,
    s1: Seq<BuildingView>,
    m: Map<Vec2i, BuildingId>,
    nid: BuildingId,
)
    requires
        s0.len() == s1.len(),
        forall|a: int| 0 <= a < s0.len() ==> same_shape(s0[a], #[trigger] s1[a]),
        forall|t: Vec2i| #[trigger]
            m.contains_key(t) ==> spec_find(s0, m[t]) != -1 && s0[spec_find(s0, m[t])].in_footprint(
                t,
            ),
        forall|a: int, t: Vec2i|
            0 <= a < s0.len() && #[trigger] s0[a].in_footprint(t) ==> m.contains_key(t) && m[t]
                == s0[a].id,
        forall|a: int| 0 <= a < s0.len() ==> (#[trigger] s0[a]).id < nid,
    ensures
        forall|t: Vec2i| #[trigger]
            m.contains_key(t) ==> spec_find(s1, m[t]) != -1 && s1[spec_find(s1, m[t])].in_footprint(
                t,
            ),
        forall|a: int, t: Vec2i|
            0 <= a < s1.len() && #[trigger] s1[a].in_footprint(t) ==> m.contains_key(t) && m[t]
                == s1[a].id,
        forall|a: int| 0 <= a < s1.len() ==> (#[trigger] s1[a]).id < nid,
{
    assert forall|t: Vec2i| #[trigger]
        m.contains_key(t) implies spec_find(s1, m[t]) != -1 && s1[spec_find(
        s1,
        m[t],
    )].in_footprint(t) by {
        crate::building_storage::lemma_spec_find_same_ids(s0, s1, m[t]);
        lemma_spec_find(s0, m[t]);
        let j = spec_find(s0, m[t]);
        assert(same_shape(s0[j], s1[j]));
        assert(s1[j].in_footprint(t) == s0[j].in_footprint(t));
    }
    assert forall|a: int, t: Vec2i|
        0 <= a < s1.len() && #[trigger] s1[a].in_footprint(t) implies m.contains_key(t) && m[t]
        == s1[a].id by {
        assert(same_shape(s0[a], s1[a]));
        assert(s0[a].in_footprint(t) == s1[a].in_footprint(t));
    }
}

impl World {
    /// Run one simulation tick of `delta` microseconds: advance every
    /// structure, decide transfers read-only against the advanced state,
    /// commit the decided moves, then force-drop packets whose source has
    /// nowhere left to send.
    #[verifier::rlimit(100)]
    pub fn update(&mut self, delta: u64)
        requires
            old(self).wf(),
        ensures
            final(self).wf(),
            final(self)@ == spec_tick(old(self)@, delta),
    {
        let ghost w0 = self@;
        let ghost s0 = self@.storage;
        let n = self.storage.len();
        // Phase one: advance.
        let mut i: usize = 0;
        while i < n
            invariant
                self.storage.wf(),
                self.map.wf(),
                self.graph.wf(),
                self.route_counters.wf(),
                n == s0.len(),
                i <= n,
                self@.storage.len() == n,
                self@.map == w0.map,
                self@.graph == w0.graph,
                self@.counters == w0.counters,
                self@.next_id == w0.next_id,
                self@.score == w0.score,
                forall|a: int| i <= a < n ==> self@.storage[a] == s0[a],
                forall|a: int| 0 <= a < i ==> self@.storage[a] == s0[a].advanced(delta),
                self@.events == w0.events + spec_advance_events(s0.take(i as int), delta),
            decreases n - i,
        {
            let old_p = self.storage.building_at(i).get_progress();
            let bid = self.storage.building_at(i).id;
            proof {
                assert(bid == s0[i as int].id);
            }
            self.storage.update_at(i, delta);
            let new_p = self.storage.building_at(i).get_progress();
            proof {
                assert(s0.take(i + 1).drop_last() =~= s0.take(i as int));
                assert(s0.take(i + 1).last() == s0[i as int]);
            }
            if new_p != old_p {
                let ghost ev_pre = self@.events;
                self.events.push(
                    WorldEvent::BuildingProgressUpdated { id: bid, progress: new_p },
                );
                proof {
                    assert(event_views(self.events@) =~= ev_pre.push(
                        WorldEventView::BuildingProgressUpdated { id: bid, progress: new_p },
                    ));
                }
            }
            i = i + 1;
        }
        let ghost s1 = spec_advance_storage(s0, delta);
        let ghost ev1 = w0.events + spec_advance_events(s0, delta);
        proof {
            assert(s0.take(n as int) =~= s0);
            assert(self@.storage =~= s1);
            assert(self@.events == ev1);
            assert forall|a: int| 0 <= a < n implies same_shape(s0[a], #[trigger] s1[a]) by {
                crate::building::lemma_shape_advanced(s0[a], delta);
            }
        }
        // Phase two: decide, read-only against the advanced state.
        let mut decisions: Vec<(BuildingId, ConnectionEdge)> = Vec::new();
        let mut drops: Vec<BuildingId> = Vec::new();
        let ghost c0 = self@.counters;
        let mut i: usize = 0;
        while i < n
            invariant
                self.storage.wf(),
                self.map.wf(),
                self.graph.wf(),
                self.route_counters.wf(),
                n == s1.len(),
                i <= n,
                self@.storage == s1,
                self@.map == w0.map,
                self@.graph == w0.graph,
                self@.next_id == w0.next_id,
                self@.score == w0.score,
                self@.events == ev1,
                decisions@ == spec_decide(s1, w0.graph, c0, i as int).0,
                drops@ == spec_decide(s1, w0.graph, c0, i as int).1,
                self@.counters == spec_decide(s1, w0.graph, c0, i as int).2,
            decreases n - i,
        {
            let ghost pre = spec_decide(s1, w0.graph, c0, i as int);
            let ghost bview = s1[i as int];
            let ghost step = spec_decide_step(s1, w0.graph, pre.2, bview);
            let can = self.storage.building_at(i).can_offload();
            if can {
                let from_id = self.storage.building_at(i).id;
                let src_pos = self.storage.building_at(i).pos;
                let packet = match self.storage.building_at(i).peek_packet() {
                    Some(p) => p.clone(),
                    None => {
                        proof {
                            crate::building::lemma_can_offload_peek(bview);
                        }
                        vstd::pervasive::unreached()
                    },
                };
                let ghost pv = packet@;
                proof {
                    crate::building::lemma_can_offload_peek(bview);
                    assert(pv == bview.peek()->Some_0);
                }
                let fr = self.storage.building_at(i).filter_result(&packet);
                let mut defaults: Vec<ConnectionEdge> = Vec::new();
                let mut matches: Vec<ConnectionEdge> = Vec::new();
                let mut mismatches: Vec<ConnectionEdge> = Vec::new();
                let mut has_targets = false;
                let mut has_accepting = false;
                let mut got_bucket = false;
                let ghost edges0 = if w0.graph.contains_key(from_id) {
                    w0.graph[from_id]
                } else {
                    Seq::empty()
                };
                match self.graph.get_outputs(from_id) {
                    None => {},
                    Some(edges_ref) => {
                        got_bucket = true;
                        let m = edges_ref.len();
                        let mut k: usize = 0;
                        while k < m
                            invariant
                                self.storage.wf(),
                                self@.storage == s1,
                                edges_ref@ == edges0,
                                m == edges0.len(),
                                k <= m,
                                pv == packet@,
                                src_pos == bview.pos,
                                defaults@ == spec_role_bucket(
                                    s1,
                                    edges0.take(k as int),
                                    pv,
                                    src_pos,
                                    OutputRole::Default,
                                ),
                                matches@ == spec_role_bucket(
                                    s1,
                                    edges0.take(k as int),
                                    pv,
                                    src_pos,
                                    OutputRole::FilterMatch,
                                ),
                                mismatches@ == spec_role_bucket(
                                    s1,
                                    edges0.take(k as int),
                                    pv,
                                    src_pos,
                                    OutputRole::FilterMismatch,
                                ),
                                has_targets == exists|l: int|
                                    0 <= l < k && spec_live_edge(s1, #[trigger] edges0[l]),
                                has_accepting == exists|l: int|
                                    0 <= l < k && spec_accepting_edge(
                                        s1,
                                        #[trigger] edges0[l],
                                        pv,
                                        src_pos,
                                    ),
                            decreases m - k,
                        {
                            let e = edges_ref[k];
                            let ghost pd = |e: ConnectionEdge|
                                spec_accepting_edge(s1, e, pv, src_pos) && e.role
                                    == OutputRole::Default;
                            let ghost pm = |e: ConnectionEdge|
                                spec_accepting_edge(s1, e, pv, src_pos) && e.role
                                    == OutputRole::FilterMatch;
                            let ghost pmm = |e: ConnectionEdge|
                                spec_accepting_edge(s1, e, pv, src_pos) && e.role
                                    == OutputRole::FilterMismatch;
                            proof {
                                assert(edges0.take(k + 1) =~= edges0.take(k as int).push(e));
                                edges0.take(k as int).lemma_filter_push(e, pd);
                                edges0.take(k as int).lemma_filter_push(e, pm);
                                edges0.take(k as int).lemma_filter_push(e, pmm);
                            }
                            match self.storage.get(e.to_id) {
                                Some(to_b) => {
                                    has_targets = true;
                                    proof {
                                        assert(to_b@ == s1[spec_find(s1, e.to_id)]);
                                        lemma_spec_find(s1, e.to_id);
                                        assert(self@.storage[spec_find(s1, e.to_id)].wf());
                                        assert(to_b@.wf());
                                    }
                                    if to_b.can_accept(&packet, src_pos) {
                                        has_accepting = true;
                                        match e.role {
                                            OutputRole::Default => defaults.push(e),
                                            OutputRole::FilterMatch => matches.push(e),
                                            OutputRole::FilterMismatch => mismatches.push(e),
                                        }
                                    }
                                },
                                None => {},
                            }
                            k = k + 1;
                        }
                        proof {
                            assert(edges0.take(m as int) =~= edges0);
                        }
                    },
                }
                if !got_bucket {
                    drops.push(from_id);
                    proof {
                        assert(step == (
                            None::<(BuildingId, ConnectionEdge)>,
                            Some(from_id),
                            pre.2,
                        ));
                    }
                } else {
                    let bt = self.storage.building_at(i).building_type();
                    let primary = if bt.is_filter() {
                        match fr {
                            Some(true) => OutputRole::FilterMatch,
                            Some(false) => OutputRole::FilterMismatch,
                            None => OutputRole::Default,
                        }
                    } else {
                        OutputRole::Default
                    };
                    proof {
                        assert(primary == spec_primary_role(bview, fr));
                    }
                    let sel = select_edge_for_building(
                        &mut self.route_counters,
                        from_id,
                        primary,
                        &defaults,
                        &matches,
                        &mismatches,
                    );
                    match sel {
                        Some(edge) => {
                            decisions.push((from_id, edge));
                        },
                        None => {
                            if !has_targets {
                                drops.push(from_id);
                            } else if !has_accepting {
                            } else {
                                drops.push(from_id);
                            }
                        },
                    }
                }
            }
            proof {
                assert(decisions@ == spec_decide(s1, w0.graph, c0, i + 1).0);
                assert(drops@ == spec_decide(s1, w0.graph, c0, i + 1).1);
                assert(self@.counters == spec_decide(s1, w0.graph, c0, i + 1).2);
            }
            i = i + 1;
        }
        let ghost dfull = spec_decide(s1, w0.graph, c0, n as int);
        // Phase three: commit.
        let nd = decisions.len();
        let ghost dseq = decisions@;
        let mut di: usize = 0;
        while di < nd
            invariant
                self.storage.wf(),
                self.map.wf(),
                self.graph.wf(),
                self.route_counters.wf(),
                nd == dseq.len(),
                di <= nd,
                decisions@ == dseq,
                self@.map == w0.map,
                self@.graph == w0.graph,
                self@.next_id == w0.next_id,
                self@.score == w0.score,
                self@.counters == dfull.2,
                self@.storage == spec_commit(s1, ev1, dseq, di as int).0,
                self@.events == spec_commit(s1, ev1, dseq, di as int).1,
                self@.storage.len() == s1.len(),
                forall|a: int|
                    0 <= a < s1.len() ==> same_shape(s1[a], #[trigger] self@.storage[a]),
            decreases nd - di,
        {
            let ghost pre_storage = self@.storage;
            let ghost pre_events = self@.events;
            let d = decisions[di];
            let from_id = d.0;
            let edge = d.1;
            let fi_opt = self.storage.index_of(from_id);
            let ti_opt = self.storage.index_of(edge.to_id);
            match (fi_opt, ti_opt) {
                (Some(fi), Some(ti)) => {
                    if from_id != edge.to_id {
                        if self.storage.building_at(fi).can_offload() {
                            let src_pos = self.storage.building_at(fi).pos;
                            proof {
                                assert(self@.storage[fi as int].wf());
                                crate::building::lemma_can_offload_peek(pre_storage[fi as int]);
                            }
                            let packet = self.storage.offload_at(fi);
                            let event_packet = packet.clone();
                            let progress_start = packet.progress;
                            proof {
                                crate::building::lemma_shape_offloaded(pre_storage[fi as int]);
                                crate::building::lemma_shape_accepted(
                                    self@.storage[ti as int],
                                    packet@,
                                    src_pos,
                                );
                            }
                            self.storage.accept_at(ti, packet, src_pos);
                            let ghost ev_pre2 = self@.events;
                            self.events.push(
                                WorldEvent::PacketMoved {
                                    packet: event_packet,
                                    from_id,
                                    to_id: edge.to_id,
                                    progress_start,
                                },
                            );
                            proof {
                                assert(event_views(self.events@) =~= ev_pre2.push(
                                    WorldEventView::PacketMoved {
                                        packet: event_packet@,
                                        from_id,
                                        to_id: edge.to_id,
                                        progress_start,
                                    },
                                ));
                            }
                        }
                    }
                },
                _ => {},
            }
            proof {
                assert(self@.storage == spec_commit(s1, ev1, dseq, di + 1).0);
                assert(self@.events == spec_commit(s1, ev1, dseq, di + 1).1);
            }
            di = di + 1;
        }
        let ghost cfull = spec_commit(s1, ev1, dseq, nd as int);
        // Phase four: forced drops.
        let ndr = drops.len();
        let ghost rseq = drops@;
        let mut ki: usize = 0;
        while ki < ndr
            invariant
                self.storage.wf(),
                self.map.wf(),
                self.graph.wf(),
                self.route_counters.wf(),
                ndr == rseq.len(),
                ki <= ndr,
                drops@ == rseq,
                self@.map == w0.map,
                self@.graph == w0.graph,
                self@.next_id == w0.next_id,
                self@.score == w0.score,
                self@.counters == dfull.2,
                self@.events == cfull.1,
                self@.storage == spec_drops(cfull.0, rseq, ki as int),
                self@.storage.len() == s1.len(),
                forall|a: int|
                    0 <= a < s1.len() ==> same_shape(s1[a], #[trigger] self@.storage[a]),
            decreases ndr - ki,
        {
            let ghost pre_storage = self@.storage;
            let id = drops[ki];
            match self.storage.index_of(id) {
                Some(j) => {
                    let bt = self.storage.building_at(j).building_type();
                    let can = self.storage.building_at(j).can_offload();
                    if !(bt == BuildingType::RecycleBin) && can {
                        proof {
                            crate::building::lemma_shape_offloaded(pre_storage[j as int]);
                        }
                        let _dropped = self.storage.offload_at(j);
                    }
                },
                None => {},
            }
            proof {
                assert(self@.storage == spec_drops(cfull.0, rseq, ki + 1));
            }
            ki = ki + 1;
        }
        proof {
            assert(self@ =~= spec_tick(w0, delta)) by {
                assert(self@.storage == spec_tick(w0, delta).storage);
                assert(self@.events == spec_tick(w0, delta).events);
                assert(self@.counters == spec_tick(w0, delta).counters);
            }
            lemma_occupancy_shape(s0, self@.storage, w0.map, w0.next_id);
            assert(self.wf());
        }
    }
}

impl World {
    /// Take the whole event log, leaving it empty; each event is handed
    /// out exactly once.
    pub fn drain_events(&mut self) -> (r: Vec<WorldEvent>)
        requires
            old(self).wf(),
        ensures
            final(self).wf(),
            event_views(r@) == old(self)@.events,
            final(self)@ == (WorldView { events: Seq::empty(), ..old(self)@ }),
    {
        let mut out: Vec<WorldEvent> = Vec::new();
        core::mem::swap(&mut out, &mut self.events);
        proof {
            assert(event_views(self.events@) =~= Seq::<WorldEventView>::empty());
            assert(self@ =~= (WorldView { events: Seq::empty(), ..old(self)@ }));
        }
        out
    }

    /// Read access to the structure registry.
    pub fn storage(&self) -> (r: &BuildingStorage)
        ensures
            r@ == self@.storage,
            self.wf() ==> r.wf(),
    {
        &self.storage
    }

    /// Number of placed structures.
    pub fn building_count(&self) -> (r: usize)
        ensures
            r == self@.storage.len(),
    {
        self.storage.len()
    }

    /// The structure with `id`, if it is placed.
    pub fn get_building(&self, id: BuildingId) -> (r: Option<&Building>)
        ensures
            match r {
                Some(b) => spec_find(self@.storage, id) != -1 && b@ == self@.storage[spec_find(
                    self@.storage,
                    id,
                )],
                None => spec_find(self@.storage, id) == -1,
            },
    {
        self.storage.get(id)
    }

    /// The outgoing edge bucket of `from_id`, if the graph has one.
    pub fn get_output_connections(&self, from_id: BuildingId) -> (r: Option<&Vec<ConnectionEdge>>)
        requires
            self.wf(),
        ensures
            match r {
                Some(v) => self@.graph.contains_key(from_id) && v@ == self@.graph[from_id],
                None => !self@.graph.contains_key(from_id),
            },
    {
        self.graph.get_outputs(from_id)
    }

    /// The id occupying a tile, if any.
    pub fn get_building_id_at(&self, pos: &Vec2i) -> (r: Option<BuildingId>)
        requires
            self.wf(),
        ensures
            r == if self@.map.contains_key(*pos) {
                Some(self@.map[*pos])
            } else {
                None::<BuildingId>
            },
    {
        self.map.get(pos)
    }

    /// Replace the configuration of the filter with `id`. Fails (leaving
    /// everything unchanged) when the id is unknown, not a filter, or a
    /// filter of another kind.
    pub fn set_filter_rule(&mut self, id: BuildingId, config: FilterConfig) -> (r: bool)
        requires
            old(self).wf(),
        ensures
            final(self).wf(),
            ({
                let j = spec_find(old(self)@.storage, id);
                let ok = j != -1 && match old(self)@.storage[j].state {
                    BuildingStateView::Filter { config: c, .. } => crate::building::same_filter_kind(
                        c,
                        config,
                    ),
                    _ => false,
                };
                &&& r == ok
                &&& if ok {
                    final(self)@ == (WorldView {
                        storage: old(self)@.storage.update(
                            j,
                            (BuildingView {
                                state: BuildingStateView::Filter {
                                    config,
                                    buffer: old(self)@.storage[j].state->Filter_buffer,
                                },
                                ..old(self)@.storage[j]
                            }),
                        ),
                        ..old(self)@
                    })
                } else {
                    final(self)@ == old(self)@
                }
            }),
    {
        let ghost w0 = self@;
        match self.storage.index_of(id) {
            Some(j) => {
                let r = self.storage.set_filter_config_at(j, config);
                proof {
                    if r {
                        let jj = j as int;
                        let nb = (BuildingView {
                            state: BuildingStateView::Filter {
                                config,
                                buffer: w0.storage[jj].state->Filter_buffer,
                            },
                            ..w0.storage[jj]
                        });
                        assert(same_shape(w0.storage[jj], nb));
                        assert forall|a: int|
                            0 <= a < self@.storage.len() implies same_shape(
                            w0.storage[a],
                            #[trigger] self@.storage[a],
                        ) by {}
                        lemma_occupancy_shape(w0.storage, self@.storage, w0.map, w0.next_id);
                        assert(self.wf());
                        assert(self@ =~= (WorldView {
                            storage: w0.storage.update(jj, nb),
                            ..w0
                        }));
                    } else {
                        assert(self@ =~= w0);
                    }
                }
                r
            },
            None => false,
        }
    }

    /// The configuration slot of the filter with `id`.
    pub fn get_filter_rule(&self, id: BuildingId) -> (r: Option<&FilterConfig>)
        ensures
            ({
                let j = spec_find(self@.storage, id);
                match r {
                    Some(c) => j != -1 && match self@.storage[j].state {
                        BuildingStateView::Filter { config, .. } => *c == config,
                        _ => false,
                    },
                    None => j == -1 || !(self@.storage[j].state is Filter),
                }
            }),
    {
        match self.storage.get(id) {
            Some(b) => b.get_filter_config(),
            None => None,
        }
    }

    /// Hand the source with `id` its traffic schedule.
    pub fn set_internet_traffic(&mut self, id: BuildingId, traffic: Traffic) -> (r: bool)
        requires
            old(self).wf(),
        ensures
            final(self).wf(),
            ({
                let j = spec_find(old(self)@.storage, id);
                let ok = j != -1 && old(self)@.storage[j].btype() == BuildingType::Internet;
                &&& r == ok
                &&& if ok {
                    final(self)@ == (WorldView {
                        storage: old(self)@.storage.update(
                            j,
                            (BuildingView {
                                state: BuildingStateView::Internet {
                                    queue: old(self)@.storage[j].state->Internet_queue,
                                    schedule: traffic.packets@,
                                    clock: 0u64,
                                    next_packet_index: 0usize,
                                },
                                ..old(self)@.storage[j]
                            }),
                        ),
                        ..old(self)@
                    })
                } else {
                    final(self)@ == old(self)@
                }
            }),
    {
        let ghost w0 = self@;
        let ghost tv = traffic.packets@;
        match self.storage.index_of(id) {
            Some(j) => {
                let r = self.storage.set_traffic_at(j, traffic);
                proof {
                    if r {
                        let jj = j as int;
                        let nb = (BuildingView {
                            state: BuildingStateView::Internet {
                                queue: w0.storage[jj].state->Internet_queue,
                                schedule: tv,
                                clock: 0u64,
                                next_packet_index: 0usize,
                            },
                            ..w0.storage[jj]
                        });
                        assert(same_shape(w0.storage[jj], nb));
                        assert forall|a: int|
                            0 <= a < self@.storage.len() implies same_shape(
                            w0.storage[a],
                            #[trigger] self@.storage[a],
                        ) by {}
                        lemma_occupancy_shape(w0.storage, self@.storage, w0.map, w0.next_id);
                        assert(self.wf());
                        assert(self@ =~= (WorldView {
                            storage: w0.storage.update(jj, nb),
                            ..w0
                        }));
                    } else {
                        assert(self@ =~= w0);
                    }
                }
                r
            },
            None => false,
        }
    }

    /// Put a packet straight into the release queue of the source with
    /// `id`.
    pub fn add_packet(&mut self, id: BuildingId, packet: Packet) -> (r: bool)
        requires
            old(self).wf(),
        ensures
            final(self).wf(),
            ({
                let j = spec_find(old(self)@.storage, id);
                let ok = j != -1 && old(self)@.storage[j].btype() == BuildingType::Internet;
                &&& r == ok
                &&& if ok {
                    final(self)@ == (WorldView {
                        storage: old(self)@.storage.update(
                            j,
                            (BuildingView {
                                state: BuildingStateView::Internet {
                                    queue: old(self)@.storage[j].state->Internet_queue.push(
                                        packet@,
                                    ),
                                    schedule: old(self)@.storage[j].state->Internet_schedule,
                                    clock: old(self)@.storage[j].state->Internet_clock,
                                    next_packet_index: old(
                                        self,
                                    )@.storage[j].state->Internet_next_packet_index,
                                },
                                ..old(self)@.storage[j]
                            }),
                        ),
                        ..old(self)@
                    })
                } else {
                    final(self)@ == old(self)@
                }
            }),
    {
        let ghost w0 = self@;
        let ghost pv = packet@;
        match self.storage.index_of(id) {
            Some(j) => {
                let r = self.storage.add_packet_at(j, packet);
                proof {
                    if r {
                        let jj = j as int;
                        let nb = (BuildingView {
                            state: BuildingStateView::Internet {
                                queue: w0.storage[jj].state->Internet_queue.push(pv),
                                schedule: w0.storage[jj].state->Internet_schedule,
                                clock: w0.storage[jj].state->Internet_clock,
                                next_packet_index: w0.storage[jj].state->Internet_next_packet_index,
                            },
                            ..w0.storage[jj]
                        });
                        assert(same_shape(w0.storage[jj], nb));
                        assert forall|a: int|
                            0 <= a < self@.storage.len() implies same_shape(
                            w0.storage[a],
                            #[trigger] self@.storage[a],
                        ) by {}
                        lemma_occupancy_shape(w0.storage, self@.storage, w0.map, w0.next_id);
                        assert(self.wf());
                        assert(self@ =~= (WorldView {
                            storage: w0.storage.update(jj, nb),
                            ..w0
                        }));
                    } else {
                        assert(self@ =~= w0);
                    }
                }
                r
            },
            None => false,
        }
    }

    /// Hand a packet directly to the structure with `id`, as if it arrived
    /// from `source_pos`; used to inject traffic in tests and harnesses.
    pub fn accept_packet(&mut self, id: BuildingId, packet: Packet, source_pos: Vec2i) -> (r: bool)
        requires
            old(self).wf(),
            source_pos.in_range(),
        ensures
            final(self).wf(),
            ({
                let j = spec_find(old(self)@.storage, id);
                &&& r == (j != -1)
                &&& if j != -1 {
                    final(self)@ == (WorldView {
                        storage: old(self)@.storage.update(
                            j,
                            old(self)@.storage[j].accepted(packet@, source_pos),
                        ),
                        ..old(self)@
                    })
                } else {
                    final(self)@ == old(self)@
                }
            }),
    {
        let ghost w0 = self@;
        let ghost pv = packet@;
        match self.storage.index_of(id) {
            Some(j) => {
                self.storage.accept_at(j, packet, source_pos);
                proof {
                    let jj = j as int;
                    crate::building::lemma_shape_accepted(w0.storage[jj], pv, source_pos);
                    assert forall|a: int|
                        0 <= a < self@.storage.len() implies same_shape(
                        w0.storage[a],
                        #[trigger] self@.storage[a],
                    ) by {}
                    lemma_occupancy_shape(w0.storage, self@.storage, w0.map, w0.next_id);
                    assert(self.wf());
                    assert(self@ =~= (WorldView {
                        storage: w0.storage.update(jj, w0.storage[jj].accepted(pv, source_pos)),
                        ..w0
                    }));
                }
                true
            },
            None => false,
        }
    }
}

// ---------------------------------------------------------------------
// Round-robin fairness.
// ---------------------------------------------------------------------

/// `k` successive round-robin selections from one fixed bucket.
pub open spec fn spec_rr_iterate(
    from_id: BuildingId,
    role: OutputRole,
    counters: Map<CounterKey, u64>,
    edges: Seq<ConnectionEdge>,
    k: int,
) -> (Seq<ConnectionEdge>, Map<CounterKey, u64>)
    decreases k,
{
    if k <= 0 {
        (Seq::empty(), counters)
    } else {
        let prev = spec_rr_iterate(from_id, role, counters, edges, k - 1);
        let sel = spec_rr_select(from_id, role, prev.1, edges);
        (prev.0.push(sel.0->Some_0), sel.1)
    }
}

/// How many of the first `k` round-robin steps starting at cursor `c0`
/// land on bucket position `idx`.
pub open spec fn spec_cyclic_hits(c0: int, n: int, k: int, idx: int) -> int
    decreases k,
{
    if k <= 0 {
        0
    } else {
        spec_cyclic_hits(c0, n, k - 1, idx) + if (c0 + (k - 1)) % n == idx {
            1int
        } else {
            0int
        }
    }
}

proof fn lemma_hits_closed(c0: int, n: int, k: int, idx: int)
    requires
        n > 0,
        0 <= idx < n,
        k >= 0,
    ensures
        spec_cyclic_hits(c0, n, k, idx) == k / n + if (idx - c0) % n < k % n {
            1int
        } else {
            0int
        },
    decreases k,
{
    let off = (idx - c0) % n;
    vstd::arithmetic::div_mod::lemma_mod_bound(idx - c0, n);
    if k == 0 {
        vstd::arithmetic::div_mod::lemma_fundamental_div_mod_converse(0, n, 0, 0);
    } else {
        lemma_hits_closed(c0, n, k - 1, idx);
        let t = k - 1;
        vstd::arithmetic::div_mod::lemma_mod_bound(t, n);
        assert(((c0 + t) % n == idx) <==> (t % n == off)) by {
            vstd::arithmetic::div_mod::lemma_add_mod_noop(c0, t, n);
            vstd::arithmetic::div_mod::lemma_add_mod_noop(c0, idx - c0, n);
            vstd::arithmetic::div_mod::lemma_mod_bound(c0, n);
            vstd::arithmetic::div_mod::lemma_mod_bound(idx, n);
            vstd::arithmetic::div_mod::lemma_small_mod(idx as nat, n as nat);
            assert((c0 + (idx - c0)) % n == idx);
            let a = c0 % n;
            let u = t % n;
            if u == off {
                assert((c0 + t) % n == ((a + u) % n));
                assert((c0 + (idx - c0)) % n == ((a + off) % n));
            }
            if (c0 + t) % n == idx && u != off {
                assert((a + u) % n == (a + off) % n);
                let v = (a + u) % n;
                vstd::arithmetic::div_mod::lemma_mod_bound(a + u, n);
                if u < off {
                    vstd::arithmetic::div_mod::lemma_add_mod_noop(a + u, off - u, n);
                    vstd::arithmetic::div_mod::lemma_small_mod((off - u) as nat, n as nat);
                    assert((a + off) % n == (v + (off - u)) % n);
                    if v + (off - u) < n {
                        vstd::arithmetic::div_mod::lemma_small_mod((v + (off - u)) as nat, n as nat);
                    } else {
                        vstd::arithmetic::div_mod::lemma_fundamental_div_mod_converse(
                            v + (off - u),
                            n,
                            1,
                            v + (off - u) - n,
                        );
                    }
                } else {
                    vstd::arithmetic::div_mod::lemma_add_mod_noop(a + off, u - off, n);
                    vstd::arithmetic::div_mod::lemma_small_mod((u - off) as nat, n as nat);
                    vstd::arithmetic::div_mod::lemma_mod_bound(a + off, n);
                    let w = (a + off) % n;
                    assert((a + u) % n == (w + (u - off)) % n);
                    if w + (u - off) < n {
                        vstd::arithmetic::div_mod::lemma_small_mod((w + (u - off)) as nat, n as nat);
                    } else {
                        vstd::arithmetic::div_mod::lemma_fundamental_div_mod_converse(
                            w + (u - off),
                            n,
                            1,
                            w + (u - off) - n,
                        );
                    }
                }
            }
        }
        vstd::arithmetic::div_mod::lemma_fundamental_div_mod(t, n);
        if t % n == n - 1 {
            assert(k == (t / n + 1) * n + 0) by (nonlinear_arith)
                requires
                    t == n * (t / n) + t % n,
                    t % n == n - 1,
                    k == t + 1,
            ;
            vstd::arithmetic::div_mod::lemma_fundamental_div_mod_converse(k, n, t / n + 1, 0);
        } else {
            assert(k == (t / n) * n + (t % n + 1)) by (nonlinear_arith)
                requires
                    t == n * (t / n) + t % n,
                    k == t + 1,
            ;
            vstd::arithmetic::div_mod::lemma_fundamental_div_mod_converse(k, n, t / n, t % n + 1);
        }
    }
}

proof fn lemma_rr_picks(
    from_id: BuildingId,
    role: OutputRole,
    counters: Map<CounterKey, u64>,
    edges: Seq<ConnectionEdge>,
    k: int,
)
    requires
        0 < edges.len() < u64::MAX,
        k >= 0,
        counter_of(counters, (from_id, role)) < u64::MAX,
    ensures
        ({
            let n = edges.len() as int;
            let c0 = counter_of(counters, (from_id, role)) as int;
            let run = spec_rr_iterate(from_id, role, counters, edges, k);
            &&& run.0.len() == k
            &&& forall|t: int| 0 <= t < k ==> run.0[t] == edges[(c0 + t) % n]
            &&& (counter_of(run.1, (from_id, role)) as int) % n == (c0 + k) % n
            &&& counter_of(run.1, (from_id, role)) < u64::MAX
        }),
    decreases k,
{
    let n = edges.len() as int;
    let c0 = counter_of(counters, (from_id, role)) as int;
    if k == 0 {
        vstd::arithmetic::div_mod::lemma_mod_twice(c0, n);
        assert(spec_rr_iterate(from_id, role, counters, edges, 0) == (
            Seq::<ConnectionEdge>::empty(),
            counters,
        ));
        assert((c0 % n) % n == c0 % n);
        assert((c0 + 0) % n == c0 % n);
        assert(spec_rr_iterate(from_id, role, counters, edges, k).0.len() == 0);
        assert((counter_of(spec_rr_iterate(from_id, role, counters, edges, k).1, (from_id, role))
            as int) % n == (c0 + k) % n);
    } else {
        lemma_rr_picks(from_id, role, counters, edges, k - 1);
        let prev = spec_rr_iterate(from_id, role, counters, edges, k - 1);
        let c = counter_of(prev.1, (from_id, role)) as int;
        // The pick of this step.
        let sel = spec_rr_select(from_id, role, prev.1, edges);
        vstd::arithmetic::div_mod::lemma_mod_twice(c, n);
        vstd::arithmetic::div_mod::lemma_add_mod_noop(c, 1, n);
        vstd::arithmetic::div_mod::lemma_add_mod_noop(c0 + (k - 1), 1, n);
        vstd::arithmetic::div_mod::lemma_mod_bound(c, n);
        vstd::arithmetic::div_mod::lemma_mod_bound(c + 1, n);
        vstd::arithmetic::div_mod::lemma_mod_bound(c0 + k, n);
        assert(c % n == (c0 + (k - 1)) % n);
        assert(sel.0->Some_0 == edges[c % n]);
        assert((c + 1) % n == ((c % n) + (1int % n)) % n);
        assert((c0 + k) % n == (((c0 + (k - 1)) % n) + (1int % n)) % n) by {
            assert(c0 + k == (c0 + (k - 1)) + 1);
        }
        assert((c + 1) % n == (c0 + k) % n);
        assert(counter_of(prev.1, (from_id, role)) < u64::MAX);
        assert(sel.1 == prev.1.insert((from_id, role), ((c + 1) % n) as u64));
        assert(counter_of(sel.1, (from_id, role)) == ((c + 1) % n) as u64);
        assert(counter_of(sel.1, (from_id, role)) as int == (c + 1) % n);
        vstd::arithmetic::div_mod::lemma_mod_twice(c + 1, n);
    }
}

/// Round-robin fairness: across `k` successive selections from one fixed
/// non-empty bucket, the selection at step `t` is the bucket entry at
/// position `(c0 + t) mod n` (where `c0` is the starting cursor and `n`
/// the bucket length), so every bucket position is chosen either
/// `k / n` or `k / n + 1` times — and exactly `k / n` times when `k` is a
/// whole number of rounds.
pub proof fn lemma_round_robin_fairness(
    from_id: BuildingId,
    role: OutputRole,
    counters: Map<CounterKey, u64>,
    edges: Seq<ConnectionEdge>,
    k: int,
    idx: int,
)
    requires
        0 < edges.len() < u64::MAX,
        0 <= idx < edges.len(),
        k >= 0,
        counter_of(counters, (from_id, role)) < u64::MAX,
    ensures
        ({
            let n = edges.len() as int;
            let c0 = counter_of(counters, (from_id, role)) as int;
            let picks = spec_rr_iterate(from_id, role, counters, edges, k).0;
            &&& picks.len() == k
            &&& forall|t: int| 0 <= t < k ==> picks[t] == edges[(c0 + t) % n]
            &&& forall|t: int|
                0 <= t < k ==> ((c0 + t) % n == idx <==> picks[t] == edges[idx]) || edges[(c0 + t)
                    % n] == edges[idx]
            &&& k / n <= spec_cyclic_hits(c0, n, k, idx) <= k / n + 1
            &&& k % n == 0 ==> spec_cyclic_hits(c0, n, k, idx) == k / n
        }),
{
    let n = edges.len() as int;
    let c0 = counter_of(counters, (from_id, role)) as int;
    lemma_rr_picks(from_id, role, counters, edges, k);
    lemma_hits_closed(c0, n, k, idx);
    assert(0 <= (idx - c0) % n && 0 <= k % n && k % n < n && k / n >= 0) by (nonlinear_arith)
        requires
            n > 0,
            k >= 0,
    ;
}

/// The structure kind a raw numeric kind id denotes, if any.
pub open spec fn spec_building_type_from_id(building_type_id: i32) -> Option<BuildingType> {
    if building_type_id == 0 {
        Some(BuildingType::Internet)
    } else if building_type_id == 1 {
        Some(BuildingType::Datacenter)
    } else if building_type_id == 2 {
        Some(BuildingType::Conveyor)
    } else if building_type_id == 10 {
        Some(BuildingType::IpFilter)
    } else if building_type_id == 11 {
        Some(BuildingType::PortFilter)
    } else if building_type_id == 12 {
        Some(BuildingType::LengthFilter)
    } else if building_type_id == 13 {
        Some(BuildingType::ProtocolFilter)
    } else if building_type_id == 14 {
        Some(BuildingType::ContentFilter)
    } else if building_type_id == 15 {
        Some(BuildingType::Junction)
    } else if building_type_id == 16 {
        Some(BuildingType::RecycleBin)
    } else {
        None
    }
}

/// Decode a raw numeric kind id; an unknown id yields nothing, which
/// callers treat as an invalid placement.
pub fn building_type_from_id(building_type_id: i32) -> (r: Option<BuildingType>)
    ensures
        r == spec_building_type_from_id(building_type_id),
{
    if building_type_id == 0 {
        Some(BuildingType::Internet)
    } else if building_type_id == 1 {
        Some(BuildingType::Datacenter)
    } else if building_type_id == 2 {
        Some(BuildingType::Conveyor)
    } else if building_type_id == 10 {
        Some(BuildingType::IpFilter)
    } else if building_type_id == 11 {
        Some(BuildingType::PortFilter)
    } else if building_type_id == 12 {
        Some(BuildingType::LengthFilter)
    } else if building_type_id == 13 {
        Some(BuildingType::ProtocolFilter)
    } else if building_type_id == 14 {
        Some(BuildingType::ContentFilter)
    } else if building_type_id == 15 {
        Some(BuildingType::Junction)
    } else if building_type_id == 16 {
        Some(BuildingType::RecycleBin)
    } else {
        None
    }
}

} // verus!
