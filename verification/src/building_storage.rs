//! The structure registry: owns every placed structure, keyed by id.
//!
//! Ids are allocated monotonically, so the arena keeps its entries in
//! strictly increasing id order; iteration in storage order is iteration
//! in ascending id order, which makes the tick deterministic.

use vstd::prelude::*;

use crate::building::{
    same_filter_kind,
    Building,
    BuildingAction,
    BuildingStateView,
    BuildingType,
    BuildingView,
};
use crate::dto::{BuildingId, Vec2i};
use crate::filters::FilterConfig;
use crate::packet::Packet;
use crate::traffic::Traffic;

verus! {

/// The views of the stored structures, in storage order.
pub open spec fn building_views(s: Seq<Building>) -> Seq<BuildingView> {
    s.map_values(|b: Building| b@)
}

/// The index of the structure with id `id`, or `-1`.
pub open spec fn spec_find(s: Seq<BuildingView>, id: BuildingId) -> int
    decreases s.len(),
{
    if s.len() == 0 {
        -1
    } else if s[0].id == id {
        0
    } else {
        let inner = spec_find(s.skip(1), id);
        if inner == -1 {
            -1
        } else {
            inner + 1
        }
    }
}

/// What `spec_find` returns: a valid index bearing `id`, or `-1` when no
/// entry bears it.
pub proof fn lemma_spec_find(s: Seq<BuildingView>, id: BuildingId)
    ensures
        spec_find(s, id) == -1 ==> forall|i: int| 0 <= i < s.len() ==> s[i].id != id,
        spec_find(s, id) != -1 ==> 0 <= spec_find(s, id) < s.len() && s[spec_find(s, id)].id == id,
    decreases s.len(),
{
    if s.len() > 0 {
        lemma_spec_find(s.skip(1), id);
        assert(forall|i: int| 1 <= i < s.len() ==> s[i] == s.skip(1)[i - 1]);
    }
}

/// How `spec_find` behaves across an append.
pub proof fn lemma_spec_find_push(s: Seq<BuildingView>, b: BuildingView, id: BuildingId)
    ensures
        spec_find(s, id) != -1 ==> spec_find(s.push(b), id) == spec_find(s, id),
        spec_find(s, id) == -1 && b.id == id ==> spec_find(s.push(b), id) == s.len(),
        spec_find(s, id) == -1 && b.id != id ==> spec_find(s.push(b), id) == -1,
    decreases s.len(),
{
    lemma_spec_find(s, id);
    if s.len() == 0 {
        assert(s.push(b).len() == 1);
        assert(s.push(b)[0] == b);
        assert(s.push(b).skip(1) =~= Seq::<BuildingView>::empty());
        assert(spec_find(Seq::<BuildingView>::empty(), id) == -1);
        assert(spec_find(s, id) == -1);
    } else {
        assert(s.push(b)[0] == s[0]);
        assert(s.push(b).skip(1) =~= s.skip(1).push(b));
        lemma_spec_find(s.skip(1), id);
        lemma_spec_find(s.skip(1).push(b), id);
        lemma_spec_find_push(s.skip(1), b, id);
        if s[0].id != id {
            assert(spec_find(s, id) == (if spec_find(s.skip(1), id) == -1 {
                -1int
            } else {
                spec_find(s.skip(1), id) + 1
            }));
            assert(spec_find(s.push(b), id) == (if spec_find(s.skip(1).push(b), id) == -1 {
                -1int
            } else {
                spec_find(s.skip(1).push(b), id) + 1
            }));
            if spec_find(s, id) == -1 && b.id == id {
                assert(spec_find(s.skip(1), id) == -1);
                assert(spec_find(s.skip(1).push(b), id) == s.skip(1).len());
                assert(spec_find(s.push(b), id) == s.len());
            }
        } else {
            assert(spec_find(s, id) == 0);
        }
    }
}

/// Replacing an entry by one with the same id leaves every lookup index
/// unchanged.
pub proof fn lemma_spec_find_update(s: Seq<BuildingView>, i: int, b: BuildingView, id: BuildingId)
    requires
        0 <= i < s.len(),
        b.id == s[i].id,
    ensures
        spec_find(s.update(i, b), id) == spec_find(s, id),
    decreases s.len(),
{
    let t = s.update(i, b);
    assert(t[0].id == s[0].id);
    if s[0].id == id {
    } else {
        if i == 0 {
            assert(t.skip(1) =~= s.skip(1));
        } else {
            assert(t.skip(1) =~= s.skip(1).update(i - 1, b));
            lemma_spec_find_update(s.skip(1), i - 1, b, id);
        }
    }
}

/// Lookup goes by ids alone: two sequences with pointwise equal ids have
/// equal lookup indices.
pub proof fn lemma_spec_find_same_ids(s0: Seq<BuildingView>, s1: Seq<BuildingView>, id: BuildingId)
    requires
        s0.len() == s1.len(),
        forall|a: int| 0 <= a < s0.len() ==> s0[a].id == s1[a].id,
    ensures
        spec_find(s0, id) == spec_find(s1, id),
    decreases s0.len(),
{
    if s0.len() > 0 {
        assert(s0[0].id == s1[0].id);
        assert(s0.skip(1).len() == s1.skip(1).len());
        assert(forall|a: int| 0 <= a < s0.skip(1).len() ==> s0.skip(1)[a].id == s1.skip(1)[a].id);
        lemma_spec_find_same_ids(s0.skip(1), s1.skip(1), id);
    }
}

/// The registry of placed structures.
pub struct BuildingStorage {
    buildings: Vec<Building>,
}

impl View for BuildingStorage {
    type V = Seq<BuildingView>;

    closed spec fn view(&self) -> Seq<BuildingView> {
        building_views(self.buildings@)
    }
}

impl BuildingStorage {
    /// Entries are well-formed and sorted by strictly increasing id.
    pub open spec fn wf(self) -> bool {
        &&& forall|i: int| 0 <= i < self@.len() ==> (#[trigger] self@[i]).wf()
        &&& forall|i: int, j: int| 0 <= i < j < self@.len() ==> self@[i].id < self@[j].id
    }

    /// An empty registry.
    pub fn new() -> (r: Self)
        ensures
            r@ == Seq::<BuildingView>::empty(),
            r.wf(),
    {
        let r = BuildingStorage { buildings: Vec::new() };
        proof {
            assert(r@ =~= Seq::<BuildingView>::empty());
        }
        r
    }

    /// Number of stored structures.
    pub fn len(&self) -> (r: usize)
        ensures
            r == self@.len(),
    {
        self.buildings.len()
    }

    /// Append a structure whose id is above every stored id.
    pub fn add_building(&mut self, building: Building)
        requires
            old(self).wf(),
            building@.wf(),
            forall|i: int| 0 <= i < old(self)@.len() ==> old(self)@[i].id < building.id,
        ensures
            final(self)@ == old(self)@.push(building@),
            final(self).wf(),
    {
        self.buildings.push(building);
        proof {
            assert(self@ =~= old(self)@.push(self.buildings@.last()@));
        }
    }

    /// The structure at a storage index.
    pub fn building_at(&self, i: usize) -> (r: &Building)
        requires
            i < self@.len(),
        ensures
            r@ == self@[i as int],
    {
        &self.buildings[i]
    }

    /// The storage index of the structure with `id`, if it is stored.
    pub fn index_of(&self, id: BuildingId) -> (r: Option<usize>)
        ensures
            match r {
                Some(i) => i == spec_find(self@, id) && i < self@.len() && self@[i as int].id == id,
                None => spec_find(self@, id) == -1 && forall|i: int|
                    0 <= i < self@.len() ==> self@[i].id != id,
            },
    {
        proof {
            lemma_spec_find(self@, id);
        }
        let n = self.buildings.len();
        let mut i: usize = 0;
        while i < n
            invariant
                n == self@.len(),
                i <= n,
                forall|l: int| 0 <= l < i ==> self@[l].id != id,
                spec_find(self@, id) == -1 || i <= spec_find(self@, id),
            decreases n - i,
        {
            proof {
                lemma_spec_find(self@, id);
                lemma_spec_find_prefix(self@, id, i as int);
            }
            if self.buildings[i].id == id {
                return Some(i);
            }
            i = i + 1;
        }
        None
    }

    /// The structure with `id`, if it is stored.
    pub fn get(&self, id: BuildingId) -> (r: Option<&Building>)
        ensures
            match r {
                Some(b) => spec_find(self@, id) != -1 && b@ == self@[spec_find(self@, id)],
                None => spec_find(self@, id) == -1,
            },
    {
        match self.index_of(id) {
            Some(i) => Some(&self.buildings[i]),
            None => None,
        }
    }

    /// Remove and return the structure with `id`.
    pub fn remove(&mut self, id: BuildingId) -> (r: Option<Building>)
        requires
            old(self).wf(),
        ensures
            match r {
                Some(b) => {
                    let j = spec_find(old(self)@, id);
                    &&& j != -1
                    &&& b@ == old(self)@[j]
                    &&& final(self)@ == old(self)@.remove(j)
                },
                None => spec_find(old(self)@, id) == -1 && final(self)@ == old(self)@,
            },
            final(self).wf(),
    {
        match self.index_of(id) {
            Some(i) => {
                let b = self.buildings.remove(i);
                proof {
                    assert(self@ =~= old(self)@.remove(i as int));
                }
                Some(b)
            },
            None => None,
        }
    }

    /// Advance the structure at storage index `i` by `delta` microseconds.
    pub fn update_at(&mut self, i: usize, delta: u64)
        requires
            old(self).wf(),
            i < old(self)@.len(),
        ensures
            final(self)@ == old(self)@.update(i as int, old(self)@[i as int].advanced(delta)),
            final(self).wf(),
    {
        self.buildings[i].update(delta);
        proof {
            assert(self@ =~= old(self)@.update(i as int, old(self)@[i as int].advanced(delta)));
            assert forall|a: int| 0 <= a < self@.len() implies (#[trigger] self@[a]).wf() by {
                assert(old(self)@[a].wf());
            }
        }
    }

    /// Remove the ready packet from the structure at storage index `i`.
    pub fn offload_at(&mut self, i: usize) -> (r: Packet)
        requires
            old(self).wf(),
            i < old(self)@.len(),
            old(self)@[i as int].can_offload(),
        ensures
            Some(r@) == old(self)@[i as int].peek(),
            final(self)@ == old(self)@.update(i as int, old(self)@[i as int].offloaded()),
            final(self).wf(),
    {
        let r = self.buildings[i].offload();
        proof {
            assert(self@ =~= old(self)@.update(i as int, old(self)@[i as int].offloaded()));
            assert forall|a: int| 0 <= a < self@.len() implies (#[trigger] self@[a]).wf() by {
                assert(old(self)@[a].wf());
            }
        }
        r
    }

    /// Hand `packet` to the structure at storage index `i`.
    pub fn accept_at(&mut self, i: usize, packet: Packet, source_pos: Vec2i) -> (r: BuildingAction)
        requires
            old(self).wf(),
            i < old(self)@.len(),
            source_pos.in_range(),
        ensures
            final(self)@ == old(self)@.update(
                i as int,
                old(self)@[i as int].accepted(packet@, source_pos),
            ),
            r == old(self)@[i as int].accept_action(packet@),
            final(self).wf(),
    {
        let ghost pv = packet@;
        let r = self.buildings[i].accept(packet, source_pos);
        proof {
            assert(self@ =~= old(self)@.update(i as int, old(self)@[i as int].accepted(
                pv,
                source_pos,
            )));
            assert forall|a: int| 0 <= a < self@.len() implies (#[trigger] self@[a]).wf() by {
                assert(old(self)@[a].wf());
            }
        }
        r
    }

    /// Hand the structure at storage index `i` its traffic schedule.
    pub fn set_traffic_at(&mut self, i: usize, traffic: Traffic) -> (r: bool)
        requires
            old(self).wf(),
            i < old(self)@.len(),
        ensures
            r == (old(self)@[i as int].btype() == BuildingType::Internet),
            r ==> final(self)@ == old(self)@.update(
                i as int,
                (BuildingView {
                    state: BuildingStateView::Internet {
                        queue: old(self)@[i as int].state->Internet_queue,
                        schedule: traffic.packets@,
                        clock: 0u64,
                        next_packet_index: 0usize,
                    },
                    ..old(self)@[i as int]
                }),
            ),
            !r ==> final(self)@ == old(self)@,
            final(self).wf(),
    {
        let ghost tv = traffic.packets@;
        let r = self.buildings[i].set_traffic(traffic);
        proof {
            if r {
                assert(self@ =~= old(self)@.update(i as int, (BuildingView {
                    state: BuildingStateView::Internet {
                        queue: old(self)@[i as int].state->Internet_queue,
                        schedule: tv,
                        clock: 0u64,
                        next_packet_index: 0usize,
                    },
                    ..old(self)@[i as int]
                })));
            } else {
                assert(self@ =~= old(self)@);
            }
            assert forall|a: int| 0 <= a < self@.len() implies (#[trigger] self@[a]).wf() by {
                assert(old(self)@[a].wf());
            }
        }
        r
    }

    /// Put a packet straight into the release queue of the structure at
    /// storage index `i`.
    pub fn add_packet_at(&mut self, i: usize, packet: Packet) -> (r: bool)
        requires
            old(self).wf(),
            i < old(self)@.len(),
        ensures
            r == (old(self)@[i as int].btype() == BuildingType::Internet),
            r ==> final(self)@ == old(self)@.update(
                i as int,
                (BuildingView {
                    state: BuildingStateView::Internet {
                        queue: old(self)@[i as int].state->Internet_queue.push(packet@),
                        schedule: old(self)@[i as int].state->Internet_schedule,
                        clock: old(self)@[i as int].state->Internet_clock,
                        next_packet_index: old(self)@[i as int].state->Internet_next_packet_index,
                    },
                    ..old(self)@[i as int]
                }),
            ),
            !r ==> final(self)@ == old(self)@,
            final(self).wf(),
    {
        let ghost pv = packet@;
        let r = self.buildings[i].add_packet(packet);
        proof {
            if r {
                assert(self@ =~= old(self)@.update(i as int, (BuildingView {
                    state: BuildingStateView::Internet {
                        queue: old(self)@[i as int].state->Internet_queue.push(pv),
                        schedule: old(self)@[i as int].state->Internet_schedule,
                        clock: old(self)@[i as int].state->Internet_clock,
                        next_packet_index: old(self)@[i as int].state->Internet_next_packet_index,
                    },
                    ..old(self)@[i as int]
                })));
            } else {
                assert(self@ =~= old(self)@);
            }
            assert forall|a: int| 0 <= a < self@.len() implies (#[trigger] self@[a]).wf() by {
                assert(old(self)@[a].wf());
            }
        }
        r
    }

    /// Replace the filter configuration of the structure at storage index
    /// `i`, when it is a filter of the same kind.
    pub fn set_filter_config_at(&mut self, i: usize, config: FilterConfig) -> (r: bool)
        requires
            old(self).wf(),
            i < old(self)@.len(),
        ensures
            ({
                let same = match old(self)@[i as int].state {
                    BuildingStateView::Filter { config: c, .. } => same_filter_kind(c, config),
                    _ => false,
                };
                &&& r == same
                &&& if same {
                    final(self)@ == old(self)@.update(
                        i as int,
                        (BuildingView {
                            state: BuildingStateView::Filter {
                                config,
                                buffer: old(self)@[i as int].state->Filter_buffer,
                            },
                            ..old(self)@[i as int]
                        }),
                    )
                } else {
                    final(self)@ == old(self)@
                }
            }),
            final(self).wf(),
    {
        let ghost cv = config;
        let r = self.buildings[i].set_filter_config(config);
        proof {
            if r {
                assert(self@ =~= old(self)@.update(i as int, (BuildingView {
                    state: BuildingStateView::Filter {
                        config: cv,
                        buffer: old(self)@[i as int].state->Filter_buffer,
                    },
                    ..old(self)@[i as int]
                })));
            } else {
                assert(self@ =~= old(self)@);
            }
            assert forall|a: int| 0 <= a < self@.len() implies (#[trigger] self@[a]).wf() by {
                assert(old(self)@[a].wf());
            }
        }
        r
    }

    /// The ids of every stored structure, in storage order.
    pub fn ids(&self) -> (r: Vec<BuildingId>)
        ensures
            r@ == self@.map_values(|b: BuildingView| b.id),
    {
        let n = self.buildings.len();
        let mut out: Vec<BuildingId> = Vec::new();
        let mut i: usize = 0;
        while i < n
            invariant
                n == self@.len(),
                i <= n,
                out@ == self@.take(i as int).map_values(|b: BuildingView| b.id),
            decreases n - i,
        {
            out.push(self.buildings[i].id);
            proof {
                assert(out@ =~= self@.take(i + 1).map_values(|b: BuildingView| b.id));
            }
            i = i + 1;
        }
        proof {
            assert(self@.take(n as int) =~= self@);
        }
        out
    }
}

/// `spec_find` never points below an already-searched prefix that misses
/// `id`.
pub proof fn lemma_spec_find_prefix(s: Seq<BuildingView>, id: BuildingId, i: int)
    requires
        0 <= i < s.len(),
        forall|l: int| 0 <= l < i ==> s[l].id != id,
    ensures
        s[i].id == id ==> spec_find(s, id) == i,
    decreases i,
{
    if i > 0 && s[i].id == id {
        assert(s[0].id != id);
        lemma_spec_find_prefix(s.skip(1), id, i - 1);
        assert(forall|l: int| 0 <= l < s.skip(1).len() ==> s.skip(1)[l] == s[l + 1]);
    }
}

} // verus!
