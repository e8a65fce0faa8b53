//! The derived connection graph: directed edges between structure ids,
//! each tagged with a routing role, recomputed from the current map and
//! structure geometry after every placement or removal.

use vstd::prelude::*;

use crate::building::{Building, BuildingView};
use crate::building_map::BuildingMap;
use crate::building_storage::{lemma_spec_find, spec_find, BuildingStorage};
use crate::dto::{BuildingId, Vec2i};

verus! {

/// Routing classification of an edge.
#[derive(Clone, Copy, Debug, PartialEq, Eq, Hash, Structural)]
pub enum OutputRole {
    Default,
    FilterMatch,
    FilterMismatch,
}

/// A directed edge to `to_id`, tagged with its role.
#[derive(Clone, Copy, Debug, PartialEq, Eq, Hash, Structural)]
pub struct ConnectionEdge {
    pub to_id: BuildingId,
    pub role: OutputRole,
}

/// Rank of a role in the deterministic edge order.
pub open spec fn spec_role_index(role: OutputRole) -> int {
    match role {
        OutputRole::Default => 0,
        OutputRole::FilterMatch => 1,
        OutputRole::FilterMismatch => 2,
    }
}

/// Rank of a role in the deterministic edge order:
/// default before match before mismatch.
pub fn role_index(role: OutputRole) -> (r: i32)
    ensures
        r == spec_role_index(role),
{
    match role {
        OutputRole::Default => 0,
        OutputRole::FilterMatch => 1,
        OutputRole::FilterMismatch => 2,
    }
}

/// The key edges are ordered and deduplicated by.
pub fn edge_sort_key(edge: &ConnectionEdge) -> (r: (BuildingId, i32))
    ensures
        r.0 == edge.to_id,
        r.1 == spec_role_index(edge.role),
{
    (edge.to_id, role_index(edge.role))
}

/// Strict order on edges: by target id, then by role rank.
pub open spec fn spec_edge_lt(a: ConnectionEdge, b: ConnectionEdge) -> bool {
    a.to_id < b.to_id || (a.to_id == b.to_id && spec_role_index(a.role) < spec_role_index(b.role))
}

/// Strictly ascending edge sequences: sorted and free of duplicates.
pub open spec fn edges_sorted_unique(s: Seq<ConnectionEdge>) -> bool {
    forall|i: int, j: int| 0 <= i < j < s.len() ==> spec_edge_lt(s[i], s[j])
}

/// The map an association list of buckets denotes.
pub open spec fn assoc_graph(s: Seq<(BuildingId, Seq<ConnectionEdge>)>) -> Map<
    BuildingId,
    Seq<ConnectionEdge>,
>
    decreases s.len(),
{
    if s.len() == 0 {
        Map::empty()
    } else {
        assoc_graph(s.drop_last()).insert(s.last().0, s.last().1)
    }
}

/// No two buckets share their source id.
pub open spec fn graph_keys_unique(s: Seq<(BuildingId, Seq<ConnectionEdge>)>) -> bool {
    forall|i: int, j: int| 0 <= i < j < s.len() ==> s[i].0 != s[j].0
}

/// Whether the graph holds the edge `f -> e`.
pub open spec fn graph_has_edge(
    g: Map<BuildingId, Seq<ConnectionEdge>>,
    f: BuildingId,
    e: ConnectionEdge,
) -> bool {
    g.contains_key(f) && g[f].contains(e)
}

/// Role of an edge leaving `b` over the tile `out_pos`: filters classify
/// their front tile as the mismatch output and their lateral tiles as
/// match outputs; every other kind routes with the default role.
pub open spec fn spec_classify_role(b: BuildingView, out_pos: Vec2i) -> OutputRole {
    if b.btype().spec_is_filter() {
        if out_pos == b.filter_front() {
            OutputRole::FilterMismatch
        } else {
            OutputRole::FilterMatch
        }
    } else {
        OutputRole::Default
    }
}

/// Role of an edge leaving `building` over `out_pos`.
pub fn classify_output_role(building: &Building, out_pos: Vec2i) -> (r: OutputRole)
    requires
        building.pos.in_range(),
    ensures
        r == spec_classify_role(building@, out_pos),
{
    if building.building_type().is_filter() {
        let x = building.pos.x;
        let y = building.pos.y;
        let ri = crate::building::rot_index(building.rot);
        let front = if ri == 0 {
            Vec2i { x, y: y - 1 }
        } else if ri == 1 {
            Vec2i { x: x + 1, y }
        } else if ri == 2 {
            Vec2i { x, y: y + 1 }
        } else {
            Vec2i { x: x - 1, y }
        };
        if out_pos == front {
            OutputRole::FilterMismatch
        } else {
            OutputRole::FilterMatch
        }
    } else {
        OutputRole::Default
    }
}

/// Whether some input tile of `to` is occupied by the structure `from_id`.
pub open spec fn spec_input_agree(
    to: BuildingView,
    map: Map<Vec2i, BuildingId>,
    from_id: BuildingId,
) -> bool {
    exists|q: Vec2i| #[trigger]
        to.input_seq().contains(q) && map.contains_key(q) && map[q] == from_id
}

/// The condition under which scanning output tile number `j` of `from`
/// yields the edge `e`.
pub open spec fn edge_cond_at(
    storage: Seq<BuildingView>,
    map: Map<Vec2i, BuildingId>,
    from: BuildingView,
    e: ConnectionEdge,
    j: int,
) -> bool {
    let p = from.output_seq()[j];
    &&& map.contains_key(p)
    &&& map[p] == e.to_id
    &&& e.to_id != from.id
    &&& spec_find(storage, e.to_id) != -1
    &&& spec_input_agree(storage[spec_find(storage, e.to_id)], map, from.id)
    &&& e.role == spec_classify_role(from, p)
}

/// Whether the edge `e` arises from one of the first `k` output tiles of
/// `from`.
pub open spec fn spec_edge_derived_upto(
    storage: Seq<BuildingView>,
    map: Map<Vec2i, BuildingId>,
    from: BuildingView,
    e: ConnectionEdge,
    k: int,
) -> bool {
    exists|j: int| 0 <= j < k && #[trigger] edge_cond_at(storage, map, from, e, j)
}

/// Whether the edge `e` is derived for the structure `from`: some output
/// tile of `from` is occupied by a different structure `e.to_id`, some
/// input tile of `e.to_id` is occupied by `from`, and the role is the
/// classification of the output tile used.
pub open spec fn spec_edge_derived(
    storage: Seq<BuildingView>,
    map: Map<Vec2i, BuildingId>,
    from: BuildingView,
    e: ConnectionEdge,
) -> bool {
    spec_edge_derived_upto(storage, map, from, e, from.output_seq().len() as int)
}

/// Directed edges between structure ids, grouped into per-source buckets.
pub struct ConnectionGraph {
    outputs: Vec<(BuildingId, Vec<ConnectionEdge>)>,
}

/// The views of the bucket list.
pub open spec fn bucket_views(s: Seq<(BuildingId, Vec<ConnectionEdge>)>) -> Seq<
    (BuildingId, Seq<ConnectionEdge>),
> {
    s.map_values(|b: (BuildingId, Vec<ConnectionEdge>)| (b.0, b.1@))
}

impl View for ConnectionGraph {
    type V = Map<BuildingId, Seq<ConnectionEdge>>;

    closed spec fn view(&self) -> Map<BuildingId, Seq<ConnectionEdge>> {
        assoc_graph(bucket_views(self.outputs@))
    }
}

proof fn lemma_graph_found(s: Seq<(BuildingId, Seq<ConnectionEdge>)>, k: BuildingId, j: int)
    requires
        0 <= j < s.len(),
        s[j].0 == k,
        forall|l: int| j < l < s.len() ==> s[l].0 != k,
    ensures
        assoc_graph(s).contains_key(k),
        assoc_graph(s)[k] == s[j].1,
    decreases s.len(),
{
    if j == s.len() - 1 {
    } else {
        lemma_graph_found(s.drop_last(), k, j);
    }
}

proof fn lemma_graph_absent(s: Seq<(BuildingId, Seq<ConnectionEdge>)>, k: BuildingId)
    requires
        forall|l: int| 0 <= l < s.len() ==> s[l].0 != k,
    ensures
        !assoc_graph(s).contains_key(k),
    decreases s.len(),
{
    if s.len() > 0 {
        lemma_graph_absent(s.drop_last(), k);
    }
}

proof fn lemma_graph_lookup(s: Seq<(BuildingId, Seq<ConnectionEdge>)>, k: BuildingId)
    requires
        graph_keys_unique(s),
    ensures
        assoc_graph(s).contains_key(k) <==> exists|l: int| 0 <= l < s.len() && (#[trigger] s[l]).0
            == k,
        forall|l: int|
            0 <= l < s.len() && (#[trigger] s[l]).0 == k ==> assoc_graph(s)[k] == s[l].1,
{
    if exists|l: int| 0 <= l < s.len() && (#[trigger] s[l]).0 == k {
        let l = choose|l: int| 0 <= l < s.len() && (#[trigger] s[l]).0 == k;
        lemma_graph_found(s, k, l);
        assert forall|l2: int| 0 <= l2 < s.len() && (#[trigger] s[l2]).0 == k implies assoc_graph(
            s,
        )[k] == s[l2].1 by {
            assert(l2 == l);
        }
    } else {
        assert(forall|l: int| 0 <= l < s.len() ==> (#[trigger] s[l]).0 != k);
        lemma_graph_absent(s, k);
    }
}

impl ConnectionGraph {
    /// Bucket ids are unique, buckets are non-empty and strictly ordered.
    pub closed spec fn wf(self) -> bool {
        &&& graph_keys_unique(bucket_views(self.outputs@))
        &&& forall|i: int|
            0 <= i < self.outputs@.len() ==> (#[trigger] self.outputs@[i]).1@.len() > 0
                && edges_sorted_unique(self.outputs@[i].1@)
    }

    /// An empty graph.
    pub fn new() -> (r: Self)
        ensures
            r@ == Map::<BuildingId, Seq<ConnectionEdge>>::empty(),
            r.wf(),
    {
        let r = ConnectionGraph { outputs: Vec::new() };
        proof {
            assert(bucket_views(r.outputs@) =~= Seq::<(BuildingId, Seq<ConnectionEdge>)>::empty());
        }
        r
    }

    fn index_of(&self, id: BuildingId) -> (r: Option<usize>)
        ensures
            match r {
                Some(i) => i < self.outputs@.len() && self.outputs@[i as int].0 == id,
                None => forall|l: int| 0 <= l < self.outputs@.len() ==> self.outputs@[l].0 != id,
            },
    {
        let n = self.outputs.len();
        let mut i: usize = 0;
        while i < n
            invariant
                n == self.outputs@.len(),
                i <= n,
                forall|l: int| 0 <= l < i ==> self.outputs@[l].0 != id,
            decreases n - i,
        {
            if self.outputs[i].0 == id {
                return Some(i);
            }
            i = i + 1;
        }
        None
    }

    /// The outgoing edge bucket of `from_id`, if it has one.
    pub fn get_outputs(&self, from_id: BuildingId) -> (r: Option<&Vec<ConnectionEdge>>)
        requires
            self.wf(),
        ensures
            match r {
                Some(v) => self@.contains_key(from_id) && v@ == self@[from_id],
                None => !self@.contains_key(from_id),
            },
    {
        match self.index_of(from_id) {
            Some(i) => {
                proof {
                    assert(bucket_views(self.outputs@)[i as int].0 == from_id);
                    assert(forall|l: int|
                        i < l < self.outputs@.len() ==> bucket_views(self.outputs@)[l].0 != from_id);
                    lemma_graph_found(bucket_views(self.outputs@), from_id, i as int);
                }
                Some(&self.outputs[i].1)
            },
            None => {
                proof {
                    assert(forall|l: int|
                        0 <= l < self.outputs@.len() ==> bucket_views(self.outputs@)[l].0
                            != from_id);
                    lemma_graph_absent(bucket_views(self.outputs@), from_id);
                }
                None
            },
        }
    }

    /// Delete the node `id`: its own bucket disappears, every edge
    /// targeting it is stripped from the remaining buckets, and buckets
    /// that become empty are dropped.
    pub fn remove_node(&mut self, id: BuildingId)
        requires
            old(self).wf(),
        ensures
            final(self).wf(),
            forall|f: BuildingId|
                #[trigger] final(self)@.contains_key(f) <==> (old(self)@.contains_key(f) && f != id
                    && old(self)@[f].filter(|e: ConnectionEdge| e.to_id != id).len() > 0),
            forall|f: BuildingId|
                final(self)@.contains_key(f) ==> final(self)@[f] == old(self)@[f].filter(
                    |e: ConnectionEdge| e.to_id != id,
                ),
    {
        let ghost pred = |e: ConnectionEdge| e.to_id != id;
        let ghost old_buckets = bucket_views(self.outputs@);
        let n = self.outputs.len();
        let mut kept: Vec<(BuildingId, Vec<ConnectionEdge>)> = Vec::new();
        let mut i: usize = 0;
        proof {
            assert(graph_keys_unique(old_buckets));
        }
        while i < n
            invariant
                pred == (|e: ConnectionEdge| e.to_id != id),
                n == self.outputs@.len(),
                i <= n,
                old_buckets == bucket_views(self.outputs@),
                graph_keys_unique(old_buckets),
                forall|b: int|
                    0 <= b < old_buckets.len() ==> (#[trigger] old_buckets[b]).1.len() > 0
                        && edges_sorted_unique(old_buckets[b].1),
                graph_keys_unique(bucket_views(kept@)),
                forall|a: int|
                    0 <= a < kept@.len() ==> (#[trigger] kept@[a]).1@.len() > 0
                        && edges_sorted_unique(kept@[a].1@),
                forall|a: int| 0 <= a < kept@.len() ==> (#[trigger] kept@[a]).0 != id,
                forall|a: int|
                    0 <= a < kept@.len() ==> exists|b: int|
                        0 <= b < i && (#[trigger] kept@[a]).0 == old_buckets[b].0 && kept@[a].1@
                            == old_buckets[b].1.filter(pred),
                forall|b: int|
                    0 <= b < i && (#[trigger] old_buckets[b]).0 != id && old_buckets[b].1.filter(
                        pred,
                    ).len() > 0 ==> exists|a: int|
                        0 <= a < kept@.len() && (#[trigger] kept@[a]).0 == old_buckets[b].0,
            decreases n - i,
        {
            let ghost kept0 = kept@;
            let f = self.outputs[i].0;
            proof {
                assert(old_buckets[i as int] == (self.outputs@[i as int].0, self.outputs@[i as int].1@));
            }
            if f != id {
                let bucket = &self.outputs[i].1;
                proof {
                    assert(bucket@ == old_buckets[i as int].1);
                    assert(edges_sorted_unique(bucket@));
                }
                let m = bucket.len();
                let mut filtered: Vec<ConnectionEdge> = Vec::new();
                let mut j: usize = 0;
                while j < m
                    invariant
                        pred == (|e: ConnectionEdge| e.to_id != id),
                        m == bucket@.len(),
                        j <= m,
                        edges_sorted_unique(bucket@),
                        filtered@ == bucket@.take(j as int).filter(pred),
                        edges_sorted_unique(filtered@),
                        forall|a: int, l: int|
                            0 <= a < filtered@.len() && j <= l < m ==> spec_edge_lt(
                                #[trigger] filtered@[a],
                                #[trigger] bucket@[l],
                            ),
                    decreases m - j,
                {
                    let e = bucket[j];
                    proof {
                        assert(bucket@.take(j + 1) =~= bucket@.take(j as int).push(e));
                        bucket@.take(j as int).lemma_filter_push(e, pred);
                    }
                    if e.to_id != id {
                        filtered.push(e);
                    }
                    j = j + 1;
                }
                proof {
                    assert(bucket@.take(m as int) =~= bucket@);
                    assert(filtered@ == old_buckets[i as int].1.filter(pred));
                }
                if filtered.len() > 0 {
                    let ghost fv = filtered@;
                    kept.push((f, filtered));
                    proof {
                        assert(kept@.last() == (f, kept@.last().1));
                        assert(kept@.last().1@ == fv);
                        assert(bucket_views(kept@) =~= bucket_views(kept0).push(
                            (kept@.last().0, kept@.last().1@),
                        ));
                        assert forall|a: int, b: int|
                            0 <= a < b < bucket_views(kept@).len() implies bucket_views(
                            kept@,
                        )[a].0 != bucket_views(kept@)[b].0 by {
                            if b == kept@.len() - 1 {
                                let b0 = choose|b0: int|
                                    0 <= b0 < i && (#[trigger] kept0[a]).0 == old_buckets[b0].0
                                        && kept0[a].1@ == old_buckets[b0].1.filter(pred);
                                assert(old_buckets[b0].0 != old_buckets[i as int].0);
                            }
                        }
                        assert forall|a: int| 0 <= a < kept@.len() implies exists|b: int|
                            0 <= b < i + 1 && (#[trigger] kept@[a]).0 == old_buckets[b].0
                                && kept@[a].1@ == old_buckets[b].1.filter(pred) by {
                            if a == kept@.len() - 1 {
                                assert(kept@[a].0 == old_buckets[i as int].0 && kept@[a].1@
                                    == old_buckets[i as int].1.filter(pred));
                            } else {
                                assert(kept@[a] == kept0[a]);
                                let b0 = choose|b0: int|
                                    0 <= b0 < i && (#[trigger] kept0[a]).0 == old_buckets[b0].0
                                        && kept0[a].1@ == old_buckets[b0].1.filter(pred);
                                assert(0 <= b0 < i + 1 && kept@[a].0 == old_buckets[b0].0
                                    && kept@[a].1@ == old_buckets[b0].1.filter(pred));
                            }
                        }
                        assert forall|b: int|
                            0 <= b < i + 1 && (#[trigger] old_buckets[b]).0 != id
                                && old_buckets[b].1.filter(pred).len() > 0 implies exists|a: int|
                            0 <= a < kept@.len() && (#[trigger] kept@[a]).0 == old_buckets[b].0 by {
                            if b == i {
                                assert(kept@[kept@.len() - 1].0 == old_buckets[i as int].0);
                            } else {
                                let a0 = choose|a0: int|
                                    0 <= a0 < kept0.len() && (#[trigger] kept0[a0]).0
                                        == old_buckets[b].0;
                                assert(kept@[a0].0 == old_buckets[b].0);
                            }
                        }
                    }
                } else {
                    proof {
                        assert(old_buckets[i as int].1.filter(pred).len() == 0);
                    }
                }
            }
            i = i + 1;
        }
        self.outputs = kept;
        proof {
            let newb = bucket_views(self.outputs@);
            assert forall|f: BuildingId| #[trigger]
                assoc_graph(newb).contains_key(f) implies (assoc_graph(old_buckets).contains_key(f)
                && f != id && assoc_graph(old_buckets)[f].filter(pred).len() > 0 && assoc_graph(
                newb,
            )[f] == assoc_graph(old_buckets)[f].filter(pred)) by {
                lemma_graph_lookup(newb, f);
                let a = choose|a: int| 0 <= a < newb.len() && (#[trigger] newb[a]).0 == f;
                assert(kept@[a].0 == f && kept@[a].1@ == newb[a].1);
                let b = choose|b: int|
                    0 <= b < n && (#[trigger] kept@[a]).0 == old_buckets[b].0 && kept@[a].1@
                        == old_buckets[b].1.filter(pred);
                lemma_graph_lookup(old_buckets, f);
                assert(assoc_graph(old_buckets)[f] == old_buckets[b].1);
                assert(kept@[a].1@.len() > 0);
            }
            assert forall|f: BuildingId|
                (assoc_graph(old_buckets).contains_key(f) && f != id && assoc_graph(
                    old_buckets,
                )[f].filter(pred).len() > 0) implies #[trigger] assoc_graph(
                newb,
            ).contains_key(f) by {
                lemma_graph_lookup(old_buckets, f);
                let b = choose|b: int| 0 <= b < n && (#[trigger] old_buckets[b]).0 == f;
                assert(assoc_graph(old_buckets)[f] == old_buckets[b].1);
                assert(old_buckets[b].1.filter(pred).len() > 0);
                let a = choose|a: int|
                    0 <= a < kept@.len() && (#[trigger] kept@[a]).0 == old_buckets[b].0;
                assert(newb[a].0 == f);
                lemma_graph_lookup(newb, f);
            }
        }
    }

    /// Recompute the whole graph from the current map and registry: the
    /// edge `f -> e` exists afterwards exactly when it is derived from the
    /// structures' geometry, and every bucket is non-empty, sorted and
    /// duplicate-free.
    pub fn rebuild(&mut self, map: &BuildingMap, storage: &BuildingStorage)
        requires
            map.wf(),
            storage.wf(),
        ensures
            final(self).wf(),
            forall|f: BuildingId, e: ConnectionEdge|
                #[trigger] graph_has_edge(final(self)@, f, e) <==> (spec_find(storage@, f) != -1
                    && spec_edge_derived(storage@, map@, storage@[spec_find(storage@, f)], e)),
            forall|f: BuildingId|
                #[trigger] final(self)@.contains_key(f) ==> final(self)@[f].len() > 0
                    && edges_sorted_unique(final(self)@[f]),
    {
        let nb = storage.len();
        let mut outputs: Vec<(BuildingId, Vec<ConnectionEdge>)> = Vec::new();
        let mut idx: usize = 0;
        while idx < nb
            invariant
                map.wf(),
                storage.wf(),
                nb == storage@.len(),
                idx <= nb,
                graph_keys_unique(bucket_views(outputs@)),
                forall|a: int|
                    0 <= a < outputs@.len() ==> (#[trigger] outputs@[a]).1@.len() > 0
                        && edges_sorted_unique(outputs@[a].1@),
                forall|a: int|
                    0 <= a < outputs@.len() ==> exists|b: int|
                        0 <= b < idx && (#[trigger] outputs@[a]).0 == storage@[b].id,
                forall|f: BuildingId, e: ConnectionEdge|
                    #[trigger] graph_has_edge(assoc_graph(bucket_views(outputs@)), f, e) <==> (
                    exists|b: int|
                        0 <= b < idx && (#[trigger] storage@[b]).id == f && spec_edge_derived(
                            storage@,
                            map@,
                            storage@[b],
                            e,
                        )),
            decreases nb - idx,
        {
            let ghost g0 = assoc_graph(bucket_views(outputs@));
            let from_b = storage.building_at(idx);
            let ghost from = from_b@;
            let from_id = from_b.id;
            proof {
                assert(from.pos.in_range()) by {
                    assert(storage@[idx as int].wf());
                }
            }
            let out_poses = from_b.get_output_poses();
            let np = out_poses.len();
            let mut connections: Vec<ConnectionEdge> = Vec::new();
            let mut pi: usize = 0;
            while pi < np
                invariant
                    map.wf(),
                    storage.wf(),
                    from == storage@[idx as int],
                    from_b@ == from,
                    idx < storage@.len(),
                    from_id == from.id,
                    from.pos.in_range(),
                    out_poses@ == from.output_seq(),
                    np == out_poses@.len(),
                    pi <= np,
                    edges_sorted_unique(connections@),
                    forall|e: ConnectionEdge|
                        #[trigger] connections@.contains(e) <==> spec_edge_derived_upto(
                            storage@,
                            map@,
                            from,
                            e,
                            pi as int,
                        ),
                decreases np - pi,
            {
                let p = out_poses[pi];
                let mut hit = false;
                match map.get(&p) {
                    Some(to_id) => {
                        if to_id != from_id {
                            match storage.index_of(to_id) {
                                Some(ti) => {
                                    let to_b = storage.building_at(ti);
                                    proof {
                                        assert(to_b@.pos.in_range()) by {
                                            assert(storage@[ti as int].wf());
                                        }
                                    }
                                    if input_agrees(to_b, map, from_id) {
                                        let role = classify_output_role(from_b, p);
                                        let e = ConnectionEdge { to_id, role };
                                        proof {
                                            assert(edge_cond_at(storage@, map@, from, e, pi as int));
                                        }
                                        insert_edge_sorted(&mut connections, e);
                                        hit = true;
                                        proof {
                                            assert forall|x: ConnectionEdge|
                                                #[trigger] connections@.contains(x)
                                                    <==> spec_edge_derived_upto(
                                                    storage@,
                                                    map@,
                                                    from,
                                                    x,
                                                    pi + 1,
                                                ) by {
                                                if connections@.contains(x) {
                                                }
                                                if spec_edge_derived_upto(
                                                    storage@,
                                                    map@,
                                                    from,
                                                    x,
                                                    pi + 1,
                                                ) {
                                                    let j = choose|j: int|
                                                        0 <= j < pi + 1 && #[trigger] edge_cond_at(
                                                            storage@,
                                                            map@,
                                                            from,
                                                            x,
                                                            j,
                                                        );
                                                    if j == pi {
                                                        assert(x == e);
                                                    }
                                                }
                                            }
                                        }
                                    }
                                },
                                None => {},
                            }
                        }
                    },
                    None => {},
                }
                if !hit {
                    proof {
                        assert forall|x: ConnectionEdge|
                            #[trigger] connections@.contains(x) <==> spec_edge_derived_upto(
                                storage@,
                                map@,
                                from,
                                x,
                                pi + 1,
                            ) by {
                            if spec_edge_derived_upto(storage@, map@, from, x, pi + 1) {
                                let j = choose|j: int|
                                    0 <= j < pi + 1 && #[trigger] edge_cond_at(
                                        storage@,
                                        map@,
                                        from,
                                        x,
                                        j,
                                    );
                                assert(j != pi);
                            }
                        }
                    }
                }
                pi = pi + 1;
            }
            let ghost conns = connections@;
            if connections.len() > 0 {
                let ghost outputs0 = outputs@;
                outputs.push((from_id, connections));
                proof {
                    assert(bucket_views(outputs@) =~= bucket_views(outputs0).push(
                        (outputs@.last().0, outputs@.last().1@),
                    ));
                    assert(outputs@.last().0 == from_id && outputs@.last().1@ == conns);
                    assert forall|a: int, b: int|
                        0 <= a < b < bucket_views(outputs@).len() implies bucket_views(
                        outputs@,
                    )[a].0 != bucket_views(outputs@)[b].0 by {
                        if b == outputs@.len() - 1 {
                            let b0 = choose|b0: int|
                                0 <= b0 < idx && (#[trigger] outputs0[a]).0 == storage@[b0].id;
                            assert(storage@[b0].id < storage@[idx as int].id);
                        }
                    }
                    let g1 = assoc_graph(bucket_views(outputs@));
                    assert(g1 == g0.insert(from_id, conns)) by {
                        assert(bucket_views(outputs@).drop_last() =~= bucket_views(outputs0));
                    }
                    assert forall|f: BuildingId, e: ConnectionEdge|
                        #[trigger] graph_has_edge(g1, f, e) <==> (exists|b: int|
                            0 <= b < idx + 1 && (#[trigger] storage@[b]).id == f
                                && spec_edge_derived(storage@, map@, storage@[b], e)) by {
                        if f == from_id {
                            assert(g1.contains_key(f) && g1[f] == conns);
                            if graph_has_edge(g1, f, e) {
                                assert(spec_edge_derived(storage@, map@, storage@[idx as int], e));
                            }
                            if exists|b: int|
                                0 <= b < idx + 1 && (#[trigger] storage@[b]).id == f
                                    && spec_edge_derived(storage@, map@, storage@[b], e) {
                                let b = choose|b: int|
                                    0 <= b < idx + 1 && (#[trigger] storage@[b]).id == f
                                        && spec_edge_derived(storage@, map@, storage@[b], e);
                                assert(b == idx) by {
                                    if b < idx {
                                        assert(storage@[b].id < storage@[idx as int].id);
                                    }
                                }
                                assert(conns.contains(e));
                            }
                        } else {
                            assert(graph_has_edge(g1, f, e) == graph_has_edge(g0, f, e));
                            if exists|b: int|
                                0 <= b < idx + 1 && (#[trigger] storage@[b]).id == f
                                    && spec_edge_derived(storage@, map@, storage@[b], e) {
                                let b = choose|b: int|
                                    0 <= b < idx + 1 && (#[trigger] storage@[b]).id == f
                                        && spec_edge_derived(storage@, map@, storage@[b], e);
                                assert(b != idx);
                            }
                        }
                    }
                }
            } else {
                proof {
                    assert forall|f: BuildingId, e: ConnectionEdge|
                        #[trigger] graph_has_edge(g0, f, e) <==> (exists|b: int|
                            0 <= b < idx + 1 && (#[trigger] storage@[b]).id == f
                                && spec_edge_derived(storage@, map@, storage@[b], e)) by {
                        if exists|b: int|
                            0 <= b < idx + 1 && (#[trigger] storage@[b]).id == f
                                && spec_edge_derived(storage@, map@, storage@[b], e) {
                            let b = choose|b: int|
                                0 <= b < idx + 1 && (#[trigger] storage@[b]).id == f
                                    && spec_edge_derived(storage@, map@, storage@[b], e);
                            if b == idx {
                                assert(conns.contains(e));
                            }
                        }
                    }
                }
            }
            idx = idx + 1;
        }
        self.outputs = outputs;
        proof {
            let g = assoc_graph(bucket_views(outputs@));
            assert forall|f: BuildingId, e: ConnectionEdge|
                #[trigger] graph_has_edge(g, f, e) <==> (spec_find(storage@, f) != -1
                    && spec_edge_derived(storage@, map@, storage@[spec_find(storage@, f)], e)) by {
                lemma_spec_find(storage@, f);
                if graph_has_edge(g, f, e) {
                    let b = choose|b: int|
                        0 <= b < nb && (#[trigger] storage@[b]).id == f && spec_edge_derived(
                            storage@,
                            map@,
                            storage@[b],
                            e,
                        );
                    assert(forall|l: int| 0 <= l < b ==> (#[trigger] storage@[l]).id != f);
                    crate::building_storage::lemma_spec_find_prefix(storage@, f, b);
                }
                if spec_find(storage@, f) != -1 && spec_edge_derived(
                    storage@,
                    map@,
                    storage@[spec_find(storage@, f)],
                    e,
                ) {
                    let b = spec_find(storage@, f);
                    assert(0 <= b < nb && storage@[b].id == f && spec_edge_derived(
                        storage@,
                        map@,
                        storage@[b],
                        e,
                    ));
                }
            }
            assert forall|f: BuildingId| #[trigger]
                g.contains_key(f) implies g[f].len() > 0 && edges_sorted_unique(g[f]) by {
                lemma_graph_lookup(bucket_views(outputs@), f);
                let l = choose|l: int|
                    0 <= l < bucket_views(outputs@).len() && (#[trigger] bucket_views(
                        outputs@,
                    )[l]).0 == f;
                assert(g[f] == outputs@[l].1@);
            }
        }
    }
}

/// Whether some input tile of `to` is currently occupied by `from_id`.
fn input_agrees(to: &Building, map: &BuildingMap, from_id: BuildingId) -> (r: bool)
    requires
        to.pos.in_range(),
        map.wf(),
    ensures
        r == spec_input_agree(to@, map@, from_id),
{
    let input_poses = to.get_input_poses();
    let n = input_poses.len();
    let mut i: usize = 0;
    while i < n
        invariant
            map.wf(),
            input_poses@ == to@.input_seq(),
            n == input_poses@.len(),
            i <= n,
            forall|l: int|
                0 <= l < i ==> !(map@.contains_key(#[trigger] input_poses@[l]) && map@[
                    input_poses@[l]
                ] == from_id),
        decreases n - i,
    {
        let q = input_poses[i];
        match map.get(&q) {
            Some(occupant) => {
                if occupant == from_id {
                    proof {
                        assert(to@.input_seq().contains(q));
                    }
                    return true;
                }
            },
            None => {},
        }
        i = i + 1;
    }
    proof {
        assert forall|q: Vec2i|
            to@.input_seq().contains(q) implies !(map@.contains_key(q) && map@[q] == from_id) by {
            let l = choose|l: int| 0 <= l < to@.input_seq().len() && to@.input_seq()[l] == q;
            assert(input_poses@[l] == q);
        }
    }
    false
}

proof fn lemma_seq_insert_contains(s: Seq<ConnectionEdge>, j: int, e: ConnectionEdge)
    requires
        0 <= j <= s.len(),
    ensures
        forall|x: ConnectionEdge|
            #[trigger] s.insert(j, e).contains(x) <==> (s.contains(x) || x == e),
{
    let t = s.insert(j, e);
    assert forall|x: ConnectionEdge| #[trigger] t.contains(x) implies (s.contains(x) || x == e) by {
        let k = choose|k: int| 0 <= k < t.len() && t[k] == x;
        if k < j {
            assert(s[k] == x);
        } else if k > j {
            assert(s[k - 1] == x);
        }
    }
    assert forall|x: ConnectionEdge| s.contains(x) implies #[trigger] t.contains(x) by {
        let k = choose|k: int| 0 <= k < s.len() && s[k] == x;
        if k < j {
            assert(t[k] == x);
        } else {
            assert(t[k + 1] == x);
        }
    }
    assert(t[j] == e);
}

/// Insert `e` into a strictly ordered edge vector, keeping it ordered and
/// dropping the insert when the edge is already present.
fn insert_edge_sorted(v: &mut Vec<ConnectionEdge>, e: ConnectionEdge)
    requires
        edges_sorted_unique(old(v)@),
    ensures
        edges_sorted_unique(final(v)@),
        forall|x: ConnectionEdge|
            #[trigger] final(v)@.contains(x) <==> (old(v)@.contains(x) || x == e),
{
    let n = v.len();
    let mut j: usize = 0;
    while j < n && edge_lt(&v[j], &e)
        invariant
            n == v@.len(),
            j <= n,
            forall|l: int| 0 <= l < j ==> spec_edge_lt(#[trigger] v@[l], e),
        decreases n - j,
    {
        j = j + 1;
    }
    if j < n && v[j].to_id == e.to_id && role_index(v[j].role) == role_index(e.role) {
        proof {
            assert(v@[j as int] == e) by {
                assert(spec_role_index(v@[j as int].role) == spec_role_index(e.role));
                assert(v@[j as int].role == e.role);
            }
            assert(v@.contains(e));
        }
        return;
    }
    let ghost v0 = v@;
    v.insert(j, e);
    proof {
        assert(v@ == v0.insert(j as int, e));
        lemma_seq_insert_contains(v0, j as int, e);
        if (j as int) < v0.len() {
            assert(spec_edge_lt(e, v0[j as int])) by {
                assert(!spec_edge_lt(v0[j as int], e));
                assert(!(v0[j as int] == e)) by {
                    if v0[j as int].to_id == e.to_id {
                        assert(spec_role_index(v0[j as int].role) != spec_role_index(e.role)
                            || v0[j as int].role == e.role);
                    }
                }
            }
        }
        assert forall|a: int, b: int|
            0 <= a < b < v@.len() implies spec_edge_lt(v@[a], v@[b]) by {
            if a < j && b == j {
            } else if a == j && b > j {
                assert(v@[b] == v0[b - 1]);
                assert(spec_edge_lt(e, v0[j as int]));
                if b - 1 > j {
                    assert(spec_edge_lt(v0[j as int], v0[b - 1]));
                }
            } else if a < j && b > j {
                assert(v@[a] == v0[a] && v@[b] == v0[b - 1]);
            } else if a > j && b > j {
                assert(v@[a] == v0[a - 1] && v@[b] == v0[b - 1]);
            }
        }
    }
}

/// Strict edge order, executable form.
fn edge_lt(a: &ConnectionEdge, b: &ConnectionEdge) -> (r: bool)
    ensures
        r == spec_edge_lt(*a, *b),
{
    a.to_id < b.to_id || (a.to_id == b.to_id && role_index(a.role) < role_index(b.role))
}

} // verus!