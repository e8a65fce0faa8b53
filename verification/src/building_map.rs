//! The spatial occupancy index: tile coordinate to structure id, with
//! multi-tile footprints holding one entry per tile.

use vstd::prelude::*;

use crate::dto::{BuildingId, Vec2i};

verus! {

/// The map an association list denotes: later entries override earlier
/// ones (the list is kept duplicate-free, so the order never matters).
pub open spec fn assoc_map(s: Seq<(Vec2i, BuildingId)>) -> Map<Vec2i, BuildingId>
    decreases s.len(),
{
    if s.len() == 0 {
        Map::empty()
    } else {
        assoc_map(s.drop_last()).insert(s.last().0, s.last().1)
    }
}

/// No two entries share a key.
pub open spec fn keys_unique(s: Seq<(Vec2i, BuildingId)>) -> bool {
    forall|i: int, j: int| 0 <= i < j < s.len() ==> s[i].0 != s[j].0
}

proof fn lemma_assoc_found(s: Seq<(Vec2i, BuildingId)>, k: Vec2i, j: int)
    requires
        0 <= j < s.len(),
        s[j].0 == k,
        forall|l: int| j < l < s.len() ==> s[l].0 != k,
    ensures
        assoc_map(s).contains_key(k),
        assoc_map(s)[k] == s[j].1,
    decreases s.len(),
{
    if j == s.len() - 1 {
    } else {
        lemma_assoc_found(s.drop_last(), k, j);
    }
}

proof fn lemma_assoc_absent(s: Seq<(Vec2i, BuildingId)>, k: Vec2i)
    requires
        forall|l: int| 0 <= l < s.len() ==> s[l].0 != k,
    ensures
        !assoc_map(s).contains_key(k),
    decreases s.len(),
{
    if s.len() > 0 {
        lemma_assoc_absent(s.drop_last(), k);
    }
}

proof fn lemma_assoc_update(s: Seq<(Vec2i, BuildingId)>, j: int, v: BuildingId)
    requires
        keys_unique(s),
        0 <= j < s.len(),
    ensures
        assoc_map(s.update(j, (s[j].0, v))) == assoc_map(s).insert(s[j].0, v),
    decreases s.len(),
{
    let k = s[j].0;
    let t = s.update(j, (k, v));
    if j == s.len() - 1 {
        assert(t.drop_last() =~= s.drop_last());
        assert(assoc_map(t) =~= assoc_map(s).insert(k, v));
    } else {
        assert(t.drop_last() =~= s.drop_last().update(j, (k, v)));
        assert(keys_unique(s.drop_last()));
        lemma_assoc_update(s.drop_last(), j, v);
        assert(s.last().0 != k);
        assert(assoc_map(t) == assoc_map(s.drop_last()).insert(k, v).insert(
            s.last().0,
            s.last().1,
        ));
        assert(assoc_map(s.drop_last()).insert(k, v).insert(s.last().0, s.last().1)
            =~= assoc_map(s.drop_last()).insert(s.last().0, s.last().1).insert(k, v));
    }
}

proof fn lemma_assoc_remove(s: Seq<(Vec2i, BuildingId)>, j: int)
    requires
        keys_unique(s),
        0 <= j < s.len(),
    ensures
        assoc_map(s.remove(j)) == assoc_map(s).remove(s[j].0),
    decreases s.len(),
{
    let k = s[j].0;
    if j == s.len() - 1 {
        assert(s.remove(j) =~= s.drop_last());
        assert(forall|l: int| 0 <= l < s.drop_last().len() ==> s.drop_last()[l].0 != k);
        lemma_assoc_absent(s.drop_last(), k);
        assert(assoc_map(s.drop_last()) =~= assoc_map(s.drop_last()).insert(k, s[j].1).remove(k));
    } else {
        assert(s.remove(j).drop_last() =~= s.drop_last().remove(j));
        assert(keys_unique(s.drop_last()));
        lemma_assoc_remove(s.drop_last(), j);
        assert(s.last().0 != k);
        assert(assoc_map(s.remove(j)) == assoc_map(s.drop_last()).remove(k).insert(
            s.last().0,
            s.last().1,
        ));
        assert(assoc_map(s.drop_last()).remove(k).insert(s.last().0, s.last().1)
            =~= assoc_map(s.drop_last()).insert(s.last().0, s.last().1).remove(k));
    }
}

/// Tile coordinate to structure id.
pub struct BuildingMap {
    entries: Vec<(Vec2i, BuildingId)>,
}

impl View for BuildingMap {
    type V = Map<Vec2i, BuildingId>;

    closed spec fn view(&self) -> Map<Vec2i, BuildingId> {
        assoc_map(self.entries@)
    }
}

impl BuildingMap {
    /// The internal entry list never holds two entries for one tile.
    pub closed spec fn wf(self) -> bool {
        keys_unique(self.entries@)
    }

    /// An empty map.
    pub fn new() -> (r: Self)
        ensures
            r@ == Map::<Vec2i, BuildingId>::empty(),
            r.wf(),
    {
        BuildingMap { entries: Vec::new() }
    }

    fn index_of(&self, pos: &Vec2i) -> (r: Option<usize>)
        ensures
            match r {
                Some(i) => i < self.entries@.len() && self.entries@[i as int].0 == *pos,
                None => forall|l: int| 0 <= l < self.entries@.len() ==> self.entries@[l].0 != *pos,
            },
    {
        let n = self.entries.len();
        let mut i: usize = 0;
        while i < n
            invariant
                n == self.entries@.len(),
                i <= n,
                forall|l: int| 0 <= l < i ==> self.entries@[l].0 != *pos,
            decreases n - i,
        {
            if self.entries[i].0 == *pos {
                return Some(i);
            }
            i = i + 1;
        }
        None
    }

    /// The id occupying `pos`, if any.
    pub fn get(&self, pos: &Vec2i) -> (r: Option<BuildingId>)
        requires
            self.wf(),
        ensures
            r == if self@.contains_key(*pos) {
                Some(self@[*pos])
            } else {
                None::<BuildingId>
            },
    {
        match self.index_of(pos) {
            Some(i) => {
                proof {
                    lemma_assoc_found(self.entries@, *pos, i as int);
                }
                Some(self.entries[i].1)
            },
            None => {
                proof {
                    lemma_assoc_absent(self.entries@, *pos);
                }
                None
            },
        }
    }

    /// Map `pos` to `id`, replacing what was there.
    pub fn insert(&mut self, pos: Vec2i, id: BuildingId)
        requires
            old(self).wf(),
        ensures
            final(self)@ == old(self)@.insert(pos, id),
            final(self).wf(),
    {
        match self.index_of(&pos) {
            Some(i) => {
                proof {
                    lemma_assoc_update(self.entries@, i as int, id);
                }
                self.entries[i] = (pos, id);
            },
            None => {
                let ghost s0 = self.entries@;
                self.entries.push((pos, id));
                proof {
                    assert(self.entries@.drop_last() =~= s0);
                }
            },
        }
    }

    /// Clear `pos`, returning the id that occupied it.
    pub fn remove(&mut self, pos: &Vec2i) -> (r: Option<BuildingId>)
        requires
            old(self).wf(),
        ensures
            final(self)@ == old(self)@.remove(*pos),
            final(self).wf(),
            r == if old(self)@.contains_key(*pos) {
                Some(old(self)@[*pos])
            } else {
                None::<BuildingId>
            },
    {
        match self.index_of(pos) {
            Some(i) => {
                proof {
                    lemma_assoc_found(self.entries@, *pos, i as int);
                    lemma_assoc_remove(self.entries@, i as int);
                }
                let entry = self.entries.remove(i);
                Some(entry.1)
            },
            None => {
                proof {
                    lemma_assoc_absent(self.entries@, *pos);
                    assert(self@ =~= self@.remove(*pos));
                }
                None
            },
        }
    }

    /// Remove every entry.
    pub fn clear(&mut self)
        ensures
            final(self)@ == Map::<Vec2i, BuildingId>::empty(),
            final(self).wf(),
    {
        self.entries.clear();
    }
}

} // verus!
