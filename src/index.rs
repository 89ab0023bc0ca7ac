//! Grouping marked cells by the level that owns them.
use vstd::prelude::*;

use crate::grid::GridCoords;

verus! {

/// The marked cells gathered so far for one level.
pub struct LevelCells {
    pub level: u64,
    pub cells: Vec<GridCoords>,
}

/// Marked cells grouped by the identity of their level, levels in the order
/// in which they were first seen.
pub struct GridIndex {
    levels: Vec<LevelCells>,
}

impl View for GridIndex {
    type V = Map<u64, Set<GridCoords>>;

    /// Each level seen so far, with the set of its marked cells.
    closed spec fn view(&self) -> Map<u64, Set<GridCoords>> {
        Map::new(
            |id: u64| exists|k: int| 0 <= k < self.levels@.len() && #[trigger] self.levels@[k].level == id,
            |id: u64| Set::new(|c: GridCoords| exists|k: int| 0 <= k < self.levels@.len() && #[trigger] self.levels@[k].level == id && self.levels@[k].cells@.contains(c)),
        )
    }
}

impl GridIndex {
    /// No level appears twice.
    pub closed spec fn wf(&self) -> bool {
        forall|a: int, b: int| 0 <= a < b < self.levels@.len() ==> #[trigger] self.levels@[a].level != #[trigger] self.levels@[b].level
    }

    /// An index without levels.
    pub fn new() -> (r: GridIndex)
        ensures
            r.wf(),
            r@ == Map::<u64, Set<GridCoords>>::empty(),
    {
        let r = GridIndex { levels: Vec::new() };
        assert(r@ =~= Map::<u64, Set<GridCoords>>::empty());
        r
    }

    fn position(&self, level: u64) -> (r: Option<usize>)
        ensures
            match r {
                Some(k) => k < self.levels@.len() && self.levels@[k as int].level == level,
                None => forall|k: int| 0 <= k < self.levels@.len() ==> #[trigger] self.levels@[k].level != level,
            },
    {
        let mut k: usize = 0;
        while k < self.levels.len()
            invariant
                k <= self.levels@.len(),
                forall|j: int| 0 <= j < k ==> #[trigger] self.levels@[j].level != level,
            decreases self.levels@.len() - k,
        {
            if self.levels[k].level == level {
                return Some(k);
            }
            k = k + 1;
        }
        None
    }

    /// Records that cell `c` is marked in level `level`.
    pub fn insert(&mut self, level: u64, c: GridCoords)
        requires
            old(self).wf(),
        ensures
            final(self).wf(),
            final(self)@ == old(self)@.insert(
                level,
                if old(self)@.contains_key(level) { old(self)@[level].insert(c) } else { set![c] },
            ),
    {
        let ghost before = self@;
        let ghost old_levels = self.levels@;
        match self.position(level) {
            Some(k) => {
                let mut e = self.levels.remove(k);
                e.cells.push(c);
                self.levels.insert(k, e);
                proof {
                    let lv = self.levels@;
                    assert forall|j: int| 0 <= j < lv.len() && j != k implies #[trigger] lv[j] == old_levels[j] by {}
                    assert(before.contains_key(level)) by {
                        assert(old_levels[k as int].level == level);
                    }
                    let want = before.insert(level, before[level].insert(c));
                    assert forall|id: u64| #[trigger] self@.contains_key(id) <==> want.contains_key(id) by {
                        if want.contains_key(id) && id != level {
                            let j = choose|j: int| 0 <= j < old_levels.len() && #[trigger] old_levels[j].level == id;
                            assert(lv[j].level == id);
                        }
                        if id == level {
                            assert(lv[k as int].level == id);
                        }
                        if self@.contains_key(id) {
                            let j = choose|j: int| 0 <= j < lv.len() && #[trigger] lv[j].level == id;
                            if j != k {
                                assert(old_levels[j].level == id);
                            }
                        }
                    }
                    assert forall|id: u64| #[trigger] self@.contains_key(id) implies self@[id] == want[id] by {
                        assert forall|d: GridCoords| self@[id].contains(d) <==> want[id].contains(d) by {
                            if self@[id].contains(d) {
                                let j = choose|j: int| 0 <= j < lv.len() && #[trigger] lv[j].level == id && lv[j].cells@.contains(d);
                                if j != k {
                                    assert(old_levels[j].level == id && old_levels[j].cells@.contains(d));
                                    if id == level {
                                        assert(j == k);
                                    }
                                } else if d != c {
                                    let i = choose|i: int| 0 <= i < lv[j].cells@.len() && lv[j].cells@[i] == d;
                                    assert(old_levels[j].cells@[i] == d);
                                    assert(old_levels[j].cells@.contains(d));
                                }
                            }
                            if want[id].contains(d) {
                                if id == level && d == c {
                                    assert(lv[k as int].cells@[lv[k as int].cells@.len() - 1] == c);
                                    assert(lv[k as int].cells@.contains(c));
                                } else {
                                    let j = choose|j: int| 0 <= j < old_levels.len() && #[trigger] old_levels[j].level == id && old_levels[j].cells@.contains(d);
                                    let i = choose|i: int| 0 <= i < old_levels[j].cells@.len() && old_levels[j].cells@[i] == d;
                                    if j == k {
                                        assert(lv[j].cells@[i] == d);
                                    }
                                    assert(lv[j].cells@.contains(d));
                                }
                            }
                        }
                        assert(self@[id] =~= want[id]);
                    }
                    assert(self@ =~= want);
                }
            },
            None => {
                let mut cells: Vec<GridCoords> = Vec::new();
                cells.push(c);
                self.levels.push(LevelCells { level, cells });
                proof {
                    let lv = self.levels@;
                    let n = old_levels.len() as int;
                    assert forall|j: int| 0 <= j < n implies #[trigger] lv[j] == old_levels[j] by {}
                    assert(!before.contains_key(level));
                    let want = before.insert(level, set![c]);
                    assert forall|id: u64| #[trigger] self@.contains_key(id) <==> want.contains_key(id) by {
                        if want.contains_key(id) && id != level {
                            let j = choose|j: int| 0 <= j < old_levels.len() && #[trigger] old_levels[j].level == id;
                            assert(lv[j].level == id);
                        }
                        if id == level {
                            assert(lv[n].level == id);
                        }
                        if self@.contains_key(id) {
                            let j = choose|j: int| 0 <= j < lv.len() && #[trigger] lv[j].level == id;
                            if j < n {
                                assert(old_levels[j].level == id);
                            }
                        }
                    }
                    assert forall|id: u64| #[trigger] self@.contains_key(id) implies self@[id] == want[id] by {
                        assert forall|d: GridCoords| self@[id].contains(d) <==> want[id].contains(d) by {
                            if self@[id].contains(d) {
                                let j = choose|j: int| 0 <= j < lv.len() && #[trigger] lv[j].level == id && lv[j].cells@.contains(d);
                                if j < n {
                                    assert(old_levels[j].level == id && old_levels[j].cells@.contains(d));
                                } else {
                                    let i = choose|i: int| 0 <= i < lv[j].cells@.len() && lv[j].cells@[i] == d;
                                    assert(d == c);
                                }
                            }
                            if want[id].contains(d) {
                                if id == level {
                                    assert(lv[n].cells@[0] == c);
                                    assert(lv[n].cells@.contains(c));
                                } else {
                                    let j = choose|j: int| 0 <= j < old_levels.len() && #[trigger] old_levels[j].level == id && old_levels[j].cells@.contains(d);
                                    assert(lv[j] == old_levels[j]);
                                }
                            }
                        }
                        assert(self@[id] =~= want[id]);
                    }
                    assert(self@ =~= want);
                }
            },
        }
    }

    /// Groups a list of (cell, owning level) pairs by level.
    pub fn from_pairs(pairs: &Vec<(GridCoords, u64)>) -> (r: GridIndex)
        ensures
            r.wf(),
            forall|id: u64| #[trigger] r@.contains_key(id) <==> exists|i: int| 0 <= i < pairs@.len() && #[trigger] pairs@[i].1 == id,
            forall|id: u64, c: GridCoords| r@.contains_key(id) ==>
                (#[trigger] r@[id].contains(c) <==> pairs@.contains((c, id))),
    {
        let mut r = GridIndex::new();
        let mut i: usize = 0;
        while i < pairs.len()
            invariant
                i <= pairs@.len(),
                r.wf(),
                forall|id: u64| #[trigger] r@.contains_key(id) <==> exists|j: int| 0 <= j < i && #[trigger] pairs@[j].1 == id,
                forall|id: u64, c: GridCoords| r@.contains_key(id) ==>
                    (#[trigger] r@[id].contains(c) <==> pairs@.subrange(0, i as int).contains((c, id))),
            decreases pairs@.len() - i,
        {
            let (c, level) = pairs[i];
            let ghost before = r@;
            r.insert(level, c);
            proof {
                let old_sub = pairs@.subrange(0, i as int);
                let new_sub = pairs@.subrange(0, i + 1);
                assert(new_sub[i as int] == (c, level));
                assert forall|id: u64| #[trigger] r@.contains_key(id) <==> exists|j: int| 0 <= j < i + 1 && #[trigger] pairs@[j].1 == id by {
                    if exists|j: int| 0 <= j < i + 1 && #[trigger] pairs@[j].1 == id {
                        let j = choose|j: int| 0 <= j < i + 1 && #[trigger] pairs@[j].1 == id;
                        if j < i {
                            assert(before.contains_key(id));
                        }
                    }
                    if r@.contains_key(id) && id != level {
                        assert(before.contains_key(id));
                    }
                }
                assert forall|id: u64, d: GridCoords| r@.contains_key(id) implies
                    (#[trigger] r@[id].contains(d) <==> new_sub.contains((d, id))) by {
                    if old_sub.contains((d, id)) {
                        let j = choose|j: int| 0 <= j < old_sub.len() && old_sub[j] == (d, id);
                        assert(new_sub[j] == old_sub[j]);
                        assert(pairs@[j].1 == id);
                        assert(before.contains_key(id));
                    }
                    if new_sub.contains((d, id)) {
                        let j = choose|j: int| 0 <= j < new_sub.len() && new_sub[j] == (d, id);
                        if j < i {
                            assert(old_sub[j] == new_sub[j]);
                            assert(pairs@[j].1 == id);
                            assert(before.contains_key(id));
                        }
                    }
                    if id != level && before.contains_key(id) {
                        if new_sub.contains((d, id)) {
                            let j = choose|j: int| 0 <= j < new_sub.len() && new_sub[j] == (d, id);
                            assert(j < i);
                            assert(old_sub[j] == new_sub[j]);
                        }
                    }
                }
            }
            i = i + 1;
        }
        assert(pairs@.subrange(0, pairs@.len() as int) == pairs@);
        r
    }

    /// The marked cells of `level`, if any was recorded for it.
    pub fn cells_of(&self, level: u64) -> (r: Option<&Vec<GridCoords>>)
        requires
            self.wf(),
        ensures
            match r {
                Some(v) => self@.contains_key(level) && v@.to_set() == self@[level],
                None => !self@.contains_key(level),
            },
    {
        match self.position(level) {
            Some(k) => {
                let v = &self.levels[k].cells;
                proof {
                    let lv = self.levels@;
                    assert(self@.contains_key(level));
                    assert forall|d: GridCoords| v@.to_set().contains(d) <==> self@[level].contains(d) by {
                        if self@[level].contains(d) {
                            let j = choose|j: int| 0 <= j < lv.len() && #[trigger] lv[j].level == level && lv[j].cells@.contains(d);
                            if j != k {
                                if j < k {
                                    assert(lv[j].level != lv[k as int].level);
                                } else {
                                    assert(lv[k as int].level != lv[j].level);
                                }
                            }
                        }
                    }
                    assert(v@.to_set() =~= self@[level]);
                }
                Some(v)
            },
            None => None,
        }
    }
}

} // verus!
