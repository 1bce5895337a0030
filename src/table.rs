//! A small map from normalized document paths to values.
use crate::text::same_text;
use vstd::prelude::*;

verus! {

/// Entries keyed by path text, each path at most once.
pub struct PathTable<V> {
    entries: Vec<(String, V)>,
}

impl<V> PathTable<V> {
    /// No path occurs twice.
    pub closed spec fn wf(&self) -> bool {
        forall|i: int, j: int|
            0 <= i < j < self.entries@.len() ==> (#[trigger] self.entries@[i]).0@
                != (#[trigger] self.entries@[j]).0@
    }

    pub closed spec fn has(&self, p: Seq<char>) -> bool {
        exists|i: int| 0 <= i < self.entries@.len() && (#[trigger] self.entries@[i]).0@ == p
    }

    /// The table as a map from path text to value.
    pub closed spec fn view(&self) -> Map<Seq<char>, V> {
        Map::new(
            |p: Seq<char>| self.has(p),
            |p: Seq<char>|
                self.entries@[choose|i: int|
                    0 <= i < self.entries@.len() && (#[trigger] self.entries@[i]).0@ == p].1,
        )
    }

    /// An empty table.
    pub fn new() -> (r: Self)
        ensures
            r.wf(),
            r.view() =~= Map::<Seq<char>, V>::empty(),
    {
        PathTable { entries: Vec::new() }
    }

    fn find(&self, path: &str) -> (r: Option<usize>)
        requires
            self.wf(),
        ensures
            match r {
                Some(k) => k < self.entries@.len() && self.entries@[k as int].0@ == path@,
                None => !self.has(path@),
            },
    {
        let mut k: usize = 0;
        while k < self.entries.len()
            invariant
                k <= self.entries@.len(),
                forall|i: int| 0 <= i < k ==> (#[trigger] self.entries@[i]).0@ != path@,
            decreases self.entries.len() - k,
        {
            if same_text(self.entries[k].0.as_str(), path) {
                return Some(k);
            }
            k = k + 1;
        }
        None
    }

    /// The value stored for `path`.
    pub fn get(&self, path: &str) -> (r: Option<&V>)
        requires
            self.wf(),
        ensures
            match r {
                Some(v) => self.view().contains_key(path@) && *v == self.view()[path@],
                None => !self.view().contains_key(path@),
            },
    {
        match self.find(path) {
            Some(k) => {
                assert(self.has(path@));
                let ghost c = choose|i: int|
                    0 <= i < self.entries@.len() && (#[trigger] self.entries@[i]).0@ == path@;
                assert(c == k as int);
                Some(&self.entries[k].1)
            },
            None => None,
        }
    }

    /// Stores `value` for `path`, replacing what was there.
    pub fn insert(&mut self, path: String, value: V)
        requires
            old(self).wf(),
        ensures
            final(self).wf(),
            final(self).view() =~= old(self).view().insert(path@, value),
    {
        let ghost p = path@;
        let ghost before = self.entries@;
        match self.find(path.as_str()) {
            Some(k) => {
                self.entries.remove(k);
                self.entries.insert(k, (path, value));
                assert(self.entries@ =~= before.update(k as int, self.entries@[k as int]));
                assert forall|q: Seq<char>| #[trigger] self.has(q) == (old(self).has(q) || q == p) by {
                    if old(self).has(q) {
                        let i = choose|i: int| 0 <= i < before.len() && (#[trigger] before[i]).0@ == q;
                        if i == k {
                            assert(self.entries@[i].0@ == q);
                        } else {
                            assert(self.entries@[i].0@ == q);
                        }
                    }
                    if q == p {
                        assert(self.entries@[k as int].0@ == q);
                    }
                }
                assert forall|q: Seq<char>| self.has(q) implies self.view()[q] == old(self).view().insert(p, value)[q] by {
                    let i = choose|i: int|
                        0 <= i < self.entries@.len() && (#[trigger] self.entries@[i]).0@ == q;
                    if q == p {
                        assert(i == k);
                    } else {
                        assert(before[i].0@ == q);
                        let j = choose|j: int| 0 <= j < before.len() && (#[trigger] before[j]).0@ == q;
                        assert(i == j);
                    }
                }
            },
            None => {
                self.entries.push((path, value));
                let ghost n = before.len() as int;
                assert forall|q: Seq<char>| #[trigger] self.has(q) == (old(self).has(q) || q == p) by {
                    if old(self).has(q) {
                        let i = choose|i: int| 0 <= i < before.len() && (#[trigger] before[i]).0@ == q;
                        assert(self.entries@[i].0@ == q);
                    }
                    if q == p {
                        assert(self.entries@[n].0@ == q);
                    }
                }
                assert forall|q: Seq<char>| self.has(q) implies self.view()[q] == old(self).view().insert(p, value)[q] by {
                    let i = choose|i: int|
                        0 <= i < self.entries@.len() && (#[trigger] self.entries@[i]).0@ == q;
                    if q == p {
                        assert(i == n);
                    } else {
                        assert(before[i].0@ == q);
                        let j = choose|j: int| 0 <= j < before.len() && (#[trigger] before[j]).0@ == q;
                        assert(i == j);
                    }
                }
            },
        }
    }

    /// Removes every entry.
    pub fn clear(&mut self)
        ensures
            final(self).wf(),
            final(self).view() =~= Map::<Seq<char>, V>::empty(),
    {
        self.entries.clear();
    }
}

} // verus!
