use vstd::prelude::*;

verus! {

/// A table from names to values; adding a name that is already present
/// replaces its value, and `count` is the number of distinct names.
#[derive(Debug)]
pub struct KeyMap<T> {
    pub count: usize,
    pub entries: Vec<(String, T)>,
}

/// The table that a run of additions, in order, makes of `m`.
pub open spec fn after_adds<T>(m: Map<Seq<char>, T>, ops: Seq<(Seq<char>, T)>) -> Map<Seq<char>, T>
    decreases ops.len(),
{
    if ops.len() == 0 {
        m
    } else {
        after_adds(m, ops.drop_last()).insert(ops.last().0, ops.last().1)
    }
}

/// After a run of additions to an empty table, a name is present exactly
/// when some addition gave it.
pub proof fn law_present_after_adds<T>(ops: Seq<(Seq<char>, T)>, k: Seq<char>)
    ensures
        after_adds(Map::<Seq<char>, T>::empty(), ops).dom().contains(k) <==> exists|i: int|
            0 <= i < ops.len() && #[trigger] ops[i].0 == k,
    decreases ops.len(),
{
    if ops.len() > 0 {
        let pre = ops.drop_last();
        let n = ops.len() - 1;
        law_present_after_adds(pre, k);
        if exists|i: int| 0 <= i < ops.len() && #[trigger] ops[i].0 == k {
            let i = choose|i: int| 0 <= i < ops.len() && #[trigger] ops[i].0 == k;
            if i < n {
                assert(pre[i].0 == k);
            }
        }
        if exists|i: int| 0 <= i < pre.len() && #[trigger] pre[i].0 == k {
            let i = choose|i: int| 0 <= i < pre.len() && #[trigger] pre[i].0 == k;
            assert(ops[i].0 == k);
        }
        assert(ops[n].0 == ops.last().0);
    }
}

/// After a run of additions, a name holds the value of the last addition
/// that gave it.
pub proof fn law_value_after_adds<T>(ops: Seq<(Seq<char>, T)>, k: Seq<char>, i: int)
    requires
        0 <= i < ops.len(),
        ops[i].0 == k,
        forall|j: int| i < j < ops.len() ==> #[trigger] ops[j].0 != k,
    ensures
        after_adds(Map::<Seq<char>, T>::empty(), ops).dom().contains(k),
        after_adds(Map::<Seq<char>, T>::empty(), ops)[k] == ops[i].1,
    decreases ops.len(),
{
    let n = ops.len() - 1;
    assert(ops.last() == ops[n]);
    if i < n {
        let pre = ops.drop_last();
        assert(ops[n].0 != k);
        assert forall|j: int| i < j < pre.len() implies #[trigger] pre[j].0 != k by {
            assert(pre[j] == ops[j]);
        }
        law_value_after_adds(pre, k, i);
    }
}

impl<T> KeyMap<T> {
    /// The names held, in order of first insertion.
    pub open spec fn keys(&self) -> Seq<Seq<char>> {
        self.entries@.map_values(|e: (String, T)| e.0@)
    }

    /// No name occurs twice, and `count` is the number of entries.
    pub open spec fn wf(&self) -> bool {
        &&& self.count == self.entries@.len()
        &&& forall|i: int, j: int|
            0 <= i < j < self.entries@.len() ==> #[trigger] self.entries@[i].0@
                != #[trigger] self.entries@[j].0@
    }

    /// The table as a mathematical map.
    pub open spec fn view_map(&self) -> Map<Seq<char>, T> {
        Map::new(
            |k: Seq<char>| exists|i: int| 0 <= i < self.entries@.len() && self.entries@[i].0@ == k,
            |k: Seq<char>|
                self.entries@[choose|i: int| 0 <= i < self.entries@.len() && self.entries@[i].0@ == k].1,
        )
    }

    pub fn new() -> (m: KeyMap<T>)
        ensures
            m.wf(),
            m.count == 0,
            m.view_map() == Map::<Seq<char>, T>::empty(),
    {
        let m = KeyMap { count: 0, entries: Vec::new() };
        assert(m.view_map() =~= Map::<Seq<char>, T>::empty());
        m
    }

    fn find(&self, k: &String) -> (r: Option<usize>)
        ensures
            r matches Some(i) ==> i < self.entries@.len() && self.entries@[i as int].0@ == k@,
            r is None ==> forall|i: int| 0 <= i < self.entries@.len() ==> self.entries@[i].0@ != k@,
    {
        let mut i: usize = 0;
        while i < self.entries.len()
            invariant
                i <= self.entries@.len(),
                forall|j: int| 0 <= j < i ==> self.entries@[j].0@ != k@,
            decreases self.entries.len() - i,
        {
            if self.entries[i].0.eq(k) {
                return Some(i);
            }
            i = i + 1;
        }
        None
    }

    /// Adds or replaces the value of a name.
    pub fn add(&mut self, k: String, v: T)
        requires
            old(self).wf(),
            old(self).count < usize::MAX,
        ensures
            final(self).wf(),
            final(self).view_map() == old(self).view_map().insert(k@, v),
            final(self).count == if old(self).view_map().dom().contains(k@) {
                old(self).count as int
            } else {
                old(self).count + 1
            },
    {
        let ghost old_map = self.view_map();
        match self.find(&k) {
            Some(i) => {
                let ghost kk = k@;
                self.entries.set(i, (k, v));
                assert(old_map.dom().contains(kk));
                assert(self.view_map() =~= old_map.insert(kk, v)) by {
                    assert forall|key: Seq<char>| #[trigger] self.view_map().dom().contains(key) <==> old_map.insert(kk, v).dom().contains(key) by {
                        if old_map.dom().contains(key) {
                            let j = choose|j: int| 0 <= j < old(self).entries@.len() && old(self).entries@[j].0@ == key;
                            assert(self.entries@[j].0@ == key || j == i);
                        }
                    }
                    assert forall|key: Seq<char>| #[trigger] self.view_map().dom().contains(key) implies self.view_map()[key] == old_map.insert(kk, v)[key] by {
                        let j = choose|j: int| 0 <= j < self.entries@.len() && self.entries@[j].0@ == key;
                        if key == kk {
                            assert(j == i);
                        } else {
                            let j2 = choose|j: int| 0 <= j < old(self).entries@.len() && old(self).entries@[j].0@ == key;
                            assert(j2 == j);
                        }
                    }
                }
            },
            None => {
                let ghost kk = k@;
                self.entries.push((k, v));
                self.count = self.count + 1;
                assert(!old_map.dom().contains(kk));
                assert(self.view_map() =~= old_map.insert(kk, v)) by {
                    let n = old(self).entries@.len() as int;
                    assert(self.entries@[n].0@ == kk);
                    assert forall|key: Seq<char>| #[trigger] self.view_map().dom().contains(key) <==> old_map.insert(kk, v).dom().contains(key) by {
                        if old_map.dom().contains(key) {
                            let j = choose|j: int| 0 <= j < old(self).entries@.len() && old(self).entries@[j].0@ == key;
                            assert(self.entries@[j] == old(self).entries@[j]);
                        }
                        if self.view_map().dom().contains(key) && key != kk {
                            let j = choose|j: int| 0 <= j < self.entries@.len() && self.entries@[j].0@ == key;
                            assert(j < n);
                            assert(old(self).entries@[j].0@ == key);
                        }
                    }
                    assert forall|key: Seq<char>| #[trigger] self.view_map().dom().contains(key) implies self.view_map()[key] == old_map.insert(kk, v)[key] by {
                        let j = choose|j: int| 0 <= j < self.entries@.len() && self.entries@[j].0@ == key;
                        if key == kk {
                            assert(j == n);
                        } else {
                            let j2 = choose|j: int| 0 <= j < old(self).entries@.len() && old(self).entries@[j].0@ == key;
                            assert(j2 == j);
                        }
                    }
                }
            },
        }
    }

    /// `count` is the number of distinct names the table holds: adding a
    /// name already present leaves it unchanged.
    pub proof fn law_count_is_size(&self)
        requires
            self.wf(),
        ensures
            self.view_map().dom().finite(),
            self.view_map().dom().len() == self.count,
    {
        let ks = self.keys();
        assert(ks.no_duplicates()) by {
            assert forall|i: int, j: int| 0 <= i < ks.len() && 0 <= j < ks.len() && i != j implies ks[i] != ks[j] by {
                if i < j {
                    assert(self.entries@[i].0@ != self.entries@[j].0@);
                } else {
                    assert(self.entries@[j].0@ != self.entries@[i].0@);
                }
            }
        }
        ks.unique_seq_to_set();
        vstd::seq_lib::seq_to_set_is_finite(ks);
        assert(self.view_map().dom() =~= ks.to_set()) by {
            assert forall|k: Seq<char>| self.view_map().dom().contains(k) <==> ks.to_set().contains(k) by {
                if self.view_map().dom().contains(k) {
                    let i = choose|i: int| 0 <= i < self.entries@.len() && self.entries@[i].0@ == k;
                    assert(ks[i] == k);
                }
                if ks.contains(k) {
                    let i = choose|i: int| 0 <= i < ks.len() && ks[i] == k;
                    assert(self.entries@[i].0@ == k);
                }
            }
        }
    }

    /// Adding a name and looking it up gives the value added; the other
    /// names keep theirs; the count grows by one exactly when the name was
    /// new.
    pub proof fn law_add_then_search(before: &Self, after: &Self, k: Seq<char>, v: T, k2: Seq<char>)
        requires
            after.view_map() == before.view_map().insert(k, v),
            after.count == if before.view_map().dom().contains(k) { before.count as int } else { before.count + 1 },
        ensures
            after.view_map().dom().contains(k) && after.view_map()[k] == v,
            k2 != k ==> (after.view_map().dom().contains(k2) <==> before.view_map().dom().contains(k2)),
            k2 != k && before.view_map().dom().contains(k2) ==> after.view_map()[k2] == before.view_map()[k2],
            after.count == before.count + (if before.view_map().dom().contains(k) { 0int } else { 1int }),
    {
    }

    /// The value of a name, if present.
    pub fn search(&self, k: &String) -> (r: Option<&T>)
        requires
            self.wf(),
        ensures
            r matches Some(v) ==> self.view_map().dom().contains(k@) && *v == self.view_map()[k@],
            r is None ==> !self.view_map().dom().contains(k@),
    {
        match self.find(k) {
            Some(i) => {
                let ghost j = choose|j: int| 0 <= j < self.entries@.len() && self.entries@[j].0@ == k@;
                assert(j == i);
                Some(&self.entries[i].1)
            },
            None => None,
        }
    }
}

} // verus!
