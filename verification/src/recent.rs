use vstd::prelude::*;

verus! {

/// The latest evaluation received for each bridge, keyed by bridge
/// identifier. Each identifier occurs at most once.
pub struct RecentResults<V> {
    entries: Vec<(String, V)>,
}

/// Some entry of `entries` has identifier `id`.
pub open spec fn holds_id<V>(entries: Seq<(String, V)>, id: Seq<char>) -> bool {
    exists|i: int| 0 <= i < entries.len() && #[trigger] entries[i].0@ == id
}

/// The value stored under `id` in `entries`.
pub open spec fn value_of<V>(entries: Seq<(String, V)>, id: Seq<char>) -> V {
    entries[choose|i: int| 0 <= i < entries.len() && #[trigger] entries[i].0@ == id].1
}

/// No identifier occurs twice in `entries`.
pub open spec fn distinct_ids<V>(entries: Seq<(String, V)>) -> bool {
    forall|i: int, j: int|
        0 <= i < entries.len() && 0 <= j < entries.len() && i != j ==> entries[i].0@
            != entries[j].0@
}

/// The map from identifiers to values that `entries` holds.
pub open spec fn entries_map<V>(entries: Seq<(String, V)>) -> Map<Seq<char>, V> {
    Map::new(|id: Seq<char>| holds_id(entries, id), |id: Seq<char>| value_of(entries, id))
}

impl<V> View for RecentResults<V> {
    type V = Map<Seq<char>, V>;

    closed spec fn view(&self) -> Map<Seq<char>, V> {
        entries_map(self.entries@)
    }
}

impl<V> RecentResults<V> {
    #[verifier::type_invariant]
    closed spec fn ids_distinct(self) -> bool {
        distinct_ids(self.entries@)
    }

    /// An empty cache.
    pub fn new() -> (res: Self)
        ensures
            res@ == Map::<Seq<char>, V>::empty(),
    {
        let res = RecentResults { entries: Vec::new() };
        assert(res@ =~= Map::<Seq<char>, V>::empty());
        res
    }

    /// Records `result` as the latest evaluation of bridge `bridge_id`,
    /// replacing any earlier one.
    pub fn insert(&mut self, bridge_id: String, result: V)
        ensures
            final(self)@ == old(self)@.insert(bridge_id@, result),
    {
        proof {
            use_type_invariant(&*self);
        }
        let ghost id = bridge_id@;
        let mut entries: Vec<(String, V)> = Vec::new();
        std::mem::swap(&mut entries, &mut self.entries);
        let ghost old_entries = entries@;
        let mut i: usize = 0;
        let mut found = false;
        while i < entries.len() && !found
            invariant
                entries@ == old_entries,
                bridge_id@ == id,
                i <= entries.len(),
                found ==> i < entries.len() && entries@[i as int].0@ == id,
                forall|j: int| 0 <= j < i ==> entries@[j].0@ != id,
            decreases entries.len() - i + (if found { 0int } else { 1int }),
        {
            if entries[i].0 == bridge_id {
                found = true;
            } else {
                i = i + 1;
            }
        }
        if found {
            entries.set(i, (bridge_id, result));
            proof {
                let e = entries@;
                assert(distinct_ids(e)) by {
                    assert forall|a: int, b: int|
                        0 <= a < e.len() && 0 <= b < e.len() && a != b implies e[a].0@ != e[b].0@ by {
                        if a != i && b != i {
                            assert(e[a] == old_entries[a] && e[b] == old_entries[b]);
                        } else if a == i {
                            assert(old_entries[i as int].0@ == id);
                            assert(e[b] == old_entries[b]);
                        } else {
                            assert(old_entries[i as int].0@ == id);
                            assert(e[a] == old_entries[a]);
                        }
                    }
                }
                assert(entries_map(e) =~= entries_map(old_entries).insert(id, result)) by {
                    assert forall|k: Seq<char>| #[trigger] holds_id(e, k) == (holds_id(old_entries, k) || k == id) by {
                        if holds_id(old_entries, k) {
                            let j = choose|j: int| 0 <= j < old_entries.len() && #[trigger] old_entries[j].0@ == k;
                            if j == i {
                                assert(e[i as int].0@ == k);
                            } else {
                                assert(e[j].0@ == k);
                            }
                        }
                        if k == id {
                            assert(e[i as int].0@ == k);
                        }
                        if holds_id(e, k) {
                            let j = choose|j: int| 0 <= j < e.len() && #[trigger] e[j].0@ == k;
                            if j != i {
                                assert(old_entries[j].0@ == k);
                            }
                        }
                    }
                    assert forall|k: Seq<char>| #[trigger] holds_id(e, k) implies value_of(e, k)
                        == entries_map(old_entries).insert(id, result)[k] by {
                        let j = choose|j: int| 0 <= j < e.len() && #[trigger] e[j].0@ == k;
                        if k == id {
                            assert(e[i as int].0@ == k);
                            assert(j == i);
                        } else {
                            assert(j != i);
                            assert(old_entries[j].0@ == k);
                            let j2 = choose|j2: int| 0 <= j2 < old_entries.len() && #[trigger] old_entries[j2].0@ == k;
                            assert(j2 == j);
                        }
                    }
                }
            }
        } else {
            entries.push((bridge_id, result));
            proof {
                let e = entries@;
                let n = old_entries.len() as int;
                assert(distinct_ids(e)) by {
                    assert forall|a: int, b: int|
                        0 <= a < e.len() && 0 <= b < e.len() && a != b implies e[a].0@ != e[b].0@ by {
                        if a != n && b != n {
                            assert(e[a] == old_entries[a] && e[b] == old_entries[b]);
                        } else if a == n {
                            assert(e[b] == old_entries[b]);
                        } else {
                            assert(e[a] == old_entries[a]);
                        }
                    }
                }
                assert(entries_map(e) =~= entries_map(old_entries).insert(id, result)) by {
                    assert forall|k: Seq<char>| #[trigger] holds_id(e, k) == (holds_id(old_entries, k) || k == id) by {
                        if holds_id(old_entries, k) {
                            let j = choose|j: int| 0 <= j < old_entries.len() && #[trigger] old_entries[j].0@ == k;
                            assert(e[j].0@ == k);
                        }
                        if k == id {
                            assert(e[n].0@ == k);
                        }
                        if holds_id(e, k) {
                            let j = choose|j: int| 0 <= j < e.len() && #[trigger] e[j].0@ == k;
                            if j != n {
                                assert(old_entries[j].0@ == k);
                            }
                        }
                    }
                    assert forall|k: Seq<char>| #[trigger] holds_id(e, k) implies value_of(e, k)
                        == entries_map(old_entries).insert(id, result)[k] by {
                        let j = choose|j: int| 0 <= j < e.len() && #[trigger] e[j].0@ == k;
                        if k == id {
                            assert(e[n].0@ == k);
                            assert(j == n);
                        } else {
                            assert(j != n);
                            assert(old_entries[j].0@ == k);
                            let j2 = choose|j2: int| 0 <= j2 < old_entries.len() && #[trigger] old_entries[j2].0@ == k;
                            assert(j2 == j);
                        }
                    }
                }
            }
        }
        self.entries = entries;
    }

    /// The latest evaluation recorded for bridge `bridge_id`, if any.
    pub fn get(&self, bridge_id: &str) -> (res: Option<&V>)
        ensures
            match res {
                Some(v) => self@.contains_key(bridge_id@) && *v == self@[bridge_id@],
                None => !self@.contains_key(bridge_id@),
            },
    {
        proof {
            use_type_invariant(self);
        }
        let wanted: String = bridge_id.to_owned();
        let mut i: usize = 0;
        while i < self.entries.len()
            invariant
                i <= self.entries.len(),
                wanted@ == bridge_id@,
                distinct_ids(self.entries@),
                forall|j: int| 0 <= j < i ==> self.entries@[j].0@ != bridge_id@,
            decreases self.entries.len() - i,
        {
            if self.entries[i].0 == wanted {
                proof {
                    let e = self.entries@;
                    assert(e[i as int].0@ == bridge_id@);
                    let j = choose|j: int| 0 <= j < e.len() && #[trigger] e[j].0@ == bridge_id@;
                    assert(distinct_ids(e));
                    if j != i {
                        assert(e[j].0@ != e[i as int].0@);
                    }
                }
                return Some(&self.entries[i].1);
            }
            i = i + 1;
        }
        None
    }
}

} // verus!

verus! {

/// A read after a write: once bridge `id` has been recorded with `v`, the
/// cache answers `v` for `id`, and answers for every other bridge as it did
/// before the write.
pub proof fn law_read_after_write<V>(
    before: RecentResults<V>,
    after: RecentResults<V>,
    id: Seq<char>,
    v: V,
    other: Seq<char>,
)
    requires
        after@ == before@.insert(id, v),
    ensures
        after@.contains_key(id),
        after@[id] == v,
        other != id ==> after@.contains_key(other) == before@.contains_key(other),
        other != id && before@.contains_key(other) ==> after@[other] == before@[other],
{
}

/// A cache just made answers nothing for any bridge.
pub proof fn law_new_is_empty<V>(cache: RecentResults<V>, id: Seq<char>)
    requires
        cache@ == Map::<Seq<char>, V>::empty(),
    ensures
        !cache@.contains_key(id),
{
}

} // verus!
