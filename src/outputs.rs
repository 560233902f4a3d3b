use vstd::prelude::*;

verus! {

/// No identifier occurs twice among the entries.
pub open spec fn keys_unique<P>(entries: Seq<(u64, P)>) -> bool {
    forall|a: int, b: int|
        0 <= a < b < entries.len() ==> #[trigger] entries[a].0 != #[trigger] entries[b].0
}

/// Some entry carries `id`.
pub open spec fn has_key<P>(entries: Seq<(u64, P)>, id: u64) -> bool {
    exists|i: int| 0 <= i < entries.len() && #[trigger] entries[i].0 == id
}

/// The map that entries with unique identifiers stand for.
pub open spec fn entries_map<P>(entries: Seq<(u64, P)>) -> Map<u64, P> {
    Map::new(
        |id: u64| has_key(entries, id),
        |id: u64| entries[choose|i: int| 0 <= i < entries.len() && #[trigger] entries[i].0 == id].1,
    )
}

/// With unique identifiers, the entry at `i` gives the value of its identifier.
pub proof fn lemma_entry_value<P>(entries: Seq<(u64, P)>, i: int)
    requires
        keys_unique(entries),
        0 <= i < entries.len(),
    ensures
        entries_map(entries).contains_key(entries[i].0),
        entries_map(entries)[entries[i].0] == entries[i].1,
{
    let id = entries[i].0;
    assert(has_key(entries, id));
    let c = choose|c: int| 0 <= c < entries.len() && #[trigger] entries[c].0 == id;
    if c < i {
        assert(entries[c].0 != entries[i].0);
    } else if c > i {
        assert(entries[i].0 != entries[c].0);
    }
}

/// Payloads by node identifier: what a run produced, or what a job supplies.
pub struct Outputs<P> {
    entries: Vec<(u64, P)>,
}

impl<P> View for Outputs<P> {
    type V = Map<u64, P>;

    closed spec fn view(&self) -> Map<u64, P> {
        entries_map(self.entries@)
    }
}

fn position<P>(entries: &Vec<(u64, P)>, id: u64) -> (r: Option<usize>)
    ensures
        r matches Some(i) ==> i < entries.len() && entries@[i as int].0 == id,
        r is None ==> !has_key(entries@, id),
{
    let mut i: usize = 0;
    while i < entries.len()
        invariant
            i <= entries.len(),
            forall|j: int| 0 <= j < i ==> #[trigger] entries@[j].0 != id,
        decreases entries.len() - i,
    {
        if entries[i].0 == id {
            return Some(i);
        }
        i += 1;
    }
    None
}

impl<P> Outputs<P> {
    pub closed spec fn wf(&self) -> bool {
        keys_unique(self.entries@)
    }

    /// The entries in storage order.
    pub closed spec fn entries_view(&self) -> Seq<(u64, P)> {
        self.entries@
    }

    /// The entries list each identifier once and stand for the map.
    pub proof fn lemma_entries(&self)
        requires
            self.wf(),
        ensures
            keys_unique(self.entries_view()),
            self@ == entries_map(self.entries_view()),
    {
    }

    pub fn new() -> (r: Self)
        ensures
            r.wf(),
            r@ == Map::<u64, P>::empty(),
    {
        let r = Outputs { entries: Vec::new() };
        assert(r@ =~= Map::<u64, P>::empty());
        r
    }

    /// The payload of the node with identifier `id`, if present.
    pub fn get(&self, id: u64) -> (r: Option<&P>)
        requires
            self.wf(),
        ensures
            r == (if self@.contains_key(id) {
                Some(&self@[id])
            } else {
                None
            }),
    {
        match position(&self.entries, id) {
            Some(i) => {
                proof {
                    lemma_entry_value(self.entries@, i as int);
                }
                Some(&self.entries[i].1)
            },
            None => None,
        }
    }

    /// Whether the node with identifier `id` has a payload.
    pub fn contains(&self, id: u64) -> (r: bool)
        requires
            self.wf(),
        ensures
            r == self@.contains_key(id),
    {
        position(&self.entries, id).is_some()
    }

    /// Stores `payload` for `id`, replacing what was there.
    pub fn insert(&mut self, id: u64, payload: P)
        requires
            old(self).wf(),
        ensures
            final(self).wf(),
            final(self)@ == old(self)@.insert(id, payload),
    {
        let ghost before = self.entries@;
        match position(&self.entries, id) {
            Some(i) => {
                self.entries.set(i, (id, payload));
                proof {
                    let after = self.entries@;
                    assert(after == before.update(i as int, (id, payload)));
                    assert forall|a: int, b: int| 0 <= a < b < after.len() implies #[trigger] after[a].0
                        != #[trigger] after[b].0 by {
                        assert(before[a].0 != before[b].0);
                    }
                    assert forall|k: u64| #[trigger] has_key(after, k) == (has_key(before, k) || k == id) by {
                        if has_key(before, k) {
                            let j = choose|j: int| 0 <= j < before.len() && #[trigger] before[j].0 == k;
                            assert(after[j].0 == k);
                        }
                        if has_key(after, k) {
                            let j = choose|j: int| 0 <= j < after.len() && #[trigger] after[j].0 == k;
                            assert(before[j].0 == k);
                        }
                        assert(after[i as int].0 == id);
                    }
                    assert forall|k: u64| #[trigger] has_key(after, k) implies entries_map(after)[k] == entries_map(
                        before,
                    ).insert(id, payload)[k] by {
                        let j = choose|j: int| 0 <= j < after.len() && #[trigger] after[j].0 == k;
                        lemma_entry_value(after, j);
                        if k != id {
                            lemma_entry_value(before, j);
                        }
                    }
                    assert(entries_map(after) =~= entries_map(before).insert(id, payload));
                }
            },
            None => {
                self.entries.push((id, payload));
                proof {
                    let after = self.entries@;
                    assert(after == before.push((id, payload)));
                    assert forall|a: int, b: int| 0 <= a < b < after.len() implies #[trigger] after[a].0
                        != #[trigger] after[b].0 by {
                        if b < before.len() {
                            assert(before[a].0 != before[b].0);
                        } else {
                            assert(before[a].0 != id);
                        }
                    }
                    assert forall|k: u64| #[trigger] has_key(after, k) == (has_key(before, k) || k == id) by {
                        if has_key(before, k) {
                            let j = choose|j: int| 0 <= j < before.len() && #[trigger] before[j].0 == k;
                            assert(after[j].0 == k);
                        }
                        if has_key(after, k) && k != id {
                            let j = choose|j: int| 0 <= j < after.len() && #[trigger] after[j].0 == k;
                            assert(before[j].0 == k);
                        }
                        assert(after[before.len() as int].0 == id);
                    }
                    assert forall|k: u64| #[trigger] has_key(after, k) implies entries_map(after)[k] == entries_map(
                        before,
                    ).insert(id, payload)[k] by {
                        let j = choose|j: int| 0 <= j < after.len() && #[trigger] after[j].0 == k;
                        lemma_entry_value(after, j);
                        if k != id {
                            lemma_entry_value(before, j);
                        }
                    }
                    assert(entries_map(after) =~= entries_map(before).insert(id, payload));
                }
            },
        }
    }

    /// Removes and returns the payload of `id`, if present.
    pub fn take(&mut self, id: u64) -> (r: Option<P>)
        requires
            old(self).wf(),
        ensures
            final(self).wf(),
            final(self)@ == old(self)@.remove(id),
            r == (if old(self)@.contains_key(id) {
                Some(old(self)@[id])
            } else {
                None
            }),
    {
        let ghost before = self.entries@;
        match position(&self.entries, id) {
            Some(i) => {
                proof {
                    lemma_entry_value(before, i as int);
                }
                let (_, payload) = self.entries.remove(i);
                proof {
                    let after = self.entries@;
                    assert(after == before.remove(i as int));
                    assert forall|a: int, b: int| 0 <= a < b < after.len() implies #[trigger] after[a].0
                        != #[trigger] after[b].0 by {
                        if b < i {
                            assert(before[a].0 != before[b].0);
                        } else if a < i {
                            assert(before[a].0 != before[b + 1].0);
                        } else {
                            assert(before[a + 1].0 != before[b + 1].0);
                        }
                    }
                    assert forall|k: u64| #[trigger] has_key(after, k) == (has_key(before, k) && k != id) by {
                        if has_key(before, k) && k != id {
                            let j = choose|j: int| 0 <= j < before.len() && #[trigger] before[j].0 == k;
                            if j < i {
                                assert(after[j].0 == k);
                            } else {
                                assert(after[j - 1].0 == k);
                            }
                        }
                        if has_key(after, k) {
                            let j = choose|j: int| 0 <= j < after.len() && #[trigger] after[j].0 == k;
                            if j < i {
                                assert(before[j].0 == k);
                                assert(before[j].0 != before[i as int].0);
                            } else {
                                assert(before[j + 1].0 == k);
                                assert(before[i as int].0 != before[j + 1].0);
                            }
                        }
                    }
                    assert forall|k: u64| #[trigger] has_key(after, k) implies entries_map(after)[k] == entries_map(
                        before,
                    ).remove(id)[k] by {
                        let j = choose|j: int| 0 <= j < after.len() && #[trigger] after[j].0 == k;
                        lemma_entry_value(after, j);
                        if j < i {
                            lemma_entry_value(before, j);
                        } else {
                            lemma_entry_value(before, j + 1);
                        }
                    }
                    assert(entries_map(after) =~= entries_map(before).remove(id));
                }
                Some(payload)
            },
            None => {
                assert(entries_map(before).remove(id) =~= entries_map(before));
                None
            },
        }
    }

    /// The identifiers that hold a payload, each once.
    pub fn ids(&self) -> (r: Vec<u64>)
        requires
            self.wf(),
        ensures
            r@.no_duplicates(),
            r@.to_set() == self@.dom(),
    {
        let mut r: Vec<u64> = Vec::new();
        let mut i: usize = 0;
        while i < self.entries.len()
            invariant
                i <= self.entries.len(),
                keys_unique(self.entries@),
                r@.len() == i,
                forall|j: int| 0 <= j < i ==> #[trigger] r@[j] == self.entries@[j].0,
            decreases self.entries.len() - i,
        {
            r.push(self.entries[i].0);
            i += 1;
        }
        proof {
            assert forall|a: int, b: int| 0 <= a < r@.len() && 0 <= b < r@.len() && a != b implies r@[a]
                != r@[b] by {
                if a < b {
                    assert(self.entries@[a].0 != self.entries@[b].0);
                } else {
                    assert(self.entries@[b].0 != self.entries@[a].0);
                }
            }
            assert forall|k: u64| #[trigger] r@.to_set().contains(k) == self@.dom().contains(k) by {
                if r@.contains(k) {
                    let j = choose|j: int| 0 <= j < r@.len() && r@[j] == k;
                    assert(self.entries@[j].0 == k);
                }
                if has_key(self.entries@, k) {
                    let j = choose|j: int| 0 <= j < self.entries@.len() && #[trigger] self.entries@[j].0 == k;
                    assert(r@[j] == k);
                }
            }
            assert(r@.to_set() =~= self@.dom());
        }
        r
    }

    /// The entries, each identifier once, in storage order.
    pub fn into_entries(self) -> (r: Vec<(u64, P)>)
        requires
            self.wf(),
        ensures
            keys_unique(r@),
            entries_map(r@) == self@,
    {
        self.entries
    }
}

} // verus!
