//! A table keyed by endpoint identity.

use vstd::prelude::*;

use crate::addr::EndpointId;

verus! {

/// Holds at most one value for each peer.
#[derive(Debug)]
pub struct PeerTable<T> {
    entries: Vec<(EndpointId, T)>,
}

/// Position `i` of `entries` belongs to `key`.
spec fn keyed_at<T>(entries: Seq<(EndpointId, T)>, key: Seq<u8>, i: int) -> bool {
    0 <= i < entries.len() && entries[i].0@ == key
}

spec fn index_of<T>(entries: Seq<(EndpointId, T)>, key: Seq<u8>) -> int {
    choose|i: int| keyed_at(entries, key, i)
}

spec fn contents<T>(entries: Seq<(EndpointId, T)>) -> Map<Seq<u8>, T> {
    Map::new(
        |key: Seq<u8>| exists|i: int| keyed_at(entries, key, i),
        |key: Seq<u8>| entries[index_of(entries, key)].1,
    )
}

spec fn distinct<T>(entries: Seq<(EndpointId, T)>) -> bool {
    forall|i: int, j: int|
        0 <= i < entries.len() && 0 <= j < entries.len() && #[trigger] entries[i].0@
            == #[trigger] entries[j].0@ ==> i == j
}

proof fn lemma_contents_at<T>(entries: Seq<(EndpointId, T)>, i: int)
    requires
        distinct(entries),
        0 <= i < entries.len(),
    ensures
        contents(entries).dom().contains(entries[i].0@),
        contents(entries)[entries[i].0@] == entries[i].1,
{
    assert(keyed_at(entries, entries[i].0@, i));
    let j = index_of(entries, entries[i].0@);
    assert(entries[j].0@ == entries[i].0@);
}

proof fn lemma_contents_update<T>(entries: Seq<(EndpointId, T)>, i: int, value: T)
    requires
        distinct(entries),
        0 <= i < entries.len(),
    ensures
        distinct(entries.update(i, (entries[i].0, value))),
        contents(entries.update(i, (entries[i].0, value))) == contents(entries).insert(
            entries[i].0@,
            value,
        ),
{
    let key = entries[i].0@;
    let updated = entries.update(i, (entries[i].0, value));
    assert(distinct(updated));
    assert forall|k: Seq<u8>| #[trigger]
        contents(updated).dom().contains(k) <==> contents(entries).insert(
            key,
            value,
        ).dom().contains(k) by {
        if k == key {
            lemma_contents_at(updated, i);
        } else {
            if contents(updated).dom().contains(k) {
                assert(keyed_at(entries, k, index_of(updated, k)));
            }
            if contents(entries).dom().contains(k) {
                assert(keyed_at(updated, k, index_of(entries, k)));
            }
        }
    }
    assert forall|k: Seq<u8>| #[trigger] contents(updated).dom().contains(k) implies contents(
        updated,
    )[k] == contents(entries).insert(key, value)[k] by {
        let j = index_of(updated, k);
        lemma_contents_at(updated, j);
        if k != key {
            lemma_contents_at(entries, j);
        } else {
            assert(updated[i].0@ == updated[j].0@);
        }
    }
    assert(contents(updated) =~= contents(entries).insert(key, value));
}

proof fn lemma_contents_push<T>(entries: Seq<(EndpointId, T)>, id: EndpointId, value: T)
    requires
        distinct(entries),
        !contents(entries).dom().contains(id@),
    ensures
        distinct(entries.push((id, value))),
        contents(entries.push((id, value))) == contents(entries).insert(id@, value),
{
    let pushed = entries.push((id, value));
    assert forall|i: int| 0 <= i < entries.len() implies (#[trigger] entries[i]).0@ != id@ by {
        lemma_contents_at(entries, i);
    }
    assert forall|i: int, j: int|
        0 <= i < pushed.len() && 0 <= j < pushed.len() && #[trigger] pushed[i].0@
            == #[trigger] pushed[j].0@ implies i == j by {
        if i < entries.len() {
            assert(pushed[i] == entries[i]);
        }
        if j < entries.len() {
            assert(pushed[j] == entries[j]);
        }
    }
    assert forall|k: Seq<u8>| #[trigger]
        contents(pushed).dom().contains(k) <==> contents(entries).insert(
            id@,
            value,
        ).dom().contains(k) by {
        if k == id@ {
            lemma_contents_at(pushed, entries.len() as int);
        } else {
            if contents(pushed).dom().contains(k) {
                assert(keyed_at(entries, k, index_of(pushed, k)));
            }
            if contents(entries).dom().contains(k) {
                assert(keyed_at(pushed, k, index_of(entries, k)));
            }
        }
    }
    assert forall|k: Seq<u8>| #[trigger] contents(pushed).dom().contains(k) implies contents(
        pushed,
    )[k] == contents(entries).insert(id@, value)[k] by {
        let j = index_of(pushed, k);
        lemma_contents_at(pushed, j);
        if k != id@ {
            lemma_contents_at(entries, j);
        } else {
            assert(pushed[entries.len() as int].0@ == pushed[j].0@);
        }
    }
    assert(contents(pushed) =~= contents(entries).insert(id@, value));
}

proof fn lemma_contents_remove<T>(entries: Seq<(EndpointId, T)>, i: int)
    requires
        distinct(entries),
        0 <= i < entries.len(),
    ensures
        distinct(entries.remove(i)),
        contents(entries.remove(i)) == contents(entries).remove(entries[i].0@),
{
    let key = entries[i].0@;
    let left = entries.remove(i);
    assert forall|a: int| 0 <= a < left.len() implies #[trigger] left[a] == entries[if a < i {
        a
    } else {
        a + 1
    }] by {}
    assert forall|a: int, b: int|
        0 <= a < left.len() && 0 <= b < left.len() && #[trigger] left[a].0@
            == #[trigger] left[b].0@ implies a == b by {
        let a0 = if a < i { a } else { a + 1 };
        let b0 = if b < i { b } else { b + 1 };
        assert(entries[a0].0@ == entries[b0].0@);
    }
    assert forall|k: Seq<u8>| #[trigger]
        contents(left).dom().contains(k) <==> contents(entries).remove(key).dom().contains(k) by {
        if contents(left).dom().contains(k) {
            let a = index_of(left, k);
            let a0 = if a < i { a } else { a + 1 };
            assert(keyed_at(entries, k, a0));
            if k == key {
                assert(entries[a0].0@ == entries[i].0@);
            }
        }
        if contents(entries).remove(key).dom().contains(k) {
            let a = index_of(entries, k);
            assert(keyed_at(entries, k, a));
            assert(a != i);
            assert(keyed_at(left, k, if a < i { a } else { a - 1 }));
        }
    }
    assert forall|k: Seq<u8>| #[trigger] contents(left).dom().contains(k) implies contents(
        left,
    )[k] == contents(entries).remove(key)[k] by {
        let a = index_of(left, k);
        let a0 = if a < i { a } else { a + 1 };
        lemma_contents_at(left, a);
        lemma_contents_at(entries, a0);
    }
    assert(contents(left) =~= contents(entries).remove(key));
}

impl<T> PeerTable<T> {
    /// The value held for each peer, by the bytes of its key.
    pub closed spec fn view(&self) -> Map<Seq<u8>, T> {
        contents(self.entries@)
    }

    /// No peer occurs twice.
    pub closed spec fn wf(&self) -> bool {
        distinct(self.entries@)
    }

    /// An empty table.
    pub fn new() -> (table: Self)
        ensures
            table.wf(),
            table@ == Map::<Seq<u8>, T>::empty(),
    {
        let table = PeerTable { entries: Vec::new() };
        assert(table@ =~= Map::<Seq<u8>, T>::empty());
        table
    }

    fn position(&self, id: &EndpointId) -> (found: Option<usize>)
        requires
            self.wf(),
        ensures
            match found {
                Some(i) => {
                    &&& i < self.entries.len()
                    &&& self.entries[i as int].0@ == id@
                    &&& self@.dom().contains(id@)
                    &&& self@[id@] == self.entries[i as int].1
                },
                None => !self@.dom().contains(id@),
            },
    {
        let mut i: usize = 0;
        while i < self.entries.len()
            invariant
                i <= self.entries.len(),
                self.wf(),
                forall|j: int| 0 <= j < i ==> (#[trigger] self.entries[j]).0@ != id@,
            decreases self.entries.len() - i,
        {
            if self.entries[i].0.same(id) {
                proof {
                    lemma_contents_at(self.entries@, i as int);
                }
                return Some(i);
            }
            i = i + 1;
        }
        None
    }

    /// Whether a value is held for the peer.
    pub fn contains(&self, id: &EndpointId) -> (held: bool)
        requires
            self.wf(),
        ensures
            held == self@.dom().contains(id@),
    {
        self.position(id).is_some()
    }

    /// The value held for the peer.
    pub fn get(&self, id: &EndpointId) -> (value: Option<&T>)
        requires
            self.wf(),
        ensures
            match value {
                Some(value) => self@.dom().contains(id@) && *value == self@[id@],
                None => !self@.dom().contains(id@),
            },
    {
        match self.position(id) {
            Some(i) => Some(&self.entries[i].1),
            None => None,
        }
    }

    /// The value held for the peer, to be changed in place.
    pub fn get_mut(&mut self, id: &EndpointId) -> (value: Option<&mut T>)
        requires
            old(self).wf(),
        ensures
            match value {
                Some(value) => {
                    &&& old(self)@.dom().contains(id@)
                    &&& *value == old(self)@[id@]
                    &&& final(self)@ == old(self)@.insert(id@, *final(value))
                    &&& final(self).wf()
                },
                None => !old(self)@.dom().contains(id@) && *final(self) == *old(self),
            },
    {
        match self.position(id) {
            Some(i) => {
                let ghost entries = self.entries@;
                let value = &mut self.entries[i].1;
                proof {
                    lemma_contents_update(entries, i as int, *final(value));
                }
                Some(value)
            },
            None => None,
        }
    }

    /// Holds `value` for the peer, in place of what was held before.
    pub fn insert(&mut self, id: EndpointId, value: T)
        requires
            old(self).wf(),
        ensures
            final(self).wf(),
            final(self)@ == old(self)@.insert(id@, value),
    {
        match self.position(&id) {
            Some(i) => {
                proof {
                    lemma_contents_update(self.entries@, i as int, value);
                }
                self.entries[i].1 = value;
            },
            None => {
                proof {
                    lemma_contents_push(self.entries@, id, value);
                }
                self.entries.push((id, value));
            },
        }
    }

    /// Stops holding a value for the peer and hands out what was held.
    pub fn remove(&mut self, id: &EndpointId) -> (removed: Option<T>)
        requires
            old(self).wf(),
        ensures
            final(self).wf(),
            final(self)@ == old(self)@.remove(id@),
            match removed {
                Some(value) => old(self)@.dom().contains(id@) && value == old(self)@[id@],
                None => !old(self)@.dom().contains(id@),
            },
    {
        match self.position(id) {
            Some(i) => {
                proof {
                    lemma_contents_remove(self.entries@, i as int);
                }
                let entry = self.entries.remove(i);
                Some(entry.1)
            },
            None => {
                assert(self@.remove(id@) =~= self@);
                None
            },
        }
    }

    /// Every peer for which a value is held, each once.
    pub fn ids(&self) -> (ids: Vec<EndpointId>)
        requires
            self.wf(),
        ensures
            forall|i: int|
                0 <= i < ids.len() ==> self@.dom().contains((#[trigger] ids[i])@),
            forall|key: Seq<u8>| #[trigger]
                self@.dom().contains(key) ==> exists|i: int|
                    0 <= i < ids.len() && (#[trigger] ids[i])@ == key,
            forall|i: int, j: int|
                0 <= i < ids.len() && 0 <= j < ids.len() && (#[trigger] ids[i])@ == (
                #[trigger] ids[j])@ ==> i == j,
    {
        let mut ids: Vec<EndpointId> = Vec::new();
        let mut i: usize = 0;
        while i < self.entries.len()
            invariant
                self.wf(),
                i <= self.entries.len(),
                ids.len() == i,
                forall|j: int| 0 <= j < i ==> (#[trigger] ids[j])@ == self.entries[j].0@,
            decreases self.entries.len() - i,
        {
            ids.push(self.entries[i].0);
            i = i + 1;
        }
        proof {
            assert forall|j: int| 0 <= j < ids.len() implies self@.dom().contains(
                (#[trigger] ids[j])@,
            ) by {
                lemma_contents_at(self.entries@, j);
            }
            assert forall|key: Seq<u8>| #[trigger]
                self@.dom().contains(key) implies exists|j: int|
                0 <= j < ids.len() && (#[trigger] ids[j])@ == key by {
                let j = index_of(self.entries@, key);
                assert(keyed_at(self.entries@, key, j));
                assert(ids[j]@ == key);
            }
            assert forall|a: int, b: int|
                0 <= a < ids.len() && 0 <= b < ids.len() && (#[trigger] ids[a])@ == (
                #[trigger] ids[b])@ implies a == b by {
                assert(self.entries[a].0@ == self.entries[b].0@);
            }
        }
        ids
    }
}

} // verus!
