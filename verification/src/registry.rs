//! The asset registry bridge and its lifecycle notification sink.
//!
//! Each flattened `(path, item)` pair is registered under its path. The
//! first registration of a path creates an entry with a fresh, stable
//! identity and reports an `Added` event; every later registration of the
//! same path overwrites the stored item in place, keeps the identity, and
//! reports a `Modified` event. A removal is driven from outside: it deletes
//! the entry and reports a `Removed` event, and a path registered again
//! after a removal gets a new identity.

use vstd::prelude::*;

use crate::model::ItemAsset;
use crate::paths::str_eq;

verus! {

/// The stable identity a registered path keeps across content updates.
#[derive(Clone, Copy, PartialEq, Eq, Structural, Debug)]
pub struct Identity {
    pub id: u64,
}

/// Registration fails only when no fresh identity can be allocated.
#[derive(Clone, Copy, PartialEq, Eq, Structural, Debug)]
pub struct RegistrationError;

/// One registered entry: a path, its stable identity, and the stored item.
pub struct RegisteredEntry {
    pub path: String,
    pub identity: Identity,
    pub item: ItemAsset,
}

/// A lifecycle notification, keyed by path and identity.
pub enum LifecycleEvent {
    Added { path: String, identity: Identity },
    Modified { path: String, identity: Identity },
    Removed { path: String, identity: Identity },
}

/// The registry: the entry table, the pending notifications in order, and
/// the next identity to hand out.
pub struct Registry {
    entries: Vec<RegisteredEntry>,
    events: Vec<LifecycleEvent>,
    next_id: u64,
}

/// The abstraction of one entry.
pub struct EntryV {
    pub path: Seq<char>,
    pub id: u64,
    pub text: Seq<char>,
}

/// The abstraction of one lifecycle notification.
pub enum EventV {
    Added(Seq<char>, u64),
    Modified(Seq<char>, u64),
    Removed(Seq<char>, u64),
}

/// The abstraction of the registry.
pub struct RegistryV {
    pub entries: Seq<EntryV>,
    pub events: Seq<EventV>,
    pub next: u64,
}

impl RegisteredEntry {
    pub open spec fn view(&self) -> EntryV {
        EntryV { path: self.path@, id: self.identity.id, text: self.item.text@ }
    }
}

impl LifecycleEvent {
    pub open spec fn view(&self) -> EventV {
        match self {
            LifecycleEvent::Added { path, identity } => EventV::Added(path@, identity.id),
            LifecycleEvent::Modified { path, identity } => EventV::Modified(path@, identity.id),
            LifecycleEvent::Removed { path, identity } => EventV::Removed(path@, identity.id),
        }
    }
}

impl Registry {
    pub closed spec fn view(&self) -> RegistryV {
        RegistryV {
            entries: self.entries@.map_values(|e: RegisteredEntry| e@),
            events: self.events@.map_values(|e: LifecycleEvent| e@),
            next: self.next_id,
        }
    }
}

/// The first index at or after `k` whose entry has the given path, or -1.
pub open spec fn find_from(entries: Seq<EntryV>, path: Seq<char>, k: int) -> int
    decreases entries.len() - k,
{
    if 0 <= k < entries.len() {
        if entries[k].path == path {
            k
        } else {
            find_from(entries, path, k + 1)
        }
    } else {
        -1
    }
}

/// Whether some entry has the given path.
pub open spec fn has_path(m: RegistryV, path: Seq<char>) -> bool {
    find_from(m.entries, path, 0) >= 0
}

/// Well-formedness of a registry: paths and identities are unique, and every
/// identity was handed out before `next`.
pub open spec fn wf(m: RegistryV) -> bool {
    &&& forall|i: int| 0 <= i < m.entries.len() ==> (#[trigger] m.entries[i]).id < m.next
    &&& forall|i: int, j: int|
        0 <= i < j < m.entries.len() ==> (#[trigger] m.entries[i]).path != (
        #[trigger] m.entries[j]).path
    &&& forall|i: int, j: int|
        0 <= i < j < m.entries.len() ==> (#[trigger] m.entries[i]).id != (
        #[trigger] m.entries[j]).id
}

/// What one registration does: a known path keeps its entry and identity and
/// gets new content and a `Modified` event; a fresh path gets a new entry
/// under the next identity and an `Added` event; when no identity is left,
/// nothing changes and the registration fails.
pub open spec fn register_tr(m: RegistryV, path: Seq<char>, text: Seq<char>) -> (
    RegistryV,
    Result<u64, RegistrationError>,
) {
    let i = find_from(m.entries, path, 0);
    if i >= 0 {
        let id = m.entries[i].id;
        (
            RegistryV {
                entries: m.entries.update(i, EntryV { path: path, id: id, text: text }),
                events: m.events.push(EventV::Modified(path, id)),
                next: m.next,
            },
            Ok(id),
        )
    } else if m.next < u64::MAX {
        (
            RegistryV {
                entries: m.entries.push(EntryV { path: path, id: m.next, text: text }),
                events: m.events.push(EventV::Added(path, m.next)),
                next: (m.next + 1) as u64,
            },
            Ok(m.next),
        )
    } else {
        (m, Err(RegistrationError))
    }
}

/// What one removal does: a known path loses its entry and gets a `Removed`
/// event; an unknown path changes nothing.
pub open spec fn remove_tr(m: RegistryV, path: Seq<char>) -> (RegistryV, Option<u64>) {
    let i = find_from(m.entries, path, 0);
    if i >= 0 {
        let id = m.entries[i].id;
        (
            RegistryV {
                entries: m.entries.remove(i),
                events: m.events.push(EventV::Removed(path, id)),
                next: m.next,
            },
            Some(id),
        )
    } else {
        (m, None)
    }
}

/// What `find_from` finds: the first match at or after `k`, if any.
pub proof fn lemma_find_from(entries: Seq<EntryV>, path: Seq<char>, k: int)
    requires
        0 <= k <= entries.len(),
    ensures
        ({
            let r = find_from(entries, path, k);
            &&& r == -1 ==> forall|j: int|
                k <= j < entries.len() ==> (#[trigger] entries[j]).path != path
            &&& r != -1 ==> k <= r < entries.len() && entries[r].path == path && (forall|j: int|
                k <= j < r ==> (#[trigger] entries[j]).path != path)
        }),
    decreases entries.len() - k,
{
    if k < entries.len() && entries[k].path != path {
        lemma_find_from(entries, path, k + 1);
    }
}

/// `find_from` returns the index of a match that nothing earlier matches.
pub proof fn lemma_find_from_is(entries: Seq<EntryV>, path: Seq<char>, i: int)
    requires
        0 <= i < entries.len(),
        entries[i].path == path,
        forall|j: int| 0 <= j < i ==> (#[trigger] entries[j]).path != path,
    ensures
        find_from(entries, path, 0) == i,
{
    lemma_find_from(entries, path, 0);
    let r = find_from(entries, path, 0);
    if r == -1 {
        assert(entries[i].path != path);
    } else if r < i {
        assert(entries[r].path != path);
    } else if r > i {
        assert(entries[i].path != path);
    }
}

/// A registration preserves well-formedness: paths and identities stay
/// unique and every identity stays below the next one to hand out.
pub proof fn lemma_register_tr_wf(m: RegistryV, path: Seq<char>, text: Seq<char>)
    requires
        wf(m),
    ensures
        wf(register_tr(m, path, text).0),
{
    let i = find_from(m.entries, path, 0);
    lemma_find_from(m.entries, path, 0);
    let m1 = register_tr(m, path, text).0;
    if i >= 0 {
        assert forall|a: int, b: int| 0 <= a < b < m1.entries.len() implies (
        #[trigger] m1.entries[a]).path != (#[trigger] m1.entries[b]).path && (
        #[trigger] m1.entries[a]).id != (#[trigger] m1.entries[b]).id by {
            assert(m1.entries[a].path == m.entries[a].path);
            assert(m1.entries[b].path == m.entries[b].path);
            assert(m1.entries[a].id == m.entries[a].id);
            assert(m1.entries[b].id == m.entries[b].id);
        }
        assert forall|a: int| 0 <= a < m1.entries.len() implies (#[trigger] m1.entries[a]).id
            < m1.next by {
            assert(m1.entries[a].id == m.entries[a].id);
        }
    } else if m.next < u64::MAX {
        assert forall|a: int, b: int| 0 <= a < b < m1.entries.len() implies (
        #[trigger] m1.entries[a]).path != (#[trigger] m1.entries[b]).path && (
        #[trigger] m1.entries[a]).id != (#[trigger] m1.entries[b]).id by {
            assert(m1.entries[a] == m.entries[a]);
            if b < m.entries.len() {
                assert(m1.entries[b] == m.entries[b]);
            } else {
                assert(m1.entries[b].path == path && m1.entries[b].id == m.next);
            }
        }
    }
}

/// Idempotent re-registration: registering the same `(path, text)` twice
/// yields the same identity both times, and the second registration reports
/// exactly one `Modified` event and no `Added` event.
pub proof fn lemma_register_idempotent(m: RegistryV, path: Seq<char>, text: Seq<char>)
    requires
        wf(m),
        register_tr(m, path, text).1 is Ok,
    ensures
        ({
            let (m1, r1) = register_tr(m, path, text);
            let (m2, r2) = register_tr(m1, path, text);
            &&& r2 == r1
            &&& m2.events == m1.events.push(EventV::Modified(path, r1->Ok_0))
        }),
{
    lemma_register_again(m, path, text, text);
}

/// Reloading updates the content and preserves the identity: registering
/// `path` with one text and then registering it again with another leaves
/// exactly one entry under `path`, holding the second text under the same
/// identity that the first registration yielded.
pub proof fn lemma_reregister_updates_content(
    m: RegistryV,
    path: Seq<char>,
    t1: Seq<char>,
    t2: Seq<char>,
)
    requires
        wf(m),
        register_tr(m, path, t1).1 is Ok,
    ensures
        ({
            let (m1, r1) = register_tr(m, path, t1);
            let (m2, r2) = register_tr(m1, path, t2);
            let i = find_from(m2.entries, path, 0);
            &&& r2 == r1
            &&& 0 <= i < m2.entries.len()
            &&& m2.entries[i].path == path
            &&& m2.entries[i].text == t2
            &&& m2.entries[i].id == r1->Ok_0
            &&& forall|j: int|
                0 <= j < m2.entries.len() && j != i ==> (#[trigger] m2.entries[j]).path != path
        }),
{
    lemma_register_again(m, path, t1, t2);
    lemma_register_tr_wf(m, path, t1);
    let (m1, r1) = register_tr(m, path, t1);
    let (m2, r2) = register_tr(m1, path, t2);
    let i = find_from(m1.entries, path, 0);
    lemma_find_from(m1.entries, path, 0);
    assert(m2.entries[i] == EntryV { path: path, id: r1->Ok_0, text: t2 });
    lemma_find_from_is(m2.entries, path, i);
    assert forall|j: int| 0 <= j < m2.entries.len() && j != i implies (
    #[trigger] m2.entries[j]).path != path by {
        assert(m2.entries[j] == m1.entries[j]);
    }
}

/// After a successful registration of `path`, registering it again finds the
/// entry: it keeps the identity, stores the new text at the same index, and
/// reports exactly one `Modified` event.
proof fn lemma_register_again(m: RegistryV, path: Seq<char>, t1: Seq<char>, t2: Seq<char>)
    requires
        wf(m),
        register_tr(m, path, t1).1 is Ok,
    ensures
        ({
            let (m1, r1) = register_tr(m, path, t1);
            let (m2, r2) = register_tr(m1, path, t2);
            let i = find_from(m1.entries, path, 0);
            &&& r2 == r1
            &&& 0 <= i < m1.entries.len()
            &&& find_from(m1.entries, path, 0) == i
            &&& m2 == RegistryV {
                entries: m1.entries.update(i, EntryV { path: path, id: r1->Ok_0, text: t2 }),
                events: m1.events.push(EventV::Modified(path, r1->Ok_0)),
                next: m1.next,
            }
        }),
{
    let i0 = find_from(m.entries, path, 0);
    lemma_find_from(m.entries, path, 0);
    let (m1, r1) = register_tr(m, path, t1);
    if i0 >= 0 {
        assert(m1.entries[i0].path == path);
        assert forall|j: int| 0 <= j < i0 implies (#[trigger] m1.entries[j]).path != path by {
            assert(m1.entries[j] == m.entries[j]);
        }
        lemma_find_from_is(m1.entries, path, i0);
    } else {
        let n = m.entries.len() as int;
        assert(m1.entries[n].path == path);
        assert forall|j: int| 0 <= j < n implies (#[trigger] m1.entries[j]).path != path by {
            assert(m1.entries[j] == m.entries[j]);
        }
        lemma_find_from_is(m1.entries, path, n);
    }
}

impl Registry {
    /// An empty registry: no entries, no pending events, identities start
    /// at zero.
    pub fn new() -> (r: Registry)
        ensures
            r@ == (RegistryV { entries: Seq::empty(), events: Seq::empty(), next: 0 }),
            wf(r@),
    {
        let r = Registry { entries: Vec::new(), events: Vec::new(), next_id: 0 };
        proof {
            assert(r@.entries =~= Seq::<EntryV>::empty());
            assert(r@.events =~= Seq::<EventV>::empty());
        }
        r
    }

    /// Registers `item` under `path`, as [`register_tr`] says: it keeps the
    /// identity and reports `Modified` for a known path, allocates a fresh
    /// identity and reports `Added` for a new one, and fails only when the
    /// identity space is exhausted, changing nothing.
    pub fn register(&mut self, path: String, item: ItemAsset) -> (r: Result<
        Identity,
        RegistrationError,
    >)
        requires
            wf(old(self)@),
        ensures
            wf(final(self)@),
            final(self)@ == register_tr(old(self)@, path@, item@).0,
            match r {
                Ok(identity) => register_tr(old(self)@, path@, item@).1 == Ok::<
                    u64,
                    RegistrationError,
                >(identity.id),
                Err(e) => register_tr(old(self)@, path@, item@).1 == Err::<
                    u64,
                    RegistrationError,
                >(e),
            },
    {
        let ghost m = self@;
        let ghost target = register_tr(m, path@, item@);
        let mut k: usize = 0;
        while k < self.entries.len()
            invariant
                *self == *old(self),
                m == self@,
                wf(m),
                target == register_tr(m, path@, item@),
                k <= self.entries.len(),
                forall|j: int| 0 <= j < k ==> (#[trigger] m.entries[j]).path != path@,
            decreases self.entries.len() - k,
        {
            if self.entries[k].path == path {
                let identity = self.entries[k].identity;
                proof {
                    assert(m.entries[k as int] == self.entries@[k as int]@);
                    lemma_find_from_is(m.entries, path@, k as int);
                }
                self.entries[k] = RegisteredEntry { path, identity, item };
                let event_path = self.entries[k].path.clone();
                self.events.push(LifecycleEvent::Modified { path: event_path, identity });
                proof {
                    assert(self@.entries =~= target.0.entries);
                    assert(self@.events =~= target.0.events);
                    assert(self@ == target.0);
                    assert forall|i: int, j: int|
                        0 <= i < j < self@.entries.len() implies (
                    #[trigger] self@.entries[i]).path != (#[trigger] self@.entries[j]).path by {
                        assert(m.entries[i].path == self@.entries[i].path);
                        assert(m.entries[j].path == self@.entries[j].path);
                    }
                }
                return Ok(identity);
            }
            proof {
                assert(m.entries[k as int] == self.entries@[k as int]@);
            }
            k = k + 1;
        }
        proof {
            lemma_find_from(m.entries, path@, 0);
            if find_from(m.entries, path@, 0) >= 0 {
                assert(m.entries[find_from(m.entries, path@, 0)].path != path@);
            }
        }
        if self.next_id == u64::MAX {
            return Err(RegistrationError);
        }
        let identity = Identity { id: self.next_id };
        self.next_id = self.next_id + 1;
        let event_path = path.clone();
        self.entries.push(RegisteredEntry { path, identity, item });
        self.events.push(LifecycleEvent::Added { path: event_path, identity });
        proof {
            assert(self@.entries =~= target.0.entries);
            assert(self@.events =~= target.0.events);
            assert(self@ == target.0);
            assert forall|i: int, j: int| 0 <= i < j < self@.entries.len() implies (
            #[trigger] self@.entries[i]).path != (#[trigger] self@.entries[j]).path && (
            #[trigger] self@.entries[i]).id != (#[trigger] self@.entries[j]).id by {
                if j < m.entries.len() {
                    assert(m.entries[i] == self@.entries[i]);
                    assert(m.entries[j] == self@.entries[j]);
                } else {
                    assert(m.entries[i] == self@.entries[i]);
                    assert(self@.entries[j].path == path@);
                    assert(self@.entries[j].id == m.next);
                }
            }
        }
        Ok(identity)
    }

    /// Removes the entry under `path`, if any, and reports a `Removed`
    /// event for it, as [`remove_tr`] says.
    pub fn remove(&mut self, path: &str) -> (r: Option<Identity>)
        requires
            wf(old(self)@),
        ensures
            wf(final(self)@),
            final(self)@ == remove_tr(old(self)@, path@).0,
            match r {
                Some(identity) => remove_tr(old(self)@, path@).1 == Some(identity.id),
                None => remove_tr(old(self)@, path@).1 is None,
            },
    {
        let ghost m = self@;
        let ghost target = remove_tr(m, path@);
        let mut k: usize = 0;
        while k < self.entries.len()
            invariant
                *self == *old(self),
                m == self@,
                wf(m),
                target == remove_tr(m, path@),
                k <= self.entries.len(),
                forall|j: int| 0 <= j < k ==> (#[trigger] m.entries[j]).path != path@,
            decreases self.entries.len() - k,
        {
            if str_eq(self.entries[k].path.as_str(), path) {
                let entry = self.entries.remove(k);
                proof {
                    assert(m.entries[k as int] == entry@);
                    lemma_find_from_is(m.entries, path@, k as int);
                }
                self.events.push(
                    LifecycleEvent::Removed { path: entry.path, identity: entry.identity },
                );
                proof {
                    assert(self@.entries =~= target.0.entries);
                    assert(self@.events =~= target.0.events);
                    assert(self@ == target.0);
                    assert forall|i: int, j: int|
                        0 <= i < j < self@.entries.len() implies (
                    #[trigger] self@.entries[i]).path != (#[trigger] self@.entries[j]).path && (
                    #[trigger] self@.entries[i]).id != (#[trigger] self@.entries[j]).id by {
                        let i0 = if i < k { i } else { i + 1 };
                        let j0 = if j < k { j } else { j + 1 };
                        assert(self@.entries[i] == m.entries[i0]);
                        assert(self@.entries[j] == m.entries[j0]);
                    }
                }
                return Some(entry.identity);
            }
            proof {
                assert(m.entries[k as int] == self.entries@[k as int]@);
            }
            k = k + 1;
        }
        proof {
            lemma_find_from(m.entries, path@, 0);
            if find_from(m.entries, path@, 0) >= 0 {
                assert(m.entries[find_from(m.entries, path@, 0)].path != path@);
            }
        }
        None
    }

    /// Hands out the pending lifecycle events in order and clears the queue.
    pub fn take_events(&mut self) -> (evs: Vec<LifecycleEvent>)
        ensures
            evs@.map_values(|e: LifecycleEvent| e@) == old(self)@.events,
            final(self)@.events == Seq::<EventV>::empty(),
            final(self)@.entries == old(self)@.entries,
            final(self)@.next == old(self)@.next,
    {
        let mut evs: Vec<LifecycleEvent> = Vec::new();
        core::mem::swap(&mut evs, &mut self.events);
        proof {
            assert(self@.events =~= Seq::<EventV>::empty());
        }
        evs
    }

    /// The number of registered entries.
    pub fn len(&self) -> (n: usize)
        ensures
            n == self@.entries.len(),
    {
        self.entries.len()
    }

    /// The entry registered under `path`, if any.
    pub fn get(&self, path: &str) -> (r: Option<&RegisteredEntry>)
        ensures
            match r {
                Some(entry) => {
                    let i = find_from(self@.entries, path@, 0);
                    i >= 0 && entry@ == self@.entries[i]
                },
                None => !has_path(self@, path@),
            },
    {
        let ghost m = self@;
        let mut k: usize = 0;
        while k < self.entries.len()
            invariant
                m == self@,
                k <= self.entries.len(),
                forall|j: int| 0 <= j < k ==> (#[trigger] m.entries[j]).path != path@,
            decreases self.entries.len() - k,
        {
            if str_eq(self.entries[k].path.as_str(), path) {
                proof {
                    assert(m.entries[k as int] == self.entries@[k as int]@);
                    lemma_find_from_is(m.entries, path@, k as int);
                }
                return Some(&self.entries[k]);
            }
            proof {
                assert(m.entries[k as int] == self.entries@[k as int]@);
            }
            k = k + 1;
        }
        proof {
            lemma_find_from(m.entries, path@, 0);
            if find_from(m.entries, path@, 0) >= 0 {
                assert(m.entries[find_from(m.entries, path@, 0)].path != path@);
            }
        }
        None
    }
}

} // verus!
