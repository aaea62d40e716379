//! An ownership map from device keys to opaque page handles.
//!
//! Each key names at most one page. The registry is modelled as a map from the
//! key's characters to the page it owns; insertion is the only way in and
//! removal the only way out.
use vstd::prelude::*;

use crate::text::same_text;

verus! {

/// Whether some entry of `s` is keyed by `k`.
pub open spec fn holds_key<P>(s: Seq<(String, P)>, k: Seq<char>) -> bool {
    exists|i: int| 0 <= i < s.len() && #[trigger] s[i].0@ == k
}

/// No two entries of `s` share a key.
pub open spec fn unique_keys<P>(s: Seq<(String, P)>) -> bool {
    forall|i: int, j: int|
        0 <= i < s.len() && 0 <= j < s.len() && i != j ==> #[trigger] s[i].0@ != #[trigger] s[j].0@
}

/// The map that a list of keyed entries stands for.
pub open spec fn entries_map<P>(s: Seq<(String, P)>) -> Map<Seq<char>, P> {
    Map::new(
        |k: Seq<char>| holds_key(s, k),
        |k: Seq<char>| s[choose|i: int| 0 <= i < s.len() && #[trigger] s[i].0@ == k].1,
    )
}

proof fn lemma_entry<P>(s: Seq<(String, P)>, i: int)
    requires
        unique_keys(s),
        0 <= i < s.len(),
    ensures
        entries_map(s).contains_key(s[i].0@),
        entries_map(s)[s[i].0@] == s[i].1,
{
    let k = s[i].0@;
    assert(holds_key(s, k));
    let j = choose|j: int| 0 <= j < s.len() && #[trigger] s[j].0@ == k;
    assert(j == i);
}

/// A page added under a key, or the key's page removed.
#[derive(Debug)]
pub enum DriveEvent<P> {
    Added { key: String, page: P },
    Removed { key: String },
}

/// What one event does to the registry's map.
pub open spec fn step<P>(m: Map<Seq<char>, P>, ev: DriveEvent<P>) -> Map<Seq<char>, P> {
    match ev {
        DriveEvent::Added { key, page } => m.insert(key@, page),
        DriveEvent::Removed { key } => m.remove(key@),
    }
}

/// What a sequence of events, applied in order, does to the registry's map.
pub open spec fn replay<P>(m: Map<Seq<char>, P>, evs: Seq<DriveEvent<P>>) -> Map<Seq<char>, P>
    decreases evs.len(),
{
    if evs.len() == 0 {
        m
    } else {
        step(replay(m, evs.drop_last()), evs.last())
    }
}

/// The key that an event names.
pub open spec fn event_key<P>(ev: DriveEvent<P>) -> Seq<char> {
    match ev {
        DriveEvent::Added { key, .. } => key@,
        DriveEvent::Removed { key } => key@,
    }
}

/// Pages owned under unique keys.
#[derive(Debug)]
pub struct PageRegistry<P> {
    entries: Vec<(String, P)>,
}

impl<P> View for PageRegistry<P> {
    type V = Map<Seq<char>, P>;

    closed spec fn view(&self) -> Map<Seq<char>, P> {
        entries_map(self.entries@)
    }
}

impl<P> PageRegistry<P> {
    /// No two pages are held under the same key.
    pub closed spec fn wf(&self) -> bool {
        unique_keys(self.entries@)
    }

    /// How many pages are held.
    pub closed spec fn size(&self) -> nat {
        self.entries@.len()
    }

    /// An empty registry.
    pub fn new() -> (r: Self)
        ensures
            r.wf(),
            r@ == Map::<Seq<char>, P>::empty(),
            r.size() == 0,
    {
        let r = PageRegistry { entries: Vec::new() };
        assert(r@ =~= Map::<Seq<char>, P>::empty());
        r
    }

    /// How many pages are held: one for each key.
    pub fn len(&self) -> (r: usize)
        requires
            self.wf(),
        ensures
            r == self.size(),
            r == self@.dom().len(),
    {
        proof {
            lemma_size(self.entries@);
        }
        self.entries.len()
    }

    fn find(&self, key: &str) -> (r: Option<usize>)
        ensures
            match r {
                Some(i) => i < self.entries@.len() && self.entries@[i as int].0@ == key@,
                None => !holds_key(self.entries@, key@),
            },
    {
        let mut i: usize = 0;
        while i < self.entries.len()
            invariant
                i <= self.entries@.len(),
                forall|j: int| 0 <= j < i ==> #[trigger] self.entries@[j].0@ != key@,
            decreases self.entries@.len() - i,
        {
            if same_text(self.entries[i].0.as_str(), key) {
                return Some(i);
            }
            i = i + 1;
        }
        None
    }

    /// Whether a page is held under `key`.
    pub fn contains_key(&self, key: &str) -> (r: bool)
        requires
            self.wf(),
        ensures
            r == self@.contains_key(key@),
    {
        self.find(key).is_some()
    }

    /// The page held under `key`, if any.
    pub fn get(&self, key: &str) -> (r: Option<&P>)
        requires
            self.wf(),
        ensures
            match r {
                Some(p) => self@.contains_key(key@) && self@[key@] == *p,
                None => !self@.contains_key(key@),
            },
    {
        match self.find(key) {
            Some(i) => {
                proof {
                    lemma_entry(self.entries@, i as int);
                }
                Some(&self.entries[i].1)
            },
            None => None,
        }
    }

    /// Holds `page` under `key`. A page already held under that key is
    /// replaced and handed back, so that the caller can dispose of it.
    pub fn insert(&mut self, key: String, page: P) -> (r: Option<P>)
        requires
            old(self).wf(),
        ensures
            final(self).wf(),
            final(self)@ == old(self)@.insert(key@, page),
            match r {
                Some(p) => old(self)@.contains_key(key@) && old(self)@[key@] == p,
                None => !old(self)@.contains_key(key@),
            },
            final(self).size() == old(self).size() + if r is Some { 0nat } else { 1nat },
    {
        let ghost s = self.entries@;
        let ghost k = key@;
        match self.find(key.as_str()) {
            Some(i) => {
                proof {
                    lemma_entry(s, i as int);
                }
                let (_, prev) = self.entries.remove(i);
                self.entries.insert(i, (key, page));
                let ghost t = self.entries@;
                assert(t =~= s.update(i as int, t[i as int]));
                assert(unique_keys(t)) by {
                    assert forall|a: int, b: int|
                        0 <= a < t.len() && 0 <= b < t.len() && a != b implies #[trigger] t[a].0@
                        != #[trigger] t[b].0@ by {
                        assert(s[a].0@ != s[b].0@);
                    }
                }
                assert(self@ =~= entries_map(s).insert(k, page)) by {
                    assert forall|x: Seq<char>| #[trigger]
                        self@.contains_key(x) implies entries_map(s).insert(k, page).contains_key(
                        x,
                    ) && self@[x] == entries_map(s).insert(k, page)[x] by {
                        let j = choose|j: int| 0 <= j < t.len() && #[trigger] t[j].0@ == x;
                        lemma_entry(t, j);
                        lemma_entry(s, j);
                    }
                    assert forall|x: Seq<char>| #[trigger]
                        entries_map(s).insert(k, page).contains_key(x) implies self@.contains_key(
                        x,
                    ) by {
                        if x != k {
                            let j = choose|j: int| 0 <= j < s.len() && #[trigger] s[j].0@ == x;
                            assert(t[j].0@ == x);
                        } else {
                            assert(t[i as int].0@ == x);
                        }
                    }
                }
                Some(prev)
            },
            None => {
                self.entries.push((key, page));
                let ghost t = self.entries@;
                assert(t.drop_last() =~= s);
                assert(unique_keys(t)) by {
                    assert forall|a: int, b: int|
                        0 <= a < t.len() && 0 <= b < t.len() && a != b implies #[trigger] t[a].0@
                        != #[trigger] t[b].0@ by {
                        if a == s.len() {
                            assert(s[b].0@ == t[b].0@);
                        } else if b == s.len() {
                            assert(s[a].0@ == t[a].0@);
                        } else {
                            assert(s[a].0@ != s[b].0@);
                        }
                    }
                }
                assert(self@ =~= entries_map(s).insert(k, page)) by {
                    assert forall|x: Seq<char>| #[trigger]
                        self@.contains_key(x) implies entries_map(s).insert(k, page).contains_key(
                        x,
                    ) && self@[x] == entries_map(s).insert(k, page)[x] by {
                        let j = choose|j: int| 0 <= j < t.len() && #[trigger] t[j].0@ == x;
                        lemma_entry(t, j);
                        if j < s.len() {
                            lemma_entry(s, j);
                        }
                    }
                    assert forall|x: Seq<char>| #[trigger]
                        entries_map(s).insert(k, page).contains_key(x) implies self@.contains_key(
                        x,
                    ) by {
                        if x != k {
                            let j = choose|j: int| 0 <= j < s.len() && #[trigger] s[j].0@ == x;
                            assert(t[j].0@ == x);
                        } else {
                            assert(t[s.len() as int].0@ == x);
                        }
                    }
                }
                None
            },
        }
    }

    /// Takes the page held under `key` out of the registry, if there is one.
    /// Removing a key that is not held changes nothing.
    pub fn remove(&mut self, key: &str) -> (r: Option<P>)
        requires
            old(self).wf(),
        ensures
            final(self).wf(),
            final(self)@ == old(self)@.remove(key@),
            match r {
                Some(p) => old(self)@.contains_key(key@) && old(self)@[key@] == p,
                None => !old(self)@.contains_key(key@),
            },
            final(self).size() + if r is Some { 1nat } else { 0nat } == old(self).size(),
    {
        let ghost s = self.entries@;
        match self.find(key) {
            Some(i) => {
                proof {
                    lemma_entry(s, i as int);
                }
                let (_, prev) = self.entries.remove(i);
                let ghost t = self.entries@;
                assert(t =~= s.remove(i as int));
                proof {
                    lemma_remove_at(s, i as int);
                }
                assert(self@ =~= entries_map(s).remove(key@));
                Some(prev)
            },
            None => {
                assert(self@ =~= entries_map(s).remove(key@));
                None
            },
        }
    }

    /// Applies one event: an addition inserts (handing back a replaced
    /// page), a removal takes the key's page out.
    pub fn apply_event(&mut self, ev: DriveEvent<P>) -> (r: Option<P>)
        requires
            old(self).wf(),
        ensures
            final(self).wf(),
            final(self)@ == step(old(self)@, ev),
    {
        match ev {
            DriveEvent::Added { key, page } => self.insert(key, page),
            DriveEvent::Removed { key } => self.remove(key.as_str()),
        }
    }

    /// Applies events in the order given, and hands back every page that
    /// they took out of the registry.
    pub fn replay_events(&mut self, events: Vec<DriveEvent<P>>) -> (r: Vec<P>)
        requires
            old(self).wf(),
        ensures
            final(self).wf(),
            final(self)@ == replay(old(self)@, events@),
    {
        let ghost start = self@;
        let ghost all = events@;
        let mut events = events;
        let mut gone: Vec<P> = Vec::new();
        let total = events.len();
        let mut n: usize = 0;
        while events.len() > 0
            invariant
                self.wf(),
                n <= total,
                total == all.len(),
                events@ == all.subrange(n as int, all.len() as int),
                self@ == replay(start, all.subrange(0, n as int)),
            decreases events@.len(),
        {
            let ev = events.remove(0);
            assert(all.subrange(0, n + 1).drop_last() =~= all.subrange(0, n as int));
            if let Some(p) = self.apply_event(ev) {
                gone.push(p);
            }
            n = n + 1;
            assert(events@ =~= all.subrange(n as int, all.len() as int));
        }
        assert(all.subrange(0, n as int) =~= all);
        gone
    }

    /// Keeps only the pages whose key is listed in `keep`, and hands back the
    /// others.
    pub fn retain_keys(&mut self, keep: &Vec<String>) -> (r: Vec<P>)
        requires
            old(self).wf(),
        ensures
            final(self).wf(),
            final(self)@ == old(self)@.restrict(listed(keep@)),
            r@.len() + final(self).size() == old(self).size(),
            forall|g: int|
                0 <= g < r@.len() ==> held_outside(old(self)@, listed(keep@), #[trigger] r@[g]),
    {
        let ghost s = self.entries@;
        let ghost keys = listed(keep@);
        let mut rest: Vec<(String, P)> = Vec::new();
        std::mem::swap(&mut self.entries, &mut rest);
        let mut gone: Vec<P> = Vec::new();
        let total = rest.len();
        let mut n: usize = 0;
        let ghost mut origin: Seq<int> = Seq::empty();
        while rest.len() > 0
            invariant
                total == s.len(),
                keys == listed(keep@),
                n <= s.len(),
                rest@ == s.subrange(n as int, s.len() as int),
                unique_keys(s),
                origin.len() == self.entries@.len(),
                forall|j: int|
                    0 <= j < origin.len() ==> 0 <= #[trigger] origin[j] < n && s[origin[j]]
                        == self.entries@[j] && keys.contains(self.entries@[j].0@),
                forall|j: int, l: int|
                    0 <= j < l < origin.len() ==> #[trigger] origin[j] < #[trigger] origin[l],
                forall|a: int|
                    0 <= a < n && keys.contains(#[trigger] s[a].0@) ==> exists|j: int|
                        0 <= j < origin.len() && origin[j] == a,
                gone@.len() + self.entries@.len() == n,
                forall|g: int|
                    0 <= g < gone@.len() ==> dropped_before(s, n as int, keys, #[trigger] gone@[g]),
            decreases rest@.len(),
        {
            let e = rest.remove(0);
            assert(e == s[n as int]);
            let listed_here = key_listed(keep, e.0.as_str());
            if listed_here {
                let ghost o = origin;
                self.entries.push(e);
                proof {
                    origin = origin.push(n as int);
                }
                assert forall|a: int|
                    0 <= a < n + 1 && keys.contains(#[trigger] s[a].0@) implies exists|j: int|
                    0 <= j < origin.len() && origin[j] == a by {
                    if a == n {
                        assert(origin[o.len() as int] == a);
                    } else {
                        let j = choose|j: int| 0 <= j < o.len() && o[j] == a;
                        assert(origin[j] == a);
                    }
                }
            } else {
                assert forall|a: int|
                    0 <= a < n + 1 && keys.contains(#[trigger] s[a].0@) implies exists|j: int|
                    0 <= j < origin.len() && origin[j] == a by {
                    if a == n {
                        assert(false);
                    }
                }
                let ghost g0 = gone@;
                gone.push(e.1);
                assert forall|g: int| 0 <= g < gone@.len() implies dropped_before(s, n + 1, keys, #[trigger] gone@[g]) by {
                    if g < g0.len() {
                        assert(dropped_before(s, n as int, keys, g0[g]));
                        let a = choose|a: int| 0 <= a < n && #[trigger] s[a].1 == g0[g] && !keys.contains(s[a].0@);
                        assert(s[a].1 == gone@[g]);
                    } else {
                        assert(s[n as int].1 == gone@[g]);
                    }
                }
            }
            n = n + 1;
            assert(rest@ =~= s.subrange(n as int, s.len() as int));
        }
        let ghost t = self.entries@;
        assert(unique_keys(t)) by {
            assert forall|a: int, b: int|
                0 <= a < t.len() && 0 <= b < t.len() && a != b implies #[trigger] t[a].0@
                != #[trigger] t[b].0@ by {
                if a < b {
                    assert(origin[a] < origin[b]);
                } else {
                    assert(origin[b] < origin[a]);
                }
                assert(s[origin[a]].0@ != s[origin[b]].0@);
            }
        }
        assert(self@ =~= entries_map(s).restrict(keys)) by {
            assert forall|x: Seq<char>| #[trigger]
                self@.contains_key(x) implies entries_map(s).restrict(keys).contains_key(x)
                && self@[x] == entries_map(s)[x] by {
                let j = choose|j: int| 0 <= j < t.len() && #[trigger] t[j].0@ == x;
                lemma_entry(t, j);
                lemma_entry(s, origin[j]);
            }
            assert forall|x: Seq<char>| #[trigger]
                entries_map(s).restrict(keys).contains_key(x) implies self@.contains_key(x) by {
                let a = choose|a: int| 0 <= a < s.len() && #[trigger] s[a].0@ == x;
                let j = choose|j: int| 0 <= j < origin.len() && origin[j] == a;
                assert(t[j].0@ == x);
            }
        }
        assert forall|g: int| 0 <= g < gone@.len() implies held_outside(entries_map(s), keys, #[trigger] gone@[g]) by {
            assert(dropped_before(s, n as int, keys, gone@[g]));
            let a = choose|a: int| 0 <= a < n && #[trigger] s[a].1 == gone@[g] && !keys.contains(s[a].0@);
            lemma_entry(s, a);
            assert(entries_map(s)[s[a].0@] == gone@[g]);
        }
        gone
    }
}

/// One of the first `n` entries of `s` holds `p` under a key outside `keys`.
spec fn dropped_before<P>(s: Seq<(String, P)>, n: int, keys: Set<Seq<char>>, p: P) -> bool {
    exists|a: int| 0 <= a < n && #[trigger] s[a].1 == p && !keys.contains(s[a].0@)
}

/// `p` is held in `m` under some key outside `keys`.
pub open spec fn held_outside<P>(m: Map<Seq<char>, P>, keys: Set<Seq<char>>, p: P) -> bool {
    exists|k: Seq<char>| m.contains_key(k) && !keys.contains(k) && #[trigger] m[k] == p
}

/// The keys that a list of strings names.
pub open spec fn listed(keys: Seq<String>) -> Set<Seq<char>> {
    Set::new(|k: Seq<char>| exists|j: int| 0 <= j < keys.len() && #[trigger] keys[j]@ == k)
}

/// Whether `key` is one of `keys`.
pub fn key_listed(keys: &Vec<String>, key: &str) -> (r: bool)
    ensures
        r == listed(keys@).contains(key@),
{
    let mut i: usize = 0;
    while i < keys.len()
        invariant
            i <= keys@.len(),
            forall|j: int| 0 <= j < i ==> #[trigger] keys@[j]@ != key@,
        decreases keys@.len() - i,
    {
        if same_text(keys[i].as_str(), key) {
            return true;
        }
        i = i + 1;
    }
    false
}

proof fn lemma_size<P>(s: Seq<(String, P)>)
    requires
        unique_keys(s),
    ensures
        entries_map(s).dom().len() == s.len(),
{
    let ks = s.map_values(|e: (String, P)| e.0@);
    assert(ks.no_duplicates()) by {
        assert forall|i: int, j: int| 0 <= i < ks.len() && 0 <= j < ks.len() && i != j implies ks[i]
            != ks[j] by {
            assert(s[i].0@ != s[j].0@);
        }
    }
    ks.unique_seq_to_set();
    assert forall|k: Seq<char>| ks.to_set().contains(k) <==> entries_map(s).dom().contains(k) by {
        if ks.contains(k) {
            let i = choose|i: int| 0 <= i < ks.len() && ks[i] == k;
            assert(s[i].0@ == k);
        }
        if holds_key(s, k) {
            let i = choose|i: int| 0 <= i < s.len() && #[trigger] s[i].0@ == k;
            assert(ks[i] == k);
        }
    }
    assert(ks.to_set() =~= entries_map(s).dom());
}

proof fn lemma_remove_at<P>(s: Seq<(String, P)>, i: int)
    requires
        unique_keys(s),
        0 <= i < s.len(),
    ensures
        unique_keys(s.remove(i)),
        entries_map(s.remove(i)) == entries_map(s).remove(s[i].0@),
{
    let t = s.remove(i);
    let k = s[i].0@;
    assert(unique_keys(t)) by {
        assert forall|a: int, b: int|
            0 <= a < t.len() && 0 <= b < t.len() && a != b implies #[trigger] t[a].0@
            != #[trigger] t[b].0@ by {
            let aa = if a < i { a } else { a + 1 };
            let bb = if b < i { b } else { b + 1 };
            assert(s[aa].0@ != s[bb].0@);
        }
    }
    assert forall|x: Seq<char>| #[trigger]
        entries_map(t).contains_key(x) implies entries_map(s).remove(k).contains_key(x)
        && entries_map(t)[x] == entries_map(s)[x] by {
        let j = choose|j: int| 0 <= j < t.len() && #[trigger] t[j].0@ == x;
        lemma_entry(t, j);
        let jj = if j < i { j } else { j + 1 };
        lemma_entry(s, jj);
    }
    assert forall|x: Seq<char>| #[trigger]
        entries_map(s).remove(k).contains_key(x) implies entries_map(t).contains_key(x) by {
        let j = choose|j: int| 0 <= j < s.len() && #[trigger] s[j].0@ == x;
        if j < i {
            assert(t[j].0@ == x);
        } else {
            assert(t[j - 1].0@ == x);
        }
    }
    assert(entries_map(t) =~= entries_map(s).remove(k));
}

/// Where the last event naming a key is its removal, no page is held under
/// that key after the events are applied, whatever the map they started from.
pub proof fn lemma_last_removal_wins<P>(m: Map<Seq<char>, P>, evs: Seq<DriveEvent<P>>, i: int)
    requires
        0 <= i < evs.len(),
        evs[i] is Removed,
        forall|j: int| i < j < evs.len() ==> event_key(#[trigger] evs[j]) != event_key(evs[i]),
    ensures
        !replay(m, evs).contains_key(event_key(evs[i])),
    decreases evs.len(),
{
    if i < evs.len() - 1 {
        let rest = evs.drop_last();
        assert forall|j: int| i < j < rest.len() implies event_key(#[trigger] rest[j]) != event_key(
            rest[i],
        ) by {
            assert(rest[j] == evs[j]);
        }
        lemma_last_removal_wins(m, rest, i);
        assert(event_key(evs[evs.len() - 1]) != event_key(evs[i]));
    }
}

/// The full scan's additions are applied before any queued event: where the
/// last queued event naming a drive is its removal, that drive has no page
/// once the queue is worked off, even though the scan found it.
pub proof fn lemma_scan_then_queue<P>(
    m: Map<Seq<char>, P>,
    scanned: Seq<DriveEvent<P>>,
    queued: Seq<DriveEvent<P>>,
    i: int,
)
    requires
        0 <= i < queued.len(),
        queued[i] is Removed,
        forall|j: int| i < j < queued.len() ==> event_key(#[trigger] queued[j]) != event_key(queued[i]),
    ensures
        !replay(replay(m, scanned), queued).contains_key(event_key(queued[i])),
{
    lemma_last_removal_wins(replay(m, scanned), queued, i);
}

} // verus!
