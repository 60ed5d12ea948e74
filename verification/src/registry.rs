//! The ordered registry of upstream agents.
//!
//! An ordered map from socket path to the forward-adds flag, with three
//! invariant-shaping rules: at most one entry per path; adding an existing
//! path removes it and re-appends it (promote to newest); and at most one
//! entry carries `forward_adds` — a new forwarder clears the flag from every
//! older entry. Fan-out walks the entries newest first, and an upstream whose
//! socket is gone is evicted.

use vstd::prelude::*;

use indexmap::IndexMap;
use std::collections::hash_map::RandomState;

use crate::client::Client;
use crate::extension::{Upstream, UpstreamView};
use crate::imap::{
    imap_entries, imap_entry_at, imap_insert_absent, imap_len, imap_new, imap_set_value_at,
    imap_shift_remove, key_differs,
};

verus! {

broadcast use vstd::seq_lib::group_filter_ensures;

/// One registry entry in specification form: the socket path and the
/// forward-adds flag.
pub type Entry = (Seq<char>, bool);

/// The entries with any entry for `path` removed, order otherwise kept.
pub open spec fn without_path(s: Seq<Entry>, path: Seq<char>) -> Seq<Entry> {
    s.filter(key_differs(path))
}

/// The entries with every forward-adds flag cleared.
pub open spec fn cleared(s: Seq<Entry>) -> Seq<Entry> {
    s.map_values(|e: Entry| (e.0, false))
}

/// The registry after adding an upstream: any entry under the same path is
/// removed, the flags of the older entries are cleared when the newcomer
/// forwards identity mutations, and the newcomer is appended, newest last.
pub open spec fn after_add(s: Seq<Entry>, path: Seq<char>, forward_adds: bool) -> Seq<Entry> {
    if forward_adds {
        cleared(without_path(s, path)).push((path, forward_adds))
    } else {
        without_path(s, path).push((path, forward_adds))
    }
}

/// The entries as wire-level upstream records, in insertion order.
pub open spec fn upstream_views(s: Seq<Entry>) -> Seq<UpstreamView> {
    s.map_values(|e: Entry| UpstreamView { path: e.0, forward_adds: e.1 })
}

/// The newest entry marked to receive identity mutations, if any.
pub open spec fn newest_forwarder(s: Seq<Entry>) -> Option<Entry>
    decreases s.len(),
{
    if s.len() == 0 {
        None
    } else if s.last().1 {
        Some(s.last())
    } else {
        newest_forwarder(s.drop_last())
    }
}

/// The ordered, de-duplicated collection of upstream agents.
pub struct Upstreams {
    map: IndexMap<String, bool, RandomState>,
}

impl View for Upstreams {
    type V = Seq<Entry>;

    closed spec fn view(&self) -> Seq<Entry> {
        imap_entries(&self.map)
    }
}

impl Upstreams {
    /// An empty registry.
    pub fn new() -> (r: Upstreams)
        ensures
            r@ == Seq::<Entry>::empty(),
    {
        Upstreams { map: imap_new() }
    }

    /// The number of registered upstreams.
    pub fn len(&self) -> (n: usize)
        ensures
            n == self@.len(),
    {
        imap_len(&self.map)
    }

    /// Register an upstream, or promote an already registered path to newest.
    /// Only the newest forwarder keeps its forward-adds flag.
    pub fn add(&mut self, client: Client)
        ensures
            final(self)@ == after_add(old(self)@, client.path@, client.forward_adds),
    {
        let ghost before = self@;
        imap_shift_remove(&mut self.map, &client.path);
        let ghost filtered = imap_entries(&self.map);
        if client.forward_adds {
            let n = imap_len(&self.map);
            let mut i: usize = 0;
            while i < n
                invariant
                    n == filtered.len(),
                    i <= n,
                    imap_entries(&self.map).len() == n,
                    forall|j: int|
                        0 <= j < i ==> imap_entries(&self.map)[j] == (filtered[j].0, false),
                    forall|j: int| i <= j < n ==> imap_entries(&self.map)[j] == filtered[j],
                decreases n - i,
            {
                imap_set_value_at(&mut self.map, i, false);
                i = i + 1;
            }
            proof {
                assert(imap_entries(&self.map) =~= cleared(filtered));
            }
        }
        proof {
            assert forall|j: int|
                0 <= j < imap_entries(&self.map).len() implies imap_entries(&self.map)[j].0
                != client.path@ by {
                before.lemma_filter_pred(key_differs(client.path@), j);
            }
        }
        imap_insert_absent(&mut self.map, client.path, client.forward_adds);
    }

    /// Snapshot of the registered upstreams, oldest first (insertion order).
    pub fn list(&self) -> (r: Vec<Upstream>)
        ensures
            r@.len() == self@.len(),
            forall|i: int|
                0 <= i < r@.len() ==> (#[trigger] r@[i])@.path == self@[i].0 && r@[i]@.forward_adds
                    == self@[i].1,
    {
        let n = imap_len(&self.map);
        let mut out: Vec<Upstream> = Vec::new();
        let mut i: usize = 0;
        while i < n
            invariant
                n == self@.len(),
                i <= n,
                out@.len() == i,
                forall|j: int|
                    0 <= j < i ==> (#[trigger] out@[j])@.path == self@[j].0
                        && out@[j]@.forward_adds == self@[j].1,
            decreases n - i,
        {
            let (path, forward_adds) = imap_entry_at(&self.map, i);
            out.push(Upstream { path, forward_adds });
            i = i + 1;
        }
        out
    }

    /// Snapshot of the fan-out targets, newest first (reverse insertion
    /// order).
    pub fn targets(&self) -> (r: Vec<Client>)
        ensures
            r@.len() == self@.len(),
            forall|i: int|
                0 <= i < r@.len() ==> (#[trigger] r@[i])@.path == self@[self@.len() - 1 - i].0 && (
                r@[i])@.forward_adds == self@[self@.len() - 1 - i].1,
    {
        let n = imap_len(&self.map);
        let mut out: Vec<Client> = Vec::new();
        let mut i: usize = 0;
        while i < n
            invariant
                n == self@.len(),
                i <= n,
                out@.len() == i,
                forall|j: int|
                    0 <= j < i ==> (#[trigger] out@[j])@.path == self@[n - 1 - j].0
                        && out@[j]@.forward_adds == self@[n - 1 - j].1,
            decreases n - i,
        {
            let (path, forward_adds) = imap_entry_at(&self.map, n - 1 - i);
            out.push(Client { path, forward_adds });
            i = i + 1;
        }
        out
    }

    /// The newest upstream marked to receive identity mutations.
    pub fn forward_target(&self) -> (r: Option<Client>)
        ensures
            match r {
                Some(c) => newest_forwarder(self@) == Some((c.path@, c.forward_adds))
                    && c.forward_adds,
                None => newest_forwarder(self@) is None,
            },
    {
        let n = imap_len(&self.map);
        proof {
            assert(self@.take(n as int) =~= self@);
        }
        let mut i: usize = n;
        while i > 0
            invariant
                n == self@.len(),
                i <= n,
                newest_forwarder(self@) == newest_forwarder(self@.take(i as int)),
            decreases i,
        {
            let (path, forward_adds) = imap_entry_at(&self.map, i - 1);
            proof {
                assert(self@.take(i as int).last() == self@[i - 1]);
                assert(self@.take(i as int).drop_last() =~= self@.take(i - 1));
            }
            if forward_adds {
                return Some(Client { path, forward_adds });
            }
            i = i - 1;
        }
        proof {
            assert(self@.take(0) =~= Seq::<Entry>::empty());
        }
        None
    }

    /// Evict the upstream at `path`, if registered: its socket is gone, so the
    /// next fan-out must not contact it.
    pub fn remove_path(&mut self, path: &String) -> (r: bool)
        ensures
            final(self)@ == without_path(old(self)@, path@),
            r <==> exists|i: int| 0 <= i < old(self)@.len() && old(self)@[i].0 == path@,
    {
        imap_shift_remove(&mut self.map, path).is_some()
    }
}

// ===================== laws =====================

/// After an add, the registry holds the added path exactly once, at the
/// newest position — however often the path was added before.
pub proof fn lemma_add_path_once(s: Seq<Entry>, path: Seq<char>, forward_adds: bool)
    ensures
        ({
            let t = after_add(s, path, forward_adds);
            t.last() == (path, forward_adds) && forall|i: int| 0 <= i < t.len() - 1 ==> t[i].0
                != path
        }),
{
    let t = after_add(s, path, forward_adds);
    assert forall|i: int| 0 <= i < t.len() - 1 implies t[i].0 != path by {
        s.lemma_filter_pred(key_differs(path), i);
    }
}

/// After adding a forwarder, it is the only entry whose forward-adds flag is
/// set.
pub proof fn lemma_add_single_forwarder(s: Seq<Entry>, path: Seq<char>)
    ensures
        ({
            let t = after_add(s, path, true);
            t.last() == (path, true) && forall|i: int| 0 <= i < t.len() - 1 ==> !t[i].1
        }),
{
}

/// The newest forwarder after adding one is the newcomer itself.
pub proof fn lemma_forwarder_is_newest(s: Seq<Entry>, path: Seq<char>)
    ensures
        newest_forwarder(after_add(s, path, true)) == Some((path, true)),
{
}

/// At most one entry forwards identity mutations.
pub open spec fn at_most_one_forwarder(s: Seq<Entry>) -> bool {
    forall|i: int, j: int|
        0 <= i < j < s.len() ==> !((#[trigger] s[i]).1 && (#[trigger] s[j]).1)
}

/// Filtering entries out cannot create a second forwarder.
proof fn lemma_filter_keeps_single_forwarder(s: Seq<Entry>, pred: spec_fn(Entry) -> bool)
    requires
        at_most_one_forwarder(s),
    ensures
        at_most_one_forwarder(s.filter(pred)),
    decreases s.len(),
{
    reveal(Seq::filter);
    if s.len() > 0 {
        let rest = s.drop_last();
        assert(at_most_one_forwarder(rest)) by {
            assert forall|i: int, j: int|
                0 <= i < j < rest.len() implies !((#[trigger] rest[i]).1 && (
            #[trigger] rest[j]).1) by {
                assert(rest[i] == s[i]);
                assert(rest[j] == s[j]);
            }
        }
        lemma_filter_keeps_single_forwarder(rest, pred);
        let sub = rest.filter(pred);
        let f = s.filter(pred);
        if pred(s.last()) {
            assert(f == sub.push(s.last()));
            assert forall|i: int, j: int|
                0 <= i < j < f.len() implies !((#[trigger] f[i]).1 && (#[trigger] f[j]).1) by {
                if j < sub.len() {
                    assert(f[i] == sub[i]);
                    assert(f[j] == sub[j]);
                } else {
                    assert(f[j] == s.last());
                    assert(f[i] == sub[i]);
                    if s.last().1 && sub[i].1 {
                        assert(sub.contains(sub[i]));
                        rest.lemma_filter_contains_rev(pred, sub[i]);
                        let k = choose|k: int| 0 <= k < rest.len() && rest[k] == sub[i];
                        assert(rest[k] == s[k]);
                        assert(!(s[k].1 && s[s.len() - 1].1));
                        assert(false);
                    }
                }
            }
        } else {
            assert(f == sub);
        }
    }
}

/// However the registry is driven — adds, promotions, evictions — it never
/// holds two forwarders, provided it held at most one before.
pub proof fn lemma_single_forwarder_invariant(s: Seq<Entry>, path: Seq<char>, forward_adds: bool)
    requires
        at_most_one_forwarder(s),
    ensures
        at_most_one_forwarder(after_add(s, path, forward_adds)),
        at_most_one_forwarder(without_path(s, path)),
{
    lemma_filter_keeps_single_forwarder(s, key_differs(path));
    let w = without_path(s, path);
    if forward_adds {
        let c = cleared(w);
        let t = c.push((path, true));
        assert forall|i: int, j: int|
            0 <= i < j < t.len() implies !((#[trigger] t[i]).1 && (#[trigger] t[j]).1) by {
            assert(!c[i].1);
        }
    } else {
        let t = w.push((path, false));
        assert forall|i: int, j: int|
            0 <= i < j < t.len() implies !((#[trigger] t[i]).1 && (#[trigger] t[j]).1) by {
            if j < w.len() {
                assert(t[i] == w[i]);
                assert(t[j] == w[j]);
            } else {
                assert(!t[j].1);
            }
        }
    }
}

/// An evicted path is absent from every later listing until re-added.
pub proof fn lemma_evicted_absent(s: Seq<Entry>, path: Seq<char>)
    ensures
        forall|i: int|
            0 <= i < without_path(s, path).len() ==> (#[trigger] without_path(s, path)[i]).0
                != path,
{
    assert forall|i: int|
        0 <= i < without_path(s, path).len() implies (#[trigger] without_path(s, path)[i]).0
        != path by {
        s.lemma_filter_pred(key_differs(path), i);
    }
}

} // verus!
