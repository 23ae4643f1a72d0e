//! Workspaces of the daemon: one per shelf root and configuration, found
//! again by that key, numbered in creation order, unloaded on request or
//! when idle; and the watcher that tells whether a workspace's skill tree
//! changed since it was last loaded.
//!
//! The locks, the clocks and the scanning of the package tree live around
//! this module; it decides what they report.

use crate::model::WatcherStatus;
use crate::text::{chars_eq, chars_of, string_of};
use vstd::prelude::*;

verus! {

/// What a workspace is found by: the shelf root and a hash of its
/// configuration.
#[derive(Clone, Debug, PartialEq, Eq, Hash)]
pub struct WorkspaceKey {
    pub shelf_root: String,
    pub config_hash: String,
}

pub struct KeyView {
    pub shelf_root: Seq<char>,
    pub config_hash: Seq<char>,
}

impl View for WorkspaceKey {
    type V = KeyView;

    open spec fn view(&self) -> KeyView {
        KeyView { shelf_root: self.shelf_root@, config_hash: self.config_hash@ }
    }
}

impl WorkspaceKey {
    pub fn new(shelf_root: String, config_hash: String) -> (k: WorkspaceKey)
        ensures
            k.shelf_root == shelf_root,
            k.config_hash == config_hash,
    {
        WorkspaceKey { shelf_root, config_hash }
    }

    /// Whether two keys name the same workspace.
    pub fn same_as(&self, other: &WorkspaceKey) -> (r: bool)
        ensures
            r == (self@ == other@),
    {
        let a = chars_eq(&chars_of(self.shelf_root.as_str()), &chars_of(other.shelf_root.as_str()));
        let b = chars_eq(&chars_of(self.config_hash.as_str()), &chars_of(other.config_hash.as_str()));
        r_from(a, b, self, other)
    }
}

fn r_from(a: bool, b: bool, x: &WorkspaceKey, y: &WorkspaceKey) -> (r: bool)
    requires
        a == (x.shelf_root@ == y.shelf_root@),
        b == (x.config_hash@ == y.config_hash@),
    ensures
        r == (x@ == y@),
{
    a && b
}

fn copy_key(k: &WorkspaceKey) -> (c: WorkspaceKey)
    ensures
        c@ == k@,
{
    WorkspaceKey {
        shelf_root: string_of(&chars_of(k.shelf_root.as_str())),
        config_hash: string_of(&chars_of(k.config_hash.as_str())),
    }
}

/// The live workspaces: each key once, with the id it was given.
pub struct WorkspaceTable {
    next_workspace_id: u64,
    entries: Vec<(WorkspaceKey, u64)>,
}

pub struct TableView {
    pub next_id: u64,
    pub entries: Seq<(KeyView, u64)>,
}

impl View for WorkspaceTable {
    type V = TableView;

    closed spec fn view(&self) -> TableView {
        TableView {
            next_id: self.next_workspace_id,
            entries: self.entries@.map_values(|e: (WorkspaceKey, u64)| (e.0@, e.1)),
        }
    }
}

/// Keys are distinct, ids are distinct and all below the next id.
pub open spec fn table_wf(t: TableView) -> bool {
    &&& t.next_id >= 1
    &&& forall|i: int, j: int|
        0 <= i < j < t.entries.len() ==> (#[trigger] t.entries[i]).0 != (#[trigger] t.entries[j]).0
            && t.entries[i].1 != t.entries[j].1
    &&& forall|i: int| 0 <= i < t.entries.len() ==> (#[trigger] t.entries[i]).1 < t.next_id
}

/// The id of the workspace under `k`.
pub open spec fn table_lookup(entries: Seq<(KeyView, u64)>, k: KeyView) -> Option<u64>
    decreases entries.len(),
{
    if entries.len() == 0 {
        None
    } else if entries.last().0 == k {
        Some(entries.last().1)
    } else {
        table_lookup(entries.drop_last(), k)
    }
}

/// `get_or_create`: the workspace under the key if there is one, else a new
/// one with the next id.
pub open spec fn spec_get_or_create(t: TableView, k: KeyView) -> (TableView, u64) {
    match table_lookup(t.entries, k) {
        Some(id) => (t, id),
        None => (
            TableView { next_id: (t.next_id + 1) as u64, entries: t.entries.push((k, t.next_id)) },
            t.next_id,
        ),
    }
}

/// The entries that `keep` holds of, in order.
pub open spec fn keep_entries(
    entries: Seq<(KeyView, u64)>,
    keep: spec_fn((KeyView, u64)) -> bool,
) -> Seq<(KeyView, u64)>
    decreases entries.len(),
{
    if entries.len() == 0 {
        Seq::empty()
    } else {
        let prev = keep_entries(entries.drop_last(), keep);
        if keep(entries.last()) {
            prev.push(entries.last())
        } else {
            prev
        }
    }
}

/// The entries without the one under `k`.
pub open spec fn entries_without(entries: Seq<(KeyView, u64)>, k: KeyView) -> Seq<(KeyView, u64)> {
    keep_entries(entries, |e: (KeyView, u64)| e.0 != k)
}

/// The entries whose id is not listed.
pub open spec fn entries_not_in(entries: Seq<(KeyView, u64)>, ids: Seq<u64>) -> Seq<(KeyView, u64)> {
    keep_entries(entries, |e: (KeyView, u64)| !ids.contains(e.1))
}

/// `unload`: drops the workspace under the key, saying whether there was one.
pub open spec fn spec_unload(t: TableView, k: KeyView) -> (TableView, bool) {
    (
        TableView { next_id: t.next_id, entries: entries_without(t.entries, k) },
        table_lookup(t.entries, k) is Some,
    )
}

proof fn lemma_lookup_found(entries: Seq<(KeyView, u64)>, k: KeyView)
    ensures
        match table_lookup(entries, k) {
            Some(id) => exists|i: int| 0 <= i < entries.len() && #[trigger] entries[i] == (k, id),
            None => forall|i: int| 0 <= i < entries.len() ==> (#[trigger] entries[i]).0 != k,
        },
    decreases entries.len(),
{
    if entries.len() > 0 {
        let d = entries.drop_last();
        lemma_lookup_found(d, k);
        if entries.last().0 != k {
            match table_lookup(d, k) {
                Some(id) => {
                    let i = choose|i: int| 0 <= i < d.len() && #[trigger] d[i] == (k, id);
                    assert(entries[i] == d[i]);
                },
                None => {
                    assert forall|i: int| 0 <= i < entries.len() implies (#[trigger] entries[i]).0 != k by {
                        if i < d.len() {
                            assert(entries[i] == d[i]);
                        }
                    }
                },
            }
        } else {
            assert(entries[entries.len() - 1] == entries.last());
        }
    }
}

proof fn lemma_lookup_at(entries: Seq<(KeyView, u64)>, k: KeyView, i: int)
    requires
        0 <= i < entries.len(),
        entries[i].0 == k,
        forall|a: int, b: int| 0 <= a < b < entries.len() ==> (#[trigger] entries[a]).0 != (#[trigger] entries[b]).0,
    ensures
        table_lookup(entries, k) == Some(entries[i].1),
    decreases entries.len(),
{
    if i < entries.len() - 1 {
        let d = entries.drop_last();
        assert(d[i] == entries[i]);
        assert(entries.last() == entries[entries.len() - 1]);
        lemma_lookup_at(d, k, i);
    }
}

proof fn lemma_keep_props(entries: Seq<(KeyView, u64)>, keep: spec_fn((KeyView, u64)) -> bool)
    ensures
        forall|i: int| 0 <= i < keep_entries(entries, keep).len() ==> keep(#[trigger] keep_entries(entries, keep)[i])
            && entries.contains(keep_entries(entries, keep)[i]),
        forall|i: int| 0 <= i < entries.len() && keep(#[trigger] entries[i]) ==> keep_entries(entries, keep).contains(entries[i]),
        forall|i: int, j: int|
            0 <= i < j < keep_entries(entries, keep).len() ==> exists|a: int, b: int|
                0 <= a < b < entries.len() && #[trigger] keep_entries(entries, keep)[i] == entries[a]
                    && #[trigger] keep_entries(entries, keep)[j] == entries[b],
        keep_entries(entries, keep).len() <= entries.len(),
    decreases entries.len(),
{
    if entries.len() > 0 {
        let d = entries.drop_last();
        lemma_keep_props(d, keep);
        let prev = keep_entries(d, keep);
        let out = keep_entries(entries, keep);
        assert forall|i: int| 0 <= i < d.len() implies #[trigger] entries[i] == d[i] by {}
        assert forall|i: int| 0 <= i < out.len() implies keep(#[trigger] out[i]) && entries.contains(out[i]) by {
            if i < prev.len() {
                assert(out[i] == prev[i]);
                let a = choose|a: int| 0 <= a < d.len() && d[a] == prev[i];
                assert(entries[a] == d[a]);
            } else {
                assert(out[i] == entries[entries.len() - 1]);
            }
        }
        assert forall|i: int| 0 <= i < entries.len() && keep(#[trigger] entries[i]) implies out.contains(entries[i]) by {
            if i < d.len() {
                assert(entries[i] == d[i]);
                let j = choose|j: int| 0 <= j < prev.len() && prev[j] == d[i];
                assert(out[j] == prev[j]);
            } else {
                assert(out[out.len() - 1] == entries[i]);
            }
        }
        assert forall|i: int, j: int| 0 <= i < j < out.len() implies exists|a: int, b: int|
            0 <= a < b < entries.len() && #[trigger] out[i] == entries[a] && #[trigger] out[j] == entries[b] by {
            if j < prev.len() {
                assert(out[i] == prev[i] && out[j] == prev[j]);
                let (a, b) = choose|a: int, b: int|
                    0 <= a < b < d.len() && #[trigger] prev[i] == d[a] && #[trigger] prev[j] == d[b];
                assert(entries[a] == d[a] && entries[b] == d[b]);
            } else {
                assert(out[j] == entries[entries.len() - 1]);
                assert(out[i] == prev[i]);
                let a = choose|a: int| 0 <= a < d.len() && d[a] == prev[i];
                assert(entries[a] == d[a]);
            }
        }
    }
}

proof fn lemma_without_excludes(entries: Seq<(KeyView, u64)>, k: KeyView)
    ensures
        forall|i: int| 0 <= i < entries_without(entries, k).len() ==> (#[trigger] entries_without(entries, k)[i]).0 != k,
    decreases entries.len(),
{
    if entries.len() > 0 {
        let d = entries.drop_last();
        lemma_without_excludes(d, k);
        let prev = entries_without(d, k);
        let out = entries_without(entries, k);
        assert forall|i: int| 0 <= i < out.len() implies (#[trigger] out[i]).0 != k by {
            if i < prev.len() {
                assert(out[i] == prev[i]);
            }
        }
    }
}

/// Keeping some entries of a well-formed table leaves it well formed.
proof fn lemma_keep_wf(t: TableView, keep: spec_fn((KeyView, u64)) -> bool)
    requires
        table_wf(t),
    ensures
        table_wf(TableView { next_id: t.next_id, entries: keep_entries(t.entries, keep) }),
{
    lemma_keep_props(t.entries, keep);
    let out = keep_entries(t.entries, keep);
    assert forall|i: int, j: int| 0 <= i < j < out.len() implies (#[trigger] out[i]).0 != (
    #[trigger] out[j]).0 && out[i].1 != out[j].1 by {
        let (a, b) = choose|a: int, b: int|
            0 <= a < b < t.entries.len() && #[trigger] out[i] == t.entries[a] && #[trigger] out[j]
                == t.entries[b];
    }
    assert forall|i: int| 0 <= i < out.len() implies (#[trigger] out[i]).1 < t.next_id by {
        assert(t.entries.contains(out[i]));
    }
}

/// Keeps the entries a check selects; the check sees each entry's key and
/// id and must agree with `keep`.
fn keep_table_entries(
    entries: &Vec<(WorkspaceKey, u64)>,
    drop: &Vec<bool>,
    keep: Ghost<spec_fn((KeyView, u64)) -> bool>,
) -> (r: Vec<(WorkspaceKey, u64)>)
    requires
        drop@.len() == entries@.len(),
        forall|i: int| 0 <= i < entries@.len() ==> drop@[i] == !keep@((entries@[i].0@, entries@[i].1)),
    ensures
        r@.map_values(|e: (WorkspaceKey, u64)| (e.0@, e.1)) == keep_entries(
            entries@.map_values(|e: (WorkspaceKey, u64)| (e.0@, e.1)),
            keep@,
        ),
{
    let ghost ev = entries@.map_values(|e: (WorkspaceKey, u64)| (e.0@, e.1));
    let mut kept: Vec<(WorkspaceKey, u64)> = Vec::new();
    let mut i: usize = 0;
    assert(ev.take(0) =~= Seq::<(KeyView, u64)>::empty());
    while i < entries.len()
        invariant
            i <= entries@.len(),
            drop@.len() == entries@.len(),
            forall|i: int| 0 <= i < entries@.len() ==> drop@[i] == !keep@((entries@[i].0@, entries@[i].1)),
            ev == entries@.map_values(|e: (WorkspaceKey, u64)| (e.0@, e.1)),
            kept@.map_values(|e: (WorkspaceKey, u64)| (e.0@, e.1)) == keep_entries(ev.take(i as int), keep@),
        decreases entries.len() - i,
    {
        let ghost t = ev.take(i + 1);
        assert(t.drop_last() =~= ev.take(i as int));
        assert(t.last() == ev[i as int]);
        if !drop[i] {
            let e = (copy_key(&entries[i].0), entries[i].1);
            let ghost k0 = kept@;
            kept.push(e);
            assert(kept@.map_values(|e: (WorkspaceKey, u64)| (e.0@, e.1)) =~= k0.map_values(
                |e: (WorkspaceKey, u64)| (e.0@, e.1),
            ).push((e.0@, e.1)));
        }
        i = i + 1;
    }
    assert(ev.take(i as int) =~= ev);
    kept
}

impl WorkspaceTable {
    pub fn new() -> (t: WorkspaceTable)
        ensures
            t@.next_id == 1,
            t@.entries.len() == 0,
            table_wf(t@),
    {
        WorkspaceTable { next_workspace_id: 1, entries: Vec::new() }
    }

    /// The table is always well formed.
    #[verifier::type_invariant]
    spec fn table_inv(self) -> bool {
        table_wf(self@)
    }

    /// The id the next new workspace gets.
    pub fn next_id(&self) -> (n: u64)
        ensures
            n == self@.next_id,
            table_wf(self@),
    {
        proof {
            use_type_invariant(self);
        }
        self.next_workspace_id
    }

    /// The id of the workspace under the key.
    pub fn lookup(&self, key: &WorkspaceKey) -> (r: Option<u64>)
        ensures
            r == table_lookup(self@.entries, key@),
    {
        let ghost ev = self@.entries;
        let mut i: usize = self.entries.len();
        assert(ev.take(i as int) =~= ev);
        while i > 0
            invariant
                i <= self.entries@.len(),
                ev == self@.entries,
                table_lookup(ev, key@) == table_lookup(ev.take(i as int), key@),
            decreases i,
        {
            let ghost t = ev.take(i as int);
            assert(t.drop_last() =~= ev.take(i - 1));
            assert(t.last() == ev[i - 1]);
            if self.entries[i - 1].0.same_as(key) {
                return Some(self.entries[i - 1].1);
            }
            i = i - 1;
        }
        None
    }

    /// The workspace under the key, made with the next id when there is
    /// none; says whether it was made.
    pub fn get_or_create(&mut self, key: &WorkspaceKey) -> (r: (u64, bool))
        requires
            old(self)@.next_id < u64::MAX,
        ensures
            table_wf(final(self)@),
            (final(self)@, r.0) == spec_get_or_create(old(self)@, key@),
            r.1 == (table_lookup(old(self)@.entries, key@) is None),
    {
        proof {
            use_type_invariant(&*self);
        }
        match self.lookup(key) {
            Some(id) => (id, false),
            None => {
                let id = self.next_workspace_id;
                let ghost before = self@;
                let mut entries: Vec<(WorkspaceKey, u64)> = Vec::new();
                std::mem::swap(&mut entries, &mut self.entries);
                entries.push((copy_key(key), id));
                proof {
                    let after = TableView {
                        next_id: (id + 1) as u64,
                        entries: entries@.map_values(|e: (WorkspaceKey, u64)| (e.0@, e.1)),
                    };
                    assert(after.entries =~= before.entries.push((key@, id)));
                    lemma_lookup_found(before.entries, key@);
                    assert forall|i: int, j: int| 0 <= i < j < after.entries.len() implies (
                    #[trigger] after.entries[i]).0 != (#[trigger] after.entries[j]).0
                        && after.entries[i].1 != after.entries[j].1 by {
                        if j == before.entries.len() {
                            assert(after.entries[i] == before.entries[i]);
                        } else {
                            assert(after.entries[i] == before.entries[i]);
                            assert(after.entries[j] == before.entries[j]);
                        }
                    }
                    assert forall|i: int| 0 <= i < after.entries.len() implies (
                    #[trigger] after.entries[i]).1 < after.next_id by {
                        if i < before.entries.len() {
                            assert(after.entries[i] == before.entries[i]);
                        }
                    }
                    assert(table_wf(after));
                }
                self.next_workspace_id = id + 1;
                self.entries = entries;
                assert(self@.entries =~= before.entries.push((key@, id)));
                (id, true)
            },
        }
    }

    /// Drops the workspace under the key; says whether there was one.
    pub fn unload(&mut self, key: &WorkspaceKey) -> (r: bool)
        ensures
            table_wf(final(self)@),
            (final(self)@, r) == spec_unload(old(self)@, key@),
    {
        proof {
            use_type_invariant(&*self);
        }
        let ghost before = self@;
        let found = self.lookup(key).is_some();
        let mut drop: Vec<bool> = Vec::new();
        let mut i: usize = 0;
        while i < self.entries.len()
            invariant
                i <= self.entries@.len(),
                drop@.len() == i,
                forall|m: int| 0 <= m < i ==> drop@[m] == !((|e: (KeyView, u64)| e.0 != key@)((self.entries@[m].0@, self.entries@[m].1))),
            decreases self.entries.len() - i,
        {
            drop.push(self.entries[i].0.same_as(key));
            i = i + 1;
        }
        let kept = keep_table_entries(&self.entries, &drop, Ghost(|e: (KeyView, u64)| e.0 != key@));
        proof {
            lemma_keep_wf(before, |e: (KeyView, u64)| e.0 != key@);
        }
        self.entries = kept;
        found
    }

    /// Drops the workspaces with these ids; says how many went.
    pub fn remove_ids(&mut self, ids: &Vec<u64>) -> (n: usize)
        ensures
            table_wf(final(self)@),
            final(self)@ == (TableView { next_id: old(self)@.next_id, entries: entries_not_in(old(self)@.entries, ids@) }),
            n + final(self)@.entries.len() == old(self)@.entries.len(),
    {
        proof {
            use_type_invariant(&*self);
        }
        let ghost before = self@;
        let mut drop: Vec<bool> = Vec::new();
        let mut i: usize = 0;
        while i < self.entries.len()
            invariant
                i <= self.entries@.len(),
                drop@.len() == i,
                forall|m: int| 0 <= m < i ==> drop@[m] == !((|e: (KeyView, u64)| !ids@.contains(e.1))((self.entries@[m].0@, self.entries@[m].1))),
            decreases self.entries.len() - i,
        {
            let id = self.entries[i].1;
            let mut listed = false;
            let mut j: usize = 0;
            while j < ids.len()
                invariant
                    j <= ids@.len(),
                    listed == exists|m: int| 0 <= m < j && ids@[m] == id,
                decreases ids.len() - j,
            {
                if ids[j] == id {
                    listed = true;
                }
                j = j + 1;
            }
            assert(listed == ids@.contains(id));
            drop.push(listed);
            i = i + 1;
        }
        let total = self.entries.len();
        let kept = keep_table_entries(&self.entries, &drop, Ghost(|e: (KeyView, u64)| !ids@.contains(e.1)));
        proof {
            lemma_keep_wf(before, |e: (KeyView, u64)| !ids@.contains(e.1));
            lemma_keep_props(before.entries, |e: (KeyView, u64)| !ids@.contains(e.1));
        }
        self.entries = kept;
        total - self.entries.len()
    }
}

/// A workspace may be dropped when nothing runs in it, no session holds
/// it, and it has been idle for at least `max_idle_ms`.
pub fn is_removable(busy_count: usize, session_count: usize, idle_ms: u64, max_idle_ms: u64) -> (r:
    bool)
    ensures
        r == (busy_count == 0 && session_count == 0 && idle_ms >= max_idle_ms),
{
    busy_count == 0 && session_count == 0 && idle_ms >= max_idle_ms
}

/// The ids that may be dropped, from one row per workspace: its id, the
/// writes running on it, the sessions holding it, and how long it has been
/// idle in milliseconds.
pub open spec fn spec_idle_ids(stats: Seq<(u64, usize, usize, u64)>, max_idle_ms: u64) -> Seq<u64>
    decreases stats.len(),
{
    if stats.len() == 0 {
        Seq::empty()
    } else {
        let prev = spec_idle_ids(stats.drop_last(), max_idle_ms);
        let w = stats.last();
        if w.1 == 0 && w.2 == 0 && w.3 >= max_idle_ms {
            prev.push(w.0)
        } else {
            prev
        }
    }
}

/// The ids of the workspaces that may be dropped, in the order given: those
/// that `is_removable` allows by their counts and idle time.
pub fn idle_workspace_ids(stats: &Vec<(u64, usize, usize, u64)>, max_idle_ms: u64) -> (r: Vec<u64>)
    ensures
        r@ == spec_idle_ids(stats@, max_idle_ms),
{
    let mut out: Vec<u64> = Vec::new();
    let mut i: usize = 0;
    while i < stats.len()
        invariant
            i <= stats@.len(),
            out@ == spec_idle_ids(stats@.take(i as int), max_idle_ms),
        decreases stats.len() - i,
    {
        assert(stats@.take(i + 1).drop_last() =~= stats@.take(i as int));
        let (id, busy, sessions, idle) = stats[i];
        if is_removable(busy, sessions, idle, max_idle_ms) {
            out.push(id);
        }
        i = i + 1;
    }
    assert(stats@.take(stats@.len() as int) =~= stats@);
    out
}

proof fn lemma_idle_ids_members(stats: Seq<(u64, usize, usize, u64)>, max_idle_ms: u64)
    ensures
        forall|x: u64|
            spec_idle_ids(stats, max_idle_ms).contains(x) <==> exists|k: int|
                0 <= k < stats.len() && (#[trigger] stats[k]).0 == x && stats[k].1 == 0 && stats[k].2 == 0
                    && stats[k].3 >= max_idle_ms,
    decreases stats.len(),
{
    if stats.len() > 0 {
        let d = stats.drop_last();
        lemma_idle_ids_members(d, max_idle_ms);
        let prev = spec_idle_ids(d, max_idle_ms);
        let out = spec_idle_ids(stats, max_idle_ms);
        let last = stats.len() - 1;
        assert forall|x: u64| out.contains(x) <==> exists|k: int|
            0 <= k < stats.len() && (#[trigger] stats[k]).0 == x && stats[k].1 == 0 && stats[k].2 == 0
                && stats[k].3 >= max_idle_ms by {
            if out.contains(x) {
                let i = choose|i: int| 0 <= i < out.len() && out[i] == x;
                if i < prev.len() {
                    assert(out[i] == prev[i]);
                    assert(prev.contains(x));
                    let k = choose|k: int| 0 <= k < d.len() && (#[trigger] d[k]).0 == x && d[k].1 == 0 && d[k].2 == 0
                        && d[k].3 >= max_idle_ms;
                    assert(stats[k] == d[k]);
                } else {
                    assert(stats[last].0 == x);
                }
            }
            if exists|k: int| 0 <= k < stats.len() && (#[trigger] stats[k]).0 == x && stats[k].1 == 0
                && stats[k].2 == 0 && stats[k].3 >= max_idle_ms {
                let k = choose|k: int| 0 <= k < stats.len() && (#[trigger] stats[k]).0 == x && stats[k].1 == 0
                    && stats[k].2 == 0 && stats[k].3 >= max_idle_ms;
                if k < d.len() {
                    assert(d[k] == stats[k]);
                    assert(prev.contains(x));
                    let i = choose|i: int| 0 <= i < prev.len() && prev[i] == x;
                    assert(out[i] == prev[i]);
                } else {
                    assert(out[out.len() - 1] == x);
                }
            }
        }
    }
}

/// Dropping the idle workspaces keeps a workspace exactly when its own
/// counts forbid it: a write is running on it, a session holds it, or it
/// has not been idle for `max_idle_ms`; for stats that give each id once.
pub proof fn lemma_idle_removal(t: TableView, stats: Seq<(u64, usize, usize, u64)>, max_idle_ms: u64, k: int)
    requires
        table_wf(t),
        0 <= k < stats.len(),
        forall|a: int, b: int| 0 <= a < b < stats.len() ==> (#[trigger] stats[a]).0 != (#[trigger] stats[b]).0,
        exists|i: int| 0 <= i < t.entries.len() && (#[trigger] t.entries[i]).1 == stats[k].0,
    ensures
        (exists|i: int|
            0 <= i < entries_not_in(t.entries, spec_idle_ids(stats, max_idle_ms)).len()
                && (#[trigger] entries_not_in(t.entries, spec_idle_ids(stats, max_idle_ms))[i]).1 == stats[k].0)
            <==> !(stats[k].1 == 0 && stats[k].2 == 0 && stats[k].3 >= max_idle_ms),
{
    let ids = spec_idle_ids(stats, max_idle_ms);
    let keep = |e: (KeyView, u64)| !ids.contains(e.1);
    lemma_idle_ids_members(stats, max_idle_ms);
    lemma_keep_props(t.entries, keep);
    let out = entries_not_in(t.entries, ids);
    let x = stats[k].0;
    let i0 = choose|i: int| 0 <= i < t.entries.len() && (#[trigger] t.entries[i]).1 == x;
    if stats[k].1 == 0 && stats[k].2 == 0 && stats[k].3 >= max_idle_ms {
        assert(ids.contains(x));
        if exists|i: int| 0 <= i < out.len() && (#[trigger] out[i]).1 == x {
            let i = choose|i: int| 0 <= i < out.len() && (#[trigger] out[i]).1 == x;
            assert(keep(out[i]));
        }
    } else {
        if ids.contains(x) {
            let k2 = choose|k2: int| 0 <= k2 < stats.len() && (#[trigger] stats[k2]).0 == x && stats[k2].1 == 0
                && stats[k2].2 == 0 && stats[k2].3 >= max_idle_ms;
            if k2 != k {
                if k2 < k {
                    assert(stats[k2].0 != stats[k].0);
                } else {
                    assert(stats[k].0 != stats[k2].0);
                }
            }
        }
        assert(keep(t.entries[i0]));
        assert(out.contains(t.entries[i0]));
        let i = choose|i: int| 0 <= i < out.len() && out[i] == t.entries[i0];
        assert(out[i].1 == x);
    }
}

// ---------------------------------------------------------------------------
// Laws of the table
// ---------------------------------------------------------------------------

/// Asking twice for the same key gives the same workspace, and the second
/// request changes nothing.
pub proof fn lemma_same_key_reuses(t: TableView, k: KeyView)
    requires
        table_wf(t),
        t.next_id < u64::MAX,
    ensures
        ({
            let (t1, id1) = spec_get_or_create(t, k);
            let (t2, id2) = spec_get_or_create(t1, k);
            id1 == id2 && t2 == t1
        }),
{
    let (t1, id1) = spec_get_or_create(t, k);
    match table_lookup(t.entries, k) {
        Some(_) => {},
        None => {
            assert(t1.entries.drop_last() =~= t.entries);
        },
    }
}

/// Different keys get different workspaces.
pub proof fn lemma_distinct_keys_distinct_ids(t: TableView, a: KeyView, b: KeyView)
    requires
        table_wf(t),
        t.next_id + 1 < u64::MAX,
        a != b,
    ensures
        ({
            let (t1, id_a) = spec_get_or_create(t, a);
            let (t2, id_b) = spec_get_or_create(t1, b);
            id_a != id_b
        }),
{
    let (t1, id_a) = spec_get_or_create(t, a);
    lemma_lookup_found(t.entries, a);
    lemma_lookup_found(t.entries, b);
    lemma_lookup_found(t1.entries, b);
    match table_lookup(t.entries, a) {
        Some(ia) => {
            let i = choose|i: int| 0 <= i < t.entries.len() && #[trigger] t.entries[i] == (a, ia);
            match table_lookup(t1.entries, b) {
                Some(ib) => {
                    let j = choose|j: int| 0 <= j < t1.entries.len() && #[trigger] t1.entries[j] == (b, ib);
                    if i < j {
                        assert(t.entries[i].1 != t.entries[j].1);
                    } else if j < i {
                        assert(t.entries[j].1 != t.entries[i].1);
                    }
                },
                None => {
                    assert(t.entries[i].1 < t.next_id);
                },
            }
        },
        None => {
            assert(t1.entries.drop_last() =~= t.entries);
            match table_lookup(t1.entries, b) {
                Some(ib) => {
                    let j = choose|j: int| 0 <= j < t1.entries.len() && #[trigger] t1.entries[j] == (b, ib);
                    if j < t.entries.len() {
                        assert(t1.entries[j] == t.entries[j]);
                        assert(t.entries[j].1 < t.next_id);
                    } else {
                        assert(t1.entries[j] == (a, t.next_id));
                    }
                },
                None => {},
            }
        },
    }
}

/// After a workspace is unloaded, unloading it again finds nothing, and
/// asking for its key gives a new workspace whose id is above every id
/// given before.
pub proof fn lemma_unload_then_new_id(t: TableView, k: KeyView)
    requires
        table_wf(t),
        t.next_id + 1 < u64::MAX,
    ensures
        ({
            let (t1, id1) = spec_get_or_create(t, k);
            let (t2, removed) = spec_unload(t1, k);
            let (t3, id2) = spec_get_or_create(t2, k);
            &&& removed
            &&& id1 != id2
            &&& !spec_unload(t2, k).1
            &&& forall|i: int| 0 <= i < t1.entries.len() ==> (#[trigger] t1.entries[i]).1 < id2
        }),
{
    let (t1, id1) = spec_get_or_create(t, k);
    lemma_lookup_found(t.entries, k);
    match table_lookup(t.entries, k) {
        Some(id) => {
            let i = choose|i: int| 0 <= i < t.entries.len() && #[trigger] t.entries[i] == (k, id);
            assert(t.entries[i].1 < t.next_id);
        },
        None => {
            assert(t1.entries[t.entries.len() as int] == (k, t.next_id));
            lemma_lookup_at(t1.entries, k, t.entries.len() as int);
        },
    }
    let (t2, removed) = spec_unload(t1, k);
    lemma_keep_props(t1.entries, |e: (KeyView, u64)| e.0 != k);
    lemma_lookup_found(t2.entries, k);
    lemma_lookup_found(t1.entries, k);
    assert(t2.entries == entries_without(t1.entries, k));
    lemma_without_excludes(t1.entries, k);
    assert(table_lookup(t2.entries, k) is None);
    assert(t2.next_id == t1.next_id);
}

/// A workspace made for a new key gets an id above every id given before.
pub proof fn lemma_new_id_above_earlier(t: TableView, k: KeyView)
    requires
        table_wf(t),
        table_lookup(t.entries, k) is None,
    ensures
        forall|i: int| 0 <= i < t.entries.len() ==> (#[trigger] t.entries[i]).1 < spec_get_or_create(t, k).1,
{
}

// ---------------------------------------------------------------------------
// Watching the skill tree
// ---------------------------------------------------------------------------

/// One `SKILL.md` of the package tree: its path below the packages root,
/// its length and its modification time.
#[derive(Clone, Debug, PartialEq, Eq)]
pub struct SkillFileSignature {
    pub path: String,
    pub len: u64,
    pub modified_at_ms: Option<u64>,
}

pub struct SignatureView {
    pub path: Seq<char>,
    pub len: u64,
    pub modified_at_ms: Option<u64>,
}

impl View for SkillFileSignature {
    type V = SignatureView;

    open spec fn view(&self) -> SignatureView {
        SignatureView { path: self.path@, len: self.len, modified_at_ms: self.modified_at_ms }
    }
}

pub open spec fn signature_view(v: Seq<SkillFileSignature>) -> Seq<SignatureView> {
    v.map_values(|s: SkillFileSignature| s@)
}

/// What the watcher knows: the last tree it saw, whether the tree changed
/// since the workspace was last loaded, and the last event and error.
pub struct WatcherState {
    pub running: bool,
    pub last_signature: Option<Vec<SkillFileSignature>>,
    pub dirty: bool,
    pub last_event_at_ms: Option<u64>,
    pub last_error: Option<String>,
}

pub open spec fn opt_sig_view(o: Option<Vec<SkillFileSignature>>) -> Option<Seq<SignatureView>> {
    match o {
        Some(v) => Some(signature_view(v@)),
        None => None,
    }
}

fn copy_signature(v: &Vec<SkillFileSignature>) -> (r: Vec<SkillFileSignature>)
    ensures
        signature_view(r@) == signature_view(v@),
{
    let mut out: Vec<SkillFileSignature> = Vec::new();
    let mut i: usize = 0;
    while i < v.len()
        invariant
            i <= v@.len(),
            signature_view(out@) == signature_view(v@).take(i as int),
        decreases v.len() - i,
    {
        let s = SkillFileSignature {
            path: string_of(&chars_of(v[i].path.as_str())),
            len: v[i].len,
            modified_at_ms: v[i].modified_at_ms,
        };
        let ghost o = out@;
        out.push(s);
        assert(signature_view(out@) =~= signature_view(o).push(s@));
        i = i + 1;
        assert(signature_view(v@).take(i as int) =~= signature_view(v@).take(i - 1).push(v@[i - 1]@));
    }
    assert(signature_view(v@).take(i as int) =~= signature_view(v@));
    out
}

fn same_signature(a: &Vec<SkillFileSignature>, b: &Vec<SkillFileSignature>) -> (r: bool)
    ensures
        r == (signature_view(a@) == signature_view(b@)),
{
    if a.len() != b.len() {
        proof {
            assert(signature_view(a@).len() != signature_view(b@).len());
        }
        return false;
    }
    let mut i: usize = 0;
    while i < a.len()
        invariant
            i <= a@.len(),
            a@.len() == b@.len(),
            forall|k: int| 0 <= k < i ==> (#[trigger] a@[k])@ == b@[k]@,
        decreases a.len() - i,
    {
        let same_path = chars_eq(&chars_of(a[i].path.as_str()), &chars_of(b[i].path.as_str()));
        if !same_path || a[i].len != b[i].len || a[i].modified_at_ms != b[i].modified_at_ms {
            proof {
                assert(signature_view(a@)[i as int] != signature_view(b@)[i as int]);
            }
            return false;
        }
        i = i + 1;
    }
    assert(signature_view(a@) =~= signature_view(b@));
    true
}

impl WatcherState {
    /// A running watcher that has seen nothing yet.
    pub fn new() -> (w: WatcherState)
        ensures
            w.running,
            w.last_signature is None,
            !w.dirty,
            w.last_event_at_ms is None,
            w.last_error is None,
    {
        WatcherState {
            running: true,
            last_signature: None,
            dirty: false,
            last_event_at_ms: None,
            last_error: None,
        }
    }

    /// Takes in a scan of the tree made at `now_ms` and says whether the
    /// workspace is dirty: the first scan only records the tree; a scan that
    /// differs from the last records it, marks the workspace dirty and the
    /// event time; a failed scan records its error and changes nothing else.
    pub fn poll_dirty(&mut self, scan: Result<Vec<SkillFileSignature>, String>, now_ms: u64) -> (r:
        bool)
        ensures
            final(self).running == old(self).running,
            match scan {
                Err(e) => {
                    &&& r == old(self).dirty
                    &&& final(self).last_error == Some(e)
                    &&& final(self).dirty == old(self).dirty
                    &&& opt_sig_view(final(self).last_signature) == opt_sig_view(
                        old(self).last_signature,
                    )
                    &&& final(self).last_event_at_ms == old(self).last_event_at_ms
                },
                Ok(sig) => {
                    &&& r == poll_answer(
                        opt_sig_view(old(self).last_signature),
                        old(self).dirty,
                        signature_view(sig@),
                    )
                    &&& final(self).last_error is None
                    &&& opt_sig_view(final(self).last_signature) == Some(signature_view(sig@))
                    &&& match opt_sig_view(old(self).last_signature) {
                        None => !r && !final(self).dirty && final(self).last_event_at_ms
                            == old(self).last_event_at_ms,
                        Some(prev) => if prev == signature_view(sig@) {
                            r == old(self).dirty && final(self).dirty == old(self).dirty
                                && final(self).last_event_at_ms == old(self).last_event_at_ms
                        } else {
                            r && final(self).dirty && final(self).last_event_at_ms == Some(now_ms)
                        },
                    }
                },
            },
    {
        match scan {
            Err(e) => {
                self.last_error = Some(e);
                self.dirty
            },
            Ok(sig) => {
                self.last_error = None;
                let changed = match &self.last_signature {
                    None => None,
                    Some(prev) => Some(!same_signature(prev, &sig)),
                };
                self.last_signature = Some(sig);
                match changed {
                    None => {
                        self.dirty = false;
                        false
                    },
                    Some(false) => self.dirty,
                    Some(true) => {
                        self.dirty = true;
                        self.last_event_at_ms = Some(now_ms);
                        true
                    },
                }
            },
        }
    }

    /// Takes in a scan made right after the workspace was loaded: the tree
    /// is recorded and the workspace clean; a failed scan only records its
    /// error.
    pub fn mark_clean(&mut self, scan: Result<Vec<SkillFileSignature>, String>)
        ensures
            final(self).running == old(self).running,
            final(self).last_event_at_ms == old(self).last_event_at_ms,
            match scan {
                Err(e) => final(self).last_error == Some(e) && final(self).dirty == old(self).dirty
                    && opt_sig_view(final(self).last_signature) == opt_sig_view(
                    old(self).last_signature,
                ),
                Ok(sig) => final(self).last_error is None && !final(self).dirty && opt_sig_view(
                    final(self).last_signature,
                ) == Some(signature_view(sig@)),
            },
    {
        match scan {
            Err(e) => {
                self.last_error = Some(e);
            },
            Ok(sig) => {
                self.last_signature = Some(sig);
                self.dirty = false;
                self.last_error = None;
            },
        }
    }

    /// The watcher stops when its workspace goes away.
    pub fn stop(&mut self)
        ensures
            !final(self).running,
            final(self).dirty == old(self).dirty,
            final(self).last_event_at_ms == old(self).last_event_at_ms,
            final(self).last_error == old(self).last_error,
            opt_sig_view(final(self).last_signature) == opt_sig_view(old(self).last_signature),
    {
        self.running = false;
    }

    /// What the shelf status reports of the watcher.
    pub fn status(&self) -> (s: WatcherStatus)
        ensures
            s.running == self.running,
            s.last_event_at_ms == self.last_event_at_ms,
            match self.last_error {
                Some(e) => s.last_error is Some && s.last_error->0@ == e@,
                None => s.last_error is None,
            },
    {
        WatcherStatus {
            running: self.running,
            last_event_at_ms: self.last_event_at_ms,
            last_error: match &self.last_error {
                Some(e) => Some(string_of(&chars_of(e.as_str()))),
                None => None,
            },
        }
    }
}

/// What a poll answers for a successful scan: nothing on the first scan;
/// the standing flag when the tree is the one seen last; dirty when it
/// differs.
pub open spec fn poll_answer(prev: Option<Seq<SignatureView>>, dirty: bool, sig: Seq<SignatureView>) -> bool {
    match prev {
        None => false,
        Some(p) => if p == sig {
            dirty
        } else {
            true
        },
    }
}

/// A workspace marked clean against a tree is not dirty when that same
/// tree is polled again, and is dirty as soon as the tree differs.
pub proof fn lemma_clean_tree_stays_clean(sig: Seq<SignatureView>, other: Seq<SignatureView>)
    ensures
        !poll_answer(Some(sig), false, sig),
        sig != other ==> poll_answer(Some(sig), false, other),
{
}

} // verus!
