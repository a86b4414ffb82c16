//! The routing table of the bootstrap server: entries keyed by text, kept in
//! the order of their keys, each key at most once.

use vstd::prelude::*;
use crate::text::{chars_eq, chars_lt, chars_of, lemma_text_lt_irreflexive, lemma_text_lt_total, lemma_text_lt_transitive, text_lt};

verus! {

/// Where a node or a stored file can be reached.
#[derive(Debug)]
pub struct RouteEntry {
    /// The address of the node; for a stored file, `address:port` of the node
    /// that holds it.
    pub ip: String,
    /// The port of the node; 0 marks an entry that records a stored file.
    pub port: u32,
    /// The name of the node; for a stored file, the address of its uploader.
    pub node_name: String,
}

/// A route entry by views.
pub struct EntryView {
    pub ip: Seq<char>,
    pub port: u32,
    pub node_name: Seq<char>,
}

impl View for RouteEntry {
    type V = EntryView;

    open spec fn view(&self) -> EntryView {
        EntryView { ip: self.ip@, port: self.port, node_name: self.node_name@ }
    }
}

impl RouteEntry {
    /// A copy of the entry.
    pub fn duplicate(&self) -> (r: RouteEntry)
        ensures
            r@ == self@,
    {
        RouteEntry { ip: self.ip.clone(), port: self.port, node_name: self.node_name.clone() }
    }
}

/// A table by views: its entries in the order of their keys.
pub type TableView = Seq<(Seq<char>, EntryView)>;

/// Keys strictly increase along the table.
pub open spec fn keys_sorted(s: TableView) -> bool {
    forall|i: int, j: int| 0 <= i < j < s.len() ==> text_lt(#[trigger] s[i].0, #[trigger] s[j].0)
}

/// The first position at or after `i` whose key is `k`.
pub open spec fn index_from(s: TableView, k: Seq<char>, i: int) -> Option<int>
    decreases s.len() - i,
{
    if i < 0 || i >= s.len() {
        None
    } else if s[i].0 == k {
        Some(i)
    } else {
        index_from(s, k, i + 1)
    }
}

/// The entry stored under `k`.
pub open spec fn lookup(s: TableView, k: Seq<char>) -> Option<EntryView> {
    match index_from(s, k, 0) {
        Some(i) => Some(s[i].1),
        None => None,
    }
}

/// The first position at or after `i` whose key is not below `k`.
pub open spec fn lower_bound_from(s: TableView, k: Seq<char>, i: int) -> int
    decreases s.len() - i,
{
    if i < 0 || i >= s.len() {
        s.len() as int
    } else if text_lt(s[i].0, k) {
        lower_bound_from(s, k, i + 1)
    } else {
        i
    }
}

/// `s` with `e` stored under `k`: the entry of `k` replaced, or a new entry
/// placed where the order of keys puts it.
pub open spec fn insert_sorted(s: TableView, k: Seq<char>, e: EntryView) -> TableView {
    let p = lower_bound_from(s, k, 0);
    if p < s.len() && s[p].0 == k {
        s.update(p, (k, e))
    } else {
        s.insert(p, (k, e))
    }
}

/// The routing table.
pub struct RoutingTable {
    entries: Vec<(String, RouteEntry)>,
}

impl View for RoutingTable {
    type V = TableView;

    closed spec fn view(&self) -> TableView {
        self.entries@.map_values(|p: (String, RouteEntry)| (p.0@, p.1@))
    }
}

// ---------------------------------------------------------------------------
// Lemmas on sorted tables
// ---------------------------------------------------------------------------

proof fn lemma_index_from(s: TableView, k: Seq<char>, i: int)
    requires
        0 <= i,
    ensures
        index_from(s, k, i) matches Some(j) ==> i <= j < s.len() && s[j].0 == k && forall|m: int|
            i <= m < j ==> s[m].0 != k,
        index_from(s, k, i) is None ==> forall|m: int| i <= m < s.len() ==> s[m].0 != k,
    decreases s.len() - i,
{
    if i < s.len() && s[i].0 != k {
        lemma_index_from(s, k, i + 1);
    }
}

/// In a sorted table, `lookup` gives the entry at any position holding `k`.
pub proof fn lemma_lookup_at(s: TableView, k: Seq<char>, j: int)
    requires
        keys_sorted(s),
        0 <= j < s.len(),
        s[j].0 == k,
    ensures
        lookup(s, k) == Some(s[j].1),
{
    lemma_index_from(s, k, 0);
    let i = index_from(s, k, 0)->0;
    if i != j {
        if i < j {
            assert(text_lt(s[i].0, s[j].0));
        } else {
            assert(text_lt(s[j].0, s[i].0));
        }
        lemma_text_lt_irreflexive(k);
    }
}

/// `lookup` finds nothing exactly when no position holds `k`.
pub proof fn lemma_lookup_none(s: TableView, k: Seq<char>)
    ensures
        lookup(s, k) is None <==> forall|m: int| 0 <= m < s.len() ==> s[m].0 != k,
{
    lemma_index_from(s, k, 0);
}

proof fn lemma_lower_bound(s: TableView, k: Seq<char>, i: int)
    requires
        0 <= i <= s.len(),
        keys_sorted(s),
        forall|m: int| 0 <= m < i ==> text_lt(#[trigger] s[m].0, k),
    ensures
        0 <= lower_bound_from(s, k, i) <= s.len(),
        forall|m: int| 0 <= m < lower_bound_from(s, k, i) ==> text_lt(#[trigger] s[m].0, k),
        forall|m: int|
            lower_bound_from(s, k, i) <= m < s.len() ==> !text_lt(#[trigger] s[m].0, k),
    decreases s.len() - i,
{
    if i < s.len() {
        if text_lt(s[i].0, k) {
            lemma_lower_bound(s, k, i + 1);
        } else {
            assert forall|m: int| i <= m < s.len() implies !text_lt(#[trigger] s[m].0, k) by {
                if m > i && text_lt(s[m].0, k) {
                    lemma_text_lt_transitive(s[i].0, s[m].0, k);
                }
            }
        }
    }
}

/// Storing under `k` keeps the keys sorted, gives back what was stored under
/// `k`, and leaves every other key as it was.
pub proof fn lemma_insert_sorted(s: TableView, k: Seq<char>, e: EntryView)
    requires
        keys_sorted(s),
    ensures
        keys_sorted(insert_sorted(s, k, e)),
        lookup(insert_sorted(s, k, e), k) == Some(e),
        forall|k2: Seq<char>| k2 != k ==> lookup(insert_sorted(s, k, e), k2) == lookup(s, k2),
        lookup(s, k) is Some ==> insert_sorted(s, k, e).len() == s.len(),
        lookup(s, k) is None ==> insert_sorted(s, k, e).len() == s.len() + 1,
{
    lemma_lower_bound(s, k, 0);
    let p = lower_bound_from(s, k, 0);
    let t = insert_sorted(s, k, e);
    if p < s.len() && s[p].0 == k {
        assert(t == s.update(p, (k, e)));
        assert forall|i: int, j: int| 0 <= i < j < t.len() implies text_lt(
            #[trigger] t[i].0,
            #[trigger] t[j].0,
        ) by {
            assert(t[i].0 == s[i].0);
            assert(t[j].0 == s[j].0);
        }
        lemma_lookup_at(t, k, p);
        lemma_lookup_at(s, k, p);
        assert forall|k2: Seq<char>| k2 != k implies lookup(t, k2) == lookup(s, k2) by {
            lemma_index_from(s, k2, 0);
            lemma_lookup_none(s, k2);
            lemma_lookup_none(t, k2);
            if lookup(s, k2) is Some {
                let j = index_from(s, k2, 0)->0;
                lemma_lookup_at(t, k2, j);
            }
        }
    } else {
        assert(t == s.insert(p, (k, e)));
        assert forall|m: int| p <= m < s.len() implies text_lt(k, #[trigger] s[m].0) by {
            assert(!text_lt(s[m].0, k));
            lemma_text_lt_total(s[m].0, k);
            if s[m].0 == k {
                if m > p {
                    assert(text_lt(s[p].0, s[m].0));
                    lemma_text_lt_total(s[p].0, k);
                }
            }
        }
        assert forall|i: int, j: int| 0 <= i < j < t.len() implies text_lt(
            #[trigger] t[i].0,
            #[trigger] t[j].0,
        ) by {
            if j < p {
                assert(t[i] == s[i] && t[j] == s[j]);
            } else if j == p {
                assert(t[i] == s[i]);
            } else if i < p {
                assert(t[i] == s[i] && t[j] == s[j - 1]);
                lemma_text_lt_transitive(s[i].0, k, s[j - 1].0);
            } else if i == p {
                assert(t[j] == s[j - 1]);
            } else {
                assert(t[i] == s[i - 1] && t[j] == s[j - 1]);
            }
        }
        lemma_lookup_at(t, k, p);
        assert forall|m: int| 0 <= m < s.len() implies s[m].0 != k by {
            if m >= p {
                lemma_text_lt_irreflexive(k);
            } else {
                lemma_text_lt_irreflexive(k);
            }
        }
        lemma_lookup_none(s, k);
        assert forall|k2: Seq<char>| k2 != k implies lookup(t, k2) == lookup(s, k2) by {
            lemma_index_from(s, k2, 0);
            lemma_lookup_none(s, k2);
            lemma_lookup_none(t, k2);
            if lookup(s, k2) is Some {
                let j = index_from(s, k2, 0)->0;
                if j < p {
                    lemma_lookup_at(t, k2, j);
                } else {
                    assert(t[j + 1] == s[j]);
                    lemma_lookup_at(t, k2, j + 1);
                }
            } else {
                assert forall|m: int| 0 <= m < t.len() implies t[m].0 != k2 by {
                    if m < p {
                        assert(t[m] == s[m]);
                    } else if m > p {
                        assert(t[m] == s[m - 1]);
                    }
                }
            }
        }
    }
}

// ---------------------------------------------------------------------------
// Operations
// ---------------------------------------------------------------------------

impl RoutingTable {
    /// The keys of the table increase strictly.
    pub open spec fn wf(&self) -> bool {
        keys_sorted(self@)
    }

    /// An empty table.
    pub fn new() -> (t: RoutingTable)
        ensures
            t.wf(),
            t@ == Seq::<(Seq<char>, EntryView)>::empty(),
    {
        let t = RoutingTable { entries: Vec::new() };
        assert(t@ =~= Seq::<(Seq<char>, EntryView)>::empty());
        t
    }

    /// The number of entries.
    pub fn len(&self) -> (n: usize)
        ensures
            n == self@.len(),
    {
        self.entries.len()
    }

    /// The key of the entry at position `i`.
    pub fn key_at(&self, i: usize) -> (k: &String)
        requires
            i < self@.len(),
        ensures
            k@ == self@[i as int].0,
    {
        &self.entries[i].0
    }

    /// The entry at position `i`.
    pub fn entry_at(&self, i: usize) -> (e: &RouteEntry)
        requires
            i < self@.len(),
        ensures
            e@ == self@[i as int].1,
    {
        &self.entries[i].1
    }

    /// The position of the entry stored under `key`.
    pub fn position_of(&self, key: &str) -> (r: Option<usize>)
        requires
            self.wf(),
        ensures
            r is None <==> lookup(self@, key@) is None,
            r matches Some(i) ==> i < self@.len() && self@[i as int].0 == key@ && lookup(self@, key@)
                == Some(self@[i as int].1),
    {
        let k = chars_of(key);
        let mut i: usize = 0;
        while i < self.entries.len()
            invariant
                keys_sorted(self@),
                i <= self@.len(),
                self@.len() == self.entries.len(),
                k@ == key@,
                forall|m: int| 0 <= m < i ==> self@[m].0 != key@,
            decreases self.entries.len() - i,
        {
            let c = chars_of(self.entries[i].0.as_str());
            if chars_eq(&c, &k) {
                proof {
                    lemma_lookup_at(self@, key@, i as int);
                }
                return Some(i);
            }
            i = i + 1;
        }
        proof {
            lemma_lookup_none(self@, key@);
        }
        None
    }

    /// The entry stored under `key`.
    pub fn get(&self, key: &str) -> (r: Option<&RouteEntry>)
        requires
            self.wf(),
        ensures
            match r {
                Some(e) => lookup(self@, key@) == Some(e@),
                None => lookup(self@, key@) is None,
            },
    {
        match self.position_of(key) {
            Some(i) => Some(&self.entries[i].1),
            None => None,
        }
    }

    /// Appends an entry whose key is above every key of the table.
    pub fn push_last(&mut self, key: String, entry: RouteEntry)
        requires
            old(self).wf(),
            forall|i: int| 0 <= i < old(self)@.len() ==> text_lt(#[trigger] old(self)@[i].0, key@),
        ensures
            final(self).wf(),
            final(self)@ == old(self)@.push((key@, entry@)),
    {
        let ghost s = self@;
        self.entries.push((key, entry));
        assert(self@ =~= s.push((key@, entry@)));
    }

    fn key_below(&self, i: usize, k: &Vec<char>) -> (r: bool)
        requires
            i < self@.len(),
        ensures
            r == text_lt(self@[i as int].0, k@),
    {
        let c = chars_of(self.entries[i].0.as_str());
        chars_lt(&c, k)
    }

    /// Stores `entry` under `key`, replacing what was stored under it.
    pub fn insert(&mut self, key: String, entry: RouteEntry)
        requires
            old(self).wf(),
        ensures
            final(self).wf(),
            final(self)@ == insert_sorted(old(self)@, key@, entry@),
    {
        let k = chars_of(key.as_str());
        let mut i: usize = 0;
        proof {
            lemma_lower_bound(self@, key@, 0);
        }
        let ghost s = self@;
        while i < self.entries.len() && self.key_below(i, &k)
            invariant
                s == self@,
                keys_sorted(s),
                i <= s.len(),
                self.entries.len() == s.len(),
                k@ == key@,
                lower_bound_from(s, key@, 0) == lower_bound_from(s, key@, i as int),
            decreases s.len() - i,
        {
            i = i + 1;
        }
        assert(lower_bound_from(s, key@, 0) == i);
        let same = if i < self.entries.len() {
            let c = chars_of(self.entries[i].0.as_str());
            chars_eq(&c, &k)
        } else {
            false
        };
        proof {
            lemma_insert_sorted(s, key@, entry@);
        }
        if same {
            self.entries.set(i, (key, entry));
            assert(self@ =~= s.update(i as int, (key@, entry@)));
        } else {
            self.entries.insert(i, (key, entry));
            assert(self@ =~= s.insert(i as int, (key@, entry@)));
        }
    }
}

} // verus!
