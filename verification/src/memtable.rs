//! The memtable: the fast in-memory tier (C0) of the LSM.
//!
//! An ordered mapping from key bytes to value bytes.  Invariants: at most
//! one entry per key; iteration yields keys in ascending lexicographic
//! order; inserting an existing key replaces the prior value and returns
//! it; removing an entry returns the prior value if any.
//!
//! The table is a vector of pairs kept sorted by key; its mathematical
//! model is the map built from those pairs.

use vstd::prelude::*;

verus! {

use vstd::map::*;
use crate::key::Key;
use crate::value::Value;
use crate::order::{lex_lt, lex_cmp, lemma_lex_trichotomy, lemma_lex_lt_transitive, Cmp};

/// The map described by a sequence of (key, value) pairs, a later pair
/// overriding an earlier one with the same key.
pub open spec fn map_of<V>(s: Seq<(Seq<u8>, V)>) -> Map<Seq<u8>, V>
    decreases s.len(),
{
    if s.len() == 0 {
        Map::empty()
    } else {
        map_of(s.drop_last()).insert(s.last().0, s.last().1)
    }
}

/// Keys strictly ascending: each pair's key is lexicographically below
/// every later pair's key.
pub open spec fn entries_sorted<V>(s: Seq<(Seq<u8>, V)>) -> bool {
    forall|i: int, j: int| 0 <= i < j < s.len() ==> lex_lt(s[i].0, s[j].0)
}

/// No two pairs share a key.
pub open spec fn unique_keys<V>(s: Seq<(Seq<u8>, V)>) -> bool {
    forall|i: int, j: int| 0 <= i < j < s.len() ==> s[i].0 != s[j].0
}

/// Strictly ascending keys are pairwise distinct.
pub proof fn lemma_sorted_unique<V>(s: Seq<(Seq<u8>, V)>)
    requires
        entries_sorted(s),
    ensures
        unique_keys(s),
{
    assert forall|i: int, j: int| 0 <= i < j < s.len() implies s[i].0 != s[j].0 by {
        lemma_lex_trichotomy(s[i].0, s[j].0);
    }
}

/// The map of a pair sequence holds a key exactly when some pair does.
pub proof fn lemma_map_of_contains<V>(s: Seq<(Seq<u8>, V)>, k: Seq<u8>)
    ensures
        map_of(s).contains_key(k) <==> exists|i: int| 0 <= i < s.len() && s[i].0 == k,
    decreases s.len(),
{
    if s.len() > 0 {
        lemma_map_of_contains(s.drop_last(), k);
        if s.last().0 == k {
            assert(s[s.len() - 1].0 == k);
        } else {
            assert forall|i: int| 0 <= i < s.len() - 1 && s.drop_last()[i].0 == k implies s[i].0
                == k by {}
            if exists|i: int| 0 <= i < s.len() && s[i].0 == k {
                let i = choose|i: int| 0 <= i < s.len() && s[i].0 == k;
                assert(i < s.len() - 1);
                assert(s.drop_last()[i].0 == k);
            }
        }
    }
}

/// With pairwise distinct keys, the map of a pair sequence sends each
/// pair's key to that pair's value.
pub proof fn lemma_map_of_index<V>(s: Seq<(Seq<u8>, V)>, i: int)
    requires
        unique_keys(s),
        0 <= i < s.len(),
    ensures
        map_of(s).contains_key(s[i].0),
        map_of(s)[s[i].0] == s[i].1,
    decreases s.len(),
{
    if i == s.len() - 1 {
    } else {
        assert(s[i].0 != s.last().0);
        assert(forall|x: int, y: int|
            0 <= x < y < s.len() - 1 ==> s.drop_last()[x].0 == s[x].0 && s.drop_last()[y].0
                == s[y].0);
        lemma_map_of_index(s.drop_last(), i);
    }
}

/// The in-memory ordered table from keys to values.
pub struct Memtable {
    entries: Vec<(Key, Value)>,
}

impl Memtable {
    /// The table's pairs, as byte sequences, in storage order.
    pub closed spec fn model(&self) -> Seq<(Seq<u8>, Seq<u8>)> {
        self.entries@.map_values(|e: (Key, Value)| (e.0@, e.1@))
    }

    /// The table's pairs are sorted strictly ascending by key.
    pub open spec fn wf(&self) -> bool {
        entries_sorted(self.model())
    }

    /// The mapping the table holds.
    pub open spec fn as_map(&self) -> Map<Seq<u8>, Seq<u8>> {
        map_of(self.model())
    }

    /// An empty table.
    pub fn new() -> (t: Memtable)
        ensures
            t.wf(),
            t.as_map() == Map::<Seq<u8>, Seq<u8>>::empty(),
            t.model() == Seq::<(Seq<u8>, Seq<u8>)>::empty(),
    {
        let t = Memtable { entries: Vec::new() };
        proof {
            assert(t.model() =~= Seq::<(Seq<u8>, Seq<u8>)>::empty());
        }
        t
    }

    /// Number of entries held.
    pub fn len(&self) -> (n: usize)
        ensures
            n == self.model().len(),
    {
        self.entries.len()
    }

    /// Index of the pair holding key `k`, if one does.
    fn find(&self, k: &[u8]) -> (r: Option<usize>)
        ensures
            match r {
                Some(i) => i < self.model().len() && self.model()[i as int].0 == k@,
                None => forall|i: int| 0 <= i < self.model().len() ==> self.model()[i].0 != k@,
            },
    {
        let mut i: usize = 0;
        while i < self.entries.len()
            invariant
                i <= self.entries.len(),
                forall|j: int| 0 <= j < i ==> self.model()[j].0 != k@,
            decreases self.entries.len() - i,
        {
            if lex_cmp(self.entries[i].0.as_slice(), k) == Cmp::Equal {
                return Some(i);
            }
            i = i + 1;
        }
        None
    }

    /// The value stored for `k`, if any.
    pub fn get(&self, k: &Key) -> (r: Option<&Value>)
        requires
            self.wf(),
        ensures
            r is Some <==> self.as_map().contains_key(k@),
            r matches Some(v) ==> self.as_map()[k@] == v@,
    {
        proof {
            lemma_map_of_contains(self.model(), k@);
        }
        match self.find(k.as_slice()) {
            Some(i) => {
                proof {
                    lemma_sorted_unique(self.model());
                    lemma_map_of_index(self.model(), i as int);
                }
                Some(&self.entries[i].1)
            },
            None => None,
        }
    }

    /// First position whose key is not below `k`; the length if every key
    /// is below `k`.
    fn insertion_point(&self, k: &[u8]) -> (pos: usize)
        requires
            self.wf(),
        ensures
            pos <= self.model().len(),
            forall|j: int| 0 <= j < pos ==> lex_lt(self.model()[j].0, k@),
            pos < self.model().len() ==> !lex_lt(self.model()[pos as int].0, k@),
    {
        let mut pos: usize = 0;
        loop
            invariant
                self.wf(),
                pos <= self.entries.len(),
                forall|j: int| 0 <= j < pos ==> lex_lt(self.model()[j].0, k@),
            decreases self.entries.len() - pos,
        {
            if pos == self.entries.len() {
                return pos;
            }
            if lex_cmp(self.entries[pos].0.as_slice(), k) != Cmp::Less {
                return pos;
            }
            pos = pos + 1;
        }
    }

    /// Store `v` for `k`, returning the value previously stored for `k`
    /// if there was one.
    pub fn insert(&mut self, k: Key, v: Value) -> (r: Option<Value>)
        requires
            old(self).wf(),
        ensures
            final(self).wf(),
            final(self).as_map() == old(self).as_map().insert(k@, v@),
            r is Some <==> old(self).as_map().contains_key(k@),
            r matches Some(x) ==> old(self).as_map()[k@] == x@,
    {
        proof {
            lemma_map_of_contains(old(self).model(), k@);
            lemma_sorted_unique(old(self).model());
        }
        let ghost m0 = self.model();
        let pos = self.insertion_point(k.as_slice());
        let replaces = pos < self.entries.len() && lex_cmp(
            self.entries[pos].0.as_slice(),
            k.as_slice(),
        ) == Cmp::Equal;
        if replaces {
            proof {
                lemma_map_of_index(m0, pos as int);
            }
            let prior = Value::new(self.entries[pos].1.to_vec());
            self.entries[pos].1 = v;
            proof {
                let m1 = self.model();
                assert(m1 =~= m0.update(pos as int, (k@, v@)));
                assert(entries_sorted(m1));
                lemma_sorted_unique(m1);
                assert(final(self).as_map() =~= old(self).as_map().insert(k@, v@)) by {
                    lemma_maps_agree(m0, m1, k@, v@, pos as int);
                }
            }
            Some(prior)
        } else {
            proof {
                if pos < m0.len() {
                    lemma_lex_trichotomy(m0[pos as int].0, k@);
                }
                assert forall|j: int| pos <= j < m0.len() implies lex_lt(k@, m0[j].0) by {
                    if j > pos {
                        lemma_lex_lt_transitive(k@, m0[pos as int].0, m0[j].0);
                    }
                }
                assert forall|i: int| 0 <= i < m0.len() implies m0[i].0 != k@ by {
                    lemma_lex_trichotomy(m0[i].0, k@);
                }
            }
            self.entries.insert(pos, (k, v));
            proof {
                let m1 = self.model();
                assert(m1 =~= m0.insert(pos as int, (k@, v@)));
                assert(entries_sorted(m1)) by {
                    assert forall|i: int, j: int| 0 <= i < j < m1.len() implies lex_lt(
                        m1[i].0,
                        m1[j].0,
                    ) by {
                        let ii = if i < pos {
                            i
                        } else {
                            i - 1
                        };
                        let jj = if j < pos {
                            j
                        } else {
                            j - 1
                        };
                        if i != pos && j != pos {
                            assert(m1[i] == m0[ii] && m1[j] == m0[jj]);
                        }
                    }
                }
                lemma_sorted_unique(m1);
                assert(final(self).as_map() =~= old(self).as_map().insert(k@, v@)) by {
                    lemma_maps_agree_fresh(m0, m1, k@, v@, pos as int);
                }
            }
            None
        }
    }

    /// Remove the entry for `k`, returning the value it held if any.
    pub fn remove(&mut self, k: &Key) -> (r: Option<Value>)
        requires
            old(self).wf(),
        ensures
            final(self).wf(),
            final(self).as_map() == old(self).as_map().remove(k@),
            r is Some <==> old(self).as_map().contains_key(k@),
            r matches Some(x) ==> old(self).as_map()[k@] == x@,
    {
        proof {
            lemma_map_of_contains(old(self).model(), k@);
            lemma_sorted_unique(old(self).model());
        }
        let ghost m0 = self.model();
        match self.find(k.as_slice()) {
            Some(i) => {
                proof {
                    lemma_map_of_index(m0, i as int);
                }
                let (_, prior) = self.entries.remove(i);
                proof {
                    let m1 = self.model();
                    assert(m1 =~= m0.remove(i as int));
                    assert(entries_sorted(m1)) by {
                        assert forall|x: int, y: int| 0 <= x < y < m1.len() implies lex_lt(
                            m1[x].0,
                            m1[y].0,
                        ) by {
                            let xx = if x < i {
                                x
                            } else {
                                x + 1
                            };
                            let yy = if y < i {
                                y
                            } else {
                                y + 1
                            };
                            assert(m1[x] == m0[xx] && m1[y] == m0[yy]);
                        }
                    }
                    lemma_sorted_unique(m1);
                    assert(final(self).as_map() =~= old(self).as_map().remove(k@)) by {
                        lemma_maps_agree_removed(m0, m1, k@, i as int);
                    }
                }
                Some(prior)
            },
            None => {
                proof {
                    assert(final(self).as_map() =~= old(self).as_map().remove(k@));
                }
                None
            },
        }
    }

    /// Every pair of the table, keys ascending, as fresh keys and values.
    pub fn pairs(&self) -> (r: Vec<(Key, Value)>)
        ensures
            r@.len() == self.model().len(),
            forall|i: int|
                0 <= i < r@.len() ==> r@[i].0@ == self.model()[i].0 && r@[i].1@
                    == self.model()[i].1,
    {
        let mut r: Vec<(Key, Value)> = Vec::new();
        let mut i: usize = 0;
        while i < self.entries.len()
            invariant
                i <= self.entries.len(),
                r@.len() == i,
                forall|j: int|
                    0 <= j < i ==> r@[j].0@ == self.model()[j].0 && r@[j].1@ == self.model()[j].1,
            decreases self.entries.len() - i,
        {
            let k = Key::new(self.entries[i].0.to_vec());
            let v = Value::new(self.entries[i].1.to_vec());
            r.push((k, v));
            i = i + 1;
        }
        r
    }

    /// Drop every entry.
    pub fn clear(&mut self)
        ensures
            final(self).wf(),
            final(self).as_map() == Map::<Seq<u8>, Seq<u8>>::empty(),
            final(self).model() == Seq::<(Seq<u8>, Seq<u8>)>::empty(),
    {
        self.entries.clear();
        proof {
            assert(self.model() =~= Seq::<(Seq<u8>, Seq<u8>)>::empty());
        }
    }
}

/// A stored entry: either a value, or a tombstone marking a deletion.
///
/// The lookup path does not consult the on-disk tier for a key whose
/// entry is a tombstone; recording deletions this way (rather than as
/// absences) is what lets a deletion shadow an older on-disk value.  The
/// engine's own memtable does not use tombstones yet; this table is the
/// variant that records them.
#[derive(Debug, PartialEq, Eq)]
pub enum Entry {
    Tombstone,
    Val(Value),
}

/// What an entry says, over plain byte sequences.
pub enum EntryView {
    Tombstone,
    Val(Seq<u8>),
}

impl View for Entry {
    type V = EntryView;

    open spec fn view(&self) -> EntryView {
        match self {
            Entry::Tombstone => EntryView::Tombstone,
            Entry::Val(v) => EntryView::Val(v@),
        }
    }
}

/// An ordered table from keys to entries, tombstones included.  The same
/// sorted-vector representation as `Memtable`, with an entry sum as the
/// stored value.
pub struct BTreeMemtable {
    entries: Vec<(Key, Entry)>,
}

impl BTreeMemtable {
    /// The table's pairs, as key bytes and entry views, in storage order.
    pub closed spec fn model(&self) -> Seq<(Seq<u8>, EntryView)> {
        self.entries@.map_values(|e: (Key, Entry)| (e.0@, e.1@))
    }

    /// The table's pairs are sorted strictly ascending by key.
    pub open spec fn wf(&self) -> bool {
        entries_sorted(self.model())
    }

    /// The mapping from keys to entries the table holds.
    pub open spec fn as_map(&self) -> Map<Seq<u8>, EntryView> {
        map_of(self.model())
    }

    /// An empty table.
    pub fn new() -> (t: BTreeMemtable)
        ensures
            t.wf(),
            t.as_map() == Map::<Seq<u8>, EntryView>::empty(),
    {
        let t = BTreeMemtable { entries: Vec::new() };
        proof {
            assert(t.model() =~= Seq::<(Seq<u8>, EntryView)>::empty());
        }
        t
    }

    /// Index of the pair holding key `k`, if one does.
    fn find(&self, k: &[u8]) -> (r: Option<usize>)
        ensures
            match r {
                Some(i) => i < self.model().len() && self.model()[i as int].0 == k@,
                None => forall|i: int| 0 <= i < self.model().len() ==> self.model()[i].0 != k@,
            },
    {
        let mut i: usize = 0;
        while i < self.entries.len()
            invariant
                i <= self.entries.len(),
                forall|j: int| 0 <= j < i ==> self.model()[j].0 != k@,
            decreases self.entries.len() - i,
        {
            if lex_cmp(self.entries[i].0.as_slice(), k) == Cmp::Equal {
                return Some(i);
            }
            i = i + 1;
        }
        None
    }

    /// A copy of the entry at `i`.
    fn entry_copy(&self, i: usize) -> (r: Entry)
        requires
            i < self.model().len(),
        ensures
            r@ == self.model()[i as int].1,
    {
        match &self.entries[i].1 {
            Entry::Tombstone => Entry::Tombstone,
            Entry::Val(v) => Entry::Val(Value::new(v.to_vec())),
        }
    }

    /// The value stored for `key`: a value entry's bytes, nothing for an
    /// absent key or a tombstone.
    pub fn get(&self, key: &Key) -> (r: Option<&Value>)
        requires
            self.wf(),
        ensures
            match r {
                Some(v) => self.as_map().contains_key(key@) && self.as_map()[key@]
                    == EntryView::Val(v@),
                None => !self.as_map().contains_key(key@) || self.as_map()[key@]
                    == EntryView::Tombstone,
            },
    {
        proof {
            lemma_map_of_contains(self.model(), key@);
        }
        match self.find(key.as_slice()) {
            Some(i) => {
                proof {
                    lemma_sorted_unique(self.model());
                    lemma_map_of_index(self.model(), i as int);
                }
                match &self.entries[i].1 {
                    Entry::Val(v) => Some(v),
                    Entry::Tombstone => None,
                }
            },
            None => None,
        }
    }

    /// First position whose key is not below `k`.
    fn insertion_point(&self, k: &[u8]) -> (pos: usize)
        requires
            self.wf(),
        ensures
            pos <= self.model().len(),
            forall|j: int| 0 <= j < pos ==> lex_lt(self.model()[j].0, k@),
            pos < self.model().len() ==> !lex_lt(self.model()[pos as int].0, k@),
    {
        let mut pos: usize = 0;
        loop
            invariant
                self.wf(),
                pos <= self.entries.len(),
                forall|j: int| 0 <= j < pos ==> lex_lt(self.model()[j].0, k@),
            decreases self.entries.len() - pos,
        {
            if pos == self.entries.len() {
                return pos;
            }
            if lex_cmp(self.entries[pos].0.as_slice(), k) != Cmp::Less {
                return pos;
            }
            pos = pos + 1;
        }
    }

    /// Store a value entry for `key`, returning the entry previously
    /// stored under `key` if there was one (a tombstone included).
    pub fn insert(&mut self, key: Key, value: Value) -> (r: Option<Entry>)
        requires
            old(self).wf(),
        ensures
            final(self).wf(),
            final(self).as_map() == old(self).as_map().insert(key@, EntryView::Val(value@)),
            r is Some <==> old(self).as_map().contains_key(key@),
            r matches Some(x) ==> old(self).as_map()[key@] == x@,
    {
        proof {
            lemma_map_of_contains(old(self).model(), key@);
            lemma_sorted_unique(old(self).model());
        }
        let ghost m0 = self.model();
        let pos = self.insertion_point(key.as_slice());
        let replaces = pos < self.entries.len() && lex_cmp(
            self.entries[pos].0.as_slice(),
            key.as_slice(),
        ) == Cmp::Equal;
        if replaces {
            proof {
                lemma_map_of_index(m0, pos as int);
            }
            let prior = self.entry_copy(pos);
            self.entries[pos].1 = Entry::Val(value);
            proof {
                let m1 = self.model();
                assert(m1 =~= m0.update(pos as int, (key@, EntryView::Val(value@))));
                assert(entries_sorted(m1));
                lemma_sorted_unique(m1);
                assert(final(self).as_map() =~= old(self).as_map().insert(
                    key@,
                    EntryView::Val(value@),
                )) by {
                    lemma_maps_agree(m0, m1, key@, EntryView::Val(value@), pos as int);
                }
            }
            Some(prior)
        } else {
            proof {
                if pos < m0.len() {
                    lemma_lex_trichotomy(m0[pos as int].0, key@);
                }
                assert forall|j: int| pos <= j < m0.len() implies lex_lt(key@, m0[j].0) by {
                    if j > pos {
                        lemma_lex_lt_transitive(key@, m0[pos as int].0, m0[j].0);
                    }
                }
                assert forall|i: int| 0 <= i < m0.len() implies m0[i].0 != key@ by {
                    lemma_lex_trichotomy(m0[i].0, key@);
                }
            }
            self.entries.insert(pos, (key, Entry::Val(value)));
            proof {
                let m1 = self.model();
                assert(m1 =~= m0.insert(pos as int, (key@, EntryView::Val(value@))));
                assert(entries_sorted(m1)) by {
                    assert forall|i: int, j: int| 0 <= i < j < m1.len() implies lex_lt(
                        m1[i].0,
                        m1[j].0,
                    ) by {
                        let ii = if i < pos {
                            i
                        } else {
                            i - 1
                        };
                        let jj = if j < pos {
                            j
                        } else {
                            j - 1
                        };
                        if i != pos && j != pos {
                            assert(m1[i] == m0[ii] && m1[j] == m0[jj]);
                        }
                    }
                }
                lemma_sorted_unique(m1);
                assert(final(self).as_map() =~= old(self).as_map().insert(
                    key@,
                    EntryView::Val(value@),
                )) by {
                    lemma_maps_agree_fresh(m0, m1, key@, EntryView::Val(value@), pos as int);
                }
            }
            None
        }
    }

    /// Remove the entry under `key`, returning it if there was one.
    pub fn remove(&mut self, key: &Key) -> (r: Option<Entry>)
        requires
            old(self).wf(),
        ensures
            final(self).wf(),
            final(self).as_map() == old(self).as_map().remove(key@),
            r is Some <==> old(self).as_map().contains_key(key@),
            r matches Some(x) ==> old(self).as_map()[key@] == x@,
    {
        proof {
            lemma_map_of_contains(old(self).model(), key@);
            lemma_sorted_unique(old(self).model());
        }
        let ghost m0 = self.model();
        match self.find(key.as_slice()) {
            Some(i) => {
                proof {
                    lemma_map_of_index(m0, i as int);
                }
                let (_, prior) = self.entries.remove(i);
                proof {
                    let m1 = self.model();
                    assert(m1 =~= m0.remove(i as int));
                    assert(entries_sorted(m1)) by {
                        assert forall|x: int, y: int| 0 <= x < y < m1.len() implies lex_lt(
                            m1[x].0,
                            m1[y].0,
                        ) by {
                            let xx = if x < i {
                                x
                            } else {
                                x + 1
                            };
                            let yy = if y < i {
                                y
                            } else {
                                y + 1
                            };
                            assert(m1[x] == m0[xx] && m1[y] == m0[yy]);
                        }
                    }
                    lemma_sorted_unique(m1);
                    assert(final(self).as_map() =~= old(self).as_map().remove(key@)) by {
                        lemma_maps_agree_removed(m0, m1, key@, i as int);
                    }
                }
                Some(prior)
            },
            None => {
                proof {
                    assert(final(self).as_map() =~= old(self).as_map().remove(key@));
                }
                None
            },
        }
    }

    /// Drop every entry.
    pub fn clear(&mut self)
        ensures
            final(self).wf(),
            final(self).as_map() == Map::<Seq<u8>, EntryView>::empty(),
    {
        self.entries.clear();
        proof {
            assert(self.model() =~= Seq::<(Seq<u8>, EntryView)>::empty());
        }
    }
}

/// `m1` is `m0` with the pair at `pos` (whose key is `k`) given value `v`:
/// their maps then agree with `map_of(m0).insert(k, v)`.
proof fn lemma_maps_agree<V>(
    m0: Seq<(Seq<u8>, V)>,
    m1: Seq<(Seq<u8>, V)>,
    k: Seq<u8>,
    v: V,
    pos: int,
)
    requires
        unique_keys(m0),
        unique_keys(m1),
        0 <= pos < m0.len(),
        m0[pos].0 == k,
        m1 == m0.update(pos, (k, v)),
    ensures
        map_of(m1) == map_of(m0).insert(k, v),
{
    let lhs = map_of(m1);
    let rhs = map_of(m0).insert(k, v);
    assert forall|x: Seq<u8>| lhs.contains_key(x) <==> rhs.contains_key(x) by {
        lemma_map_of_contains(m1, x);
        lemma_map_of_contains(m0, x);
        if exists|i: int| 0 <= i < m0.len() && m0[i].0 == x {
            let i = choose|i: int| 0 <= i < m0.len() && m0[i].0 == x;
            assert(m1[i].0 == x);
        }
        if exists|i: int| 0 <= i < m1.len() && m1[i].0 == x {
            let i = choose|i: int| 0 <= i < m1.len() && m1[i].0 == x;
            assert(m0[i].0 == x || x == k);
        }
    }
    assert forall|x: Seq<u8>| lhs.contains_key(x) implies lhs[x] == rhs[x] by {
        lemma_map_of_contains(m1, x);
        let i = choose|i: int| 0 <= i < m1.len() && m1[i].0 == x;
        lemma_map_of_index(m1, i);
        if x == k {
            assert(i == pos);
        } else {
            assert(m0[i] == m1[i]);
            lemma_map_of_index(m0, i);
        }
    }
    assert(lhs =~= rhs);
}

/// `m1` is `m0` with a fresh pair `(k, v)` inserted at `pos`: their maps
/// then agree with `map_of(m0).insert(k, v)`.
proof fn lemma_maps_agree_fresh<V>(
    m0: Seq<(Seq<u8>, V)>,
    m1: Seq<(Seq<u8>, V)>,
    k: Seq<u8>,
    v: V,
    pos: int,
)
    requires
        unique_keys(m0),
        unique_keys(m1),
        0 <= pos <= m0.len(),
        forall|i: int| 0 <= i < m0.len() ==> m0[i].0 != k,
        m1 == m0.insert(pos, (k, v)),
    ensures
        map_of(m1) == map_of(m0).insert(k, v),
{
    let lhs = map_of(m1);
    let rhs = map_of(m0).insert(k, v);
    assert forall|x: Seq<u8>| lhs.contains_key(x) <==> rhs.contains_key(x) by {
        lemma_map_of_contains(m1, x);
        lemma_map_of_contains(m0, x);
        if exists|i: int| 0 <= i < m0.len() && m0[i].0 == x {
            let i = choose|i: int| 0 <= i < m0.len() && m0[i].0 == x;
            if i < pos {
                assert(m1[i].0 == x);
            } else {
                assert(m1[i + 1].0 == x);
            }
        }
        if x == k {
            assert(m1[pos].0 == x);
        }
        if exists|i: int| 0 <= i < m1.len() && m1[i].0 == x {
            let i = choose|i: int| 0 <= i < m1.len() && m1[i].0 == x;
            if i < pos {
                assert(m0[i].0 == x);
            } else if i > pos {
                assert(m0[i - 1].0 == x);
            }
        }
    }
    assert forall|x: Seq<u8>| lhs.contains_key(x) implies lhs[x] == rhs[x] by {
        lemma_map_of_contains(m1, x);
        let i = choose|i: int| 0 <= i < m1.len() && m1[i].0 == x;
        lemma_map_of_index(m1, i);
        if i == pos {
            assert(x == k);
        } else if i < pos {
            lemma_map_of_index(m0, i);
        } else {
            assert(m0[i - 1] == m1[i]);
            lemma_map_of_index(m0, i - 1);
        }
    }
    assert(lhs =~= rhs);
}

/// `m1` is `m0` with the pair at `pos` (whose key is `k`) removed: their
/// maps then agree with `map_of(m0).remove(k)`.
proof fn lemma_maps_agree_removed<V>(
    m0: Seq<(Seq<u8>, V)>,
    m1: Seq<(Seq<u8>, V)>,
    k: Seq<u8>,
    pos: int,
)
    requires
        unique_keys(m0),
        unique_keys(m1),
        0 <= pos < m0.len(),
        m0[pos].0 == k,
        m1 == m0.remove(pos),
    ensures
        map_of(m1) == map_of(m0).remove(k),
{
    let lhs = map_of(m1);
    let rhs = map_of(m0).remove(k);
    assert forall|x: Seq<u8>| lhs.contains_key(x) <==> rhs.contains_key(x) by {
        lemma_map_of_contains(m1, x);
        lemma_map_of_contains(m0, x);
        if x != k && exists|i: int| 0 <= i < m0.len() && m0[i].0 == x {
            let i = choose|i: int| 0 <= i < m0.len() && m0[i].0 == x;
            if i < pos {
                assert(m1[i].0 == x);
            } else {
                assert(i != pos);
                assert(m1[i - 1].0 == x);
            }
        }
        if exists|i: int| 0 <= i < m1.len() && m1[i].0 == x {
            let i = choose|i: int| 0 <= i < m1.len() && m1[i].0 == x;
            if i < pos {
                assert(m0[i].0 == x);
            } else {
                assert(m0[i + 1].0 == x);
            }
        }
    }
    assert forall|x: Seq<u8>| lhs.contains_key(x) implies lhs[x] == rhs[x] by {
        lemma_map_of_contains(m1, x);
        let i = choose|i: int| 0 <= i < m1.len() && m1[i].0 == x;
        lemma_map_of_index(m1, i);
        if i < pos {
            lemma_map_of_index(m0, i);
        } else {
            assert(m0[i + 1] == m1[i]);
            lemma_map_of_index(m0, i + 1);
        }
    }
    assert(lhs =~= rhs);
}

} // verus!
