//! The frequency table: folded byte keys mapped to occurrence counts.
//!
//! The table is a strictly additive accumulator: counts are only ever
//! inserted at one or raised by one, never removed. It is stored as a vector
//! of `(key, count)` entries with pairwise-distinct keys, and viewed as the
//! finite map from each key's bytes to its count.

use vstd::prelude::*;
use vstd::pervasive::VecAdditionalExecFns;

verus! {

/// The finite map represented by an entry sequence. With distinct keys the
/// order of the entries does not matter.
pub open spec fn entries_map(s: Seq<(Seq<u8>, nat)>) -> Map<Seq<u8>, nat>
    decreases s.len(),
{
    if s.len() == 0 {
        Map::<Seq<u8>, nat>::empty()
    } else {
        entries_map(s.drop_last()).insert(s.last().0, s.last().1)
    }
}

/// No key occurs in two entries.
pub open spec fn distinct_keys(s: Seq<(Seq<u8>, nat)>) -> bool {
    forall|i: int, j: int| 0 <= i < j < s.len() ==> (#[trigger] s[i]).0 != (#[trigger] s[j]).0
}

/// `m` with the count of `k` raised by one (a key not yet present counts as
/// zero).
pub open spec fn bump_key(m: Map<Seq<u8>, nat>, k: Seq<u8>) -> Map<Seq<u8>, nat> {
    m.insert(
        k,
        (if m.contains_key(k) {
            m[k]
        } else {
            0
        }) + 1,
    )
}

/// A key is in the represented map exactly when some entry holds it.
pub proof fn lemma_entries_map_dom(s: Seq<(Seq<u8>, nat)>, k: Seq<u8>)
    ensures
        entries_map(s).contains_key(k) <==> exists|i: int| 0 <= i < s.len() && (#[trigger] s[i]).0
            == k,
    decreases s.len(),
{
    if s.len() > 0 {
        lemma_entries_map_dom(s.drop_last(), k);
        if s.last().0 == k {
            assert(s[s.len() - 1].0 == k);
        } else {
            if entries_map(s).contains_key(k) {
                let i = choose|i: int| 0 <= i < s.drop_last().len() && (#[trigger] s.drop_last()[i]).0
                    == k;
                assert(s[i].0 == k);
            }
            if exists|i: int| 0 <= i < s.len() && (#[trigger] s[i]).0 == k {
                let i = choose|i: int| 0 <= i < s.len() && (#[trigger] s[i]).0 == k;
                assert(i < s.len() - 1);
                assert(s.drop_last()[i].0 == k);
            }
        }
    }
}

/// With distinct keys, each entry's key maps to that entry's count.
pub proof fn lemma_entries_map_at(s: Seq<(Seq<u8>, nat)>, i: int)
    requires
        distinct_keys(s),
        0 <= i < s.len(),
    ensures
        entries_map(s).contains_key(s[i].0),
        entries_map(s)[s[i].0] == s[i].1,
    decreases s.len(),
{
    if i == s.len() - 1 {
    } else {
        assert(distinct_keys(s.drop_last()));
        assert(s.drop_last()[i] == s[i]);
        lemma_entries_map_at(s.drop_last(), i);
        assert(s[i].0 != s.last().0);
    }
}

/// With distinct keys, replacing the count in one entry replaces the one
/// count in the represented map.
pub proof fn lemma_entries_map_update(s: Seq<(Seq<u8>, nat)>, i: int, c: nat)
    requires
        distinct_keys(s),
        0 <= i < s.len(),
    ensures
        entries_map(s.update(i, (s[i].0, c))) == entries_map(s).insert(s[i].0, c),
    decreases s.len(),
{
    let t = s.update(i, (s[i].0, c));
    if i == s.len() - 1 {
        assert(t.drop_last() =~= s.drop_last());
        assert(t.last() == (s[i].0, c));
        assert(entries_map(s.drop_last()).insert(s[i].0, c) =~= entries_map(s.drop_last()).insert(
            s.last().0,
            s.last().1,
        ).insert(s[i].0, c));
    } else {
        assert(distinct_keys(s.drop_last()));
        assert(s.drop_last()[i] == s[i]);
        lemma_entries_map_update(s.drop_last(), i, c);
        assert(t.drop_last() =~= s.drop_last().update(i, (s[i].0, c)));
        assert(t.last() == s.last());
        assert(s[i].0 != s.last().0);
        assert(entries_map(s.drop_last()).insert(s[i].0, c).insert(s.last().0, s.last().1)
            =~= entries_map(s.drop_last()).insert(s.last().0, s.last().1).insert(s[i].0, c));
    }
}

/// A frequency table over byte keys. Counts start at zero and only grow.
pub struct CountTable {
    entries: Vec<(Vec<u8>, usize)>,
}

impl View for CountTable {
    type V = Map<Seq<u8>, nat>;

    open spec fn view(&self) -> Map<Seq<u8>, nat> {
        entries_map(self.entries_seq())
    }
}

impl CountTable {
    /// The entries as mathematical pairs, in stored order.
    pub closed spec fn entries_seq(self) -> Seq<(Seq<u8>, nat)> {
        self.entries@.map(|i: int, e: (Vec<u8>, usize)| (e.0@, e.1 as nat))
    }

    /// Well-formed: no key is stored twice.
    pub open spec fn wf(self) -> bool {
        distinct_keys(self.entries_seq())
    }

    /// An empty table.
    pub fn new() -> (t: CountTable)
        ensures
            t.wf(),
            t@ == Map::<Seq<u8>, nat>::empty(),
            t.entries_seq() == Seq::<(Seq<u8>, nat)>::empty(),
    {
        let t = CountTable { entries: Vec::new() };
        proof {
            assert(t.entries_seq() =~= Seq::<(Seq<u8>, nat)>::empty());
        }
        t
    }

    /// The number of distinct keys.
    pub fn len(&self) -> (n: usize)
        ensures
            n == self.entries_seq().len(),
    {
        self.entries.len()
    }

    /// The entry at index `i`: its key and its count.
    pub fn entry_at(&self, i: usize) -> (e: &(Vec<u8>, usize))
        requires
            i < self.entries_seq().len(),
        ensures
            e.0@ == self.entries_seq()[i as int].0,
            e.1 as nat == self.entries_seq()[i as int].1,
    {
        &self.entries[i]
    }

    /// The count stored under `key`, or `None` when the key is absent.
    pub fn get(&self, key: &Vec<u8>) -> (r: Option<usize>)
        requires
            self.wf(),
        ensures
            match r {
                Some(c) => self@.contains_key(key@) && self@[key@] == c as nat,
                None => !self@.contains_key(key@),
            },
    {
        let n = self.entries.len();
        let mut i: usize = 0;
        while i < n
            invariant
                i <= n,
                n == self.entries_seq().len(),
                self.wf(),
                forall|j: int| 0 <= j < i ==> (#[trigger] self.entries_seq()[j]).0 != key@,
            decreases n - i,
        {
            if bytes_eq(&self.entries[i].0, key) {
                proof {
                    lemma_entries_map_at(self.entries_seq(), i as int);
                }
                return Some(self.entries[i].1);
            }
            i += 1;
        }
        proof {
            lemma_entries_map_dom(self.entries_seq(), key@);
        }
        None
    }

    /// Raises the count of `key` by one, inserting it at one when absent.
    pub fn bump(&mut self, key: Vec<u8>)
        requires
            old(self).wf(),
            old(self)@.contains_key(key@) ==> old(self)@[key@] < usize::MAX,
        ensures
            final(self).wf(),
            final(self)@ == bump_key(old(self)@, key@),
    {
        let n = self.entries.len();
        let mut i: usize = 0;
        while i < n
            invariant
                i <= n,
                n == self.entries_seq().len(),
                *self == *old(self),
                old(self).wf(),
                old(self)@.contains_key(key@) ==> old(self)@[key@] < usize::MAX,
                forall|j: int| 0 <= j < i ==> (#[trigger] self.entries_seq()[j]).0 != key@,
            decreases n - i,
        {
            if bytes_eq(&self.entries[i].0, &key) {
                proof {
                    lemma_entries_map_at(self.entries_seq(), i as int);
                }
                let c = self.entries[i].1;
                let ghost s = self.entries_seq();
                self.entries.set(i, (key, c + 1));
                proof {
                    assert(self.entries_seq() =~= s.update(i as int, (key@, (c + 1) as nat)));
                    lemma_entries_map_update(s, i as int, (c + 1) as nat);
                    assert(distinct_keys(self.entries_seq()));
                }
                return ;
            }
            i += 1;
        }
        proof {
            lemma_entries_map_dom(self.entries_seq(), key@);
            assert(!self@.contains_key(key@));
        }
        let ghost s = self.entries_seq();
        self.entries.push((key, 1));
        proof {
            assert(self.entries_seq() =~= s.push((key@, 1nat)));
            assert(self.entries_seq().drop_last() =~= s);
            assert(distinct_keys(self.entries_seq()));
        }
    }
}

/// Whether two byte vectors hold the same bytes.
pub fn bytes_eq(a: &Vec<u8>, b: &Vec<u8>) -> (r: bool)
    ensures
        r <==> a@ == b@,
{
    if a.len() != b.len() {
        return false;
    }
    let n = a.len();
    let mut i: usize = 0;
    while i < n
        invariant
            i <= n,
            n == a@.len(),
            a@.len() == b@.len(),
            forall|j: int| 0 <= j < i ==> a@[j] == b@[j],
        decreases n - i,
    {
        if a[i] != b[i] {
            return false;
        }
        i += 1;
    }
    proof {
        assert(a@ =~= b@);
    }
    true
}

/// A fresh byte vector holding the same bytes.
pub fn copy_bytes(v: &Vec<u8>) -> (r: Vec<u8>)
    ensures
        r@ == v@,
{
    let n = v.len();
    let mut r: Vec<u8> = Vec::new();
    let mut i: usize = 0;
    while i < n
        invariant
            i <= n,
            n == v@.len(),
            r@ == v@.take(i as int),
        decreases n - i,
    {
        r.push(v[i]);
        i += 1;
        proof {
            assert(r@ =~= v@.take(i as int));
        }
    }
    proof {
        assert(v@.take(n as int) =~= v@);
    }
    r
}

} // verus!
