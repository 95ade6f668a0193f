//! Count histograms keyed by integers, kept as a list of distinct keys in
//! order of first appearance.
use vstd::prelude::*;

verus! {

/// Whether no key occurs twice in `s`.
pub open spec fn keys_distinct(s: Seq<(u64, u64)>) -> bool {
    forall|i: int, j: int| 0 <= i < j < s.len() ==> s[i].0 != s[j].0
}

/// The mapping from key to count that a list of entries stands for.
pub open spec fn entries_map(s: Seq<(u64, u64)>) -> Map<u64, nat>
    decreases s.len(),
{
    if s.len() == 0 {
        Map::empty()
    } else {
        entries_map(s.drop_last()).insert(s.last().0, s.last().1 as nat)
    }
}

/// Count of `k` in `m`, zero when absent.
pub open spec fn count_of(m: Map<u64, nat>, k: u64) -> nat {
    if m.contains_key(k) {
        m[k]
    } else {
        0
    }
}

/// `m` with `c` more occurrences of `k`.
pub open spec fn add_count(m: Map<u64, nat>, k: u64, c: nat) -> Map<u64, nat> {
    m.insert(k, count_of(m, k) + c)
}

/// Key-wise sum of two histograms: every key of either, with both counts added.
pub open spec fn sum_maps(a: Map<u64, nat>, b: Map<u64, nat>) -> Map<u64, nat> {
    Map::new(|k: u64| a.contains_key(k) || b.contains_key(k), |k: u64| count_of(a, k) + count_of(b, k))
}

/// Every count of `m` is at most `n`.
pub open spec fn counts_bounded(m: Map<u64, nat>, n: int) -> bool {
    forall|k: u64| m.contains_key(k) ==> #[trigger] m[k] <= n
}

pub proof fn lemma_entries_map_index(s: Seq<(u64, u64)>, k: u64)
    requires
        keys_distinct(s),
    ensures
        entries_map(s).contains_key(k) <==> exists|i: int| 0 <= i < s.len() && s[i].0 == k,
        forall|i: int| 0 <= i < s.len() && s[i].0 == k ==> entries_map(s)[k] == s[i].1 as nat,
    decreases s.len(),
{
    if s.len() > 0 {
        let t = s.drop_last();
        let n = s.len() - 1;
        assert(keys_distinct(t));
        lemma_entries_map_index(t, k);
        assert forall|i: int| 0 <= i < n implies t[i] == s[i] by {}
        if s[n].0 == k {
            assert forall|i: int| 0 <= i < s.len() && s[i].0 == k implies entries_map(s)[k]
                == s[i].1 as nat by {
                if i != n {
                    assert(s[i].0 != s[n].0);
                }
            }
        } else {
            if entries_map(s).contains_key(k) {
                let i = choose|i: int| 0 <= i < t.len() && t[i].0 == k;
                assert(s[i].0 == k);
            }
            if exists|i: int| 0 <= i < s.len() && s[i].0 == k {
                let i = choose|i: int| 0 <= i < s.len() && s[i].0 == k;
                assert(t[i].0 == k);
            }
        }
    }
}

pub proof fn lemma_entries_map_update(s: Seq<(u64, u64)>, idx: int, v: u64)
    requires
        keys_distinct(s),
        0 <= idx < s.len(),
    ensures
        keys_distinct(s.update(idx, (s[idx].0, v))),
        entries_map(s.update(idx, (s[idx].0, v))) == entries_map(s).insert(s[idx].0, v as nat),
    decreases s.len(),
{
    let u = s.update(idx, (s[idx].0, v));
    if idx == s.len() - 1 {
        assert(u.drop_last() == s.drop_last());
    } else {
        let t = s.drop_last();
        assert(keys_distinct(t));
        lemma_entries_map_update(t, idx, v);
        assert(u.drop_last() == t.update(idx, (t[idx].0, v)));
        assert(entries_map(u) =~= entries_map(s).insert(s[idx].0, v as nat));
    }
}

/// A histogram of counts keyed by `u64`.
#[derive(Clone, Debug)]
pub struct Histogram {
    entries: Vec<(u64, u64)>,
}

impl View for Histogram {
    type V = Map<u64, nat>;

    closed spec fn view(&self) -> Map<u64, nat> {
        entries_map(self.entries@)
    }
}

impl Histogram {
    /// The keys are distinct.
    pub closed spec fn wf(&self) -> bool {
        keys_distinct(self.entries@)
    }

    /// The entries, in order of first appearance.
    pub closed spec fn entry_seq(&self) -> Seq<(u64, u64)> {
        self.entries@
    }

    /// What the view and well-formedness are in terms of the entries.
    pub proof fn lemma_entry_seq(&self)
        ensures
            self@ == entries_map(self.entry_seq()),
            self.wf() <==> keys_distinct(self.entry_seq()),
    {
    }

    pub fn new() -> (r: Histogram)
        ensures
            r.wf(),
            r@ == Map::<u64, nat>::empty(),
            r.entry_seq() == Seq::<(u64, u64)>::empty(),
    {
        Histogram { entries: Vec::new() }
    }

    /// An entry-for-entry copy.
    pub fn copy(&self) -> (r: Histogram)
        ensures
            r.entry_seq() == self.entry_seq(),
            r@ == self@,
            r.wf() == self.wf(),
    {
        let mut entries: Vec<(u64, u64)> = Vec::new();
        let mut i: usize = 0;
        while i < self.entries.len()
            invariant
                0 <= i <= self.entries@.len(),
                entries@ == self.entries@.subrange(0, i as int),
            decreases self.entries@.len() - i,
        {
            entries.push(self.entries[i]);
            i += 1;
        }
        assert(entries@ == self.entries@);
        Histogram { entries }
    }

    /// Builds a histogram from a list of entries; `None` when a key repeats.
    pub fn from_entries(entries: Vec<(u64, u64)>) -> (r: Option<Histogram>)
        ensures
            r is Some <==> keys_distinct(entries@),
            r matches Some(h) ==> h.wf() && h.entry_seq() == entries@,
    {
        let mut i: usize = 0;
        while i < entries.len()
            invariant
                0 <= i <= entries.len(),
                keys_distinct(entries@.subrange(0, i as int)),
            decreases entries.len() - i,
        {
            let mut j: usize = 0;
            while j < i
                invariant
                    0 <= j <= i < entries.len(),
                    forall|m: int| 0 <= m < j ==> entries@[m].0 != entries@[i as int].0,
                decreases i - j,
            {
                if entries[j].0 == entries[i].0 {
                    assert(!keys_distinct(entries@));
                    return None;
                }
                j += 1;
            }
            assert(keys_distinct(entries@.subrange(0, i + 1))) by {
                let t = entries@.subrange(0, i + 1);
                assert forall|a: int, b: int| 0 <= a < b < t.len() implies t[a].0 != t[b].0 by {
                    if b < i {
                        assert(t[a] == entries@.subrange(0, i as int)[a]);
                        assert(t[b] == entries@.subrange(0, i as int)[b]);
                    }
                }
            }
            i += 1;
        }
        assert(entries@.subrange(0, entries.len() as int) == entries@);
        Some(Histogram { entries })
    }

    /// The entries, in order of first appearance.
    pub fn entries(&self) -> (r: &Vec<(u64, u64)>)
        ensures
            r@ == self.entry_seq(),
    {
        &self.entries
    }

    /// Number of distinct keys.
    pub fn len(&self) -> (r: usize)
        requires
            self.wf(),
        ensures
            r == self@.dom().len(),
    {
        proof {
            self.lemma_dom_len();
        }
        self.entries.len()
    }

    pub proof fn lemma_dom_len(&self)
        requires
            self.wf(),
        ensures
            self@.dom().finite(),
            self@.dom().len() == self.entry_seq().len(),
    {
        lemma_dom_len_seq(self.entries@);
    }

    fn find(&self, key: u64) -> (r: Option<usize>)
        requires
            self.wf(),
        ensures
            match r {
                Some(i) => i < self.entries@.len() && self.entries@[i as int].0 == key,
                None => forall|i: int| 0 <= i < self.entries@.len() ==> self.entries@[i].0 != key,
            },
    {
        let mut i: usize = 0;
        while i < self.entries.len()
            invariant
                0 <= i <= self.entries@.len(),
                forall|j: int| 0 <= j < i ==> self.entries@[j].0 != key,
            decreases self.entries@.len() - i,
        {
            if self.entries[i].0 == key {
                return Some(i);
            }
            i += 1;
        }
        None
    }

    /// The count recorded for `key`, if the key is present.
    pub fn get(&self, key: u64) -> (r: Option<u64>)
        requires
            self.wf(),
        ensures
            r is Some <==> self@.contains_key(key),
            r matches Some(c) ==> self@[key] == c as nat,
    {
        proof {
            lemma_entries_map_index(self.entries@, key);
        }
        match self.find(key) {
            Some(i) => Some(self.entries[i].1),
            None => None,
        }
    }

    /// Adds `c` occurrences of `key`.
    pub fn add(&mut self, key: u64, c: u64)
        requires
            old(self).wf(),
            count_of(old(self)@, key) + c <= u64::MAX,
        ensures
            final(self).wf(),
            final(self)@ == add_count(old(self)@, key, c as nat),
    {
        proof {
            lemma_entries_map_index(self.entries@, key);
        }
        match self.find(key) {
            Some(i) => {
                let cur = self.entries[i].1;
                proof {
                    lemma_entries_map_update(self.entries@, i as int, (cur + c) as u64);
                }
                self.entries.set(i, (key, cur + c));
            },
            None => {
                let ghost s = self.entries@;
                self.entries.push((key, c));
                proof {
                    assert(self.entries@.drop_last() == s);
                    assert(keys_distinct(self.entries@)) by {
                        assert forall|a: int, b: int|
                            0 <= a < b < self.entries@.len() implies self.entries@[a].0
                            != self.entries@[b].0 by {
                            if b == s.len() {
                                assert(s[a].0 != key);
                            } else {
                                assert(s[a].0 != s[b].0);
                            }
                        }
                    }
                }
            },
        }
    }

    /// Whether every count is at most `n`.
    pub fn counts_at_most(&self, n: u64) -> (r: bool)
        requires
            self.wf(),
        ensures
            r == counts_bounded(self@, n as int),
    {
        let mut i: usize = 0;
        while i < self.entries.len()
            invariant
                0 <= i <= self.entries@.len(),
                self.wf(),
                forall|j: int| 0 <= j < i ==> self.entries@[j].1 <= n,
            decreases self.entries@.len() - i,
        {
            if self.entries[i].1 > n {
                proof {
                    let k = self.entries@[i as int].0;
                    lemma_entries_map_index(self.entries@, k);
                    assert(self@.contains_key(k) && self@[k] > n);
                }
                return false;
            }
            i += 1;
        }
        proof {
            assert forall|k: u64| self@.contains_key(k) implies #[trigger] self@[k] <= n by {
                lemma_entries_map_index(self.entries@, k);
            }
        }
        true
    }

    /// Adds every count of `other` to this histogram.
    pub fn merge_from(&mut self, other: &Histogram)
        requires
            old(self).wf(),
            other.wf(),
            forall|k: u64| #[trigger]
                other@.contains_key(k) ==> count_of(old(self)@, k) + other@[k] <= u64::MAX,
        ensures
            final(self).wf(),
            final(self)@ == sum_maps(old(self)@, other@),
    {
        let ghost start = self@;
        let mut i: usize = 0;
        while i < other.entries.len()
            invariant
                0 <= i <= other.entries@.len(),
                other.wf(),
                self.wf(),
                forall|k: u64| #[trigger]
                    other@.contains_key(k) ==> count_of(start, k) + other@[k] <= u64::MAX,
                self@ == sum_maps(start, entries_map(other.entries@.subrange(0, i as int))),
            decreases other.entries@.len() - i,
        {
            let (k, c) = other.entries[i];
            let ghost pre = other.entries@.subrange(0, i as int);
            let ghost post = other.entries@.subrange(0, i + 1);
            proof {
                assert(post.drop_last() == pre);
                lemma_entries_map_index(other.entries@, k);
                assert(keys_distinct(pre));
                lemma_entries_map_index(pre, k);
                assert(!entries_map(pre).contains_key(k)) by {
                    if entries_map(pre).contains_key(k) {
                        let j = choose|j: int| 0 <= j < pre.len() && pre[j].0 == k;
                        assert(other.entries@[j].0 == other.entries@[i as int].0);
                    }
                }
                assert(other@[k] == c as nat);
            }
            self.add(k, c);
            proof {
                assert(self@ =~= sum_maps(start, entries_map(post)));
            }
            i += 1;
        }
        assert(other.entries@.subrange(0, other.entries@.len() as int) == other.entries@);
    }
}

pub proof fn lemma_dom_len_seq(s: Seq<(u64, u64)>)
    requires
        keys_distinct(s),
    ensures
        entries_map(s).dom().finite(),
        entries_map(s).dom().len() == s.len(),
    decreases s.len(),
{
    if s.len() > 0 {
        let t = s.drop_last();
        assert(keys_distinct(t));
        lemma_dom_len_seq(t);
        lemma_entries_map_index(t, s.last().0);
        assert(!entries_map(t).contains_key(s.last().0)) by {
            if entries_map(t).contains_key(s.last().0) {
                let j = choose|j: int| 0 <= j < t.len() && t[j].0 == s.last().0;
                assert(s[j].0 == s[s.len() - 1].0);
            }
        }
    }
}

} // verus!
