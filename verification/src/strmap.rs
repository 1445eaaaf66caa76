use vstd::prelude::*;

use crate::models::ErrorView;
use crate::text::{lemma_str_lt_asymmetric, lemma_str_lt_irreflexive, lemma_str_lt_total, lemma_str_lt_transitive, str_eq, str_less, str_lt};

verus! {

broadcast use vstd::seq::group_seq_axioms;

/// Keys strictly increasing in code-point order: sorted, and no key twice.
pub open spec fn sorted_keys(ks: Seq<Seq<char>>) -> bool {
    forall|i: int, j: int| 0 <= i < j < ks.len() ==> str_lt(#[trigger] ks[i], #[trigger] ks[j])
}

/// The position of `k` in `ks`, when it occurs.
pub open spec fn key_index(ks: Seq<Seq<char>>, k: Seq<char>) -> int {
    choose|i: int| 0 <= i < ks.len() && ks[i] == k
}

/// A map from strings to values that keeps its keys sorted, as a
/// `BTreeMap<String, V>` does: walking it by index visits the keys in
/// increasing order.
pub struct StrMap<V> {
    entries: Vec<(String, V)>,
}

/// Two sequences of keys, each strictly increasing, that hold the same keys
/// are the same sequence.
pub proof fn lemma_sorted_keys_unique(a: Seq<Seq<char>>, b: Seq<Seq<char>>)
    requires
        sorted_keys(a),
        sorted_keys(b),
        forall|k: Seq<char>| a.contains(k) <==> b.contains(k),
    ensures
        a == b,
    decreases a.len(),
{
    if a.len() == 0 {
        if b.len() > 0 {
            assert(b.contains(b[0]));
        }
        assert(a =~= b);
    } else {
        assert(a.contains(a[0]));
        let j = choose|j: int| 0 <= j < b.len() && b[j] == a[0];
        assert(b.contains(b[0]));
        let i = choose|i: int| 0 <= i < a.len() && a[i] == b[0];
        if a[0] != b[0] {
            assert(j > 0 && i > 0);
            assert(str_lt(b[0], b[j]));
            assert(str_lt(a[0], a[i]));
            lemma_str_lt_asymmetric(a[0], b[0]);
        }
        let a1 = a.drop_first();
        let b1 = b.drop_first();
        assert forall|k: Seq<char>| a1.contains(k) <==> b1.contains(k) by {
            if a1.contains(k) {
                let x = choose|x: int| 0 <= x < a1.len() && a1[x] == k;
                assert(a[x + 1] == k);
                assert(str_lt(a[0], a[x + 1]));
                lemma_str_lt_irreflexive(k);
                assert(b.contains(k));
                let y = choose|y: int| 0 <= y < b.len() && b[y] == k;
                assert(y != 0);
                assert(b1[y - 1] == k);
            }
            if b1.contains(k) {
                let x = choose|x: int| 0 <= x < b1.len() && b1[x] == k;
                assert(b[x + 1] == k);
                assert(str_lt(b[0], b[x + 1]));
                lemma_str_lt_irreflexive(k);
                assert(a.contains(k));
                let y = choose|y: int| 0 <= y < a.len() && a[y] == k;
                assert(y != 0);
                assert(a1[y - 1] == k);
            }
        }
        lemma_sorted_keys_unique(a1, b1);
        assert(a.len() == b.len());
        assert forall|x: int| 0 <= x < a.len() implies a[x] == b[x] by {
            if x > 0 {
                assert(a[x] == a1[x - 1]);
                assert(b[x] == b1[x - 1]);
            }
        }
        assert(a =~= b);
    }
}

impl<V> StrMap<V> {
    /// The keys, in the order in which the map holds them.
    pub closed spec fn keys(self) -> Seq<Seq<char>> {
        Seq::new(self.entries@.len(), |i: int| self.entries@[i].0@)
    }

    /// The values, each at the position of its key.
    pub closed spec fn values(self) -> Seq<V> {
        Seq::new(self.entries@.len(), |i: int| self.entries@[i].1)
    }

    #[verifier::type_invariant]
    pub open spec fn well_formed(self) -> bool {
        sorted_keys(self.keys())
    }

    /// The value stored under `k`, meaningful where `k` is a key.
    pub open spec fn value_of(self, k: Seq<char>) -> V {
        self.values()[key_index(self.keys(), k)]
    }

    pub open spec fn has(self, k: Seq<char>) -> bool {
        self.keys().contains(k)
    }

    pub proof fn lemma_lengths(self)
        ensures
            self.keys().len() == self.values().len(),
    {
    }

    /// In a well-formed map a key's position is the one at which it stands.
    pub proof fn lemma_key_index(self, i: int)
        requires
            self.well_formed(),
            0 <= i < self.keys().len(),
        ensures
            key_index(self.keys(), self.keys()[i]) == i,
            self.value_of(self.keys()[i]) == self.values()[i],
            self.has(self.keys()[i]),
    {
        let ks = self.keys();
        let j = key_index(ks, ks[i]);
        assert(0 <= j < ks.len() && ks[j] == ks[i]);
        if j < i {
            lemma_str_lt_irreflexive(ks[i]);
        }
        if j > i {
            lemma_str_lt_irreflexive(ks[i]);
        }
    }

    pub proof fn lemma_has(self, k: Seq<char>)
        requires
            self.has(k),
        ensures
            0 <= key_index(self.keys(), k) < self.keys().len(),
            self.keys()[key_index(self.keys(), k)] == k,
    {
    }

    pub fn new() -> (m: Self)
        ensures
            m.keys() == Seq::<Seq<char>>::empty(),
            m.values() == Seq::<V>::empty(),
    {
        let m = StrMap { entries: Vec::new() };
        assert(m.keys() =~= Seq::<Seq<char>>::empty());
        assert(m.values() =~= Seq::<V>::empty());
        m
    }

    pub fn len(&self) -> (n: usize)
        ensures
            n == self.keys().len(),
    {
        self.entries.len()
    }

    pub fn key_at(&self, i: usize) -> (k: &String)
        requires
            i < self.keys().len(),
        ensures
            k@ == self.keys()[i as int],
    {
        &self.entries[i].0
    }

    pub fn value_at(&self, i: usize) -> (v: &V)
        requires
            i < self.keys().len(),
        ensures
            *v == self.values()[i as int],
    {
        &self.entries[i].1
    }

    /// The position of `k`, if it is a key.
    pub fn find(&self, k: &str) -> (r: Option<usize>)
        ensures
            r matches Some(i) ==> i < self.keys().len() && self.keys()[i as int] == k@,
            r is None <==> !self.has(k@),
    {
        let mut i: usize = 0;
        while i < self.entries.len()
            invariant
                i <= self.entries@.len(),
                forall|j: int| 0 <= j < i ==> self.keys()[j] != k@,
            decreases self.entries@.len() - i,
        {
            if str_eq(self.entries[i].0.as_str(), k) {
                assert(self.keys()[i as int] == k@);
                return Some(i);
            }
            i = i + 1;
        }
        None
    }

    pub fn contains_key(&self, k: &str) -> (r: bool)
        ensures
            r == self.has(k@),
    {
        self.find(k).is_some()
    }

    /// The value stored under `k`.
    pub fn get(&self, k: &str) -> (r: Option<&V>)
        ensures
            r is Some <==> self.has(k@),
            r matches Some(v) ==> *v == self.value_of(k@),
    {
        proof {
            use_type_invariant(self);
        }
        match self.find(k) {
            Some(i) => {
                proof {
                    self.lemma_key_index(i as int);
                }
                Some(&self.entries[i].1)
            },
            None => None,
        }
    }

    /// The value stored under `k`, which is a key.
    pub fn get_present(&self, k: &str) -> (v: &V)
        requires
            self.has(k@),
        ensures
            *v == self.value_of(k@),
    {
        proof {
            use_type_invariant(self);
        }
        let i = self.find(k).unwrap();
        proof {
            self.lemma_key_index(i as int);
        }
        &self.entries[i].1
    }

    /// Stores `v` under `k`; a value already stored under `k` is replaced,
    /// as `BTreeMap::insert` does.
    pub fn insert(&mut self, k: String, v: V)
        ensures
            final(self).has(k@),
            final(self).value_of(k@) == v,
            forall|x: Seq<char>| #[trigger] final(self).has(x) <==> (old(self).has(x) || x == k@),
            forall|x: Seq<char>|
                old(self).has(x) && x != k@ ==> #[trigger] final(self).value_of(x) == old(
                    self,
                ).value_of(x),
            old(self).has(k@) ==> final(self).keys().len() == old(self).keys().len(),
            !old(self).has(k@) ==> final(self).keys().len() == old(self).keys().len() + 1,
    {
        proof {
            use_type_invariant(&*self);
        }
        let ghost ks = self.keys();
        let n = self.entries.len();
        let mut i: usize = 0;
        while i < n && str_less(self.entries[i].0.as_str(), k.as_str())
            invariant
                n == self.entries@.len(),
                ks == self.keys(),
                sorted_keys(ks),
                i <= n,
                forall|j: int| 0 <= j < i ==> str_lt(#[trigger] ks[j], k@),
            decreases n - i,
        {
            i = i + 1;
        }
        let ghost old_self = *self;
        proof {
            if i < n && ks[i as int] == k@ {
                assert(old_self.has(k@));
            }
            if old_self.has(k@) {
                let j = choose|j: int| 0 <= j < ks.len() && ks[j] == k@;
                if j < i {
                    lemma_str_lt_irreflexive(k@);
                } else if j > i {
                    if i < n {
                        lemma_str_lt_total(ks[i as int], k@);
                        if str_lt(k@, ks[i as int]) {
                            lemma_str_lt_transitive(k@, ks[i as int], ks[j]);
                            lemma_str_lt_irreflexive(k@);
                        }
                    }
                }
            }
        }
        if i < n && str_eq(self.entries[i].0.as_str(), k.as_str()) {
            let mut e: Vec<(String, V)> = Vec::new();
            std::mem::swap(&mut e, &mut self.entries);
            e.set(i, (k, v));
            proof {
                assert(Seq::new(e@.len(), |j: int| e@[j].0@) =~= ks);
            }
            self.entries = e;
            proof {
                assert(self.keys() =~= ks);
                assert forall|x: Seq<char>| #[trigger] self.has(x) <==> (old_self.has(x) || x == k@) by {
                    if old_self.has(x) {
                        let j = choose|j: int| 0 <= j < ks.len() && ks[j] == x;
                        assert(self.keys()[j] == x);
                    }
                    if self.has(x) {
                        let j = choose|j: int| 0 <= j < ks.len() && self.keys()[j] == x;
                        assert(ks[j] == x);
                    }
                    if x == k@ {
                        assert(self.keys()[i as int] == x);
                    }
                }
                self.lemma_key_index(i as int);
                assert forall|x: Seq<char>| old_self.has(x) && x != k@ implies #[trigger] self.value_of(x)
                    == old_self.value_of(x) by {
                    let j = key_index(ks, x);
                    old_self.lemma_has(x);
                    self.lemma_key_index(j);
                    old_self.lemma_key_index(j);
                    assert(j != i);
                }
            }
        } else {
            proof {
                if i < n {
                    lemma_str_lt_total(ks[i as int], k@);
                }
            }
            let mut e: Vec<(String, V)> = Vec::new();
            std::mem::swap(&mut e, &mut self.entries);
            e.insert(i, (k, v));
            proof {
                let nk = Seq::new(e@.len(), |j: int| e@[j].0@);
                assert(nk =~= ks.insert(i as int, k@));
                assert forall|a: int, b: int| 0 <= a < b < nk.len() implies str_lt(
                    #[trigger] nk[a],
                    #[trigger] nk[b],
                ) by {
                    if b < i {
                    } else if a < i && b == i {
                    } else if a < i && b > i {
                        if i < n {
                            lemma_str_lt_transitive(ks[a], k@, ks[i as int]);
                            if b - 1 > i {
                                lemma_str_lt_transitive(ks[a], ks[i as int], ks[b - 1]);
                            }
                        }
                    } else if a == i {
                        if b - 1 > i {
                            lemma_str_lt_transitive(k@, ks[i as int], ks[b - 1]);
                        }
                    } else {
                    }
                }
            }
            self.entries = e;
            proof {
                let nk = self.keys();
                assert(nk =~= ks.insert(i as int, k@));
                assert forall|x: Seq<char>| #[trigger] self.has(x) <==> (old_self.has(x) || x == k@) by {
                    if old_self.has(x) {
                        let j = choose|j: int| 0 <= j < ks.len() && ks[j] == x;
                        if j < i {
                            assert(nk[j] == x);
                        } else {
                            assert(nk[j + 1] == x);
                        }
                    }
                    if self.has(x) {
                        let j = choose|j: int| 0 <= j < nk.len() && nk[j] == x;
                        if j < i {
                            assert(ks[j] == x);
                        } else if j > i {
                            assert(ks[j - 1] == x);
                        }
                    }
                    if x == k@ {
                        assert(nk[i as int] == x);
                    }
                }
                self.lemma_key_index(i as int);
                assert forall|x: Seq<char>| old_self.has(x) && x != k@ implies #[trigger] self.value_of(x)
                    == old_self.value_of(x) by {
                    let j = key_index(ks, x);
                    old_self.lemma_has(x);
                    old_self.lemma_key_index(j);
                    if j < i {
                        self.lemma_key_index(j);
                    } else {
                        self.lemma_key_index(j + 1);
                    }
                }
            }
        }
    }

    /// Sorted keys hold no key twice.
    pub proof fn lemma_no_duplicates(self)
        requires
            self.well_formed(),
        ensures
            self.keys().no_duplicates(),
            self.keys().to_set().len() == self.keys().len(),
            self.keys().to_set().finite(),
    {
        let ks = self.keys();
        assert forall|i: int, j: int| 0 <= i < ks.len() && 0 <= j < ks.len() && i != j implies ks[i]
            != ks[j] by {
            if ks[i] == ks[j] {
                lemma_str_lt_irreflexive(ks[i]);
            }
        }
        ks.unique_seq_to_set();
    }

    /// A map whose keys are all keys of `other` has at most as many keys,
    /// and fewer when `other` has a key it lacks.
    pub proof fn lemma_key_count<W>(self, other: StrMap<W>, extra: Seq<char>)
        requires
            self.well_formed(),
            other.well_formed(),
            forall|k: Seq<char>| #[trigger] self.has(k) ==> other.has(k),
        ensures
            self.keys().len() <= other.keys().len(),
            other.has(extra) && !self.has(extra) ==> self.keys().len() < other.keys().len(),
    {
        self.lemma_no_duplicates();
        other.lemma_no_duplicates();
        let a = self.keys().to_set();
        let b = other.keys().to_set();
        assert(a.subset_of(b)) by {
            assert forall|k: Seq<char>| a.contains(k) implies b.contains(k) by {
                assert(self.has(k));
            }
        }
        vstd::set_lib::lemma_len_subset(a, b);
        if other.has(extra) && !self.has(extra) {
            assert(a.insert(extra).subset_of(b));
            assert(!a.contains(extra));
            vstd::set_lib::lemma_len_subset(a.insert(extra), b);
        }
    }

    /// The keys, in increasing order.
    pub fn keys_vec(&self) -> (r: Vec<String>)
        ensures
            r@.len() == self.keys().len(),
            forall|i: int| 0 <= i < r@.len() ==> (#[trigger] r@[i])@ == self.keys()[i],
    {
        let mut r: Vec<String> = Vec::new();
        let mut i: usize = 0;
        while i < self.entries.len()
            invariant
                i <= self.entries@.len(),
                r@.len() == i,
                forall|j: int| 0 <= j < i ==> (#[trigger] r@[j])@ == self.keys()[j],
            decreases self.entries@.len() - i,
        {
            r.push(self.entries[i].0.clone());
            i = i + 1;
        }
        r
    }
}


// ── Building a map step by step ─────────────────────────────────────
//
// Several operations walk a list and, at each step, either stop with an
// error, do nothing, or store a value under a key. Their outcome is the
// first error, or else the map in which each key holds the value of the
// last step that stored under it.

/// The first error among the steps.
pub open spec fn first_error<T>(steps: Seq<Result<Option<(Seq<char>, T)>, ErrorView>>) -> Option<
    ErrorView,
>
    decreases steps.len(),
{
    if steps.len() == 0 {
        None
    } else {
        match first_error(steps.drop_last()) {
            Some(e) => Some(e),
            None => match steps.last() {
                Err(e) => Some(e),
                _ => None,
            },
        }
    }
}

/// The workspace that the last step naming `k` gives.
pub open spec fn last_found<T>(
    steps: Seq<Result<Option<(Seq<char>, T)>, ErrorView>>,
    k: Seq<char>,
) -> Option<T>
    decreases steps.len(),
{
    if steps.len() == 0 {
        None
    } else {
        match steps.last() {
            Ok(Some((n, w))) => if n == k {
                Some(w)
            } else {
                last_found(steps.drop_last(), k)
            },
            _ => last_found(steps.drop_last(), k),
        }
    }
}

/// An error among the first steps is the first error of every longer run
/// of steps.
pub proof fn lemma_first_error_prefix<T>(
    all: Seq<Result<Option<(Seq<char>, T)>, ErrorView>>,
    pre: Seq<Result<Option<(Seq<char>, T)>, ErrorView>>,
)
    requires
        pre.len() <= all.len(),
        all.subrange(0, pre.len() as int) == pre,
        first_error(pre) is Some,
    ensures
        first_error(all) == first_error(pre),
    decreases all.len(),
{
    if all.len() > pre.len() {
        assert(all.drop_last().subrange(0, pre.len() as int) =~= pre);
        lemma_first_error_prefix(all.drop_last(), pre);
    } else {
        assert(all =~= pre);
    }
}

} // verus!
