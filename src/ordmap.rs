//! Insertion-ordered maps, the shape of record field tables and of environments.
use vstd::prelude::*;

verus! {

/// A key of an ordered map: two keys are the same exactly when their views agree.
pub trait FieldKey: Sized + View {
    fn same_key(&self, other: &Self) -> (r: bool)
        ensures
            r == (self@ == other@),
    ;

    fn copy_key(&self) -> (r: Self)
        ensures
            r@ == self@,
    ;
}

impl FieldKey for isize {
    fn same_key(&self, other: &Self) -> (r: bool) {
        *self == *other
    }

    fn copy_key(&self) -> (r: Self) {
        *self
    }
}

impl FieldKey for u64 {
    fn same_key(&self, other: &Self) -> (r: bool) {
        *self == *other
    }

    fn copy_key(&self) -> (r: Self) {
        *self
    }
}

impl FieldKey for i32 {
    fn same_key(&self, other: &Self) -> (r: bool) {
        *self == *other
    }

    fn copy_key(&self) -> (r: Self) {
        *self
    }
}

impl FieldKey for i64 {
    fn same_key(&self, other: &Self) -> (r: bool) {
        *self == *other
    }

    fn copy_key(&self) -> (r: Self) {
        *self
    }
}

impl FieldKey for u32 {
    fn same_key(&self, other: &Self) -> (r: bool) {
        *self == *other
    }

    fn copy_key(&self) -> (r: Self) {
        *self
    }
}

impl FieldKey for usize {
    fn same_key(&self, other: &Self) -> (r: bool) {
        *self == *other
    }

    fn copy_key(&self) -> (r: Self) {
        *self
    }
}

/// The views of the keys of a sequence of entries, in order.
pub open spec fn keys_of<K: View, V>(s: Seq<(K, V)>) -> Seq<K::V> {
    s.map_values(|e: (K, V)| e.0@)
}

/// `s` holds an entry for the key `k` whose value is `v`.
pub open spec fn has_entry<K: View, V>(s: Seq<(K, V)>, k: K::V, v: V) -> bool {
    exists|j: int| 0 <= j < s.len() && (#[trigger] s[j]).0@ == k && s[j].1 == v
}

/// `new` is `old` with `k` bound to `v`: in place if `old` had the key, else at the end.
pub open spec fn inserted<K: View, V>(old: Seq<(K, V)>, new: Seq<(K, V)>, k: K::V, v: V) -> bool {
    if keys_of(old).contains(k) {
        exists|j: int|
            0 <= j < old.len() && (#[trigger] old[j]).0@ == k && new.len() == old.len() && new[j].0@
                == k && new[j].1 == v && forall|i: int|
                0 <= i < old.len() && i != j ==> new[i] == old[i]
    } else {
        new.len() == old.len() + 1 && new.last().0@ == k && new.last().1 == v && forall|i: int|
            0 <= i < old.len() ==> new[i] == old[i]
    }
}

/// A map that remembers the order in which its keys were first inserted.
#[derive(Clone)]
pub struct IndexMap<K, V> {
    entries: Vec<(K, V)>,
}

impl<K: View, V> View for IndexMap<K, V> {
    type V = Seq<(K, V)>;

    closed spec fn view(&self) -> Seq<(K, V)> {
        self.entries@
    }
}

impl<K: FieldKey, V> IndexMap<K, V> {
    /// The keys, in insertion order.
    pub open spec fn keys(&self) -> Seq<K::V> {
        keys_of(self@)
    }

    /// No key occurs twice.
    pub open spec fn wf(&self) -> bool {
        self.keys().no_duplicates()
    }

    pub open spec fn contains(&self, k: K::V) -> bool {
        self.keys().contains(k)
    }

    pub fn new() -> (r: Self)
        ensures
            r@ == Seq::<(K, V)>::empty(),
            r.wf(),
    {
        IndexMap { entries: Vec::new() }
    }

    pub fn len(&self) -> (r: usize)
        ensures
            r == self@.len(),
    {
        self.entries.len()
    }

    pub fn is_empty(&self) -> (r: bool)
        ensures
            r == (self@.len() == 0),
    {
        self.entries.len() == 0
    }

    /// The position of the entry for `k`, if there is one.
    pub fn position(&self, k: &K) -> (r: Option<usize>)
        ensures
            r is None ==> !self.contains(k@),
            r matches Some(j) ==> j < self@.len() && self@[j as int].0@ == k@,
    {
        let mut j: usize = 0;
        while j < self.entries.len()
            invariant
                j <= self@.len(),
                self@ == self.entries@,
                forall|i: int| 0 <= i < j ==> self.entries@[i].0@ != k@,
            decreases self.entries.len() - j,
        {
            if self.entries[j].0.same_key(k) {
                return Some(j);
            }
            j = j + 1;
        }
        proof {
            if self.contains(k@) {
                let q = choose|q: int| 0 <= q < self.keys().len() && self.keys()[q] == k@;
                assert(self.entries@[q].0@ == k@);
            }
        }
        None
    }

    /// The entry at position `j`.
    pub fn entry_at(&self, j: usize) -> (r: &(K, V))
        requires
            j < self@.len(),
        ensures
            *r == self@[j as int],
    {
        &self.entries[j]
    }

    pub fn get(&self, k: &K) -> (r: Option<&V>)
        requires
            self.wf(),
        ensures
            r is None <==> !self.contains(k@),
            r matches Some(v) ==> has_entry(self@, k@, *v),
    {
        match self.position(k) {
            Some(j) => {
                proof {
                    assert(self.keys()[j as int] == k@);
                }
                Some(&self.entries[j].1)
            },
            None => None,
        }
    }

    /// Binds `k` to `v`: an existing entry keeps its place and gets the new value, a new key goes
    /// last. Returns the value that was replaced.
    pub fn insert(&mut self, k: K, v: V) -> (r: Option<V>)
        requires
            old(self).wf(),
        ensures
            final(self).wf(),
            inserted(old(self)@, final(self)@, k@, v),
            old(self).contains(k@) ==> exists|j: int|
                0 <= j < old(self)@.len() && old(self)@[j].0@ == k@ && r == Some(old(self)@[j].1)
                    && final(self)@ == old(self)@.update(j, (k, v)),
            !old(self).contains(k@) ==> r is None && final(self)@ == old(self)@.push((k, v)),
    {
        match self.position(&k) {
            Some(j) => {
                proof {
                    assert(old(self).keys()[j as int] == k@);
                }
                self.entries.push((k, v));
                let (_, prev) = self.entries.swap_remove(j);
                proof {
                    assert(self@ =~= old(self)@.update(j as int, (k, v)));
                    assert(self.keys() =~= old(self).keys());
                }
                Some(prev)
            },
            None => {
                self.entries.push((k, v));
                proof {
                    assert(self.keys() =~= old(self).keys().push(k@));
                    lemma_push_no_duplicates(old(self).keys(), k@);
                }
                None
            },
        }
    }

    /// Removes the entry for `k`, keeping the order of the others.
    pub fn remove(&mut self, k: &K) -> (r: Option<V>)
        requires
            old(self).wf(),
        ensures
            final(self).wf(),
            !old(self).contains(k@) ==> r is None && final(self)@ == old(self)@,
            old(self).contains(k@) ==> exists|j: int|
                0 <= j < old(self)@.len() && old(self)@[j].0@ == k@ && r == Some(old(self)@[j].1)
                    && final(self)@ == old(self)@.remove(j),
    {
        match self.position(k) {
            Some(j) => {
                proof {
                    assert(old(self).keys()[j as int] == k@);
                }
                let (_, v) = self.entries.remove(j);
                proof {
                    assert(self.keys() =~= old(self).keys().remove(j as int));
                    assert forall|a: int, b: int|
                        0 <= a < b < self.keys().len() implies self.keys()[a] != self.keys()[b] by {
                        let a2 = if a < j { a } else { a + 1 };
                        let b2 = if b < j { b } else { b + 1 };
                        assert(self.keys()[a] == old(self).keys()[a2]);
                        assert(self.keys()[b] == old(self).keys()[b2]);
                    }
                }
                Some(v)
            },
            None => None,
        }
    }

    /// Copies of the keys, in order.
    pub fn keys_vec(&self) -> (r: Vec<K>)
        ensures
            r@.len() == self@.len(),
            forall|j: int| 0 <= j < self@.len() ==> (#[trigger] r@[j])@ == self@[j].0@,
    {
        let mut out: Vec<K> = Vec::new();
        let mut j: usize = 0;
        while j < self.entries.len()
            invariant
                j <= self@.len(),
                self@ == self.entries@,
                out@.len() == j,
                forall|i: int| 0 <= i < j ==> (#[trigger] out@[i])@ == self@[i].0@,
            decreases self.entries.len() - j,
        {
            out.push(self.entries[j].0.copy_key());
            j = j + 1;
        }
        out
    }

    /// The entries, in order.
    pub fn into_entries(self) -> (r: Vec<(K, V)>)
        ensures
            r@ == self@,
    {
        self.entries
    }

    /// Builds a map from entries whose keys are distinct.
    pub fn from_entries(entries: Vec<(K, V)>) -> (r: Self)
        requires
            keys_of(entries@).no_duplicates(),
        ensures
            r@ == entries@,
            r.wf(),
    {
        IndexMap { entries }
    }
}

impl<K: FieldKey, V: Copy> IndexMap<K, V> {
    /// A map with the same bindings.
    pub fn duplicate(&self) -> (r: Self)
        ensures
            self.wf() ==> r.wf(),
            r.keys() == self.keys(),
            r@.len() == self@.len(),
            forall|j: int| 0 <= j < self@.len() ==> (#[trigger] r@[j]).1 == self@[j].1,
    {
        let mut out: Vec<(K, V)> = Vec::new();
        let mut j: usize = 0;
        while j < self.entries.len()
            invariant
                j <= self@.len(),
                self@ == self.entries@,
                out@.len() == j,
                forall|i: int| 0 <= i < j ==> (#[trigger] out@[i]).0@ == self@[i].0@,
                forall|i: int| 0 <= i < j ==> (#[trigger] out@[i]).1 == self@[i].1,
            decreases self.entries.len() - j,
        {
            let k = self.entries[j].0.copy_key();
            out.push((k, self.entries[j].1));
            j = j + 1;
        }
        proof {
            assert(keys_of(out@) =~= self.keys());
        }
        IndexMap { entries: out }
    }
}

/// The three parts of a pair of maps: keys only in the first, keys in both, keys only in the
/// second.
pub struct SplitResult<K, V1, V2> {
    pub left: IndexMap<K, V1>,
    pub center: IndexMap<K, (V1, V2)>,
    pub right: IndexMap<K, V2>,
}

/// The keys of `a` that `b` also holds (`keep`) or lacks (`!keep`), in `a`'s order.
pub open spec fn keys_filtered<KV>(a: Seq<KV>, b: Seq<KV>, keep: bool) -> Seq<KV> {
    a.filter(membership(b, keep))
}

/// Holds of the keys that `b` holds (`keep`) or lacks (`!keep`).
pub open spec fn membership<KV>(b: Seq<KV>, keep: bool) -> spec_fn(KV) -> bool {
    |k: KV| b.contains(k) == keep
}

proof fn lemma_filtered_step<KV>(a: Seq<KV>, i: int, b: Seq<KV>, keep: bool)
    requires
        0 <= i < a.len(),
    ensures
        keys_filtered(a.take(i + 1), b, keep) == if b.contains(a[i]) == keep {
            keys_filtered(a.take(i), b, keep).push(a[i])
        } else {
            keys_filtered(a.take(i), b, keep)
        },
{
    lemma_take_push(a, i);
    a.take(i).lemma_filter_push(a[i], membership(b, keep));
}

/// What `split` returns, in terms of the two inputs.
pub open spec fn is_split<K: FieldKey, V1, V2>(
    m1: Seq<(K, V1)>,
    m2: Seq<(K, V2)>,
    r: SplitResult<K, V1, V2>,
) -> bool {
    &&& r.left.wf() && r.center.wf() && r.right.wf()
    &&& r.left.keys() == keys_filtered(keys_of(m1), keys_of(m2), false)
    &&& r.center.keys() == keys_filtered(keys_of(m1), keys_of(m2), true)
    &&& r.right.keys() == keys_filtered(keys_of(m2), keys_of(m1), false)
    &&& forall|j: int| 0 <= j < r.left@.len() ==> m1.contains(#[trigger] r.left@[j])
    &&& forall|j: int|
        0 <= j < r.center@.len() ==> m1.contains((#[trigger] r.center@[j].0, r.center@[j].1.0))
            && has_entry(m2, r.center@[j].0@, r.center@[j].1.1)
    &&& forall|j: int| 0 <= j < r.right@.len() ==> m2.contains(#[trigger] r.right@[j])
}

proof fn lemma_take_push<A>(s: Seq<A>, i: int)
    requires
        0 <= i < s.len(),
    ensures
        s.take(i + 1) == s.take(i).push(s[i]),
{
    assert(s.take(i + 1) =~= s.take(i).push(s[i]));
}

pub proof fn lemma_filter_no_duplicates<A>(s: Seq<A>, p: spec_fn(A) -> bool)
    requires
        s.no_duplicates(),
    ensures
        s.filter(p).no_duplicates(),
        forall|x: A| #[trigger] s.filter(p).contains(x) <==> s.contains(x) && p(x),
    decreases s.len(),
{
    broadcast use Seq::lemma_filter_push;

    if s.len() > 0 {
        let init = s.drop_last();
        assert(s == init.push(s.last()));
        assert(init.no_duplicates());
        lemma_filter_no_duplicates(init, p);
        assert(!init.contains(s.last()));
        assert forall|x: A| #[trigger] s.contains(x) <==> init.contains(x) || x == s.last() by {
            if s.contains(x) && x != s.last() {
                let k = choose|k: int| 0 <= k < s.len() && s[k] == x;
                assert(init[k] == x);
            }
            if x == s.last() {
                assert(s[s.len() - 1] == x);
            }
        }
        if p(s.last()) {
            let f = init.filter(p);
            assert(s.filter(p) == f.push(s.last()));
            lemma_push_no_duplicates(f, s.last());
            assert forall|x: A| #[trigger] f.push(s.last()).contains(x) <==> f.contains(x) || x
                == s.last() by {
                if f.push(s.last()).contains(x) && x != s.last() {
                    let k = choose|k: int|
                        0 <= k < f.push(s.last()).len() && f.push(s.last())[k] == x;
                    assert(f[k] == x);
                }
                if f.contains(x) {
                    let k = choose|k: int| 0 <= k < f.len() && f[k] == x;
                    assert(f.push(s.last())[k] == x);
                }
                if x == s.last() {
                    assert(f.push(s.last())[f.len() as int] == x);
                }
            }
        } else {
            assert(s.filter(p) == init.filter(p));
        }
    } else {
        assert(s.filter(p) =~= s) by {
            reveal(Seq::filter);
        }
    }
}

/// Splits `m1` and `m2` into the bindings whose key is only in `m1` (left), those whose key is in
/// both (center, pairing the two values), and those whose key is only in `m2` (right). Each part
/// keeps the order of the map its keys come from.
pub fn split<K: FieldKey, V1, V2>(m1: IndexMap<K, V1>, m2: IndexMap<K, V2>) -> (r: SplitResult<
    K,
    V1,
    V2,
>)
    requires
        m1.wf(),
        m2.wf(),
    ensures
        is_split(m1@, m2@, r),
{
    broadcast use Seq::lemma_filter_push;

    let ghost s1 = m1@;
    let ghost s2 = m2@;
    let ghost k1 = keys_of(s1);
    let ghost k2 = keys_of(s2);
    let mut first = m1.into_entries();
    let mut second = m2.into_entries();
    let n2 = second.len();

    // Every entry of the second map sits in a slot until a key of the first map claims it.
    let mut slots: Vec<Option<(K, V2)>> = Vec::new();
    let mut j: usize = 0;
    while j < n2
        invariant
            n2 == s2.len(),
            j <= n2,
            second@ == s2.subrange(j as int, n2 as int),
            slots@.len() == j,
            forall|t: int| 0 <= t < j ==> slots@[t] == Some(#[trigger] s2[t]),
        decreases n2 - j,
    {
        let e = second.remove(0);
        slots.push(Some(e));
        j = j + 1;
    }

    let n1 = first.len();
    let mut left: Vec<(K, V1)> = Vec::new();
    let mut center: Vec<(K, (V1, V2))> = Vec::new();
    let mut i: usize = 0;
    while i < n1
        invariant
            n1 == s1.len(),
            n2 == s2.len(),
            i <= n1,
            k1 == keys_of(s1),
            k2 == keys_of(s2),
            k1.no_duplicates(),
            k2.no_duplicates(),
            first@ == s1.subrange(i as int, n1 as int),
            slots@.len() == n2,
            forall|t: int|
                0 <= t < n2 ==> (#[trigger] slots@[t]) == if k1.take(i as int).contains(k2[t]) {
                    None
                } else {
                    Some(s2[t])
                },
            keys_of(left@) == keys_filtered(k1.take(i as int), k2, false),
            keys_of(center@) == keys_filtered(k1.take(i as int), k2, true),
            forall|t: int| 0 <= t < left@.len() ==> s1.contains(#[trigger] left@[t]),
            forall|t: int|
                0 <= t < center@.len() ==> s1.contains((#[trigger] center@[t].0, center@[t].1.0))
                    && has_entry(s2, center@[t].0@, center@[t].1.1),
        decreases n1 - i,
    {
        let (k, v) = first.remove(0);
        proof {
            assert(s1[i as int] == (k, v));
            assert(k1[i as int] == k@);
            lemma_filtered_step(k1, i as int, k2, true);
            lemma_filtered_step(k1, i as int, k2, false);
            lemma_take_push(k1, i as int);
            assert(keys_of(left@.push((k, v))) =~= keys_of(left@).push(k@));
            assert(s1.contains((k, v)));
        }
        // Look for the slot of the same key.
        let mut found: Option<usize> = None;
        let mut t: usize = 0;
        while t < n2
            invariant
                t <= n2,
                slots@.len() == n2,
                found matches Some(p) ==> p < n2 && slot_has_key(slots@[p as int], k@),
                found is None ==> forall|q: int|
                    0 <= q < t ==> !slot_has_key(#[trigger] slots@[q], k@),
            decreases n2 - t,
        {
            let hit = match &slots[t] {
                Some(e) => e.0.same_key(&k),
                None => false,
            };
            if hit {
                found = Some(t);
            }
            t = t + 1;
        }
        match found {
            Some(p) => {
                slots.push(None);
                let taken = slots.swap_remove(p);
                match taken {
                    Some((_, v2)) => {
                        proof {
                            assert(k2[p as int] == k@);
                            assert(has_entry(s2, k@, v2)) by {
                                assert(s2[p as int].0@ == k@);
                            }
                            assert(k2.contains(k@));
                            assert(keys_filtered(k1.take(i as int + 1), k2, true)
                                == keys_filtered(k1.take(i as int), k2, true).push(k@));
                            assert(keys_filtered(k1.take(i as int + 1), k2, false)
                                == keys_filtered(k1.take(i as int), k2, false));
                            assert forall|q: int| 0 <= q < n2 implies (#[trigger] slots@[q])
                                == if k1.take(i as int + 1).contains(k2[q]) {
                                None
                            } else {
                                Some(s2[q])
                            } by {
                                assert(k1.take(i as int + 1).contains(k2[q]) <==> k1.take(
                                    i as int,
                                ).contains(k2[q]) || k2[q] == k@) by {
                                    lemma_contains_push(k1.take(i as int), k@, k2[q]);
                                }
                                if q != p {
                                    if k2[q] == k@ {
                                        assert(k2[q] == k2[p as int]);
                                    }
                                }
                            }
                        }
                        proof {
                            assert(keys_of(center@.push((k, (v, v2)))) =~= keys_of(center@).push(
                                k@,
                            ));
                        }
                        center.push((k, (v, v2)));
                    },
                    None => {
                        proof {
                            assert(false);
                        }
                    },
                }
            },
            None => {
                proof {
                    assert(!k2.contains(k@)) by {
                        if k2.contains(k@) {
                            let q = choose|q: int| 0 <= q < k2.len() && k2[q] == k@;
                            if k1.take(i as int).contains(k@) {
                                let a = choose|a: int|
                                    0 <= a < i && k1.take(i as int)[a] == k@;
                                assert(k1[a] == k1[i as int]);
                            }
                            assert(slots@[q] == Some(s2[q]));
                        }
                    }
                    assert(keys_filtered(k1.take(i as int + 1), k2, false)
                        == keys_filtered(k1.take(i as int), k2, false).push(k@));
                    assert(keys_filtered(k1.take(i as int + 1), k2, true)
                        == keys_filtered(k1.take(i as int), k2, true));
                    assert forall|q: int| 0 <= q < n2 implies (#[trigger] slots@[q]) == if k1.take(
                        i as int + 1,
                    ).contains(k2[q]) {
                        None
                    } else {
                        Some(s2[q])
                    } by {
                        lemma_contains_push(k1.take(i as int), k@, k2[q]);
                    }
                }
                left.push((k, v));
            },
        }
        i = i + 1;
    }
    proof {
        assert(k1.take(n1 as int) =~= k1);
    }

    // What no key of the first map claimed is the right part, in its original order.
    let mut right: Vec<(K, V2)> = Vec::new();
    let mut j: usize = 0;
    while j < n2
        invariant
            j <= n2,
            n2 == s2.len(),
            k2 == keys_of(s2),
            slots@.len() == n2,
            forall|t: int|
                j <= t < n2 ==> (#[trigger] slots@[t]) == if k1.contains(k2[t]) {
                    None
                } else {
                    Some(s2[t])
                },
            keys_of(right@) == keys_filtered(k2.take(j as int), k1, false),
            forall|t: int| 0 <= t < right@.len() ==> s2.contains(#[trigger] right@[t]),
        decreases n2 - j,
    {
        slots.push(None);
        let slot = slots.swap_remove(j);
        proof {
            lemma_filtered_step(k2, j as int, k1, false);
            assert(k2[j as int] == s2[j as int].0@);
        }
        match slot {
            Some(e) => {
                proof {
                    assert(keys_of(right@.push(e)) =~= keys_of(right@).push(e.0@));
                    assert(s2.contains(e)) by {
                        assert(s2[j as int] == e);
                    }
                }
                right.push(e);
            },
            None => {},
        }
        j = j + 1;
    }
    proof {
        assert(k2.take(n2 as int) =~= k2);
        lemma_filter_no_duplicates(k1, membership(k2, false));
        lemma_filter_no_duplicates(k1, membership(k2, true));
        lemma_filter_no_duplicates(k2, membership(k1, false));
    }
    SplitResult {
        left: IndexMap::from_entries(left),
        center: IndexMap::from_entries(center),
        right: IndexMap::from_entries(right),
    }
}

spec fn slot_has_key<K: View, V>(slot: Option<(K, V)>, k: K::V) -> bool {
    match slot {
        Some(e) => e.0@ == k,
        None => false,
    }
}

proof fn lemma_push_no_duplicates<A>(s: Seq<A>, x: A)
    requires
        s.no_duplicates(),
        !s.contains(x),
    ensures
        s.push(x).no_duplicates(),
{
    assert forall|a: int, b: int|
        0 <= a < b < s.push(x).len() implies s.push(x)[a] != s.push(x)[b] by {
        if b == s.len() {
            assert(s[a] == s.push(x)[a]);
        }
    }
}

pub proof fn lemma_contains_push<A>(s: Seq<A>, x: A, y: A)
    ensures
        s.push(x).contains(y) <==> s.contains(y) || y == x,
{
    if s.push(x).contains(y) && y != x {
        let k = choose|k: int| 0 <= k < s.push(x).len() && s.push(x)[k] == y;
        assert(s[k] == y);
    }
    if s.contains(y) {
        let k = choose|k: int| 0 <= k < s.len() && s[k] == y;
        assert(s.push(x)[k] == y);
    }
    if y == x {
        assert(s.push(x)[s.len() as int] == y);
    }
}

/// The parts of a split cover the keys of both maps, each key in exactly one part; the center
/// holds the common keys.
pub proof fn law_split_partition<K: FieldKey, V1, V2>(
    m1: Seq<(K, V1)>,
    m2: Seq<(K, V2)>,
    r: SplitResult<K, V1, V2>,
)
    requires
        keys_of(m1).no_duplicates(),
        keys_of(m2).no_duplicates(),
        is_split(m1, m2, r),
    ensures
        r.left.keys().to_set() + r.center.keys().to_set() + r.right.keys().to_set() == keys_of(
            m1,
        ).to_set() + keys_of(m2).to_set(),
        r.left.keys().to_set().disjoint(r.right.keys().to_set()),
        r.left.keys().to_set().disjoint(r.center.keys().to_set()),
        r.center.keys().to_set().disjoint(r.right.keys().to_set()),
        r.center.keys().to_set() == keys_of(m1).to_set().intersect(keys_of(m2).to_set()),
{
    let k1 = keys_of(m1);
    let k2 = keys_of(m2);
    lemma_filter_no_duplicates(k1, membership(k2, false));
    lemma_filter_no_duplicates(k1, membership(k2, true));
    lemma_filter_no_duplicates(k2, membership(k1, false));
    assert(r.left.keys().to_set() + r.center.keys().to_set() + r.right.keys().to_set() =~= k1.to_set()
        + k2.to_set());
    assert(r.center.keys().to_set() =~= k1.to_set().intersect(k2.to_set()));
}

} // verus!
