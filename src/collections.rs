use vstd::prelude::*;

verus! {

/// The character sequences of a sequence of strings.
pub open spec fn str_views(v: Seq<String>) -> Seq<Seq<char>> {
    v.map_values(|s: String| s@)
}

/// Removing one position of a sequence without repeats keeps it without
/// repeats and drops exactly that element from its set.
pub proof fn lemma_remove_unique(s: Seq<Seq<char>>, i: int)
    requires
        s.no_duplicates(),
        0 <= i < s.len(),
    ensures
        s.remove(i).no_duplicates(),
        s.remove(i).to_set() == s.to_set().remove(s[i]),
        s.remove(i).len() == s.len() - 1,
{
    let r = s.remove(i);
    assert forall|j: int| 0 <= j < r.len() implies r[j] == (if j < i { s[j] } else { s[j + 1] }) by {}
    assert forall|a: int, b: int| 0 <= a < r.len() && 0 <= b < r.len() && a != b implies r[a] != r[b] by {
        let sa = if a < i { a } else { a + 1 };
        let sb = if b < i { b } else { b + 1 };
        assert(r[a] == s[sa]);
        assert(r[b] == s[sb]);
    }
    assert forall|y: Seq<char>| r.contains(y) <==> (s.contains(y) && y != s[i]) by {
        if r.contains(y) {
            let j = choose|j: int| 0 <= j < r.len() && r[j] == y;
            let sj = if j < i { j } else { j + 1 };
            assert(s[sj] == y);
        }
        if s.contains(y) && y != s[i] {
            let m = choose|m: int| 0 <= m < s.len() && s[m] == y;
            let rm = if m < i { m } else { m - 1 };
            assert(r[rm] == y);
        }
    }
    assert(r.to_set() =~= s.to_set().remove(s[i]));
}

/// Mapping values commutes with binding a key.
pub proof fn lemma_map_values_insert<K, V, W>(m: Map<K, V>, k: K, v: V, f: spec_fn(V) -> W)
    ensures
        m.insert(k, v).map_values(f) == m.map_values(f).insert(k, f(v)),
{
    assert(m.insert(k, v).map_values(f) =~= m.map_values(f).insert(k, f(v)));
}

/// Mapping values keeps the domain.
pub proof fn lemma_map_values_dom<K, V, W>(m: Map<K, V>, f: spec_fn(V) -> W, k: K)
    ensures
        m.map_values(f).contains_key(k) == m.contains_key(k),
        m.contains_key(k) ==> m.map_values(f)[k] == f(m[k]),
{
}

/// Mapping values commutes with removing a key.
pub proof fn lemma_map_values_remove<K, V, W>(m: Map<K, V>, k: K, f: spec_fn(V) -> W)
    ensures
        m.remove(k).map_values(f) == m.map_values(f).remove(k),
{
    assert(m.remove(k).map_values(f) =~= m.map_values(f).remove(k));
}

/// The first `n` elements of `s`, or all of them where there are fewer.
pub open spec fn first_n<A>(s: Seq<A>, n: int) -> Seq<A> {
    if n < s.len() {
        s.take(n)
    } else {
        s
    }
}

/// Filtering a sequence without repeats leaves one without repeats.
pub proof fn lemma_filter_no_dup<A>(s: Seq<A>, p: spec_fn(A) -> bool)
    requires
        s.no_duplicates(),
    ensures
        s.filter(p).no_duplicates(),
    decreases s.len(),
{
    if s.len() > 0 {
        let s0 = s.drop_last();
        let x = s.last();
        assert(s0.no_duplicates());
        lemma_filter_no_dup(s0, p);
        assert(s =~= s0.push(x));
        s0.lemma_filter_push(x, p);
        if p(x) {
            if s0.filter(p).contains(x) {
                s0.lemma_filter_contains_rev(p, x);
                let i = choose|i: int| 0 <= i < s0.len() && s0[i] == x;
                assert(s[i] == s[s.len() - 1]);
            }
        }
    }
}

/// When a prefix of `s` already holds `k` elements that pass `p`, those are
/// the first `k` elements of `s` that pass `p`.
pub proof fn lemma_filter_take_prefix<A>(s: Seq<A>, p: spec_fn(A) -> bool, i: int)
    requires
        0 <= i <= s.len(),
    ensures
        s.take(i).filter(p).len() <= s.filter(p).len(),
        s.filter(p).take(s.take(i).filter(p).len() as int) == s.take(i).filter(p),
{
    assert(s == s.take(i) + s.skip(i));
    Seq::filter_distributes_over_add(s.take(i), s.skip(i), p);
    let a = s.take(i).filter(p);
    assert((a + s.skip(i).filter(p)).take(a.len() as int) =~= a);
}

/// An ordered set of identifiers: insertion order is kept and no identifier
/// occurs twice.
pub struct IdList {
    items: Vec<String>,
}

impl View for IdList {
    type V = Seq<Seq<char>>;

    closed spec fn view(&self) -> Seq<Seq<char>> {
        str_views(self.items@)
    }
}

impl IdList {
    /// No identifier occurs twice.
    pub open spec fn wf(&self) -> bool {
        self@.no_duplicates()
    }

    /// The identifiers held, as a set.
    pub open spec fn set(&self) -> Set<Seq<char>> {
        self@.to_set()
    }

    /// Without repeats, the set has as many elements as the sequence.
    pub proof fn lemma_len(&self)
        requires
            self.wf(),
        ensures
            self.set().finite(),
            self.set().len() == self@.len(),
    {
        self@.unique_seq_to_set();
    }

    pub fn new() -> (r: Self)
        ensures
            r.wf(),
            r@ == Seq::<Seq<char>>::empty(),
    {
        let r = IdList { items: Vec::new() };
        assert(r@ =~= Seq::<Seq<char>>::empty());
        r
    }

    pub fn len(&self) -> (r: usize)
        ensures
            r == self@.len(),
    {
        self.items.len()
    }

    pub fn get(&self, i: usize) -> (r: &String)
        requires
            i < self@.len(),
        ensures
            r@ == self@[i as int],
    {
        &self.items[i]
    }

    pub fn contains(&self, x: &String) -> (r: bool)
        ensures
            r == self@.contains(x@),
    {
        let mut i: usize = 0;
        while i < self.items.len()
            invariant
                i <= self.items.len(),
                forall|j: int| 0 <= j < i ==> self@[j] != x@,
            decreases self.items.len() - i,
        {
            if self.items[i] == *x {
                assert(self@[i as int] == x@);
                return true;
            }
            i += 1;
        }
        false
    }

    /// Adds `x` at the end unless it is already held.
    pub fn insert(&mut self, x: String) -> (added: bool)
        requires
            old(self).wf(),
        ensures
            final(self).wf(),
            added == !old(self)@.contains(x@),
            final(self)@ == (if added { old(self)@.push(x@) } else { old(self)@ }),
            final(self).set() == old(self).set().insert(x@),
    {
        if self.contains(&x) {
            assert(self.set() =~= self.set().insert(x@));
            false
        } else {
            let ghost xv = x@;
            self.items.push(x);
            assert(self@ =~= old(self)@.push(xv));
            assert forall|y: Seq<char>| #[trigger] self@.contains(y) <==> (old(self)@.contains(y) || y == xv) by {
                if self@.contains(y) {
                    let j = choose|j: int| 0 <= j < self@.len() && self@[j] == y;
                    if j < old(self)@.len() {
                        assert(old(self)@[j] == y);
                    }
                }
                if old(self)@.contains(y) {
                    let j = choose|j: int| 0 <= j < old(self)@.len() && old(self)@[j] == y;
                    assert(self@[j] == y);
                }
                if y == xv {
                    assert(self@[old(self)@.len() as int] == y);
                }
            }
            assert(self.set() =~= old(self).set().insert(xv));
            true
        }
    }

    /// Removes `x` if it is held; the others keep their order.
    pub fn remove(&mut self, x: &String) -> (removed: bool)
        requires
            old(self).wf(),
        ensures
            final(self).wf(),
            removed == old(self)@.contains(x@),
            final(self).set() == old(self).set().remove(x@),
            final(self)@.len() == (if removed { old(self)@.len() - 1 } else { old(self)@.len() as int }),
    {
        let mut i: usize = 0;
        while i < self.items.len()
            invariant
                i <= self.items.len(),
                self == old(self),
                self.wf(),
                forall|j: int| 0 <= j < i ==> self@[j] != x@,
            decreases self.items.len() - i,
        {
            if self.items[i] == *x {
                proof {
                    lemma_remove_unique(self@, i as int);
                }
                self.items.remove(i);
                assert(self@ =~= old(self)@.remove(i as int));
                return true;
            }
            i += 1;
        }
        assert(self.set() =~= old(self).set().remove(x@));
        false
    }

    /// Removes the identifier at position `i`; the others keep their order.
    pub fn remove_at(&mut self, i: usize)
        requires
            old(self).wf(),
            i < old(self)@.len(),
        ensures
            final(self).wf(),
            final(self)@ == old(self)@.remove(i as int),
            final(self).set() == old(self).set().remove(old(self)@[i as int]),
    {
        proof {
            lemma_remove_unique(self@, i as int);
        }
        self.items.remove(i);
        assert(self@ =~= old(self)@.remove(i as int));
    }

    /// The identifiers of `v`, which holds none twice, in order.
    pub fn from_unique(v: Vec<String>) -> (r: Self)
        requires
            str_views(v@).no_duplicates(),
        ensures
            r.wf(),
            r@ == str_views(v@),
    {
        let r = IdList { items: v };
        r
    }

    pub fn clear(&mut self)
        ensures
            final(self).wf(),
            final(self)@ == Seq::<Seq<char>>::empty(),
    {
        self.items.clear();
        assert(self@ =~= Seq::<Seq<char>>::empty());
    }

    /// A copy of the identifiers as plain strings, in order.
    pub fn to_vec(&self) -> (r: Vec<String>)
        ensures
            str_views(r@) == self@,
    {
        copy_strs(&self.items)
    }
}

/// A copy of a vector of strings.
pub fn copy_strs(v: &Vec<String>) -> (r: Vec<String>)
    ensures
        str_views(r@) == str_views(v@),
{
    let mut r: Vec<String> = Vec::new();
    let mut i: usize = 0;
    while i < v.len()
        invariant
            i <= v.len(),
            r@.len() == i,
            str_views(r@) == str_views(v@).take(i as int),
        decreases v.len() - i,
    {
        let ghost before = r@;
        let c = v[i].clone();
        r.push(c);
        assert forall|j: int| 0 <= j < i + 1 implies #[trigger] str_views(r@)[j] == str_views(v@).take(i + 1)[j] by {
            if j < i {
                assert(r@[j] == before[j]);
                assert(str_views(before)[j] == str_views(v@).take(i as int)[j]);
            } else {
                assert(r@[j] == c);
            }
        }
        assert(str_views(r@) =~= str_views(v@).take(i + 1));
        i += 1;
    }
    assert(str_views(v@).take(i as int) =~= str_views(v@));
    r
}

/// A map from identifiers to values, kept as parallel vectors; keys are
/// unique and keep their insertion order.
pub struct StrMap<V> {
    keys: IdList,
    vals: Vec<V>,
}

impl<V> View for StrMap<V> {
    type V = Map<Seq<char>, V>;

    closed spec fn view(&self) -> Map<Seq<char>, V> {
        Map::new(
            |k: Seq<char>| self.keys@.contains(k),
            |k: Seq<char>| self.vals@[self.keys@.index_of(k)],
        )
    }
}

impl<V> StrMap<V> {
    /// The keys are unique and there is one value per key.
    pub closed spec fn wf(&self) -> bool {
        &&& self.keys.wf()
        &&& self.keys@.len() == self.vals@.len()
    }

    /// The keys in insertion order.
    pub closed spec fn key_seq(&self) -> Seq<Seq<char>> {
        self.keys@
    }

    /// The keys are exactly the domain, each once.
    pub proof fn lemma_keys(&self)
        requires
            self.wf(),
        ensures
            self.key_seq().no_duplicates(),
            forall|k: Seq<char>| #[trigger] self@.contains_key(k) <==> self.key_seq().contains(k),
            self@.dom() == self.key_seq().to_set(),
            self@.dom().finite(),
            self@.len() == self.key_seq().len(),
    {
        assert(self@.dom() =~= self.key_seq().to_set());
        self.key_seq().unique_seq_to_set();
    }

    proof fn lemma_index(&self, i: int)
        requires
            self.wf(),
            0 <= i < self.keys@.len(),
        ensures
            self.keys@.index_of(self.keys@[i]) == i,
            self@.contains_key(self.keys@[i]),
            self@[self.keys@[i]] == self.vals@[i],
    {
        let k = self.keys@[i];
        assert(self.keys@.contains(k));
        let j = self.keys@.index_of(k);
        assert(self.keys@[j] == k);
    }

    pub fn new() -> (r: Self)
        ensures
            r.wf(),
            r@ == Map::<Seq<char>, V>::empty(),
            r.key_seq() == Seq::<Seq<char>>::empty(),
    {
        let r = StrMap { keys: IdList::new(), vals: Vec::new() };
        assert(r@ =~= Map::<Seq<char>, V>::empty());
        r
    }

    pub fn len(&self) -> (r: usize)
        requires
            self.wf(),
        ensures
            r == self.key_seq().len(),
    {
        self.vals.len()
    }

    pub fn key_at(&self, i: usize) -> (r: &String)
        requires
            self.wf(),
            i < self.key_seq().len(),
        ensures
            r@ == self.key_seq()[i as int],
            self@.contains_key(r@),
    {
        proof {
            self.lemma_index(i as int);
        }
        self.keys.get(i)
    }

    pub fn val_at(&self, i: usize) -> (r: &V)
        requires
            self.wf(),
            i < self.key_seq().len(),
        ensures
            *r == self@[self.key_seq()[i as int]],
    {
        proof {
            self.lemma_index(i as int);
        }
        &self.vals[i]
    }

    /// The position of `k` among the keys.
    pub fn find(&self, k: &String) -> (r: Option<usize>)
        requires
            self.wf(),
        ensures
            r.is_some() == self@.contains_key(k@),
            r.is_some() ==> r.unwrap() < self.key_seq().len() && self.key_seq()[r.unwrap() as int] == k@,
    {
        let mut i: usize = 0;
        while i < self.vals.len()
            invariant
                self.wf(),
                i <= self.vals.len(),
                forall|j: int| 0 <= j < i ==> self.keys@[j] != k@,
            decreases self.vals.len() - i,
        {
            if *self.keys.get(i) == *k {
                proof {
                    self.lemma_index(i as int);
                }
                return Some(i);
            }
            i += 1;
        }
        None
    }

    pub fn contains_key(&self, k: &String) -> (r: bool)
        requires
            self.wf(),
        ensures
            r == self@.contains_key(k@),
    {
        self.find(k).is_some()
    }

    pub fn get(&self, k: &String) -> (r: Option<&V>)
        requires
            self.wf(),
        ensures
            r.is_some() == self@.contains_key(k@),
            r.is_some() ==> *r.unwrap() == self@[k@],
    {
        match self.find(k) {
            Some(i) => Some(self.val_at(i)),
            None => None,
        }
    }

    /// Binds `k` to `v`; a new key goes last, an existing one keeps its place.
    pub fn insert(&mut self, k: String, v: V)
        requires
            old(self).wf(),
        ensures
            final(self).wf(),
            final(self)@ == old(self)@.insert(k@, v),
            final(self).key_seq() == (if old(self)@.contains_key(k@) {
                old(self).key_seq()
            } else {
                old(self).key_seq().push(k@)
            }),
    {
        let ghost kv = k@;
        match self.find(&k) {
            Some(i) => {
                self.vals.set(i, v);
                proof {
                    assert forall|x: Seq<char>| #[trigger] self@.contains_key(x) implies self@[x] == old(self)@.insert(kv, v)[x] by {
                        let j = self.keys@.index_of(x);
                        assert(self.keys@[j] == x);
                        old(self).lemma_index(j);
                        if x == kv {
                            old(self).lemma_index(i as int);
                        }
                    }
                    assert(self@ =~= old(self)@.insert(kv, v));
                }
            },
            None => {
                self.keys.insert(k);
                self.vals.push(v);
                proof {
                    let n = old(self).keys@.len() as int;
                    assert(self.keys@[n] == kv);
                    self.lemma_index(n);
                    assert forall|x: Seq<char>| #[trigger] self@.contains_key(x) implies self@[x] == old(self)@.insert(kv, v)[x] by {
                        if x != kv {
                            let j = self.keys@.index_of(x);
                            assert(self.keys@[j] == x);
                            assert(j != n);
                            self.lemma_index(j);
                            old(self).lemma_index(j);
                        }
                    }
                    assert forall|x: Seq<char>| #[trigger] old(self)@.insert(kv, v).contains_key(x) implies self@.contains_key(x) by {
                        if x != kv {
                            assert(old(self)@.contains_key(x));
                            assert(old(self).keys@.contains(x));
                            let j = old(self).keys@.index_of(x);
                            assert(old(self).keys@[j] == x);
                            assert(self.keys@[j] == x);
                        }
                    }
                    assert(self@ =~= old(self)@.insert(kv, v));
                }
            },
        }
    }

    pub fn remove(&mut self, k: &String) -> (r: Option<V>)
        requires
            old(self).wf(),
        ensures
            final(self).wf(),
            final(self)@ == old(self)@.remove(k@),
            r.is_some() == old(self)@.contains_key(k@),
            r.is_some() ==> r.unwrap() == old(self)@[k@],
    {
        match self.find(k) {
            Some(i) => Some(self.remove_at(i)),
            None => {
                assert(self@ =~= old(self)@.remove(k@));
                None
            },
        }
    }

    /// Keeps exactly the entries whose flag in `keep`, by position, is set.
    pub fn retain_mask(&mut self, keep: &Vec<bool>)
        requires
            old(self).wf(),
            keep@.len() == old(self).key_seq().len(),
        ensures
            final(self).wf(),
            forall|i: int|
                0 <= i < keep@.len() ==> (#[trigger] final(self)@.contains_key(old(self).key_seq()[i])
                    <==> keep@[i]),
            forall|k: Seq<char>| #[trigger]
                final(self)@.contains_key(k) ==> old(self)@.contains_key(k) && final(self)@[k]
                    == old(self)@[k],
    {
        proof {
            old(self).lemma_keys();
        }
        let ghost o = *old(self);
        let mut i = self.len();
        while i > 0
            invariant
                self.wf(),
                o.wf(),
                o.key_seq().no_duplicates(),
                i <= keep@.len(),
                keep@.len() == o.key_seq().len(),
                self.key_seq().len() >= i,
                forall|j: int| 0 <= j < i ==> self.key_seq()[j] == o.key_seq()[j],
                forall|j: int|
                    i <= j < keep@.len() ==> (#[trigger] self@.contains_key(o.key_seq()[j])
                        <==> keep@[j]),
                forall|k: Seq<char>| #[trigger]
                    self@.contains_key(k) ==> o@.contains_key(k) && self@[k] == o@[k],
            decreases i,
        {
            i -= 1;
            if !keep[i] {
                let ghost before = *self;
                self.remove_at(i);
                proof {
                    let gone = o.key_seq()[i as int];
                    assert(before.key_seq()[i as int] == gone);
                    assert forall|j: int| 0 <= j < i implies self.key_seq()[j] == o.key_seq()[j] by {
                        assert(self.key_seq()[j] == before.key_seq()[j]);
                    }
                    assert forall|j: int|
                        i <= j < keep@.len() implies (#[trigger] self@.contains_key(o.key_seq()[j])
                            <==> keep@[j]) by {
                        if j > i {
                            assert(o.key_seq()[j] != gone);
                        }
                    }
                }
            } else {
                proof {
                    let ks = self.key_seq();
                    assert(self.key_seq().contains(ks[i as int]));
                    self.lemma_keys();
                }
            }
        }
    }

    /// Puts `v` in place of the value at position `i`, and returns the old one.
    pub fn replace_at(&mut self, i: usize, v: V) -> (r: V)
        requires
            old(self).wf(),
            i < old(self).key_seq().len(),
        ensures
            final(self).wf(),
            final(self).key_seq() == old(self).key_seq(),
            final(self)@ == old(self)@.insert(old(self).key_seq()[i as int], v),
            r == old(self)@[old(self).key_seq()[i as int]],
    {
        proof {
            old(self).lemma_index(i as int);
        }
        let mut v = v;
        let ghost vv = v;
        std::mem::swap(&mut self.vals[i], &mut v);
        proof {
            let k = old(self).keys@[i as int];
            assert forall|x: Seq<char>| #[trigger] self@.contains_key(x) implies self@[x] == old(self)@.insert(k, vv)[x] by {
                let j = self.keys@.index_of(x);
                assert(self.keys@[j] == x);
                old(self).lemma_index(j);
            }
            assert(self@ =~= old(self)@.insert(k, vv));
        }
        v
    }

    /// Removes the entry at position `i`; earlier positions are unchanged.
    fn remove_at(&mut self, i: usize) -> (r: V)
        requires
            old(self).wf(),
            i < old(self).key_seq().len(),
        ensures
            final(self).wf(),
            final(self)@ == old(self)@.remove(old(self).key_seq()[i as int]),
            r == old(self)@[old(self).key_seq()[i as int]],
            final(self).key_seq() == old(self).key_seq().remove(i as int),
            forall|j: int| 0 <= j < i ==> final(self).vals@[j] == old(self).vals@[j],
    {
        let ghost k = self.keys@[i as int];
        proof {
            old(self).lemma_index(i as int);
        }
        self.keys.remove_at(i);
        let r = self.vals.remove(i);
        proof {
            let o = old(self);
            assert forall|x: Seq<char>| #[trigger] self@.contains_key(x) implies
                o@.remove(k).contains_key(x) && self@[x] == o@[x] by {
                let j = self.keys@.index_of(x);
                assert(self.keys@[j] == x);
                self.lemma_index(j);
                let oj = if j < i { j } else { j + 1 };
                assert(o.keys@[oj] == x);
                o.lemma_index(oj);
                assert(oj != i);
            }
            assert forall|x: Seq<char>| #[trigger] o@.remove(k).contains_key(x) implies self@.contains_key(x) by {
                let oj = o.keys@.index_of(x);
                assert(o.keys@[oj] == x);
                assert(oj != i);
                let j = if oj < i { oj } else { oj - 1 };
                assert(self.keys@[j] == x);
            }
            assert(self@ =~= o@.remove(k));
        }
        r
    }
}

} // verus!
