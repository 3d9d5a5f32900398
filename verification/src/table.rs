//! Maps and sets of paths that are walked in the order of their paths.
use crate::path::{within, RelPath};
use crate::text::{precedes, precedes_irreflexive, precedes_total, precedes_transitive, Order};
use vstd::prelude::*;

verus! {

/// Every string comes before the ones after it.
pub open spec fn ascending(s: Seq<Seq<char>>) -> bool {
    forall|i: int, j: int|
        #![trigger s[i], s[j]]
        0 <= i < j < s.len() ==> precedes(s[i], s[j])
}

/// The members of a finite set of strings, each once, in ascending order.
pub open spec fn in_order(set: Set<Seq<char>>) -> Seq<Seq<char>> {
    choose|s: Seq<Seq<char>>| ascending(s) && s.to_set() == set
}

/// There is only one ascending sequence with given members.
pub proof fn lemma_ascending_is_unique(a: Seq<Seq<char>>, b: Seq<Seq<char>>)
    requires
        ascending(a),
        ascending(b),
        a.to_set() == b.to_set(),
    ensures
        a == b,
    decreases a.len(),
{
    if a.len() == 0 {
        if b.len() > 0 {
            assert(b.to_set().contains(b[0]));
        }
        assert(a =~= b);
    } else if b.len() == 0 {
        assert(a.to_set().contains(a[0]));
    } else {
        let x = a.last();
        let y = b.last();
        assert(x == y) by {
            assert(a.to_set().contains(x));
            assert(b.to_set().contains(y));
            let i = choose|i: int| 0 <= i < b.len() && b[i] == x;
            let j = choose|j: int| 0 <= j < a.len() && a[j] == y;
            if x != y {
                assert(precedes(b[i], b[b.len() - 1]));
                assert(precedes(a[j], a[a.len() - 1]));
                precedes_transitive(x, y, x);
                precedes_irreflexive(x);
            }
        }
        let c = a.drop_last();
        let d = b.drop_last();
        assert(c.to_set() =~= d.to_set()) by {
            assert forall|z: Seq<char>| c.to_set().contains(z) == d.to_set().contains(z) by {
                lemma_front(a, z);
                lemma_front(b, z);
            }
        }
        lemma_ascending_is_unique(c, d);
        assert(a =~= c.push(x));
        assert(b =~= d.push(y));
    }
}

proof fn lemma_front(a: Seq<Seq<char>>, z: Seq<char>)
    requires
        ascending(a),
        a.len() > 0,
    ensures
        a.drop_last().to_set().contains(z) == (a.to_set().contains(z) && z != a.last()),
{
    let c = a.drop_last();
    if c.to_set().contains(z) {
        let i = choose|i: int| 0 <= i < c.len() && c[i] == z;
        assert(a[i] == z);
        assert(precedes(a[i], a[a.len() - 1]));
        precedes_irreflexive(z);
    }
    if a.to_set().contains(z) && z != a.last() {
        let i = choose|i: int| 0 <= i < a.len() && a[i] == z;
        assert(c[i] == z);
    }
}

/// An ascending sequence is the sequence of its members in order.
pub proof fn lemma_in_order(s: Seq<Seq<char>>)
    requires
        ascending(s),
    ensures
        in_order(s.to_set()) == s,
{
    let t = in_order(s.to_set());
    assert(ascending(s) && s.to_set() == s.to_set());
    assert(ascending(t) && t.to_set() == s.to_set());
    lemma_ascending_is_unique(s, t);
}

/// A finite set of strings can be put in order.
pub proof fn lemma_walk_of_finite(set: Set<Seq<char>>)
    requires
        set.finite(),
    ensures
        ascending(in_order(set)),
        in_order(set).to_set() == set,
        in_order(set).len() == set.len(),
{
    lemma_enumerate(set);
    let s = in_order(set);
    lemma_ascending_no_duplicates(s);
    s.unique_seq_to_set();
}

pub proof fn lemma_ascending_no_duplicates(s: Seq<Seq<char>>)
    requires
        ascending(s),
    ensures
        s.no_duplicates(),
{
    assert forall|i: int, j: int| 0 <= i < s.len() && 0 <= j < s.len() && i != j implies s[i]
        != s[j] by {
        precedes_irreflexive(s[i]);
        if i < j {
            assert(precedes(s[i], s[j]));
        } else {
            assert(precedes(s[j], s[i]));
        }
    }
}

proof fn lemma_enumerate(set: Set<Seq<char>>)
    requires
        set.finite(),
    ensures
        exists|s: Seq<Seq<char>>| ascending(s) && s.to_set() == set,
    decreases set.len(),
{
    if set.len() == 0 {
        let s = Seq::<Seq<char>>::empty();
        assert(s.to_set() =~= set);
        assert(ascending(s) && s.to_set() == set);
    } else {
        let k = set.choose();
        lemma_enumerate(set.remove(k));
        let s = choose|s: Seq<Seq<char>>| ascending(s) && s.to_set() == set.remove(k);
        assert(!s.contains(k)) by {
            if s.contains(k) {
                assert(s.to_set().contains(k));
            }
        }
        let i = lemma_place_for(s, k);
        lemma_insert_ascending(s, i, k);
        let t = s.insert(i, k);
        assert(t.to_set() =~= set) by {
            assert forall|x: Seq<char>| t.to_set().contains(x) == set.contains(x) by {
                if t.contains(x) {
                    let j = choose|j: int| 0 <= j < t.len() && t[j] == x;
                    if j < i {
                        assert(s[j] == x);
                        assert(s.to_set().contains(x));
                    } else if j > i {
                        assert(s[j - 1] == x);
                        assert(s.to_set().contains(x));
                    }
                }
                if set.contains(x) {
                    if x == k {
                        assert(t[i] == k);
                    } else {
                        assert(s.to_set().contains(x));
                        let j = choose|j: int| 0 <= j < s.len() && s[j] == x;
                        if j < i {
                            assert(t[j] == x);
                        } else {
                            assert(t[j + 1] == x);
                        }
                    }
                }
            }
        }
        assert(ascending(t) && t.to_set() == set);
    }
}

/// The place in an ascending sequence at which a new string goes.
proof fn lemma_place_for(s: Seq<Seq<char>>, k: Seq<char>) -> (i: int)
    requires
        ascending(s),
        !s.contains(k),
    ensures
        0 <= i <= s.len(),
        forall|j: int| #![trigger s[j]] 0 <= j < i ==> precedes(s[j], k),
        forall|j: int| #![trigger s[j]] i <= j < s.len() ==> precedes(k, s[j]),
    decreases s.len(),
{
    if s.len() == 0 {
        0
    } else {
        let front = s.drop_last();
        assert forall|x: int| 0 <= x < front.len() implies front[x] != k by {
            assert(s.contains(s[x]));
        }
        assert(s.contains(s[s.len() - 1]));
        precedes_total(s.last(), k);
        if precedes(s.last(), k) {
            assert forall|j: int| #![trigger s[j]] 0 <= j < s.len() implies precedes(s[j], k) by {
                if j < s.len() - 1 {
                    assert(precedes(s[j], s[s.len() - 1]));
                    precedes_transitive(s[j], s.last(), k);
                }
            }
            s.len() as int
        } else {
            let i = lemma_place_for(front, k);
            assert forall|j: int| #![trigger s[j]] 0 <= j < i implies precedes(s[j], k) by {
                assert(front[j] == s[j]);
            }
            assert forall|j: int| #![trigger s[j]] i <= j < s.len() implies precedes(k, s[j]) by {
                if j < s.len() - 1 {
                    assert(front[j] == s[j]);
                }
            }
            i
        }
    }
}

/// A map from paths to values, walked in the order of the paths.
pub struct PathMap<V> {
    entries: Vec<(RelPath, V)>,
}

spec fn keys_of<V>(entries: Seq<(RelPath, V)>) -> Seq<Seq<char>> {
    Seq::new(entries.len(), |i: int| entries[i].0@)
}

spec fn place_of(keys: Seq<Seq<char>>, k: Seq<char>) -> int {
    choose|i: int| 0 <= i < keys.len() && keys[i] == k
}

impl<V> View for PathMap<V> {
    type V = Map<Seq<char>, V>;

    closed spec fn view(&self) -> Map<Seq<char>, V> {
        Map::new(
            |k: Seq<char>| keys_of(self.entries@).contains(k),
            |k: Seq<char>| self.entries@[place_of(keys_of(self.entries@), k)].1,
        )
    }
}

/// The keys of a map of paths, in the order in which it is walked.
pub open spec fn walk<V>(m: Map<Seq<char>, V>) -> Seq<Seq<char>> {
    in_order(m.dom())
}

proof fn lemma_place<V>(entries: Seq<(RelPath, V)>, i: int)
    requires
        ascending(keys_of(entries)),
        0 <= i < entries.len(),
    ensures
        place_of(keys_of(entries), entries[i].0@) == i,
{
    let keys = keys_of(entries);
    let k = entries[i].0@;
    assert(keys[i] == k);
    let j = place_of(keys, k);
    precedes_irreflexive(k);
    if j < i {
        assert(precedes(keys[j], keys[i]));
    } else if i < j {
        assert(precedes(keys[i], keys[j]));
    }
}

impl<V> PathMap<V> {
    #[verifier::type_invariant]
    spec fn inv(self) -> bool {
        ascending(keys_of(self.entries@))
    }

    proof fn lemma_walk(self)
        requires
            ascending(keys_of(self.entries@)),
        ensures
            walk(self@) == keys_of(self.entries@),
            self@.dom().finite(),
            self@.dom().len() == self.entries@.len(),
    {
        let keys = keys_of(self.entries@);
        assert(self@.dom() =~= keys.to_set());
        lemma_in_order(keys);
        keys.lemma_cardinality_of_set();
        lemma_ascending_no_duplicates(keys);
        keys.unique_seq_to_set();
    }

    /// An empty map.
    pub fn new() -> (r: PathMap<V>)
        ensures
            r@ == Map::<Seq<char>, V>::empty(),
    {
        let r = PathMap { entries: Vec::new() };
        proof {
            assert(r@ =~= Map::<Seq<char>, V>::empty());
        }
        r
    }

    /// How many paths the map holds.
    pub fn len(&self) -> (r: usize)
        ensures
            r == walk(self@).len(),
            r == self@.dom().len(),
            self@.dom().finite(),
    {
        proof {
            use_type_invariant(self);
            self.lemma_walk();
        }
        self.entries.len()
    }

    /// Whether the map holds no path.
    pub fn is_empty(&self) -> (r: bool)
        ensures
            r == (self@ == Map::<Seq<char>, V>::empty()),
    {
        proof {
            use_type_invariant(self);
            self.lemma_walk();
            if self.entries@.len() == 0 {
                assert(self@ =~= Map::<Seq<char>, V>::empty());
            } else {
                assert(keys_of(self.entries@)[0] == self.entries@[0].0@);
                assert(self@.dom().contains(self.entries@[0].0@));
            }
        }
        self.entries.len() == 0
    }

    /// The `i`-th path in order.
    pub fn key(&self, i: usize) -> (r: &RelPath)
        requires
            i < walk(self@).len(),
        ensures
            r@ == walk(self@)[i as int],
            self@.dom().contains(r@),
    {
        proof {
            use_type_invariant(self);
            self.lemma_walk();
            assert(keys_of(self.entries@)[i as int] == self.entries@[i as int].0@);
        }
        &self.entries[i].0
    }

    /// The value of the `i`-th path in order.
    pub fn value(&self, i: usize) -> (r: &V)
        requires
            i < walk(self@).len(),
        ensures
            *r == self@[walk(self@)[i as int]],
            self@.dom().contains(walk(self@)[i as int]),
    {
        proof {
            use_type_invariant(self);
            self.lemma_walk();
            lemma_place(self.entries@, i as int);
            assert(keys_of(self.entries@)[i as int] == self.entries@[i as int].0@);
        }
        &self.entries[i].1
    }

    /// The first place whose path is not before `k`, and whether it is `k`.
    fn find(&self, k: &RelPath) -> (r: (usize, bool))
        ensures
            r.0 <= self.entries@.len(),
            forall|i: int| #![trigger self.entries@[i]] 0 <= i < r.0 ==> precedes(self.entries@[i].0@, k@),
            r.1 ==> r.0 < self.entries@.len() && self.entries@[r.0 as int].0@ == k@,
            !r.1 ==> forall|i: int| #![trigger self.entries@[i]]
                r.0 <= i < self.entries@.len() ==> precedes(k@, self.entries@[i].0@),
    {
        proof {
            use_type_invariant(self);
        }
        let mut lo: usize = 0;
        let mut hi: usize = self.entries.len();
        let ghost keys = keys_of(self.entries@);
        while lo < hi
            invariant
                lo <= hi <= self.entries@.len(),
                keys == keys_of(self.entries@),
                ascending(keys),
                forall|i: int| #![trigger self.entries@[i]] 0 <= i < lo ==> precedes(self.entries@[i].0@, k@),
                forall|i: int| #![trigger self.entries@[i]]
                    hi <= i < self.entries@.len() ==> precedes(k@, self.entries@[i].0@),
            decreases hi - lo,
        {
            let mid: usize = lo + (hi - lo) / 2;
            let ghost m = self.entries@[mid as int].0@;
            match self.entries[mid].0.order(k) {
                Order::Same => {
                    proof {
                        assert forall|i: int| #![trigger self.entries@[i]] 0 <= i < mid implies precedes(
                            self.entries@[i].0@,
                            k@,
                        ) by {
                            assert(precedes(keys[i], keys[mid as int]));
                        }
                    }
                    return (mid, true);
                },
                Order::Before => {
                    proof {
                        assert forall|i: int| #![trigger self.entries@[i]] 0 <= i < mid + 1 implies precedes(
                            self.entries@[i].0@,
                            k@,
                        ) by {
                            if i < mid {
                                assert(precedes(keys[i], keys[mid as int]));
                                precedes_transitive(keys[i], m, k@);
                            }
                        }
                    }
                    lo = mid + 1;
                },
                Order::After => {
                    proof {
                        assert forall|i: int| #![trigger self.entries@[i]]
                            mid <= i < self.entries@.len() implies precedes(k@, self.entries@[i].0@) by {
                            if i > mid {
                                assert(precedes(keys[mid as int], keys[i]));
                                precedes_transitive(k@, m, keys[i]);
                            }
                        }
                    }
                    hi = mid;
                },
            }
        }
        (lo, false)
    }

    /// The value of a path.
    pub fn get(&self, k: &RelPath) -> (r: Option<&V>)
        ensures
            match r {
                Some(v) => self@.dom().contains(k@) && *v == self@[k@],
                None => !self@.dom().contains(k@),
            },
    {
        proof {
            use_type_invariant(self);
        }
        let (i, hit) = self.find(k);
        if hit {
            proof {
                lemma_place(self.entries@, i as int);
                assert(keys_of(self.entries@)[i as int] == k@);
            }
            Some(&self.entries[i].1)
        } else {
            proof {
                self.lemma_absent(k@, i as int);
            }
            None
        }
    }

    proof fn lemma_absent(self, k: Seq<char>, i: int)
        requires
            0 <= i <= self.entries@.len(),
            forall|j: int| #![trigger self.entries@[j]] 0 <= j < i ==> precedes(self.entries@[j].0@, k),
            forall|j: int| #![trigger self.entries@[j]]
                i <= j < self.entries@.len() ==> precedes(k, self.entries@[j].0@),
        ensures
            !self@.dom().contains(k),
    {
        precedes_irreflexive(k);
        if keys_of(self.entries@).contains(k) {
            let j = choose|j: int| 0 <= j < self.entries@.len() && keys_of(self.entries@)[j] == k;
            assert(self.entries@[j].0@ == k);
        }
    }

    /// Whether the map holds a path.
    pub fn contains_key(&self, k: &RelPath) -> (r: bool)
        ensures
            r == self@.dom().contains(k@),
    {
        self.get(k).is_some()
    }

    /// Gives a path a value, in place of the one it may have had.
    pub fn insert(&mut self, k: RelPath, v: V)
        ensures
            final(self)@ == old(self)@.insert(k@, v),
    {
        proof {
            use_type_invariant(&*self);
        }
        let (i, hit) = self.find(&k);
        let ghost before = self.entries@;
        let ghost was = self@;
        let mut entries: Vec<(RelPath, V)> = Vec::new();
        std::mem::swap(&mut entries, &mut self.entries);
        let ghost key = k@;
        if hit {
            let _ = entries.remove(i);
            entries.insert(i, (k, v));
            proof {
                assert(keys_of(entries@) =~= keys_of(before));
            }
        } else {
            entries.insert(i, (k, v));
            proof {
                assert(keys_of(entries@) =~= keys_of(before).insert(i as int, key));
                lemma_insert_ascending(keys_of(before), i as int, key);
            }
        }
        self.entries = entries;
        proof {
            let now = self.entries@;
            assert(now[i as int] == (k, v));
            assert forall|x: Seq<char>| self@.dom().contains(x) == was.insert(key, v).dom().contains(x) by {
                lemma_contains_after(before, now, i as int, hit, x);
            }
            assert forall|x: Seq<char>| self@.dom().contains(x) implies self@[x] == was.insert(key, v)[x] by {
                let j = place_of(keys_of(now), x);
                assert(keys_of(now).contains(x));
                assert(now[j].0@ == x);
                if x == key {
                    lemma_place(now, i as int);
                } else if hit {
                    assert(before[j] == now[j]);
                    lemma_place(before, j);
                } else if j < i {
                    assert(before[j] == now[j]);
                    lemma_place(before, j);
                } else {
                    assert(before[j - 1] == now[j]);
                    lemma_place(before, j - 1);
                }
            }
            assert(self@ =~= was.insert(key, v));
        }
    }

    /// Takes a path out of the map and gives back the value it had.
    pub fn remove(&mut self, k: &RelPath) -> (r: Option<V>)
        ensures
            final(self)@ == old(self)@.remove(k@),
            match r {
                Some(v) => old(self)@.dom().contains(k@) && v == old(self)@[k@],
                None => !old(self)@.dom().contains(k@),
            },
    {
        proof {
            use_type_invariant(&*self);
        }
        let (i, hit) = self.find(k);
        let ghost before = self.entries@;
        let ghost was = self@;
        if !hit {
            proof {
                self.lemma_absent(k@, i as int);
                assert(was.remove(k@) =~= was);
            }
            return None;
        }
        let mut entries: Vec<(RelPath, V)> = Vec::new();
        std::mem::swap(&mut entries, &mut self.entries);
        let (_, v) = entries.remove(i);
        proof {
            assert(keys_of(entries@) =~= keys_of(before).remove(i as int));
            let keys = keys_of(before);
            assert forall|a: int, b: int|
                #![trigger keys_of(entries@)[a], keys_of(entries@)[b]]
                0 <= a < b < entries@.len() implies precedes(keys_of(entries@)[a], keys_of(entries@)[b]) by {
                let c = if a < i { a } else { a + 1 };
                let d = if b < i { b } else { b + 1 };
                assert(precedes(keys[c], keys[d]));
            }
        }
        self.entries = entries;
        proof {
            let now = self.entries@;
            lemma_place(before, i as int);
            assert(keys_of(before)[i as int] == k@);
            precedes_irreflexive(k@);
            assert forall|x: Seq<char>| self@.dom().contains(x) == was.remove(k@).dom().contains(x) by {
                if keys_of(now).contains(x) {
                    let j = choose|j: int| 0 <= j < now.len() && keys_of(now)[j] == x;
                    let c = if j < i { j } else { j + 1 };
                    assert(keys_of(before)[c] == x);
                    lemma_place(before, c);
                }
                if keys_of(before).contains(x) && x != k@ {
                    let j = choose|j: int| 0 <= j < before.len() && keys_of(before)[j] == x;
                    let c = if j < i { j } else { j - 1 };
                    assert(keys_of(now)[c] == x);
                }
            }
            assert forall|x: Seq<char>| self@.dom().contains(x) implies self@[x] == was.remove(k@)[x] by {
                let j = place_of(keys_of(now), x);
                assert(keys_of(now).contains(x));
                let c = if j < i { j } else { j + 1 };
                assert(before[c] == now[j]);
                assert(now[j].0@ == x);
                lemma_place(before, c);
            }
            assert(self@ =~= was.remove(k@));
        }
        Some(v)
    }

    /// The paths of the map, in order.
    pub fn keys(&self) -> (r: Vec<RelPath>)
        ensures
            r@.len() == walk(self@).len(),
            forall|i: int| #![trigger r@[i]] 0 <= i < r@.len() ==> r@[i]@ == walk(self@)[i],
    {
        let mut out: Vec<RelPath> = Vec::new();
        let n: usize = self.len();
        let mut i: usize = 0;
        while i < n
            invariant
                n == walk(self@).len(),
                i <= n,
                out@.len() == i,
                forall|j: int| #![trigger out@[j]] 0 <= j < i ==> out@[j]@ == walk(self@)[j],
            decreases n - i,
        {
            out.push(self.key(i).clone());
            i += 1;
        }
        out
    }

    /// Takes `dir` and all that lies below it out of the map.
    pub fn remove_within(&mut self, dir: &RelPath)
        ensures
            final(self)@ == old(self)@.restrict(
                old(self)@.dom().filter(|k: Seq<char>| !within(k, dir@)),
            ),
    {
        let keys = self.keys();
        let ghost was = self@;
        let mut i: usize = 0;
        proof {
            lemma_finite(*self);
            lemma_walk_of_finite(was.dom());
        }
        while i < keys.len()
            invariant
                i <= keys@.len(),
                keys@.len() == walk(was).len(),
                forall|j: int| #![trigger keys@[j]] 0 <= j < keys@.len() ==> keys@[j]@ == walk(was)[j],
                forall|k: Seq<char>|
                    #![trigger self@.dom().contains(k)]
                    self@.dom().contains(k) <==> was.dom().contains(k) && !(within(k, dir@) && walk(
                        was,
                    ).take(i as int).contains(k)),
                forall|k: Seq<char>|
                    #![trigger self@[k]]
                    self@.dom().contains(k) ==> self@[k] == was[k],
            decreases keys@.len() - i,
        {
            let ghost seen = walk(was).take(i as int);
            let ghost k = keys@[i as int]@;
            proof {
                assert(walk(was).take(i + 1) =~= seen.push(k));
                assert forall|x: Seq<char>| #![trigger seen.push(k).contains(x)]
                    seen.push(k).contains(x) <==> seen.contains(x) || x == k by {
                    lemma_push_contains(seen, k, x);
                }
            }
            if keys[i].is_within(dir) {
                let _ = self.remove(&keys[i]);
            }
            i += 1;
        }
        proof {
            assert(walk(was).take(i as int) =~= walk(was));
            let kept = was.restrict(was.dom().filter(|k: Seq<char>| !within(k, dir@)));
            assert forall|k: Seq<char>| self@.dom().contains(k) == kept.dom().contains(k) by {
                if was.dom().contains(k) {
                    assert(walk(was).to_set().contains(k));
                }
            }
            assert(self@ =~= kept);
        }
    }
}

/// A map of paths is finite.
pub broadcast proof fn lemma_finite<V>(m: PathMap<V>)
    ensures
        #[trigger] m@.dom().finite(),
{
    assert(m@.dom() =~= keys_of(m.entries@).to_set());
    keys_of(m.entries@).lemma_cardinality_of_set();
}

proof fn lemma_push_contains(s: Seq<Seq<char>>, k: Seq<char>, x: Seq<char>)
    ensures
        s.push(k).contains(x) <==> s.contains(x) || x == k,
{
    if s.push(k).contains(x) && x != k {
        let i = choose|i: int| 0 <= i < s.push(k).len() && s.push(k)[i] == x;
        assert(s[i] == x);
    }
    if s.contains(x) {
        let i = choose|i: int| 0 <= i < s.len() && s[i] == x;
        assert(s.push(k)[i] == x);
    }
    assert(s.push(k)[s.len() as int] == k);
}

proof fn lemma_insert_ascending(keys: Seq<Seq<char>>, i: int, k: Seq<char>)
    requires
        ascending(keys),
        0 <= i <= keys.len(),
        forall|j: int| #![trigger keys[j]] 0 <= j < i ==> precedes(keys[j], k),
        forall|j: int| #![trigger keys[j]] i <= j < keys.len() ==> precedes(k, keys[j]),
    ensures
        ascending(keys.insert(i, k)),
{
    let now = keys.insert(i, k);
    assert forall|a: int, b: int| #![trigger now[a], now[b]] 0 <= a < b < now.len() implies precedes(
        now[a],
        now[b],
    ) by {
        let c = if a < i { a } else { a - 1 };
        let d = if b < i { b } else { b - 1 };
        if a == i {
            assert(now[b] == keys[d]);
        } else if b == i {
            assert(now[a] == keys[c]);
        } else {
            assert(precedes(keys[c], keys[d]));
        }
    }
}

proof fn lemma_contains_after<V>(
    before: Seq<(RelPath, V)>,
    now: Seq<(RelPath, V)>,
    i: int,
    hit: bool,
    x: Seq<char>,
)
    requires
        0 <= i < now.len(),
        hit ==> i < before.len() && keys_of(now) == keys_of(before),
        !hit ==> i <= before.len() && keys_of(now) == keys_of(before).insert(i, now[i].0@),
    ensures
        keys_of(now).contains(x) == (keys_of(before).contains(x) || x == now[i].0@),
{
    assert(keys_of(now)[i] == now[i].0@);
    if !hit {
        if keys_of(now).contains(x) {
            let j = choose|j: int| 0 <= j < now.len() && keys_of(now)[j] == x;
            if j < i {
                assert(keys_of(before)[j] == x);
            } else if j > i {
                assert(keys_of(before)[j - 1] == x);
            }
        }
        if keys_of(before).contains(x) {
            let j = choose|j: int| 0 <= j < before.len() && keys_of(before)[j] == x;
            if j < i {
                assert(keys_of(now)[j] == x);
            } else {
                assert(keys_of(now)[j + 1] == x);
            }
        }
    }
}

/// A set of paths, walked in order.
pub struct PathSet {
    map: PathMap<()>,
}

impl View for PathSet {
    type V = Set<Seq<char>>;

    closed spec fn view(&self) -> Set<Seq<char>> {
        self.map@.dom()
    }
}

/// A set of paths is finite.
pub broadcast proof fn lemma_set_finite(s: PathSet)
    ensures
        #[trigger] s@.finite(),
{
    lemma_finite(s.map);
}

impl PathSet {
    /// An empty set.
    pub fn new() -> (r: PathSet)
        ensures
            r@ == Set::<Seq<char>>::empty(),
    {
        let r = PathSet { map: PathMap::new() };
        proof {
            assert(r@ =~= Set::<Seq<char>>::empty());
        }
        r
    }

    /// How many paths the set holds.
    pub fn len(&self) -> (r: usize)
        ensures
            r == in_order(self@).len(),
            r == self@.len(),
    {
        self.map.len()
    }

    /// Whether the set holds no path.
    pub fn is_empty(&self) -> (r: bool)
        ensures
            r == (self@ == Set::<Seq<char>>::empty()),
    {
        let r = self.map.is_empty();
        proof {
            if !r {
                assert(self.map@ != Map::<Seq<char>, ()>::empty());
                if self@ == Set::<Seq<char>>::empty() {
                    assert(self.map@ =~= Map::<Seq<char>, ()>::empty());
                }
            }
        }
        r
    }

    /// The `i`-th path in order.
    pub fn key(&self, i: usize) -> (r: &RelPath)
        requires
            i < in_order(self@).len(),
        ensures
            r@ == in_order(self@)[i as int],
            self@.contains(r@),
    {
        self.map.key(i)
    }

    /// Whether the set holds a path.
    pub fn contains(&self, k: &RelPath) -> (r: bool)
        ensures
            r == self@.contains(k@),
    {
        self.map.contains_key(k)
    }

    /// Puts a path into the set; whether it was not there yet.
    pub fn insert(&mut self, k: RelPath) -> (r: bool)
        ensures
            final(self)@ == old(self)@.insert(k@),
            r == !old(self)@.contains(k@),
    {
        let fresh = !self.map.contains_key(&k);
        self.map.insert(k, ());
        proof {
            assert(self@ =~= old(self)@.insert(k@));
        }
        fresh
    }

    /// Takes a path out of the set; whether it was there.
    pub fn remove(&mut self, k: &RelPath) -> (r: bool)
        ensures
            final(self)@ == old(self)@.remove(k@),
            r == old(self)@.contains(k@),
    {
        let was = self.map.remove(k);
        proof {
            assert(self@ =~= old(self)@.remove(k@));
        }
        was.is_some()
    }

    /// Takes `dir` and all that lies below it out of the set.
    pub fn remove_within(&mut self, dir: &RelPath)
        ensures
            final(self)@ == old(self)@.filter(|k: Seq<char>| !within(k, dir@)),
    {
        self.map.remove_within(dir);
        proof {
            assert(self@ =~= old(self)@.filter(|k: Seq<char>| !within(k, dir@)));
        }
    }

    /// The paths of the set, in order.
    pub fn keys(&self) -> (r: Vec<RelPath>)
        ensures
            r@.len() == in_order(self@).len(),
            forall|i: int| #![trigger r@[i]] 0 <= i < r@.len() ==> r@[i]@ == in_order(self@)[i],
    {
        self.map.keys()
    }
}

} // verus!
