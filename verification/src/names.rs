//! Maps keyed by names, kept in the order of the names.
//!
//! The order is the lexicographic order of the characters, which for UTF-8
//! text is also the order of the bytes.

use crate::text::{chars_of, copy_of, text_of, views};
use vstd::prelude::*;

verus! {

/// `a` and `b` agree before index `k`, and there `a` ends first or holds the
/// smaller character.
pub open spec fn diverge(a: Seq<char>, b: Seq<char>, k: int) -> bool {
    &&& 0 <= k <= a.len()
    &&& k < b.len()
    &&& forall|i: int| 0 <= i < k ==> a[i] == b[i]
    &&& k < a.len() ==> a[k] < b[k]
}

/// Lexicographic order.
pub open spec fn precedes(a: Seq<char>, b: Seq<char>) -> bool {
    exists|k: int| diverge(a, b, k)
}

/// The names are in strictly ascending order.
pub open spec fn ascending(s: Seq<Seq<char>>) -> bool {
    forall|i: int, j: int| 0 <= i < j < s.len() ==> precedes(#[trigger] s[i], #[trigger] s[j])
}

pub proof fn lemma_precedes_irreflexive(a: Seq<char>)
    ensures
        !precedes(a, a),
{
}

pub proof fn lemma_precedes_transitive(a: Seq<char>, b: Seq<char>, c: Seq<char>)
    requires
        precedes(a, b),
        precedes(b, c),
    ensures
        precedes(a, c),
{
    let i = choose|k: int| diverge(a, b, k);
    let j = choose|k: int| diverge(b, c, k);
    if i <= j {
        assert(diverge(a, c, i));
    } else {
        assert(diverge(a, c, j));
    }
}

pub proof fn lemma_precedes_asymmetric(a: Seq<char>, b: Seq<char>)
    requires
        precedes(a, b),
    ensures
        !precedes(b, a),
        a != b,
{
    if precedes(b, a) {
        lemma_precedes_transitive(a, b, a);
    }
    lemma_precedes_irreflexive(a);
}

/// A proper prefix comes first: a directory before what it holds.
pub proof fn lemma_prefix_precedes(a: Seq<char>, b: Seq<char>)
    requires
        a.len() < b.len(),
        b.take(a.len() as int) == a,
    ensures
        precedes(a, b),
{
    assert forall|i: int| 0 <= i < a.len() implies a[i] == b[i] by {
        assert(b.take(a.len() as int)[i] == b[i]);
    }
    assert(diverge(a, b, a.len() as int));
}

/// The names of a set, in ascending order.
pub open spec fn ordered(names: Set<Seq<char>>) -> Seq<Seq<char>> {
    choose|s: Seq<Seq<char>>| ascending(s) && #[trigger] s.to_set() == names
}

proof fn lemma_ascending_unique(s: Seq<Seq<char>>, t: Seq<Seq<char>>)
    requires
        ascending(s),
        ascending(t),
        s.to_set() == t.to_set(),
    ensures
        s == t,
    decreases s.len(),
{
    assert forall|x: Seq<char>| s.contains(x) == t.contains(x) by {
        assert(s.to_set().contains(x) == s.contains(x));
        assert(t.to_set().contains(x) == t.contains(x));
    }
    if s.len() == 0 {
        if t.len() > 0 {
            assert(t.contains(t[0]));
            assert(s.contains(t[0]));
        }
        assert(s =~= t);
    } else {
        assert(s.contains(s.last()));
        assert(t.contains(s.last()));
        assert(t.len() > 0);
        assert(t.contains(t.last()));
        assert(s.contains(t.last()));
        let i = choose|i: int| 0 <= i < t.len() && t[i] == s.last();
        let j = choose|j: int| 0 <= j < s.len() && s[j] == t.last();
        if s.last() != t.last() {
            assert(precedes(t[i], t[t.len() - 1]));
            assert(precedes(s[j], s[s.len() - 1]));
            lemma_precedes_asymmetric(s.last(), t.last());
        }
        let s1 = s.drop_last();
        let t1 = t.drop_last();
        assert forall|x: Seq<char>| s1.to_set().contains(x) == t1.to_set().contains(x) by {
            if s1.contains(x) {
                let a = choose|a: int| 0 <= a < s1.len() && s1[a] == x;
                assert(precedes(s[a], s[s.len() - 1]));
                lemma_precedes_asymmetric(x, s.last());
                assert(s.contains(x));
                let b = choose|b: int| 0 <= b < t.len() && t[b] == x;
                assert(t1[b] == x);
            }
            if t1.contains(x) {
                let a = choose|a: int| 0 <= a < t1.len() && t1[a] == x;
                assert(precedes(t[a], t[t.len() - 1]));
                lemma_precedes_asymmetric(x, t.last());
                assert(t.contains(x));
                let b = choose|b: int| 0 <= b < s.len() && s[b] == x;
                assert(s1[b] == x);
            }
        }
        assert(s1.to_set() =~= t1.to_set());
        lemma_ascending_unique(s1, t1);
        assert(s =~= s1.push(s.last()));
        assert(t =~= t1.push(t.last()));
    }
}

/// An ascending list is the ordered form of the set of its names.
pub proof fn lemma_ordered(s: Seq<Seq<char>>)
    requires
        ascending(s),
    ensures
        ordered(s.to_set()) == s,
{
    let t = ordered(s.to_set());
    assert(ascending(s) && s.to_set() == s.to_set());
    lemma_ascending_unique(s, t);
}

/// Of two names one comes first, or they are the same.
pub proof fn lemma_precedes_total(a: Seq<char>, b: Seq<char>, k: int)
    requires
        0 <= k <= a.len(),
        k <= b.len(),
        forall|i: int| 0 <= i < k ==> a[i] == b[i],
    ensures
        a == b || precedes(a, b) || precedes(b, a),
    decreases a.len() - k,
{
    if k == a.len() && k == b.len() {
        assert(a =~= b);
    } else if k == a.len() {
        assert(diverge(a, b, k));
    } else if k == b.len() {
        assert(diverge(b, a, k));
    } else if a[k] < b[k] {
        assert(diverge(a, b, k));
    } else if b[k] < a[k] {
        assert(diverge(b, a, k));
    } else {
        lemma_precedes_total(a, b, k + 1);
    }
}

/// Where a name that is not in an ascending list belongs.
proof fn lemma_place(s: Seq<Seq<char>>, x: Seq<char>, n: int) -> (k: int)
    requires
        ascending(s),
        !s.contains(x),
        0 <= n <= s.len(),
        forall|i: int| n <= i < s.len() ==> precedes(x, #[trigger] s[i]),
    ensures
        0 <= k <= n,
        forall|i: int| 0 <= i < k ==> precedes(#[trigger] s[i], x),
        forall|i: int| k <= i < s.len() ==> precedes(x, #[trigger] s[i]),
    decreases n,
{
    if n == 0 {
        0
    } else {
        assert(s.contains(s[n - 1]));
        lemma_precedes_total(s[n - 1], x, 0);
        if precedes(s[n - 1], x) {
            assert forall|i: int| 0 <= i < n implies precedes(#[trigger] s[i], x) by {
                if i < n - 1 {
                    lemma_precedes_transitive(s[i], s[n - 1], x);
                }
            }
            n
        } else {
            lemma_place(s, x, n - 1)
        }
    }
}

/// Every finite set of names has an ordered form.
pub proof fn lemma_ordered_of(names: Set<Seq<char>>)
    requires
        names.finite(),
    ensures
        ascending(ordered(names)),
        ordered(names).to_set() == names,
        ordered(names).len() == names.len(),
    decreases names.len(),
{
    if names.len() == 0 {
        let s = Seq::<Seq<char>>::empty();
        assert(s.to_set() =~= names);
        lemma_ordered(s);
    } else {
        let x = names.choose();
        let rest = names.remove(x);
        lemma_ordered_of(rest);
        let s = ordered(rest);
        assert(!s.contains(x)) by {
            assert(s.to_set().contains(x) == s.contains(x));
        }
        let k = lemma_place(s, x, s.len() as int);
        let t = s.insert(k, x);
        assert forall|i: int, j: int| 0 <= i < j < t.len() implies precedes(
            #[trigger] t[i],
            #[trigger] t[j],
        ) by {
            if i != k {
                assert(t[i] == s[if i < k { i } else { i - 1 }]);
            }
            if j != k {
                assert(t[j] == s[if j < k { j } else { j - 1 }]);
            }
        }
        assert forall|y: Seq<char>| t.to_set().contains(y) == names.contains(y) by {
            assert(t.to_set().contains(y) == t.contains(y));
            assert(s.to_set().contains(y) == s.contains(y));
            if t.contains(y) {
                let i = choose|i: int| 0 <= i < t.len() && t[i] == y;
                if i != k {
                    assert(y == s[if i < k { i } else { i - 1 }]);
                    assert(s.contains(y));
                }
            }
            if s.contains(y) {
                let i = choose|i: int| 0 <= i < s.len() && s[i] == y;
                assert(t[if i < k { i } else { i + 1 }] == y);
            }
            assert(t[k] == x);
        }
        assert(t.to_set() =~= names);
        lemma_ordered(t);
    }
}

/// An ascending list has as many names as the set of its names.
pub proof fn lemma_ascending_len(s: Seq<Seq<char>>)
    requires
        ascending(s),
    ensures
        s.to_set().len() == s.len(),
{
    assert(s.no_duplicates()) by {
        assert forall|i: int, j: int| 0 <= i < s.len() && 0 <= j < s.len() && i != j implies s[i]
            != s[j] by {
            if i < j {
                lemma_precedes_asymmetric(s[i], s[j]);
            } else {
                lemma_precedes_asymmetric(s[j], s[i]);
            }
        }
    }
    s.unique_seq_to_set();
}

/// How one name stands to another.
pub enum Rank {
    Before,
    Same,
    After,
}

/// Compares two names.
pub fn rank(a: &[char], b: &[char]) -> (r: Rank)
    ensures
        match r {
            Rank::Before => precedes(a@, b@),
            Rank::Same => a@ == b@,
            Rank::After => precedes(b@, a@),
        },
{
    let mut i: usize = 0;
    while i < a.len() && i < b.len()
        invariant
            i <= a.len(),
            i <= b.len(),
            forall|j: int| 0 <= j < i ==> a@[j] == b@[j],
        decreases a.len() - i,
    {
        if a[i] < b[i] {
            assert(diverge(a@, b@, i as int));
            return Rank::Before;
        }
        if b[i] < a[i] {
            assert(diverge(b@, a@, i as int));
            return Rank::After;
        }
        i += 1;
    }
    if i < b.len() {
        assert(diverge(a@, b@, i as int));
        Rank::Before
    } else if i < a.len() {
        assert(diverge(b@, a@, i as int));
        Rank::After
    } else {
        assert(a@ =~= b@);
        Rank::Same
    }
}

/// The map that pairs each name with the value at the same index.
pub open spec fn assoc<V>(keys: Seq<Seq<char>>, vals: Seq<V>) -> Map<Seq<char>, V> {
    Map::new(|k: Seq<char>| keys.contains(k), |k: Seq<char>| vals[keys.index_of(k)])
}

proof fn lemma_assoc<V>(keys: Seq<Seq<char>>, vals: Seq<V>, i: int)
    requires
        ascending(keys),
        keys.len() == vals.len(),
        0 <= i < keys.len(),
    ensures
        assoc(keys, vals).contains_key(keys[i]),
        assoc(keys, vals)[keys[i]] == vals[i],
{
    assert(keys.contains(keys[i]));
    let j = keys.index_of(keys[i]);
    assert(keys[j] == keys[i] && 0 <= j < keys.len());
    if i < j {
        lemma_precedes_asymmetric(keys[i], keys[j]);
    } else if j < i {
        lemma_precedes_asymmetric(keys[j], keys[i]);
    }
}

/// A map from names to values, in the order of the names.
#[derive(Debug, PartialEq, Eq)]
pub struct NameMap<V> {
    keys: Vec<Vec<char>>,
    vals: Vec<V>,
}

impl<V> View for NameMap<V> {
    type V = Map<Seq<char>, V>;

    closed spec fn view(&self) -> Map<Seq<char>, V> {
        assoc(views(self.keys@), self.vals@)
    }
}

impl<V> NameMap<V> {
    #[verifier::type_invariant]
    spec fn inv(self) -> bool {
        &&& self.keys@.len() == self.vals@.len()
        &&& ascending(views(self.keys@))
    }

    /// The names, in ascending order.
    pub closed spec fn names(&self) -> Seq<Seq<char>> {
        views(self.keys@)
    }

    /// The empty map.
    pub fn new() -> (r: NameMap<V>)
        ensures
            r@ == Map::<Seq<char>, V>::empty(),
            r.names() == Seq::<Seq<char>>::empty(),
    {
        let r = NameMap { keys: Vec::new(), vals: Vec::new() };
        assert(r@ =~= Map::<Seq<char>, V>::empty());
        r
    }

    /// How many names there are.
    pub fn len(&self) -> (n: usize)
        ensures
            n == self.names().len(),
            self.names() == ordered(self@.dom()),
            ascending(self.names()),
            self@.dom() == self.names().to_set(),
            forall|k: Seq<char>| self@.contains_key(k) == self.names().contains(k),
    {
        proof {
            use_type_invariant(self);
            assert(self@.dom() =~= self.names().to_set());
            lemma_ordered(self.names());
        }
        self.keys.len()
    }

    /// The name at an index of the order.
    pub fn key_at(&self, i: usize) -> (k: &Vec<char>)
        requires
            i < self.names().len(),
        ensures
            k@ == self.names()[i as int],
            self@.contains_key(k@),
    {
        assert(self.names().contains(self.names()[i as int]));
        &self.keys[i]
    }

    /// The value that belongs to the name at an index of the order.
    pub fn val_at(&self, i: usize) -> (v: &V)
        requires
            i < self.names().len(),
        ensures
            self@.contains_key(self.names()[i as int]),
            *v == self@[self.names()[i as int]],
    {
        proof {
            use_type_invariant(self);
            lemma_assoc(views(self.keys@), self.vals@, i as int);
        }
        &self.vals[i]
    }

    fn locate(&self, k: &[char]) -> (r: (bool, usize))
        ensures
            r.1 <= self.keys@.len(),
            forall|i: int| 0 <= i < r.1 ==> precedes(#[trigger] views(self.keys@)[i], k@),
            r.0 ==> r.1 < self.keys@.len() && views(self.keys@)[r.1 as int] == k@,
            !r.0 ==> forall|i: int|
                r.1 <= i < self.keys@.len() ==> precedes(k@, #[trigger] views(self.keys@)[i]),
            r.0 == self@.contains_key(k@),
    {
        proof {
            use_type_invariant(self);
        }
        let ghost s = views(self.keys@);
        let mut lo: usize = 0;
        let mut hi: usize = self.keys.len();
        while lo < hi
            invariant
                lo <= hi <= self.keys@.len(),
                s == views(self.keys@),
                ascending(s),
                forall|i: int| 0 <= i < lo ==> precedes(#[trigger] s[i], k@),
                forall|i: int| hi <= i < s.len() ==> precedes(k@, #[trigger] s[i]),
            decreases hi - lo,
        {
            let mid: usize = lo + (hi - lo) / 2;
            match rank(self.keys[mid].as_slice(), k) {
                Rank::Before => {
                    assert forall|i: int| 0 <= i < mid + 1 implies precedes(
                        #[trigger] s[i],
                        k@,
                    ) by {
                        if i < mid {
                            lemma_precedes_transitive(s[i], s[mid as int], k@);
                        }
                    }
                    lo = mid + 1;
                },
                Rank::Same => {
                    assert(s[mid as int] == k@);
                    assert(s.contains(k@));
                    return (true, mid);
                },
                Rank::After => {
                    assert forall|i: int| mid <= i < s.len() implies precedes(
                        k@,
                        #[trigger] s[i],
                    ) by {
                        if mid < i {
                            lemma_precedes_transitive(k@, s[mid as int], s[i]);
                        }
                    }
                    hi = mid;
                },
            }
        }
        proof {
            if s.contains(k@) {
                let i = choose|i: int| 0 <= i < s.len() && s[i] == k@;
                lemma_precedes_irreflexive(k@);
                assert(precedes(s[i], k@) || precedes(k@, s[i]));
            }
        }
        (false, lo)
    }

    /// The value of a name.
    pub fn at(&self, k: &[char]) -> (r: Option<&V>)
        ensures
            match r {
                Some(v) => self@.contains_key(k@) && *v == self@[k@],
                None => !self@.contains_key(k@),
            },
    {
        let (found, pos) = self.locate(k);
        if found {
            proof {
                use_type_invariant(self);
                lemma_assoc(views(self.keys@), self.vals@, pos as int);
            }
            Some(&self.vals[pos])
        } else {
            None
        }
    }

    /// Gives a name a value, in place of the one it had.
    pub fn put(&mut self, k: Vec<char>, v: V)
        ensures
            final(self)@ == old(self)@.insert(k@, v),
    {
        proof {
            use_type_invariant(&*self);
        }
        let ghost before = self@;
        let ghost s = views(self.keys@);
        let ghost w = self.vals@;
        let (found, pos) = self.locate(k.as_slice());
        let mut old_map: NameMap<V> = NameMap::new();
        std::mem::swap(self, &mut old_map);
        let NameMap { mut keys, mut vals } = old_map;
        let ghost kv = k@;
        if found {
            vals.set(pos, v);
        } else {
            keys.insert(pos, k);
            vals.insert(pos, v);
        }
        let ghost t = views(keys@);
        proof {
            if found {
                assert(t =~= s);
            } else {
                assert(t =~= s.insert(pos as int, kv));
            }
            assert forall|i: int, j: int| 0 <= i < j < t.len() implies precedes(
                #[trigger] t[i],
                #[trigger] t[j],
            ) by {
                if !found {
                    let a = if i < pos {
                        i
                    } else {
                        i - 1
                    };
                    let b = if j < pos {
                        j
                    } else {
                        j - 1
                    };
                    if i == pos {
                        assert(t[j] == s[b]);
                    } else if j == pos {
                        assert(t[i] == s[a]);
                    } else {
                        assert(t[i] == s[a]);
                        assert(t[j] == s[b]);
                    }
                }
            }
            let m = assoc(t, vals@);
            assert(before == assoc(s, w));
            let want = before.insert(kv, v);
            assert(t[pos as int] == kv);
            assert forall|x: Seq<char>| m.contains_key(x) == want.contains_key(x) by {
                if t.contains(x) {
                    let i = choose|i: int| 0 <= i < t.len() && t[i] == x;
                    if !found && i != pos {
                        assert(x == s[if i < pos { i } else { i - 1 }]);
                    }
                }
                if s.contains(x) {
                    let i = choose|i: int| 0 <= i < s.len() && s[i] == x;
                    assert(found ==> t[i] == x);
                    assert(!found ==> t[if i < pos { i } else { i + 1 }] == x);
                }
            }
            assert forall|x: Seq<char>| m.contains_key(x) implies m[x] == want[x] by {
                let i = choose|i: int| 0 <= i < t.len() && t[i] == x;
                lemma_assoc(t, vals@, i);
                if i == pos {
                } else {
                    let j = if found || i < pos {
                        i
                    } else {
                        i - 1
                    };
                    assert(s[j] == x);
                    lemma_assoc(s, w, j);
                    if i < pos {
                        lemma_precedes_asymmetric(t[i], t[pos as int]);
                    } else {
                        lemma_precedes_asymmetric(t[pos as int], t[i]);
                    }
                }
            }
            assert(m =~= want);
        }
        *self = NameMap { keys, vals };
    }

    /// Takes a name out.
    pub fn remove(&mut self, k: &[char])
        ensures
            final(self)@ == old(self)@.remove(k@),
    {
        proof {
            use_type_invariant(&*self);
        }
        let ghost before = self@;
        let ghost s = views(self.keys@);
        let ghost w = self.vals@;
        let (found, pos) = self.locate(k);
        if !found {
            assert(before.remove(k@) =~= before);
            return;
        }
        let mut old_map: NameMap<V> = NameMap::new();
        std::mem::swap(self, &mut old_map);
        let NameMap { mut keys, mut vals } = old_map;
        keys.remove(pos);
        vals.remove(pos);
        let ghost t = views(keys@);
        proof {
            assert(t =~= s.remove(pos as int));
            assert forall|i: int, j: int| 0 <= i < j < t.len() implies precedes(
                #[trigger] t[i],
                #[trigger] t[j],
            ) by {
                assert(t[i] == s[if i < pos { i } else { i + 1 }]);
                assert(t[j] == s[if j < pos { j } else { j + 1 }]);
            }
            let m = assoc(t, vals@);
            assert(before == assoc(s, w));
            let want = before.remove(k@);
            assert forall|x: Seq<char>| m.contains_key(x) == want.contains_key(x) by {
                if t.contains(x) {
                    let i = choose|i: int| 0 <= i < t.len() && t[i] == x;
                    let j = if i < pos {
                        i
                    } else {
                        i + 1
                    };
                    assert(s[j] == x);
                    if i < pos {
                        lemma_precedes_asymmetric(s[j], s[pos as int]);
                    } else {
                        lemma_precedes_asymmetric(s[pos as int], s[j]);
                    }
                }
                if s.contains(x) && x != k@ {
                    let i = choose|i: int| 0 <= i < s.len() && s[i] == x;
                    assert(t[if i < pos { i } else { i - 1 }] == x);
                }
            }
            assert forall|x: Seq<char>| m.contains_key(x) implies m[x] == want[x] by {
                let i = choose|i: int| 0 <= i < t.len() && t[i] == x;
                let j = if i < pos {
                    i
                } else {
                    i + 1
                };
                lemma_assoc(t, vals@, i);
                assert(s[j] == x);
                lemma_assoc(s, w, j);
            }
            assert(m =~= want);
        }
        *self = NameMap { keys, vals };
    }

    /// Gives a name a value, in place of the one it had.
    pub fn insert(&mut self, k: String, v: V)
        ensures
            final(self)@ == old(self)@.insert(k@, v),
    {
        let c = chars_of(k.as_str());
        self.put(c, v);
    }

    /// The value of a name.
    pub fn get(&self, k: &str) -> (r: Option<&V>)
        ensures
            match r {
                Some(v) => self@.contains_key(k@) && *v == self@[k@],
                None => !self@.contains_key(k@),
            },
    {
        let c = chars_of(k);
        self.at(c.as_slice())
    }

    /// The name at an index of the order, as a string.
    pub fn name_at(&self, i: usize) -> (k: String)
        requires
            i < self.names().len(),
        ensures
            k@ == self.names()[i as int],
            self@.contains_key(k@),
    {
        text_of(self.key_at(i).as_slice())
    }
}

impl NameMap<usize> {
    /// A map with the same names and values.
    pub fn dup(&self) -> (r: NameMap<usize>)
        ensures
            r@ == self@,
    {
        let mut r: NameMap<usize> = NameMap::new();
        let n = self.len();
        let mut i: usize = 0;
        while i < n
            invariant
                i <= n,
                n == self.names().len(),
                r@.dom() =~= self.names().take(i as int).to_set(),
                forall|k: Seq<char>| #[trigger] r@.contains_key(k) ==> r@[k] == self@[k],
            decreases n - i,
        {
            r.put(copy_of(self.key_at(i).as_slice()), *self.val_at(i));
            assert(self.names().take(i + 1) =~= self.names().take(i as int).push(
                self.names()[i as int],
            ));
            proof {
                lemma_to_set_push(self.names().take(i as int), self.names()[i as int]);
            }
            i += 1;
        }
        assert(self.names().take(i as int) =~= self.names());
        assert(r@ =~= self@);
        r
    }
}

pub proof fn lemma_to_set_push(s: Seq<Seq<char>>, x: Seq<char>)
    ensures
        s.push(x).to_set() == s.to_set().insert(x),
{
    assert forall|y: Seq<char>| s.push(x).to_set().contains(y) == s.to_set().insert(x).contains(
        y,
    ) by {
        if s.contains(y) {
            let i = choose|i: int| 0 <= i < s.len() && s[i] == y;
            assert(s.push(x)[i] == y);
        }
        assert(s.push(x)[s.len() as int] == x);
        if s.push(x).contains(y) {
            let i = choose|i: int| 0 <= i < s.push(x).len() && s.push(x)[i] == y;
            if i < s.len() {
                assert(s[i] == y);
            }
        }
    }
    assert(s.push(x).to_set() =~= s.to_set().insert(x));
}

} // verus!
