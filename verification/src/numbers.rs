//! Maps keyed by numbers.

use vstd::prelude::*;

verus! {

/// No number stands in the list twice.
pub open spec fn no_repeats(keys: Seq<i64>) -> bool {
    forall|i: int, j: int| 0 <= i < j < keys.len() ==> #[trigger] keys[i] != #[trigger] keys[j]
}

/// The value beside each number.
pub open spec fn paired<V>(keys: Seq<i64>, vals: Seq<V>) -> Map<i64, V> {
    Map::new(
        |k: i64| keys.contains(k),
        |k: i64| vals[choose|i: int| 0 <= i < keys.len() && keys[i] == k],
    )
}

proof fn lemma_paired<V>(keys: Seq<i64>, vals: Seq<V>, i: int)
    requires
        no_repeats(keys),
        0 <= i < keys.len(),
        keys.len() == vals.len(),
    ensures
        paired(keys, vals).contains_key(keys[i]),
        paired(keys, vals)[keys[i]] == vals[i],
{
    assert(keys.contains(keys[i]));
    let j = choose|j: int| 0 <= j < keys.len() && keys[j] == keys[i];
    assert(0 <= j < keys.len() && keys[j] == keys[i]);
}

/// A map keyed by numbers.
#[derive(Debug, PartialEq, Eq)]
pub struct NumberMap<V> {
    keys: Vec<i64>,
    vals: Vec<V>,
}

impl<V> View for NumberMap<V> {
    type V = Map<i64, V>;

    closed spec fn view(&self) -> Map<i64, V> {
        paired(self.keys@, self.vals@)
    }
}

impl<V> NumberMap<V> {
    #[verifier::type_invariant]
    spec fn inv(self) -> bool {
        &&& self.keys@.len() == self.vals@.len()
        &&& no_repeats(self.keys@)
    }

    /// The numbers, in no particular order.
    pub closed spec fn numbers(&self) -> Seq<i64> {
        self.keys@
    }

    /// The empty map.
    pub fn new() -> (r: NumberMap<V>)
        ensures
            r@ == Map::<i64, V>::empty(),
    {
        let r = NumberMap { keys: Vec::new(), vals: Vec::new() };
        assert(r@ =~= Map::<i64, V>::empty());
        r
    }

    fn locate(&self, k: i64) -> (r: Option<usize>)
        ensures
            match r {
                Some(i) => i < self.keys@.len() && self.keys@[i as int] == k,
                None => !self.keys@.contains(k),
            },
    {
        let mut i: usize = 0;
        while i < self.keys.len()
            invariant
                i <= self.keys@.len(),
                forall|j: int| 0 <= j < i ==> self.keys@[j] != k,
            decreases self.keys@.len() - i,
        {
            if self.keys[i] == k {
                return Some(i);
            }
            i += 1;
        }
        None
    }

    /// The value of a number.
    pub fn get(&self, k: i64) -> (r: Option<&V>)
        ensures
            match r {
                Some(v) => self@.contains_key(k) && *v == self@[k],
                None => !self@.contains_key(k),
            },
    {
        match self.locate(k) {
            Some(i) => {
                proof {
                    use_type_invariant(self);
                    lemma_paired(self.keys@, self.vals@, i as int);
                }
                Some(&self.vals[i])
            },
            None => None,
        }
    }

    /// Gives a number a value, in place of the one it had.
    pub fn put(&mut self, k: i64, v: V)
        ensures
            final(self)@ == old(self)@.insert(k, v),
    {
        self.remove(k);
        proof {
            use_type_invariant(&*self);
        }
        let ghost before = self@;
        let ghost k0 = self.keys@;
        let ghost v0 = self.vals@;
        let mut old_map: NumberMap<V> = NumberMap::new();
        std::mem::swap(self, &mut old_map);
        let NumberMap { mut keys, mut vals } = old_map;
        keys.push(k);
        vals.push(v);
        proof {
            assert(!k0.contains(k)) by {
                assert(!before.contains_key(k));
            }
            assert forall|i: int, j: int| 0 <= i < j < keys@.len() implies #[trigger] keys@[i]
                != #[trigger] keys@[j] by {
                assert(keys@[i] == k0[i]);
                if j < k0.len() {
                    assert(keys@[j] == k0[j]);
                }
            }
            let m = paired(keys@, vals@);
            let want = before.insert(k, v);
            assert forall|x: i64| m.contains_key(x) == want.contains_key(x) by {
                if k0.contains(x) {
                    let i = choose|i: int| 0 <= i < k0.len() && k0[i] == x;
                    assert(keys@[i] == x);
                }
                assert(keys@[k0.len() as int] == k);
                if keys@.contains(x) {
                    let i = choose|i: int| 0 <= i < keys@.len() && keys@[i] == x;
                    if i < k0.len() {
                        assert(k0[i] == x);
                    }
                }
            }
            assert forall|x: i64| m.contains_key(x) implies m[x] == want[x] by {
                let i = choose|i: int| 0 <= i < keys@.len() && keys@[i] == x;
                lemma_paired(keys@, vals@, i);
                if i < k0.len() {
                    assert(k0[i] == x);
                    lemma_paired(k0, v0, i);
                }
            }
            assert(m =~= want);
            assert(want =~= old(self)@.insert(k, v));
        }
        *self = NumberMap { keys, vals };
    }

    /// Takes a number out.
    pub fn remove(&mut self, k: i64)
        ensures
            final(self)@ == old(self)@.remove(k),
    {
        proof {
            use_type_invariant(&*self);
        }
        let ghost before = self@;
        let ghost k0 = self.keys@;
        let ghost v0 = self.vals@;
        let pos: usize = match self.locate(k) {
            Some(i) => i,
            None => {
                assert(before.remove(k) =~= before);
                return;
            },
        };
        let mut old_map: NumberMap<V> = NumberMap::new();
        std::mem::swap(self, &mut old_map);
        let NumberMap { mut keys, mut vals } = old_map;
        keys.remove(pos);
        vals.remove(pos);
        proof {
            assert forall|i: int| 0 <= i < keys@.len() implies keys@[i] == k0[if i < pos {
                i
            } else {
                i + 1
            }] && vals@[i] == v0[if i < pos {
                i
            } else {
                i + 1
            }] by {}
            assert forall|i: int, j: int| 0 <= i < j < keys@.len() implies #[trigger] keys@[i]
                != #[trigger] keys@[j] by {
                assert(keys@[i] == k0[if i < pos { i } else { i + 1 }]);
                assert(keys@[j] == k0[if j < pos { j } else { j + 1 }]);
            }
            let m = paired(keys@, vals@);
            let want = before.remove(k);
            assert forall|x: i64| m.contains_key(x) == want.contains_key(x) by {
                if keys@.contains(x) {
                    let i = choose|i: int| 0 <= i < keys@.len() && keys@[i] == x;
                    let j = if i < pos {
                        i
                    } else {
                        i + 1
                    };
                    assert(k0[j] == x);
                    assert(k0[pos as int] == k);
                }
                if k0.contains(x) && x != k {
                    let i = choose|i: int| 0 <= i < k0.len() && k0[i] == x;
                    assert(keys@[if i < pos { i } else { i - 1 }] == x);
                }
            }
            assert forall|x: i64| m.contains_key(x) implies m[x] == want[x] by {
                let i = choose|i: int| 0 <= i < keys@.len() && keys@[i] == x;
                lemma_paired(keys@, vals@, i);
                lemma_paired(k0, v0, if i < pos { i } else { i + 1 });
            }
            assert(m =~= want);
        }
        *self = NumberMap { keys, vals };
    }
}

impl NumberMap<usize> {
    /// A map with the same numbers and values.
    pub fn dup(&self) -> (r: NumberMap<usize>)
        ensures
            r@ == self@,
    {
        proof {
            use_type_invariant(self);
        }
        let keys = self.keys.clone();
        let vals = self.vals.clone();
        assert(keys@ =~= self.keys@);
        assert(vals@ =~= self.vals@);
        NumberMap { keys, vals }
    }

    /// Takes over, from another map, the numbers that this one has not.
    pub fn fill_from(&mut self, other: &NumberMap<usize>)
        ensures
            final(self)@ == other@.union_prefer_right(old(self)@),
    {
        proof {
            use_type_invariant(other);
        }
        let ghost before = self@;
        let n: usize = other.keys.len();
        let ghost keys = other.keys@;
        let mut i: usize = 0;
        while i < n
            invariant
                i <= n,
                n == keys.len(),
                keys == other.keys@,
                other.vals@.len() == n,
                no_repeats(keys),
                other@ == paired(other.keys@, other.vals@),
                forall|k: i64|
                    #[trigger] self@.contains_key(k) <==> before.contains_key(k) || keys.take(
                        i as int,
                    ).contains(k),
                forall|k: i64|
                    #[trigger] self@.contains_key(k) ==> self@[k] == (if before.contains_key(k) {
                        before[k]
                    } else {
                        other@[k]
                    }),
            decreases n - i,
        {
            let k: i64 = other.keys[i];
            let ghost now = self@;
            proof {
                lemma_paired(other.keys@, other.vals@, i as int);
            }
            if self.get(k).is_none() {
                self.put(k, other.vals[i]);
            }
            proof {
                let a = keys.take(i as int);
                let b = keys.take(i + 1);
                assert forall|x: i64| b.contains(x) == (a.contains(x) || x == k) by {
                    if a.contains(x) {
                        let j = choose|j: int| 0 <= j < a.len() && a[j] == x;
                        assert(b[j] == x);
                    }
                    assert(b[i as int] == k);
                    if b.contains(x) {
                        let j = choose|j: int| 0 <= j < b.len() && b[j] == x;
                        if j < i {
                            assert(a[j] == x);
                        }
                    }
                }
            }
            i += 1;
        }
        assert(keys.take(n as int) =~= keys);
        assert(self@ =~= other@.union_prefer_right(before));
    }
}

} // verus!
