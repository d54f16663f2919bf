//! The markings that a search has met, in the order in which it met them.
//!
//! A marking is found again through a hash of its counts: `newest` leads to
//! the last marking with a given hash, and `older` from each marking to the
//! one before it with the same hash.
use std::collections::HashMap;
use vstd::prelude::*;
use vstd::slice::slice_to_vec;

verus! {

broadcast use vstd::std_specs::hash::group_hash_axioms;

/// A hash of the first `k` counts of a marking.
pub open spec fn hash_of(m: Seq<u32>, k: nat) -> u64
    decreases k,
{
    if k == 0 {
        0xcbf2_9ce4_8422_2325
    } else {
        (hash_of(m, (k - 1) as nat) ^ (m[k - 1] as u64)).wrapping_mul(0x0000_0100_0000_01b3)
    }
}

fn hash(m: &[u32]) -> (h: u64)
    ensures
        h == hash_of(m@, m@.len()),
{
    let mut h: u64 = 0xcbf2_9ce4_8422_2325;
    let mut k: usize = 0;
    while k < m.len()
        invariant
            k <= m.len(),
            h == hash_of(m@, k as nat),
        decreases m.len() - k,
    {
        h = (h ^ (m[k] as u64)).wrapping_mul(0x0000_0100_0000_01b3);
        k = k + 1;
    }
    h
}

fn same(a: &[u32], b: &[u32]) -> (r: bool)
    ensures
        r == (a@ == b@),
{
    if a.len() != b.len() {
        return false;
    }
    let mut i: usize = 0;
    while i < a.len()
        invariant
            i <= a.len(),
            a@.len() == b@.len(),
            forall|j: int| 0 <= j < i ==> a@[j] == b@[j],
        decreases a.len() - i,
    {
        if a[i] != b[i] {
            assert(a@[i as int] != b@[i as int]);
            return false;
        }
        i = i + 1;
    }
    assert(a@ =~= b@);
    true
}

/// Distinct markings, in the order in which they were met.
pub struct Visited {
    all: Vec<Vec<u32>>,
    older: Vec<Option<usize>>,
    newest: HashMap<u64, usize>,
}

impl View for Visited {
    type V = Seq<Seq<u32>>;

    closed spec fn view(&self) -> Seq<Seq<u32>> {
        Seq::new(self.all@.len(), |i: int| self.all@[i]@)
    }
}

/// The hash of the marking at position `i`.
spec fn hash_at(ms: Seq<Seq<u32>>, i: int) -> u64 {
    hash_of(ms[i], ms[i].len())
}

impl Visited {
    /// No marking occurs twice, and the links reach every marking.
    pub closed spec fn inv(self) -> bool {
        let ms = self@;
        &&& ms.no_duplicates()
        &&& self.older@.len() == ms.len()
        &&& forall|i: int| 0 <= i < ms.len() ==> Self::linked(ms, i, #[trigger] self.older@[i])
        &&& forall|h: u64| #[trigger]
            self.newest@.contains_key(h) ==> self.newest@[h] < ms.len() && hash_at(
                ms,
                self.newest@[h] as int,
            ) == h && forall|j: int|
                self.newest@[h] < j < ms.len() ==> #[trigger] hash_at(ms, j) != h
        &&& forall|i: int|
            0 <= i < ms.len() ==> self.newest@.contains_key(#[trigger] hash_at(ms, i))
    }

    /// `link` is the last position before `i` with the hash of `i`, if any.
    spec fn linked(ms: Seq<Seq<u32>>, i: int, link: Option<usize>) -> bool {
        match link {
            None => forall|j: int| 0 <= j < i ==> #[trigger] hash_at(ms, j) != hash_at(ms, i),
            Some(k) => k < i && hash_at(ms, k as int) == hash_at(ms, i) && forall|j: int|
                k < j < i ==> #[trigger] hash_at(ms, j) != hash_at(ms, i),
        }
    }

    /// Nothing met yet.
    pub fn new() -> (v: Visited)
        ensures
            v.inv(),
            v@ == Seq::<Seq<u32>>::empty(),
    {
        let v = Visited { all: Vec::new(), older: Vec::new(), newest: HashMap::new() };
        assert(v@ =~= Seq::<Seq<u32>>::empty());
        v
    }

    /// How many markings were met.
    pub fn len(&self) -> (n: usize)
        ensures
            n == self@.len(),
    {
        self.all.len()
    }

    /// The marking at position `i`.
    pub fn get(&self, i: usize) -> (m: Vec<u32>)
        requires
            i < self@.len(),
        ensures
            m@ == self@[i as int],
    {
        slice_to_vec(self.all[i].as_slice())
    }

    /// Adds `m` at the end unless it was met before; says whether it is new.
    pub fn insert(&mut self, m: Vec<u32>) -> (fresh: bool)
        requires
            old(self).inv(),
        ensures
            final(self).inv(),
            fresh == !old(self)@.contains(m@),
            final(self)@ == (if old(self)@.contains(m@) {
                old(self)@
            } else {
                old(self)@.push(m@)
            }),
    {
        let ghost ms = self@;
        let h = hash(m.as_slice());
        let first: Option<usize> = match self.newest.get(&h) {
            None => None,
            Some(i) => Some(*i),
        };
        proof {
            let low: int = match first {
                None => -1,
                Some(k) => k as int,
            };
            assert forall|j: int| low < j < ms.len() implies #[trigger] ms[j] != m@ by {
                assert(self.newest@.contains_key(hash_at(ms, j)));
                assert(hash_at(ms, j) != h);
            }
        }
        let mut at: Option<usize> = first;
        while at.is_some()
            invariant
                self.inv(),
                *self == *old(self),
                ms == self@,
                h == hash_of(m@, m@.len()),
                match at {
                    None => forall|j: int| 0 <= j < ms.len() ==> #[trigger] ms[j] != m@,
                    Some(i) => i < ms.len() && hash_at(ms, i as int) == h && forall|j: int|
                        i < j < ms.len() ==> #[trigger] ms[j] != m@,
                },
            decreases
                match at {
                    None => 0,
                    Some(i) => i + 1,
                },
        {
            let i: usize = at.unwrap();
            if same(self.all[i].as_slice(), m.as_slice()) {
                assert(ms[i as int] == m@);
                return false;
            }
            at = self.older[i];
            proof {
                assert(Self::linked(ms, i as int, at));
                let low: int = match at {
                    None => -1,
                    Some(k) => k as int,
                };
                assert forall|j: int| low < j < ms.len() implies #[trigger] ms[j] != m@ by {
                    if j < i {
                        assert(hash_at(ms, j) != h);
                    }
                }
            }
        }
        assert(!ms.contains(m@));
        let n = self.all.len();
        let ghost mv = m@;
        self.all.push(m);
        self.older.push(first);
        self.newest.insert(h, n);
        proof {
            let now = self@;
            assert(now =~= ms.push(mv));
            assert forall|j: int| 0 <= j < ms.len() implies #[trigger] hash_at(now, j) == hash_at(
                ms,
                j,
            ) by {}
            assert(hash_at(now, n as int) == h);
            assert forall|i: int| 0 <= i < now.len() implies Self::linked(
                now,
                i,
                #[trigger] self.older@[i],
            ) by {
                if i < n {
                    assert(Self::linked(ms, i, old(self).older@[i]));
                }
            }
            assert forall|g: u64| #[trigger] self.newest@.contains_key(g) implies self.newest@[g]
                < now.len() && hash_at(now, self.newest@[g] as int) == g && forall|j: int|
                self.newest@[g] < j < now.len() ==> #[trigger] hash_at(now, j) != g by {
                if g != h {
                    assert(old(self).newest@.contains_key(g));
                }
            }
            assert forall|i: int| 0 <= i < now.len() implies self.newest@.contains_key(
                #[trigger] hash_at(now, i),
            ) by {
                if i < n {
                    assert(old(self).newest@.contains_key(hash_at(ms, i)));
                }
            }
        }
        true
    }
}

} // verus!
