//! Per-reference single-flight tracking for pulls. One global lock
//! around the registry client would serialize every pull behind every
//! other; instead the program tracks which references are being pulled
//! and starts a new pull only for a reference not already in flight, so
//! pulls of distinct references proceed concurrently while a duplicate
//! request waits for the first to finish. The decisions are verified
//! here; the waiting itself is the caller's event loop.

use vstd::prelude::*;

verus! {

/// Reference `k` is being pulled.
pub open spec fn in_flight(v: Seq<Seq<char>>, k: Seq<char>) -> bool {
    exists|i: int| 0 <= i < v.len() && #[trigger] v[i] == k
}

/// Index of the first occurrence of `k` (meaningful when one exists).
pub open spec fn first_flight_index(v: Seq<Seq<char>>, k: Seq<char>) -> int
    decreases v.len(),
{
    if v.len() == 0 {
        0
    } else if v[0] == k {
        0
    } else {
        1 + first_flight_index(v.drop_first(), k)
    }
}

/// The set of references currently being pulled.
pub struct PullTracker {
    keys: Vec<String>,
}

impl View for PullTracker {
    type V = Seq<Seq<char>>;

    closed spec fn view(&self) -> Seq<Seq<char>> {
        Seq::new(self.keys@.len(), |i: int| self.keys@[i]@)
    }
}

impl PullTracker {
    /// A tracker with nothing in flight.
    pub fn new() -> (r: Self)
        ensures
            r@ == Seq::<Seq<char>>::empty(),
    {
        let r = PullTracker { keys: Vec::new() };
        proof {
            assert(r@ =~= Seq::<Seq<char>>::empty());
        }
        r
    }

    /// Position of the first occurrence of `key`, if any.
    fn find(&self, key: &str) -> (r: Option<usize>)
        ensures
            match r {
                Some(i) => in_flight(self@, key@) && i < self@.len() && self@[i as int] == key@,
                None => !in_flight(self@, key@),
            },
    {
        let n = self.keys.len();
        let mut k: usize = 0;
        while k < n
            invariant
                k <= n,
                n == self@.len(),
                n == self.keys@.len(),
                forall|j: int| 0 <= j < k ==> #[trigger] self@[j] != key@,
            decreases n - k,
        {
            if crate::strutil::str_eq(self.keys[k].as_str(), key) {
                proof {
                    assert(self@[k as int] == key@);
                }
                return Some(k);
            }
            proof {
                assert(self@[k as int] == self.keys@[k as int]@);
            }
            k += 1;
        }
        proof {
            if in_flight(self@, key@) {
                let i = choose|i: int| 0 <= i < self@.len() && #[trigger] self@[i] == key@;
            }
        }
        None
    }

    /// Tries to start a pull of `key`: starts it — and records it — only
    /// when no pull of the same reference is in flight. A pull of a
    /// different reference never stands in the way.
    pub fn begin(&mut self, key: &str) -> (started: bool)
        ensures
            started == !in_flight(old(self)@, key@),
            started ==> final(self)@ == old(self)@.push(key@),
            !started ==> final(self)@ == old(self)@,
    {
        match self.find(key) {
            Some(_) => false,
            None => {
                self.keys.push(key.to_owned());
                proof {
                    assert(self@ =~= old(self)@.push(key@));
                }
                true
            },
        }
    }

    /// Marks the pull of `key` finished: removes its first occurrence.
    pub fn finish(&mut self, key: &str)
        ensures
            in_flight(old(self)@, key@) ==> final(self)@.len() == old(self)@.len() - 1,
            !in_flight(old(self)@, key@) ==> final(self)@ == old(self)@,
            !in_flight(old(self)@, key@) || exists|i: int|
                0 <= i < old(self)@.len() && old(self)@[i] == key@ && final(self)@ == old(
                    self,
                )@.remove(i),
    {
        match self.find(key) {
            Some(i) => {
                self.keys.remove(i);
                proof {
                    assert(self@ =~= old(self)@.remove(i as int));
                    assert((i as int) < old(self)@.len() && old(self)@[i as int] == key@ && self@
                        == old(self)@.remove(i as int));
                }
            },
            None => {},
        }
    }

    /// Number of pulls in flight.
    pub fn len(&self) -> (n: usize)
        ensures
            n == self@.len(),
    {
        self.keys.len()
    }
}

/// Pulls of distinct references proceed concurrently: starting a pull of
/// one reference never makes another reference in flight, so after a
/// pull of `k1` starts, a pull of any other reference `k2` still starts.
pub proof fn lemma_distinct_pulls_concurrent(v: Seq<Seq<char>>, k1: Seq<char>, k2: Seq<char>)
    requires
        k1 != k2,
        !in_flight(v, k1),
        !in_flight(v, k2),
    ensures
        !in_flight(v.push(k1), k2),
        in_flight(v.push(k1), k1),
{
    let w = v.push(k1);
    assert(w[v.len() as int] == k1);
    if in_flight(w, k2) {
        let i = choose|i: int| 0 <= i < w.len() && #[trigger] w[i] == k2;
        assert(i < v.len() ==> v[i] == k2);
    }
}

/// Only a pull of the same reference is coalesced: while `k` is in
/// flight a second pull of `k` does not start.
pub proof fn lemma_same_pull_coalesced(v: Seq<Seq<char>>, k: Seq<char>)
    requires
        !in_flight(v, k),
    ensures
        in_flight(v.push(k), k),
{
    assert(v.push(k)[v.len() as int] == k);
}

} // verus!
