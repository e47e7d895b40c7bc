//! Sequences of key/value entries with string keys: the shared model of
//! the in-memory index and the on-disk store, with first-occurrence
//! lookup, in-place replacement, and removal.

use vstd::prelude::*;

verus! {

/// Some entry carries key `k`.
pub open spec fn has_key<T>(v: Seq<(Seq<char>, T)>, k: Seq<char>) -> bool {
    exists|i: int| 0 <= i < v.len() && (#[trigger] v[i]).0 == k
}

/// Index of the first entry carrying key `k` (meaningful when one does).
pub open spec fn first_key_index<T>(v: Seq<(Seq<char>, T)>, k: Seq<char>) -> int
    decreases v.len(),
{
    if v.len() == 0 {
        0
    } else if v[0].0 == k {
        0
    } else {
        1 + first_key_index(v.drop_first(), k)
    }
}

/// The value bound to key `k`, if any.
pub open spec fn spec_lookup<T>(v: Seq<(Seq<char>, T)>, k: Seq<char>) -> Option<T> {
    if has_key(v, k) {
        Some(v[first_key_index(v, k)].1)
    } else {
        None
    }
}

/// Well-formedness: no key occurs twice.
pub open spec fn keyed_wf<T>(v: Seq<(Seq<char>, T)>) -> bool {
    forall|i: int, j: int| 0 <= i < j < v.len() ==> (#[trigger] v[i]).0 != (#[trigger] v[j]).0
}

/// The sequence after binding `k` to `r`: the existing entry is replaced
/// in place, or a new entry is appended.
pub open spec fn spec_insert<T>(v: Seq<(Seq<char>, T)>, k: Seq<char>, r: T) -> Seq<
    (Seq<char>, T),
> {
    if has_key(v, k) {
        v.update(first_key_index(v, k), (k, r))
    } else {
        v.push((k, r))
    }
}

/// The sequence after removing key `k`, if present.
pub open spec fn spec_remove<T>(v: Seq<(Seq<char>, T)>, k: Seq<char>) -> Seq<(Seq<char>, T)> {
    if has_key(v, k) {
        v.remove(first_key_index(v, k))
    } else {
        v
    }
}

/// When some entry carries key `k`, `first_key_index` names the first one.
pub proof fn lemma_first_key_index<T>(v: Seq<(Seq<char>, T)>, k: Seq<char>)
    requires
        has_key(v, k),
    ensures
        0 <= first_key_index(v, k) < v.len(),
        v[first_key_index(v, k)].0 == k,
        forall|j: int| 0 <= j < first_key_index(v, k) ==> (#[trigger] v[j]).0 != k,
    decreases v.len(),
{
    if v.len() == 0 {
    } else if v[0].0 == k {
    } else {
        let w = v.drop_first();
        assert(forall|j: int| 0 <= j < w.len() ==> #[trigger] w[j] == v[j + 1]);
        assert(has_key(w, k)) by {
            let i = choose|i: int| 0 <= i < v.len() && (#[trigger] v[i]).0 == k;
            assert(w[i - 1] == v[i]);
        }
        lemma_first_key_index(w, k);
        assert forall|j: int| 0 <= j < first_key_index(v, k) implies (#[trigger] v[j]).0
            != k by {
            if j > 0 {
                assert(w[j - 1] == v[j]);
            }
        }
    }
}

/// An entry carrying `k` with none before it is the first: `first_key_index`
/// computes exactly that position.
pub proof fn lemma_first_key_index_at<T>(v: Seq<(Seq<char>, T)>, k: Seq<char>, i: int)
    requires
        0 <= i < v.len(),
        v[i].0 == k,
        forall|j: int| 0 <= j < i ==> (#[trigger] v[j]).0 != k,
    ensures
        has_key(v, k),
        first_key_index(v, k) == i,
    decreases i,
{
    if i == 0 {
    } else {
        let w = v.drop_first();
        assert(forall|j: int| 0 <= j < w.len() ==> #[trigger] w[j] == v[j + 1]);
        lemma_first_key_index_at(w, k, i - 1);
    }
}

/// What binding a key promises: the bound key serves the new value,
/// every other key is untouched, and well-formedness is preserved.
pub proof fn lemma_insert_props<T>(v: Seq<(Seq<char>, T)>, k: Seq<char>, r: T)
    requires
        keyed_wf(v),
    ensures
        keyed_wf(spec_insert(v, k, r)),
        spec_lookup(spec_insert(v, k, r), k) == Some(r),
        forall|k2: Seq<char>|
            k2 != k ==> #[trigger] spec_lookup(spec_insert(v, k, r), k2) == spec_lookup(v, k2),
        has_key(v, k) ==> spec_insert(v, k, r).len() == v.len(),
        !has_key(v, k) ==> spec_insert(v, k, r).len() == v.len() + 1,
{
    let w = spec_insert(v, k, r);
    if has_key(v, k) {
        lemma_first_key_index(v, k);
        let f = first_key_index(v, k);
        assert(forall|j: int| 0 <= j < w.len() ==> (#[trigger] w[j]).0 == v[j].0);
        lemma_first_key_index_at(w, k, f);
        assert(spec_lookup(w, k) == Some(r));
        assert forall|k2: Seq<char>| k2 != k implies #[trigger] spec_lookup(w, k2) == spec_lookup(
            v,
            k2,
        ) by {
            if has_key(v, k2) {
                lemma_first_key_index(v, k2);
                let f2 = first_key_index(v, k2);
                assert(f2 != f);
                assert(w[f2].0 == k2);
                lemma_first_key_index_at(w, k2, f2);
                assert(w[f2].1 == v[f2].1);
            } else {
                if has_key(w, k2) {
                    let i = choose|i: int| 0 <= i < w.len() && (#[trigger] w[i]).0 == k2;
                    assert(v[i].0 == k2);
                }
            }
        }
    } else {
        assert(forall|j: int| 0 <= j < v.len() ==> (#[trigger] v[j]).0 != k);
        assert(forall|j: int| 0 <= j < v.len() ==> (#[trigger] w[j]) == v[j]);
        assert(w[v.len() as int].0 == k);
        lemma_first_key_index_at(w, k, v.len() as int);
        assert(spec_lookup(w, k) == Some(r));
        assert forall|k2: Seq<char>| k2 != k implies #[trigger] spec_lookup(w, k2) == spec_lookup(
            v,
            k2,
        ) by {
            if has_key(v, k2) {
                lemma_first_key_index(v, k2);
                lemma_first_key_index_at(w, k2, first_key_index(v, k2));
            } else {
                if has_key(w, k2) {
                    let i = choose|i: int| 0 <= i < w.len() && (#[trigger] w[i]).0 == k2;
                    assert(i < v.len() ==> v[i].0 == k2);
                    assert(i == v.len() ==> w[i].0 == k);
                }
            }
        }
        assert(keyed_wf(w)) by {
            assert forall|i: int, j: int| 0 <= i < j < w.len() implies (#[trigger] w[i]).0 != (
            #[trigger] w[j]).0 by {
                if j == v.len() {
                    assert(w[i].0 == v[i].0);
                    assert(v[i].0 != k);
                }
            }
        }
    }
}

/// What removing a key promises: the key is gone, every other key is
/// untouched, and well-formedness is preserved.
pub proof fn lemma_remove_props<T>(v: Seq<(Seq<char>, T)>, k: Seq<char>)
    requires
        keyed_wf(v),
    ensures
        keyed_wf(spec_remove(v, k)),
        spec_lookup(spec_remove(v, k), k) is None,
        forall|k2: Seq<char>|
            k2 != k ==> #[trigger] spec_lookup(spec_remove(v, k), k2) == spec_lookup(v, k2),
{
    let w = spec_remove(v, k);
    if has_key(v, k) {
        lemma_first_key_index(v, k);
        let f = first_key_index(v, k);
        assert(forall|j: int| 0 <= j < f ==> #[trigger] w[j] == v[j]);
        assert(forall|j: int| f <= j < w.len() ==> #[trigger] w[j] == v[j + 1]);
        assert(keyed_wf(w));
        assert(!has_key(w, k)) by {
            if has_key(w, k) {
                let i = choose|i: int| 0 <= i < w.len() && (#[trigger] w[i]).0 == k;
                if i < f {
                    assert(v[i].0 == k);
                } else {
                    assert(v[i + 1].0 == k);
                    assert(v[f].0 == k);
                }
            }
        }
        assert forall|k2: Seq<char>| k2 != k implies #[trigger] spec_lookup(w, k2) == spec_lookup(
            v,
            k2,
        ) by {
            if has_key(v, k2) {
                lemma_first_key_index(v, k2);
                let f2 = first_key_index(v, k2);
                assert(f2 != f);
                if f2 < f {
                    assert(w[f2].0 == k2);
                    lemma_first_key_index_at(w, k2, f2);
                } else {
                    assert(w[f2 - 1] == v[f2]);
                    assert(forall|j: int| 0 <= j < f2 - 1 ==> (#[trigger] w[j]).0 != k2) by {
                        assert(forall|j: int|
                            0 <= j < f ==> #[trigger] w[j] == v[j] && v[j].0 != k2);
                        assert(forall|j: int|
                            f <= j < f2 - 1 ==> #[trigger] w[j] == v[j + 1] && v[j + 1].0 != k2);
                    }
                    lemma_first_key_index_at(w, k2, f2 - 1);
                }
            } else {
                if has_key(w, k2) {
                    let i = choose|i: int| 0 <= i < w.len() && (#[trigger] w[i]).0 == k2;
                    assert(i < f ==> v[i].0 == k2);
                    assert(i >= f ==> v[i + 1].0 == k2);
                }
            }
        }
    }
}

} // verus!
