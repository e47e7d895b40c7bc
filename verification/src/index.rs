//! The in-memory image index: a mapping from reference string to image
//! record, rebuilt from disk at startup and serving all lookups. Keys
//! are unique; a lookup by identifier prefix applies a pinned policy:
//! the first record in index order when every match carries the same
//! identifier, an ambiguity error when two matches differ.

use vstd::prelude::*;

use crate::errors::ImageError;
use crate::records::{CriusImage, ImageRecordView};
use crate::keyed::{has_key, first_key_index, spec_lookup, keyed_wf, spec_insert, spec_remove, lemma_first_key_index, lemma_first_key_index_at, lemma_insert_props, lemma_remove_props};
use crate::strutil::is_prefix_of;

verus! {

/// An entry seen mathematically: the key and the record it serves.
pub type EntryView = (Seq<char>, ImageRecordView);

/// `p` names identifier `id` as a prefix: of the identifier itself, or
/// of its hex part after the `sha256:` scheme, so a caller may truncate
/// either form.
pub open spec fn id_prefix_match(p: Seq<char>, id: Seq<char>) -> bool {
    is_prefix_of(p, id) || (id.len() >= 7 && id.subrange(0, 7)
        == crate::reference::sha256_prefix() && is_prefix_of(p, id.subrange(7, id.len() as int)))
}

/// Entry `i` exists and `p` names its record's identifier.
pub open spec fn id_match(v: Seq<EntryView>, p: Seq<char>, i: int) -> bool {
    0 <= i < v.len() && id_prefix_match(p, v[i].1.id)
}

/// No entry's identifier starts with `p`.
pub open spec fn prefix_missing(v: Seq<EntryView>, p: Seq<char>) -> bool {
    forall|i: int| !#[trigger] id_match(v, p, i)
}

/// Two entries with distinct identifiers both start with `p`.
pub open spec fn prefix_ambiguous(v: Seq<EntryView>, p: Seq<char>) -> bool {
    exists|i: int, j: int|
        #[trigger] id_match(v, p, i) && #[trigger] id_match(v, p, j) && v[i].1.id != v[j].1.id
}

/// Index of the first entry whose identifier starts with `p`.
pub open spec fn first_match_index(v: Seq<EntryView>, p: Seq<char>) -> int
    decreases v.len(),
{
    if v.len() == 0 {
        0
    } else if id_prefix_match(p, v[0].1.id) {
        0
    } else {
        1 + first_match_index(v.drop_first(), p)
    }
}

/// Whether `p@` names `id@` under the prefix policy.
fn id_matches_prefix(id: &str, p: &str) -> (b: bool)
    ensures
        b == id_prefix_match(p@, id@),
{
    if crate::strutil::str_has_prefix(id, p) {
        return true;
    }
    let n = id.unicode_len();
    let lit = "sha256:";
    proof {
        reveal_strlit("sha256:");
        assert(lit@ =~= crate::reference::sha256_prefix());
    }
    if n >= 7 && crate::metajson::starts_with_lit(id, 0, lit) {
        let hex = id.substring_char(7, n);
        proof {
            assert(id@.subrange(0, 7) == crate::reference::sha256_prefix());
        }
        crate::strutil::str_has_prefix(hex, p)
    } else {
        proof {
            if id@.len() >= 7 {
                assert(id@.subrange(0, 7) != crate::reference::sha256_prefix());
            }
        }
        false
    }
}

/// The same, for identifier-prefix matches.
pub proof fn lemma_first_match_index_at(v: Seq<EntryView>, p: Seq<char>, i: int)
    requires
        id_match(v, p, i),
        forall|j: int| 0 <= j < i ==> !#[trigger] id_match(v, p, j),
    ensures
        first_match_index(v, p) == i,
    decreases i,
{
    if i == 0 {
    } else {
        let w = v.drop_first();
        assert(forall|j: int| 0 <= j < w.len() ==> #[trigger] w[j] == v[j + 1]);
        assert(id_match(w, p, i - 1));
        assert forall|j: int| 0 <= j < i - 1 implies !#[trigger] id_match(w, p, j) by {
            assert(w[j] == v[j + 1]);
            assert(!id_match(v, p, j + 1));
        }
        assert(!id_prefix_match(p, v[0].1.id)) by {
            assert(!id_match(v, p, 0));
        }
        lemma_first_match_index_at(w, p, i - 1);
    }
}

/// The in-memory index.
pub struct ImageIndex {
    entries: Vec<(String, CriusImage)>,
}

impl View for ImageIndex {
    type V = Seq<EntryView>;

    closed spec fn view(&self) -> Seq<EntryView> {
        Seq::new(self.entries@.len(), |i: int| (self.entries@[i].0@, self.entries@[i].1@))
    }
}

impl ImageIndex {
    /// Well-formedness: no key occurs twice.
    pub open spec fn wf(&self) -> bool {
        keyed_wf(self@)
    }

    /// An empty index.
    pub fn new() -> (r: Self)
        ensures
            r@ == Seq::<EntryView>::empty(),
            r.wf(),
    {
        let r = ImageIndex { entries: Vec::new() };
        proof {
            assert(r@ =~= Seq::<EntryView>::empty());
        }
        r
    }

    /// Number of entries.
    pub fn len(&self) -> (n: usize)
        ensures
            n == self@.len(),
    {
        self.entries.len()
    }

    /// Position of the entry carrying `key`, if any.
    fn find(&self, key: &str) -> (r: Option<usize>)
        ensures
            match r {
                Some(i) => has_key(self@, key@) && i as int == first_key_index(self@, key@) && i
                    < self@.len(),
                None => !has_key(self@, key@),
            },
    {
        let n = self.entries.len();
        let mut k: usize = 0;
        while k < n
            invariant
                k <= n,
                n == self@.len(),
                n == self.entries@.len(),
                forall|j: int| 0 <= j < k ==> (#[trigger] self@[j]).0 != key@,
            decreases n - k,
        {
            if crate::strutil::str_eq(self.entries[k].0.as_str(), key) {
                proof {
                    assert(self@[k as int].0 == key@);
                    lemma_first_key_index_at(self@, key@, k as int);
                }
                return Some(k);
            }
            proof {
                assert(self@[k as int].0 == self.entries@[k as int].0@);
            }
            k += 1;
        }
        proof {
            if has_key(self@, key@) {
                let i = choose|i: int| 0 <= i < self@.len() && (#[trigger] self@[i]).0 == key@;
            }
        }
        None
    }

    /// Exact-key lookup: the record bound to `key`, if any.
    pub fn lookup(&self, key: &str) -> (r: Option<CriusImage>)
        ensures
            match r {
                Some(img) => spec_lookup(self@, key@) == Some(img@),
                None => spec_lookup(self@, key@) is None,
            },
    {
        match self.find(key) {
            Some(i) => Some(self.entries[i].1.clone()),
            None => None,
        }
    }

    /// Binds `key` to `image`, replacing an existing binding in place.
    pub fn insert(&mut self, key: &str, image: CriusImage)
        requires
            old(self).wf(),
        ensures
            final(self).wf(),
            final(self)@ == spec_insert(old(self)@, key@, image@),
    {
        proof {
            lemma_insert_props(old(self)@, key@, image@);
        }
        match self.find(key) {
            Some(i) => {
                self.entries.set(i, (key.to_owned(), image));
                proof {
                    assert(self@ =~= spec_insert(old(self)@, key@, image@));
                }
            },
            None => {
                self.entries.push((key.to_owned(), image));
                proof {
                    assert(self@ =~= spec_insert(old(self)@, key@, image@));
                }
            },
        }
    }

    /// Removes the binding of `key`; an absent key changes nothing.
    pub fn remove(&mut self, key: &str) -> (r: Option<CriusImage>)
        requires
            old(self).wf(),
        ensures
            final(self).wf(),
            final(self)@ == spec_remove(old(self)@, key@),
            match r {
                Some(img) => has_key(old(self)@, key@) && Some(img@) == spec_lookup(
                    old(self)@,
                    key@,
                ),
                None => !has_key(old(self)@, key@) && final(self)@ == old(self)@,
            },
    {
        proof {
            lemma_remove_props(old(self)@, key@);
        }
        match self.find(key) {
            Some(i) => {
                let (_, img) = self.entries.remove(i);
                proof {
                    assert(self@ =~= spec_remove(old(self)@, key@));
                }
                Some(img)
            },
            None => None,
        }
    }

    /// Identifier-prefix lookup under the pinned policy: the first match
    /// when all matches agree on the identifier, `Ambiguous` when two
    /// matches differ, `NotFound` when nothing matches.
    pub fn lookup_by_id_prefix(&self, prefix: &str) -> (r: Result<CriusImage, ImageError>)
        ensures
            match r {
                Ok(img) => !prefix_missing(self@, prefix@) && !prefix_ambiguous(self@, prefix@)
                    && img@ == self@[first_match_index(self@, prefix@)].1,
                Err(e) => (e == ImageError::NotFound && prefix_missing(self@, prefix@)) || (e
                    == ImageError::Ambiguous && prefix_ambiguous(self@, prefix@)),
            },
    {
        let n = self.entries.len();
        let mut found: Option<usize> = None;
        let mut k: usize = 0;
        while k < n
            invariant
                k <= n,
                n == self@.len(),
                n == self.entries@.len(),
                match found {
                    Some(f) => f < k && id_match(self@, prefix@, f as int) && (forall|j: int|
                        0 <= j < f ==> !#[trigger] id_match(self@, prefix@, j)) && (forall|j: int|
                        0 <= j < k && #[trigger] id_match(self@, prefix@, j) ==> self@[j].1.id
                            == self@[f as int].1.id),
                    None => forall|j: int| 0 <= j < k ==> !#[trigger] id_match(self@, prefix@, j),
                },
            decreases n - k,
        {
            proof {
                assert(self@[k as int].1.id == self.entries@[k as int].1.id@);
            }
            if id_matches_prefix(self.entries[k].1.id.as_str(), prefix) {
                match found {
                    None => {
                        found = Some(k);
                    },
                    Some(f) => {
                        if !crate::strutil::str_eq(
                            self.entries[f].1.id.as_str(),
                            self.entries[k].1.id.as_str(),
                        ) {
                            proof {
                                assert(id_match(self@, prefix@, f as int));
                                assert(id_match(self@, prefix@, k as int));
                                assert(self@[f as int].1.id != self@[k as int].1.id);
                            }
                            return Err(ImageError::Ambiguous);
                        }
                    },
                }
            }
            k += 1;
        }
        match found {
            Some(f) => {
                proof {
                    lemma_first_match_index_at(self@, prefix@, f as int);
                    assert(!prefix_ambiguous(self@, prefix@)) by {
                        if prefix_ambiguous(self@, prefix@) {
                            let (i, j) = choose|i: int, j: int|
                                #[trigger] id_match(self@, prefix@, i) && #[trigger] id_match(
                                    self@,
                                    prefix@,
                                    j,
                                ) && self@[i].1.id != self@[j].1.id;
                            assert(self@[i].1.id == self@[f as int].1.id);
                            assert(self@[j].1.id == self@[f as int].1.id);
                        }
                    }
                    assert(!prefix_missing(self@, prefix@)) by {
                        assert(id_match(self@, prefix@, f as int));
                    }
                }
                Ok(self.entries[f].1.clone())
            },
            None => {
                proof {
                    assert(forall|j: int| !#[trigger] id_match(self@, prefix@, j)) by {
                        assert(forall|j: int|
                            0 <= j < self@.len() ==> !#[trigger] id_match(self@, prefix@, j));
                    }
                }
                Err(ImageError::NotFound)
            },
        }
    }

    /// Whether some entry's record carries exactly identifier `id`.
    pub fn contains_id(&self, id: &str) -> (b: bool)
        ensures
            b == exists|i: int| 0 <= i < self@.len() && (#[trigger] self@[i]).1.id == id@,
    {
        let n = self.entries.len();
        let mut k: usize = 0;
        while k < n
            invariant
                k <= n,
                n == self@.len(),
                n == self.entries@.len(),
                forall|j: int| 0 <= j < k ==> (#[trigger] self@[j]).1.id != id@,
            decreases n - k,
        {
            if crate::strutil::str_eq(self.entries[k].1.id.as_str(), id) {
                proof {
                    assert(self@[k as int].1.id == id@);
                }
                return true;
            }
            proof {
                assert(self@[k as int].1.id == self.entries@[k as int].1.id@);
            }
            k += 1;
        }
        false
    }

    /// A snapshot of every record, in index order.
    pub fn list(&self) -> (r: Vec<CriusImage>)
        ensures
            r@.len() == self@.len(),
            forall|i: int| 0 <= i < r@.len() ==> (#[trigger] r@[i])@ == self@[i].1,
    {
        let n = self.entries.len();
        let mut out: Vec<CriusImage> = Vec::new();
        let mut k: usize = 0;
        while k < n
            invariant
                k <= n,
                n == self@.len(),
                n == self.entries@.len(),
                out@.len() == k,
                forall|i: int| 0 <= i < k ==> (#[trigger] out@[i])@ == self@[i].1,
            decreases n - k,
        {
            out.push(self.entries[k].1.clone());
            k += 1;
        }
        out
    }
}

} // verus!
