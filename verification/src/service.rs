//! The CRI-facing image service: composes the registry result, the local
//! store and the in-memory index, and translates failures into the CRI
//! error taxonomy.
//!
//! Registry traffic itself is asynchronous I/O and lives outside the
//! library; a pull reaches this module as the fetched manifest digest
//! and layer blobs, and everything from there — identifier derivation,
//! atomic persistence, index update — is verified here.

use vstd::prelude::*;

use crate::errors::ImageError;
use crate::image_id::{derive_image_id, spec_derive_image_id};
use crate::index::{
    first_match_index, prefix_ambiguous, prefix_missing, EntryView, ImageIndex,
};
use crate::keyed::{has_key, spec_insert, spec_lookup, spec_remove};
use crate::records::{CriusImage, ImageMeta, ImageRecordView};
use crate::reference::spec_parse_reference;
use crate::store::{layers_bytes, spec_load_all, store_bytes, DirView, LocalStore, StoreEntryView};

verus! {

/// Mathematical content of the whole service: the index and the store.
pub struct ServiceView {
    pub index: Seq<EntryView>,
    pub store: Seq<StoreEntryView>,
}

/// Filesystem usage of the image storage, as `ImageFsInfo` reports it.
#[derive(Debug, Clone, Copy, PartialEq, Eq, Structural)]
pub struct FsUsage {
    pub timestamp: i64,
    pub used_bytes: u64,
}

/// The record a successful pull of `image_ref` serves: the derived
/// identifier, the requested reference as its only tag, and the summed
/// layer bytes.
pub open spec fn pulled_record(image_ref: Seq<char>, id: Seq<char>, layers: Seq<Seq<u8>>) -> ImageRecordView {
    ImageRecordView { id: id, repo_tags: seq![image_ref], size: layers_bytes(layers) as u64 }
}

/// The index after binding record `r` under its first `j` tags, in order.
pub open spec fn insert_record_upto(v: Seq<EntryView>, r: ImageRecordView, j: int) -> Seq<
    EntryView,
>
    decreases j,
{
    if j <= 0 {
        v
    } else {
        spec_insert(insert_record_upto(v, r, j - 1), r.repo_tags[j - 1], r)
    }
}

/// The index after binding record `r` under every one of its tags.
pub open spec fn insert_record(v: Seq<EntryView>, r: ImageRecordView) -> Seq<EntryView> {
    insert_record_upto(v, r, r.repo_tags.len() as int)
}

/// The index after rehydrating the first `i` records, in order.
pub open spec fn rehydrate_upto(v: Seq<EntryView>, recs: Seq<ImageRecordView>, i: int) -> Seq<
    EntryView,
>
    decreases i,
{
    if i <= 0 {
        v
    } else {
        insert_record(rehydrate_upto(v, recs, i - 1), recs[i - 1])
    }
}

/// The index after rehydrating every record, in order.
pub open spec fn spec_rehydrate(v: Seq<EntryView>, recs: Seq<ImageRecordView>) -> Seq<
    EntryView,
> {
    rehydrate_upto(v, recs, recs.len() as int)
}

/// A growing layer run never shrinks in bytes.
proof fn lemma_layers_bytes_prefix(ls: Seq<Seq<u8>>, j: int)
    requires
        0 <= j <= ls.len(),
    ensures
        layers_bytes(ls.take(j)) <= layers_bytes(ls),
    decreases ls.len() - j,
{
    if j == ls.len() {
        assert(ls.take(j) =~= ls);
    } else {
        lemma_layers_bytes_prefix(ls, j + 1);
        assert(ls.take(j + 1).drop_last() =~= ls.take(j));
        assert(layers_bytes(ls.take(j + 1)) == layers_bytes(ls.take(j)) + ls.take(
            j + 1,
        ).last().len());
    }
}

/// A pulled image is immediately visible: after a successful pull of
/// `image_ref`, an exact-tag status lookup of `image_ref` serves a
/// record whose identifier is exactly the one the pull returned.
pub proof fn lemma_pull_then_status(
    v: Seq<EntryView>,
    image_ref: Seq<char>,
    id: Seq<char>,
    layers: Seq<Seq<u8>>,
)
    requires
        crate::keyed::keyed_wf(v),
    ensures
        ({
            let rv = pulled_record(image_ref, id, layers);
            spec_lookup(spec_insert(v, image_ref, rv), image_ref) == Some(rv) && rv.id == id
        }),
{
    crate::keyed::lemma_insert_props(v, image_ref, pulled_record(image_ref, id, layers));
}

/// A record is reachable by every tag in its tag set: after binding a
/// record under each of its tags — as a pull or rehydration does — an
/// exact lookup of any of those tags serves that record.
pub proof fn lemma_insert_record_binds(v: Seq<EntryView>, r: ImageRecordView, j: int)
    requires
        crate::keyed::keyed_wf(v),
        0 <= j <= r.repo_tags.len(),
    ensures
        crate::keyed::keyed_wf(insert_record_upto(v, r, j)),
        forall|k: int|
            0 <= k < j ==> spec_lookup(insert_record_upto(v, r, j), #[trigger] r.repo_tags[k])
                == Some(r),
    decreases j,
{
    if j > 0 {
        lemma_insert_record_binds(v, r, j - 1);
        let base = insert_record_upto(v, r, j - 1);
        crate::keyed::lemma_insert_props(base, r.repo_tags[j - 1], r);
        assert forall|k: int| 0 <= k < j implies spec_lookup(
            insert_record_upto(v, r, j),
            #[trigger] r.repo_tags[k],
        ) == Some(r) by {
            if r.repo_tags[k] != r.repo_tags[j - 1] {
                assert(k < j - 1);
                assert(spec_lookup(base, r.repo_tags[k]) == Some(r));
            }
        }
    }
}

/// Record `r` carries tag `t`.
pub open spec fn rec_has_tag(r: ImageRecordView, t: Seq<char>) -> bool {
    exists|j: int| 0 <= j < r.repo_tags.len() && #[trigger] r.repo_tags[j] == t
}

/// The record the last rehydrated binding of tag `t` serves, if any
/// record carries `t`.
pub open spec fn last_binding(recs: Seq<ImageRecordView>, t: Seq<char>) -> Option<
    ImageRecordView,
>
    decreases recs.len(),
{
    if recs.len() == 0 {
        None
    } else if rec_has_tag(recs.last(), t) {
        Some(recs.last())
    } else {
        last_binding(recs.drop_last(), t)
    }
}

/// Binding a record under its first `j` tags binds exactly those tags to
/// it and touches no other key.
proof fn lemma_insert_record_lookup(v: Seq<EntryView>, r: ImageRecordView, j: int, t: Seq<char>)
    requires
        crate::keyed::keyed_wf(v),
        0 <= j <= r.repo_tags.len(),
    ensures
        crate::keyed::keyed_wf(insert_record_upto(v, r, j)),
        spec_lookup(insert_record_upto(v, r, j), t) == (if exists|k: int|
            0 <= k < j && #[trigger] r.repo_tags[k] == t {
            Some(r)
        } else {
            spec_lookup(v, t)
        }),
    decreases j,
{
    if j > 0 {
        lemma_insert_record_lookup(v, r, j - 1, t);
        let base = insert_record_upto(v, r, j - 1);
        crate::keyed::lemma_insert_props(base, r.repo_tags[j - 1], r);
        if t == r.repo_tags[j - 1] {
            assert(exists|k: int| 0 <= k < j && #[trigger] r.repo_tags[k] == t);
        } else {
            assert(spec_lookup(insert_record_upto(v, r, j), t) == spec_lookup(base, t));
            assert((exists|k: int| 0 <= k < j && #[trigger] r.repo_tags[k] == t) == (exists|k: int|
                0 <= k < j - 1 && #[trigger] r.repo_tags[k] == t)) by {
                if exists|k: int| 0 <= k < j && #[trigger] r.repo_tags[k] == t {
                    let k = choose|k: int| 0 <= k < j && #[trigger] r.repo_tags[k] == t;
                    assert(k != j - 1);
                    assert(0 <= k < j - 1 && r.repo_tags[k] == t);
                }
            }
        }
    }
}

/// What rehydrating the first `i` records serves for tag `t`: the last
/// of those records carrying `t`, or what the starting index served.
proof fn lemma_rehydrate_lookup(
    v: Seq<EntryView>,
    recs: Seq<ImageRecordView>,
    i: int,
    t: Seq<char>,
)
    requires
        crate::keyed::keyed_wf(v),
        0 <= i <= recs.len(),
    ensures
        crate::keyed::keyed_wf(rehydrate_upto(v, recs, i)),
        spec_lookup(rehydrate_upto(v, recs, i), t) == (match last_binding(recs.take(i), t) {
            Some(r) => Some(r),
            None => spec_lookup(v, t),
        }),
    decreases i,
{
    if i > 0 {
        lemma_rehydrate_lookup(v, recs, i - 1, t);
        let base = rehydrate_upto(v, recs, i - 1);
        let r = recs[i - 1];
        lemma_insert_record_lookup(base, r, r.repo_tags.len() as int, t);
        assert(recs.take(i).last() == r);
        assert(recs.take(i).drop_last() =~= recs.take(i - 1));
        assert(rec_has_tag(r, t) == (exists|k: int|
            0 <= k < r.repo_tags.len() && #[trigger] r.repo_tags[k] == t));
    }
}

/// A tag carried by some record is bound after rehydration.
proof fn lemma_last_binding_exists(recs: Seq<ImageRecordView>, i: int, t: Seq<char>)
    requires
        0 <= i < recs.len(),
        rec_has_tag(recs[i], t),
    ensures
        last_binding(recs, t) is Some,
    decreases recs.len(),
{
    if !rec_has_tag(recs.last(), t) {
        assert(i < recs.len() - 1);
        assert(recs.drop_last()[i] == recs[i]);
        lemma_last_binding_exists(recs.drop_last(), i, t);
    }
}

/// Two keyed sequences carry the same keys at the same positions.
pub open spec fn same_keys(a: Seq<EntryView>, b: Seq<EntryView>) -> bool {
    a.len() == b.len() && forall|i: int|
        0 <= i < a.len() ==> (#[trigger] a[i]).0 == (#[trigger] b[i]).0
}

/// `has_key` sees only the keys, not the values.
proof fn lemma_same_keys_has_key(a: Seq<EntryView>, b: Seq<EntryView>, t: Seq<char>)
    requires
        same_keys(a, b),
    ensures
        has_key(a, t) == has_key(b, t),
{
    if has_key(a, t) {
        let i = choose|i: int| 0 <= i < a.len() && (#[trigger] a[i]).0 == t;
        assert(b[i].0 == t);
    }
    if has_key(b, t) {
        let i = choose|i: int| 0 <= i < b.len() && (#[trigger] b[i]).0 == t;
        assert(a[i].0 == t);
    }
}

/// Binding a record whose tags are all present keys replaces in place:
/// the keys, and their order, do not change.
proof fn lemma_insert_record_keys(w: Seq<EntryView>, r: ImageRecordView, j: int)
    requires
        crate::keyed::keyed_wf(w),
        0 <= j <= r.repo_tags.len(),
        forall|k: int| 0 <= k < j ==> has_key(w, #[trigger] r.repo_tags[k]),
    ensures
        same_keys(insert_record_upto(w, r, j), w),
    decreases j,
{
    if j > 0 {
        lemma_insert_record_keys(w, r, j - 1);
        let base = insert_record_upto(w, r, j - 1);
        lemma_insert_record_lookup(w, r, j - 1, r.repo_tags[j - 1]);
        lemma_same_keys_has_key(base, w, r.repo_tags[j - 1]);
        assert(has_key(base, r.repo_tags[j - 1]));
        crate::keyed::lemma_first_key_index(base, r.repo_tags[j - 1]);
        let upd = insert_record_upto(w, r, j);
        assert(upd == base.update(
            crate::keyed::first_key_index(base, r.repo_tags[j - 1]),
            (r.repo_tags[j - 1], r),
        ));
        assert(same_keys(upd, w)) by {
            assert(base[crate::keyed::first_key_index(base, r.repo_tags[j - 1])].0
                == r.repo_tags[j - 1]);
        }
    }
}

/// Rehydrating records whose tags are all present keys leaves the keys,
/// and their order, unchanged.
proof fn lemma_rehydrate_keys(w: Seq<EntryView>, recs: Seq<ImageRecordView>, i: int)
    requires
        crate::keyed::keyed_wf(w),
        0 <= i <= recs.len(),
        forall|a: int, b: int|
            0 <= a < recs.len() && 0 <= b < (#[trigger] recs[a]).repo_tags.len() ==> has_key(
                w,
                #[trigger] recs[a].repo_tags[b],
            ),
    ensures
        same_keys(rehydrate_upto(w, recs, i), w),
    decreases i,
{
    if i > 0 {
        lemma_rehydrate_keys(w, recs, i - 1);
        let base = rehydrate_upto(w, recs, i - 1);
        let r = recs[i - 1];
        lemma_rehydrate_lookup(w, recs, i - 1, Seq::empty());
        assert(crate::keyed::keyed_wf(base));
        assert forall|k: int| 0 <= k < r.repo_tags.len() implies has_key(
            base,
            #[trigger] r.repo_tags[k],
        ) by {
            lemma_same_keys_has_key(base, w, r.repo_tags[k]);
        }
        lemma_insert_record_keys(base, r, r.repo_tags.len() as int);
        let upd = insert_record_upto(base, r, r.repo_tags.len() as int);
        assert(same_keys(upd, base));
        assert(rehydrate_upto(w, recs, i) == upd);
        assert forall|x: int| 0 <= x < upd.len() implies (#[trigger] upd[x]).0 == (
        #[trigger] w[x]).0 by {
            assert(upd[x].0 == base[x].0);
            assert(base[x].0 == w[x].0);
        }
    }
}

/// Two well-formed indexes with the same keys in the same order and the
/// same lookup at every key are the same sequence.
proof fn lemma_same_lookup_same_seq(a: Seq<EntryView>, b: Seq<EntryView>)
    requires
        crate::keyed::keyed_wf(a),
        crate::keyed::keyed_wf(b),
        same_keys(a, b),
        forall|t: Seq<char>| #[trigger] spec_lookup(a, t) == spec_lookup(b, t),
    ensures
        a == b,
{
    assert forall|i: int| 0 <= i < a.len() implies a[i] == b[i] by {
        let k = a[i].0;
        assert forall|j: int| 0 <= j < i implies (#[trigger] a[j]).0 != k by {
            assert(a[j].0 != a[i].0);
        }
        crate::keyed::lemma_first_key_index_at(a, k, i);
        assert(b[i].0 == k);
        assert forall|j: int| 0 <= j < i implies (#[trigger] b[j]).0 != k by {
            assert(b[j].0 == a[j].0);
        }
        crate::keyed::lemma_first_key_index_at(b, k, i);
        assert(spec_lookup(a, k) == Some(a[i].1));
        assert(spec_lookup(b, k) == Some(b[i].1));
    }
    assert(a =~= b);
}

/// Rehydration is idempotent: rehydrating the same records a second time
/// reproduces the index unchanged, entry for entry.
pub proof fn lemma_rehydrate_idempotent(v: Seq<EntryView>, recs: Seq<ImageRecordView>)
    requires
        crate::keyed::keyed_wf(v),
    ensures
        spec_rehydrate(spec_rehydrate(v, recs), recs) == spec_rehydrate(v, recs),
{
    let n = recs.len() as int;
    let w0 = spec_rehydrate(v, recs);
    lemma_rehydrate_lookup(v, recs, n, Seq::empty());
    assert(crate::keyed::keyed_wf(w0));
    let w1 = spec_rehydrate(w0, recs);
    lemma_rehydrate_lookup(w0, recs, n, Seq::empty());
    assert(crate::keyed::keyed_wf(w1));
    assert(recs.take(n) =~= recs);
    // every tag of the records is a key of the once-rehydrated index
    assert forall|a: int, b: int|
        0 <= a < recs.len() && 0 <= b < (#[trigger] recs[a]).repo_tags.len() implies has_key(
        w0,
        #[trigger] recs[a].repo_tags[b],
    ) by {
        let t = recs[a].repo_tags[b];
        assert(rec_has_tag(recs[a], t));
        lemma_last_binding_exists(recs, a, t);
        lemma_rehydrate_lookup(v, recs, n, t);
        assert(spec_lookup(w0, t) is Some);
    }
    lemma_rehydrate_keys(w0, recs, n);
    assert(same_keys(w1, w0));
    assert forall|t: Seq<char>| #[trigger] spec_lookup(w1, t) == spec_lookup(w0, t) by {
        lemma_rehydrate_lookup(v, recs, n, t);
        lemma_rehydrate_lookup(w0, recs, n, t);
    }
    lemma_same_lookup_same_seq(w1, w0);
}

/// The image service.
pub struct ImageServiceImpl {
    index: ImageIndex,
    store: LocalStore,
}

impl View for ImageServiceImpl {
    type V = ServiceView;

    closed spec fn view(&self) -> ServiceView {
        ServiceView { index: self.index@, store: self.store@ }
    }
}

impl ImageServiceImpl {
    /// Well-formedness: both the index and the store are well-formed.
    pub open spec fn wf(&self) -> bool {
        crate::keyed::keyed_wf(self@.index) && crate::keyed::keyed_wf(self@.store)
    }

    /// A service with an empty index over an empty store.
    pub fn new() -> (r: Self)
        ensures
            r@.index == Seq::<EntryView>::empty(),
            r@.store == Seq::<StoreEntryView>::empty(),
            r.wf(),
    {
        ImageServiceImpl { index: ImageIndex::new(), store: LocalStore::new() }
    }

    /// A service over an existing store content, before rehydration; the
    /// way tests and the program reproduce a restart.
    pub fn with_store(store: LocalStore) -> (r: Self)
        requires
            store.wf(),
        ensures
            r@.index == Seq::<EntryView>::empty(),
            r@.store == store@,
            r.wf(),
    {
        ImageServiceImpl { index: ImageIndex::new(), store }
    }

    /// Rebuilds the index from the store: every rehydrated record is
    /// bound under each of its tags, records in store order, tags in
    /// document order. The only path that fills the index at startup.
    pub fn load_local_images(&mut self)
        requires
            old(self).wf(),
        ensures
            final(self).wf(),
            final(self)@.store == old(self)@.store,
            final(self)@.index == spec_rehydrate(old(self)@.index, spec_load_all(old(self)@.store)),
    {
        let ghost recs = crate::store::spec_load_all(old(self)@.store);
        let ghost v0 = old(self)@.index;
        let records = self.store.load_all();
        proof {
            assert(records@.map_values(|img: CriusImage| img@) == recs);
        }
        let n = records.len();
        let mut i: usize = 0;
        while i < n
            invariant
                i <= n,
                n == records@.len(),
                records@.map_values(|img: CriusImage| img@) == recs,
                n == recs.len(),
                self.index.wf(),
                self.store.wf(),
                self.store@ == old(self)@.store,
                self.index@ == rehydrate_upto(v0, recs, i as int),
            decreases n - i,
        {
            let ghost base = rehydrate_upto(v0, recs, i as int);
            let ghost rv = recs[i as int];
            proof {
                assert(records@[i as int]@ == recs[i as int]);
            }
            let m = records[i].repo_tags.len();
            proof {
                assert(rv.repo_tags == records@[i as int].repo_tags.deep_view());
            }
            let mut j: usize = 0;
            while j < m
                invariant
                    j <= m,
                    i < n,
                    n == records@.len(),
                    m == records@[i as int].repo_tags@.len(),
                    rv == records@[i as int]@,
                    m == rv.repo_tags.len(),
                    self.index.wf(),
                    self.store.wf(),
                    self.store@ == old(self)@.store,
                    self.index@ == insert_record_upto(base, rv, j as int),
                decreases m - j,
            {
                let rec = records[i].clone();
                proof {
                    assert(rec@ == rv);
                    assert(records@[i as int].repo_tags@[j as int]@ == rv.repo_tags[j as int]);
                }
                self.index.insert(records[i].repo_tags[j].as_str(), rec);
                j += 1;
            }
            proof {
                assert(self.index@ == insert_record(base, rv));
            }
            i += 1;
        }
        proof {
            assert(self.index@ == spec_rehydrate(v0, recs));
        }
    }

    /// A snapshot of every record in the index, in index order.
    pub fn list_images(&self) -> (r: Vec<CriusImage>)
        ensures
            r@.len() == self@.index.len(),
            forall|i: int| 0 <= i < r@.len() ==> (#[trigger] r@[i])@ == self@.index[i].1,
    {
        self.index.list()
    }

    /// Exact-tag lookup, falling back to identifier-prefix lookup under
    /// the pinned policy; `NotFound` when neither matches, `Ambiguous`
    /// when the prefix names two distinct records.
    pub fn image_status(&self, image_ref: &str) -> (r: Result<CriusImage, ImageError>)
        ensures
            match r {
                Ok(img) => (spec_lookup(self@.index, image_ref@) == Some(img@)) || (spec_lookup(
                    self@.index,
                    image_ref@,
                ) is None && !prefix_missing(self@.index, image_ref@) && !prefix_ambiguous(
                    self@.index,
                    image_ref@,
                ) && img@ == self@.index[first_match_index(self@.index, image_ref@)].1),
                Err(e) => spec_lookup(self@.index, image_ref@) is None && ((e
                    == ImageError::NotFound && prefix_missing(self@.index, image_ref@)) || (e
                    == ImageError::Ambiguous && prefix_ambiguous(self@.index, image_ref@))),
            },
    {
        match self.index.lookup(image_ref) {
            Some(img) => Ok(img),
            None => self.index.lookup_by_id_prefix(image_ref),
        }
    }

    /// Completes a pull whose registry fetch returned `digest` and
    /// `layers`: validates the requested reference, derives the
    /// identifier, persists layers and metadata atomically under it, and
    /// binds the record to the requested reference string in the index.
    /// An unparsable reference is rejected before anything else and
    /// changes nothing; a malformed digest, or layers summing past the
    /// largest 64-bit size, is a registry-data failure and changes
    /// nothing.
    pub fn pull_image(&mut self, image_ref: &str, digest: &str, layers: Vec<Vec<u8>>) -> (r:
        Result<String, ImageError>)
        requires
            old(self).wf(),
        ensures
            final(self).wf(),
            match r {
                Ok(id) => {
                    &&& spec_parse_reference(image_ref@) is Some
                    &&& spec_derive_image_id(digest@) == Some(id@)
                    &&& layers_bytes(layers.deep_view()) <= u64::MAX
                    &&& final(self)@.index == spec_insert(
                        old(self)@.index,
                        image_ref@,
                        pulled_record(image_ref@, id@, layers.deep_view()),
                    )
                    &&& final(self)@.store == spec_insert(
                        old(self)@.store,
                        id@,
                        DirView {
                            layers: layers.deep_view(),
                            meta: Some(pulled_record(image_ref@, id@, layers.deep_view())),
                        },
                    )
                },
                Err(e) => {
                    &&& final(self)@ == old(self)@
                    &&& (e == ImageError::InvalidReference <==> spec_parse_reference(
                        image_ref@,
                    ) is None)
                    &&& (e == ImageError::RegistryError ==> spec_parse_reference(
                        image_ref@,
                    ) is Some && (spec_derive_image_id(digest@) is None || layers_bytes(
                        layers.deep_view(),
                    ) > u64::MAX))
                    &&& (e == ImageError::InvalidReference || e == ImageError::RegistryError)
                },
            },
    {
        if let Err(_) = crate::reference::parse_reference(image_ref) {
            return Err(ImageError::InvalidReference);
        }
        let id = match derive_image_id(digest) {
            Some(id) => id,
            None => {
                return Err(ImageError::RegistryError);
            },
        };
        let ghost lv = layers.deep_view();
        let n = layers.len();
        let mut size: u64 = 0;
        let mut j: usize = 0;
        while j < n
            invariant
                j <= n,
                n == layers@.len(),
                lv == layers.deep_view(),
                n == lv.len(),
                size as nat == layers_bytes(lv.take(j as int)),
                self@ == old(self)@,
                self.wf(),
                spec_parse_reference(image_ref@) is Some,
            decreases n - j,
        {
            proof {
                assert(lv.take(j as int + 1).drop_last() =~= lv.take(j as int));
                assert(lv.take(j as int + 1).last() == lv[j as int]);
                assert(lv[j as int] == layers@[j as int]@);
            }
            size = match size.checked_add(layers[j].len() as u64) {
                Some(x) => x,
                None => {
                    proof {
                        lemma_layers_bytes_prefix(lv, j as int + 1);
                    }
                    return Err(ImageError::RegistryError);
                },
            };
            j += 1;
        }
        proof {
            assert(lv.take(n as int) =~= lv);
        }
        let mut tags: Vec<String> = Vec::new();
        tags.push(image_ref.to_owned());
        let meta = ImageMeta { id: id.clone(), repo_tags: tags, size };
        let record = meta.to_image();
        proof {
            assert(meta@.repo_tags =~= seq![image_ref@]);
            assert(record@ == pulled_record(image_ref@, id@, lv));
        }
        self.store.finalize(id.as_str(), meta, layers);
        self.index.insert(image_ref, record);
        Ok(id)
    }

    /// Removes the index entry for `image_ref`; `NotFound` leaves
    /// everything untouched. When no other index entry still serves the
    /// removed record's identifier, the storage directory is reclaimed
    /// too; while another tag references it, the storage stays.
    pub fn remove_image(&mut self, image_ref: &str) -> (r: Result<(), ImageError>)
        requires
            old(self).wf(),
        ensures
            final(self).wf(),
            match r {
                Ok(()) => {
                    &&& has_key(old(self)@.index, image_ref@)
                    &&& final(self)@.index == spec_remove(old(self)@.index, image_ref@)
                    &&& {
                        let rv = spec_lookup(old(self)@.index, image_ref@).unwrap();
                        let fi = final(self)@.index;
                        if exists|i: int| 0 <= i < fi.len() && (#[trigger] fi[i]).1.id == rv.id {
                            final(self)@.store == old(self)@.store
                        } else {
                            final(self)@.store == spec_remove(old(self)@.store, rv.id)
                        }
                    }
                },
                Err(e) => e == ImageError::NotFound && !has_key(old(self)@.index, image_ref@)
                    && final(self)@ == old(self)@,
            },
    {
        match self.index.remove(image_ref) {
            None => Err(ImageError::NotFound),
            Some(img) => {
                if !self.index.contains_id(img.id.as_str()) {
                    self.store.remove_dir(img.id.as_str());
                }
                Ok(())
            },
        }
    }

    /// Filesystem usage of the image storage: the total layer bytes the
    /// store holds, stamped with the caller's clock reading.
    pub fn image_fs_info(&self, timestamp: i64) -> (r: FsUsage)
        ensures
            r.timestamp == timestamp,
            store_bytes(self@.store) <= u64::MAX ==> r.used_bytes as nat == store_bytes(
                self@.store,
            ),
            store_bytes(self@.store) > u64::MAX ==> r.used_bytes == u64::MAX,
    {
        FsUsage { timestamp, used_bytes: self.store.total_bytes() }
    }

    /// The store's directory for `id`, if any: what a caller checking
    /// persisted layers reads.
    pub fn stored_dir(&self, id: &str) -> (r: Option<&crate::store::ImageDir>)
        ensures
            match r {
                Some(d) => spec_lookup(self@.store, id@) == Some(d@),
                None => spec_lookup(self@.store, id@) is None,
            },
    {
        self.store.get_dir(id)
    }
}

} // verus!
