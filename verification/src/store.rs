//! The local image store, modelled as the content of the images
//! directory: one entry per image identifier, holding the layer blobs
//! (in manifest order) and, when finalization completed, the metadata
//! document. `finalize` binds the whole entry in one step — the on-disk
//! counterpart stages layers and metadata in a scratch directory and
//! swaps it in with a single atomic rename, so a crash mid-pull leaves
//! at worst a directory without metadata. Rehydration reads only entries
//! whose metadata is present, so such leftovers are skipped, never
//! served.

use vstd::prelude::*;

use crate::keyed::{
    first_key_index, has_key, keyed_wf, lemma_first_key_index_at, lemma_insert_props,
    lemma_remove_props, spec_insert, spec_lookup, spec_remove,
};
use crate::records::{CriusImage, ImageMeta, ImageRecordView};

verus! {

/// Mathematical content of one image directory.
pub struct DirView {
    pub layers: Seq<Seq<u8>>,
    pub meta: Option<ImageRecordView>,
}

/// One image directory: layer blobs in manifest order, and the metadata
/// document if finalization completed.
pub struct ImageDir {
    pub layers: Vec<Vec<u8>>,
    pub meta: Option<ImageMeta>,
}

impl View for ImageDir {
    type V = DirView;

    open spec fn view(&self) -> DirView {
        DirView {
            layers: self.layers.deep_view(),
            meta: match self.meta {
                Some(m) => Some(m@),
                None => None,
            },
        }
    }
}

/// An entry of the store seen mathematically.
pub type StoreEntryView = (Seq<char>, DirView);

/// The store.
pub struct LocalStore {
    dirs: Vec<(String, ImageDir)>,
}

impl View for LocalStore {
    type V = Seq<StoreEntryView>;

    closed spec fn view(&self) -> Seq<StoreEntryView> {
        Seq::new(self.dirs@.len(), |i: int| (self.dirs@[i].0@, self.dirs@[i].1@))
    }
}

/// Total bytes of a layer list.
pub open spec fn layers_bytes(ls: Seq<Seq<u8>>) -> nat
    decreases ls.len(),
{
    if ls.len() == 0 {
        0
    } else {
        layers_bytes(ls.drop_last()) + ls.last().len()
    }
}

/// Total layer bytes of the whole store, finalized or not.
pub open spec fn store_bytes(v: Seq<StoreEntryView>) -> nat
    decreases v.len(),
{
    if v.len() == 0 {
        0
    } else {
        store_bytes(v.drop_last()) + layers_bytes(v.last().1.layers)
    }
}

/// The records rehydration yields: one per entry whose metadata is
/// present, in store order; an entry without metadata yields nothing.
pub open spec fn spec_load_all(v: Seq<StoreEntryView>) -> Seq<ImageRecordView>
    decreases v.len(),
{
    if v.len() == 0 {
        Seq::empty()
    } else {
        spec_load_all(v.drop_last()) + (match v.last().1.meta {
            Some(m) => seq![m],
            None => Seq::empty(),
        })
    }
}

/// An entry whose metadata is present is rehydrated: its record appears
/// in what `load_all` yields.
pub proof fn lemma_load_all_contains(v: Seq<StoreEntryView>, i: int, m: ImageRecordView)
    requires
        0 <= i < v.len(),
        v[i].1.meta == Some(m),
    ensures
        exists|j: int| 0 <= j < spec_load_all(v).len() && spec_load_all(v)[j] == m,
    decreases v.len(),
{
    let r = spec_load_all(v);
    if i == v.len() - 1 {
        assert(r[r.len() - 1] == m);
    } else {
        let w = v.drop_last();
        assert(w[i] == v[i]);
        lemma_load_all_contains(w, i, m);
        let j = choose|j: int| 0 <= j < spec_load_all(w).len() && spec_load_all(w)[j] == m;
        assert(r[j] == m);
    }
}

/// Round trip through the store: finalizing an image and rehydrating
/// yields its record back, identical in identifier, tag set and size.
pub proof fn lemma_store_round_trip(
    v: Seq<StoreEntryView>,
    id: Seq<char>,
    m: ImageRecordView,
    layers: Seq<Seq<u8>>,
)
    requires
        keyed_wf(v),
    ensures
        ({
            let w = spec_insert(v, id, DirView { layers: layers, meta: Some(m) });
            exists|j: int| 0 <= j < spec_load_all(w).len() && spec_load_all(w)[j] == m
        }),
{
    let d = DirView { layers: layers, meta: Some(m) };
    let w = spec_insert(v, id, d);
    crate::keyed::lemma_insert_props(v, id, d);
    crate::keyed::lemma_first_key_index(w, id);
    let f = crate::keyed::first_key_index(w, id);
    assert(w[f].1 == d) by {
        assert(crate::keyed::spec_lookup(w, id) == Some(d));
    }
    lemma_load_all_contains(w, f, m);
}

/// Crash safety of rehydration: every record `load_all` yields comes
/// from an entry whose metadata document is present. A directory left by
/// an interrupted pull — layers without metadata — contributes nothing.
pub proof fn lemma_partial_dirs_not_loaded(v: Seq<StoreEntryView>)
    ensures
        forall|j: int|
            0 <= j < spec_load_all(v).len() ==> exists|i: int|
                0 <= i < v.len() && (#[trigger] v[i]).1.meta == Some(
                    #[trigger] spec_load_all(v)[j],
                ),
    decreases v.len(),
{
    if v.len() > 0 {
        let w = v.drop_last();
        lemma_partial_dirs_not_loaded(w);
        let r = spec_load_all(v);
        let rw = spec_load_all(w);
        assert forall|j: int| 0 <= j < r.len() implies exists|i: int|
            0 <= i < v.len() && (#[trigger] v[i]).1.meta == Some(#[trigger] r[j]) by {
            if j < rw.len() {
                assert(rw[j] == r[j]);
                let i = choose|i: int|
                    0 <= i < w.len() && (#[trigger] w[i]).1.meta == Some(rw[j]);
                assert(v[i] == w[i]);
            } else {
                assert(v.last().1.meta == Some(r[j]));
                assert(v[v.len() - 1].1.meta == Some(r[j]));
            }
        }
    }
}

impl LocalStore {
    /// Well-formedness: no identifier occurs twice.
    pub open spec fn wf(&self) -> bool {
        keyed_wf(self@)
    }

    /// An empty store.
    pub fn new() -> (r: Self)
        ensures
            r@ == Seq::<StoreEntryView>::empty(),
            r.wf(),
    {
        let r = LocalStore { dirs: Vec::new() };
        proof {
            assert(r@ =~= Seq::<StoreEntryView>::empty());
        }
        r
    }

    /// Position of the entry for `id`, if any.
    fn find(&self, id: &str) -> (r: Option<usize>)
        ensures
            match r {
                Some(i) => has_key(self@, id@) && i as int == first_key_index(self@, id@) && i
                    < self@.len(),
                None => !has_key(self@, id@),
            },
    {
        let n = self.dirs.len();
        let mut k: usize = 0;
        while k < n
            invariant
                k <= n,
                n == self@.len(),
                n == self.dirs@.len(),
                forall|j: int| 0 <= j < k ==> (#[trigger] self@[j]).0 != id@,
            decreases n - k,
        {
            if crate::strutil::str_eq(self.dirs[k].0.as_str(), id) {
                proof {
                    assert(self@[k as int].0 == id@);
                    lemma_first_key_index_at(self@, id@, k as int);
                }
                return Some(k);
            }
            proof {
                assert(self@[k as int].0 == self.dirs@[k as int].0@);
            }
            k += 1;
        }
        proof {
            if has_key(self@, id@) {
                let i = choose|i: int| 0 <= i < self@.len() && (#[trigger] self@[i]).0 == id@;
            }
        }
        None
    }

    /// Binds `id` to `dir` in one step, replacing an existing entry.
    pub fn put_dir(&mut self, id: &str, dir: ImageDir)
        requires
            old(self).wf(),
        ensures
            final(self).wf(),
            final(self)@ == spec_insert(old(self)@, id@, dir@),
    {
        proof {
            lemma_insert_props(old(self)@, id@, dir@);
        }
        match self.find(id) {
            Some(i) => {
                self.dirs.set(i, (id.to_owned(), dir));
                proof {
                    assert(self@ =~= spec_insert(old(self)@, id@, dir@));
                }
            },
            None => {
                self.dirs.push((id.to_owned(), dir));
                proof {
                    assert(self@ =~= spec_insert(old(self)@, id@, dir@));
                }
            },
        }
    }

    /// Atomic finalization of a pull: the layers and the metadata become
    /// visible under `id` together, or (had the process died first) not
    /// at all — there is no intermediate state in which the entry has
    /// metadata but not all layers.
    pub fn finalize(&mut self, id: &str, meta: ImageMeta, layers: Vec<Vec<u8>>)
        requires
            old(self).wf(),
        ensures
            final(self).wf(),
            final(self)@ == spec_insert(
                old(self)@,
                id@,
                DirView { layers: layers.deep_view(), meta: Some(meta@) },
            ),
    {
        let ghost lv = layers.deep_view();
        let dir = ImageDir { layers, meta: Some(meta) };
        proof {
            assert(dir@.layers == lv);
        }
        self.put_dir(id, dir);
    }

    /// Removes the entry for `id`; reports whether one was present.
    pub fn remove_dir(&mut self, id: &str) -> (removed: bool)
        requires
            old(self).wf(),
        ensures
            final(self).wf(),
            final(self)@ == spec_remove(old(self)@, id@),
            removed == has_key(old(self)@, id@),
    {
        proof {
            lemma_remove_props(old(self)@, id@);
        }
        match self.find(id) {
            Some(i) => {
                self.dirs.remove(i);
                proof {
                    assert(self@ =~= spec_remove(old(self)@, id@));
                }
                true
            },
            None => false,
        }
    }

    /// The directory stored under `id`, if any.
    pub fn get_dir(&self, id: &str) -> (r: Option<&ImageDir>)
        ensures
            match r {
                Some(d) => spec_lookup(self@, id@) == Some(d@),
                None => spec_lookup(self@, id@) is None,
            },
    {
        match self.find(id) {
            Some(i) => Some(&self.dirs[i].1),
            None => None,
        }
    }

    /// Rehydration: the record of every entry whose metadata is present,
    /// in store order. Entries without metadata — the only shape a crash
    /// can leave behind — are skipped, not errors.
    pub fn load_all(&self) -> (r: Vec<CriusImage>)
        ensures
            r@.map_values(|img: CriusImage| img@) == spec_load_all(self@),
    {
        let n = self.dirs.len();
        let mut out: Vec<CriusImage> = Vec::new();
        let mut k: usize = 0;
        while k < n
            invariant
                k <= n,
                n == self@.len(),
                n == self.dirs@.len(),
                out@.map_values(|img: CriusImage| img@) == spec_load_all(self@.take(k as int)),
            decreases n - k,
        {
            let ghost prefix = self@.take(k as int);
            proof {
                assert(self@.take(k as int + 1).drop_last() =~= prefix);
                assert(self@.take(k as int + 1).last() == self@[k as int]);
            }
            match &self.dirs[k].1.meta {
                Some(m) => {
                    let img = m.to_image();
                    out.push(img);
                    proof {
                        assert(self@[k as int].1.meta == Some(m@));
                        assert(out@.map_values(|img: CriusImage| img@) =~= spec_load_all(
                            self@.take(k as int + 1),
                        ));
                    }
                },
                None => {
                    proof {
                        assert(self@[k as int].1.meta is None);
                        assert(out@.map_values(|img: CriusImage| img@) =~= spec_load_all(
                            self@.take(k as int + 1),
                        ));
                    }
                },
            }
            k += 1;
        }
        proof {
            assert(self@.take(n as int) =~= self@);
        }
        out
    }

    /// Total layer bytes held by the store, saturating at the largest
    /// 64-bit value.
    pub fn total_bytes(&self) -> (r: u64)
        ensures
            store_bytes(self@) <= u64::MAX ==> r as nat == store_bytes(self@),
            store_bytes(self@) > u64::MAX ==> r == u64::MAX,
    {
        let n = self.dirs.len();
        let mut acc: u64 = 0;
        let mut k: usize = 0;
        while k < n
            invariant
                k <= n,
                n == self@.len(),
                n == self.dirs@.len(),
                store_bytes(self@.take(k as int)) <= u64::MAX ==> acc as nat == store_bytes(
                    self@.take(k as int),
                ),
                store_bytes(self@.take(k as int)) > u64::MAX ==> acc == u64::MAX,
            decreases n - k,
        {
            let ghost prefix = self@.take(k as int);
            let layers = &self.dirs[k].1.layers;
            let m = layers.len();
            let ghost lv = self@[k as int].1.layers;
            proof {
                assert(lv == layers.deep_view());
                assert(self@.take(k as int + 1).drop_last() =~= prefix);
                assert(self@.take(k as int + 1).last() == self@[k as int]);
            }
            let mut j: usize = 0;
            while j < m
                invariant
                    j <= m,
                    m == lv.len(),
                    lv == layers.deep_view(),
                    m == layers@.len(),
                    store_bytes(prefix) + layers_bytes(lv.take(j as int)) <= u64::MAX ==> acc as nat
                        == store_bytes(prefix) + layers_bytes(lv.take(j as int)),
                    store_bytes(prefix) + layers_bytes(lv.take(j as int)) > u64::MAX ==> acc
                        == u64::MAX,
                decreases m - j,
            {
                let len64 = layers[j].len() as u64;
                proof {
                    assert(lv.take(j as int + 1).drop_last() =~= lv.take(j as int));
                    assert(lv.take(j as int + 1).last() == lv[j as int]);
                    assert(lv[j as int] == layers@[j as int]@);
                }
                acc = match acc.checked_add(len64) {
                    Some(x) => x,
                    None => u64::MAX,
                };
                j += 1;
            }
            proof {
                assert(lv.take(m as int) =~= lv);
            }
            k += 1;
        }
        proof {
            assert(self@.take(n as int) =~= self@);
        }
        acc
    }
}

} // verus!
