//! The image record and its persisted metadata document, with their
//! mathematical views.

use vstd::prelude::*;

verus! {

/// Mathematical content shared by an image record and its persisted
/// metadata document: content-derived identifier, repository tags, and
/// total byte size.
pub struct ImageRecordView {
    pub id: Seq<char>,
    pub repo_tags: Seq<Seq<char>>,
    pub size: u64,
}

/// An image as the index and the service serve it: stable identifier in
/// `sha256:<hex-prefix>` form, the repository tags that reach it, and the
/// total byte size of its layers.
#[derive(Debug, PartialEq, Eq)]
pub struct CriusImage {
    pub id: String,
    pub repo_tags: Vec<String>,
    pub size: u64,
}

impl View for CriusImage {
    type V = ImageRecordView;

    open spec fn view(&self) -> ImageRecordView {
        ImageRecordView { id: self.id@, repo_tags: self.repo_tags.deep_view(), size: self.size }
    }
}

impl Clone for CriusImage {
    fn clone(&self) -> (r: Self)
        ensures
            r@ == self@,
    {
        let tags = self.repo_tags.clone();
        proof {
            assert forall|i: int| 0 <= i < self.repo_tags@.len() implies tags@[i]@ == self.repo_tags@[i]@ by {
                assert(cloned::<String>(self.repo_tags[i], tags[i]));
            }
            assert(tags.deep_view() =~= self.repo_tags.deep_view());
        }
        CriusImage { id: self.id.clone(), repo_tags: tags, size: self.size }
    }
}

/// The metadata document persisted for one image under its storage
/// directory: the same three fields that the index serves.
#[derive(Debug, PartialEq, Eq)]
pub struct ImageMeta {
    pub id: String,
    pub repo_tags: Vec<String>,
    pub size: u64,
}

impl View for ImageMeta {
    type V = ImageRecordView;

    open spec fn view(&self) -> ImageRecordView {
        ImageRecordView { id: self.id@, repo_tags: self.repo_tags.deep_view(), size: self.size }
    }
}

impl Clone for ImageMeta {
    fn clone(&self) -> (r: Self)
        ensures
            r@ == self@,
    {
        let tags = self.repo_tags.clone();
        proof {
            assert forall|i: int| 0 <= i < self.repo_tags@.len() implies tags@[i]@ == self.repo_tags@[i]@ by {
                assert(cloned::<String>(self.repo_tags[i], tags[i]));
            }
            assert(tags.deep_view() =~= self.repo_tags.deep_view());
        }
        ImageMeta { id: self.id.clone(), repo_tags: tags, size: self.size }
    }
}

impl ImageMeta {
    /// The index record that a rehydrated metadata document stands for.
    pub fn to_image(&self) -> (r: CriusImage)
        ensures
            r@ == self@,
    {
        let m = self.clone();
        CriusImage { id: m.id, repo_tags: m.repo_tags, size: m.size }
    }
}

impl CriusImage {
    /// The metadata document that persists this record.
    pub fn to_meta(&self) -> (r: ImageMeta)
        ensures
            r@ == self@,
    {
        let m = self.clone();
        ImageMeta { id: m.id, repo_tags: m.repo_tags, size: m.size }
    }
}

} // verus!
