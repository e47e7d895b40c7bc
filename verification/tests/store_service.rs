use crius::errors::ImageError;
use crius::records::ImageMeta;
use crius::service::ImageServiceImpl;
use crius::store::{ImageDir, LocalStore};

#[test]
fn end_to_end_pull_of_one_layer() {
    let mut svc = ImageServiceImpl::new();
    let id = svc
        .pull_image(
            "library/test:latest",
            "sha256:deadbeefcafef00d112233445566778899aabbcc",
            vec![vec![1u8, 2, 3]],
        )
        .unwrap();
    assert_eq!(id, "sha256:deadbeefcafe");
    // the record is immediately visible under the requested tag
    let st = svc.image_status("library/test:latest").unwrap();
    assert_eq!(st.id, id);
    assert_eq!(st.repo_tags, vec!["library/test:latest".to_string()]);
    assert_eq!(st.size, 3);
    // one layer persisted under the identifier, in manifest order
    let dir = svc.stored_dir(&id).unwrap();
    assert_eq!(dir.layers.len(), 1);
    assert_eq!(dir.layers[0], vec![1u8, 2, 3]);
    assert!(dir.meta.is_some());
}

#[test]
fn pull_rejects_a_malformed_reference_before_anything_else() {
    let mut svc = ImageServiceImpl::new();
    let r = svc.pull_image("not a reference", "sha256:deadbeefcafef00d", vec![]);
    assert_eq!(r, Err(ImageError::InvalidReference));
    assert_eq!(svc.list_images().len(), 0);
}

#[test]
fn pull_rejects_a_malformed_digest() {
    let mut svc = ImageServiceImpl::new();
    let r = svc.pull_image("reg.io/a:1", "sha256:short", vec![vec![0u8]]);
    assert_eq!(r, Err(ImageError::RegistryError));
    assert_eq!(svc.list_images().len(), 0);
}

#[test]
fn status_falls_back_to_identifier_prefix() {
    let mut svc = ImageServiceImpl::new();
    let id = svc
        .pull_image("reg.io/a:1", "sha256:abc123aaaa11223344", vec![vec![9u8; 4]])
        .unwrap();
    let by_prefix = svc.image_status("abc123").unwrap();
    assert_eq!(by_prefix.id, id);
    assert_eq!(svc.image_status("nothing-here"), Err(ImageError::NotFound));
}

#[test]
fn remove_image_of_an_absent_reference_is_not_found_and_mutates_nothing() {
    let mut svc = ImageServiceImpl::new();
    svc.pull_image("reg.io/a:1", "sha256:abc123aaaa11223344", vec![vec![1u8]]).unwrap();
    let before = svc.list_images();
    assert_eq!(svc.remove_image("reg.io/missing:1"), Err(ImageError::NotFound));
    assert_eq!(svc.list_images(), before);
}

#[test]
fn remove_image_reclaims_storage_only_with_the_last_tag() {
    let mut svc = ImageServiceImpl::new();
    let digest = "sha256:abc123aaaa11223344";
    let id = svc.pull_image("reg.io/a:1", digest, vec![vec![1u8]]).unwrap();
    svc.pull_image("reg.io/a:2", digest, vec![vec![1u8]]).unwrap();
    svc.remove_image("reg.io/a:1").unwrap();
    // another tag still serves the identifier: storage stays
    assert!(svc.stored_dir(&id).is_some());
    svc.remove_image("reg.io/a:2").unwrap();
    assert!(svc.stored_dir(&id).is_none());
    assert_eq!(svc.list_images().len(), 0);
}

#[test]
fn rehydration_reproduces_the_finalized_record() {
    let mut store = LocalStore::new();
    let meta = ImageMeta {
        id: "sha256:abc123aaaa11".to_string(),
        repo_tags: vec!["reg.io/a:1".to_string(), "reg.io/a:2".to_string()],
        size: 42,
    };
    store.finalize("sha256:abc123aaaa11", meta.clone(), vec![vec![7u8; 42]]);
    let records = store.load_all();
    assert_eq!(records.len(), 1);
    assert_eq!(records[0].id, meta.id);
    assert_eq!(records[0].repo_tags, meta.repo_tags);
    assert_eq!(records[0].size, meta.size);
    // the record is reachable from the index by every tag in its tag set
    let mut svc = ImageServiceImpl::with_store(store);
    svc.load_local_images();
    assert_eq!(svc.image_status("reg.io/a:1").unwrap().id, meta.id);
    assert_eq!(svc.image_status("reg.io/a:2").unwrap().id, meta.id);
    // repeated rehydration reproduces the same index
    let once = svc.list_images();
    svc.load_local_images();
    assert_eq!(svc.list_images(), once);
}

#[test]
fn rehydration_skips_a_directory_without_metadata() {
    let mut store = LocalStore::new();
    // layers were written, the process died before finalization
    store.put_dir(
        "sha256:partial000000",
        ImageDir { layers: vec![vec![0u8; 16]], meta: None },
    );
    let good = ImageMeta {
        id: "sha256:good00000000".to_string(),
        repo_tags: vec!["reg.io/good:1".to_string()],
        size: 1,
    };
    store.finalize("sha256:good00000000", good.clone(), vec![vec![5u8]]);
    assert_eq!(store.load_all().len(), 1);
    let mut svc = ImageServiceImpl::with_store(store);
    svc.load_local_images();
    let all = svc.list_images();
    assert_eq!(all.len(), 1);
    assert_eq!(all[0].id, "sha256:good00000000");
    assert_eq!(svc.image_status("partial"), Err(ImageError::NotFound));
}

#[test]
fn fs_info_reports_total_layer_bytes() {
    let mut svc = ImageServiceImpl::new();
    svc.pull_image("reg.io/a:1", "sha256:abc123aaaa11223344", vec![vec![1u8; 10], vec![2u8; 5]])
        .unwrap();
    svc.pull_image("reg.io/b:1", "sha256:def456bbbb55667788", vec![vec![3u8; 7]]).unwrap();
    let usage = svc.image_fs_info(42);
    assert_eq!(usage.timestamp, 42);
    assert_eq!(usage.used_bytes, 22);
}
