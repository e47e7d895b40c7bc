use crius::errors::ImageError;
use crius::index::ImageIndex;
use crius::records::CriusImage;

fn record(id: &str, tag: &str, size: u64) -> CriusImage {
    CriusImage { id: id.to_string(), repo_tags: vec![tag.to_string()], size }
}

#[test]
fn exact_lookup_finds_what_insert_bound() {
    let mut idx = ImageIndex::new();
    let img = record("sha256:abc123aaaa11", "reg.io/a:1", 10);
    idx.insert("reg.io/a:1", img.clone());
    assert_eq!(idx.lookup("reg.io/a:1"), Some(img));
    assert_eq!(idx.lookup("reg.io/a:2"), None);
}

#[test]
fn insert_replaces_an_existing_binding() {
    let mut idx = ImageIndex::new();
    idx.insert("reg.io/a:1", record("sha256:abc123aaaa11", "reg.io/a:1", 10));
    idx.insert("reg.io/a:1", record("sha256:def456bbbb22", "reg.io/a:1", 20));
    assert_eq!(idx.len(), 1);
    assert_eq!(idx.lookup("reg.io/a:1").unwrap().id, "sha256:def456bbbb22");
}

#[test]
fn prefix_lookup_returns_the_first_unambiguous_match() {
    let mut idx = ImageIndex::new();
    idx.insert("reg.io/a:1", record("sha256:abc123aaaa11", "reg.io/a:1", 10));
    idx.insert("reg.io/b:1", record("sha256:abc999bbbb22", "reg.io/b:1", 20));
    // the hex part may be truncated, with or without the scheme
    let hit = idx.lookup_by_id_prefix("abc1").unwrap();
    assert_eq!(hit.id, "sha256:abc123aaaa11");
    let hit2 = idx.lookup_by_id_prefix("sha256:abc9").unwrap();
    assert_eq!(hit2.id, "sha256:abc999bbbb22");
}

#[test]
fn ambiguous_prefix_is_reported_not_guessed() {
    let mut idx = ImageIndex::new();
    idx.insert("reg.io/a:1", record("sha256:abc123aaaa11", "reg.io/a:1", 10));
    idx.insert("reg.io/b:1", record("sha256:abc999bbbb22", "reg.io/b:1", 20));
    assert_eq!(idx.lookup_by_id_prefix("abc"), Err(ImageError::Ambiguous));
    assert_eq!(idx.lookup_by_id_prefix("zzz"), Err(ImageError::NotFound));
}

#[test]
fn shared_identifier_under_two_tags_is_not_ambiguous() {
    let mut idx = ImageIndex::new();
    idx.insert("reg.io/a:1", record("sha256:abc123aaaa11", "reg.io/a:1", 10));
    idx.insert("reg.io/a:2", record("sha256:abc123aaaa11", "reg.io/a:2", 10));
    let hit = idx.lookup_by_id_prefix("abc").unwrap();
    assert_eq!(hit.id, "sha256:abc123aaaa11");
}

#[test]
fn remove_of_an_absent_key_changes_nothing() {
    let mut idx = ImageIndex::new();
    idx.insert("reg.io/a:1", record("sha256:abc123aaaa11", "reg.io/a:1", 10));
    let before = idx.list();
    assert_eq!(idx.remove("reg.io/missing:1"), None);
    assert_eq!(idx.list(), before);
    assert_eq!(idx.len(), 1);
}

#[test]
fn remove_returns_the_removed_record() {
    let mut idx = ImageIndex::new();
    let img = record("sha256:abc123aaaa11", "reg.io/a:1", 10);
    idx.insert("reg.io/a:1", img.clone());
    assert_eq!(idx.remove("reg.io/a:1"), Some(img));
    assert_eq!(idx.len(), 0);
}

#[test]
fn list_snapshots_every_record_in_order() {
    let mut idx = ImageIndex::new();
    idx.insert("reg.io/a:1", record("sha256:abc123aaaa11", "reg.io/a:1", 10));
    idx.insert("reg.io/b:1", record("sha256:abc999bbbb22", "reg.io/b:1", 20));
    let all = idx.list();
    assert_eq!(all.len(), 2);
    assert_eq!(all[0].id, "sha256:abc123aaaa11");
    assert_eq!(all[1].id, "sha256:abc999bbbb22");
}
