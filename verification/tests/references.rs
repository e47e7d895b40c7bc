use crius::auth::{choose_auth, AuthChoice};
use crius::errors::{CriCode, ImageError};
use crius::image_id::derive_image_id;
use crius::reference::parse_reference;

#[test]
fn parses_registry_repository_and_tag() {
    let r = parse_reference("library/test:latest").unwrap();
    assert_eq!(r.registry, "library");
    assert_eq!(r.repository, "test");
    assert_eq!(r.tag, Some("latest".to_string()));
    assert_eq!(r.digest, None);
}

#[test]
fn defaults_the_tag_to_latest() {
    let r = parse_reference("docker.io/library/ubuntu").unwrap();
    assert_eq!(r.registry, "docker.io");
    assert_eq!(r.repository, "library/ubuntu");
    assert_eq!(r.tag, Some("latest".to_string()));
}

#[test]
fn parses_a_digest_reference() {
    let r = parse_reference("reg.io/app@sha256:abcdef012345").unwrap();
    assert_eq!(r.registry, "reg.io");
    assert_eq!(r.repository, "app");
    assert_eq!(r.tag, None);
    assert_eq!(r.digest, Some("sha256:abcdef012345".to_string()));
}

#[test]
fn keeps_a_port_in_the_registry() {
    let r = parse_reference("localhost:5000/app:v1").unwrap();
    assert_eq!(r.registry, "localhost:5000");
    assert_eq!(r.repository, "app");
    assert_eq!(r.tag, Some("v1".to_string()));
}

#[test]
fn rejects_malformed_references() {
    assert_eq!(parse_reference(""), Err(ImageError::InvalidReference));
    assert_eq!(parse_reference("noslash"), Err(ImageError::InvalidReference));
    assert_eq!(parse_reference("/repo:tag"), Err(ImageError::InvalidReference));
    assert_eq!(parse_reference("reg/repo:"), Err(ImageError::InvalidReference));
    assert_eq!(parse_reference("reg/Repo:tag"), Err(ImageError::InvalidReference));
    assert_eq!(parse_reference("reg/repo@notadigest"), Err(ImageError::InvalidReference));
    assert_eq!(parse_reference("reg/repo@sha256:"), Err(ImageError::InvalidReference));
    assert_eq!(parse_reference("reg/repo@sha256:XYZ"), Err(ImageError::InvalidReference));
}

#[test]
fn derives_the_identifier_by_stripping_and_truncating() {
    assert_eq!(
        derive_image_id("sha256:deadbeefcafef00d112233445566").unwrap(),
        "sha256:deadbeefcafe"
    );
    assert_eq!(derive_image_id("0123456789abcdef").unwrap(), "sha256:0123456789ab");
    assert!(derive_image_id("sha256:short").is_none());
    assert!(derive_image_id("short").is_none());
}

#[test]
fn absent_credentials_default_to_anonymous() {
    assert_eq!(choose_auth(None), AuthChoice::Anonymous);
    assert_eq!(
        choose_auth(Some(("user".to_string(), "pw".to_string()))),
        AuthChoice::Basic("user".to_string(), "pw".to_string())
    );
}

#[test]
fn errors_map_to_their_cri_codes() {
    assert_eq!(ImageError::InvalidReference.cri_code(), CriCode::InvalidArgument);
    assert_eq!(ImageError::AuthError.cri_code(), CriCode::Internal);
    assert_eq!(ImageError::RegistryError.cri_code(), CriCode::Internal);
    assert_eq!(ImageError::StorageError.cri_code(), CriCode::Internal);
    assert_eq!(ImageError::NotFound.cri_code(), CriCode::NotFound);
    assert_eq!(ImageError::Ambiguous.cri_code(), CriCode::InvalidArgument);
}

#[test]
fn errors_describe_themselves() {
    assert_eq!(ImageError::InvalidReference.message(), "invalid image reference");
    assert_eq!(ImageError::NotFound.message(), "image not found");
    assert_eq!(ImageError::Ambiguous.message(), "ambiguous image id prefix");
}
