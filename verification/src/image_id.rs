//! Derivation of the stable image identifier from a manifest digest:
//! `sha256:` followed by the first twelve hex characters of the digest,
//! the scheme prefix being stripped before truncation.

use vstd::prelude::*;

use crate::reference::sha256_prefix;

verus! {

/// The identifier derived from a manifest digest, or nothing when fewer
/// than twelve characters remain after stripping the scheme prefix.
pub open spec fn spec_derive_image_id(digest: Seq<char>) -> Option<Seq<char>> {
    let stripped = if digest.len() >= 7 && digest.subrange(0, 7) == sha256_prefix() {
        digest.subrange(7, digest.len() as int)
    } else {
        digest
    };
    if stripped.len() >= 12 {
        Some(sha256_prefix() + stripped.subrange(0, 12))
    } else {
        None
    }
}

/// Derives the image identifier from a manifest digest; a digest too
/// short to yield twelve hex characters is reported as malformed.
pub fn derive_image_id(digest: &str) -> (r: Option<String>)
    ensures
        match r {
            Some(id) => spec_derive_image_id(digest@) == Some(id@),
            None => spec_derive_image_id(digest@) is None,
        },
{
    let n = digest.unicode_len();
    let lit = "sha256:";
    proof {
        reveal_strlit("sha256:");
        assert(lit@ =~= sha256_prefix());
    }
    let has_prefix = crate::metajson::starts_with_lit(digest, 0, lit);
    let start: usize = if has_prefix {
        7
    } else {
        0
    };
    proof {
        if has_prefix {
            assert(digest@.subrange(0, 7) == sha256_prefix());
        } else if digest@.len() >= 7 {
            assert(digest@.subrange(0, 7) != sha256_prefix());
        }
    }
    if n - start < 12 {
        return None;
    }
    let hexpart = digest.substring_char(start, start + 12);
    let mut out = lit.to_owned();
    out.append(hexpart);
    proof {
        let stripped = if digest@.len() >= 7 && digest@.subrange(0, 7) == sha256_prefix() {
            digest@.subrange(7, digest@.len() as int)
        } else {
            digest@
        };
        assert(stripped.subrange(0, 12) =~= digest@.subrange(start as int, start as int + 12));
        assert(out@ == sha256_prefix() + stripped.subrange(0, 12));
    }
    Some(out)
}

} // verus!
