//! Parsing of OCI image references in `registry/repository[:tag|@digest]`
//! form. Malformed input is rejected here, before any network call.
//!
//! The accepted grammar, pinned exactly by `spec_parse_reference`: the
//! part before the first `/` is the registry (which may carry a port,
//! hence `:` is allowed there); the rest is the repository, optionally
//! followed by `@` and a digest, or by the last `:` and a tag; a
//! reference with neither gets the tag `latest`. Repositories are
//! lowercase; tags may mix case; digests are `sha256:` followed by
//! lowercase hex.

use vstd::prelude::*;

use crate::errors::ImageError;

verus! {

/// A lowercase letter or a digit.
pub open spec fn lower_alnum(c: char) -> bool {
    (97 <= c as int && c as int <= 122) || (48 <= c as int && c as int <= 57)
}

/// A character allowed in a registry host (with optional port).
pub open spec fn registry_char(c: char) -> bool {
    lower_alnum(c) || c == '.' || c == '-' || c == '_' || c == ':'
}

/// A character allowed in a repository path.
pub open spec fn repo_char(c: char) -> bool {
    lower_alnum(c) || c == '.' || c == '-' || c == '_' || c == '/'
}

/// A character allowed in a tag.
pub open spec fn tag_char(c: char) -> bool {
    lower_alnum(c) || (65 <= c as int && c as int <= 90) || c == '.' || c == '-' || c == '_'
}

/// A lowercase hexadecimal digit.
pub open spec fn hex_char(c: char) -> bool {
    (48 <= c as int && c as int <= 57) || (97 <= c as int && c as int <= 102)
}

/// A valid registry component: non-empty, registry characters only.
pub open spec fn valid_registry(s: Seq<char>) -> bool {
    s.len() >= 1 && forall|i: int| 0 <= i < s.len() ==> registry_char(#[trigger] s[i])
}

/// A valid repository component: non-empty, repository characters only.
pub open spec fn valid_repository(s: Seq<char>) -> bool {
    s.len() >= 1 && forall|i: int| 0 <= i < s.len() ==> repo_char(#[trigger] s[i])
}

/// A valid tag: non-empty, at most 128 tag characters.
pub open spec fn valid_tag(s: Seq<char>) -> bool {
    1 <= s.len() <= 128 && forall|i: int| 0 <= i < s.len() ==> tag_char(#[trigger] s[i])
}

/// The `sha256:` scheme prefix.
pub open spec fn sha256_prefix() -> Seq<char> {
    seq!['s', 'h', 'a', '2', '5', '6', ':']
}

/// A valid digest: the `sha256:` prefix followed by non-empty lowercase hex.
pub open spec fn valid_digest(s: Seq<char>) -> bool {
    &&& s.len() > 7
    &&& s.subrange(0, 7) == sha256_prefix()
    &&& forall|i: int| 7 <= i < s.len() ==> hex_char(#[trigger] s[i])
}

/// Index of the first occurrence of `c` at or after `i`, if any.
pub open spec fn first_index_of(s: Seq<char>, c: char, i: int) -> Option<int>
    decreases s.len() - i,
{
    if i < 0 || i >= s.len() {
        None
    } else if s[i] == c {
        Some(i)
    } else {
        first_index_of(s, c, i + 1)
    }
}

/// Index of the last occurrence of `c` at or before `i`, if any.
pub open spec fn last_index_of(s: Seq<char>, c: char, i: int) -> Option<int>
    decreases i + 1,
{
    if i < 0 || i >= s.len() {
        None
    } else if s[i] == c {
        Some(i)
    } else {
        last_index_of(s, c, i - 1)
    }
}

/// Index of the last occurrence of `c` at or after `from`, if any.
pub open spec fn last_index_from(s: Seq<char>, c: char, from: int) -> Option<int> {
    match last_index_of(s, c, s.len() - 1) {
        Some(g) => if g >= from {
            Some(g)
        } else {
            None
        },
        None => None,
    }
}

/// Mathematical content of a parsed reference.
pub struct ReferenceView {
    pub registry: Seq<char>,
    pub repository: Seq<char>,
    pub tag: Option<Seq<char>>,
    pub digest: Option<Seq<char>>,
}

/// A parsed image reference: registry host, repository path, and either
/// a tag or a digest (exactly one of the two).
#[derive(Debug, PartialEq, Eq)]
pub struct ImageReference {
    pub registry: String,
    pub repository: String,
    pub tag: Option<String>,
    pub digest: Option<String>,
}

impl View for ImageReference {
    type V = ReferenceView;

    open spec fn view(&self) -> ReferenceView {
        ReferenceView {
            registry: self.registry@,
            repository: self.repository@,
            tag: match self.tag {
                Some(t) => Some(t@),
                None => None,
            },
            digest: match self.digest {
                Some(d) => Some(d@),
                None => None,
            },
        }
    }
}

/// The default tag used when a reference names neither tag nor digest.
pub open spec fn latest_tag() -> Seq<char> {
    seq!['l', 'a', 't', 'e', 's', 't']
}

/// What parsing accepts and yields, pinned exactly: split at the first
/// `/` into registry and remainder; split the remainder at the first `@`
/// (digest) or else at the last `:` (tag), defaulting the tag to
/// `latest`; validate every component's character set.
pub open spec fn spec_parse_reference(s: Seq<char>) -> Option<ReferenceView> {
    match first_index_of(s, '/', 0) {
        None => None,
        Some(p) => {
            let reg = s.subrange(0, p);
            if !valid_registry(reg) {
                None
            } else {
                match first_index_of(s, '@', p + 1) {
                    Some(q) => {
                        let repo = s.subrange(p + 1, q);
                        let dg = s.subrange(q + 1, s.len() as int);
                        if valid_repository(repo) && valid_digest(dg) {
                            Some(
                                ReferenceView {
                                    registry: reg,
                                    repository: repo,
                                    tag: None,
                                    digest: Some(dg),
                                },
                            )
                        } else {
                            None
                        }
                    },
                    None => match last_index_from(s, ':', p + 1) {
                        Some(q) => {
                            let repo = s.subrange(p + 1, q);
                            let tg = s.subrange(q + 1, s.len() as int);
                            if valid_repository(repo) && valid_tag(tg) {
                                Some(
                                    ReferenceView {
                                        registry: reg,
                                        repository: repo,
                                        tag: Some(tg),
                                        digest: None,
                                    },
                                )
                            } else {
                                None
                            }
                        },
                        None => {
                            let repo = s.subrange(p + 1, s.len() as int);
                            if valid_repository(repo) {
                                Some(
                                    ReferenceView {
                                        registry: reg,
                                        repository: repo,
                                        tag: Some(latest_tag()),
                                        digest: None,
                                    },
                                )
                            } else {
                                None
                            }
                        },
                    },
                }
            }
        },
    }
}

/// Validity of a registry component, read off the enclosing string.
proof fn lemma_registry_region(s: Seq<char>, from: int, to: int)
    requires
        0 <= from <= to <= s.len(),
    ensures
        valid_registry(s.subrange(from, to)) == (to - from >= 1 && forall|i: int|
            from <= i < to ==> registry_char(#[trigger] s[i])),
{
    let sub = s.subrange(from, to);
    assert(forall|i: int| 0 <= i < sub.len() ==> #[trigger] sub[i] == s[from + i]);
    if to - from >= 1 && (forall|i: int| from <= i < to ==> registry_char(#[trigger] s[i])) {
        assert forall|i: int| 0 <= i < sub.len() implies registry_char(sub[i]) by {
            assert(registry_char(s[from + i]));
        }
    }
    if valid_registry(sub) {
        assert forall|i: int| from <= i < to implies registry_char(s[i]) by {
            assert(sub[i - from] == s[i]);
            assert(registry_char(sub[i - from]));
        }
    }
}

/// Validity of a repository component, read off the enclosing string.
proof fn lemma_repo_region(s: Seq<char>, from: int, to: int)
    requires
        0 <= from <= to <= s.len(),
    ensures
        valid_repository(s.subrange(from, to)) == (to - from >= 1 && forall|i: int|
            from <= i < to ==> repo_char(#[trigger] s[i])),
{
    let sub = s.subrange(from, to);
    assert(forall|i: int| 0 <= i < sub.len() ==> #[trigger] sub[i] == s[from + i]);
    if to - from >= 1 && (forall|i: int| from <= i < to ==> repo_char(#[trigger] s[i])) {
        assert forall|i: int| 0 <= i < sub.len() implies repo_char(sub[i]) by {
            assert(repo_char(s[from + i]));
        }
    }
    if valid_repository(sub) {
        assert forall|i: int| from <= i < to implies repo_char(s[i]) by {
            assert(sub[i - from] == s[i]);
            assert(repo_char(sub[i - from]));
        }
    }
}

/// Validity of a tag, read off the enclosing string.
proof fn lemma_tag_region(s: Seq<char>, from: int, to: int)
    requires
        0 <= from <= to <= s.len(),
    ensures
        valid_tag(s.subrange(from, to)) == (1 <= to - from <= 128 && forall|i: int|
            from <= i < to ==> tag_char(#[trigger] s[i])),
{
    let sub = s.subrange(from, to);
    assert(forall|i: int| 0 <= i < sub.len() ==> #[trigger] sub[i] == s[from + i]);
    if 1 <= to - from <= 128 && (forall|i: int| from <= i < to ==> tag_char(#[trigger] s[i])) {
        assert forall|i: int| 0 <= i < sub.len() implies tag_char(sub[i]) by {
            assert(tag_char(s[from + i]));
        }
    }
    if valid_tag(sub) {
        assert forall|i: int| from <= i < to implies tag_char(s[i]) by {
            assert(sub[i - from] == s[i]);
            assert(tag_char(sub[i - from]));
        }
    }
}

/// Validity of a digest, read off the enclosing string.
proof fn lemma_digest_region(s: Seq<char>, from: int, to: int)
    requires
        0 <= from <= to <= s.len(),
    ensures
        valid_digest(s.subrange(from, to)) == (to - from > 7 && s.subrange(from, from + 7)
            == sha256_prefix() && forall|i: int|
            from + 7 <= i < to ==> hex_char(#[trigger] s[i])),
{
    let sub = s.subrange(from, to);
    assert(forall|i: int| 0 <= i < sub.len() ==> #[trigger] sub[i] == s[from + i]);
    if to - from > 7 {
        assert(sub.subrange(0, 7) =~= s.subrange(from, from + 7));
        if s.subrange(from, from + 7) == sha256_prefix() && (forall|i: int|
            from + 7 <= i < to ==> hex_char(#[trigger] s[i])) {
            assert forall|i: int| 7 <= i < sub.len() implies hex_char(sub[i]) by {
                assert(hex_char(s[from + i]));
            }
        }
        if valid_digest(sub) {
            assert forall|i: int| from + 7 <= i < to implies hex_char(s[i]) by {
                assert(sub[i - from] == s[i]);
                assert(hex_char(sub[i - from]));
            }
        }
    }
}

/// Finds the first occurrence of `c` in `s` at or after `i`.
fn find_first(s: &str, c: char, i: usize) -> (r: Option<usize>)
    ensures
        match r {
            Some(p) => first_index_of(s@, c, i as int) == Some(p as int) && i <= p < s@.len(),
            None => first_index_of(s@, c, i as int) is None,
        },
{
    let n = s.unicode_len();
    let mut j: usize = i;
    while j < n
        invariant
            i <= j,
            n == s@.len(),
            first_index_of(s@, c, i as int) == first_index_of(s@, c, j as int),
        decreases n - j,
    {
        if s.get_char(j) == c {
            return Some(j);
        }
        j += 1;
    }
    None
}

/// A found last occurrence lies at or before the search start.
proof fn lemma_last_index_le(s: Seq<char>, c: char, i: int)
    requires
        last_index_of(s, c, i) is Some,
    ensures
        last_index_of(s, c, i).unwrap() <= i,
        s[last_index_of(s, c, i).unwrap()] == c,
        0 <= last_index_of(s, c, i).unwrap() < s.len(),
    decreases i + 1,
{
    if !(i < 0 || i >= s.len()) && s[i] != c {
        lemma_last_index_le(s, c, i - 1);
    }
}

/// Finds the last occurrence of `c` in `s` at or after `from`.
fn find_last_from(s: &str, c: char, from: usize) -> (r: Option<usize>)
    requires
        from <= s@.len(),
    ensures
        match r {
            Some(p) => last_index_from(s@, c, from as int) == Some(p as int) && from <= p
                < s@.len(),
            None => last_index_from(s@, c, from as int) is None,
        },
{
    let n = s.unicode_len();
    let mut j: usize = n;
    while j > from
        invariant
            from <= j <= n,
            n == s@.len(),
            last_index_of(s@, c, n - 1) == last_index_of(s@, c, j as int - 1),
        decreases j,
    {
        if s.get_char(j - 1) == c {
            return Some(j - 1);
        }
        j -= 1;
    }
    proof {
        if last_index_of(s@, c, n - 1) is Some {
            lemma_last_index_le(s@, c, j as int - 1);
        }
    }
    None
}

/// Whether every character of `s` in `[from, to)` satisfies the class
/// selected by `which`: 0 registry, 1 repository, 2 tag, 3 hex.
fn region_all(s: &str, from: usize, to: usize, which: u8) -> (b: bool)
    requires
        from <= to <= s@.len(),
        which <= 3,
    ensures
        b == (forall|i: int|
            from <= i < to ==> (if which == 0 {
                registry_char(#[trigger] s@[i])
            } else if which == 1 {
                repo_char(#[trigger] s@[i])
            } else if which == 2 {
                tag_char(#[trigger] s@[i])
            } else {
                hex_char(#[trigger] s@[i])
            })),
{
    let mut k: usize = from;
    while k < to
        invariant
            from <= k <= to <= s@.len(),
            which <= 3,
            forall|i: int|
                from <= i < k ==> (if which == 0 {
                    registry_char(#[trigger] s@[i])
                } else if which == 1 {
                    repo_char(#[trigger] s@[i])
                } else if which == 2 {
                    tag_char(#[trigger] s@[i])
                } else {
                    hex_char(#[trigger] s@[i])
                }),
        decreases to - k,
    {
        let c = s.get_char(k);
        let u = c as u32;
        let ok = if which == 0 {
            (97 <= u && u <= 122) || (48 <= u && u <= 57) || c == '.' || c == '-' || c == '_'
                || c == ':'
        } else if which == 1 {
            (97 <= u && u <= 122) || (48 <= u && u <= 57) || c == '.' || c == '-' || c == '_'
                || c == '/'
        } else if which == 2 {
            (97 <= u && u <= 122) || (48 <= u && u <= 57) || (65 <= u && u <= 90) || c == '.'
                || c == '-' || c == '_'
        } else {
            (48 <= u && u <= 57) || (97 <= u && u <= 102)
        };
        if !ok {
            return false;
        }
        k += 1;
    }
    true
}

/// Parses a reference string, or reports `InvalidReference`: exactly the
/// strings of the pinned grammar parse, and nothing else.
pub fn parse_reference(s: &str) -> (r: Result<ImageReference, ImageError>)
    ensures
        match r {
            Ok(rf) => spec_parse_reference(s@) == Some(rf@),
            Err(e) => spec_parse_reference(s@) is None && e == ImageError::InvalidReference,
        },
{
    let n = s.unicode_len();
    let p = match find_first(s, '/', 0) {
        None => {
            return Err(ImageError::InvalidReference);
        },
        Some(p) => p,
    };
    let ghost reg = s@.subrange(0, p as int);
    if !(p >= 1 && region_all(s, 0, p, 0)) {
        proof {
            lemma_registry_region(s@, 0, p as int);
        }
        return Err(ImageError::InvalidReference);
    }
    proof {
        lemma_registry_region(s@, 0, p as int);
        assert(valid_registry(reg));
    }
    let registry = s.substring_char(0, p).to_owned();
    match find_first(s, '@', p + 1) {
        Some(q) => {
            let ghost repo = s@.subrange(p as int + 1, q as int);
            let ghost dg = s@.subrange(q as int + 1, n as int);
            let repo_ok = q >= p + 2 && region_all(s, p + 1, q, 1);
            proof {
                lemma_repo_region(s@, p as int + 1, q as int);
                assert(repo_ok == valid_repository(repo));
            }
            let lit = "sha256:";
            proof {
                reveal_strlit("sha256:");
                assert(lit@ =~= sha256_prefix());
            }
            let dig_ok = n - q > 8 && crate::metajson::starts_with_lit(s, q + 1, lit) && region_all(
                s,
                q + 8,
                n,
                3,
            );
            proof {
                lemma_digest_region(s@, q as int + 1, n as int);
                if n - q > 8 {
                    assert(crate::metajson::starts_with_at(s@, q as int + 1, sha256_prefix())
                        == (s@.subrange(q as int + 1, q as int + 8) == sha256_prefix()));
                }
                assert(dig_ok == valid_digest(dg));
            }
            if repo_ok && dig_ok {
                let repository = s.substring_char(p + 1, q).to_owned();
                let digest = s.substring_char(q + 1, n).to_owned();
                Ok(ImageReference { registry, repository, tag: None, digest: Some(digest) })
            } else {
                Err(ImageError::InvalidReference)
            }
        },
        None => {
            match find_last_from(s, ':', p + 1) {
                Some(q) => {
                    let ghost repo = s@.subrange(p as int + 1, q as int);
                    let ghost tg = s@.subrange(q as int + 1, n as int);
                    let repo_ok = q >= p + 2 && region_all(s, p + 1, q, 1);
                    let tag_ok = n - q >= 2 && n - q <= 129 && region_all(s, q + 1, n, 2);
                    proof {
                        lemma_repo_region(s@, p as int + 1, q as int);
                        lemma_tag_region(s@, q as int + 1, n as int);
                        assert(repo_ok == valid_repository(repo));
                        assert(tag_ok == valid_tag(tg));
                    }
                    if repo_ok && tag_ok {
                        let repository = s.substring_char(p + 1, q).to_owned();
                        let tag = s.substring_char(q + 1, n).to_owned();
                        Ok(ImageReference { registry, repository, tag: Some(tag), digest: None })
                    } else {
                        Err(ImageError::InvalidReference)
                    }
                },
                None => {
                    let ghost repo = s@.subrange(p as int + 1, n as int);
                    let repo_ok = n - p >= 2 && region_all(s, p + 1, n, 1);
                    proof {
                        lemma_repo_region(s@, p as int + 1, n as int);
                        assert(repo_ok == valid_repository(repo));
                    }
                    if repo_ok {
                        let repository = s.substring_char(p + 1, n).to_owned();
                        let lt = "latest";
                        proof {
                            reveal_strlit("latest");
                            assert(lt@ =~= latest_tag());
                        }
                        Ok(
                            ImageReference {
                                registry,
                                repository,
                                tag: Some(lt.to_owned()),
                                digest: None,
                            },
                        )
                    } else {
                        Err(ImageError::InvalidReference)
                    }
                },
            }
        },
    }
}

} // verus!
