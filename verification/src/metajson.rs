//! Codec for the persisted metadata document: one JSON object per image,
//! `{"id":<string>,"repo_tags":[<strings>],"size":<number>}`.
//!
//! The strings of the document are image identifiers and repository
//! references, which the library validates to character sets that need no
//! JSON escaping. The encoder therefore refuses a string holding a quote,
//! a backslash or a control character, and the parser reads strings
//! verbatim up to the closing quote. The parser accepts exactly the
//! documents this shape describes; anything else is reported as invalid,
//! and rehydration skips it.

use vstd::prelude::*;

use crate::decimal::{all_digits, dec_seq, dec_val, is_digit, lemma_dec_seq_val};
use crate::records::ImageRecordView;

verus! {

/// A character that can stand verbatim inside a JSON string: not a quote,
/// not a backslash, not a control character.
pub open spec fn plain_char(c: char) -> bool {
    c != '"' && c != '\\' && c as int >= 32
}

/// Every character of `s` can stand verbatim inside a JSON string.
pub open spec fn json_plain(s: Seq<char>) -> bool {
    forall|i: int| 0 <= i < s.len() ==> plain_char(#[trigger] s[i])
}

/// A metadata document can be written for `m`: its identifier and every
/// tag consist of characters that need no JSON escaping.
pub open spec fn meta_wf(m: ImageRecordView) -> bool {
    &&& json_plain(m.id)
    &&& forall|i: int| 0 <= i < m.repo_tags.len() ==> json_plain(#[trigger] m.repo_tags[i])
}

/// The opening of the document, up to and including the quote that opens
/// the identifier.
pub open spec fn lit_head() -> Seq<char> {
    seq!['{', '"', 'i', 'd', '"', ':', '"']
}

/// The middle of the document: the quote closing the identifier through
/// the bracket opening the tag array.
pub open spec fn lit_mid() -> Seq<char> {
    seq!['"', ',', '"', 'r', 'e', 'p', 'o', '_', 't', 'a', 'g', 's', '"', ':', '[']
}

/// The tail of the document: the bracket closing the tag array through
/// the colon before the size.
pub open spec fn lit_tail() -> Seq<char> {
    seq![']', ',', '"', 's', 'i', 'z', 'e', '"', ':']
}

/// A string of the document: the content between two quotes.
pub open spec fn enc_str(s: Seq<char>) -> Seq<char> {
    seq!['"'] + s + seq!['"']
}

/// The tag array's inside: encoded tags separated by commas.
pub open spec fn enc_tags(tags: Seq<Seq<char>>) -> Seq<char>
    decreases tags.len(),
{
    if tags.len() == 0 {
        Seq::empty()
    } else if tags.len() == 1 {
        enc_str(tags[0])
    } else {
        enc_str(tags[0]) + seq![','] + enc_tags(tags.drop_first())
    }
}

/// The whole canonical document for `m`.
pub open spec fn spec_encode_meta(m: ImageRecordView) -> Seq<char> {
    lit_head() + m.id + lit_mid() + enc_tags(m.repo_tags) + lit_tail() + dec_seq(m.size as nat)
        + seq!['}']
}

/// Index of the first quote at or after `i`, provided everything before
/// it is plain; `None` if a non-plain character or the end comes first.
pub open spec fn scan_plain(t: Seq<char>, i: int) -> Option<int>
    decreases t.len() - i,
{
    if i < 0 || i >= t.len() {
        None
    } else if t[i] == '"' {
        Some(i)
    } else if plain_char(t[i]) {
        scan_plain(t, i + 1)
    } else {
        None
    }
}

/// Index of the first non-digit at or after `i` (or the end).
pub open spec fn scan_digits(t: Seq<char>, i: int) -> int
    decreases t.len() - i,
{
    if i < 0 || i >= t.len() {
        i
    } else if is_digit(t[i]) {
        scan_digits(t, i + 1)
    } else {
        i
    }
}

/// `t` holds `lit` starting at `i`.
pub open spec fn starts_with_at(t: Seq<char>, i: int, lit: Seq<char>) -> bool {
    0 <= i && i + lit.len() <= t.len() && t.subrange(i, i + lit.len()) == lit
}

/// Reads the inside of the tag array starting at `i`; returns the tags
/// and the index of the closing bracket.
pub open spec fn spec_parse_tags(t: Seq<char>, i: int) -> Option<(Seq<Seq<char>>, int)> {
    if 0 <= i < t.len() && t[i] == ']' {
        Some((Seq::empty(), i))
    } else {
        spec_parse_tags_ne(t, i)
    }
}

/// Reads one or more quoted tags separated by commas, starting at `i`;
/// returns the tags and the index of the closing bracket.
pub open spec fn spec_parse_tags_ne(t: Seq<char>, i: int) -> Option<(Seq<Seq<char>>, int)>
    decreases t.len() - i,
{
    if 0 <= i < t.len() && t[i] == '"' {
        match scan_plain(t, i + 1) {
            Some(e) => {
                let tag = t.subrange(i + 1, e);
                let j = e + 1;
                if j < t.len() && t[j] == ',' {
                    if j + 1 <= i {
                        None
                    } else {
                        match spec_parse_tags_ne(t, j + 1) {
                            Some((rest, k)) => Some((seq![tag] + rest, k)),
                            None => None,
                        }
                    }
                } else if j < t.len() && t[j] == ']' {
                    Some((seq![tag], j))
                } else {
                    None
                }
            },
            None => None,
        }
    } else {
        None
    }
}

/// What the parser accepts: exactly the documents of the canonical shape,
/// with the size below two to the sixty-fourth.
pub open spec fn spec_parse_meta(t: Seq<char>) -> Option<ImageRecordView> {
    if !starts_with_at(t, 0, lit_head()) {
        None
    } else {
        match scan_plain(t, lit_head().len() as int) {
            Some(e1) => {
                let id = t.subrange(lit_head().len() as int, e1);
                if !starts_with_at(t, e1, lit_mid()) {
                    None
                } else {
                    match spec_parse_tags(t, e1 + lit_mid().len()) {
                        Some((tags, i4)) => {
                            if !starts_with_at(t, i4, lit_tail()) {
                                None
                            } else {
                                let i5 = i4 + lit_tail().len();
                                let e2 = scan_digits(t, i5);
                                if e2 == i5 {
                                    None
                                } else {
                                    let digits = t.subrange(i5, e2);
                                    if dec_val(digits) > u64::MAX {
                                        None
                                    } else if e2 + 1 == t.len() && t[e2] == '}' {
                                        Some(
                                            ImageRecordView {
                                                id: id,
                                                repo_tags: tags,
                                                size: dec_val(digits) as u64,
                                            },
                                        )
                                    } else {
                                        None
                                    }
                                }
                            }
                        },
                        None => None,
                    }
                }
            },
            None => None,
        }
    }
}

/// A successful scan starts at or after `i`, ends before the end, finds a
/// quote, and everything strictly between is plain.
pub proof fn lemma_scan_plain_bounds(t: Seq<char>, i: int)
    requires
        scan_plain(t, i) is Some,
    ensures
        i <= scan_plain(t, i).unwrap() < t.len(),
        t[scan_plain(t, i).unwrap()] == '"',
        forall|k: int| i <= k < scan_plain(t, i).unwrap() ==> plain_char(#[trigger] t[k]),
    decreases t.len() - i,
{
    if t[i] == '"' {
    } else {
        lemma_scan_plain_bounds(t, i + 1);
    }
}

/// Scanning a region known to hold a plain run followed by a quote finds
/// exactly the end of the run.
pub proof fn lemma_scan_plain_exact(t: Seq<char>, i: int, x: Seq<char>)
    requires
        0 <= i,
        i + x.len() < t.len(),
        t.subrange(i, i + x.len()) == x,
        json_plain(x),
        t[i + x.len()] == '"',
    ensures
        scan_plain(t, i) == Some(i + x.len() as int),
    decreases x.len(),
{
    if x.len() == 0 {
        assert(t[i] == '"');
    } else {
        assert(t[i] == x[0]) by {
            assert(t.subrange(i, i + x.len())[0] == t[i]);
        }
        assert(plain_char(x[0]));
        assert(t[i] != '"');
        assert(t.subrange(i + 1, i + 1 + (x.len() - 1)) == x.drop_first()) by {
            assert(t.subrange(i + 1, i + x.len()) =~= x.drop_first());
        }
        assert(json_plain(x.drop_first())) by {
            assert(forall|k: int|
                0 <= k < x.drop_first().len() ==> #[trigger] x.drop_first()[k] == x[k + 1]);
        }
        lemma_scan_plain_exact(t, i + 1, x.drop_first());
    }
}

/// The digit scan stays within bounds and everything it passed is a digit.
pub proof fn lemma_scan_digits_bounds(t: Seq<char>, i: int)
    requires
        0 <= i <= t.len(),
    ensures
        i <= scan_digits(t, i) <= t.len(),
        forall|k: int| i <= k < scan_digits(t, i) ==> is_digit(#[trigger] t[k]),
        scan_digits(t, i) < t.len() ==> !is_digit(t[scan_digits(t, i)]),
    decreases t.len() - i,
{
    if i < t.len() && is_digit(t[i]) {
        lemma_scan_digits_bounds(t, i + 1);
    }
}

/// Scanning a region known to hold a digit run followed by a non-digit
/// finds exactly the end of the run.
pub proof fn lemma_scan_digits_exact(t: Seq<char>, i: int, x: Seq<char>)
    requires
        0 <= i,
        i + x.len() < t.len(),
        t.subrange(i, i + x.len()) == x,
        all_digits(x),
        !is_digit(t[i + x.len()]),
    ensures
        scan_digits(t, i) == i + x.len(),
    decreases x.len(),
{
    if x.len() == 0 {
    } else {
        assert(t[i] == x[0]) by {
            assert(t.subrange(i, i + x.len())[0] == t[i]);
        }
        assert(is_digit(x[0]));
        assert(t.subrange(i + 1, i + 1 + (x.len() - 1)) == x.drop_first()) by {
            assert(t.subrange(i + 1, i + x.len()) =~= x.drop_first());
        }
        assert(all_digits(x.drop_first())) by {
            assert(forall|k: int|
                0 <= k < x.drop_first().len() ==> #[trigger] x.drop_first()[k] == x[k + 1]);
        }
        lemma_scan_digits_exact(t, i + 1, x.drop_first());
    }
}

/// Reading back an encoded non-empty tag array finds exactly the tags
/// that were written.
pub proof fn lemma_parse_tags_ne_exact(t: Seq<char>, i: int, tags: Seq<Seq<char>>)
    requires
        0 <= i,
        tags.len() >= 1,
        forall|k: int| 0 <= k < tags.len() ==> json_plain(#[trigger] tags[k]),
        i + enc_tags(tags).len() < t.len(),
        t.subrange(i, i + enc_tags(tags).len()) == enc_tags(tags),
        t[i + enc_tags(tags).len()] == ']',
    ensures
        spec_parse_tags_ne(t, i) == Some((tags, i + enc_tags(tags).len())),
    decreases tags.len(),
{
    let tag0 = tags[0];
    let enc = enc_tags(tags);
    let end = i + enc.len();
    assert(t[i] == enc[0]) by {
        assert(t.subrange(i, end)[0] == t[i]);
    }
    if tags.len() == 1 {
        assert(enc == enc_str(tag0));
        assert(enc[0] == '"');
        assert forall|k: int| 0 <= k < tag0.len() implies t.subrange(
            i + 1,
            i + 1 + tag0.len() as int,
        )[k] == tag0[k] by {
            assert(t.subrange(i, end)[k + 1] == t[i + 1 + k]);
            assert(enc[k + 1] == tag0[k]);
        }
        assert(t.subrange(i + 1, i + 1 + tag0.len()) =~= tag0);
        assert(t[i + 1 + tag0.len()] == '"') by {
            assert(t.subrange(i, end)[tag0.len() as int + 1] == t[i + 1 + tag0.len()]);
            assert(enc[tag0.len() as int + 1] == '"');
        }
        lemma_scan_plain_exact(t, i + 1, tag0);
        let e = i + 1 + tag0.len();
        let j = e + 1;
        assert(j == end);
        assert(t[j] == ']');
        assert(t.subrange(i + 1, e) =~= tag0);
        assert(seq![tag0] =~= tags);
    } else {
        let rest = tags.drop_first();
        assert(enc == enc_str(tag0) + seq![','] + enc_tags(rest));
        assert(enc[0] == '"');
        assert forall|k: int| 0 <= k < tag0.len() implies t.subrange(
            i + 1,
            i + 1 + tag0.len() as int,
        )[k] == tag0[k] by {
            assert(t.subrange(i, end)[k + 1] == t[i + 1 + k]);
            assert(enc[k + 1] == enc_str(tag0)[k + 1]);
            assert(enc_str(tag0)[k + 1] == tag0[k]);
        }
        assert(t.subrange(i + 1, i + 1 + tag0.len()) =~= tag0);
        assert(t[i + 1 + tag0.len()] == '"') by {
            assert(t.subrange(i, end)[tag0.len() as int + 1] == t[i + 1 + tag0.len()]);
            assert(enc[tag0.len() as int + 1] == '"');
        }
        lemma_scan_plain_exact(t, i + 1, tag0);
        let e = i + 1 + tag0.len();
        let j = e + 1;
        assert(t[j] == ',') by {
            assert(t.subrange(i, end)[tag0.len() as int + 2] == t[j]);
            assert(enc[tag0.len() as int + 2] == ',');
        }
        assert(j < t.len());
        assert forall|k: int| 0 <= k < enc_tags(rest).len() implies t.subrange(
            j + 1,
            j + 1 + enc_tags(rest).len() as int,
        )[k] == enc_tags(rest)[k] by {
            assert(t.subrange(i, end)[tag0.len() as int + 3 + k] == t[j + 1 + k]);
            assert(enc[tag0.len() as int + 3 + k] == enc_tags(rest)[k]);
        }
        assert(t.subrange(j + 1, j + 1 + enc_tags(rest).len()) =~= enc_tags(rest));
        assert(j + 1 + enc_tags(rest).len() == end);
        assert(forall|k: int| 0 <= k < rest.len() ==> json_plain(#[trigger] rest[k])) by {
            assert(forall|k: int| 0 <= k < rest.len() ==> #[trigger] rest[k] == tags[k + 1]);
        }
        lemma_parse_tags_ne_exact(t, j + 1, rest);
        assert(t.subrange(i + 1, e) =~= tag0);
        assert(seq![tag0] + rest =~= tags);
    }
}

/// Whether `c` can stand verbatim inside a JSON string.
pub fn is_plain_char(c: char) -> (b: bool)
    ensures
        b == plain_char(c),
{
    c != '"' && c != '\\' && (c as u32) >= 32
}

/// Whether every character of `s` can stand verbatim inside a JSON string.
pub fn str_is_plain(s: &str) -> (b: bool)
    ensures
        b == json_plain(s@),
{
    let n = s.unicode_len();
    let mut k: usize = 0;
    while k < n
        invariant
            k <= n,
            n == s@.len(),
            forall|x: int| 0 <= x < k ==> plain_char(#[trigger] s@[x]),
        decreases n - k,
    {
        if !is_plain_char(s.get_char(k)) {
            return false;
        }
        k += 1;
    }
    true
}

/// Whether `s` holds `lit` starting at character `i`.
pub(crate) fn starts_with_lit(s: &str, i: usize, lit: &str) -> (b: bool)
    ensures
        b == starts_with_at(s@, i as int, lit@),
{
    let n = s.unicode_len();
    let m = lit.unicode_len();
    if i > n || m > n - i {
        return false;
    }
    let mut k: usize = 0;
    while k < m
        invariant
            k <= m,
            i + m <= n,
            n == s@.len(),
            m == lit@.len(),
            forall|x: int| 0 <= x < k ==> s@[i + x] == #[trigger] lit@[x],
        decreases m - k,
    {
        if s.get_char(i + k) != lit.get_char(k) {
            proof {
                assert(s@.subrange(i as int, i + lit@.len())[k as int] != lit@[k as int]);
            }
            return false;
        }
        k += 1;
    }
    proof {
        assert(s@.subrange(i as int, i + lit@.len()) =~= lit@);
    }
    true
}

/// Finds the quote closing a string of the document, scanning from `i`.
fn scan_plain_str(s: &str, i: usize) -> (r: Option<usize>)
    ensures
        match r {
            Some(e) => scan_plain(s@, i as int) == Some(e as int),
            None => scan_plain(s@, i as int) is None,
        },
{
    let n = s.unicode_len();
    let mut j: usize = i;
    while j < n
        invariant
            i <= j,
            n == s@.len(),
            scan_plain(s@, i as int) == scan_plain(s@, j as int),
        decreases n - j,
    {
        let c = s.get_char(j);
        if c == '"' {
            return Some(j);
        } else if is_plain_char(c) {
            j += 1;
        } else {
            return None;
        }
    }
    None
}

/// Finds the end of the digit run starting at `i`.
fn scan_digits_str(s: &str, i: usize) -> (e: usize)
    requires
        i <= s@.len(),
    ensures
        e as int == scan_digits(s@, i as int),
        i <= e <= s@.len(),
{
    let n = s.unicode_len();
    let mut j: usize = i;
    while j < n
        invariant
            i <= j <= n,
            n == s@.len(),
            scan_digits(s@, i as int) == scan_digits(s@, j as int),
        decreases n - j,
    {
        let c = s.get_char(j);
        if crate::decimal::is_digit_char(c) {
            j += 1;
        } else {
            return j;
        }
    }
    n
}

/// Reads one or more quoted tags separated by commas, starting at `i`;
/// returns the tags and the index of the closing bracket.
fn parse_tags_str(s: &str, i: usize) -> (r: Option<(Vec<String>, usize)>)
    ensures
        match r {
            Some((tags, j)) => spec_parse_tags_ne(s@, i as int) == Some(
                (tags.deep_view(), j as int),
            ) && j < s@.len(),
            None => spec_parse_tags_ne(s@, i as int) is None,
        },
    decreases s@.len() - i,
{
    let n = s.unicode_len();
    if i >= n {
        return None;
    }
    if s.get_char(i) != '"' {
        return None;
    }
    match scan_plain_str(s, i + 1) {
        None => None,
        Some(e) => {
            proof {
                lemma_scan_plain_bounds(s@, i + 1);
            }
            let tag = s.substring_char(i + 1, e).to_owned();
            let j = e + 1;
            if j < n {
                let c2 = s.get_char(j);
                if c2 == ',' {
                    match parse_tags_str(s, j + 1) {
                        None => None,
                        Some((mut tags, k)) => {
                            tags.insert(0, tag);
                            proof {
                                let stag = s@.subrange(i + 1, e as int);
                                assert(tags.deep_view() =~= seq![stag]
                                    + tags.deep_view().drop_first());
                            }
                            Some((tags, k))
                        },
                    }
                } else if c2 == ']' {
                    let mut tags: Vec<String> = Vec::new();
                    tags.push(tag);
                    proof {
                        let stag = s@.subrange(i + 1, e as int);
                        assert(tags.deep_view() =~= seq![stag]);
                    }
                    Some((tags, j))
                } else {
                    None
                }
            } else {
                None
            }
        },
    }
}

/// Reads a metadata document. Returns the record it describes, or
/// nothing when the text is not a well-formed document of this shape:
/// rehydration treats such a directory as corrupt and skips it.
pub fn parse_meta(s: &str) -> (r: Option<crate::records::ImageMeta>)
    ensures
        match r {
            Some(m) => spec_parse_meta(s@) == Some(m@),
            None => spec_parse_meta(s@) is None,
        },
{
    let lit1 = "{\"id\":\"";
    let lit2 = "\",\"repo_tags\":[";
    let lit3 = "],\"size\":";
    proof {
        reveal_strlit("{\"id\":\"");
        reveal_strlit("\",\"repo_tags\":[");
        reveal_strlit("],\"size\":");
        assert(lit1@ =~= lit_head());
        assert(lit2@ =~= lit_mid());
        assert(lit3@ =~= lit_tail());
    }
    let n = s.unicode_len();
    if !starts_with_lit(s, 0, lit1) {
        return None;
    }
    let e1 = match scan_plain_str(s, 7) {
        None => {
            return None;
        },
        Some(e1) => e1,
    };
    proof {
        lemma_scan_plain_bounds(s@, 7);
    }
    let id = s.substring_char(7, e1).to_owned();
    if !starts_with_lit(s, e1, lit2) {
        return None;
    }
    let i3 = e1 + 15;
    assert(i3 <= s@.len());
    let (tags, i4) = if i3 < n && s.get_char(i3) == ']' {
        (Vec::<String>::new(), i3)
    } else {
        proof {
            assert(spec_parse_tags(s@, i3 as int) == spec_parse_tags_ne(s@, i3 as int));
        }
        match parse_tags_str(s, i3) {
            None => {
                return None;
            },
            Some(p) => p,
        }
    };
    proof {
        assert(spec_parse_tags(s@, i3 as int) == Some((tags.deep_view(), i4 as int)));
    }
    if !starts_with_lit(s, i4, lit3) {
        return None;
    }
    let i5 = i4 + 9;
    assert(i5 <= s@.len());
    let e2 = scan_digits_str(s, i5);
    if e2 == i5 {
        return None;
    }
    proof {
        lemma_scan_digits_bounds(s@, i5 as int);
    }
    let size = match crate::decimal::parse_dec_region(s, i5, e2) {
        None => {
            return None;
        },
        Some(v) => v,
    };
    if e2 < n && e2 + 1 == n && s.get_char(e2) == '}' {
        let m = crate::records::ImageMeta { id, repo_tags: tags, size };
        proof {
            assert(m@.id == s@.subrange(7, e1 as int));
            assert(m@.repo_tags == tags.deep_view());
        }
        Some(m)
    } else {
        None
    }
}

/// Appending a tag on the right extends the encoded array by a comma
/// (when it is not the first) and the encoded tag.
pub proof fn lemma_enc_tags_snoc(tags: Seq<Seq<char>>, x: Seq<char>)
    ensures
        tags.len() == 0 ==> enc_tags(tags.push(x)) == enc_str(x),
        tags.len() > 0 ==> enc_tags(tags.push(x)) == enc_tags(tags) + seq![','] + enc_str(x),
    decreases tags.len(),
{
    let p = tags.push(x);
    if tags.len() == 0 {
        assert(p.len() == 1);
        assert(p[0] == x);
    } else if tags.len() == 1 {
        assert(p.len() == 2);
        assert(p[0] == tags[0]);
        assert(p.drop_first() =~= seq![x]);
        assert(enc_tags(seq![x]) == enc_str(x));
        assert(enc_tags(tags) == enc_str(tags[0]));
    } else {
        assert(p[0] == tags[0]);
        assert(p.drop_first() =~= tags.drop_first().push(x));
        lemma_enc_tags_snoc(tags.drop_first(), x);
        assert(enc_tags(p) =~= enc_tags(tags) + seq![','] + enc_str(x));
    }
}

/// Writes the metadata document for `m`. Returns nothing exactly when a
/// string of `m` holds a character that would need JSON escaping, which
/// validated identifiers and references never do.
pub fn encode_meta(m: &crate::records::ImageMeta) -> (r: Option<String>)
    ensures
        match r {
            Some(s) => meta_wf(m@) && s@ == spec_encode_meta(m@),
            None => !meta_wf(m@),
        },
{
    if !str_is_plain(m.id.as_str()) {
        return None;
    }
    let ghost tagviews = m.repo_tags.deep_view();
    let mut k: usize = 0;
    while k < m.repo_tags.len()
        invariant
            k <= m.repo_tags.len(),
            tagviews == m.repo_tags.deep_view(),
            forall|x: int| 0 <= x < k ==> json_plain(#[trigger] tagviews[x]),
        decreases m.repo_tags.len() - k,
    {
        if !str_is_plain(m.repo_tags[k].as_str()) {
            proof {
                assert(tagviews[k as int] == m.repo_tags@[k as int]@);
                assert(!json_plain(m@.repo_tags[k as int]));
            }
            return None;
        }
        k += 1;
    }
    let mut out = "{\"id\":\"".to_owned();
    proof {
        reveal_strlit("{\"id\":\"");
        assert(out@ =~= lit_head());
    }
    out.append(m.id.as_str());
    out.append("\",\"repo_tags\":[");
    proof {
        reveal_strlit("\",\"repo_tags\":[");
        assert(("\",\"repo_tags\":["@) =~= lit_mid());
        assert(out@ == lit_head() + m.id@ + lit_mid());
    }
    let mut k: usize = 0;
    while k < m.repo_tags.len()
        invariant
            k <= m.repo_tags.len(),
            tagviews == m.repo_tags.deep_view(),
            forall|x: int| 0 <= x < tagviews.len() ==> json_plain(#[trigger] tagviews[x]),
            out@ == lit_head() + m.id@ + lit_mid() + enc_tags(tagviews.take(k as int)),
        decreases m.repo_tags.len() - k,
    {
        let ghost before = out@;
        if k > 0 {
            out.append(",");
        }
        out.append("\"");
        out.append(m.repo_tags[k].as_str());
        out.append("\"");
        proof {
            reveal_strlit(",");
            reveal_strlit("\"");
            lemma_enc_tags_snoc(tagviews.take(k as int), tagviews[k as int]);
            assert(tagviews.take(k as int).push(tagviews[k as int]) =~= tagviews.take(
                k as int + 1,
            ));
            if k > 0 {
                assert(out@ =~= before + seq![','] + enc_str(tagviews[k as int]));
            } else {
                assert(out@ =~= before + enc_str(tagviews[k as int]));
            }
            assert(out@ =~= lit_head() + m.id@ + lit_mid() + enc_tags(tagviews.take(k as int + 1)));
        }
        k += 1;
    }
    proof {
        assert(tagviews.take(m.repo_tags@.len() as int) =~= tagviews);
    }
    out.append("],\"size\":");
    let dec = crate::decimal::u64_to_dec(m.size);
    out.append(dec.as_str());
    out.append("}");
    proof {
        reveal_strlit("],\"size\":");
        reveal_strlit("}");
        assert(("],\"size\":"@) =~= lit_tail());
        assert(("}"@) =~= seq!['}']);
        assert(out@ =~= spec_encode_meta(m@));
    }
    Some(out)
}

/// Writing a metadata document and reading it back yields the record that
/// was written: the parser inverts the encoder on every well-formed record.
pub proof fn lemma_meta_round_trip(m: ImageRecordView)
    requires
        meta_wf(m),
    ensures
        spec_parse_meta(spec_encode_meta(m)) == Some(m),
{
    let t = spec_encode_meta(m);
    let h = lit_head();
    let mid = lit_mid();
    let tl = lit_tail();
    let etags = enc_tags(m.repo_tags);
    let digits = dec_seq(m.size as nat);
    lemma_dec_seq_val(m.size as nat);
    let p1 = h.len() as int;
    let e1 = p1 + m.id.len();
    let i3 = e1 + mid.len();
    let i4 = i3 + etags.len();
    let i5 = i4 + tl.len();
    let e2 = i5 + digits.len();
    assert(t.len() == e2 + 1);
    assert(t.subrange(0, p1) =~= h);
    assert(starts_with_at(t, 0, h));
    assert(t.subrange(p1, e1) =~= m.id);
    assert(t.subrange(e1, i3) =~= mid);
    assert(t[e1] == '"') by {
        assert(t.subrange(e1, i3)[0] == t[e1]);
    }
    lemma_scan_plain_exact(t, p1, m.id);
    assert(starts_with_at(t, e1, mid));
    assert(t.subrange(i3, i4) =~= etags);
    assert(t.subrange(i4, i5) =~= tl);
    assert(t[i4] == ']') by {
        assert(t.subrange(i4, i5)[0] == t[i4]);
    }
    if m.repo_tags.len() == 0 {
        assert(etags.len() == 0);
        assert(spec_parse_tags(t, i3) == Some((Seq::<Seq<char>>::empty(), i4)));
        assert(Seq::<Seq<char>>::empty() =~= m.repo_tags);
    } else {
        assert(etags[0] == '"') by {
            if m.repo_tags.len() == 1 {
                assert(etags == enc_str(m.repo_tags[0]));
            } else {
                assert(etags == enc_str(m.repo_tags[0]) + seq![','] + enc_tags(
                    m.repo_tags.drop_first(),
                ));
            }
        }
        assert(t[i3] == '"') by {
            assert(t.subrange(i3, i4)[0] == t[i3]);
        }
        assert(t[i3] != ']');
        lemma_parse_tags_ne_exact(t, i3, m.repo_tags);
        assert(spec_parse_tags(t, i3) == Some((m.repo_tags, i4)));
    }
    assert(starts_with_at(t, i4, tl));
    assert(t.subrange(i5, e2) =~= digits);
    assert(t[e2] == '}') by {
        assert(t[t.len() - 1] == '}');
    }
    assert(!is_digit('}'));
    lemma_scan_digits_exact(t, i5, digits);
    assert(digits.len() >= 1);
    assert(dec_val(digits) == m.size as nat);
    assert(dec_val(t.subrange(i5, e2)) <= u64::MAX);
    assert(spec_parse_meta(t) == Some(
        ImageRecordView { id: m.id, repo_tags: m.repo_tags, size: m.size },
    ));
    assert(ImageRecordView { id: m.id, repo_tags: m.repo_tags, size: m.size } == m);
}

} // verus!
