//! The cache extractor: scans a raw web-cache byte buffer and returns the
//! cached draw-history URLs it holds, most recent first.
//!
//! The buffer is treated as an append log of newline-delimited records; a
//! record holds NUL-delimited fields. A record is relevant when it holds the
//! marker `"gacha-v2/"`; its URL is the first field carrying the cache-index
//! prefix `"1/0/"`, with that prefix stripped.

use vstd::prelude::*;
use vstd::slice::slice_to_vec;

use crate::text::{
    contains_seq, find_from, lemma_find_from_none, lemma_find_from_offset,
    lemma_find_from_unique, lemma_find_iff_contains, matches_at, split_seq, starts_with,
};

verus! {

/// The record delimiter: a newline byte.
pub open spec fn newline() -> u8 {
    10u8
}

/// The field delimiter: a NUL byte.
pub open spec fn nul() -> u8 {
    0u8
}

/// The marker that signals a draw-history record.
pub open spec fn marker() -> Seq<u8> {
    seq![103u8, 97u8, 99u8, 104u8, 97u8, 45u8, 118u8, 50u8, 47u8]
}

/// The cache-index prefix that announces a stored URL field.
pub open spec fn url_prefix() -> Seq<u8> {
    seq![49u8, 47u8, 48u8, 47u8]
}

/// The first field at or after position `j` that begins with the URL prefix,
/// with the prefix stripped; nothing when no such field exists.
pub open spec fn first_prefixed_url_from(fields: Seq<Seq<u8>>, j: int) -> Option<Seq<u8>>
    decreases fields.len() - j,
{
    if j < 0 || j >= fields.len() {
        None
    } else if starts_with(fields[j], url_prefix()) {
        Some(fields[j].skip(url_prefix().len() as int))
    } else {
        first_prefixed_url_from(fields, j + 1)
    }
}

/// The URL a record contributes: its first NUL-delimited field that begins
/// with the URL prefix, stripped of that prefix.
pub open spec fn record_url(rec: Seq<u8>) -> Option<Seq<u8>> {
    first_prefixed_url_from(split_seq(rec, seq![nul()]), 0)
}

/// What one record adds to the output: one URL when the record holds the
/// marker and a prefixed field, nothing otherwise.
pub open spec fn line_contrib(rec: Seq<u8>) -> Seq<Seq<u8>> {
    if contains_seq(rec, marker()) {
        match record_url(rec) {
            Some(u) => seq![u],
            None => Seq::empty(),
        }
    } else {
        Seq::empty()
    }
}

/// The URLs of the records `lines[0], ..., lines[j-1]`, contributed in
/// reverse record order: the record at `j - 1` comes first.
pub open spec fn extract_upto(lines: Seq<Seq<u8>>, j: int) -> Seq<Seq<u8>>
    decreases j,
{
    if j <= 0 {
        Seq::empty()
    } else {
        line_contrib(lines[j - 1]) + extract_upto(lines, j - 1)
    }
}

/// The URL byte sequences extracted from a raw buffer, most recent (latest
/// byte position) first.
pub open spec fn extract_spec(data: Seq<u8>) -> Seq<Seq<u8>> {
    let lines = split_seq(data, seq![newline()]);
    extract_upto(lines, lines.len() as int)
}

/// What `String::from_utf8_lossy` decodes a byte sequence to.
pub uninterp spec fn lossy_of(bytes: Seq<u8>) -> Seq<char>;

/// Each extracted byte sequence, decoded.
pub open spec fn lossy_all(urls: Seq<Seq<u8>>) -> Seq<Seq<char>> {
    urls.map_values(|u: Seq<u8>| lossy_of(u))
}

/// The URL strings extracted from a raw buffer, most recent first.
pub open spec fn extraction_of(data: Seq<u8>) -> Seq<Seq<char>> {
    lossy_all(extract_spec(data))
}

/// Relies on `String::from_utf8_lossy` of std: the decoding is a function of
/// the bytes alone, never fails, and replaces invalid sequences.
#[verifier::external_body]
fn lossy_string(bytes: &[u8]) -> (r: String)
    ensures
        r@ == lossy_of(bytes@),
{
    String::from_utf8_lossy(bytes).into_owned()
}

/// Whether the pattern `p` stands in `s` at position `i`.
fn is_match_at(s: &[u8], p: &[u8], i: usize) -> (b: bool)
    requires
        i + p@.len() <= s@.len(),
    ensures
        b == matches_at(s@, p@, i as int),
{
    let sl = s.len();
    let pl = p.len();
    let mut j: usize = 0;
    while j < pl
        invariant
            j <= pl,
            pl == p@.len(),
            sl == s@.len(),
            i + pl <= sl,
            forall|t: int| 0 <= t < j ==> s@[i + t] == p@[t],
        decreases pl - j,
    {
        if s[i + j] != p[j] {
            proof {
                assert(s@.subrange(i as int, i + p@.len() as int)[j as int] == s@[i + j]);
            }
            return false;
        }
        j += 1;
    }
    proof {
        assert(s@.subrange(i as int, i + p@.len() as int) =~= p@);
    }
    true
}

/// Position of the leftmost occurrence of `p` in `s` at or after `from`.
fn find_sub(s: &[u8], p: &[u8], from: usize) -> (r: Option<usize>)
    requires
        p@.len() >= 1,
    ensures
        match r {
            Some(i) => from <= i && i + p@.len() <= s@.len()
                && i as int == find_from(s@, p@, from as int),
            None => find_from(s@, p@, from as int) == -1,
        },
{
    let sl = s.len();
    let pl = p.len();
    if pl > sl || from > sl - pl {
        proof {
            assert forall|i: int| from as int <= i implies !matches_at(s@, p@, i) by {
                assert(i + p@.len() > s@.len());
            }
            lemma_find_from_none(s@, p@, from as int);
        }
        return None;
    }
    let mut i = from;
    while i <= sl - pl
        invariant
            from <= i,
            1 <= pl <= sl,
            sl == s@.len(),
            pl == p@.len(),
            i <= sl - pl + 1,
            forall|t: int| from <= t < i ==> !matches_at(s@, p@, t),
        decreases sl - i,
    {
        if is_match_at(s, p, i) {
            proof {
                lemma_find_from_unique(s@, p@, from as int, i as int);
            }
            return Some(i);
        }
        i += 1;
    }
    proof {
        assert forall|t: int| from as int <= t implies !matches_at(s@, p@, t) by {
            if t >= i {
                assert(t + p@.len() > s@.len());
            }
        }
        lemma_find_from_none(s@, p@, from as int);
    }
    None
}

/// Whether the pattern `p` occurs anywhere in `s`.
fn contains_bytes(s: &[u8], p: &[u8]) -> (b: bool)
    requires
        p@.len() >= 1,
    ensures
        b == contains_seq(s@, p@),
{
    let r = find_sub(s, p, 0);
    proof {
        lemma_find_iff_contains(s@, p@);
    }
    r.is_some()
}

/// Whether `s` begins with the pattern `p`.
fn has_prefix(s: &[u8], p: &[u8]) -> (b: bool)
    ensures
        b == starts_with(s@, p@),
{
    if p.len() > s.len() {
        return false;
    }
    is_match_at(s, p, 0)
}

/// Split `s` on every occurrence of the byte `d`.
fn split_byte(s: &[u8], d: u8) -> (parts: Vec<Vec<u8>>)
    ensures
        parts.deep_view() == split_seq(s@, seq![d]),
{
    let mut pat: Vec<u8> = Vec::new();
    pat.push(d);
    proof {
        assert(pat@ =~= seq![d]);
    }
    let sl = s.len();
    let mut parts: Vec<Vec<u8>> = Vec::new();
    let mut start: usize = 0;
    proof {
        assert(s@.skip(0) =~= s@);
        assert(parts.deep_view() =~= Seq::<Seq<u8>>::empty());
        assert(parts.deep_view() + split_seq(s@.skip(0), seq![d]) =~= split_seq(s@, seq![d]));
    }
    loop
        invariant
            start <= sl,
            sl == s@.len(),
            pat@ == seq![d],
            split_seq(s@, seq![d]) =~= parts.deep_view() + split_seq(s@.skip(start as int), seq![d]),
        decreases sl - start,
    {
        let ghost old_parts = parts.deep_view();
        let ghost suf = s@.skip(start as int);
        proof {
            lemma_find_from_offset(s@, seq![d], start as int);
        }
        match find_sub(s, pat.as_slice(), start) {
            Some(i) => {
                let piece = slice_to_vec(&s[start..i]);
                proof {
                    assert(find_from(suf, seq![d], 0) == i - start);
                    assert(split_seq(suf, seq![d]) == seq![suf.subrange(0, i - start)]
                        + split_seq(suf.skip(i - start + 1), seq![d]));
                    assert(suf.subrange(0, i - start) =~= s@.subrange(start as int, i as int));
                    assert(suf.skip(i - start + 1) =~= s@.skip(i + 1));
                    assert(piece@ == s@.subrange(start as int, i as int));
                }
                parts.push(piece);
                proof {
                    assert(parts.deep_view() =~~= old_parts.push(suf.subrange(0, i - start)));
                    assert(parts.deep_view() + split_seq(s@.skip(i + 1), seq![d])
                        =~= old_parts + split_seq(suf, seq![d]));
                }
                start = i + 1;
            },
            None => {
                let piece = slice_to_vec(&s[start..sl]);
                proof {
                    assert(find_from(suf, seq![d], 0) == -1);
                    assert(split_seq(suf, seq![d]) == seq![suf]);
                    assert(piece@ =~= suf);
                }
                parts.push(piece);
                proof {
                    assert(parts.deep_view() =~~= old_parts.push(suf));
                    assert(parts.deep_view() =~= old_parts + split_seq(suf, seq![d]));
                }
                return parts;
            },
        }
    }
}

/// The marker bytes, `"gacha-v2/"`.
fn marker_bytes() -> (v: Vec<u8>)
    ensures
        v@ == marker(),
{
    let mut v: Vec<u8> = Vec::new();
    v.push(103u8);
    v.push(97u8);
    v.push(99u8);
    v.push(104u8);
    v.push(97u8);
    v.push(45u8);
    v.push(118u8);
    v.push(50u8);
    v.push(47u8);
    proof {
        assert(v@ =~= marker());
    }
    v
}

/// The URL prefix bytes, `"1/0/"`.
fn url_prefix_bytes() -> (v: Vec<u8>)
    ensures
        v@ == url_prefix(),
{
    let mut v: Vec<u8> = Vec::new();
    v.push(49u8);
    v.push(47u8);
    v.push(48u8);
    v.push(47u8);
    proof {
        assert(v@ =~= url_prefix());
    }
    v
}

/// The URL of one record: its first NUL-delimited field beginning with the
/// URL prefix, with the prefix stripped.
fn record_url_bytes(rec: &[u8]) -> (r: Option<Vec<u8>>)
    ensures
        match r {
            Some(v) => record_url(rec@) == Some(v@),
            None => record_url(rec@) is None,
        },
{
    let fields = split_byte(rec, 0u8);
    let pre = url_prefix_bytes();
    let ghost fseq = fields.deep_view();
    proof {
        assert(fseq == split_seq(rec@, seq![nul()]));
    }
    let n = fields.len();
    let mut j: usize = 0;
    while j < n
        invariant
            j <= n,
            n == fields@.len(),
            fseq == fields.deep_view(),
            fseq == split_seq(rec@, seq![nul()]),
            pre@ == url_prefix(),
            record_url(rec@) == first_prefixed_url_from(fseq, j as int),
        decreases n - j,
    {
        proof {
            assert(fseq[j as int] == fields@[j as int]@);
        }
        if has_prefix(fields[j].as_slice(), pre.as_slice()) {
            let fj = fields[j].as_slice();
            let url = slice_to_vec(&fj[pre.len()..fj.len()]);
            proof {
                assert(starts_with(fseq[j as int], url_prefix()));
                assert(first_prefixed_url_from(fseq, j as int)
                    == Some(fseq[j as int].skip(url_prefix().len() as int)));
                assert(url@ =~= fseq[j as int].skip(url_prefix().len() as int));
            }
            return Some(url);
        }
        j += 1;
    }
    proof {
        assert(first_prefixed_url_from(fseq, n as int) is None);
    }
    None
}

/// Extract the cached draw-history URLs from a raw cache buffer.
///
/// The buffer's newline-delimited records are visited from the last byte
/// position backwards, so the returned URLs come most recent first. A record
/// counts only when it holds the marker `"gacha-v2/"` and a NUL-delimited
/// field beginning with `"1/0/"`; that field, prefix stripped and decoded
/// with replacement of invalid byte sequences, is its URL. The result may be
/// empty; extraction itself never fails.
pub fn parse_wishes_urls(data: &[u8]) -> (urls: Vec<String>)
    ensures
        urls.deep_view() == extraction_of(data@),
{
    let lines = split_byte(data, 10u8);
    let mark = marker_bytes();
    let ghost lseq = lines.deep_view();
    let n = lines.len();
    proof {
        assert(lseq == split_seq(data@, seq![newline()]));
        assert(lseq.len() == n);
        assert(extract_spec(data@) == extract_upto(lseq, n as int));
    }
    let mut urls: Vec<String> = Vec::new();
    let mut j = n;
    while j > 0
        invariant
            j <= n,
            n == lines@.len(),
            lseq == lines.deep_view(),
            mark@ == marker(),
            urls.deep_view() + lossy_all(extract_upto(lseq, j as int)) =~= extraction_of(data@),
        decreases j,
    {
        let ghost old_urls = urls.deep_view();
        let ghost rec = lseq[j - 1];
        proof {
            assert(rec == lines@[j - 1]@);
            assert(extract_upto(lseq, j as int) == line_contrib(rec) + extract_upto(lseq, j - 1));
        }
        let line = lines[j - 1].as_slice();
        if contains_bytes(line, mark.as_slice()) {
            match record_url_bytes(line) {
                Some(url_bytes) => {
                    let url = lossy_string(url_bytes.as_slice());
                    proof {
                        assert(line_contrib(rec) =~= seq![url_bytes@]);
                    }
                    urls.push(url);
                    proof {
                        assert(urls.deep_view() =~= old_urls.push(lossy_of(url_bytes@)));
                        assert(lossy_all(line_contrib(rec) + extract_upto(lseq, j - 1))
                            =~= seq![lossy_of(url_bytes@)] + lossy_all(extract_upto(lseq, j - 1)));
                        assert(urls.deep_view() + lossy_all(extract_upto(lseq, j - 1))
                            =~= old_urls + lossy_all(extract_upto(lseq, j as int)));
                    }
                },
                None => {
                    proof {
                        assert(line_contrib(rec) =~= Seq::<Seq<u8>>::empty());
                        assert(lossy_all(extract_upto(lseq, j - 1))
                            =~= lossy_all(extract_upto(lseq, j as int)));
                    }
                },
            }
        } else {
            proof {
                assert(line_contrib(rec) =~= Seq::<Seq<u8>>::empty());
                assert(lossy_all(extract_upto(lseq, j - 1))
                    =~= lossy_all(extract_upto(lseq, j as int)));
            }
        }
        j -= 1;
    }
    proof {
        assert(lossy_all(extract_upto(lseq, 0)) =~= Seq::<Seq<char>>::empty());
        assert(urls.deep_view() + Seq::<Seq<char>>::empty() =~= urls.deep_view());
    }
    urls
}

} // verus!
