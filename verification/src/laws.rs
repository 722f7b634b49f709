//! The laws of the extractor and the resolver, proved against the spec
//! functions that the executable contracts are stated over.

use vstd::prelude::*;

use crate::extract::{
    extract_spec, extract_upto, extraction_of, line_contrib, marker, newline, nul, record_url,
    url_prefix,
};
use crate::game::Game;
use crate::text::{
    contains_seq, find_from, join_with, lemma_contains_in_subrange, lemma_find_from_props,
    lemma_find_iff_contains, lemma_split_join, matches_at, split_seq,
    starts_with,
};
use crate::url::{base_of, build_data_url_spec, gacha_type_param, gacha_value, key_of, query_of};

verus! {

/// Prepending one record shifts its contribution to the end of the output:
/// the records after it are younger and come first.
proof fn lemma_extract_upto_prepend(x: Seq<u8>, lines: Seq<Seq<u8>>, j: int)
    requires
        0 <= j <= lines.len(),
    ensures
        extract_upto(seq![x] + lines, j + 1) == extract_upto(lines, j) + line_contrib(x),
    decreases j,
{
    let pl = seq![x] + lines;
    if j == 0 {
        assert(pl[0] == x);
        assert(extract_upto(pl, 1) == line_contrib(x) + extract_upto(pl, 0));
        assert(line_contrib(x) + Seq::<Seq<u8>>::empty() =~= line_contrib(x));
        assert(extract_upto(lines, 0) + line_contrib(x) =~= line_contrib(x));
    } else {
        lemma_extract_upto_prepend(x, lines, j - 1);
        assert(pl[j] == lines[j - 1]);
        assert(extract_upto(pl, j + 1) == line_contrib(pl[j]) + extract_upto(pl, j));
        assert(extract_upto(lines, j) == line_contrib(lines[j - 1]) + extract_upto(lines, j - 1));
        assert(line_contrib(lines[j - 1]) + (extract_upto(lines, j - 1) + line_contrib(x))
            =~= (line_contrib(lines[j - 1]) + extract_upto(lines, j - 1)) + line_contrib(x));
    }
}

/// A buffer in which the marker never occurs extracts to the empty sequence.
pub proof fn lemma_extract_no_marker(data: Seq<u8>)
    requires
        !contains_seq(data, marker()),
    ensures
        extract_spec(data) == Seq::<Seq<u8>>::empty(),
    decreases data.len(),
{
    let nl = seq![newline()];
    lemma_find_from_props(data, nl, 0);
    let i = find_from(data, nl, 0);
    if i < 0 {
        let lines = split_seq(data, nl);
        assert(lines == seq![data]);
        assert(extract_upto(lines, 1) == line_contrib(lines[0]) + extract_upto(lines, 0));
        assert(line_contrib(data) =~= Seq::<Seq<u8>>::empty());
        assert(line_contrib(data) + Seq::<Seq<u8>>::empty() =~= Seq::<Seq<u8>>::empty());
    } else {
        let head = data.subrange(0, i);
        let tail = data.skip(i + 1);
        if contains_seq(head, marker()) {
            lemma_contains_in_subrange(data, marker(), 0, i);
        }
        if contains_seq(tail, marker()) {
            assert(tail =~= data.subrange(i + 1, data.len() as int));
            lemma_contains_in_subrange(data, marker(), i + 1, data.len() as int);
        }
        lemma_extract_no_marker(tail);
        let tl = split_seq(tail, nl);
        assert(split_seq(data, nl) == seq![head] + tl);
        lemma_extract_upto_prepend(head, tl, tl.len() as int);
        assert(line_contrib(head) =~= Seq::<Seq<u8>>::empty());
        assert(extract_upto(tl, tl.len() as int) + line_contrib(head)
            =~= Seq::<Seq<u8>>::empty());
        assert((seq![head] + tl).len() == tl.len() + 1);
    }
}

/// A record none of whose fields begins with the URL prefix yields no URL.
proof fn lemma_no_prefix_none(fields: Seq<Seq<u8>>, j: int)
    requires
        forall|f: int| 0 <= f < fields.len() ==> !starts_with(#[trigger] fields[f], url_prefix()),
        0 <= j,
    ensures
        crate::extract::first_prefixed_url_from(fields, j) is None,
    decreases fields.len() - j,
{
    if j < fields.len() {
        lemma_no_prefix_none(fields, j + 1);
    }
}

/// The first `j` records alone decide the first `j` contributions.
proof fn lemma_extract_upto_agree(a: Seq<Seq<u8>>, b: Seq<Seq<u8>>, j: int)
    requires
        0 <= j <= a.len(),
        j <= b.len(),
        forall|i: int| 0 <= i < j ==> a[i] == b[i],
    ensures
        extract_upto(a, j) == extract_upto(b, j),
    decreases j,
{
    if j > 0 {
        lemma_extract_upto_agree(a, b, j - 1);
    }
}

/// Records that all qualify contribute exactly one URL each, youngest record
/// first.
proof fn lemma_upto_all_qualifying(lines: Seq<Seq<u8>>, j: int)
    requires
        0 <= j <= lines.len(),
        forall|k: int| 0 <= k < lines.len() ==> contains_seq(#[trigger] lines[k], marker()),
        forall|k: int| 0 <= k < lines.len() ==> (#[trigger] record_url(lines[k])) is Some,
    ensures
        extract_upto(lines, j).len() == j,
        forall|i: int| 0 <= i < j ==> #[trigger] extract_upto(lines, j)[i]
            == record_url(lines[j - 1 - i]).unwrap(),
    decreases j,
{
    if j > 0 {
        lemma_upto_all_qualifying(lines, j - 1);
        assert(extract_upto(lines, j) == line_contrib(lines[j - 1]) + extract_upto(lines, j - 1));
        assert(line_contrib(lines[j - 1]) == seq![record_url(lines[j - 1]).unwrap()]);
        assert forall|i: int| 0 <= i < j implies #[trigger] extract_upto(lines, j)[i]
            == record_url(lines[j - 1 - i]).unwrap() by {
            if i > 0 {
                assert(extract_upto(lines, j)[i] == extract_upto(lines, j - 1)[i - 1]);
            }
        }
    }
}

/// A buffer of well-formed qualifying records, oldest first in byte order,
/// extracts to exactly their URLs, newest record first.
pub proof fn lemma_extract_most_recent_first(records: Seq<Seq<u8>>)
    requires
        records.len() >= 1,
        forall|k: int| 0 <= k < records.len() ==> !(#[trigger] records[k]).contains(newline()),
        forall|k: int| 0 <= k < records.len() ==> contains_seq(#[trigger] records[k], marker()),
        forall|k: int| 0 <= k < records.len() ==> (#[trigger] record_url(records[k])) is Some,
    ensures
        extract_spec(join_with(records, newline())).len() == records.len(),
        forall|i: int| 0 <= i < records.len() ==>
            #[trigger] extract_spec(join_with(records, newline()))[i]
                == record_url(records[records.len() - 1 - i]).unwrap(),
{
    lemma_split_join(records, newline());
    lemma_upto_all_qualifying(records, records.len() as int);
}

/// A record that yields no URL contributes nothing, wherever it stands.
proof fn lemma_upto_remove_none(lines: Seq<Seq<u8>>, k: int, j: int)
    requires
        0 <= k < j <= lines.len(),
        record_url(lines[k]) is None,
    ensures
        extract_upto(lines, j) == extract_upto(lines.remove(k), j - 1),
    decreases j,
{
    let rem = lines.remove(k);
    assert(line_contrib(lines[k]) =~= Seq::<Seq<u8>>::empty());
    if j - 1 == k {
        assert(extract_upto(lines, j) == line_contrib(lines[k]) + extract_upto(lines, j - 1));
        assert(line_contrib(lines[k]) + extract_upto(lines, j - 1)
            =~= extract_upto(lines, j - 1));
        lemma_extract_upto_agree(lines, rem, j - 1);
    } else {
        lemma_upto_remove_none(lines, k, j - 1);
        assert(extract_upto(lines, j) == line_contrib(lines[j - 1]) + extract_upto(lines, j - 1));
        assert(rem[j - 2] == lines[j - 1]);
        assert(extract_upto(rem, j - 1) == line_contrib(rem[j - 2]) + extract_upto(rem, j - 2));
    }
}

/// A qualifying record with no URL-prefixed field is skipped: the buffer
/// extracts as if the record were not there, and extraction still succeeds.
pub proof fn lemma_extract_skips_prefixless_record(records: Seq<Seq<u8>>, k: int)
    requires
        records.len() >= 1,
        0 <= k < records.len(),
        forall|r: int| 0 <= r < records.len() ==> !(#[trigger] records[r]).contains(newline()),
        forall|f: int| 0 <= f < split_seq(records[k], seq![nul()]).len()
            ==> !starts_with(#[trigger] split_seq(records[k], seq![nul()])[f], url_prefix()),
    ensures
        extract_spec(join_with(records, newline()))
            == extract_upto(records.remove(k), records.len() - 1),
{
    lemma_split_join(records, newline());
    lemma_no_prefix_none(split_seq(records[k], seq![nul()]), 0);
    lemma_upto_remove_none(records, k, records.len() as int);
}

/// A URL taken out of a record free of newlines holds neither delimiter.
proof fn lemma_first_prefixed_clean(fields: Seq<Seq<u8>>, j: int)
    requires
        0 <= j,
        forall|f: int| 0 <= f < fields.len() ==> !(#[trigger] fields[f]).contains(newline()),
        forall|f: int| 0 <= f < fields.len() ==> !(#[trigger] fields[f]).contains(nul()),
        crate::extract::first_prefixed_url_from(fields, j) is Some,
    ensures
        !crate::extract::first_prefixed_url_from(fields, j).unwrap().contains(newline()),
        !crate::extract::first_prefixed_url_from(fields, j).unwrap().contains(nul()),
    decreases fields.len() - j,
{
    if j < fields.len() {
        if starts_with(fields[j], url_prefix()) {
            let u = fields[j].skip(url_prefix().len() as int);
            assert forall|t: int| 0 <= t < u.len() implies u[t] != newline() && u[t] != nul() by {
                assert(u[t] == fields[j][url_prefix().len() + t]);
            }
        } else {
            lemma_first_prefixed_clean(fields, j + 1);
        }
    }
}

/// The URL of a record that holds no newline holds neither delimiter.
proof fn lemma_record_url_clean(rec: Seq<u8>)
    requires
        !rec.contains(newline()),
        record_url(rec) is Some,
    ensures
        !record_url(rec).unwrap().contains(newline()),
        !record_url(rec).unwrap().contains(nul()),
{
    let fields = split_seq(rec, seq![nul()]);
    assert forall|f: int| 0 <= f < fields.len() implies !(#[trigger] fields[f]).contains(nul())
        && !fields[f].contains(newline()) by {
        crate::text::lemma_split_pieces_free_of_delim(rec, nul(), f);
        crate::text::lemma_split_pieces_keep_absence(rec, seq![nul()], newline(), f);
    }
    lemma_first_prefixed_clean(fields, 0);
}

/// Every URL contributed by the first `j` records holds neither delimiter.
proof fn lemma_upto_clean(lines: Seq<Seq<u8>>, j: int, i: int)
    requires
        0 <= j <= lines.len(),
        forall|k: int| 0 <= k < lines.len() ==> !(#[trigger] lines[k]).contains(newline()),
        0 <= i < extract_upto(lines, j).len(),
    ensures
        !extract_upto(lines, j)[i].contains(newline()),
        !extract_upto(lines, j)[i].contains(nul()),
    decreases j,
{
    let added = line_contrib(lines[j - 1]);
    if i < added.len() {
        lemma_record_url_clean(lines[j - 1]);
    } else {
        lemma_upto_clean(lines, j - 1, i - added.len());
    }
}

/// Extracted URLs never hold the record or field delimiter: both are
/// stripped away during parsing.
pub proof fn lemma_extracted_urls_free_of_delimiters(data: Seq<u8>, i: int)
    requires
        0 <= i < extract_spec(data).len(),
    ensures
        !extract_spec(data)[i].contains(newline()),
        !extract_spec(data)[i].contains(nul()),
{
    let lines = split_seq(data, seq![newline()]);
    assert forall|k: int| 0 <= k < lines.len() implies !(#[trigger] lines[k]).contains(newline())
        by {
        crate::text::lemma_split_pieces_free_of_delim(data, newline(), k);
    }
    lemma_upto_clean(lines, lines.len() as int, i);
}

/// Extraction is deterministic: any two results that meet the extractor's
/// contract on one and the same buffer are equal.
pub proof fn lemma_extract_deterministic(data: Seq<u8>, r1: Seq<Seq<char>>, r2: Seq<Seq<char>>)
    requires
        r1 == extraction_of(data),
        r2 == extraction_of(data),
    ensures
        r1 == r2,
{
}

/// When the query string holds the game's key, the backend URL is the game's
/// base endpoint, then the query string, then the appended `gacha_type`
/// parameter bound to the extracted value.
pub proof fn lemma_backend_url_shape(url: Seq<char>, game: Game, v: Seq<char>)
    requires
        gacha_value(query_of(url), key_of(game)) == Some(v),
    ensures
        build_data_url_spec(url, game)
            == Some(base_of(game) + query_of(url) + gacha_type_param() + v),
        starts_with(build_data_url_spec(url, game).unwrap(), base_of(game)),
        contains_seq(build_data_url_spec(url, game).unwrap(), query_of(url)),
        contains_seq(build_data_url_spec(url, game).unwrap(), gacha_type_param() + v),
{
    let base = base_of(game);
    let query = query_of(url);
    let full = base + query + gacha_type_param() + v;
    assert(full.subrange(0, base.len() as int) =~= base);
    assert(matches_at(full, base, 0));
    assert(full.subrange(base.len() as int, (base.len() + query.len()) as int) =~= query);
    assert(matches_at(full, query, base.len() as int));
    let off: int = base.len() + query.len() as int;
    assert(full.subrange(off, off + (gacha_type_param() + v).len() as int)
        =~= gacha_type_param() + v);
    assert(matches_at(full, gacha_type_param() + v, off));
}

/// The resolver yields a value exactly when the key occurs in the query.
pub proof fn lemma_gacha_value_iff_key(query: Seq<char>, key: Seq<char>)
    requires
        key.len() >= 1,
    ensures
        gacha_value(query, key) is None <==> !contains_seq(query, key),
{
    lemma_find_iff_contains(query, key);
}

/// The backend URL exists exactly when the query string holds the game's
/// required key; without it the resolver yields nothing.
pub proof fn lemma_backend_url_requires_key(url: Seq<char>, game: Game)
    ensures
        build_data_url_spec(url, game) is None
            <==> !contains_seq(query_of(url), key_of(game)),
{
    reveal_strlit("init_type=");
    reveal_strlit("default_gacha_type=");
    assert(key_of(game).len() >= 1);
    lemma_gacha_value_iff_key(query_of(url), key_of(game));
}

} // verus!
