//! The query resolver: rebuilds, from one extracted history URL, the
//! fully-qualified backend API URL that re-queries the draw history.
//!
//! The query string is everything after the last `"/index.html?"` (the whole
//! input when that marker is absent). The game's required key is searched in
//! the query string; the text after its first occurrence, cut at the next
//! `&`, is the draw-pool value. The backend URL is the game's base endpoint,
//! the query string, and an appended `&gacha_type=` parameter bound to that
//! value. A query string without the key resolves to nothing.

use vstd::prelude::*;
use vstd::string::StrSliceExecFns;
use vstd::string::StringExecFns;

use crate::game::Game;
use crate::text::{
    contains_seq, find_from, lemma_find_from_none, lemma_find_from_unique,
    lemma_find_iff_contains, lemma_split_seq_nonempty, matches_at, split_seq,
};

verus! {

/// The marker that separates a cached page path from its query string.
pub open spec fn index_marker() -> Seq<char> {
    "/index.html?"@
}

/// The query-parameter separator.
pub open spec fn amp() -> Seq<char> {
    "&"@
}

/// The parameter appended to the rebuilt backend URL.
pub open spec fn gacha_type_param() -> Seq<char> {
    "&gacha_type="@
}

/// The query key whose presence a game requires.
pub open spec fn key_of(game: Game) -> Seq<char> {
    match game {
        Game::Genshin => "init_type="@,
        Game::HSR => "default_gacha_type="@,
    }
}

/// The base backend endpoint of a game.
pub open spec fn base_of(game: Game) -> Seq<char> {
    match game {
        Game::Genshin => "https://hk4e-api-os.hoyoverse.com/event/gacha_info/api/getGachaLog?"@,
        Game::HSR => "https://api-os-takumi.mihoyo.com/common/gacha_record/api/getGachaLog?"@,
    }
}

/// The query string of a history URL: what follows the last occurrence of
/// the index marker, or the whole URL when the marker is absent.
pub open spec fn query_of(url: Seq<char>) -> Seq<char> {
    split_seq(url, index_marker()).last()
}

/// The draw-pool value for a required key: the text immediately after the
/// key's first occurrence in the query string, up to the next `&` or to the
/// end of the string; nothing when the key is absent.
pub open spec fn gacha_value(query: Seq<char>, key: Seq<char>) -> Option<Seq<char>> {
    let i = find_from(query, key, 0);
    if i < 0 {
        None
    } else {
        Some(split_seq(query.skip(i + key.len() as int), amp()).first())
    }
}

/// The backend URL rebuilt from a history URL for a game: base endpoint,
/// query string, and the appended `gacha_type` parameter.
pub open spec fn build_data_url_spec(url: Seq<char>, game: Game) -> Option<Seq<char>> {
    match gacha_value(query_of(url), key_of(game)) {
        Some(v) => Some(base_of(game) + query_of(url) + gacha_type_param() + v),
        None => None,
    }
}

/// Whether the pattern `p` stands in `s` at character position `i`.
fn str_match_at(s: &str, p: &str, i: usize) -> (b: bool)
    requires
        i + p@.len() <= s@.len(),
    ensures
        b == matches_at(s@, p@, i as int),
{
    let sl = s.unicode_len();
    let pl = p.unicode_len();
    let mut j: usize = 0;
    while j < pl
        invariant
            j <= pl,
            pl == p@.len(),
            sl == s@.len(),
            i + pl <= sl,
            forall|t: int| 0 <= t < j ==> s@[i + t] == p@[t],
        decreases pl - j,
    {
        if s.get_char(i + j) != p.get_char(j) {
            proof {
                assert(s@.subrange(i as int, i + p@.len() as int)[j as int] == s@[i + j]);
            }
            return false;
        }
        j += 1;
    }
    proof {
        assert(s@.subrange(i as int, i + p@.len() as int) =~= p@);
    }
    true
}

/// Character position of the leftmost occurrence of `p` in `s` at or after
/// `from`.
fn str_find(s: &str, p: &str, from: usize) -> (r: Option<usize>)
    requires
        p@.len() >= 1,
    ensures
        match r {
            Some(i) => from <= i && i + p@.len() <= s@.len()
                && i as int == find_from(s@, p@, from as int),
            None => find_from(s@, p@, from as int) == -1,
        },
{
    let sl = s.unicode_len();
    let pl = p.unicode_len();
    if pl > sl || from > sl - pl {
        proof {
            assert forall|i: int| from as int <= i implies !matches_at(s@, p@, i) by {
                assert(i + p@.len() > s@.len());
            }
            lemma_find_from_none(s@, p@, from as int);
        }
        return None;
    }
    let mut i = from;
    while i <= sl - pl
        invariant
            from <= i,
            1 <= pl <= sl,
            sl == s@.len(),
            pl == p@.len(),
            i <= sl - pl + 1,
            forall|t: int| from <= t < i ==> !matches_at(s@, p@, t),
        decreases sl - i,
    {
        if str_match_at(s, p, i) {
            proof {
                lemma_find_from_unique(s@, p@, from as int, i as int);
            }
            return Some(i);
        }
        i += 1;
    }
    proof {
        assert forall|t: int| from as int <= t implies !matches_at(s@, p@, t) by {
            if t >= i {
                assert(t + p@.len() > s@.len());
            }
        }
        lemma_find_from_none(s@, p@, from as int);
    }
    None
}

/// The query string of a history URL: the last piece of the split on the
/// index marker.
fn query_str(url: &str) -> (q: &str)
    ensures
        q@ == query_of(url@),
{
    let marker: &str = "/index.html?";
    proof {
        reveal_strlit("/index.html?");
        assert(marker@ == index_marker());
    }
    let ml = marker.unicode_len();
    let mut cur: &str = url;
    loop
        invariant
            marker@ == index_marker(),
            ml == index_marker().len(),
            1 <= ml,
            split_seq(url@, index_marker()).last() == split_seq(cur@, index_marker()).last(),
        decreases cur@.len(),
    {
        match str_find(cur, marker, 0) {
            Some(i) => {
                let cl = cur.unicode_len();
                let next = cur.substring_char(i + ml, cl);
                proof {
                    let m = index_marker();
                    assert(next@ =~= cur@.skip(i + m.len() as int));
                    assert(split_seq(cur@, m) == seq![cur@.subrange(0, i as int)]
                        + split_seq(cur@.skip(i + m.len() as int), m));
                    lemma_split_seq_nonempty(next@, m);
                    assert(split_seq(cur@, m).last() == split_seq(next@, m).last());
                }
                cur = next;
            },
            None => {
                proof {
                    let m = index_marker();
                    assert(split_seq(cur@, m) == seq![cur@]);
                    assert(split_seq(cur@, m).last() == cur@);
                }
                return cur;
            },
        }
    }
}

/// The draw-pool value bound to `key` in `query`, when the key occurs.
fn value_after_key<'a>(query: &'a str, key: &str) -> (r: Option<&'a str>)
    requires
        key@.len() >= 1,
    ensures
        match r {
            Some(v) => gacha_value(query@, key@) == Some(v@) && contains_seq(query@, key@),
            None => gacha_value(query@, key@) is None && !contains_seq(query@, key@),
        },
{
    proof {
        lemma_find_iff_contains(query@, key@);
    }
    match str_find(query, key, 0) {
        None => None,
        Some(i) => {
            let ql = query.unicode_len();
            let kl = key.unicode_len();
            let rest = query.substring_char(i + kl, ql);
            proof {
                assert(rest@ =~= query@.skip(i + key@.len() as int));
            }
            let sep: &str = "&";
            proof {
                reveal_strlit("&");
                assert(sep@ == amp());
                assert(amp().len() == 1);
            }
            let v = match str_find(rest, sep, 0) {
                Some(a) => {
                    let w = rest.substring_char(0, a);
                    proof {
                        assert(split_seq(rest@, amp())[0] == rest@.subrange(0, a as int));
                        assert(w@ == split_seq(rest@, amp()).first());
                    }
                    w
                },
                None => {
                    proof {
                        assert(split_seq(rest@, amp()) == seq![rest@]);
                        assert(split_seq(rest@, amp()).first() == rest@);
                    }
                    rest
                },
            };
            proof {
                assert(gacha_value(query@, key@) == Some(v@));
            }
            Some(v)
        },
    }
}

/// Rebuild the backend API URL from one extracted history URL.
///
/// The query string is what follows the last `"/index.html?"` in the URL, or
/// the whole URL when the marker is absent. When the game's required query
/// key occurs in the query string, the result is the game's base endpoint
/// followed by the query string and by `&gacha_type=` bound to the text after
/// the key's first occurrence, cut at the next `&`. When the key does not
/// occur, there is no result.
pub fn build_data_url(history_url: &str, game: Game) -> (r: Option<String>)
    ensures
        match r {
            Some(u) => build_data_url_spec(history_url@, game) == Some(u@),
            None => build_data_url_spec(history_url@, game) is None,
        },
        r is None <==> !contains_seq(query_of(history_url@), key_of(game)),
{
    let query = query_str(history_url);
    let key: &str = match game {
        Game::Genshin => "init_type=",
        Game::HSR => "default_gacha_type=",
    };
    proof {
        reveal_strlit("init_type=");
        reveal_strlit("default_gacha_type=");
        assert(key@ == key_of(game));
        assert(key@.len() >= 1);
    }
    match value_after_key(query, key) {
        Some(v) => {
            let base: &str = match game {
                Game::Genshin => {
                    "https://hk4e-api-os.hoyoverse.com/event/gacha_info/api/getGachaLog?"
                },
                Game::HSR => {
                    "https://api-os-takumi.mihoyo.com/common/gacha_record/api/getGachaLog?"
                },
            };
            proof {
                assert(base@ == base_of(game));
            }
            let mut out = base.to_owned();
            out.append(query);
            out.append("&gacha_type=");
            out.append(v);
            proof {
                assert(out@ == base_of(game) + query_of(history_url@) + gacha_type_param()
                    + gacha_value(query_of(history_url@), key_of(game)).unwrap());
            }
            Some(out)
        },
        None => None,
    }
}

} // verus!
