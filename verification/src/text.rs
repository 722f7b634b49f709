//! Sequence searching and splitting, shared by the cache extractor and the
//! query resolver: leftmost pattern search, non-overlapping splitting, and
//! joining, with the lemmas that relate them.

use vstd::prelude::*;

verus! {

/// The pattern `p` occurs in `s` starting at position `i`.
pub open spec fn matches_at<T>(s: Seq<T>, p: Seq<T>, i: int) -> bool {
    0 <= i && i + p.len() <= s.len() && s.subrange(i, i + p.len() as int) == p
}

/// The pattern `p` occurs somewhere in `s`.
pub open spec fn contains_seq<T>(s: Seq<T>, p: Seq<T>) -> bool {
    exists|i: int| matches_at(s, p, i)
}

/// `s` begins with the pattern `p`.
pub open spec fn starts_with<T>(s: Seq<T>, p: Seq<T>) -> bool {
    matches_at(s, p, 0)
}

/// Position of the leftmost occurrence of `p` in `s` at or after `from`,
/// or -1 when there is none.
pub open spec fn find_from<T>(s: Seq<T>, p: Seq<T>, from: int) -> int
    decreases s.len() - from,
    via find_from_decreases::<T>
{
    if from + p.len() > s.len() {
        -1
    } else if matches_at(s, p, from) {
        from
    } else {
        find_from(s, p, from + 1)
    }
}

#[via_fn]
proof fn find_from_decreases<T>(s: Seq<T>, p: Seq<T>, from: int) {
    if from + p.len() <= s.len() && !matches_at(s, p, from) && 0 <= from && p.len() == 0 {
        assert(s.subrange(from, from + p.len() as int) =~= p);
    }
}

/// What `find_from` returns: -1 exactly when no occurrence lies at or after
/// `from`, and otherwise the leftmost such occurrence.
pub proof fn lemma_find_from_props<T>(s: Seq<T>, p: Seq<T>, from: int)
    requires
        0 <= from,
    ensures
        find_from(s, p, from) == -1 || find_from(s, p, from) >= from,
        find_from(s, p, from) == -1 ==> forall|i: int| from <= i ==> !matches_at(s, p, i),
        find_from(s, p, from) >= 0 ==> {
            &&& from <= find_from(s, p, from)
            &&& matches_at(s, p, find_from(s, p, from))
            &&& forall|i: int| from <= i < find_from(s, p, from) ==> !matches_at(s, p, i)
        },
    decreases s.len() - from,
{
    if from + p.len() > s.len() {
        assert forall|i: int| from <= i implies !matches_at(s, p, i) by {
            assert(i + p.len() > s.len());
        }
    } else if matches_at(s, p, from) {
    } else {
        if p.len() == 0 {
            assert(s.subrange(from, from + p.len() as int) =~= p);
        }
        lemma_find_from_props(s, p, from + 1);
        let r = find_from(s, p, from);
        assert(r == find_from(s, p, from + 1));
        if r == -1 {
            assert forall|i: int| from <= i implies !matches_at(s, p, i) by {
                if i > from {
                    assert(!matches_at(s, p, i));
                }
            }
        }
    }
}

/// The leftmost occurrence at or after `from` is `k` when `k` matches and no
/// earlier position at or after `from` does.
pub proof fn lemma_find_from_unique<T>(s: Seq<T>, p: Seq<T>, from: int, k: int)
    requires
        0 <= from <= k,
        matches_at(s, p, k),
        forall|i: int| from <= i < k ==> !matches_at(s, p, i),
    ensures
        find_from(s, p, from) == k,
{
    lemma_find_from_props(s, p, from);
    let r = find_from(s, p, from);
    if r == -1 {
        assert(!matches_at(s, p, k));
    } else if r < k {
        assert(!matches_at(s, p, r));
    } else if r > k {
        assert(!matches_at(s, p, k));
    }
}

/// No occurrence at or after `from` means `find_from` returns -1.
pub proof fn lemma_find_from_none<T>(s: Seq<T>, p: Seq<T>, from: int)
    requires
        0 <= from,
        forall|i: int| from <= i ==> !matches_at(s, p, i),
    ensures
        find_from(s, p, from) == -1,
{
    lemma_find_from_props(s, p, from);
    let r = find_from(s, p, from);
    if r >= 0 {
        assert(matches_at(s, p, r));
        assert(!matches_at(s, p, r));
    }
}

/// A successful search from the start is the same thing as containment.
pub proof fn lemma_find_iff_contains<T>(s: Seq<T>, p: Seq<T>)
    ensures
        find_from(s, p, 0) >= 0 <==> contains_seq(s, p),
{
    lemma_find_from_props(s, p, 0);
    if contains_seq(s, p) {
        let i = choose|i: int| matches_at(s, p, i);
        assert(0 <= i);
        if find_from(s, p, 0) == -1 {
            assert(!matches_at(s, p, i));
        }
    }
}

/// Split `s` on the non-overlapping leftmost occurrences of `p`. There is
/// always at least one piece; with no occurrence the single piece is `s`
/// itself.
pub open spec fn split_seq<T>(s: Seq<T>, p: Seq<T>) -> Seq<Seq<T>>
    recommends
        p.len() > 0,
    decreases s.len(),
    via split_seq_decreases::<T>
{
    let i = find_from(s, p, 0);
    if p.len() == 0 || i < 0 {
        seq![s]
    } else {
        seq![s.subrange(0, i)] + split_seq(s.skip(i + p.len() as int), p)
    }
}

#[via_fn]
proof fn split_seq_decreases<T>(s: Seq<T>, p: Seq<T>) {
    lemma_find_from_props(s, p, 0);
}

/// Splitting never yields an empty sequence of pieces.
pub proof fn lemma_split_seq_nonempty<T>(s: Seq<T>, p: Seq<T>)
    ensures
        split_seq(s, p).len() >= 1,
{
    let i = find_from(s, p, 0);
    if p.len() == 0 || i < 0 {
        assert(split_seq(s, p) =~= seq![s]);
    }
}

/// Occurring in a part of `s` means occurring in `s`.
pub proof fn lemma_contains_in_subrange<T>(s: Seq<T>, p: Seq<T>, a: int, b: int)
    requires
        0 <= a <= b <= s.len(),
        contains_seq(s.subrange(a, b), p),
    ensures
        contains_seq(s, p),
{
    let sub = s.subrange(a, b);
    let i = choose|i: int| matches_at(sub, p, i);
    assert(sub.subrange(i, i + p.len() as int) =~= s.subrange(a + i, a + i + p.len() as int));
    assert(matches_at(s, p, a + i));
}

/// Occurrences in the suffix `s.skip(off)` are the occurrences of `s` at or
/// beyond `off`, shifted left by `off`.
pub proof fn lemma_matches_at_skip<T>(s: Seq<T>, p: Seq<T>, off: int, i: int)
    requires
        0 <= off <= s.len(),
    ensures
        matches_at(s.skip(off), p, i) <==> 0 <= i && matches_at(s, p, off + i),
{
    if 0 <= i && i + p.len() <= s.len() - off {
        assert(s.skip(off).subrange(i, i + p.len() as int)
            =~= s.subrange(off + i, off + i + p.len() as int));
        if s.skip(off).subrange(i, i + p.len() as int) == p {
            assert(matches_at(s, p, off + i));
        }
        if matches_at(s, p, off + i) {
            assert(matches_at(s.skip(off), p, i));
        }
    }
}

/// Searching from `off` in `s` is searching from the start of the suffix
/// `s.skip(off)`, up to the shift by `off`.
pub proof fn lemma_find_from_offset<T>(s: Seq<T>, p: Seq<T>, off: int)
    requires
        0 <= off <= s.len(),
    ensures
        find_from(s, p, off) == -1 ==> find_from(s.skip(off), p, 0) == -1,
        find_from(s, p, off) >= 0 ==> find_from(s.skip(off), p, 0) == find_from(s, p, off) - off,
{
    lemma_find_from_props(s, p, off);
    let r = find_from(s, p, off);
    if r == -1 {
        assert forall|i: int| 0 <= i implies !matches_at(s.skip(off), p, i) by {
            lemma_matches_at_skip(s, p, off, i);
        }
        lemma_find_from_none(s.skip(off), p, 0);
    } else {
        lemma_matches_at_skip(s, p, off, r - off);
        assert forall|i: int| 0 <= i < r - off implies !matches_at(s.skip(off), p, i) by {
            lemma_matches_at_skip(s, p, off, i);
        }
        lemma_find_from_unique(s.skip(off), p, 0, r - off);
    }
}

/// Join `parts` with the single delimiter `d` between consecutive parts.
pub open spec fn join_with<T>(parts: Seq<Seq<T>>, d: T) -> Seq<T>
    decreases parts.len(),
{
    if parts.len() == 0 {
        Seq::empty()
    } else if parts.len() == 1 {
        parts[0]
    } else {
        parts[0] + seq![d] + join_with(parts.drop_first(), d)
    }
}

/// A one-element pattern occurs at `i` exactly when the element stands at `i`.
pub proof fn lemma_matches_at_single<T>(s: Seq<T>, d: T, i: int)
    ensures
        matches_at(s, seq![d], i) <==> 0 <= i < s.len() && s[i] == d,
{
    if 0 <= i && i + 1 <= s.len() {
        if s[i] == d {
            assert(s.subrange(i, i + 1) =~= seq![d]);
        } else {
            assert(s.subrange(i, i + 1)[0] == s[i]);
        }
    }
}

/// A piece cut out by splitting on the single delimiter `d` never holds `d`.
pub proof fn lemma_split_pieces_free_of_delim<T>(s: Seq<T>, d: T, k: int)
    requires
        0 <= k < split_seq(s, seq![d]).len(),
    ensures
        !split_seq(s, seq![d])[k].contains(d),
    decreases s.len(),
{
    let p = seq![d];
    lemma_find_from_props(s, p, 0);
    let i = find_from(s, p, 0);
    if i < 0 {
        assert(split_seq(s, p) == seq![s]);
        assert forall|t: int| 0 <= t < s.len() implies s[t] != d by {
            lemma_matches_at_single(s, d, t);
        }
    } else {
        let head = s.subrange(0, i);
        let tail = s.skip(i + 1);
        assert(split_seq(s, p) == seq![head] + split_seq(tail, p));
        if k == 0 {
            assert forall|t: int| 0 <= t < head.len() implies head[t] != d by {
                lemma_matches_at_single(s, d, t);
            }
        } else {
            lemma_split_pieces_free_of_delim(tail, d, k - 1);
        }
    }
}

/// Splitting cannot introduce an element: a piece of `s` holds no `x` when
/// `s` holds none.
pub proof fn lemma_split_pieces_keep_absence<T>(s: Seq<T>, p: Seq<T>, x: T, k: int)
    requires
        !s.contains(x),
        0 <= k < split_seq(s, p).len(),
    ensures
        !split_seq(s, p)[k].contains(x),
    decreases s.len(),
{
    let i = find_from(s, p, 0);
    lemma_find_from_props(s, p, 0);
    if p.len() == 0 || i < 0 {
        assert(split_seq(s, p) == seq![s]);
    } else {
        let head = s.subrange(0, i);
        let tail = s.skip(i + p.len() as int);
        assert(split_seq(s, p) == seq![head] + split_seq(tail, p));
        if k == 0 {
            assert forall|t: int| 0 <= t < head.len() implies head[t] != x by {
                assert(head[t] == s[t]);
            }
        } else {
            assert forall|t: int| 0 <= t < tail.len() implies tail[t] != x by {
                assert(tail[t] == s[i + p.len() + t]);
            }
            assert(!tail.contains(x));
            lemma_split_pieces_keep_absence(tail, p, x, k - 1);
        }
    }
}

/// Splitting on `d` undoes joining with `d`, as long as no part holds `d`
/// itself.
pub proof fn lemma_split_join<T>(parts: Seq<Seq<T>>, d: T)
    requires
        parts.len() >= 1,
        forall|k: int| 0 <= k < parts.len() ==> !(#[trigger] parts[k]).contains(d),
    ensures
        split_seq(join_with(parts, d), seq![d]) == parts,
    decreases parts.len(),
{
    let j = join_with(parts, d);
    if parts.len() == 1 {
        assert forall|i: int| 0 <= i implies !matches_at(j, seq![d], i) by {
            lemma_matches_at_single(j, d, i);
            if 0 <= i < j.len() {
                assert(parts[0][i] == j[i]);
            }
        }
        lemma_find_from_none(j, seq![d], 0);
        assert(split_seq(j, seq![d]) =~= seq![parts[0]]);
        assert(seq![parts[0]] =~= parts);
    } else {
        let head = parts[0];
        let rest = parts.drop_first();
        let l0 = head.len() as int;
        assert(j == head + seq![d] + join_with(rest, d));
        assert(j[l0] == d) by {
            assert((head + seq![d])[l0] == d);
            assert(j[l0] == (head + seq![d])[l0]);
        }
        lemma_matches_at_single(j, d, l0);
        assert forall|i: int| 0 <= i < l0 implies !matches_at(j, seq![d], i) by {
            lemma_matches_at_single(j, d, i);
            assert(j[i] == head[i]);
        }
        lemma_find_from_unique(j, seq![d], 0, l0);
        let tail = j.skip(l0 + 1);
        assert(tail =~= join_with(rest, d)) by {
            assert forall|i: int| 0 <= i < join_with(rest, d).len() implies
                tail[i] == join_with(rest, d)[i] by {
                assert(j[l0 + 1 + i] == join_with(rest, d)[i]);
            }
        }
        assert forall|k: int| 0 <= k < rest.len() implies !(#[trigger] rest[k]).contains(d) by {
            assert(rest[k] == parts[k + 1]);
        }
        lemma_split_join(rest, d);
        assert(j.subrange(0, l0) =~= head);
        assert(split_seq(j, seq![d]) == seq![j.subrange(0, l0)] + split_seq(tail, seq![d]));
        assert(seq![head] + rest =~= parts);
    }
}

} // verus!
