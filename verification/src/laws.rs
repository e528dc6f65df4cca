//! Laws of the diff engine, stated and proved over [`spec_diff`].

use vstd::prelude::*;

use crate::diff::added_contrib;
use crate::diff::added_recs;
use crate::diff::diff_inter;
use crate::diff::inter_contrib;
use crate::diff::lemma_sort_pairs_props;
use crate::diff::removed_contrib;
use crate::diff::removed_recs;
use crate::diff::sorted_keys;
use crate::diff::spec_diff;
use crate::diff::Change;
use crate::keys::join_seq;
use crate::value::lemma_child_decreases;
use crate::value::Val;

verus! {

/// Reflexivity: diffing any tree against itself reports nothing.
pub proof fn lemma_diff_reflexive(x: Val, key: Seq<char>)
    ensures
        spec_diff(x, x, key) == Seq::<Change>::empty(),
{
}

/// Type-change reporting: when one side is a scalar and the other a
/// container, the whole subtree is reported as a single `Modified` at the
/// current path, and nothing else.
pub proof fn lemma_diff_type_change(l: Val, r: Val, key: Seq<char>)
    requires
        l.is_container() != r.is_container(),
    ensures
        spec_diff(l, r, key) == seq![Change::Modified(key, l, r)],
{
}

proof fn lemma_diff_inter_disjoint(l: Val, r: Val, ks: Seq<Seq<char>>, key: Seq<char>)
    requires
        forall|k: Seq<char>| !(#[trigger] l.has_child(k)) || !(#[trigger] r.has_child(k)),
    ensures
        diff_inter(l, r, ks, key) == Seq::<Change>::empty(),
    decreases ks.len(),
{
    if ks.len() > 0 {
        lemma_diff_inter_disjoint(l, r, ks.drop_first(), key);
        assert(diff_inter(l, r, ks, key) =~= Seq::<Change>::empty());
    }
}

proof fn lemma_added_full(l: Val, r: Val, ks: Seq<Seq<char>>, key: Seq<char>)
    requires
        forall|j: int| 0 <= j < ks.len() ==> !l.has_child(#[trigger] ks[j]),
    ensures
        added_recs(l, r, ks, key).len() == ks.len(),
        forall|j: int|
            0 <= j < ks.len() ==> #[trigger] added_recs(l, r, ks, key)[j] == Change::Added(
                join_seq(key, ks[j]),
                r.child_of(ks[j]),
            ),
    decreases ks.len(),
{
    if ks.len() > 0 {
        assert forall|j: int| 0 <= j < ks.drop_first().len() implies !l.has_child(
            #[trigger] ks.drop_first()[j],
        ) by {
            assert(ks.drop_first()[j] == ks[j + 1]);
        }
        lemma_added_full(l, r, ks.drop_first(), key);
        assert(!l.has_child(ks[0]));
        assert forall|j: int| 0 <= j < ks.len() implies #[trigger] added_recs(l, r, ks, key)[j]
            == Change::Added(join_seq(key, ks[j]), r.child_of(ks[j])) by {
            if j > 0 {
                assert(added_recs(l, r, ks, key)[j] == added_recs(l, r, ks.drop_first(), key)[j
                    - 1]);
                assert(ks.drop_first()[j - 1] == ks[j]);
            }
        }
    }
}

proof fn lemma_removed_full(l: Val, r: Val, ks: Seq<Seq<char>>, key: Seq<char>)
    requires
        forall|j: int| 0 <= j < ks.len() ==> !r.has_child(#[trigger] ks[j]),
    ensures
        removed_recs(l, r, ks, key).len() == ks.len(),
        forall|j: int|
            0 <= j < ks.len() ==> #[trigger] removed_recs(l, r, ks, key)[j] == Change::Removed(
                join_seq(key, ks[j]),
                l.child_of(ks[j]),
            ),
    decreases ks.len(),
{
    if ks.len() > 0 {
        assert forall|j: int| 0 <= j < ks.drop_first().len() implies !r.has_child(
            #[trigger] ks.drop_first()[j],
        ) by {
            assert(ks.drop_first()[j] == ks[j + 1]);
        }
        lemma_removed_full(l, r, ks.drop_first(), key);
        assert(!r.has_child(ks[0]));
        assert forall|j: int| 0 <= j < ks.len() implies #[trigger] removed_recs(l, r, ks, key)[j]
            == Change::Removed(join_seq(key, ks[j]), l.child_of(ks[j])) by {
            if j > 0 {
                assert(removed_recs(l, r, ks, key)[j] == removed_recs(l, r, ks.drop_first(), key)[j
                    - 1]);
                assert(ks.drop_first()[j - 1] == ks[j]);
            }
        }
    }
}

/// Disjoint-mapping additivity: diffing two mappings with completely
/// disjoint key sets yields exactly one `Added` per key of the right
/// mapping, in ascending key order, followed by exactly one `Removed` per
/// key of the left mapping, in ascending key order — and no `Modified`.
pub proof fn lemma_diff_disjoint_mappings(l: Val, r: Val, key: Seq<char>)
    requires
        l is Dict,
        r is Dict,
        forall|k: Seq<char>| !(#[trigger] l.has_child(k)) || !(#[trigger] r.has_child(k)),
    ensures
        spec_diff(l, r, key) == added_recs(l, r, sorted_keys(r), key) + removed_recs(
            l,
            r,
            sorted_keys(l),
            key,
        ),
        spec_diff(l, r, key).len() == l.child_pairs().len() + r.child_pairs().len(),
        forall|j: int|
            0 <= j < r.child_pairs().len() ==> #[trigger] spec_diff(l, r, key)[j]
                == Change::Added(
                join_seq(key, sorted_keys(r)[j]),
                r.child_of(sorted_keys(r)[j]),
            ),
        forall|j: int|
            0 <= j < l.child_pairs().len() ==> #[trigger] spec_diff(l, r, key)[r.child_pairs().len()
                + j] == Change::Removed(
                join_seq(key, sorted_keys(l)[j]),
                l.child_of(sorted_keys(l)[j]),
            ),
        forall|i: int|
            0 <= i < spec_diff(l, r, key).len() ==> !((#[trigger] spec_diff(l, r, key)[i])
                is Modified),
{
    lemma_sort_pairs_props(l.child_pairs());
    lemma_sort_pairs_props(r.child_pairs());
    let kl = sorted_keys(l);
    let kr = sorted_keys(r);
    assert(kl.len() == l.child_pairs().len());
    assert(kr.len() == r.child_pairs().len());
    assert forall|j: int| 0 <= j < kl.len() implies l.has_child(#[trigger] kl[j]) by {
        let sp = sort_pairs_of(l);
        assert(sp.contains(sp[j]));
        assert(l.child_pairs().contains(sp[j]));
        let q = choose|q: int| 0 <= q < l.child_pairs().len() && l.child_pairs()[q] == sp[j];
        assert(l.child_pairs()[q].0 == kl[j]);
    }
    assert forall|j: int| 0 <= j < kr.len() implies r.has_child(#[trigger] kr[j]) by {
        let sp = sort_pairs_of(r);
        assert(sp.contains(sp[j]));
        assert(r.child_pairs().contains(sp[j]));
        let q = choose|q: int| 0 <= q < r.child_pairs().len() && r.child_pairs()[q] == sp[j];
        assert(r.child_pairs()[q].0 == kr[j]);
    }
    if l == r {
        if l.child_pairs().len() > 0 {
            let p = l.child_pairs()[0];
            assert(l.child_pairs()[0].0 == p.0);
            assert(l.has_child(p.0) && r.has_child(p.0));
            assert(false);
        }
        assert(added_recs(l, r, kr, key) =~= Seq::<Change>::empty());
        assert(removed_recs(l, r, kl, key) =~= Seq::<Change>::empty());
        assert(spec_diff(l, r, key) =~= added_recs(l, r, kr, key) + removed_recs(l, r, kl, key));
    } else {
        lemma_diff_inter_disjoint(l, r, kl, key);
        assert(spec_diff(l, r, key) =~= added_recs(l, r, kr, key) + removed_recs(l, r, kl, key));
    }
    assert forall|j: int| 0 <= j < kr.len() implies !l.has_child(#[trigger] kr[j]) by {
        assert(r.has_child(kr[j]));
    }
    assert forall|j: int| 0 <= j < kl.len() implies !r.has_child(#[trigger] kl[j]) by {
        assert(l.has_child(kl[j]));
    }
    lemma_added_full(l, r, kr, key);
    lemma_removed_full(l, r, kl, key);
    let whole = spec_diff(l, r, key);
    assert(whole.len() == kr.len() + kl.len());
    assert forall|j: int| 0 <= j < r.child_pairs().len() implies #[trigger] whole[j]
        == Change::Added(join_seq(key, kr[j]), r.child_of(kr[j])) by {
        assert(whole[j] == added_recs(l, r, kr, key)[j]);
    }
    assert forall|j: int| 0 <= j < l.child_pairs().len() implies #[trigger] whole[r.child_pairs().len()
        + j] == Change::Removed(join_seq(key, kl[j]), l.child_of(kl[j])) by {
        assert(whole[kr.len() + j] == removed_recs(l, r, kl, key)[j]);
    }
    assert forall|i: int| 0 <= i < whole.len() implies !((#[trigger] whole[i]) is Modified) by {
        if i < kr.len() {
            assert(whole[i] == added_recs(l, r, kr, key)[i]);
        } else {
            assert(whole[i] == removed_recs(l, r, kl, key)[i - kr.len()]);
        }
    }
}

spec fn sort_pairs_of(v: Val) -> Seq<(Seq<char>, Val)> {
    crate::diff::sort_pairs(v.child_pairs())
}

/// Deterministic ordering: which records one invocation appends, and in what
/// order, is fixed by [`spec_diff`] — a function of the two trees and the
/// label alone — and within every level the keys that each pass walks stand
/// in ascending lexicographic order.
pub proof fn lemma_sorted_keys_ascending(v: Val)
    ensures
        forall|a: int, b: int|
            #![trigger sorted_keys(v)[a], sorted_keys(v)[b]]
            0 <= a < b < sorted_keys(v).len() ==> crate::keys::lex_le(
                sorted_keys(v)[a],
                sorted_keys(v)[b],
            ),
{
    crate::diff::lemma_sort_pairs_sorted(v.child_pairs());
    let sp = sort_pairs_of(v);
    assert forall|a: int, b: int|
        #![trigger sorted_keys(v)[a], sorted_keys(v)[b]]
        0 <= a < b < sorted_keys(v).len() implies crate::keys::lex_le(
        sorted_keys(v)[a],
        sorted_keys(v)[b],
    ) by {
        assert(sorted_keys(v)[a] == sp[a].0 && sorted_keys(v)[b] == sp[b].0);
        assert(crate::keys::lex_le(sp[a].0, sp[b].0));
    }
}

/// The path of a change record.
pub open spec fn change_path(c: Change) -> Seq<char> {
    match c {
        Change::Removed(p, _) => p,
        Change::Added(p, _) => p,
        Change::Modified(p, _, _) => p,
    }
}

/// A path label that belongs under `key`: either `key` itself, or `key`
/// followed by the `.` separator and more.
pub open spec fn extends_path(p: Seq<char>, key: Seq<char>) -> bool {
    p == key || (key.len() + 1 <= p.len() && p.take(key.len() as int + 1) == key.push('.'))
}

proof fn lemma_join_extends(key: Seq<char>, k: Seq<char>)
    ensures
        extends_path(join_seq(key, k), key),
{
    assert(join_seq(key, k).take(key.len() as int + 1) =~= key.push('.'));
}

proof fn lemma_extends_step(p: Seq<char>, key: Seq<char>, k: Seq<char>)
    requires
        extends_path(p, join_seq(key, k)),
    ensures
        extends_path(p, key),
{
    let join = join_seq(key, k);
    if p == join {
        lemma_join_extends(key, k);
    } else {
        assert(p.take(key.len() as int + 1) =~= key.push('.')) by {
            assert(p.take(join.len() as int + 1) == join.push('.'));
            assert forall|i: int| 0 <= i < key.len() + 1 implies p.take(key.len() as int + 1)[i]
                == key.push('.')[i] by {
                assert(p[i] == p.take(join.len() as int + 1)[i]);
                assert(p[i] == join.push('.')[i]);
                assert(join[i] == (key + seq!['.'] + k)[i]);
            }
        }
    }
}

proof fn lemma_paths_added(l: Val, r: Val, ks: Seq<Seq<char>>, key: Seq<char>)
    ensures
        forall|i: int|
            0 <= i < added_recs(l, r, ks, key).len() ==> extends_path(
                change_path(#[trigger] added_recs(l, r, ks, key)[i]),
                key,
            ),
    decreases ks.len(),
{
    if ks.len() > 0 {
        lemma_paths_added(l, r, ks.drop_first(), key);
        let whole = added_recs(l, r, ks, key);
        let head = added_contrib(l, r, ks[0], key);
        assert forall|i: int| 0 <= i < whole.len() implies extends_path(
            change_path(#[trigger] whole[i]),
            key,
        ) by {
            if i < head.len() {
                assert(whole[i] == head[i]);
                lemma_join_extends(key, ks[0]);
            } else {
                assert(whole[i] == added_recs(l, r, ks.drop_first(), key)[i - head.len()]);
            }
        }
    }
}

proof fn lemma_paths_removed(l: Val, r: Val, ks: Seq<Seq<char>>, key: Seq<char>)
    ensures
        forall|i: int|
            0 <= i < removed_recs(l, r, ks, key).len() ==> extends_path(
                change_path(#[trigger] removed_recs(l, r, ks, key)[i]),
                key,
            ),
    decreases ks.len(),
{
    if ks.len() > 0 {
        lemma_paths_removed(l, r, ks.drop_first(), key);
        let whole = removed_recs(l, r, ks, key);
        let head = removed_contrib(l, r, ks[0], key);
        assert forall|i: int| 0 <= i < whole.len() implies extends_path(
            change_path(#[trigger] whole[i]),
            key,
        ) by {
            if i < head.len() {
                assert(whole[i] == head[i]);
                lemma_join_extends(key, ks[0]);
            } else {
                assert(whole[i] == removed_recs(l, r, ks.drop_first(), key)[i - head.len()]);
            }
        }
    }
}

proof fn lemma_paths_inter(l: Val, r: Val, ks: Seq<Seq<char>>, key: Seq<char>)
    ensures
        forall|i: int|
            0 <= i < diff_inter(l, r, ks, key).len() ==> extends_path(
                change_path(#[trigger] diff_inter(l, r, ks, key)[i]),
                key,
            ),
    decreases l, r, 0int, ks.len(),
{
    if ks.len() > 0 {
        let k = ks[0];
        let head = inter_contrib(l, r, k, key);
        if l.has_child(k) && r.has_child(k) {
            let pl = l.child_pairs()[l.child_idx(k)];
            assert(l.child_pairs().contains(pl));
            lemma_child_decreases(l, pl);
            let pr = r.child_pairs()[r.child_idx(k)];
            assert(r.child_pairs().contains(pr));
            lemma_child_decreases(r, pr);
            lemma_diff_paths(l.child_of(k), r.child_of(k), join_seq(key, k));
        }
        lemma_paths_inter(l, r, ks.drop_first(), key);
        let whole = diff_inter(l, r, ks, key);
        assert forall|i: int| 0 <= i < whole.len() implies extends_path(
            change_path(#[trigger] whole[i]),
            key,
        ) by {
            if i < head.len() {
                assert(whole[i] == head[i]);
                assert(extends_path(change_path(head[i]), join_seq(key, k)));
                lemma_extends_step(change_path(head[i]), key, k);
            } else {
                assert(whole[i] == diff_inter(l, r, ks.drop_first(), key)[i - head.len()]);
            }
        }
    }
}

/// Path composition: every record of a diff at label `key` is labeled either
/// by `key` itself (the whole-node `Modified` cases) or by `key` extended
/// with the `.` separator and the keys walked to reach the changed node.
pub proof fn lemma_diff_paths(l: Val, r: Val, key: Seq<char>)
    ensures
        forall|i: int|
            0 <= i < spec_diff(l, r, key).len() ==> extends_path(
                change_path(#[trigger] spec_diff(l, r, key)[i]),
                key,
            ),
    decreases l, r, 1int, 0int,
{
    let whole = spec_diff(l, r, key);
    if !l.is_container() && !r.is_container() {
    } else if l.is_container() && r.is_container() {
        if l != r {
            let kl = sorted_keys(l);
            let kr = sorted_keys(r);
            lemma_paths_inter(l, r, kl, key);
            lemma_paths_added(l, r, kr, key);
            lemma_paths_removed(l, r, kl, key);
            let a = diff_inter(l, r, kl, key);
            let b = added_recs(l, r, kr, key);
            let c = removed_recs(l, r, kl, key);
            assert forall|i: int| 0 <= i < whole.len() implies extends_path(
                change_path(#[trigger] whole[i]),
                key,
            ) by {
                if i < a.len() {
                    assert(whole[i] == a[i]);
                } else if i < a.len() + b.len() {
                    assert(whole[i] == b[i - a.len()]);
                } else {
                    assert(whole[i] == c[i - a.len() - b.len()]);
                }
            }
        }
    } else {
    }
}

} // verus!
