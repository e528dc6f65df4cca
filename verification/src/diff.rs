//! The structural diff engine.
//!
//! [`diff`] compares two value trees at a path label and appends one change
//! record per structural difference to a caller-owned [`Recorder`]: scalar
//! and container/scalar mismatches become `Modified`, keys present on one
//! side only become `Added` or `Removed`, and common keys of two unequal
//! containers are recursed into.  At every level the engine walks keys in
//! ascending lexicographic order, in three passes — common keys, right-only
//! keys, left-only keys — so the change sequence is a function of the two
//! input trees alone: [`spec_diff`] states exactly which one.

use vstd::prelude::*;

use crate::keys::join_path;
use crate::keys::join_seq;
use crate::keys::lex_le;
use crate::keys::str_le;
use crate::value::view_val;
use crate::value::Val;
use crate::value::Value;
use crate::value::lemma_child_decreases;
use crate::value::lemma_child_unique;
use crate::value::lemma_child_wf;

verus! {

// ------------------------------------------------------------------
// Change records and the recorder
// ------------------------------------------------------------------

/// Ghost model of one reported change.
#[verifier::ext_equal]
pub ghost enum Change {
    /// A key present in the left tree and absent from the right, with the
    /// value that disappeared.
    Removed(Seq<char>, Val),
    /// A key present in the right tree and absent from the left, with the
    /// value that appeared.
    Added(Seq<char>, Val),
    /// The same key on both sides with materially different content: the
    /// path, the old value and the new value.
    Modified(Seq<char>, Val, Val),
}

/// One reported change: a removal, an addition or a modification, each
/// carrying its hierarchical path label and the affected subtree(s).
#[derive(Debug)]
pub enum ChangeType {
    /// A key present in the left tree and absent from the right.
    Removed(String, Value),
    /// A key present in the right tree and absent from the left.
    Added(String, Value),
    /// The same key on both sides with materially different content.
    Modified(String, Value, Value),
}

impl View for ChangeType {
    type V = Change;

    open spec fn view(&self) -> Change {
        match self {
            ChangeType::Removed(path, v) => Change::Removed(path@, view_val(*v)),
            ChangeType::Added(path, v) => Change::Added(path@, view_val(*v)),
            ChangeType::Modified(path, from, to) => Change::Modified(
                path@,
                view_val(*from),
                view_val(*to),
            ),
        }
    }
}

/// The append-only accumulator of change records for one comparison pass.
/// Its view is the sequence of recorded changes, in order.
#[derive(Debug)]
pub struct Recorder {
    calls: Vec<ChangeType>,
}

impl View for Recorder {
    type V = Seq<Change>;

    closed spec fn view(&self) -> Seq<Change> {
        Seq::new(self.calls@.len(), |i: int| self.calls@[i]@)
    }
}

impl Recorder {
    /// A fresh recorder with no changes.
    pub fn new() -> (r: Recorder)
        ensures
            r@ == Seq::<Change>::empty(),
    {
        let r = Recorder { calls: Vec::new() };
        proof {
            assert(r@ =~= Seq::<Change>::empty());
        }
        r
    }

    /// Appends a `Modified` record.
    pub fn modified(&mut self, key: String, from: Value, to: Value)
        ensures
            final(self)@ == old(self)@.push(Change::Modified(key@, from@, to@)),
    {
        self.calls.push(ChangeType::Modified(key, from, to));
        proof {
            assert(self@ =~= old(self)@.push(Change::Modified(key@, from@, to@)));
        }
    }

    /// Appends an `Added` record.
    pub fn added(&mut self, key: String, new: Value)
        ensures
            final(self)@ == old(self)@.push(Change::Added(key@, new@)),
    {
        self.calls.push(ChangeType::Added(key, new));
        proof {
            assert(self@ =~= old(self)@.push(Change::Added(key@, new@)));
        }
    }

    /// Appends a `Removed` record.
    pub fn removed(&mut self, key: String, removed: Value)
        ensures
            final(self)@ == old(self)@.push(Change::Removed(key@, removed@)),
    {
        self.calls.push(ChangeType::Removed(key, removed));
        proof {
            assert(self@ =~= old(self)@.push(Change::Removed(key@, removed@)));
        }
    }

    /// The recorded changes, for the caller to consume.
    pub fn calls(&self) -> (r: &Vec<ChangeType>)
        ensures
            r@.len() == self@.len(),
            forall|i: int| 0 <= i < r@.len() ==> (#[trigger] r@[i])@ == self@[i],
    {
        &self.calls
    }
}

// ------------------------------------------------------------------
// Sorting children by key
// ------------------------------------------------------------------

/// The models of a list of (key, value) entries, in order.
pub open spec fn pairs_view(s: Seq<(String, Value)>) -> Seq<(Seq<char>, Val)> {
    Seq::new(s.len(), |i: int| (s[i].0@, view_val(s[i].1)))
}

/// Insertion of a pair into a key-sorted sequence, before the first entry
/// whose key is not smaller.
pub open spec fn insert_pair(s: Seq<(Seq<char>, Val)>, p: (Seq<char>, Val)) -> Seq<
    (Seq<char>, Val),
>
    decreases s.len(),
{
    if s.len() == 0 {
        seq![p]
    } else if lex_le(p.0, s[0].0) {
        seq![p] + s
    } else {
        seq![s[0]] + insert_pair(s.drop_first(), p)
    }
}

/// Insertion sort of (key, value) pairs into ascending key order.
pub open spec fn sort_pairs(s: Seq<(Seq<char>, Val)>) -> Seq<(Seq<char>, Val)>
    decreases s.len(),
{
    if s.len() == 0 {
        Seq::empty()
    } else {
        insert_pair(sort_pairs(s.drop_first()), s[0])
    }
}

proof fn lemma_cons_contains(a: (Seq<char>, Val), t: Seq<(Seq<char>, Val)>, q: (Seq<char>, Val))
    ensures
        (seq![a] + t).contains(q) <==> (q == a || t.contains(q)),
{
    let u = seq![a] + t;
    if u.contains(q) {
        let i = choose|i: int| 0 <= i < u.len() && u[i] == q;
        if i == 0 {
        } else {
            assert(t[i - 1] == q);
        }
    }
    if q == a {
        assert(u[0] == q);
    }
    if t.contains(q) {
        let i = choose|i: int| 0 <= i < t.len() && t[i] == q;
        assert(u[i + 1] == q);
    }
}

proof fn lemma_insert_pair_props(s: Seq<(Seq<char>, Val)>, p: (Seq<char>, Val))
    ensures
        insert_pair(s, p).len() == s.len() + 1,
        forall|q: (Seq<char>, Val)|
            #[trigger] insert_pair(s, p).contains(q) <==> (s.contains(q) || q == p),
    decreases s.len(),
{
    if s.len() == 0 {
        assert forall|q: (Seq<char>, Val)|
            #[trigger] insert_pair(s, p).contains(q) <==> (s.contains(q) || q == p) by {
            lemma_cons_contains(p, Seq::empty(), q);
            assert(seq![p] + Seq::<(Seq<char>, Val)>::empty() =~= seq![p]);
            assert(!s.contains(q));
        }
    } else if lex_le(p.0, s[0].0) {
        assert forall|q: (Seq<char>, Val)|
            #[trigger] insert_pair(s, p).contains(q) <==> (s.contains(q) || q == p) by {
            lemma_cons_contains(p, s, q);
        }
    } else {
        lemma_insert_pair_props(s.drop_first(), p);
        assert(s =~= seq![s[0]] + s.drop_first());
        assert forall|q: (Seq<char>, Val)|
            #[trigger] insert_pair(s, p).contains(q) <==> (s.contains(q) || q == p) by {
            lemma_cons_contains(s[0], insert_pair(s.drop_first(), p), q);
            lemma_cons_contains(s[0], s.drop_first(), q);
        }
    }
}

/// Sorting keeps exactly the entries: same length, same members.
pub proof fn lemma_sort_pairs_props(s: Seq<(Seq<char>, Val)>)
    ensures
        sort_pairs(s).len() == s.len(),
        forall|q: (Seq<char>, Val)| #[trigger] sort_pairs(s).contains(q) <==> s.contains(q),
    decreases s.len(),
{
    if s.len() == 0 {
        assert forall|q: (Seq<char>, Val)|
            #[trigger] sort_pairs(s).contains(q) <==> s.contains(q) by {
            assert(!sort_pairs(s).contains(q));
            assert(!s.contains(q));
        }
    } else {
        lemma_sort_pairs_props(s.drop_first());
        lemma_insert_pair_props(sort_pairs(s.drop_first()), s[0]);
        assert(s =~= seq![s[0]] + s.drop_first());
        assert forall|q: (Seq<char>, Val)|
            #[trigger] sort_pairs(s).contains(q) <==> s.contains(q) by {
            lemma_cons_contains(s[0], s.drop_first(), q);
        }
    }
}

/// Ascending key order of a pair sequence.
pub open spec fn keys_sorted(sp: Seq<(Seq<char>, Val)>) -> bool {
    forall|a: int, b: int|
        #![trigger sp[a], sp[b]]
        0 <= a < b < sp.len() ==> lex_le(sp[a].0, sp[b].0)
}

proof fn lemma_insert_pair_sorted(s: Seq<(Seq<char>, Val)>, p: (Seq<char>, Val))
    requires
        keys_sorted(s),
    ensures
        keys_sorted(insert_pair(s, p)),
    decreases s.len(),
{
    lemma_insert_pair_props(s, p);
    if s.len() == 0 {
    } else if lex_le(p.0, s[0].0) {
        let u = seq![p] + s;
        assert forall|a: int, b: int|
            #![trigger u[a], u[b]]
            0 <= a < b < u.len() implies lex_le(u[a].0, u[b].0) by {
            if a == 0 {
                if b > 1 {
                    assert(u[b] == s[b - 1]);
                    assert(lex_le(s[0].0, s[b - 1].0));
                    crate::keys::lemma_lex_le_trans(p.0, s[0].0, s[b - 1].0);
                }
            } else {
                assert(u[a] == s[a - 1] && u[b] == s[b - 1]);
            }
        }
    } else {
        crate::keys::lemma_lex_le_total(p.0, s[0].0);
        assert(lex_le(s[0].0, p.0));
        assert forall|a: int, b: int|
            #![trigger s.drop_first()[a], s.drop_first()[b]]
            0 <= a < b < s.drop_first().len() implies lex_le(
            s.drop_first()[a].0,
            s.drop_first()[b].0,
        ) by {
            assert(s.drop_first()[a] == s[a + 1] && s.drop_first()[b] == s[b + 1]);
        }
        lemma_insert_pair_sorted(s.drop_first(), p);
        lemma_insert_pair_props(s.drop_first(), p);
        let t = insert_pair(s.drop_first(), p);
        let u = seq![s[0]] + t;
        assert forall|j: int| 0 <= j < t.len() implies lex_le(s[0].0, (#[trigger] t[j]).0) by {
            assert(t.contains(t[j]));
            if t[j] == p {
            } else {
                assert(s.drop_first().contains(t[j]));
                let q = choose|q: int|
                    0 <= q < s.drop_first().len() && s.drop_first()[q] == t[j];
                assert(s.drop_first()[q] == s[q + 1]);
                assert(lex_le(s[0].0, s[q + 1].0));
            }
        }
        assert forall|a: int, b: int|
            #![trigger u[a], u[b]]
            0 <= a < b < u.len() implies lex_le(u[a].0, u[b].0) by {
            if a == 0 {
                assert(u[b] == t[b - 1]);
            } else {
                assert(u[a] == t[a - 1] && u[b] == t[b - 1]);
            }
        }
    }
}

/// The sorted child list really is in ascending key order.
pub proof fn lemma_sort_pairs_sorted(s: Seq<(Seq<char>, Val)>)
    ensures
        keys_sorted(sort_pairs(s)),
    decreases s.len(),
{
    if s.len() > 0 {
        lemma_sort_pairs_sorted(s.drop_first());
        lemma_insert_pair_sorted(sort_pairs(s.drop_first()), s[0]);
    }
}

proof fn lemma_insert_pair_at(s: Seq<(Seq<char>, Val)>, p: (Seq<char>, Val), idx: int)
    requires
        0 <= idx <= s.len(),
        forall|j: int| 0 <= j < idx ==> !lex_le(p.0, (#[trigger] s[j]).0),
        idx < s.len() ==> lex_le(p.0, s[idx].0),
    ensures
        insert_pair(s, p) == s.subrange(0, idx) + seq![p] + s.subrange(idx, s.len() as int),
    decreases idx,
{
    if idx == 0 {
        if s.len() == 0 {
            assert(insert_pair(s, p) =~= s.subrange(0, 0) + seq![p] + s.subrange(0, 0));
        } else {
            assert(lex_le(p.0, s[0].0));
            assert(insert_pair(s, p) =~= s.subrange(0, 0) + seq![p] + s.subrange(
                0,
                s.len() as int,
            ));
        }
    } else {
        assert(!lex_le(p.0, s[0].0));
        assert forall|j: int| 0 <= j < idx - 1 implies !lex_le(
            p.0,
            (#[trigger] s.drop_first()[j]).0,
        ) by {
            assert(s.drop_first()[j] == s[j + 1]);
        }
        lemma_insert_pair_at(s.drop_first(), p, idx - 1);
        assert(insert_pair(s, p) == seq![s[0]] + insert_pair(s.drop_first(), p));
        assert(insert_pair(s, p) =~= s.subrange(0, idx) + seq![p] + s.subrange(
            idx,
            s.len() as int,
        ));
    }
}

fn insert_sorted(list: &mut Vec<(String, Value)>, p: (String, Value))
    ensures
        pairs_view(final(list)@) == insert_pair(pairs_view(old(list)@), (p.0@, p.1@)),
{
    let mut idx: usize = 0;
    while idx < list.len() && !str_le(p.0.as_str(), list[idx].0.as_str())
        invariant
            idx <= list@.len(),
            list@ == old(list)@,
            forall|j: int| 0 <= j < idx ==> !lex_le(p.0@, (#[trigger] list@[j]).0@),
        decreases list@.len() - idx,
    {
        idx += 1;
    }
    let ghost s = pairs_view(old(list)@);
    proof {
        assert forall|j: int| 0 <= j < idx implies !lex_le((p.0@, p.1@).0, (#[trigger] s[j]).0) by {
            assert(s[j] == (list@[j].0@, view_val(list@[j].1)));
        }
        if (idx as int) < s.len() {
            assert(s[idx as int].0 == list@[idx as int].0@);
        }
        lemma_insert_pair_at(s, (p.0@, p.1@), idx as int);
    }
    list.insert(idx, p);
    proof {
        assert(pairs_view(list@) =~= s.subrange(0, idx as int) + seq![(p.0@, p.1@)] + s.subrange(
            idx as int,
            s.len() as int,
        ));
    }
}

fn sort_by_key(input: Vec<(String, Value)>) -> (out: Vec<(String, Value)>)
    ensures
        pairs_view(out@) == sort_pairs(pairs_view(input@)),
{
    let ghost orig = input@;
    let mut rest = input;
    let mut out: Vec<(String, Value)> = Vec::new();
    proof {
        assert(rest@ =~= orig.subrange(0, rest@.len() as int));
        assert(pairs_view(orig.subrange(orig.len() as int, orig.len() as int)) =~= Seq::<
            (Seq<char>, Val),
        >::empty());
        assert(pairs_view(out@) =~= sort_pairs(
            pairs_view(orig.subrange(rest@.len() as int, orig.len() as int)),
        ));
    }
    while rest.len() > 0
        invariant
            rest@.len() <= orig.len(),
            rest@ == orig.subrange(0, rest@.len() as int),
            pairs_view(out@) == sort_pairs(
                pairs_view(orig.subrange(rest@.len() as int, orig.len() as int)),
            ),
        decreases rest@.len(),
    {
        let ghost n = rest@.len() as int;
        let p = rest.pop().unwrap();
        proof {
            assert(p == orig[n - 1]);
            assert(rest@ =~= orig.subrange(0, n - 1));
        }
        insert_sorted(&mut out, p);
        proof {
            let t = pairs_view(orig.subrange(n - 1, orig.len() as int));
            assert(t.len() > 0);
            assert(t[0] == (p.0@, p.1@));
            assert(t.drop_first() =~= pairs_view(orig.subrange(n, orig.len() as int)));
            assert(sort_pairs(t) == insert_pair(sort_pairs(t.drop_first()), t[0]));
            assert(pairs_view(out@) == sort_pairs(t));
        }
    }
    proof {
        assert(orig.subrange(0, orig.len() as int) =~= orig);
        assert(pairs_view(out@) == sort_pairs(pairs_view(orig)));
    }
    out
}

/// The children of a container, copied out as (key, value) entries in the
/// container's own order.
fn children_of(v: &Value) -> (out: Vec<(String, Value)>)
    requires
        v@.is_container(),
    ensures
        pairs_view(out@) == v@.child_pairs(),
{
    match v {
        Value::Array(items) => {
            let ghost sv = crate::value::view_arr(items@);
            proof {
                crate::value::lemma_view_arr(items@);
            }
            let mut out: Vec<(String, Value)> = Vec::new();
            let mut i: usize = 0;
            while i < items.len()
                invariant
                    v@ == Val::Array(sv),
                    sv == crate::value::view_arr(items@),
                    sv.len() == items@.len(),
                    i <= items@.len(),
                    out@.len() == i,
                    forall|j: int|
                        0 <= j < items@.len() ==> #[trigger] sv[j] == view_val(items@[j]),
                    forall|j: int|
                        0 <= j < i ==> (#[trigger] out@[j]).0@ == crate::keys::dec_str(j as nat)
                            && view_val(out@[j].1) == sv[j],
                decreases items@.len() - i,
            {
                let k = crate::keys::index_string(i);
                let c = items[i].deep_clone();
                out.push((k, c));
                i += 1;
            }
            proof {
                assert(pairs_view(out@) =~= v@.child_pairs());
            }
            out
        },
        Value::Dict(pairs) => {
            let ghost sv = crate::value::view_dict(pairs@);
            proof {
                crate::value::lemma_view_dict(pairs@);
            }
            let mut out: Vec<(String, Value)> = Vec::new();
            let mut i: usize = 0;
            while i < pairs.len()
                invariant
                    v@ == Val::Dict(sv),
                    sv == crate::value::view_dict(pairs@),
                    sv.len() == pairs@.len(),
                    i <= pairs@.len(),
                    out@.len() == i,
                    forall|j: int|
                        0 <= j < pairs@.len() ==> #[trigger] sv[j] == (
                            pairs@[j].0@,
                            view_val(pairs@[j].1),
                        ),
                    forall|j: int|
                        0 <= j < i ==> (#[trigger] out@[j]).0@ == sv[j].0 && view_val(out@[j].1)
                            == sv[j].1,
                decreases pairs@.len() - i,
            {
                let k = pairs[i].0.clone();
                let c = pairs[i].1.deep_clone();
                out.push((k, c));
                i += 1;
            }
            proof {
                assert(pairs_view(out@) =~= v@.child_pairs());
            }
            out
        },
        _ => {
            proof {
                assert(false);
            }
            Vec::new()
        },
    }
}

/// Looks a key up in a list of (key, value) entries; the index of the first
/// entry under that key, if any.
fn find_in(pairs: &Vec<(String, Value)>, k: &String) -> (r: Option<usize>)
    ensures
        (r matches Some(j) ==> j < pairs@.len() && pairs@[j as int].0@ == k@),
        (r is None ==> forall|j: int| 0 <= j < pairs@.len() ==> (#[trigger] pairs@[j]).0@ != k@),
{
    let mut i: usize = 0;
    while i < pairs.len()
        invariant
            i <= pairs@.len(),
            forall|j: int| 0 <= j < i ==> (#[trigger] pairs@[j]).0@ != k@,
        decreases pairs@.len() - i,
    {
        if pairs[i].0.eq(k) {
            return Some(i);
        }
        i += 1;
    }
    None
}

// ------------------------------------------------------------------
// The diff function and its specification
// ------------------------------------------------------------------

/// The keys of a container's children in ascending lexicographic order.
pub open spec fn sorted_keys(v: Val) -> Seq<Seq<char>> {
    Seq::new(sort_pairs(v.child_pairs()).len(), |i: int| sort_pairs(v.child_pairs())[i].0)
}

/// The records that the right-only pass appends: one `Added` per key of `ks`
/// that is absent from `l`, in order.
pub open spec fn added_recs(l: Val, r: Val, ks: Seq<Seq<char>>, key: Seq<char>) -> Seq<Change>
    decreases ks.len(),
{
    if ks.len() == 0 {
        Seq::empty()
    } else {
        let head: Seq<Change> = if !l.has_child(ks[0]) {
            seq![Change::Added(join_seq(key, ks[0]), r.child_of(ks[0]))]
        } else {
            Seq::empty()
        };
        head + added_recs(l, r, ks.drop_first(), key)
    }
}

/// The records that the left-only pass appends: one `Removed` per key of `ks`
/// that is absent from `r`, in order.
pub open spec fn removed_recs(l: Val, r: Val, ks: Seq<Seq<char>>, key: Seq<char>) -> Seq<Change>
    decreases ks.len(),
{
    if ks.len() == 0 {
        Seq::empty()
    } else {
        let head: Seq<Change> = if !r.has_child(ks[0]) {
            seq![Change::Removed(join_seq(key, ks[0]), l.child_of(ks[0]))]
        } else {
            Seq::empty()
        };
        head + removed_recs(l, r, ks.drop_first(), key)
    }
}

/// The records of the common-key pass: for each key of `ks` present on both
/// sides, in order, the whole diff of the two children at that key.
pub open spec fn diff_inter(l: Val, r: Val, ks: Seq<Seq<char>>, key: Seq<char>) -> Seq<Change>
    decreases l, r, 0int, ks.len()
        via diff_inter_decreases
{
    if ks.len() == 0 {
        Seq::empty()
    } else {
        let head: Seq<Change> = if l.has_child(ks[0]) && r.has_child(ks[0]) {
            spec_diff(l.child_of(ks[0]), r.child_of(ks[0]), join_seq(key, ks[0]))
        } else {
            Seq::empty()
        };
        head + diff_inter(l, r, ks.drop_first(), key)
    }
}

#[via_fn]
proof fn diff_inter_decreases(l: Val, r: Val, ks: Seq<Seq<char>>, key: Seq<char>) {
    if ks.len() > 0 {
        let k = ks[0];
        if l.has_child(k) && r.has_child(k) {
            let pl = l.child_pairs()[l.child_idx(k)];
            assert(l.child_pairs().contains(pl));
            lemma_child_decreases(l, pl);
            let pr = r.child_pairs()[r.child_idx(k)];
            assert(r.child_pairs().contains(pr));
            lemma_child_decreases(r, pr);
        }
    }
}

/// The change sequence that one [`diff`] invocation appends: nothing for
/// equal trees, a single `Modified` for differing scalars or for a
/// container/scalar mismatch, and for two unequal containers the common-key
/// recursions, then the right-only additions, then the left-only removals,
/// each pass in ascending key order.
pub open spec fn spec_diff(l: Val, r: Val, key: Seq<char>) -> Seq<Change>
    decreases l, r, 1int, 0int,
{
    if !l.is_container() && !r.is_container() {
        if l == r {
            Seq::empty()
        } else {
            seq![Change::Modified(key, l, r)]
        }
    } else if l.is_container() && r.is_container() {
        if l == r {
            Seq::empty()
        } else {
            diff_inter(l, r, sorted_keys(l), key) + added_recs(l, r, sorted_keys(r), key)
                + removed_recs(l, r, sorted_keys(l), key)
        }
    } else {
        seq![Change::Modified(key, l, r)]
    }
}

/// What the common-key pass contributes for one key.
pub open spec fn inter_contrib(l: Val, r: Val, k: Seq<char>, key: Seq<char>) -> Seq<Change> {
    if l.has_child(k) && r.has_child(k) {
        spec_diff(l.child_of(k), r.child_of(k), join_seq(key, k))
    } else {
        Seq::empty()
    }
}

/// What the right-only pass contributes for one key.
pub open spec fn added_contrib(l: Val, r: Val, k: Seq<char>, key: Seq<char>) -> Seq<Change> {
    if !l.has_child(k) {
        seq![Change::Added(join_seq(key, k), r.child_of(k))]
    } else {
        Seq::empty()
    }
}

/// What the left-only pass contributes for one key.
pub open spec fn removed_contrib(l: Val, r: Val, k: Seq<char>, key: Seq<char>) -> Seq<Change> {
    if !r.has_child(k) {
        seq![Change::Removed(join_seq(key, k), l.child_of(k))]
    } else {
        Seq::empty()
    }
}

proof fn lemma_diff_inter_push(l: Val, r: Val, ks: Seq<Seq<char>>, k: Seq<char>, key: Seq<char>)
    ensures
        diff_inter(l, r, ks.push(k), key) == diff_inter(l, r, ks, key) + inter_contrib(
            l,
            r,
            k,
            key,
        ),
    decreases ks.len(),
{
    if ks.len() == 0 {
        assert(ks.push(k)[0] == k);
        let e = ks.push(k).drop_first();
        assert(e =~= Seq::<Seq<char>>::empty());
        assert(diff_inter(l, r, e, key) == Seq::<Change>::empty());
        assert(diff_inter(l, r, ks.push(k), key) == inter_contrib(l, r, k, key) + Seq::<Change>::empty());
        assert(diff_inter(l, r, ks, key) == Seq::<Change>::empty());
        assert(inter_contrib(l, r, k, key) + Seq::<Change>::empty() =~= Seq::<Change>::empty()
            + inter_contrib(l, r, k, key));
    } else {
        lemma_diff_inter_push(l, r, ks.drop_first(), k, key);
        assert(ks.push(k)[0] == ks[0]);
        assert(ks.push(k).drop_first() =~= ks.drop_first().push(k));
        let h = inter_contrib(l, r, ks[0], key);
        let c = inter_contrib(l, r, k, key);
        let t = diff_inter(l, r, ks.drop_first(), key);
        assert(diff_inter(l, r, ks.push(k), key) == h + diff_inter(
            l,
            r,
            ks.push(k).drop_first(),
            key,
        ));
        assert(diff_inter(l, r, ks.push(k).drop_first(), key) == t + c);
        assert(diff_inter(l, r, ks, key) == h + t);
        assert(h + (t + c) =~= (h + t) + c);
    }
}

proof fn lemma_added_push(l: Val, r: Val, ks: Seq<Seq<char>>, k: Seq<char>, key: Seq<char>)
    ensures
        added_recs(l, r, ks.push(k), key) == added_recs(l, r, ks, key) + added_contrib(
            l,
            r,
            k,
            key,
        ),
    decreases ks.len(),
{
    if ks.len() == 0 {
        assert(ks.push(k)[0] == k);
        let e = ks.push(k).drop_first();
        assert(e =~= Seq::<Seq<char>>::empty());
        assert(added_recs(l, r, e, key) == Seq::<Change>::empty());
        assert(added_recs(l, r, ks.push(k), key) == added_contrib(l, r, k, key) + Seq::<Change>::empty());
        assert(added_recs(l, r, ks, key) == Seq::<Change>::empty());
        assert(added_contrib(l, r, k, key) + Seq::<Change>::empty() =~= Seq::<Change>::empty()
            + added_contrib(l, r, k, key));
    } else {
        lemma_added_push(l, r, ks.drop_first(), k, key);
        assert(ks.push(k)[0] == ks[0]);
        assert(ks.push(k).drop_first() =~= ks.drop_first().push(k));
        let h = added_contrib(l, r, ks[0], key);
        let c = added_contrib(l, r, k, key);
        let t = added_recs(l, r, ks.drop_first(), key);
        assert(added_recs(l, r, ks.push(k), key) == h + added_recs(
            l,
            r,
            ks.push(k).drop_first(),
            key,
        ));
        assert(added_recs(l, r, ks.push(k).drop_first(), key) == t + c);
        assert(added_recs(l, r, ks, key) == h + t);
        assert(h + (t + c) =~= (h + t) + c);
    }
}

proof fn lemma_removed_push(l: Val, r: Val, ks: Seq<Seq<char>>, k: Seq<char>, key: Seq<char>)
    ensures
        removed_recs(l, r, ks.push(k), key) == removed_recs(l, r, ks, key) + removed_contrib(
            l,
            r,
            k,
            key,
        ),
    decreases ks.len(),
{
    if ks.len() == 0 {
        assert(ks.push(k)[0] == k);
        let e = ks.push(k).drop_first();
        assert(e =~= Seq::<Seq<char>>::empty());
        assert(removed_recs(l, r, e, key) == Seq::<Change>::empty());
        assert(removed_recs(l, r, ks.push(k), key) == removed_contrib(l, r, k, key) + Seq::<Change>::empty());
        assert(removed_recs(l, r, ks, key) == Seq::<Change>::empty());
        assert(removed_contrib(l, r, k, key) + Seq::<Change>::empty() =~= Seq::<Change>::empty()
            + removed_contrib(l, r, k, key));
    } else {
        lemma_removed_push(l, r, ks.drop_first(), k, key);
        assert(ks.push(k)[0] == ks[0]);
        assert(ks.push(k).drop_first() =~= ks.drop_first().push(k));
        let h = removed_contrib(l, r, ks[0], key);
        let c = removed_contrib(l, r, k, key);
        let t = removed_recs(l, r, ks.drop_first(), key);
        assert(removed_recs(l, r, ks.push(k), key) == h + removed_recs(
            l,
            r,
            ks.push(k).drop_first(),
            key,
        ));
        assert(removed_recs(l, r, ks.push(k).drop_first(), key) == t + c);
        assert(removed_recs(l, r, ks, key) == h + t);
        assert(h + (t + c) =~= (h + t) + c);
    }
}

/// The entries of the sorted child list are exactly the children: each entry
/// is the unique child under its key, and every present key occurs.
proof fn lemma_sorted_pair_lookup(v: Val, sp: Seq<(Seq<char>, Val)>)
    requires
        v.wf(),
        sp == sort_pairs(v.child_pairs()),
    ensures
        sp.len() == v.child_pairs().len(),
        forall|j: int|
            0 <= j < sp.len() ==> v.has_child((#[trigger] sp[j]).0) && v.child_of(sp[j].0)
                == sp[j].1 && sp[j].1.wf(),
        forall|k: Seq<char>|
            #[trigger] v.has_child(k) ==> exists|j: int|
                0 <= j < sp.len() && (#[trigger] sp[j]).0 == k,
{
    lemma_sort_pairs_props(v.child_pairs());
    assert forall|j: int|
        0 <= j < sp.len() implies v.has_child((#[trigger] sp[j]).0) && v.child_of(sp[j].0)
        == sp[j].1 && sp[j].1.wf() by {
        assert(sp.contains(sp[j]));
        assert(v.child_pairs().contains(sp[j]));
        lemma_child_unique(v, sp[j]);
        lemma_child_wf(v, sp[j]);
    }
    assert forall|k: Seq<char>| #[trigger] v.has_child(k) implies exists|j: int|
        0 <= j < sp.len() && (#[trigger] sp[j]).0 == k by {
        let i = v.child_idx(k);
        let p = v.child_pairs()[i];
        assert(v.child_pairs().contains(p));
        assert(sp.contains(p));
        let j = choose|j: int| 0 <= j < sp.len() && sp[j] == p;
        assert(sp[j].0 == k);
    }
}

/// Compares `lh` and `rh` at the path label `key` and appends the changes
/// between them to `recorder`, exactly the records of [`spec_diff`].  Since
/// that sequence is a function of the two trees and the label alone, repeated
/// invocations on the same inputs append the same records in the same order.
pub fn diff(lh: &Value, rh: &Value, recorder: &mut Recorder, key: String)
    requires
        lh@.wf(),
        rh@.wf(),
    ensures
        final(recorder)@ == old(recorder)@ + spec_diff(lh@, rh@, key@),
    decreases lh@,
{
    let ghost rec0 = recorder@;
    let ghost l = lh@;
    let ghost r = rh@;
    let l_cont = lh.is_container();
    let r_cont = rh.is_container();
    if !l_cont && !r_cont {
        if lh.deep_eq(rh) {
            proof {
                assert(recorder@ =~= rec0 + spec_diff(l, r, key@));
            }
        } else {
            recorder.modified(key, lh.deep_clone(), rh.deep_clone());
            proof {
                assert(recorder@ =~= rec0 + spec_diff(l, r, key@));
            }
        }
    } else if l_cont && r_cont {
        if lh.deep_eq(rh) {
            proof {
                assert(recorder@ =~= rec0 + spec_diff(l, r, key@));
            }
        } else {
            let sl = sort_by_key(children_of(lh));
            let sr = sort_by_key(children_of(rh));
            let ghost spl = pairs_view(sl@);
            let ghost spr = pairs_view(sr@);
            proof {
                lemma_sorted_pair_lookup(l, spl);
                lemma_sorted_pair_lookup(r, spr);
            }
            let ghost kl = sorted_keys(l);
            let ghost kr = sorted_keys(r);
            proof {
                assert(kl.len() == spl.len());
                assert(forall|j: int| 0 <= j < kl.len() ==> #[trigger] kl[j] == spl[j].0);
                assert(kr.len() == spr.len());
                assert(forall|j: int| 0 <= j < kr.len() ==> #[trigger] kr[j] == spr[j].0);
                assert(kl.take(0) =~= Seq::<Seq<char>>::empty());
                assert(recorder@ =~= rec0 + diff_inter(l, r, kl.take(0), key@));
            }
            let mut i: usize = 0;
            while i < sl.len()
                invariant
                    l == lh@,
                    r == rh@,
                    l.wf(),
                    r.wf(),
                    pairs_view(sl@) == spl,
                    pairs_view(sr@) == spr,
                    spl == sort_pairs(l.child_pairs()),
                    spr == sort_pairs(r.child_pairs()),
                    spl.len() == sl@.len(),
                    spr.len() == sr@.len(),
                    kl == sorted_keys(l),
                    kl.len() == spl.len(),
                    forall|j: int| 0 <= j < kl.len() ==> #[trigger] kl[j] == spl[j].0,
                    forall|j: int|
                        0 <= j < spl.len() ==> l.has_child((#[trigger] spl[j]).0) && l.child_of(
                            spl[j].0,
                        ) == spl[j].1 && spl[j].1.wf(),
                    forall|j: int|
                        0 <= j < spr.len() ==> r.has_child((#[trigger] spr[j]).0) && r.child_of(
                            spr[j].0,
                        ) == spr[j].1 && spr[j].1.wf(),
                    forall|k: Seq<char>|
                        #[trigger] r.has_child(k) ==> exists|j: int|
                            0 <= j < spr.len() && (#[trigger] spr[j]).0 == k,
                    i <= sl@.len(),
                    recorder@ == rec0 + diff_inter(l, r, kl.take(i as int), key@),
                decreases sl@.len() - i,
            {
                let child_key = join_path(key.as_str(), sl[i].0.as_str());
                let ghost kk = spl[i as int].0;
                let found = find_in(&sr, &sl[i].0);
                proof {
                    assert(kl.take(i + 1) =~= kl.take(i as int).push(kl[i as int]));
                    lemma_diff_inter_push(l, r, kl.take(i as int), kl[i as int], key@);
                    assert(kl[i as int] == kk);
                }
                match found {
                    Some(j) => {
                        proof {
                            assert(spr[j as int].0 == kk);
                            assert(r.has_child(kk));
                            assert(l.has_child(kk));
                            assert(l.child_of(kk) == spl[i as int].1);
                            assert(r.child_of(kk) == spr[j as int].1);
                            let pl = l.child_pairs()[l.child_idx(kk)];
                            assert(l.child_pairs().contains(pl));
                            lemma_child_decreases(l, pl);
                            assert(decreases_to!(l => spl[i as int].1));
                            assert(sl@[i as int].1@ == spl[i as int].1);
                            assert(sr@[j as int].1@ == spr[j as int].1);
                        }
                        diff(&sl[i].1, &sr[j].1, recorder, child_key);
                        proof {
                            assert(inter_contrib(l, r, kk, key@) == spec_diff(
                                spl[i as int].1,
                                spr[j as int].1,
                                join_seq(key@, kk),
                            ));
                            assert(recorder@ =~= rec0 + diff_inter(l, r, kl.take(i + 1), key@));
                        }
                    },
                    None => {
                        proof {
                            if r.has_child(kk) {
                                let j = choose|j: int|
                                    0 <= j < spr.len() && (#[trigger] spr[j]).0 == kk;
                                assert(sr@[j].0@ == kk);
                                assert(false);
                            }
                            assert(inter_contrib(l, r, kk, key@) =~= Seq::<Change>::empty());
                            assert(recorder@ =~= rec0 + diff_inter(l, r, kl.take(i + 1), key@));
                        }
                    },
                }
                i += 1;
            }
            proof {
                assert(kl.take(sl@.len() as int) =~= kl);
            }
            let ghost rec1 = recorder@;
            proof {
                assert(kr.take(0) =~= Seq::<Seq<char>>::empty());
                assert(recorder@ =~= rec1 + added_recs(l, r, kr.take(0), key@));
            }
            let mut j: usize = 0;
            while j < sr.len()
                invariant
                    l == lh@,
                    r == rh@,
                    pairs_view(sl@) == spl,
                    pairs_view(sr@) == spr,
                    spl.len() == sl@.len(),
                    spr.len() == sr@.len(),
                    kr == sorted_keys(r),
                    kr.len() == spr.len(),
                    forall|q: int| 0 <= q < kr.len() ==> #[trigger] kr[q] == spr[q].0,
                    forall|q: int|
                        0 <= q < spl.len() ==> l.has_child((#[trigger] spl[q]).0),
                    forall|q: int|
                        0 <= q < spr.len() ==> r.has_child((#[trigger] spr[q]).0) && r.child_of(
                            spr[q].0,
                        ) == spr[q].1,
                    forall|k: Seq<char>|
                        #[trigger] l.has_child(k) ==> exists|q: int|
                            0 <= q < spl.len() && (#[trigger] spl[q]).0 == k,
                    j <= sr@.len(),
                    recorder@ == rec1 + added_recs(l, r, kr.take(j as int), key@),
                decreases sr@.len() - j,
            {
                let child_key = join_path(key.as_str(), sr[j].0.as_str());
                let ghost kk = spr[j as int].0;
                let found = find_in(&sl, &sr[j].0);
                proof {
                    assert(kr.take(j + 1) =~= kr.take(j as int).push(kr[j as int]));
                    lemma_added_push(l, r, kr.take(j as int), kr[j as int], key@);
                    assert(kr[j as int] == kk);
                }
                match found {
                    Some(q) => {
                        proof {
                            assert(spl[q as int].0 == kk);
                            assert(l.has_child(kk));
                            assert(added_contrib(l, r, kk, key@) =~= Seq::<Change>::empty());
                            assert(recorder@ =~= rec1 + added_recs(l, r, kr.take(j + 1), key@));
                        }
                    },
                    None => {
                        let c = sr[j].1.deep_clone();
                        recorder.added(child_key, c);
                        proof {
                            if l.has_child(kk) {
                                let q = choose|q: int|
                                    0 <= q < spl.len() && (#[trigger] spl[q]).0 == kk;
                                assert(sl@[q].0@ == kk);
                                assert(false);
                            }
                            assert(r.child_of(kk) == spr[j as int].1);
                            assert(recorder@ =~= rec1 + added_recs(l, r, kr.take(j + 1), key@));
                        }
                    },
                }
                j += 1;
            }
            proof {
                assert(kr.take(sr@.len() as int) =~= kr);
            }
            let ghost rec2 = recorder@;
            proof {
                assert(kl.take(0) =~= Seq::<Seq<char>>::empty());
                assert(recorder@ =~= rec2 + removed_recs(l, r, kl.take(0), key@));
            }
            let mut i2: usize = 0;
            while i2 < sl.len()
                invariant
                    l == lh@,
                    r == rh@,
                    pairs_view(sl@) == spl,
                    pairs_view(sr@) == spr,
                    spl.len() == sl@.len(),
                    spr.len() == sr@.len(),
                    kl == sorted_keys(l),
                    kl.len() == spl.len(),
                    forall|q: int| 0 <= q < kl.len() ==> #[trigger] kl[q] == spl[q].0,
                    forall|q: int|
                        0 <= q < spl.len() ==> l.has_child((#[trigger] spl[q]).0) && l.child_of(
                            spl[q].0,
                        ) == spl[q].1,
                    forall|q: int|
                        0 <= q < spr.len() ==> r.has_child((#[trigger] spr[q]).0),
                    forall|k: Seq<char>|
                        #[trigger] r.has_child(k) ==> exists|q: int|
                            0 <= q < spr.len() && (#[trigger] spr[q]).0 == k,
                    i2 <= sl@.len(),
                    recorder@ == rec2 + removed_recs(l, r, kl.take(i2 as int), key@),
                decreases sl@.len() - i2,
            {
                let child_key = join_path(key.as_str(), sl[i2].0.as_str());
                let ghost kk = spl[i2 as int].0;
                let found = find_in(&sr, &sl[i2].0);
                proof {
                    assert(kl.take(i2 + 1) =~= kl.take(i2 as int).push(kl[i2 as int]));
                    lemma_removed_push(l, r, kl.take(i2 as int), kl[i2 as int], key@);
                    assert(kl[i2 as int] == kk);
                }
                match found {
                    Some(q) => {
                        proof {
                            assert(spr[q as int].0 == kk);
                            assert(r.has_child(kk));
                            assert(removed_contrib(l, r, kk, key@) =~= Seq::<Change>::empty());
                            assert(recorder@ =~= rec2 + removed_recs(l, r, kl.take(i2 + 1), key@));
                        }
                    },
                    None => {
                        let c = sl[i2].1.deep_clone();
                        recorder.removed(child_key, c);
                        proof {
                            if r.has_child(kk) {
                                let q = choose|q: int|
                                    0 <= q < spr.len() && (#[trigger] spr[q]).0 == kk;
                                assert(sr@[q].0@ == kk);
                                assert(false);
                            }
                            assert(l.child_of(kk) == spl[i2 as int].1);
                            assert(recorder@ =~= rec2 + removed_recs(l, r, kl.take(i2 + 1), key@));
                        }
                    },
                }
                i2 += 1;
            }
            proof {
                assert(kl.take(sl@.len() as int) =~= kl);
                assert(l != r);
                assert(spec_diff(l, r, key@) == diff_inter(l, r, kl, key@) + added_recs(
                    l,
                    r,
                    kr,
                    key@,
                ) + removed_recs(l, r, kl, key@));
                assert(recorder@ =~= rec0 + spec_diff(l, r, key@));
            }
        }
    } else {
        recorder.modified(key, lh.deep_clone(), rh.deep_clone());
        proof {
            assert(recorder@ =~= rec0 + spec_diff(l, r, key@));
        }
    }
}

} // verus!
