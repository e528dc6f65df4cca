//! The value tree and its mathematical model.
//!
//! A [`Value`] is a closed polymorphic tree: scalar leaves (strings, booleans,
//! binary blobs, timestamps, integers, reals, reference identifiers), ordered
//! sequences addressed by index, and keyed mappings addressed by name.  Its
//! view is the ghost tree [`Val`], over which all contracts are stated.

use vstd::prelude::*;

use crate::keys::dec_str;
use crate::keys::lemma_dec_str_inj;

verus! {

/// Ghost model of a value tree: the same shape over mathematical sequences.
#[verifier::ext_equal]
pub ghost enum Val {
    /// A text scalar.
    Text(Seq<char>),
    /// A boolean scalar.
    Bool(bool),
    /// An opaque binary blob, compared byte for byte.
    Data(Seq<u8>),
    /// A timestamp: whole seconds relative to an epoch, and a subsecond
    /// nanosecond part; compared field for field.
    Date(i64, u32),
    /// An integer scalar, wide enough for both signed and unsigned 64-bit
    /// sources.
    Int(i128),
    /// A floating-point scalar, held as its raw bit pattern and compared
    /// bit for bit.
    Real(u64),
    /// An opaque reference identifier.
    Uid(u64),
    /// An ordered sequence; children are addressed by decimal index strings.
    Array(Seq<Val>),
    /// A keyed mapping; children are addressed by name.  Well-formed
    /// mappings have pairwise distinct names.
    Dict(Seq<(Seq<char>, Val)>),
}

/// An executable value tree of the same closed variant set.
#[derive(Debug)]
pub enum Value {
    /// A text scalar.
    Text(String),
    /// A boolean scalar.
    Bool(bool),
    /// An opaque binary blob, compared byte for byte.
    Data(Vec<u8>),
    /// A timestamp: whole seconds relative to an epoch, and a subsecond
    /// nanosecond part; compared field for field.
    Date(i64, u32),
    /// An integer scalar.
    Int(i128),
    /// A floating-point scalar, held as its raw bit pattern so that scalar
    /// comparison is exact bit equality.
    Real(u64),
    /// An opaque reference identifier.
    Uid(u64),
    /// An ordered sequence of values.
    Array(Vec<Value>),
    /// A keyed mapping of (name, value) entries.
    Dict(Vec<(String, Value)>),
}

/// The ghost tree that an executable tree stands for.
pub open spec fn view_val(v: Value) -> Val
    decreases v, 1int,
{
    match v {
        Value::Text(s) => Val::Text(s@),
        Value::Bool(b) => Val::Bool(b),
        Value::Data(d) => Val::Data(d@),
        Value::Date(s, n) => Val::Date(s, n),
        Value::Int(i) => Val::Int(i),
        Value::Real(bits) => Val::Real(bits),
        Value::Uid(u) => Val::Uid(u),
        Value::Array(items) => Val::Array(view_arr(items@)),
        Value::Dict(pairs) => Val::Dict(view_dict(pairs@)),
    }
}

/// The models of a sequence's elements, in order.
pub open spec fn view_arr(items: Seq<Value>) -> Seq<Val>
    decreases items, 0int,
{
    if items.len() == 0 {
        Seq::empty()
    } else {
        seq![view_val(items[0])] + view_arr(items.drop_first())
    }
}

/// The models of a mapping's entries, in order.
pub open spec fn view_dict(pairs: Seq<(String, Value)>) -> Seq<(Seq<char>, Val)>
    decreases pairs, 0int,
{
    if pairs.len() == 0 {
        Seq::empty()
    } else {
        seq![(pairs[0].0@, view_val(pairs[0].1))] + view_dict(pairs.drop_first())
    }
}

/// [`view_arr`] is the pointwise model of the elements.
pub proof fn lemma_view_arr(items: Seq<Value>)
    ensures
        view_arr(items).len() == items.len(),
        forall|i: int|
            0 <= i < items.len() ==> #[trigger] view_arr(items)[i] == view_val(items[i]),
    decreases items.len(),
{
    if items.len() > 0 {
        lemma_view_arr(items.drop_first());
    }
}

/// [`view_dict`] is the pointwise model of the entries.
pub proof fn lemma_view_dict(pairs: Seq<(String, Value)>)
    ensures
        view_dict(pairs).len() == pairs.len(),
        forall|i: int|
            0 <= i < pairs.len() ==> #[trigger] view_dict(pairs)[i] == (
                pairs[i].0@,
                view_val(pairs[i].1),
            ),
    decreases pairs.len(),
{
    if pairs.len() > 0 {
        lemma_view_dict(pairs.drop_first());
    }
}

impl View for Value {
    type V = Val;

    open spec fn view(&self) -> Val {
        view_val(*self)
    }
}

impl Val {
    /// A container has children; a scalar has none.
    pub open spec fn is_container(self) -> bool {
        self is Array || self is Dict
    }

    /// Well-formedness: every mapping in the tree has pairwise distinct names.
    pub open spec fn wf(self) -> bool
        decreases self,
    {
        match self {
            Val::Array(items) => forall|i: int|
                0 <= i < items.len() ==> (#[trigger] items[i]).wf(),
            Val::Dict(pairs) => {
                &&& forall|i: int, j: int|
                    0 <= i < j < pairs.len() ==> pairs[i].0 != pairs[j].0
                &&& forall|i: int| 0 <= i < pairs.len() ==> (#[trigger] pairs[i]).1.wf()
            },
            _ => true,
        }
    }

    /// The children of a container as (key, value) pairs, in the container's
    /// own order: sequence elements under their decimal index strings,
    /// mapping entries under their names.  A scalar has none.
    pub open spec fn child_pairs(self) -> Seq<(Seq<char>, Val)> {
        match self {
            Val::Array(items) => Seq::new(items.len(), |i: int| (dec_str(i as nat), items[i])),
            Val::Dict(pairs) => pairs,
            _ => Seq::empty(),
        }
    }

    /// Whether some child is addressed by key `k`.
    pub open spec fn has_child(self, k: Seq<char>) -> bool {
        exists|i: int|
            0 <= i < self.child_pairs().len() && #[trigger] self.child_pairs()[i].0 == k
    }

    /// An index of the child addressed by `k` (the only one, when the tree is
    /// well-formed).
    pub open spec fn child_idx(self, k: Seq<char>) -> int {
        choose|i: int|
            0 <= i < self.child_pairs().len() && #[trigger] self.child_pairs()[i].0 == k
    }

    /// The child addressed by key `k`.
    pub open spec fn child_of(self, k: Seq<char>) -> Val {
        self.child_pairs()[self.child_idx(k)].1
    }
}

/// In a well-formed tree the keys of a container's children are pairwise
/// distinct, so a (key, value) pair of [`Val::child_pairs`] determines the
/// child: looking its key up yields its value.
pub proof fn lemma_child_unique(v: Val, p: (Seq<char>, Val))
    requires
        v.wf(),
        v.child_pairs().contains(p),
    ensures
        v.has_child(p.0),
        v.child_of(p.0) == p.1,
{
    let ps = v.child_pairs();
    let j = choose|j: int| 0 <= j < ps.len() && ps[j] == p;
    assert(ps[j] == p);
    assert(ps[j].0 == p.0);
    assert(v.has_child(p.0));
    let i = v.child_idx(p.0);
    assert(0 <= i < ps.len() && ps[i].0 == p.0);
    if i != j {
        match v {
            Val::Array(items) => {
                assert(ps[i].0 == dec_str(i as nat));
                assert(ps[j].0 == dec_str(j as nat));
                lemma_dec_str_inj(i as nat, j as nat);
            },
            Val::Dict(pairs) => {
                if i < j {
                    assert(pairs[i].0 != pairs[j].0);
                } else {
                    assert(pairs[j].0 != pairs[i].0);
                }
            },
            _ => {},
        }
    }
}

/// Every child of a well-formed tree is well-formed.
pub proof fn lemma_child_wf(v: Val, p: (Seq<char>, Val))
    requires
        v.wf(),
        v.child_pairs().contains(p),
    ensures
        p.1.wf(),
{
    let ps = v.child_pairs();
    let j = choose|j: int| 0 <= j < ps.len() && ps[j] == p;
    assert(ps[j] == p);
    match v {
        Val::Array(items) => {
            assert(ps[j].1 == items[j]);
            assert(items[j].wf());
        },
        Val::Dict(pairs) => {
            assert(pairs[j].1.wf());
        },
        _ => {},
    }
}

/// A child is structurally below its parent, so recursion on children
/// terminates.
pub proof fn lemma_child_decreases(v: Val, p: (Seq<char>, Val))
    requires
        v.child_pairs().contains(p),
    ensures
        decreases_to!(v => p.1),
{
    let ps = v.child_pairs();
    let j = choose|j: int| 0 <= j < ps.len() && ps[j] == p;
    assert(ps[j] == p);
    match v {
        Val::Array(items) => {
            assert(ps[j].1 == items[j]);
            assert(decreases_to!(v => v->Array_0));
            assert(decreases_to!(v->Array_0 => v->Array_0[j]));
        },
        Val::Dict(pairs) => {
            assert(decreases_to!(v => v->Dict_0));
            assert(decreases_to!(v->Dict_0 => v->Dict_0[j]));
            assert(decreases_to!(v->Dict_0[j] => v->Dict_0[j].1));
        },
        _ => {},
    }
}

fn bytes_equal(a: &Vec<u8>, b: &Vec<u8>) -> (r: bool)
    ensures
        r == (a@ == b@),
{
    if a.len() != b.len() {
        return false;
    }
    let mut i: usize = 0;
    while i < a.len()
        invariant
            a@.len() == b@.len(),
            i <= a@.len(),
            forall|j: int| 0 <= j < i ==> a@[j] == b@[j],
        decreases a@.len() - i,
    {
        if a[i] != b[i] {
            return false;
        }
        i += 1;
    }
    proof {
        assert(a@ =~= b@);
    }
    true
}

impl Value {
    /// Whether this node is a container (a sequence or a mapping).
    pub fn is_container(&self) -> (r: bool)
        ensures
            r == self@.is_container(),
    {
        match self {
            Value::Array(_) => true,
            Value::Dict(_) => true,
            _ => false,
        }
    }

    /// Structural deep equality of two trees, the equality of their models.
    pub fn deep_eq(&self, other: &Value) -> (r: bool)
        ensures
            r == (self@ == other@),
        decreases self@,
    {
        match self {
            Value::Text(x) => match other {
                Value::Text(y) => x.eq(y),
                _ => false,
            },
            Value::Bool(x) => match other {
                Value::Bool(y) => *x == *y,
                _ => false,
            },
            Value::Data(x) => match other {
                Value::Data(y) => bytes_equal(x, y),
                _ => false,
            },
            Value::Date(xs, xn) => match other {
                Value::Date(ys, yn) => *xs == *ys && *xn == *yn,
                _ => false,
            },
            Value::Int(x) => match other {
                Value::Int(y) => *x == *y,
                _ => false,
            },
            Value::Real(x) => match other {
                Value::Real(y) => *x == *y,
                _ => false,
            },
            Value::Uid(x) => match other {
                Value::Uid(y) => *x == *y,
                _ => false,
            },
            Value::Array(xs) => match other {
                Value::Array(ys) => {
                    let ghost sx = view_arr(xs@);
                    let ghost sy = view_arr(ys@);
                    proof {
                        lemma_view_arr(xs@);
                        lemma_view_arr(ys@);
                    }
                    if xs.len() != ys.len() {
                        return false;
                    }
                    let mut i: usize = 0;
                    while i < xs.len()
                        invariant
                            self@ == Val::Array(sx),
                            other@ == Val::Array(sy),
                            sx == view_arr(xs@),
                            sy == view_arr(ys@),
                            sx.len() == xs@.len(),
                            sy.len() == ys@.len(),
                            sx.len() == sy.len(),
                            i <= sx.len(),
                            forall|j: int|
                                0 <= j < xs@.len() ==> #[trigger] sx[j] == view_val(xs@[j]),
                            forall|j: int|
                                0 <= j < ys@.len() ==> #[trigger] sy[j] == view_val(ys@[j]),
                            forall|j: int| 0 <= j < i ==> sx[j] == sy[j],
                        decreases sx.len() - i,
                    {
                        proof {
                            assert(decreases_to!(self@ => self@->Array_0));
                            assert(decreases_to!(self@->Array_0 => self@->Array_0[i as int]));
                        }
                        if !xs[i].deep_eq(&ys[i]) {
                            proof {
                                assert(sx[i as int] != sy[i as int]);
                            }
                            return false;
                        }
                        i += 1;
                    }
                    proof {
                        assert(sx =~= sy);
                    }
                    true
                },
                _ => false,
            },
            Value::Dict(xs) => match other {
                Value::Dict(ys) => {
                    let ghost sx = view_dict(xs@);
                    let ghost sy = view_dict(ys@);
                    proof {
                        lemma_view_dict(xs@);
                        lemma_view_dict(ys@);
                    }
                    if xs.len() != ys.len() {
                        return false;
                    }
                    let mut i: usize = 0;
                    while i < xs.len()
                        invariant
                            self@ == Val::Dict(sx),
                            other@ == Val::Dict(sy),
                            sx == view_dict(xs@),
                            sy == view_dict(ys@),
                            sx.len() == xs@.len(),
                            sy.len() == ys@.len(),
                            sx.len() == sy.len(),
                            i <= sx.len(),
                            forall|j: int|
                                0 <= j < xs@.len() ==> #[trigger] sx[j] == (
                                    xs@[j].0@,
                                    view_val(xs@[j].1),
                                ),
                            forall|j: int|
                                0 <= j < ys@.len() ==> #[trigger] sy[j] == (
                                    ys@[j].0@,
                                    view_val(ys@[j].1),
                                ),
                            forall|j: int| 0 <= j < i ==> sx[j] == sy[j],
                        decreases sx.len() - i,
                    {
                        proof {
                            assert(decreases_to!(self@ => self@->Dict_0));
                            assert(decreases_to!(self@->Dict_0 => self@->Dict_0[i as int]));
                            assert(decreases_to!(self@->Dict_0[i as int] => self@->Dict_0[
                                i as int
                            ].1));
                        }
                        let keys_eq = xs[i].0.eq(&ys[i].0);
                        if !keys_eq {
                            proof {
                                assert(sx[i as int] != sy[i as int]);
                            }
                            return false;
                        }
                        if !xs[i].1.deep_eq(&ys[i].1) {
                            proof {
                                assert(sx[i as int] != sy[i as int]);
                            }
                            return false;
                        }
                        i += 1;
                    }
                    proof {
                        assert(sx =~= sy);
                    }
                    true
                },
                _ => false,
            },
        }
    }

    /// Decides well-formedness: whether every mapping in the tree has
    /// pairwise distinct names.
    pub fn is_wf(&self) -> (r: bool)
        ensures
            r == self@.wf(),
        decreases self@,
    {
        match self {
            Value::Array(items) => {
                let ghost sv = view_arr(items@);
                proof {
                    lemma_view_arr(items@);
                }
                let mut i: usize = 0;
                while i < items.len()
                    invariant
                        self@ == Val::Array(sv),
                        sv == view_arr(items@),
                        sv.len() == items@.len(),
                        i <= items@.len(),
                        forall|j: int|
                            0 <= j < items@.len() ==> #[trigger] sv[j] == view_val(items@[j]),
                        forall|j: int| 0 <= j < i ==> (#[trigger] sv[j]).wf(),
                    decreases items@.len() - i,
                {
                    proof {
                        assert(decreases_to!(self@ => self@->Array_0));
                        assert(decreases_to!(self@->Array_0 => self@->Array_0[i as int]));
                    }
                    if !items[i].is_wf() {
                        return false;
                    }
                    i += 1;
                }
                true
            },
            Value::Dict(pairs) => {
                let ghost sv = view_dict(pairs@);
                proof {
                    lemma_view_dict(pairs@);
                }
                let mut i: usize = 0;
                while i < pairs.len()
                    invariant
                        self@ == Val::Dict(sv),
                        sv == view_dict(pairs@),
                        sv.len() == pairs@.len(),
                        i <= pairs@.len(),
                        forall|j: int|
                            0 <= j < pairs@.len() ==> #[trigger] sv[j] == (
                                pairs@[j].0@,
                                view_val(pairs@[j].1),
                            ),
                        forall|a: int, b: int|
                            0 <= a < b < pairs@.len() && a < i ==> sv[a].0 != sv[b].0,
                        forall|j: int| 0 <= j < i ==> (#[trigger] sv[j]).1.wf(),
                    decreases pairs@.len() - i,
                {
                    let mut j: usize = i + 1;
                    while j < pairs.len()
                        invariant
                            self@ == Val::Dict(sv),
                            sv == view_dict(pairs@),
                            sv.len() == pairs@.len(),
                            i < j,
                            i < pairs@.len(),
                            j <= pairs@.len(),
                            forall|q: int|
                                0 <= q < pairs@.len() ==> #[trigger] sv[q] == (
                                    pairs@[q].0@,
                                    view_val(pairs@[q].1),
                                ),
                            forall|b: int| i < b < j ==> sv[i as int].0 != (#[trigger] sv[b]).0,
                        decreases pairs@.len() - j,
                    {
                        if pairs[i].0.eq(&pairs[j].0) {
                            proof {
                                assert(sv[i as int].0 == sv[j as int].0);
                                if self@.wf() {
                                    assert(self@->Dict_0 == sv);
                                    assert(self@->Dict_0[i as int].0 != self@->Dict_0[j as int].0);
                                }
                            }
                            return false;
                        }
                        j += 1;
                    }
                    proof {
                        assert(decreases_to!(self@ => self@->Dict_0));
                        assert(decreases_to!(self@->Dict_0 => self@->Dict_0[i as int]));
                        assert(decreases_to!(self@->Dict_0[i as int] => self@->Dict_0[i as int].1));
                    }
                    if !pairs[i].1.is_wf() {
                        return false;
                    }
                    i += 1;
                }
                true
            },
            _ => true,
        }
    }

    /// A structural deep copy: a fresh tree with the same model.
    pub fn deep_clone(&self) -> (r: Value)
        ensures
            r@ == self@,
        decreases self@,
    {
        match self {
            Value::Text(s) => Value::Text(s.clone()),
            Value::Bool(b) => Value::Bool(*b),
            Value::Data(d) => {
                let mut out: Vec<u8> = Vec::new();
                let mut i: usize = 0;
                while i < d.len()
                    invariant
                        i <= d@.len(),
                        out@ =~= d@.take(i as int),
                    decreases d@.len() - i,
                {
                    out.push(d[i]);
                    proof {
                        assert(out@ =~= d@.take(i + 1));
                    }
                    i += 1;
                }
                proof {
                    assert(out@ =~= d@);
                }
                Value::Data(out)
            },
            Value::Date(s, n) => Value::Date(*s, *n),
            Value::Int(i) => Value::Int(*i),
            Value::Real(bits) => Value::Real(*bits),
            Value::Uid(u) => Value::Uid(*u),
            Value::Array(items) => {
                let ghost sv = view_arr(items@);
                proof {
                    lemma_view_arr(items@);
                }
                let mut out: Vec<Value> = Vec::new();
                let mut i: usize = 0;
                while i < items.len()
                    invariant
                        self@ == Val::Array(sv),
                        sv == view_arr(items@),
                        sv.len() == items@.len(),
                        i <= items@.len(),
                        out@.len() == i,
                        forall|j: int|
                            0 <= j < items@.len() ==> #[trigger] sv[j] == view_val(items@[j]),
                        forall|j: int|
                            0 <= j < i ==> view_val(#[trigger] out@[j]) == view_val(items@[j]),
                    decreases items@.len() - i,
                {
                    proof {
                        assert(decreases_to!(self@ => self@->Array_0));
                        assert(decreases_to!(self@->Array_0 => self@->Array_0[i as int]));
                    }
                    let c = items[i].deep_clone();
                    out.push(c);
                    i += 1;
                }
                let r = Value::Array(out);
                proof {
                    lemma_view_arr(out@);
                    assert(view_arr(out@) =~= view_arr(items@));
                    assert(r@ == self@);
                }
                r
            },
            Value::Dict(pairs) => {
                let ghost sv = view_dict(pairs@);
                proof {
                    lemma_view_dict(pairs@);
                }
                let mut out: Vec<(String, Value)> = Vec::new();
                let mut i: usize = 0;
                while i < pairs.len()
                    invariant
                        self@ == Val::Dict(sv),
                        sv == view_dict(pairs@),
                        sv.len() == pairs@.len(),
                        i <= pairs@.len(),
                        out@.len() == i,
                        forall|j: int|
                            0 <= j < pairs@.len() ==> #[trigger] sv[j] == (
                                pairs@[j].0@,
                                view_val(pairs@[j].1),
                            ),
                        forall|j: int|
                            0 <= j < i ==> (#[trigger] out@[j]).0@ == pairs@[j].0@ && view_val(
                                out@[j].1,
                            ) == view_val(pairs@[j].1),
                    decreases pairs@.len() - i,
                {
                    proof {
                        assert(decreases_to!(self@ => self@->Dict_0));
                        assert(decreases_to!(self@->Dict_0 => self@->Dict_0[i as int]));
                        assert(decreases_to!(self@->Dict_0[i as int] => self@->Dict_0[i as int].1));
                    }
                    let k = pairs[i].0.clone();
                    let c = pairs[i].1.deep_clone();
                    out.push((k, c));
                    i += 1;
                }
                let r = Value::Dict(out);
                proof {
                    lemma_view_dict(out@);
                    assert(view_dict(out@) =~= view_dict(pairs@));
                    assert(r@ == self@);
                }
                r
            },
        }
    }
}

} // verus!
