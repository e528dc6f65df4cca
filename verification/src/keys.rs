//! Child keys and path labels.
//!
//! Children of a container are addressed by string keys: mapping entries by
//! their name, sequence elements by their zero-based index rendered as a
//! decimal string.  The diff engine orders keys by the lexicographic order on
//! their characters' code points, and composes hierarchical path labels by
//! joining segments with a single `.` separator.

use vstd::prelude::*;

verus! {

/// Strict lexicographic order on character sequences, by code point.
/// A proper prefix sorts before every extension of it.
pub open spec fn lex_lt(a: Seq<char>, b: Seq<char>) -> bool
    decreases a.len(),
{
    if b.len() == 0 {
        false
    } else if a.len() == 0 {
        true
    } else if (a[0] as u32) < (b[0] as u32) {
        true
    } else if a[0] != b[0] {
        false
    } else {
        lex_lt(a.drop_first(), b.drop_first())
    }
}

/// Reflexive closure of [`lex_lt`].
pub open spec fn lex_le(a: Seq<char>, b: Seq<char>) -> bool {
    lex_lt(a, b) || a == b
}

/// When two sequences agree strictly below position `i` and differ at `i`,
/// their order is decided by the characters at `i`, and they are not equal.
proof fn lemma_lex_first_diff(a: Seq<char>, b: Seq<char>, i: int)
    requires
        0 <= i < a.len(),
        i < b.len(),
        forall|j: int| 0 <= j < i ==> a[j] == b[j],
        a[i] != b[i],
    ensures
        lex_lt(a, b) <==> (a[i] as u32) < (b[i] as u32),
        a != b,
    decreases i,
{
    if i == 0 {
        if (a[0] as u32) >= (b[0] as u32) {
            assert(!lex_lt(a, b));
        }
    } else {
        assert(a[0] == b[0]);
        lemma_lex_first_diff(a.drop_first(), b.drop_first(), i - 1);
        assert(a.drop_first()[i - 1] == a[i]);
        assert(b.drop_first()[i - 1] == b[i]);
    }
}

/// A proper prefix is lexicographically smaller.
proof fn lemma_lex_prefix(a: Seq<char>, b: Seq<char>)
    requires
        a.len() < b.len(),
        forall|j: int| 0 <= j < a.len() ==> a[j] == b[j],
    ensures
        lex_lt(a, b),
    decreases a.len(),
{
    if a.len() != 0 {
        lemma_lex_prefix(a.drop_first(), b.drop_first());
    }
}

/// [`lex_lt`] is asymmetric, so a strictly larger sequence is not `lex_le`.
proof fn lemma_lex_asym(a: Seq<char>, b: Seq<char>)
    requires
        lex_lt(a, b),
    ensures
        !lex_lt(b, a),
        a != b,
    decreases a.len(),
{
    if b.len() == 0 {
    } else if a.len() == 0 {
    } else if (a[0] as u32) < (b[0] as u32) {
    } else if a[0] != b[0] {
    } else {
        lemma_lex_asym(a.drop_first(), b.drop_first());
        assert(a != b) by {
            if a == b {
                assert(a.drop_first() == b.drop_first());
            }
        }
    }
}

/// [`lex_le`] is total: any two sequences are comparable.
pub proof fn lemma_lex_le_total(a: Seq<char>, b: Seq<char>)
    ensures
        lex_le(a, b) || lex_le(b, a),
    decreases a.len(),
{
    if b.len() == 0 {
        if a.len() == 0 {
            assert(a =~= b);
        } else {
            assert(lex_lt(b, a));
        }
    } else if a.len() == 0 {
        assert(lex_lt(a, b));
    } else if a[0] == b[0] {
        lemma_lex_le_total(a.drop_first(), b.drop_first());
        if !lex_lt(a.drop_first(), b.drop_first()) && !lex_lt(b.drop_first(), a.drop_first()) {
            assert(a.drop_first() == b.drop_first());
            assert(a =~= b) by {
                assert(a.len() == b.len());
                assert(forall|i: int|
                    1 <= i < a.len() ==> a[i] == a.drop_first()[i - 1] && b[i] == b.drop_first()[i
                        - 1]);
            }
        }
    } else {
        vstd::utf8::char_u32_cast(a[0], a[0] as u32);
        vstd::utf8::char_u32_cast(b[0], b[0] as u32);
        if (a[0] as u32) < (b[0] as u32) {
            assert(lex_lt(a, b));
        } else {
            assert(lex_lt(b, a));
        }
    }
}

/// [`lex_le`] is transitive.
pub proof fn lemma_lex_le_trans(a: Seq<char>, b: Seq<char>, c: Seq<char>)
    requires
        lex_le(a, b),
        lex_le(b, c),
    ensures
        lex_le(a, c),
    decreases a.len() + b.len() + c.len(),
{
    if a == b || b == c {
    } else {
        assert(lex_lt(a, b) && lex_lt(b, c));
        if c.len() == 0 {
        } else if a.len() == 0 {
            assert(lex_lt(a, c));
        } else {
            assert(b.len() > 0);
            if a[0] == b[0] && b[0] == c[0] {
                lemma_lex_le_trans(a.drop_first(), b.drop_first(), c.drop_first());
                if a.drop_first() == c.drop_first() {
                    assert(a =~= c) by {
                        assert(a.len() == c.len());
                        assert(forall|i: int|
                            1 <= i < a.len() ==> a[i] == a.drop_first()[i - 1] && c[i]
                                == c.drop_first()[i - 1]);
                    }
                } else {
                    assert(lex_lt(a.drop_first(), c.drop_first()));
                    assert(lex_lt(a, c));
                }
            } else {
                assert((a[0] as u32) <= (b[0] as u32) && (b[0] as u32) <= (c[0] as u32));
                assert((a[0] as u32) < (c[0] as u32));
                assert(lex_lt(a, c));
            }
        }
    }
}

/// Decides [`lex_le`] on two strings.
pub fn str_le(a: &str, b: &str) -> (r: bool)
    ensures
        r == lex_le(a@, b@),
{
    let la: usize = a.unicode_len();
    let lb: usize = b.unicode_len();
    let mut i: usize = 0;
    while i < la && i < lb
        invariant
            i <= la,
            i <= lb,
            la == a@.len(),
            lb == b@.len(),
            forall|j: int| 0 <= j < i ==> a@[j] == b@[j],
        decreases la - i,
    {
        let ca = a.get_char(i);
        let cb = b.get_char(i);
        if ca != cb {
            proof {
                lemma_lex_first_diff(a@, b@, i as int);
            }
            return (ca as u32) < (cb as u32);
        }
        i += 1;
    }
    if la == lb {
        proof {
            assert(a@ =~= b@);
        }
        true
    } else if la < lb {
        proof {
            lemma_lex_prefix(a@, b@);
        }
        true
    } else {
        proof {
            lemma_lex_prefix(b@, a@);
            lemma_lex_asym(b@, a@);
        }
        false
    }
}

/// The decimal digit `d` (below ten) as a character.
pub open spec fn digit_char(d: nat) -> char {
    if d == 0 {
        '0'
    } else if d == 1 {
        '1'
    } else if d == 2 {
        '2'
    } else if d == 3 {
        '3'
    } else if d == 4 {
        '4'
    } else if d == 5 {
        '5'
    } else if d == 6 {
        '6'
    } else if d == 7 {
        '7'
    } else if d == 8 {
        '8'
    } else {
        '9'
    }
}

/// The usual decimal rendering of `n`, without leading zeros.
pub open spec fn dec_str(n: nat) -> Seq<char>
    decreases n,
{
    if n < 10 {
        seq![digit_char(n)]
    } else {
        dec_str(n / 10).push(digit_char(n % 10))
    }
}

proof fn lemma_dec_str_len(n: nat)
    ensures
        dec_str(n).len() >= 1,
        n >= 10 ==> dec_str(n).len() >= 2,
    decreases n,
{
    if n >= 10 {
        lemma_dec_str_len(n / 10);
    }
}

proof fn lemma_digit_char_inj(d1: nat, d2: nat)
    requires
        d1 < 10,
        d2 < 10,
        digit_char(d1) == digit_char(d2),
    ensures
        d1 == d2,
{
}

/// Distinct indices render to distinct decimal strings.
pub proof fn lemma_dec_str_inj(m: nat, n: nat)
    requires
        dec_str(m) == dec_str(n),
    ensures
        m == n,
    decreases m,
{
    lemma_dec_str_len(m);
    lemma_dec_str_len(n);
    if m < 10 && n < 10 {
        assert(dec_str(m)[0] == digit_char(m));
        assert(dec_str(n)[0] == digit_char(n));
        lemma_digit_char_inj(m, n);
    } else if m < 10 {
        assert(dec_str(m).len() == 1);
    } else if n < 10 {
        assert(dec_str(n).len() == 1);
    } else {
        let lm = dec_str(m).len();
        assert(dec_str(m)[lm - 1] == digit_char(m % 10));
        assert(dec_str(n)[lm - 1] == digit_char(n % 10));
        lemma_digit_char_inj(m % 10, n % 10);
        assert(dec_str(m).drop_last() =~= dec_str(m / 10));
        assert(dec_str(n).drop_last() =~= dec_str(n / 10));
        lemma_dec_str_inj(m / 10, n / 10);
    }
}

fn digit_str(d: usize) -> (s: &'static str)
    requires
        d < 10,
    ensures
        s@ == seq![digit_char(d as nat)],
{
    if d == 0 {
        proof {
            reveal_strlit("0");
            assert("0"@ =~= seq![digit_char(0)]);
        }
        "0"
    } else if d == 1 {
        proof {
            reveal_strlit("1");
            assert("1"@ =~= seq![digit_char(1)]);
        }
        "1"
    } else if d == 2 {
        proof {
            reveal_strlit("2");
            assert("2"@ =~= seq![digit_char(2)]);
        }
        "2"
    } else if d == 3 {
        proof {
            reveal_strlit("3");
            assert("3"@ =~= seq![digit_char(3)]);
        }
        "3"
    } else if d == 4 {
        proof {
            reveal_strlit("4");
            assert("4"@ =~= seq![digit_char(4)]);
        }
        "4"
    } else if d == 5 {
        proof {
            reveal_strlit("5");
            assert("5"@ =~= seq![digit_char(5)]);
        }
        "5"
    } else if d == 6 {
        proof {
            reveal_strlit("6");
            assert("6"@ =~= seq![digit_char(6)]);
        }
        "6"
    } else if d == 7 {
        proof {
            reveal_strlit("7");
            assert("7"@ =~= seq![digit_char(7)]);
        }
        "7"
    } else if d == 8 {
        proof {
            reveal_strlit("8");
            assert("8"@ =~= seq![digit_char(8)]);
        }
        "8"
    } else {
        proof {
            reveal_strlit("9");
            assert("9"@ =~= seq![digit_char(9)]);
        }
        "9"
    }
}

/// Renders a sequence index as its decimal key string.
pub fn index_string(i: usize) -> (s: String)
    ensures
        s@ == dec_str(i as nat),
    decreases i,
{
    if i < 10 {
        String::from_str(digit_str(i))
    } else {
        let mut s = index_string(i / 10);
        s.append(digit_str(i % 10));
        proof {
            assert(s@ =~= dec_str((i / 10) as nat).push(digit_char((i % 10) as nat)));
        }
        s
    }
}

/// A path label extended by one child key: the two joined by a `.` separator.
pub open spec fn join_seq(base: Seq<char>, child: Seq<char>) -> Seq<char> {
    base + seq!['.'] + child
}

/// Builds the path label for a child, [`join_seq`] of the two segments.
pub fn join_path(base: &str, child: &str) -> (r: String)
    ensures
        r@ == join_seq(base@, child@),
{
    let mut s = String::from_str(base);
    s.append(".");
    s.append(child);
    proof {
        reveal_strlit(".");
        assert(s@ =~= join_seq(base@, child@));
    }
    s
}

} // verus!
