//! Canonical byte order on keys.
//!
//! Contributor public keys are handled as their canonical byte encodings and
//! ordered lexicographically. This module gives the order a mathematical
//! definition, proves that it is a strict total order, and provides verified
//! executable comparison and sorting.

use vstd::prelude::*;

verus! {

/// Strict lexicographic order on byte sequences: a shorter sequence precedes
/// every proper extension of itself.
pub open spec fn lex_lt(a: Seq<u8>, b: Seq<u8>) -> bool
    decreases a.len(),
{
    if b.len() == 0 {
        false
    } else if a.len() == 0 {
        true
    } else if a[0] < b[0] {
        true
    } else if a[0] > b[0] {
        false
    } else {
        lex_lt(a.skip(1), b.skip(1))
    }
}

/// The views of the elements of a vector of byte strings.
pub open spec fn views_of(s: Seq<Vec<u8>>) -> Seq<Seq<u8>> {
    Seq::new(s.len(), |i: int| s[i]@)
}

/// All elements pairwise distinct (as byte strings).
pub open spec fn distinct_keys(s: Seq<Seq<u8>>) -> bool {
    forall|i: int, j: int| 0 <= i < j < s.len() ==> s[i] != s[j]
}

/// Strictly ascending in the lexicographic order.
pub open spec fn sorted_strict(s: Seq<Seq<u8>>) -> bool {
    forall|i: int, j: int| 0 <= i < j < s.len() ==> lex_lt(s[i], s[j])
}

/// The order is irreflexive.
pub proof fn lemma_lex_lt_irrefl(a: Seq<u8>)
    ensures
        !lex_lt(a, a),
    decreases a.len(),
{
    if a.len() > 0 {
        lemma_lex_lt_irrefl(a.skip(1));
    }
}

/// Any two sequences are equal or ordered one way.
pub proof fn lemma_lex_lt_total(a: Seq<u8>, b: Seq<u8>)
    ensures
        a == b || lex_lt(a, b) || lex_lt(b, a),
    decreases a.len(),
{
    if a.len() > 0 && b.len() > 0 && a[0] == b[0] {
        lemma_lex_lt_total(a.skip(1), b.skip(1));
        if a.skip(1) == b.skip(1) {
            assert forall|i: int| 0 <= i < a.len() implies a[i] == b[i] by {
                if i > 0 {
                    assert(a.skip(1)[i - 1] == a[i]);
                    assert(b.skip(1)[i - 1] == b[i]);
                }
            }
            assert(a =~= b);
        }
    } else if a.len() == 0 && b.len() == 0 {
        assert(a =~= b);
    }
}

/// The order is transitive.
pub proof fn lemma_lex_lt_trans(a: Seq<u8>, b: Seq<u8>, c: Seq<u8>)
    requires
        lex_lt(a, b),
        lex_lt(b, c),
    ensures
        lex_lt(a, c),
    decreases a.len(),
{
    if a.len() > 0 && b.len() > 0 && c.len() > 0 && a[0] == b[0] && b[0] == c[0] {
        lemma_lex_lt_trans(a.skip(1), b.skip(1), c.skip(1));
    }
}

/// Equality test on byte strings.
pub fn bytes_eq(a: &Vec<u8>, b: &Vec<u8>) -> (r: bool)
    ensures
        r == (a@ == b@),
{
    if a.len() != b.len() {
        return false;
    }
    let mut i: usize = 0;
    while i < a.len()
        invariant
            a@.len() == b@.len(),
            i <= a@.len(),
            forall|j: int| 0 <= j < i ==> a@[j] == b@[j],
        decreases a@.len() - i,
    {
        if a[i] != b[i] {
            return false;
        }
        i += 1;
    }
    proof {
        assert(a@ =~= b@);
    }
    true
}

/// Skipping a shared first element does not change the order.
proof fn lemma_lex_lt_skip(a: Seq<u8>, b: Seq<u8>, i: int)
    requires
        0 <= i < a.len(),
        0 <= i < b.len(),
        a[i] == b[i],
    ensures
        lex_lt(a.skip(i), b.skip(i)) == lex_lt(a.skip(i + 1), b.skip(i + 1)),
{
    assert(a.skip(i).len() > 0);
    assert(b.skip(i).len() > 0);
    assert(a.skip(i)[0] == a[i]);
    assert(b.skip(i)[0] == b[i]);
    assert(a.skip(i).skip(1) =~= a.skip(i + 1));
    assert(b.skip(i).skip(1) =~= b.skip(i + 1));
}

/// Lexicographic comparison of byte strings.
pub fn bytes_lt(a: &Vec<u8>, b: &Vec<u8>) -> (r: bool)
    ensures
        r == lex_lt(a@, b@),
{
    let mut i: usize = 0;
    proof {
        assert(a@.skip(0) =~= a@);
        assert(b@.skip(0) =~= b@);
    }
    while i < a.len() && i < b.len()
        invariant
            i <= a@.len(),
            i <= b@.len(),
            lex_lt(a@, b@) == lex_lt(a@.skip(i as int), b@.skip(i as int)),
        decreases a@.len() - i,
    {
        if a[i] < b[i] {
            assert(lex_lt(a@.skip(i as int), b@.skip(i as int))) by {
                assert(a@.skip(i as int)[0] == a@[i as int]);
                assert(b@.skip(i as int)[0] == b@[i as int]);
            }
            return true;
        }
        if a[i] > b[i] {
            assert(!lex_lt(a@.skip(i as int), b@.skip(i as int))) by {
                assert(a@.skip(i as int)[0] == a@[i as int]);
                assert(b@.skip(i as int)[0] == b@[i as int]);
            }
            return false;
        }
        proof {
            lemma_lex_lt_skip(a@, b@, i as int);
        }
        i += 1;
    }
    let r = i < b.len();
    proof {
        if i < b.len() {
            assert(a@.skip(i as int).len() == 0);
            assert(b@.skip(i as int).len() > 0);
        } else {
            assert(b@.skip(i as int).len() == 0);
        }
    }
    r
}

/// Copy of a byte string.
pub fn copy_bytes(v: &Vec<u8>) -> (r: Vec<u8>)
    ensures
        r@ == v@,
{
    let mut r: Vec<u8> = Vec::new();
    let mut i: usize = 0;
    while i < v.len()
        invariant
            i <= v@.len(),
            r@ == v@.take(i as int),
        decreases v@.len() - i,
    {
        r.push(v[i]);
        proof {
            assert(r@ =~= v@.take(i + 1));
        }
        i += 1;
    }
    proof {
        assert(v@.take(v@.len() as int) =~= v@);
    }
    r
}

/// Pushing an element extends what the sequence contains by exactly that
/// element.
proof fn lemma_push_contains(s: Seq<Seq<u8>>, a: Seq<u8>, y: Seq<u8>)
    ensures
        s.push(a).contains(y) == (s.contains(y) || y == a),
{
    assert(s.push(a)[s.len() as int] == a);
    if s.contains(y) {
        let w = choose|w: int| 0 <= w < s.len() && s[w] == y;
        assert(s.push(a)[w] == y);
    }
    if s.push(a).contains(y) && y != a {
        let w = choose|w: int| 0 <= w < s.push(a).len() && s.push(a)[w] == y;
        assert(s[w] == y);
    }
}

/// Inserting an element extends what the sequence contains by exactly that
/// element.
proof fn lemma_insert_contains(s: Seq<Seq<u8>>, p: int, x: Seq<u8>, y: Seq<u8>)
    requires
        0 <= p <= s.len(),
    ensures
        s.insert(p, x).contains(y) == (s.contains(y) || y == x),
{
    let t = s.insert(p, x);
    assert(t[p] == x);
    if s.contains(y) {
        let w = choose|w: int| 0 <= w < s.len() && s[w] == y;
        if w < p {
            assert(t[w] == y);
        } else {
            assert(t[w + 1] == y);
        }
    }
    if t.contains(y) && y != x {
        let w = choose|w: int| 0 <= w < t.len() && t[w] == y;
        if w < p {
            assert(s[w] == y);
        } else {
            assert(w != p);
            assert(s[w - 1] == y);
        }
    }
}

/// Sorts a list of byte strings strictly ascending in the lexicographic
/// order, keeping each distinct byte string once: the result lists the set
/// of input keys in ascending order.
pub fn sort_keys(keys: Vec<Vec<u8>>) -> (r: Vec<Vec<u8>>)
    ensures
        sorted_strict(views_of(r@)),
        forall|y: Seq<u8>| #[trigger] views_of(r@).contains(y) == views_of(keys@).contains(y),
{
    let mut out: Vec<Vec<u8>> = Vec::new();
    let mut i: usize = 0;
    proof {
        assert(views_of(out@) =~= Seq::<Seq<u8>>::empty());
        assert(views_of(keys@).take(0) =~= Seq::<Seq<u8>>::empty());
    }
    while i < keys.len()
        invariant
            i <= keys@.len(),
            sorted_strict(views_of(out@)),
            forall|y: Seq<u8>| #[trigger] views_of(out@).contains(y) == views_of(keys@).take(
                i as int,
            ).contains(y),
        decreases keys@.len() - i,
    {
        let k = copy_bytes(&keys[i]);
        let mut p: usize = 0;
        while p < out.len() && bytes_lt(&out[p], &k)
            invariant
                p <= out@.len(),
                forall|q: int| 0 <= q < p ==> lex_lt(views_of(out@)[q], k@),
            decreases out@.len() - p,
        {
            p += 1;
        }
        assert(p == out@.len() || !lex_lt(out@[p as int]@, k@));
        let ghost before: Seq<Seq<u8>> = views_of(out@);
        let ghost kv: Seq<u8> = k@;
        let duplicate = p < out.len() && bytes_eq(&out[p], &k);
        if !duplicate {
            out.insert(p, k);
        }
        proof {
            assert(views_of(keys@).take(i + 1) =~= views_of(keys@).take(i as int).push(
                keys@[i as int]@,
            ));
            assert forall|y: Seq<u8>| #[trigger] views_of(keys@).take(i + 1).contains(y) == (
            views_of(keys@).take(i as int).contains(y) || y == kv) by {
                lemma_push_contains(views_of(keys@).take(i as int), kv, y);
            }
            if duplicate {
                // the key is already listed at the stopping position
                assert(before[p as int] == kv);
                assert(before.contains(kv));
            } else {
                let s = views_of(out@);
                assert(s =~= before.insert(p as int, kv));
                if p < before.len() {
                    // the stopping element is not below the key and differs
                    // from it, so it is strictly above
                    lemma_lex_lt_total(kv, before[p as int]);
                    assert(lex_lt(kv, before[p as int]));
                }
                assert forall|q1: int, q2: int| 0 <= q1 < q2 < s.len() implies lex_lt(
                    s[q1],
                    s[q2],
                ) by {
                    if q2 < p {
                        // both below the insertion point: ordered as before
                    } else if q2 == p {
                        assert(lex_lt(before[q1], kv));
                    } else if q1 == p {
                        assert(s[q2] == before[q2 - 1]);
                        if q2 - 1 > p {
                            lemma_lex_lt_trans(kv, before[p as int], before[q2 - 1]);
                        }
                    } else if q1 < p {
                        assert(s[q1] == before[q1]);
                        assert(s[q2] == before[q2 - 1]);
                    } else {
                        assert(s[q1] == before[q1 - 1]);
                        assert(s[q2] == before[q2 - 1]);
                    }
                }
                assert forall|y: Seq<u8>| #[trigger] s.contains(y) == (before.contains(y) || y
                    == kv) by {
                    lemma_insert_contains(before, p as int, kv, y);
                }
            }
        }
        i += 1;
    }
    proof {
        assert(views_of(keys@).take(keys@.len() as int) =~= views_of(keys@));
    }
    out
}

} // verus!
