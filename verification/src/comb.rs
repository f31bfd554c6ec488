//! Every `N`-element combination of a list's positions, in lexicographic order.

use vstd::prelude::*;
use vstd::relations::injective_on;
use vstd::set_lib::{lemma_map_size, lemma_set_disjoint_lens};

use crate::words::{lemma_choose_above, n_choose_k};

verus! {

/// A container that knows how many values it holds.
pub trait Length {
    /// The number of values, as a spec.
    spec fn spec_length(&self) -> nat;

    /// The number of values.
    fn length(&self) -> (n: usize)
        ensures
            n == self.spec_length(),
    ;
}

impl<T, const M: usize> Length for [T; M] {
    open spec fn spec_length(&self) -> nat {
        M as nat
    }

    fn length(&self) -> (n: usize) {
        M
    }
}

impl<T> Length for Vec<T> {
    open spec fn spec_length(&self) -> nat {
        self@.len()
    }

    fn length(&self) -> (n: usize) {
        self.len()
    }
}

/// Whether `s` is a combination of positions below `len`: strictly increasing,
/// every position below `len`.
pub open spec fn is_comb(s: Seq<usize>, len: nat) -> bool {
    &&& forall|i: int, j: int| 0 <= i < j < s.len() ==> s[i] < s[j]
    &&& forall|i: int| 0 <= i < s.len() ==> s[i] < len
}

/// Whether `a` comes before `b` in lexicographic order.
pub open spec fn lex_less(a: Seq<usize>, b: Seq<usize>) -> bool {
    exists|p: int|
        0 <= p < a.len() && p < b.len() && a[p] < b[p] && (forall|q: int|
            0 <= q < p ==> a[q] == b[q])
}

/// The least combination of `n` positions: `0, 1, ..., n - 1`.
pub open spec fn first_comb(n: nat) -> Seq<usize> {
    Seq::new(n, |i: int| i as usize)
}

/// The greatest combination of `n` positions below `len`: the last `n` positions.
pub open spec fn last_comb(n: nat, len: nat) -> Seq<usize> {
    Seq::new(n, |i: int| (len - n + i) as usize)
}

/// In a combination, positions `i <= q` hold values at least `q - i` apart.
pub proof fn lemma_comb_gap(c: Seq<usize>, len: nat, i: int, q: int)
    requires
        is_comb(c, len),
        0 <= i <= q < c.len(),
    ensures
        c[q] - c[i] >= q - i,
    decreases q - i,
{
    if i < q {
        lemma_comb_gap(c, len, i + 1, q);
        assert(c[i] < c[i + 1]);
    }
}

/// In a combination of `n` positions below `len`, position `p` holds at most
/// `len - n + p`.
pub proof fn lemma_comb_bound(c: Seq<usize>, len: nat, p: int)
    requires
        is_comb(c, len),
        0 <= p < c.len(),
    ensures
        c[p] <= len - c.len() + p,
{
    lemma_comb_gap(c, len, p, c.len() - 1);
}

/// The first combination comes before every other combination.
pub proof fn lemma_first_comb_least(c: Seq<usize>, len: nat)
    requires
        is_comb(c, len),
        c != first_comb(c.len()),
    ensures
        lex_less(first_comb(c.len()), c),
{
    let f = first_comb(c.len());
    if forall|k: int| 0 <= k < c.len() ==> c[k] == f[k] {
        assert(c =~= f);
    }
    let p0 = choose|k: int| 0 <= k < c.len() && c[k] != f[k];
    lemma_first_difference(c, f, p0);
    let p = choose|p: int| 0 <= p < c.len() && c[p] != f[p] && (forall|k: int| 0 <= k < p ==> c[k] == f[k]);
    lemma_comb_gap(c, len, 0, p);
    assert(f[p] < c[p]);
}

/// Below a position where two sequences differ there is a first such position.
proof fn lemma_first_difference(a: Seq<usize>, b: Seq<usize>, k: int)
    requires
        0 <= k < a.len(),
        k < b.len(),
        a[k] != b[k],
    ensures
        exists|p: int| 0 <= p < a.len() && a[p] != b[p] && (forall|q: int| 0 <= q < p ==> a[q] == b[q]),
    decreases k,
{
    if exists|q: int| 0 <= q < k && a[q] != b[q] {
        let q = choose|q: int| 0 <= q < k && a[q] != b[q];
        lemma_first_difference(a, b, q);
    }
}

/// The greatest combination has nothing after it.
pub proof fn lemma_last_comb_greatest(n: nat, len: nat)
    requires
        n <= len <= usize::MAX,
    ensures
        is_comb(last_comb(n, len), len),
        forall|d: Seq<usize>| is_comb(d, len) && d.len() == n ==> !lex_less(last_comb(n, len), d),
{
    let l = last_comb(n, len);
    assert forall|d: Seq<usize>| is_comb(d, len) && d.len() == n implies !lex_less(l, d) by {
        if lex_less(l, d) {
            let p = choose|p: int|
                0 <= p < l.len() && p < d.len() && l[p] < d[p] && (forall|q: int|
                    0 <= q < p ==> l[q] == d[q]);
            lemma_comb_bound(d, len, p);
        }
    }
}

/// `w` agrees with `o` below `i`, is one more at `i`, and climbs by one after
/// `i`, while `o` above `i` is as great as a combination allows: then `w` is the
/// combination that comes right after `o`.
proof fn lemma_successor(o: Seq<usize>, w: Seq<usize>, i: int, len: nat)
    requires
        is_comb(o, len),
        o.len() == w.len(),
        0 <= i < o.len(),
        o[i] < len - o.len() + i,
        forall|j: int| 0 <= j < i ==> w[j] == o[j],
        w[i] == o[i] + 1,
        forall|j: int| i < j < o.len() ==> w[j] == w[i] + (j - i),
        forall|j: int| i < j < o.len() ==> o[j] == len - o.len() + j,
    ensures
        is_comb(w, len),
        lex_less(o, w),
        forall|c: Seq<usize>|
            is_comb(c, len) && c.len() == o.len() && lex_less(o, c) ==> !lex_less(c, w),
{
    let n = o.len();
    assert forall|a: int, b: int| 0 <= a < b < n implies w[a] < w[b] by {
        if b <= i {
            assert(o[a] < o[b]);
        }
    }
    assert forall|a: int| 0 <= a < n implies w[a] < len by {
        if a < i {
            assert(o[a] < len);
        }
    }
    assert(lex_less(o, w)) by {
        assert(0 <= i < n && o[i] < w[i] && (forall|q: int| 0 <= q < i ==> o[q] == w[q]));
    }
    assert forall|c: Seq<usize>|
        is_comb(c, len) && c.len() == n && lex_less(o, c) implies !lex_less(c, w) by {
        if lex_less(c, w) {
            let q = choose|q: int|
                0 <= q < c.len() && q < w.len() && c[q] < w[q] && (forall|k: int| 0 <= k < q ==> c[k] == w[k]);
            let p = choose|p: int|
                0 <= p < o.len() && p < c.len() && o[p] < c[p] && (forall|k: int| 0 <= k < p ==> o[k] == c[k]);
            if q < i {
                if p < q {
                    assert(c[p] == w[p]);
                } else if p > q {
                    assert(o[q] == c[q]);
                }
            } else if q == i {
                if p < i {
                    assert(c[p] == w[p]);
                } else if p == i {
                } else {
                    assert(o[i] == c[i]);
                    lemma_comb_bound(c, len, p);
                }
            } else {
                assert(c[i] == w[i]);
                if p < i {
                    assert(c[p] == w[p]);
                }
                lemma_comb_gap(c, len, i, q);
            }
        }
    }
}

/// Whether `w` is the combination right after `o` among the combinations of
/// positions below `len`: a combination after `o` with none strictly between.
pub open spec fn next_comb(o: Seq<usize>, w: Seq<usize>, len: nat) -> bool {
    &&& is_comb(w, len)
    &&& w.len() == o.len()
    &&& lex_less(o, w)
    &&& forall|c: Seq<usize>|
        is_comb(c, len) && c.len() == o.len() && lex_less(o, c) ==> !lex_less(c, w)
}

/// Two different sequences of one length are ordered one way or the other.
pub proof fn lemma_lex_total(a: Seq<usize>, b: Seq<usize>)
    requires
        a.len() == b.len(),
        a != b,
    ensures
        lex_less(a, b) || lex_less(b, a),
{
    if forall|k: int| 0 <= k < a.len() ==> a[k] == b[k] {
        assert(a =~= b);
    }
    let k0 = choose|k: int| 0 <= k < a.len() && a[k] != b[k];
    lemma_first_difference(a, b, k0);
    let p = choose|p: int| 0 <= p < a.len() && a[p] != b[p] && (forall|q: int| 0 <= q < p ==> a[q] == b[q]);
    if a[p] < b[p] {
        assert(lex_less(a, b));
    } else {
        assert(lex_less(b, a));
    }
}

/// The lexicographic order is transitive.
pub proof fn lemma_lex_trans(a: Seq<usize>, b: Seq<usize>, c: Seq<usize>)
    requires
        a.len() == b.len(),
        b.len() == c.len(),
        lex_less(a, b),
        lex_less(b, c),
    ensures
        lex_less(a, c),
{
    let p = choose|p: int|
        0 <= p < a.len() && p < b.len() && a[p] < b[p] && (forall|q: int| 0 <= q < p ==> a[q] == b[q]);
    let q = choose|q: int|
        0 <= q < b.len() && q < c.len() && b[q] < c[q] && (forall|r: int| 0 <= r < q ==> b[r] == c[r]);
    if p <= q {
        assert(a[p] < c[p]);
        assert(forall|r: int| 0 <= r < p ==> a[r] == c[r]);
    } else {
        assert(a[q] < c[q]);
        assert(forall|r: int| 0 <= r < q ==> a[r] == c[r]);
    }
}

/// The combination right after another is unique.
pub proof fn lemma_next_comb_unique(o: Seq<usize>, w1: Seq<usize>, w2: Seq<usize>, len: nat)
    requires
        next_comb(o, w1, len),
        next_comb(o, w2, len),
    ensures
        w1 == w2,
{
    if w1 != w2 {
        lemma_lex_total(w1, w2);
    }
}

/// The last position at or below `j` that does not hold its greatest value.
pub open spec fn pivot(o: Seq<usize>, len: nat, j: int) -> int
    decreases j + 1,
{
    if j < 0 {
        -1
    } else if o[j] < len - o.len() + j {
        j
    } else {
        pivot(o, len, j - 1)
    }
}

proof fn lemma_pivot(o: Seq<usize>, len: nat, j: int)
    requires
        is_comb(o, len),
        -1 <= j < o.len(),
    ensures
        -1 <= pivot(o, len, j) <= j,
        pivot(o, len, j) >= 0 ==> o[pivot(o, len, j)] < len - o.len() + pivot(o, len, j),
        forall|k: int| pivot(o, len, j) < k <= j ==> o[k] == len - o.len() + k,
    decreases j + 1,
{
    if j >= 0 {
        lemma_comb_bound(o, len, j);
        if o[j] >= len - o.len() + j {
            lemma_pivot(o, len, j - 1);
        }
    }
}

/// Every combination but the last has a combination right after it.
pub proof fn lemma_next_comb_exists(o: Seq<usize>, len: nat)
    requires
        is_comb(o, len),
        o.len() <= len <= usize::MAX,
        o != last_comb(o.len(), len),
    ensures
        exists|w: Seq<usize>| next_comb(o, w, len),
{
    let n = o.len();
    lemma_pivot(o, len, n - 1);
    let i = pivot(o, len, n - 1);
    if i < 0 {
        assert(o =~= last_comb(n, len));
    }
    let w = Seq::new(n, |j: int| if j < i { o[j] } else { (o[i] + 1 + (j - i)) as usize });
    lemma_successor(o, w, i, len);
    assert(next_comb(o, w, len));
}

/// The combination right after `o`.
pub open spec fn comb_after(o: Seq<usize>, len: nat) -> Seq<usize> {
    choose|w: Seq<usize>| next_comb(o, w, len)
}

/// The `k`-th combination of the walk over the combinations of `n` positions
/// below `len`, from the least one, or `None` once the walk is over.
pub open spec fn walk_at(n: nat, len: nat, k: nat) -> Option<Seq<usize>>
    decreases k,
{
    if k == 0 {
        Some(first_comb(n))
    } else {
        match walk_at(n, len, (k - 1) as nat) {
            Some(o) => if o == last_comb(n, len) {
                None
            } else {
                Some(comb_after(o, len))
            },
            None => None,
        }
    }
}

/// A combination read as a number in base `base`, first position most significant.
pub open spec fn comb_number(s: Seq<usize>, base: nat) -> nat
    decreases s.len(),
{
    if s.len() == 0 {
        0
    } else {
        comb_number(s.drop_last(), base) * base + s.last() as nat
    }
}

/// Read as numbers in base `len`, combinations keep their lexicographic order.
proof fn lemma_comb_number_order(a: Seq<usize>, b: Seq<usize>, len: nat)
    requires
        a.len() == b.len(),
        forall|i: int| 0 <= i < a.len() ==> a[i] < len,
        forall|i: int| 0 <= i < b.len() ==> b[i] < len,
        lex_less(a, b),
    ensures
        comb_number(a, len) < comb_number(b, len),
    decreases a.len(),
{
    let n = a.len();
    let p = choose|p: int|
        0 <= p < a.len() && p < b.len() && a[p] < b[p] && (forall|q: int| 0 <= q < p ==> a[q] == b[q]);
    let ma = comb_number(a.drop_last(), len);
    let mb = comb_number(b.drop_last(), len);
    if p == n - 1 {
        assert(a.drop_last() =~= b.drop_last());
    } else {
        assert(lex_less(a.drop_last(), b.drop_last())) by {
            assert(a.drop_last()[p] < b.drop_last()[p]);
        }
        lemma_comb_number_order(a.drop_last(), b.drop_last(), len);
        let la = a.last() as nat;
        let lb = b.last() as nat;
        assert(ma * len + la < mb * len + lb) by (nonlinear_arith)
            requires
                ma < mb,
                la < len,
        ;
    }
}

/// Every combination of the walk is a combination, and each comes after the
/// previous one.
proof fn lemma_walk_steps(n: nat, len: nat, k: nat)
    requires
        n <= len <= usize::MAX,
        walk_at(n, len, k) is Some,
    ensures
        is_comb(walk_at(n, len, k)->0, len),
        (walk_at(n, len, k)->0).len() == n,
        k > 0 ==> walk_at(n, len, (k - 1) as nat) is Some && next_comb(
            walk_at(n, len, (k - 1) as nat)->0,
            walk_at(n, len, k)->0,
            len,
        ),
    decreases k,
{
    if k > 0 {
        let m = (k - 1) as nat;
        lemma_walk_steps(n, len, m);
        let o = walk_at(n, len, m)->0;
        lemma_next_comb_exists(o, len);
    }
}

/// Later combinations of the walk come after earlier ones.
proof fn lemma_walk_increasing(n: nat, len: nat, i: nat, j: nat)
    requires
        n <= len <= usize::MAX,
        i < j,
        walk_at(n, len, j) is Some,
    ensures
        walk_at(n, len, i) is Some,
        lex_less(walk_at(n, len, i)->0, walk_at(n, len, j)->0),
    decreases j,
{
    lemma_walk_steps(n, len, j);
    let m = (j - 1) as nat;
    if i < m {
        lemma_walk_increasing(n, len, i, m);
        lemma_walk_steps(n, len, m);
        lemma_walk_steps(n, len, i);
        lemma_lex_trans(walk_at(n, len, i)->0, walk_at(n, len, m)->0, walk_at(n, len, j)->0);
    }
}

/// From the `k`-th combination of the walk, every combination at or after it is
/// reached.
proof fn lemma_walk_reaches_from(n: nat, len: nat, k: nat, c: Seq<usize>)
    requires
        n <= len <= usize::MAX,
        walk_at(n, len, k) is Some,
        is_comb(c, len),
        c.len() == n,
        walk_at(n, len, k)->0 == c || lex_less(walk_at(n, len, k)->0, c),
    ensures
        exists|j: nat| j >= k && walk_at(n, len, j) == Some(c),
    decreases comb_number(c, len) - comb_number(walk_at(n, len, k)->0, len),
{
    let o = walk_at(n, len, k)->0;
    lemma_walk_steps(n, len, k);
    if o == c {
        assert(walk_at(n, len, k) == Some(c));
    } else {
        lemma_comb_number_order(o, c, len);
        lemma_last_comb_greatest(n, len);
        assert(o != last_comb(n, len));
        lemma_next_comb_exists(o, len);
        let w = walk_at(n, len, k + 1)->0;
        assert(next_comb(o, w, len));
        if w != c {
            lemma_lex_total(w, c);
        }
        lemma_comb_number_order(o, w, len);
        if w != c {
            assert(lex_less(w, c));
            lemma_comb_number_order(w, c, len);
        }
        lemma_walk_reaches_from(n, len, k + 1, c);
    }
}

/// The walk over the combinations of `n` positions below `len` yields only
/// combinations, each after the one before, so none twice; it yields every
/// combination; and it ends, after the last combination, for good.
pub proof fn lemma_walk_enumerates(n: nat, len: nat)
    requires
        n <= len <= usize::MAX,
    ensures
        forall|k: nat| #[trigger] walk_at(n, len, k) is Some ==> is_comb(walk_at(n, len, k)->0, len)
            && (walk_at(n, len, k)->0).len() == n,
        forall|i: nat, j: nat|
            i < j && #[trigger] walk_at(n, len, j) is Some ==> #[trigger] walk_at(n, len, i) is Some
                && lex_less(walk_at(n, len, i)->0, walk_at(n, len, j)->0),
        forall|c: Seq<usize>|
            is_comb(c, len) && c.len() == n ==> exists|k: nat| #[trigger] walk_at(n, len, k) == Some(c),
        exists|k: nat| #[trigger] walk_at(n, len, k) == Some(last_comb(n, len)) && walk_at(n, len, k + 1) is None,
{
    assert forall|k: nat| #[trigger] walk_at(n, len, k) is Some implies is_comb(walk_at(n, len, k)->0, len)
        && (walk_at(n, len, k)->0).len() == n by {
        lemma_walk_steps(n, len, k);
    }
    assert forall|i: nat, j: nat| i < j && #[trigger] walk_at(n, len, j) is Some implies #[trigger] walk_at(
        n,
        len,
        i,
    ) is Some && lex_less(walk_at(n, len, i)->0, walk_at(n, len, j)->0) by {
        lemma_walk_increasing(n, len, i, j);
    }
    assert forall|c: Seq<usize>| is_comb(c, len) && c.len() == n implies exists|k: nat|
        #[trigger] walk_at(n, len, k) == Some(c) by {
        let f = first_comb(n);
        assert(walk_at(n, len, 0) == Some(f));
        if c != f {
            lemma_first_comb_least(c, len);
        }
        lemma_walk_reaches_from(n, len, 0, c);
    }
    lemma_last_comb_greatest(n, len);
    let l = last_comb(n, len);
    assert(exists|k: nat| #[trigger] walk_at(n, len, k) == Some(l));
    let k = choose|k: nat| #[trigger] walk_at(n, len, k) == Some(l);
    assert(walk_at(n, len, k + 1) is None);
}

/// The combinations of `n` positions below `len`, built as those that stay below
/// `len - 1` together with those that end at `len - 1`.
pub open spec fn comb_set(n: nat, len: nat) -> Set<Seq<usize>>
    decreases len,
{
    if len == 0 {
        if n == 0 {
            Set::empty().insert(Seq::<usize>::empty())
        } else {
            Set::empty()
        }
    } else {
        let m = (len - 1) as nat;
        if n == 0 {
            comb_set(n, m)
        } else {
            comb_set(n, m) + comb_set((n - 1) as nat, m).map(|c: Seq<usize>| c.push(m as usize))
        }
    }
}

/// `comb_set` holds exactly the combinations of `n` positions below `len`.
proof fn lemma_comb_set_members(n: nat, len: nat, c: Seq<usize>)
    requires
        len <= usize::MAX,
    ensures
        comb_set(n, len).contains(c) <==> (c.len() == n && is_comb(c, len)),
    decreases len, n,
{
    if len == 0 {
        if c.len() == 0 {
            assert(c =~= Seq::<usize>::empty());
        }
        if c.len() > 0 && is_comb(c, len) {
            assert(c[0] < len);
        }
    } else {
        let m = (len - 1) as nat;
        let f = |d: Seq<usize>| d.push(m as usize);
        lemma_comb_set_members(n, m, c);
        if n == 0 {
        } else {
            let b = comb_set((n - 1) as nat, m);
            if c.len() == n && is_comb(c, len) {
                if c.last() < m {
                    assert(is_comb(c, m)) by {
                        assert forall|i: int| 0 <= i < c.len() implies c[i] < m by {
                            if i < c.len() - 1 {
                                assert(c[i] < c[c.len() - 1]);
                            }
                        }
                    }
                } else {
                    let d = c.drop_last();
                    assert(c.last() == m) by {
                        assert(c[c.len() - 1] < len);
                    }
                    lemma_comb_set_members((n - 1) as nat, m, d);
                    assert(is_comb(d, m)) by {
                        assert forall|i: int| 0 <= i < d.len() implies d[i] < m by {
                            assert(c[i] < c[c.len() - 1]);
                        }
                    }
                    assert(d.push(m as usize) =~= c);
                    assert(b.contains(d) && f(d) == c);
                    assert(b.map(f).contains(c));
                }
            }
            if b.map(f).contains(c) {
                let d = choose|d: Seq<usize>| b.contains(d) && f(d) == c;
                lemma_comb_set_members((n - 1) as nat, m, d);
                assert(c.len() == n);
                assert forall|i: int, j: int| 0 <= i < j < c.len() implies c[i] < c[j] by {
                    if j < c.len() - 1 {
                        assert(c[i] == d[i] && c[j] == d[j]);
                    } else {
                        assert(c[i] == d[i]);
                    }
                }
            }
        }
    }
}

/// There are `len` choose `n` combinations of `n` positions below `len`.
proof fn lemma_comb_set_size(n: nat, len: nat)
    requires
        len <= usize::MAX,
    ensures
        comb_set(n, len).finite(),
        comb_set(n, len).len() == n_choose_k(len, n),
    decreases len,
{
    if len == 0 {
        if n == 0 {
            assert(Set::empty().insert(Seq::<usize>::empty()).len() == 1);
        } else {
            lemma_choose_above(0, n);
        }
    } else {
        let m = (len - 1) as nat;
        lemma_comb_set_size(n, m);
        if n > 0 {
            let a = comb_set(n, m);
            let b = comb_set((n - 1) as nat, m);
            let f = |d: Seq<usize>| d.push(m as usize);
            lemma_comb_set_size((n - 1) as nat, m);
            assert(injective_on(f, b)) by {
                assert forall|x: Seq<usize>, y: Seq<usize>| b.contains(x) && b.contains(y) && #[trigger] f(x) == #[trigger] f(y) implies x == y by {
                    assert(x =~= f(x).drop_last());
                    assert(y =~= f(y).drop_last());
                }
            }
            lemma_map_size(b, b.map(f), f);
            assert(a.disjoint(b.map(f))) by {
                assert forall|c: Seq<usize>| a.contains(c) implies !b.map(f).contains(c) by {
                    lemma_comb_set_members(n, m, c);
                    if b.map(f).contains(c) {
                        let d = choose|d: Seq<usize>| b.contains(d) && f(d) == c;
                        assert(c[c.len() - 1] == m);
                    }
                }
            }
            lemma_set_disjoint_lens(a, b.map(f));
        }
    }
}

/// Once the walk is over it stays over.
proof fn lemma_walk_over(n: nat, len: nat, k: nat, j: nat)
    requires
        k <= j,
        walk_at(n, len, k) is None,
    ensures
        walk_at(n, len, j) is None,
    decreases j - k,
{
    if k < j {
        lemma_walk_over(n, len, k, (j - 1) as nat);
    }
}

/// The walk yields exactly `len` choose `n` combinations: it goes on through
/// step `len choose n - 1` and is over from step `len choose n`.
pub proof fn lemma_walk_count(n: nat, len: nat)
    requires
        n <= len <= usize::MAX,
    ensures
        forall|k: nat| #[trigger] walk_at(n, len, k) is Some <==> k < n_choose_k(len, n),
{
    lemma_walk_enumerates(n, len);
    let l = last_comb(n, len);
    let last_k = choose|k: nat| #[trigger] walk_at(n, len, k) == Some(l) && walk_at(n, len, k + 1) is None;
    let count = last_k + 1;
    let w = Seq::new(count, |k: int| walk_at(n, len, k as nat)->0);
    assert forall|k: nat| k < count implies #[trigger] walk_at(n, len, k) is Some by {
        if k < last_k {
            assert(walk_at(n, len, last_k) is Some);
        }
    }
    assert forall|k: nat| k >= count implies #[trigger] walk_at(n, len, k) is None by {
        lemma_walk_over(n, len, count, k);
    }
    assert(w.no_duplicates()) by {
        assert forall|i: int, j: int| 0 <= i < w.len() && 0 <= j < w.len() && i != j implies w[i] != w[j] by {
            if i < j {
                assert(walk_at(n, len, j as nat) is Some);
                assert(lex_less(walk_at(n, len, i as nat)->0, walk_at(n, len, j as nat)->0));
            } else {
                assert(walk_at(n, len, i as nat) is Some);
                assert(lex_less(walk_at(n, len, j as nat)->0, walk_at(n, len, i as nat)->0));
            }
        }
    }
    w.unique_seq_to_set();
    assert(w.to_set() =~= comb_set(n, len)) by {
        assert forall|c: Seq<usize>| w.to_set().contains(c) <==> comb_set(n, len).contains(c) by {
            lemma_comb_set_members(n, len, c);
            if w.to_set().contains(c) {
                let i = choose|i: int| 0 <= i < w.len() && w[i] == c;
                assert(walk_at(n, len, i as nat) is Some);
            }
            if comb_set(n, len).contains(c) {
                let k = choose|k: nat| #[trigger] walk_at(n, len, k) == Some(c);
                assert(k < count);
                assert(w[k as int] == c);
            }
        }
    }
    lemma_comb_set_size(n, len);
}

/// The walk over all `N`-element combinations of the positions of `values`,
/// each yielding the values at those positions.
pub struct CombIter<'a, T, const N: usize> {
    values: &'a [T],
    indices: Vec<usize>,
    done: bool,
    position: Ghost<nat>,
}

impl<'a, T, const N: usize> CombIter<'a, T, N> {
    /// The values combined.
    pub closed spec fn values_view(&self) -> Seq<T> {
        self.values@
    }

    /// The positions of the current combination.
    pub closed spec fn indices_view(&self) -> Seq<usize> {
        self.indices@
    }

    /// Whether every combination has been yielded.
    pub closed spec fn is_done(&self) -> bool {
        self.done
    }

    /// How far along the walk the iterator stands: the step of the walk that its
    /// current combination is, or, once done, the number of combinations.
    pub closed spec fn position(&self) -> nat {
        self.position@
    }

    /// The current positions form a combination of `N` of the values' positions,
    /// the one at step `position()` of the walk; once done, the iterator rests
    /// at the last combination, with `position()` the number of combinations.
    pub open spec fn wf(&self) -> bool {
        let len = self.values_view().len();
        &&& self.indices_view().len() == N
        &&& N <= len <= usize::MAX
        &&& is_comb(self.indices_view(), len)
        &&& !self.is_done() ==> walk_at(N as nat, len, self.position()) == Some(self.indices_view())
        &&& self.is_done() ==> self.indices_view() == last_comb(N as nat, len) && self.position()
            == n_choose_k(len, N as nat)
    }

    /// Moves to the next combination in lexicographic order; returns `true`,
    /// changing nothing, when the current one is the last.
    pub fn increment_indices(&mut self) -> (finished: bool)
        requires
            old(self).wf(),
        ensures
            final(self).wf(),
            final(self).values_view() == old(self).values_view(),
            final(self).is_done() == old(self).is_done(),
            finished <==> old(self).indices_view() == last_comb(
                N as nat,
                old(self).values_view().len(),
            ),
            finished ==> final(self).indices_view() == old(self).indices_view(),
            !finished ==> next_comb(
                old(self).indices_view(),
                final(self).indices_view(),
                old(self).values_view().len(),
            ),
            !finished ==> final(self).indices_view() == comb_after(
                old(self).indices_view(),
                old(self).values_view().len(),
            ),
            finished ==> final(self).position() == old(self).position(),
            !finished ==> final(self).position() == old(self).position() + 1,
    {
        let ghost o = self.indices@;
        let len = self.values.len();
        if N == 0 {
            assert(o =~= last_comb(0, len as nat));
            true
        } else if N == 1 {
            if self.indices[0] + 1 == len {
                assert(o =~= last_comb(1, len as nat));
                true
            } else {
                proof {
                    lemma_comb_bound(o, len as nat, 0);
                }
                let v = self.indices[0] + 1;
                self.indices.set(0, v);
                proof {
                    lemma_successor(o, self.indices@, 0, len as nat);
                    assert(next_comb(o, self.indices@, len as nat));
                    lemma_next_comb_unique(o, self.indices@, comb_after(o, len as nat), len as nat);
                }
                self.position = Ghost(self.position@ + 1);
                false
            }
        } else {
            let mut i: usize = N - 1;
            while self.indices[i] == i + (len - N)
                invariant
                    i < N,
                    len == self.values@.len(),
                    *self == *old(self),
                    o == self.indices@,
                    old(self).wf(),
                    forall|j: int| i < j < N ==> o[j] == j + (len - N),
                decreases i,
            {
                if i > 0 {
                    i -= 1;
                } else {
                    assert(o =~= last_comb(N as nat, len as nat));
                    return true;
                }
            }
            proof {
                lemma_comb_bound(o, len as nat, i as int);
            }
            let v = self.indices[i] + 1;
            self.indices.set(i, v);
            let mut j: usize = i + 1;
            while j < N
                invariant
                    i < j <= N,
                    len == self.values@.len(),
                    self.values == old(self).values,
                    self.done == old(self).done,
                    self.position == old(self).position,
                    self.indices@.len() == N,
                    o.len() == N,
                    o[i as int] < len - N + i,
                    forall|k: int| 0 <= k < i ==> self.indices@[k] == o[k],
                    self.indices@[i as int] == o[i as int] + 1,
                    forall|k: int| i < k < j ==> self.indices@[k] == self.indices@[i as int] + (k - i),
                decreases N - j,
            {
                let prev = self.indices[j - 1];
                self.indices.set(j, prev + 1);
                j += 1;
            }
            proof {
                lemma_successor(o, self.indices@, i as int, len as nat);
                assert(o[i as int] != last_comb(N as nat, len as nat)[i as int]);
                assert(next_comb(o, self.indices@, len as nat));
                lemma_next_comb_unique(o, self.indices@, comb_after(o, len as nat), len as nat);
            }
            self.position = Ghost(self.position@ + 1);
            false
        }
    }

    /// The values at the current combination's positions, then a move to the next
    /// combination; `None` once every combination has been yielded.
    pub fn next(&mut self) -> (item: Option<Vec<&'a T>>)
        requires
            old(self).wf(),
        ensures
            final(self).wf(),
            final(self).values_view() == old(self).values_view(),
            old(self).is_done() ==> item is None && final(self).is_done()
                && final(self).indices_view() == old(self).indices_view(),
            !old(self).is_done() ==> item is Some,
            item matches Some(v) ==> v@.len() == N && forall|j: int|
                0 <= j < N ==> *#[trigger] v@[j] == old(self).values_view()[old(self).indices_view()[j] as int],
            !old(self).is_done() ==> (final(self).is_done() <==> old(self).indices_view() == last_comb(
                N as nat,
                old(self).values_view().len(),
            )),
            !old(self).is_done() && !final(self).is_done() ==> next_comb(
                old(self).indices_view(),
                final(self).indices_view(),
                old(self).values_view().len(),
            ) && final(self).indices_view() == comb_after(
                old(self).indices_view(),
                old(self).values_view().len(),
            ),
            !old(self).is_done() && final(self).is_done() ==> final(self).indices_view()
                == old(self).indices_view(),
            old(self).is_done() ==> final(self).position() == old(self).position(),
            !old(self).is_done() ==> final(self).position() == old(self).position() + 1,
            item is Some <==> old(self).position() < n_choose_k(old(self).values_view().len(), N as nat),
            item matches Some(v) ==> forall|j: int|
                0 <= j < N ==> *#[trigger] v@[j] == old(self).values_view()[(walk_at(
                    N as nat,
                    old(self).values_view().len(),
                    old(self).position(),
                )->0)[j] as int],
    {
        proof {
            lemma_walk_count(N as nat, self.values@.len());
        }
        if self.done {
            None
        } else {
            let values: &'a [T] = self.values;
            let mut result: Vec<&'a T> = Vec::new();
            let mut j: usize = 0;
            while j < N
                invariant
                    j <= N,
                    *self == *old(self),
                    old(self).wf(),
                    values@ == self.values@,
                    result@.len() == j,
                    forall|k: int| 0 <= k < j ==> *#[trigger] result@[k] == values@[self.indices@[k] as int],
                decreases N - j,
            {
                result.push(&values[self.indices[j]]);
                j += 1;
            }
            let ghost p = self.position@;
            let finished = self.increment_indices();
            if finished {
                proof {
                    assert(walk_at(N as nat, self.values@.len(), p + 1) is None);
                }
                self.done = true;
                self.position = Ghost(p + 1);
            }
            Some(result)
        }
    }
}

/// A container whose values can be walked `N` at a time, over every combination.
pub trait IterComb<T>: Length {
    /// The values of the container, in order.
    spec fn spec_items(&self) -> Seq<T>;

    /// The walk over every `N`-element combination of the values, starting at the
    /// least one. With more positions than values there is no combination, and
    /// the walk cannot be taken a step.
    fn iter_comb<const N: usize>(&self) -> (it: CombIter<'_, T, N>)
        ensures
            N <= self.spec_length() ==> it.wf(),
            it.values_view() == self.spec_items(),
            it.indices_view() == first_comb(N as nat),
            !it.is_done(),
            it.position() == 0,
    ;
}

impl<T, const M: usize> IterComb<T> for [T; M] {
    open spec fn spec_items(&self) -> Seq<T> {
        self@
    }

    fn iter_comb<const N: usize>(&self) -> (it: CombIter<'_, T, N>) {
        start_walk(self.as_slice())
    }
}

impl<T> IterComb<T> for Vec<T> {
    open spec fn spec_items(&self) -> Seq<T> {
        self@
    }

    fn iter_comb<const N: usize>(&self) -> (it: CombIter<'_, T, N>) {
        start_walk(self.as_slice())
    }
}

/// The walk over the `N`-element combinations of `values`, at the least one.
fn start_walk<'a, T, const N: usize>(values: &'a [T]) -> (it: CombIter<'a, T, N>)
    ensures
        N <= values@.len() ==> it.wf(),
        it.values_view() == values@,
        it.indices_view() == first_comb(N as nat),
        !it.is_done(),
        it.position() == 0,
{
    let len = values.len();
    let mut indices: Vec<usize> = Vec::new();
    let mut i: usize = 0;
    while i < N
        invariant
            i <= N,
            len == values@.len(),
            indices@ == first_comb(i as nat),
        decreases N - i,
    {
        indices.push(i);
        i += 1;
        assert(indices@ =~= first_comb(i as nat));
    }
    CombIter { values, indices, done: false, position: Ghost(0) }
}

} // verus!
