use vstd::prelude::*;

verus! {

/// A strictly ascending pick of `length` indices below `n`.
pub open spec fn is_pick(c: Seq<usize>, n: int, length: int) -> bool {
    &&& c.len() == length
    &&& (forall|a: int, b: int| 0 <= a < b < c.len() ==> c[a] < c[b])
    &&& (forall|a: int| 0 <= a < c.len() ==> (#[trigger] c[a]) < n)
}

/// `a` comes strictly before `b` in lexicographic order.
pub open spec fn lex_lt(a: Seq<usize>, b: Seq<usize>) -> bool {
    exists|i: int|
        0 <= i < a.len() && i < b.len() && a[i] < b[i] && (forall|j: int|
            0 <= j < i ==> a[j] == b[j])
}

/// The first position where two equally long lists differ, from `k` on.
spec fn first_diff(a: Seq<usize>, b: Seq<usize>, k: int) -> int
    decreases a.len() - k,
{
    if k < 0 || k >= a.len() {
        a.len() as int
    } else if a[k] != b[k] {
        k
    } else {
        first_diff(a, b, k + 1)
    }
}

proof fn lemma_first_diff(a: Seq<usize>, b: Seq<usize>, k: int)
    requires
        0 <= k <= a.len(),
        a.len() == b.len(),
    ensures
        ({
            let i = first_diff(a, b, k);
            &&& k <= i <= a.len()
            &&& (forall|j: int| k <= j < i ==> a[j] == b[j])
            &&& (i < a.len() ==> a[i] != b[i])
        }),
    decreases a.len() - k,
{
    if k < a.len() && a[k] == b[k] {
        lemma_first_diff(a, b, k + 1);
    }
}

/// Two equally long lists are ordered one way or the other, or equal.
proof fn lemma_lex_trichotomy(a: Seq<usize>, b: Seq<usize>)
    requires
        a.len() == b.len(),
    ensures
        lex_lt(a, b) || a =~= b || lex_lt(b, a),
{
    lemma_first_diff(a, b, 0);
    let i = first_diff(a, b, 0);
    if i < a.len() {
        if a[i] < b[i] {
            assert(lex_lt(a, b));
        } else {
            assert(forall|j: int| 0 <= j < i ==> b[j] == a[j]);
            assert(lex_lt(b, a));
        }
    }
}

proof fn lemma_lex_trans(a: Seq<usize>, b: Seq<usize>, c: Seq<usize>)
    requires
        a.len() == b.len(),
        b.len() == c.len(),
        lex_lt(a, b),
        lex_lt(b, c),
    ensures
        lex_lt(a, c),
{
    let i = choose|i: int|
        0 <= i < a.len() && i < b.len() && a[i] < b[i] && (forall|j: int|
            0 <= j < i ==> a[j] == b[j]);
    let k = choose|k: int|
        0 <= k < b.len() && k < c.len() && b[k] < c[k] && (forall|j: int|
            0 <= j < k ==> b[j] == c[j]);
    let m = if i < k {
        i
    } else {
        k
    };
    assert(a[m] < c[m]);
    assert(forall|j: int| 0 <= j < m ==> a[j] == c[j]);
    assert(lex_lt(a, c));
}

/// Strictly ascending entries grow at least as fast as their positions.
proof fn lemma_ascending_gap(c: Seq<usize>, x: int, y: int)
    requires
        forall|a: int, b: int| 0 <= a < b < c.len() ==> c[a] < c[b],
        0 <= x <= y < c.len(),
    ensures
        c[y] >= c[x] + (y - x),
    decreases y - x,
{
    if x < y {
        lemma_ascending_gap(c, x, y - 1);
    }
}

/// Every entry of a pick is bounded by its largest possible value.
proof fn lemma_pick_at_most(c: Seq<usize>, n: int, length: int, i: int)
    requires
        is_pick(c, n, length),
        0 <= i < length,
    ensures
        c[i] <= n - length + i,
{
    lemma_ascending_gap(c, i, length - 1);
}

/// No pick fits strictly between a pick and its lexicographic successor.
proof fn lemma_no_pick_between(
    v: Seq<usize>,
    s: Seq<usize>,
    c: Seq<usize>,
    n: int,
    length: int,
    pos: int,
)
    requires
        is_pick(v, n, length),
        is_pick(c, n, length),
        0 <= pos < length,
        v[pos] < n - length + pos,
        forall|a: int| pos < a < length ==> v[a] == n - length + a,
        s.len() == length,
        forall|j: int| 0 <= j < pos ==> s[j] == v[j],
        forall|a: int| pos <= a < length ==> s[a] == v[pos] + 1 + (a - pos),
        lex_lt(c, s),
    ensures
        lex_lt(c, v) || c =~= v,
{
    lemma_lex_trichotomy(c, v);
    if !(lex_lt(c, v) || c =~= v) {
        let i = choose|i: int|
            0 <= i < v.len() && i < c.len() && v[i] < c[i] && (forall|j: int|
                0 <= j < i ==> v[j] == c[j]);
        let k = choose|k: int|
            0 <= k < c.len() && k < s.len() && c[k] < s[k] && (forall|j: int|
                0 <= j < k ==> c[j] == s[j]);
        if i > pos {
            assert(v[i] == n - length + i);
            lemma_pick_at_most(c, n, length, i);
            assert(false);
        } else if i == pos {
            assert(c[pos] >= v[pos] + 1);
            if k < pos {
                assert(s[k] == v[k] && c[k] == v[k]);
                assert(false);
            } else if k == pos {
                assert(false);
            } else {
                assert(c[pos] == s[pos]);
                lemma_ascending_gap(c, pos, k);
                assert(s[k] == s[pos] + (k - pos));
                assert(false);
            }
        } else {
            if k < i {
                assert(c[k] == v[k] && s[k] == v[k]);
                assert(false);
            } else if k == i {
                assert(s[i] == v[i]);
                assert(false);
            } else {
                assert(c[i] == s[i] && s[i] == v[i]);
                assert(false);
            }
        }
    }
}

/// The value of a list read as a base-`n` number, high digit first.
spec fn lex_num(s: Seq<usize>, n: int) -> int
    decreases s.len(),
{
    if s.len() == 0 {
        0
    } else {
        lex_num(s.drop_last(), n) * n + s.last()
    }
}

spec fn pow_len(n: int, k: nat) -> int
    decreases k,
{
    if k == 0 {
        1
    } else {
        pow_len(n, (k - 1) as nat) * n
    }
}

proof fn lemma_lex_num_bound(s: Seq<usize>, n: int)
    requires
        n >= 1,
        forall|a: int| 0 <= a < s.len() ==> (#[trigger] s[a]) < n,
    ensures
        0 <= lex_num(s, n) < pow_len(n, s.len()),
    decreases s.len(),
{
    if s.len() > 0 {
        assert(forall|a: int|
            0 <= a < s.drop_last().len() ==> (#[trigger] s.drop_last()[a]) < n);
        lemma_lex_num_bound(s.drop_last(), n);
        let p = pow_len(n, (s.len() - 1) as nat);
        let m = lex_num(s.drop_last(), n);
        assert(m * n + s.last() < p * n) by (nonlinear_arith)
            requires
                0 <= m && m <= p - 1 && n >= 1 && 0 <= s.last() < n,
        ;
        assert(m * n >= 0) by (nonlinear_arith)
            requires
                m >= 0 && n >= 1,
        ;
    }
}

/// A lexicographically smaller list reads as a smaller base-`n` number.
proof fn lemma_lex_num_lt(a: Seq<usize>, b: Seq<usize>, n: int)
    requires
        a.len() == b.len(),
        n >= 1,
        forall|i: int| 0 <= i < a.len() ==> (#[trigger] a[i]) < n,
        lex_lt(a, b),
    ensures
        lex_num(a, n) < lex_num(b, n),
    decreases a.len(),
{
    let i = choose|i: int|
        0 <= i < a.len() && i < b.len() && a[i] < b[i] && (forall|j: int|
            0 <= j < i ==> a[j] == b[j]);
    if i == a.len() - 1 {
        assert(a.drop_last() =~= b.drop_last());
    } else {
        assert(a.drop_last()[i] == a[i] && b.drop_last()[i] == b[i]);
        assert(forall|j: int| 0 <= j < i ==> a.drop_last()[j] == b.drop_last()[j]);
        assert(lex_lt(a.drop_last(), b.drop_last()));
        assert(forall|j: int|
            0 <= j < a.drop_last().len() ==> (#[trigger] a.drop_last()[j]) < n);
        lemma_lex_num_lt(a.drop_last(), b.drop_last(), n);
        let ma = lex_num(a.drop_last(), n);
        let mb = lex_num(b.drop_last(), n);
        assert(ma * n + a.last() < mb * n + b.last()) by (nonlinear_arith)
            requires
                ma <= mb - 1 && n >= 1 && 0 <= a.last() < n && b.last() >= 0,
        ;
        assert(b.last() >= 0);
    }
}

/// All combinations of `length` indices drawn without repetition from
/// `0..n`, each strictly ascending, enumerated in lexicographic order:
/// every such pick appears, and none appears twice.
#[verifier::loop_isolation(false)]
#[verifier::rlimit(100)]
pub fn combinations(n: usize, length: usize) -> (results: Vec<Vec<usize>>)
    requires
        1 <= length <= n,
    ensures
        forall|i: int|
            0 <= i < results@.len() ==> (#[trigger] results@[i])@.len() == length,
        forall|i: int, a: int, b: int|
            0 <= i < results@.len() && 0 <= a < b < length ==> (#[trigger] results@[i]@[a]) < (
            #[trigger] results@[i]@[b]),
        forall|i: int, a: int|
            0 <= i < results@.len() && 0 <= a < length ==> (#[trigger] results@[i]@[a]) < n,
        forall|i: int, j: int|
            0 <= i < j < results@.len() ==> (#[trigger] results@[i])@ != (
            #[trigger] results@[j])@,
        forall|c: Seq<usize>|
            #[trigger] is_pick(c, n as int, length as int) ==> (exists|i: int|
                0 <= i < results@.len() && (#[trigger] results@[i])@ == c),
{
    let mut results: Vec<Vec<usize>> = Vec::new();

    let mut values: Vec<usize> = Vec::new();
    let mut j: usize = 0;
    while j < length
        invariant
            j <= length,
            values@.len() == j,
            forall|a: int| 0 <= a < j ==> (#[trigger] values@[a]) == a,
        decreases length - j,
    {
        values.push(j);
        j += 1;
    }

    proof {
        // Nothing sits below the smallest pick.
        assert forall|c: Seq<usize>|
            is_pick(c, n as int, length as int) && #[trigger] lex_lt(c, values@) implies (
        exists|i: int| 0 <= i < results@.len() && (#[trigger] results@[i])@ == c) by {
            let w = choose|w: int|
                0 <= w < c.len() && w < values@.len() && c[w] < values@[w] && (forall|x: int|
                    0 <= x < w ==> c[x] == values@[x]);
            assert(values@[w] == w);
            lemma_ascending_gap(c, 0, w);
            assert(false);
        }
    }

    loop
        invariant
            values@.len() == length,
            forall|a: int| 0 <= a < length ==> (#[trigger] values@[a]) <= n - length + a,
            forall|a: int, b: int|
                0 <= a < b < length ==> (#[trigger] values@[a]) < (#[trigger] values@[b]),
            forall|i: int|
                0 <= i < results@.len() ==> (#[trigger] results@[i])@.len() == length,
            forall|i: int, a: int, b: int|
                0 <= i < results@.len() && 0 <= a < b < length ==> (#[trigger] results@[i]@[a])
                    < (#[trigger] results@[i]@[b]),
            forall|i: int, a: int|
                0 <= i < results@.len() && 0 <= a < length ==> (#[trigger] results@[i]@[a]) < n,
            forall|i: int|
                0 <= i < results@.len() ==> lex_lt((#[trigger] results@[i])@, values@),
            forall|i: int, j: int|
                0 <= i < j < results@.len() ==> lex_lt(
                    (#[trigger] results@[i])@,
                    (#[trigger] results@[j])@,
                ),
            forall|c: Seq<usize>|
                is_pick(c, n as int, length as int) && #[trigger] lex_lt(c, values@) ==> (
                exists|i: int| 0 <= i < results@.len() && (#[trigger] results@[i])@ == c),
        decreases pow_len(n as int, length as nat) - lex_num(values@, n as int),
    {
        let ghost v_old = values@;
        let ghost res_before = results@;
        results.push(copy_usizes(&values));
        proof {
            assert(forall|i: int| 0 <= i < res_before.len() ==> results@[i] == res_before[i]);
            assert(results@[results@.len() - 1]@ == v_old);
            assert(is_pick(v_old, n as int, length as int));
        }

        // The rightmost digit that can still rise, given that each later
        // digit must stay above it.
        let mut pos: usize = 0;
        let mut found = false;
        let mut k: usize = length;
        while k > 0
            invariant
                k <= length,
                found ==> pos < length && values@[pos as int] < n - length + pos && (forall|
                    a: int,
                |
                    pos < a < length ==> values@[a] == n - length + a),
                !found ==> forall|a: int| k <= a < length ==> values@[a] == n - length + a,
            decreases k,
        {
            k -= 1;
            if !found && values[k] < n - length + k {
                pos = k;
                found = true;
            }
        }
        if !found {
            proof {
                // The list sits at its maximum: every pick is recorded now.
                assert forall|c: Seq<usize>| #[trigger] is_pick(
                    c,
                    n as int,
                    length as int,
                ) implies (exists|i: int|
                    0 <= i < results@.len() && (#[trigger] results@[i])@ == c) by {
                    lemma_lex_trichotomy(c, v_old);
                    if lex_lt(v_old, c) {
                        let i = choose|i: int|
                            0 <= i < v_old.len() && i < c.len() && v_old[i] < c[i] && (forall|
                                j: int,
                            |
                                0 <= j < i ==> v_old[j] == c[j]);
                        assert(v_old[i] == n - length + i);
                        lemma_pick_at_most(c, n as int, length as int, i);
                        assert(false);
                    } else if c =~= v_old {
                        assert(results@[results@.len() - 1]@ == c);
                    } else {
                        assert(lex_lt(c, v_old));
                        let i = choose|i: int|
                            0 <= i < res_before.len() && (#[trigger] res_before[i])@ == c;
                        assert(results@[i]@ == c);
                    }
                }
                // Entries stand in strict order, so none repeats.
                assert forall|i: int, j: int|
                    0 <= i < j < results@.len() implies (#[trigger] results@[i])@ != (
                #[trigger] results@[j])@ by {
                    let a = results@[i]@;
                    let b = if j == results@.len() - 1 {
                        v_old
                    } else {
                        results@[j]@
                    };
                    assert(lex_lt(a, b));
                    let w = choose|w: int|
                        0 <= w < a.len() && w < b.len() && a[w] < b[w] && (forall|x: int|
                            0 <= x < w ==> a[x] == b[x]);
                    assert(a[w] != b[w]);
                }
            }
            break ;
        }

        let base = values[pos] + 1;
        let mut q: usize = pos;
        while q < length
            invariant
                pos <= q <= length,
                values@.len() == length,
                base == values@[pos as int] + 1 || q > pos,
                base == v_old[pos as int] + 1,
                forall|a: int| 0 <= a < pos ==> (#[trigger] values@[a]) == v_old[a],
                forall|a: int|
                    pos <= a < q ==> (#[trigger] values@[a]) == base + (a - pos),
                forall|a: int| 0 <= a < pos ==> (#[trigger] values@[a]) <= n - length + a,
                forall|a: int, b: int|
                    0 <= a < b < pos ==> (#[trigger] values@[a]) < (#[trigger] values@[b]),
                forall|a: int|
                    q <= a < length ==> (#[trigger] values@[a]) <= n - length + a || a == pos,
                base + (length - 1 - pos) <= n - 1,
                forall|a: int|
                    0 <= a < pos ==> (#[trigger] values@[a]) < base,
            decreases length - q,
        {
            let ghost vb = values@;
            values.set(q, base + (q - pos));
            proof {
                assert(forall|a: int| 0 <= a < length && a != q ==> values@[a] == vb[a]);
            }
            q += 1;
        }

        proof {
            // The updated list is the immediate successor of the old one.
            assert(v_old[pos as int] < n - length + pos);
            assert(forall|a: int| (pos as int) < a < length ==> v_old[a] == n - length + a);
            assert(forall|a: int|
                (pos as int) <= a < length ==> values@[a] == v_old[pos as int] + 1 + (a
                    - pos));
            assert(lex_lt(v_old, values@)) by {
                assert(v_old[pos as int] < values@[pos as int]);
                assert(forall|j: int| 0 <= j < pos ==> v_old[j] == values@[j]);
            }
            assert(forall|i: int| 0 <= i < v_old.len() ==> (#[trigger] v_old[i]) < n);
            lemma_lex_num_lt(v_old, values@, n as int);
            lemma_lex_num_bound(v_old, n as int);
            lemma_lex_num_bound(values@, n as int);
            // Everything recorded sits below the new list, in order.
            assert forall|i: int| 0 <= i < results@.len() implies lex_lt(
                (#[trigger] results@[i])@,
                values@,
            ) by {
                if i < res_before.len() {
                    assert(lex_lt(results@[i]@, v_old));
                    lemma_lex_trans(results@[i]@, v_old, values@);
                } else {
                    assert(results@[i]@ == v_old);
                }
            }
            assert forall|i: int, j: int| 0 <= i < j < results@.len() implies lex_lt(
                (#[trigger] results@[i])@,
                (#[trigger] results@[j])@,
            ) by {
                if j == results@.len() - 1 {
                    assert(results@[j]@ == v_old);
                    assert(lex_lt(results@[i]@, v_old));
                }
            }
            // Completeness below the new list: nothing fits between the
            // old list and its successor.
            assert forall|c: Seq<usize>|
                is_pick(c, n as int, length as int) && #[trigger] lex_lt(c, values@) implies (
            exists|i: int| 0 <= i < results@.len() && (#[trigger] results@[i])@ == c) by {
                lemma_no_pick_between(
                    v_old,
                    values@,
                    c,
                    n as int,
                    length as int,
                    pos as int,
                );
                if c =~= v_old {
                    assert(results@[results@.len() - 1]@ == c);
                } else {
                    assert(lex_lt(c, v_old));
                    let i = choose|i: int|
                        0 <= i < res_before.len() && (#[trigger] res_before[i])@ == c;
                    assert(results@[i]@ == c);
                }
            }
        }
    }

    results
}

/// An element-for-element copy of an index list.
pub fn copy_usizes(xs: &Vec<usize>) -> (r: Vec<usize>)
    ensures
        r@ == xs@,
{
    let mut r: Vec<usize> = Vec::new();
    let mut i: usize = 0;
    while i < xs.len()
        invariant
            i <= xs@.len(),
            r@ =~= xs@.take(i as int),
        decreases xs@.len() - i,
    {
        r.push(xs[i]);
        i += 1;
    }
    assert(r@ =~= xs@);
    r
}

/// Draw `amount` items without replacement, or all of them in shuffled
/// order when there are no more than `amount`. What comes back is always
/// drawn from the given items.
pub fn sample_all<T>(rng: &mut rand::rngs::StdRng, items: Vec<T>, amount: usize) -> (r: Vec<T>)
    ensures
        r@.len() == if amount <= items@.len() {
            amount as int
        } else {
            items@.len() as int
        },
        r@.to_multiset().subset_of(items@.to_multiset()),
{
    if amount >= items.len() {
        let mut ys = items;
        crate::random::shuffle_items(rng, &mut ys);
        ys
    } else {
        crate::random::choose_multiple(rng, items, amount)
    }
}

} // verus!
