//! Generator of per-stage impulse distributions.
//!
//! A distribution assigns one non-negative impulse magnitude to each stage.
//! The generator enumerates, for a given stage count and total-impulse
//! ceiling, every strictly increasing tuple of per-stage impulses drawn from
//! `[min_stage_impulse, total_impulse - (stage_count - 1)]` whose sum stays
//! within the ceiling.  The strictly-increasing shape is deliberate: no two
//! stages may share an impulse value, which both prunes the search space and
//! fixes which designs are reachable.

use vstd::prelude::*;

verus! {

/// The entries of `s` grow strictly from one stage to the next.
pub open spec fn strictly_increasing(s: Seq<u16>) -> bool {
    forall|i: int, j: int| 0 <= i < j < s.len() ==> s[i] < s[j]
}

/// Every entry of `s` lies in the inclusive band `[lo, hi]`.
pub open spec fn in_range(s: Seq<u16>, lo: int, hi: int) -> bool {
    forall|i: int| 0 <= i < s.len() ==> lo <= #[trigger] s[i] <= hi
}

/// The sum of all entries of `s`.
pub open spec fn seq_sum(s: Seq<u16>) -> int
    decreases s.len(),
{
    if s.len() == 0 {
        0
    } else {
        seq_sum(s.drop_last()) + s.last()
    }
}

/// The largest impulse any single stage may take: one unit of separation is
/// reserved for each stage beyond the first, so that a strictly increasing
/// tuple can still fit under the ceiling.  Negative when the ceiling cannot
/// even cover the separations, in which case no distribution exists.
pub open spec fn per_stage_ceiling(total_impulse: u16, stage_count: nat) -> int {
    total_impulse - (stage_count - 1)
}

/// `s` is an admissible impulse distribution for `stage_count` stages under
/// the given floor and ceiling: one entry per stage, strictly increasing,
/// every entry within `[min_stage_impulse, per_stage_ceiling]`, and the total
/// no more than `total_impulse`.
pub open spec fn is_distribution(
    s: Seq<u16>,
    stage_count: nat,
    min_stage_impulse: u16,
    total_impulse: u16,
) -> bool {
    &&& is_combo(
        s,
        min_stage_impulse as int,
        per_stage_ceiling(total_impulse, stage_count),
        stage_count,
    )
    &&& seq_sum(s) <= total_impulse
}

/// `s` is a strictly increasing tuple of exactly `k` values drawn from the
/// inclusive band `[lo, hi]`: a `k`-combination of that band.
pub open spec fn is_combo(s: Seq<u16>, lo: int, hi: int, k: nat) -> bool {
    &&& s.len() == k
    &&& strictly_increasing(s)
    &&& in_range(s, lo, hi)
}

/// Strict lexicographic order on impulse tuples.
pub open spec fn lex_lt(a: Seq<u16>, b: Seq<u16>) -> bool
    decreases a.len(),
{
    if a.len() == 0 {
        b.len() > 0
    } else if b.len() == 0 {
        false
    } else {
        a[0] < b[0] || (a[0] == b[0] && lex_lt(a.drop_first(), b.drop_first()))
    }
}

/// A strictly increasing tuple climbs at least one unit per step, so its
/// `i`-th entry is at least `i` above its first.
proof fn lemma_strictly_increasing_gap(s: Seq<u16>, i: int)
    requires
        strictly_increasing(s),
        0 <= i < s.len(),
    ensures
        s[0] + i <= s[i],
    decreases i,
{
    if i > 0 {
        lemma_strictly_increasing_gap(s, i - 1);
        assert(s[i - 1] < s[i]);
    }
}

/// A strictly increasing tuple confined to `[lo, hi]` has at most
/// `hi - lo + 1` entries.
proof fn lemma_combo_len_bound(s: Seq<u16>, lo: int, hi: int)
    requires
        strictly_increasing(s),
        in_range(s, lo, hi),
        s.len() > 0,
    ensures
        s.len() <= hi - lo + 1,
{
    let last = s.len() - 1;
    lemma_strictly_increasing_gap(s, last);
    assert(lo <= s[0]);
    assert(s[last] <= hi);
}

/// An element-for-element copy of `src`.
fn copy_of(src: &Vec<u16>) -> (r: Vec<u16>)
    ensures
        r@ == src@,
{
    let mut r: Vec<u16> = Vec::new();
    let mut j: usize = 0;
    proof {
        assert(r@ =~= src@.take(0));
    }
    while j < src.len()
        invariant
            j <= src@.len(),
            r@ == src@.take(j as int),
        decreases src@.len() - j,
    {
        r.push(src[j]);
        proof {
            assert(r@ =~= src@.take(j as int + 1));
        }
        j = j + 1;
    }
    proof {
        assert(src@.take(src@.len() as int) =~= src@);
    }
    r
}

/// `tail` with `head` placed in front.
fn prefixed(head: u16, tail: &Vec<u16>) -> (r: Vec<u16>)
    ensures
        r@ == seq![head] + tail@,
{
    let mut r = copy_of(tail);
    r.insert(0, head);
    proof {
        assert(r@ =~= seq![head] + tail@);
    }
    r
}

/// Lexicographic order is kept when the same head is put in front of two
/// ordered tuples.
proof fn lemma_lex_lt_same_head(h: u16, a: Seq<u16>, b: Seq<u16>)
    requires
        lex_lt(a, b),
    ensures
        lex_lt(seq![h] + a, seq![h] + b),
{
    let x = seq![h] + a;
    let y = seq![h] + b;
    assert(x.drop_first() =~= a);
    assert(y.drop_first() =~= b);
    assert(x[0] == h && y[0] == h);
}

/// Every `k`-combination of `[lo, hi]`, in lexicographic order.
///
/// The contract pins the result exactly: each entry is such a combination,
/// every such combination appears, and the entries climb strictly in
/// lexicographic order (so none repeats).
fn combos(lo: u32, hi: u32, k: usize) -> (r: Vec<Vec<u16>>)
    requires
        hi <= 0xffff,
    ensures
        forall|n: int| 0 <= n < r@.len() ==> is_combo(#[trigger] r@[n]@, lo as int, hi as int, k as nat),
        forall|s: Seq<u16>|
            is_combo(s, lo as int, hi as int, k as nat) ==> exists|n: int|
                0 <= n < r@.len() && #[trigger] r@[n]@ == s,
        forall|n: int, m: int|
            0 <= n < m < r@.len() ==> lex_lt(#[trigger] r@[n]@, #[trigger] r@[m]@),
    decreases hi + 1 - lo,
{
    let mut r: Vec<Vec<u16>> = Vec::new();
    if k == 0 {
        r.push(Vec::new());
        proof {
            assert(r@[0]@ =~= Seq::<u16>::empty());
            assert forall|s: Seq<u16>| is_combo(s, lo as int, hi as int, 0nat) implies exists|n: int|
                0 <= n < r@.len() && #[trigger] r@[n]@ == s by {
                assert(r@[0]@ =~= s);
            }
        }
        return r;
    }
    if lo > hi {
        proof {
            assert forall|s: Seq<u16>| !is_combo(s, lo as int, hi as int, k as nat) by {
                if s.len() == k as nat && in_range(s, lo as int, hi as int) {
                    assert(lo as int <= s[0] <= hi as int);
                }
            }
        }
        return r;
    }
    let first: u16 = lo as u16;
    let sub = combos(lo + 1, hi, k - 1);
    let rest = combos(lo + 1, hi, k);
    let mut i: usize = 0;
    while i < sub.len()
        invariant
            i <= sub@.len(),
            r@.len() == i,
            forall|n: int| 0 <= n < i ==> #[trigger] r@[n]@ == seq![first] + sub@[n]@,
        decreases sub@.len() - i,
    {
        let t = prefixed(first, &sub[i]);
        r.push(t);
        i = i + 1;
    }
    let ghost half = r@;
    let mut j: usize = 0;
    while j < rest.len()
        invariant
            j <= rest@.len(),
            r@.len() == half.len() + j,
            forall|n: int| 0 <= n < half.len() ==> #[trigger] r@[n] == half[n],
            forall|n: int|
                half.len() <= n < r@.len() ==> #[trigger] r@[n]@ == rest@[n - half.len()]@,
        decreases rest@.len() - j,
    {
        let t = copy_of(&rest[j]);
        r.push(t);
        j = j + 1;
    }
    proof {
        let ghost loi = lo as int;
        let ghost hii = hi as int;
        let ghost kn = k as nat;
        let ghost hl = half.len() as int;
        // Every produced entry is a combination of [lo, hi].
        assert forall|n: int| 0 <= n < r@.len() implies is_combo(
            #[trigger] r@[n]@,
            loi,
            hii,
            kn,
        ) by {
            if n < hl {
                let t = sub@[n]@;
                assert(is_combo(t, loi + 1, hii, (k - 1) as nat));
                let s = r@[n]@;
                assert(s == seq![first] + t);
                assert(s[0] == first);
                assert forall|p: int| 0 <= p < s.len() implies loi <= #[trigger] s[p] <= hii by {
                    if p > 0 {
                        assert(s[p] == t[p - 1]);
                    }
                }
                assert forall|p: int, q: int| 0 <= p < q < s.len() implies s[p] < s[q] by {
                    if p > 0 {
                        assert(t[p - 1] < t[q - 1]);
                    } else {
                        assert(loi + 1 <= t[q - 1]);
                    }
                }
            } else {
                let t = rest@[n - hl]@;
                assert(is_combo(t, loi + 1, hii, kn));
                assert(r@[n]@ == t);
            }
        }
        // Every combination of [lo, hi] is produced.
        assert forall|s: Seq<u16>| is_combo(s, loi, hii, kn) implies exists|n: int|
            0 <= n < r@.len() && #[trigger] r@[n]@ == s by {
            if s[0] == first {
                let t = s.drop_first();
                assert forall|p: int| 0 <= p < t.len() implies loi + 1 <= #[trigger] t[p]
                    <= hii by {
                    assert(t[p] == s[p + 1]);
                    assert(s[0] < s[p + 1]);
                }
                assert forall|p: int, q: int| 0 <= p < q < t.len() implies t[p] < t[q] by {
                    assert(s[p + 1] < s[q + 1]);
                }
                assert(is_combo(t, loi + 1, hii, (k - 1) as nat));
                let n = choose|n: int| 0 <= n < sub@.len() && #[trigger] sub@[n]@ == t;
                assert(r@[n]@ == seq![first] + t);
                assert(seq![first] + t =~= s);
                assert(r@[n]@ == s);
            } else {
                assert(loi <= s[0]);
                assert forall|p: int| 0 <= p < s.len() implies loi + 1 <= #[trigger] s[p]
                    <= hii by {
                    if p > 0 {
                        assert(s[0] < s[p]);
                    }
                }
                assert(is_combo(s, loi + 1, hii, kn));
                let m = choose|m: int| 0 <= m < rest@.len() && #[trigger] rest@[m]@ == s;
                assert(r@[hl + m]@ == s);
            }
        }
        // The entries climb in lexicographic order.
        assert forall|n: int, m: int| 0 <= n < m < r@.len() implies lex_lt(
            #[trigger] r@[n]@,
            #[trigger] r@[m]@,
        ) by {
            if m < hl {
                lemma_lex_lt_same_head(first, sub@[n]@, sub@[m]@);
            } else if n < hl {
                let x = r@[n]@;
                let y = r@[m]@;
                assert(x == seq![first] + sub@[n]@);
                assert(x[0] == first);
                assert(is_combo(y, loi + 1, hii, kn));
                assert(loi + 1 <= y[0]);
                assert(x[0] < y[0]);
            } else {
                assert(lex_lt(rest@[n - hl]@, rest@[m - hl]@));
            }
        }
    }
    r
}

/// The total impulse a distribution spends, summed without overflow.
pub fn sum_of(v: &Vec<u16>) -> (total: u64)
    requires
        v@.len() <= 0x10000,
    ensures
        total == seq_sum(v@),
{
    let mut total: u64 = 0;
    let mut j: usize = 0;
    while j < v.len()
        invariant
            j <= v@.len(),
            v@.len() <= 0x10000,
            total == seq_sum(v@.take(j as int)),
            total <= j * 0xffff,
        decreases v@.len() - j,
    {
        proof {
            assert(v@.take(j as int + 1).drop_last() =~= v@.take(j as int));
            assert(v@.take(j as int + 1).last() == v@[j as int]);
        }
        total = total + v[j] as u64;
        j = j + 1;
    }
    proof {
        assert(v@.take(v@.len() as int) =~= v@);
    }
    total
}

/// The finite, restartable sequence of admissible impulse distributions for
/// `number_of_stages` stages under the ceiling `total_impulse` and the
/// per-stage floor `min_stage_impulse`.
///
/// The contract pins the result exactly: every entry is an admissible
/// distribution, every admissible distribution appears, and the entries come
/// in strictly climbing lexicographic order.  When the ceiling cannot even
/// cover the reserved separations, or the floor lies above the per-stage
/// ceiling, the sequence is empty — that is not an error.
pub fn new(number_of_stages: usize, total_impulse: u16, min_stage_impulse: u16) -> (r: Vec<
    Vec<u16>,
>)
    requires
        number_of_stages >= 1,
    ensures
        forall|n: int|
            0 <= n < r@.len() ==> is_distribution(
                #[trigger] r@[n]@,
                number_of_stages as nat,
                min_stage_impulse,
                total_impulse,
            ),
        forall|s: Seq<u16>|
            is_distribution(s, number_of_stages as nat, min_stage_impulse, total_impulse)
                ==> exists|n: int| 0 <= n < r@.len() && #[trigger] r@[n]@ == s,
        forall|n: int, m: int|
            0 <= n < m < r@.len() ==> lex_lt(#[trigger] r@[n]@, #[trigger] r@[m]@),
{
    let ghost kn = number_of_stages as nat;
    let mut r: Vec<Vec<u16>> = Vec::new();
    if number_of_stages - 1 > total_impulse as usize {
        proof {
            // The ceiling is negative: no value can sit between the floor and it.
            assert forall|s: Seq<u16>| !is_distribution(
                s,
                kn,
                min_stage_impulse,
                total_impulse,
            ) by {
                if s.len() == kn && in_range(
                    s,
                    min_stage_impulse as int,
                    per_stage_ceiling(total_impulse, kn),
                ) {
                    assert(s[0] <= per_stage_ceiling(total_impulse, kn) < 0 <= s[0]);
                }
            }
        }
        return r;
    }
    let hi: u32 = total_impulse as u32 + 1 - number_of_stages as u32;
    proof {
        assert(hi as int == per_stage_ceiling(total_impulse, kn));
    }
    let c = combos(min_stage_impulse as u32, hi, number_of_stages);
    let mut i: usize = 0;
    while i < c.len()
        invariant
            i <= c@.len(),
            hi <= 0xffff,
            hi as int == per_stage_ceiling(total_impulse, kn),
            kn == number_of_stages as nat,
            kn >= 1,
            forall|n: int|
                0 <= n < c@.len() ==> is_combo(
                    #[trigger] c@[n]@,
                    min_stage_impulse as int,
                    hi as int,
                    kn,
                ),
            forall|s: Seq<u16>|
                is_combo(s, min_stage_impulse as int, hi as int, kn) ==> exists|n: int|
                    0 <= n < c@.len() && #[trigger] c@[n]@ == s,
            forall|n: int, m: int|
                0 <= n < m < c@.len() ==> lex_lt(#[trigger] c@[n]@, #[trigger] c@[m]@),
            forall|n: int|
                0 <= n < r@.len() ==> is_distribution(
                    #[trigger] r@[n]@,
                    kn,
                    min_stage_impulse,
                    total_impulse,
                ),
            forall|s: Seq<u16>|
                (is_distribution(s, kn, min_stage_impulse, total_impulse) && exists|m: int|
                    0 <= m < i && #[trigger] c@[m]@ == s) ==> exists|n: int|
                    0 <= n < r@.len() && #[trigger] r@[n]@ == s,
            forall|n: int| #![trigger r@[n]]
                0 <= n < r@.len() ==> exists|m: int| 0 <= m < i && #[trigger] c@[m]@ == r@[n]@,
            forall|n: int, m: int|
                0 <= n < m < r@.len() ==> lex_lt(#[trigger] r@[n]@, #[trigger] r@[m]@),
        decreases c@.len() - i,
    {
        let ghost r0 = r@;
        proof {
            lemma_combo_len_bound(c@[i as int]@, min_stage_impulse as int, hi as int);
        }
        let spent = sum_of(&c[i]);
        if spent <= total_impulse as u64 {
            let t = copy_of(&c[i]);
            r.push(t);
            proof {
                let last = r@.len() - 1;
                assert(r@[last]@ == c@[i as int]@);
                assert forall|n: int, m: int| 0 <= n < m < r@.len() implies lex_lt(
                    #[trigger] r@[n]@,
                    #[trigger] r@[m]@,
                ) by {
                    if m == last {
                        let p = choose|p: int| 0 <= p < i && #[trigger] c@[p]@ == r@[n]@;
                        assert(lex_lt(c@[p]@, c@[i as int]@));
                    }
                }
            }
        }
        proof {
            assert forall|s: Seq<u16>|
                (is_distribution(s, kn, min_stage_impulse, total_impulse) && exists|m: int|
                    0 <= m < i + 1 && #[trigger] c@[m]@ == s) implies exists|n: int|
                0 <= n < r@.len() && #[trigger] r@[n]@ == s by {
                let m = choose|m: int| 0 <= m < i + 1 && #[trigger] c@[m]@ == s;
                if m == i {
                    assert(seq_sum(s) == spent);
                    assert(seq_sum(s) <= total_impulse);
                    assert(r@[r@.len() - 1]@ == s);
                } else {
                    assert(exists|n: int| 0 <= n < r0.len() && #[trigger] r0[n]@ == s);
                    let n0 = choose|n: int| 0 <= n < r0.len() && #[trigger] r0[n]@ == s;
                    assert(r@[n0]@ == s);
                }
            }
        }
        i = i + 1;
    }
    proof {
        assert forall|s: Seq<u16>| is_distribution(
            s,
            kn,
            min_stage_impulse,
            total_impulse,
        ) implies exists|n: int| 0 <= n < r@.len() && #[trigger] r@[n]@ == s by {
            assert(is_combo(s, min_stage_impulse as int, hi as int, kn));
        }
    }
    r
}

} // verus!
