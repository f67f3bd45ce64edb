//! Shanten distance of a tile count vector: the minimum number of tile
//! exchanges separating the hand from a complete standard shape of four
//! melds and one pair (-1 means the hand is already complete).
//!
//! The search scans the 34 tile categories in order.  At each category it
//! may skip the remaining copies, take a triplet, take a run, or set two
//! tiles aside as a partial meld (a pair kept as a proto-meld, or a run
//! fragment with a gap of zero or one).  A pair for the final shape is
//! either reserved up front or not at all.  The executable search shares
//! one memo table per top-level call, keyed by a packed encoding of the
//! suffix of the count vector still in play.

use std::collections::HashMap;
use vstd::prelude::*;

verus! {

broadcast use vstd::std_specs::hash::group_hash_axioms;

/// All entries of a count vector are non-negative.
pub open spec fn counts_nonneg(c: Seq<int>) -> bool {
    c.len() == 34 && forall|j: int| 0 <= j < 34 ==> #[trigger] c[j] >= 0
}

/// No entry of a count vector exceeds 7, the largest digit the packed
/// memo key can carry.  Legal hands stay at or below 4 copies; the
/// recommendation engine briefly tests vectors holding a fifth copy.
pub open spec fn counts_bounded(c: Seq<int>) -> bool {
    forall|j: int| 0 <= j < 34 ==> #[trigger] c[j] <= 7
}

/// The smaller of two integers.
pub open spec fn min2(a: int, b: int) -> int {
    if a < b {
        a
    } else {
        b
    }
}

/// Distance still to cover once the scan is done: a complete hand needs
/// four melds (two exchange units each) and one pair (one unit), so an
/// empty decomposition stands 8 units away.  Partial melds count one
/// unit each but only while a block slot is free: of the five slots one
/// is held for the pair, leaving at most `4 - melds` for partial melds.
pub open spec fn block_score(melds: int, taatsu: int, has_pair: bool) -> int {
    let slots = 4 - melds;
    let eff = min2(taatsu, slots);
    if has_pair {
        8 - 2 * melds - eff - 1
    } else {
        8 - 2 * melds - eff
    }
}

/// Whether a run (three consecutive categories) may start at `i`:
/// suited categories only, never the last two of a nine-wide family.
pub open spec fn run_ok(i: int) -> bool {
    i < 27 && i % 9 <= 6
}

/// Whether an adjacent run fragment may start at `i`.
pub open spec fn adj_ok(i: int) -> bool {
    i < 27 && i % 9 <= 7
}

/// Least distance reachable by decomposing `c` from category `i`
/// onward, with `melds` complete melds and `taatsu` partial melds
/// already formed, and the pair reserved or not.  At each category with
/// copies left, the five local choices are tried and the best kept;
/// skipped copies are never reused by a later block starting here.
pub open spec fn search_min(c: Seq<int>, i: int, melds: int, taatsu: int, has_pair: bool) -> int
    decreases 34 - i, (if i < 34 { c[i] } else { 0 }),
        when 0 <= i <= 34 && counts_nonneg(c)
{
    if i >= 34 {
        block_score(melds, taatsu, has_pair)
    } else if c[i] == 0 {
        search_min(c, i + 1, melds, taatsu, has_pair)
    } else {
        let b0 = search_min(c, i + 1, melds, taatsu, has_pair);
        let b1 = if c[i] >= 3 {
            min2(b0, search_min(c.update(i, c[i] - 3), i, melds + 1, taatsu, has_pair))
        } else {
            b0
        };
        let b2 = if run_ok(i) && c[i + 1] > 0 && c[i + 2] > 0 {
            let c2 = c.update(i, c[i] - 1).update(i + 1, c[i + 1] - 1).update(i + 2, c[i + 2] - 1);
            min2(b1, search_min(c2, i, melds + 1, taatsu, has_pair))
        } else {
            b1
        };
        let b3 = if c[i] >= 2 {
            min2(b2, search_min(c.update(i, c[i] - 2), i, melds, taatsu + 1, has_pair))
        } else {
            b2
        };
        let b4 = if adj_ok(i) && c[i + 1] > 0 {
            let c2 = c.update(i, c[i] - 1).update(i + 1, c[i + 1] - 1);
            min2(b3, search_min(c2, i, melds, taatsu + 1, has_pair))
        } else {
            b3
        };
        let b5 = if run_ok(i) && c[i + 2] > 0 {
            let c2 = c.update(i, c[i] - 1).update(i + 2, c[i + 2] - 1);
            min2(b4, search_min(c2, i, melds, taatsu + 1, has_pair))
        } else {
            b4
        };
        b5
    }
}

/// Best distance over the plain search and every pair reservation at a
/// category below `i`: reserving two copies of a category with at least
/// two, then decomposing the rest.
pub open spec fn shanten_upto(c: Seq<int>, i: int) -> int
    decreases i,
{
    if i <= 0 {
        search_min(c, 0, 0, 0, false)
    } else {
        let rest = shanten_upto(c, i - 1);
        if c[i - 1] >= 2 {
            min2(rest, search_min(c.update(i - 1, c[i - 1] - 2), 0, 0, 0, true))
        } else {
            rest
        }
    }
}

/// The shanten number of a count vector: the least distance over every
/// decomposition strategy, with -1 meaning a complete standard hand.
pub open spec fn shanten_spec(c: Seq<int>) -> int {
    shanten_upto(c, 34)
}

/// The count vector of a `Vec<i32>`, as mathematical integers.
pub open spec fn int_counts(s: Seq<i32>) -> Seq<int> {
    s.map_values(|x: i32| x as int)
}

/// Executable-side well-formedness of a count vector: 34 entries, each
/// between 0 and 7.
pub open spec fn counts_wf(s: Seq<i32>) -> bool {
    s.len() == 34 && forall|j: int| 0 <= j < 34 ==> 0 <= #[trigger] s[j] <= 7
}

/// Sum of the entries of `c` from position `i` onward.
pub open spec fn total_from(c: Seq<int>, i: int) -> int
    decreases 34 - i,
{
    if i < 0 || i >= 34 {
        0
    } else {
        c[i] + total_from(c, i + 1)
    }
}

/// 8 to the power `n`.
pub open spec fn pow8(n: nat) -> int
    decreases n,
{
    if n == 0 {
        1
    } else {
        8 * pow8((n - 1) as nat)
    }
}

/// 8 to the power 34, the weight of the memo-key header above the
/// packed digits of the 34 tile counts.
pub const POW8_34: u128 = 5070602400912917605986812821504;

/// Base-8 packing of the entries of `c` from position `i` onward, least
/// significant digit first.
pub open spec fn enc_counts(c: Seq<int>, i: int) -> int
    decreases 34 - i,
{
    if i < 0 || i >= 34 {
        0
    } else {
        c[i] + 8 * enc_counts(c, i + 1)
    }
}

/// A search state the executable recursion can reach: well-formed
/// counts, a scan position within range, and block counters consistent
/// with the tiles consumed so far (three per meld, two per partial
/// meld, at most 238 tiles in all).
pub open spec fn valid_state(c: Seq<int>, i: int, melds: int, taatsu: int, has_pair: bool) -> bool {
    &&& counts_nonneg(c)
    &&& counts_bounded(c)
    &&& 0 <= i <= 34
    &&& 0 <= melds
    &&& 0 <= taatsu
    &&& 3 * melds + 2 * taatsu + total_from(c, 0) <= 238
}

/// Packed memo key of a search state: a small header (position, meld
/// count, partial-meld count, pair flag) above the base-8 digits of the
/// count suffix.  Injective over valid states, as the lemmas below show.
pub open spec fn enc_state(c: Seq<int>, i: int, melds: int, taatsu: int, has_pair: bool) -> int {
    let header = ((i * 128 + melds) * 128 + taatsu) * 2 + (if has_pair {
        1int
    } else {
        0int
    });
    header * (POW8_34 as int) + enc_counts(c, i)
}

/// A memo table is sound when every key it holds is the packed encoding
/// of some valid search state and maps to that state's search result.
pub open spec fn memo_ok(m: Map<u128, i32>) -> bool {
    forall|c: Seq<int>, i: int, melds: int, taatsu: int, p: bool|
        valid_state(c, i, melds, taatsu, p) && #[trigger] m.contains_key(
            enc_state(c, i, melds, taatsu, p) as u128,
        ) ==> m[enc_state(c, i, melds, taatsu, p) as u128] == search_min(c, i, melds, taatsu, p)
}

proof fn lemma_total_from_update(c: Seq<int>, j: int, v: int, i: int)
    requires
        c.len() == 34,
        0 <= i <= 34,
        0 <= j < 34,
    ensures
        total_from(c.update(j, v), i) == total_from(c, i) + (if i <= j {
            v - c[j]
        } else {
            0
        }),
    decreases 34 - i,
{
    if i < 34 {
        lemma_total_from_update(c, j, v, i + 1);
    }
}

proof fn lemma_total_from_bounds(c: Seq<int>, i: int)
    requires
        counts_nonneg(c),
        counts_bounded(c),
        0 <= i <= 34,
    ensures
        0 <= total_from(c, i) <= 7 * (34 - i),
    decreases 34 - i,
{
    if i < 34 {
        lemma_total_from_bounds(c, i + 1);
    }
}

proof fn lemma_pow8_pos(n: nat)
    ensures
        pow8(n) >= 1,
    decreases n,
{
    if n > 0 {
        lemma_pow8_pos((n - 1) as nat);
    }
}

proof fn lemma_pow8_mono(a: nat, b: nat)
    requires
        a <= b,
    ensures
        pow8(a) <= pow8(b),
    decreases b,
{
    lemma_pow8_pos(a);
    if a < b {
        lemma_pow8_mono(a, (b - 1) as nat);
        lemma_pow8_pos((b - 1) as nat);
    }
}

proof fn lemma_pow8_34()
    ensures
        pow8(34) == POW8_34 as int,
{
    reveal_with_fuel(pow8, 35);
}

proof fn lemma_enc_counts_bound(c: Seq<int>, i: int)
    requires
        counts_nonneg(c),
        counts_bounded(c),
        0 <= i <= 34,
    ensures
        0 <= enc_counts(c, i) < pow8((34 - i) as nat),
    decreases 34 - i,
{
    if i >= 34 {
    } else {
        lemma_enc_counts_bound(c, i + 1);
        assert(pow8((34 - i) as nat) == 8 * pow8((33 - i) as nat));
    }
}

proof fn lemma_enc_counts_inj(a: Seq<int>, b: Seq<int>, i: int)
    requires
        counts_nonneg(a),
        counts_bounded(a),
        counts_nonneg(b),
        counts_bounded(b),
        0 <= i <= 34,
        enc_counts(a, i) == enc_counts(b, i),
    ensures
        forall|j: int| i <= j < 34 ==> a[j] == b[j],
    decreases 34 - i,
{
    if i < 34 {
        assert(enc_counts(a, i) == a[i] + 8 * enc_counts(a, i + 1));
        assert(enc_counts(b, i) == b[i] + 8 * enc_counts(b, i + 1));
        lemma_enc_counts_bound(a, i + 1);
        lemma_enc_counts_bound(b, i + 1);
        assert(a[i] == b[i] && enc_counts(a, i + 1) == enc_counts(b, i + 1)) by {
            lemma_split_unique(enc_counts(a, i + 1), a[i], enc_counts(b, i + 1), b[i], 8);
        }
        lemma_enc_counts_inj(a, b, i + 1);
    }
}

proof fn lemma_split_unique(h1: int, e1: int, h2: int, e2: int, base: int)
    requires
        base >= 1,
        0 <= e1 < base,
        0 <= e2 < base,
        h1 * base + e1 == h2 * base + e2,
    ensures
        h1 == h2,
        e1 == e2,
{
    assert(h1 == h2 && e1 == e2) by (nonlinear_arith)
        requires
            base >= 1,
            0 <= e1 < base,
            0 <= e2 < base,
            h1 * base + e1 == h2 * base + e2,
    ;
}

proof fn lemma_enc_state_bound(c: Seq<int>, i: int, melds: int, taatsu: int, p: bool)
    requires
        valid_state(c, i, melds, taatsu, p),
    ensures
        0 <= enc_state(c, i, melds, taatsu, p)
            < 340282366920938463463374607431768211456int,
{
    lemma_total_from_bounds(c, 0);
    lemma_enc_counts_bound(c, i);
    lemma_pow8_mono((34 - i) as nat, 34);
    lemma_pow8_34();
}

proof fn lemma_enc_state_inj(
    c1: Seq<int>,
    i1: int,
    m1: int,
    t1: int,
    p1: bool,
    c2: Seq<int>,
    i2: int,
    m2: int,
    t2: int,
    p2: bool,
)
    requires
        valid_state(c1, i1, m1, t1, p1),
        valid_state(c2, i2, m2, t2, p2),
        enc_state(c1, i1, m1, t1, p1) == enc_state(c2, i2, m2, t2, p2),
    ensures
        i1 == i2,
        m1 == m2,
        t1 == t2,
        p1 == p2,
        forall|j: int| i1 <= j < 34 ==> c1[j] == c2[j],
{
    lemma_total_from_bounds(c1, 0);
    lemma_total_from_bounds(c2, 0);
    lemma_enc_counts_bound(c1, i1);
    lemma_enc_counts_bound(c2, i2);
    lemma_pow8_mono((34 - i1) as nat, 34);
    lemma_pow8_mono((34 - i2) as nat, 34);
    lemma_pow8_34();
    let h1 = ((i1 * 128 + m1) * 128 + t1) * 2 + (if p1 {
        1int
    } else {
        0int
    });
    let h2 = ((i2 * 128 + m2) * 128 + t2) * 2 + (if p2 {
        1int
    } else {
        0int
    });
    lemma_split_unique(h1, enc_counts(c1, i1), h2, enc_counts(c2, i2), POW8_34 as int);
    lemma_enc_counts_inj(c1, c2, i1);
}

/// Depending only on the suffix from the scan position, the search
/// result is unchanged when two count vectors agree from `i` onward.
proof fn lemma_search_min_suffix(a: Seq<int>, b: Seq<int>, i: int, melds: int, taatsu: int, p: bool)
    requires
        counts_nonneg(a),
        counts_nonneg(b),
        0 <= i <= 34,
        forall|j: int| i <= j < 34 ==> a[j] == b[j],
    ensures
        search_min(a, i, melds, taatsu, p) == search_min(b, i, melds, taatsu, p),
    decreases 34 - i, (if i < 34 { a[i] } else { 0 }),
{
    if i >= 34 {
    } else if a[i] == 0 {
        lemma_search_min_suffix(a, b, i + 1, melds, taatsu, p);
    } else {
        lemma_search_min_suffix(a, b, i + 1, melds, taatsu, p);
        if a[i] >= 3 {
            let a2 = a.update(i, a[i] - 3);
            let b2 = b.update(i, b[i] - 3);
            assert(counts_nonneg(a2) && counts_nonneg(b2));
            lemma_search_min_suffix(a2, b2, i, melds + 1, taatsu, p);
        }
        if run_ok(i) && a[i + 1] > 0 && a[i + 2] > 0 {
            let a2 = a.update(i, a[i] - 1).update(i + 1, a[i + 1] - 1).update(i + 2, a[i + 2] - 1);
            let b2 = b.update(i, b[i] - 1).update(i + 1, b[i + 1] - 1).update(i + 2, b[i + 2] - 1);
            assert(counts_nonneg(a2) && counts_nonneg(b2));
            lemma_search_min_suffix(a2, b2, i, melds + 1, taatsu, p);
        }
        if a[i] >= 2 {
            let a2 = a.update(i, a[i] - 2);
            let b2 = b.update(i, b[i] - 2);
            assert(counts_nonneg(a2) && counts_nonneg(b2));
            lemma_search_min_suffix(a2, b2, i, melds, taatsu + 1, p);
        }
        if adj_ok(i) && a[i + 1] > 0 {
            let a2 = a.update(i, a[i] - 1).update(i + 1, a[i + 1] - 1);
            let b2 = b.update(i, b[i] - 1).update(i + 1, b[i + 1] - 1);
            assert(counts_nonneg(a2) && counts_nonneg(b2));
            lemma_search_min_suffix(a2, b2, i, melds, taatsu + 1, p);
        }
        if run_ok(i) && a[i + 2] > 0 {
            let a2 = a.update(i, a[i] - 1).update(i + 2, a[i + 2] - 1);
            let b2 = b.update(i, b[i] - 1).update(i + 2, b[i + 2] - 1);
            assert(counts_nonneg(a2) && counts_nonneg(b2));
            lemma_search_min_suffix(a2, b2, i, melds, taatsu + 1, p);
        }
    }
}

/// Inserting the result of a valid state under its packed key keeps a
/// memo table sound: injectivity of the key ties every state that maps
/// to it to the same suffix, and so to the same search result.
proof fn lemma_memo_insert(
    m0: Map<u128, i32>,
    c: Seq<int>,
    i: int,
    melds: int,
    taatsu: int,
    p: bool,
    r: i32,
)
    requires
        memo_ok(m0),
        valid_state(c, i, melds, taatsu, p),
        r as int == search_min(c, i, melds, taatsu, p),
    ensures
        memo_ok(m0.insert(enc_state(c, i, melds, taatsu, p) as u128, r)),
{
    let key = enc_state(c, i, melds, taatsu, p) as u128;
    let m1 = m0.insert(key, r);
    assert forall|c2: Seq<int>, i2: int, m2: int, t2: int, p2: bool|
        valid_state(c2, i2, m2, t2, p2) && #[trigger] m1.contains_key(
            enc_state(c2, i2, m2, t2, p2) as u128,
        ) implies m1[enc_state(c2, i2, m2, t2, p2) as u128] == search_min(
        c2,
        i2,
        m2,
        t2,
        p2,
    ) by {
        let k2 = enc_state(c2, i2, m2, t2, p2) as u128;
        if k2 == key {
            lemma_enc_state_bound(c, i, melds, taatsu, p);
            lemma_enc_state_bound(c2, i2, m2, t2, p2);
            assert(enc_state(c2, i2, m2, t2, p2) == enc_state(c, i, melds, taatsu, p));
            lemma_enc_state_inj(c2, i2, m2, t2, p2, c, i, melds, taatsu, p);
            lemma_search_min_suffix(c2, c, i, melds, taatsu, p);
        } else {
            assert(m0.contains_key(k2));
        }
    }
}

/// A fresh copy of a count vector.
pub fn clone_counts(v: &Vec<i32>) -> (r: Vec<i32>)
    ensures
        r@ == v@,
{
    let mut r: Vec<i32> = Vec::new();
    let mut k: usize = 0;
    while k < v.len()
        invariant
            k <= v@.len(),
            r@ == v@.take(k as int),
        decreases v@.len() - k,
    {
        r.push(v[k]);
        proof {
            assert(v@.take(k as int).push(v@[k as int]) =~= v@.take(k as int + 1));
        }
        k = k + 1;
    }
    proof {
        assert(v@.take(v@.len() as int) =~= v@);
    }
    r
}

/// The packed memo key of the current search state.
fn encode_key(counts: &Vec<i32>, index: usize, melds: i32, taatsu: i32, has_pair: bool) -> (k: u128)
    requires
        valid_state(int_counts(counts@), index as int, melds as int, taatsu as int, has_pair),
    ensures
        k as int == enc_state(int_counts(counts@), index as int, melds as int, taatsu as int, has_pair),
{
    let ghost gc = int_counts(counts@);
    proof {
        assert(counts@.len() == 34);
        lemma_total_from_bounds(gc, 0);
        lemma_pow8_34();
    }
    let mut acc: u128 = 0;
    let mut j: usize = 34;
    while j > index
        invariant
            index <= j <= 34,
            gc == int_counts(counts@),
            valid_state(gc, index as int, melds as int, taatsu as int, has_pair),
            counts@.len() == 34,
            acc as int == enc_counts(gc, j as int),
        decreases j,
    {
        j = j - 1;
        proof {
            lemma_enc_counts_bound(gc, j as int + 1);
            lemma_pow8_mono((33 - j) as nat, 33);
            lemma_pow8_34();
            assert(pow8(34) == 8 * pow8(33));
            assert(gc[j as int] == counts@[j as int] as int);
        }
        acc = acc * 8 + (counts[j] as u128);
    }
    proof {
        lemma_enc_counts_bound(gc, index as int);
        lemma_pow8_mono((34 - index) as nat, 34);
        lemma_pow8_34();
        lemma_total_from_bounds(gc, 0);
    }
    let header: u128 = (((index as u128) * 128 + (melds as u128)) * 128 + (taatsu as u128)) * 2
        + (if has_pair {
        1
    } else {
        0
    });
    header * POW8_34 + acc
}

/// Decompose `counts` from `index` onward with the given block
/// counters, sharing `memo` across overlapping branches; returns the
/// least reachable distance.
#[verifier::rlimit(50)]
fn calculate_recursive(
    counts: &Vec<i32>,
    index: usize,
    melds: i32,
    taatsu: i32,
    has_pair: bool,
    memo: &mut HashMap<u128, i32>,
) -> (r: i32)
    requires
        valid_state(int_counts(counts@), index as int, melds as int, taatsu as int, has_pair),
        memo_ok(old(memo)@),
    ensures
        memo_ok(final(memo)@),
        r as int == search_min(
            int_counts(counts@),
            index as int,
            melds as int,
            taatsu as int,
            has_pair,
        ),
    decreases 34 - index, (if (index as int) < 34 { int_counts(counts@)[index as int] } else { 0 }),
{
    let ghost gc = int_counts(counts@);
    let ghost gm: int = melds as int;
    let ghost gt: int = taatsu as int;
    proof {
        lemma_total_from_bounds(gc, 0);
    }
    if index >= 34 {
        let slots = 4 - melds;
        let eff = if taatsu < slots {
            taatsu
        } else {
            slots
        };
        let base = 8 - 2 * melds - eff;
        return if has_pair {
            base - 1
        } else {
            base
        };
    }
    let key = encode_key(counts, index, melds, taatsu, has_pair);
    proof {
        lemma_enc_state_bound(gc, index as int, gm, gt, has_pair);
        assert(enc_state(gc, index as int, gm, gt, has_pair) as u128 == key);
    }
    let cached = memo.get(&key);
    if let Some(v) = cached {
        proof {
            assert(memo@.contains_key(enc_state(gc, index as int, gm, gt, has_pair) as u128));
        }
        return *v;
    }
    let ci = counts[index];
    proof {
        assert(gc[index as int] == counts@[index as int] as int);
    }
    let mut best = calculate_recursive(counts, index + 1, melds, taatsu, has_pair, memo);
    let ghost b0 = search_min(gc, index as int + 1, gm, gt, has_pair);
    if ci == 0 {
        proof {
            assert(best as int == search_min(gc, index as int, gm, gt, has_pair));
            lemma_memo_insert(memo@, gc, index as int, gm, gt, has_pair, best);
        }
        memo.insert(key, best);
        return best;
    }
    if ci >= 3 {
        let mut c2 = clone_counts(counts);
        c2[index] = ci - 3;
        proof {
            let g2 = int_counts(c2@);
            assert(g2 =~= gc.update(index as int, gc[index as int] - 3));
            lemma_total_from_update(gc, index as int, gc[index as int] - 3, 0);
            assert(counts_nonneg(g2) && counts_bounded(g2));
        }
        let s = calculate_recursive(&c2, index, melds + 1, taatsu, has_pair, memo);
        if s < best {
            best = s;
        }
    }
    let ghost b1 = if gc[index as int] >= 3 {
        min2(b0, search_min(gc.update(index as int, gc[index as int] - 3), index as int, gm + 1, gt, has_pair))
    } else {
        b0
    };
    proof {
        assert(best as int == b1);
    }
    if index < 27 && index % 9 <= 6 && counts[index + 1] > 0 && counts[index + 2] > 0 {
        let mut c2 = clone_counts(counts);
        c2[index] = ci - 1;
        let c1v = c2[index + 1];
        c2[index + 1] = c1v - 1;
        let c2v = c2[index + 2];
        c2[index + 2] = c2v - 1;
        proof {
            let g2 = int_counts(c2@);
            assert(gc[index as int + 1] == counts@[index as int + 1] as int);
            assert(gc[index as int + 2] == counts@[index as int + 2] as int);
            assert(g2 =~= gc.update(index as int, gc[index as int] - 1).update(
                index as int + 1,
                gc[index as int + 1] - 1,
            ).update(index as int + 2, gc[index as int + 2] - 1));
            lemma_total_from_update(gc, index as int, gc[index as int] - 1, 0);
            lemma_total_from_update(
                gc.update(index as int, gc[index as int] - 1),
                index as int + 1,
                gc[index as int + 1] - 1,
                0,
            );
            lemma_total_from_update(
                gc.update(index as int, gc[index as int] - 1).update(
                    index as int + 1,
                    gc[index as int + 1] - 1,
                ),
                index as int + 2,
                gc[index as int + 2] - 1,
                0,
            );
            assert(counts_nonneg(g2) && counts_bounded(g2));
        }
        let s = calculate_recursive(&c2, index, melds + 1, taatsu, has_pair, memo);
        if s < best {
            best = s;
        }
    }
    let ghost b2 = if run_ok(index as int) && gc[index as int + 1] > 0 && gc[index as int + 2] > 0 {
        min2(
            b1,
            search_min(
                gc.update(index as int, gc[index as int] - 1).update(
                    index as int + 1,
                    gc[index as int + 1] - 1,
                ).update(index as int + 2, gc[index as int + 2] - 1),
                index as int,
                gm + 1,
                gt,
                has_pair,
            ),
        )
    } else {
        b1
    };
    proof {
        assert(best as int == b2);
    }
    if ci >= 2 {
        let mut c2 = clone_counts(counts);
        c2[index] = ci - 2;
        proof {
            let g2 = int_counts(c2@);
            assert(g2 =~= gc.update(index as int, gc[index as int] - 2));
            lemma_total_from_update(gc, index as int, gc[index as int] - 2, 0);
            assert(counts_nonneg(g2) && counts_bounded(g2));
        }
        let s = calculate_recursive(&c2, index, melds, taatsu + 1, has_pair, memo);
        if s < best {
            best = s;
        }
    }
    let ghost b3 = if gc[index as int] >= 2 {
        min2(b2, search_min(gc.update(index as int, gc[index as int] - 2), index as int, gm, gt + 1, has_pair))
    } else {
        b2
    };
    proof {
        assert(best as int == b3);
    }
    if index < 27 && index % 9 <= 7 && counts[index + 1] > 0 {
        let mut c2 = clone_counts(counts);
        c2[index] = ci - 1;
        let c1v = c2[index + 1];
        c2[index + 1] = c1v - 1;
        proof {
            let g2 = int_counts(c2@);
            assert(gc[index as int + 1] == counts@[index as int + 1] as int);
            assert(g2 =~= gc.update(index as int, gc[index as int] - 1).update(
                index as int + 1,
                gc[index as int + 1] - 1,
            ));
            lemma_total_from_update(gc, index as int, gc[index as int] - 1, 0);
            lemma_total_from_update(
                gc.update(index as int, gc[index as int] - 1),
                index as int + 1,
                gc[index as int + 1] - 1,
                0,
            );
            assert(counts_nonneg(g2) && counts_bounded(g2));
        }
        let s = calculate_recursive(&c2, index, melds, taatsu + 1, has_pair, memo);
        if s < best {
            best = s;
        }
    }
    let ghost b4 = if adj_ok(index as int) && gc[index as int + 1] > 0 {
        min2(
            b3,
            search_min(
                gc.update(index as int, gc[index as int] - 1).update(
                    index as int + 1,
                    gc[index as int + 1] - 1,
                ),
                index as int,
                gm,
                gt + 1,
                has_pair,
            ),
        )
    } else {
        b3
    };
    proof {
        assert(best as int == b4);
    }
    if index < 27 && index % 9 <= 6 && counts[index + 2] > 0 {
        let mut c2 = clone_counts(counts);
        c2[index] = ci - 1;
        let c2v = c2[index + 2];
        c2[index + 2] = c2v - 1;
        proof {
            let g2 = int_counts(c2@);
            assert(gc[index as int + 2] == counts@[index as int + 2] as int);
            assert(g2 =~= gc.update(index as int, gc[index as int] - 1).update(
                index as int + 2,
                gc[index as int + 2] - 1,
            ));
            lemma_total_from_update(gc, index as int, gc[index as int] - 1, 0);
            lemma_total_from_update(
                gc.update(index as int, gc[index as int] - 1),
                index as int + 2,
                gc[index as int + 2] - 1,
                0,
            );
            assert(counts_nonneg(g2) && counts_bounded(g2));
        }
        let s = calculate_recursive(&c2, index, melds, taatsu + 1, has_pair, memo);
        if s < best {
            best = s;
        }
    }
    let ghost b5 = if run_ok(index as int) && gc[index as int + 2] > 0 {
        min2(
            b4,
            search_min(
                gc.update(index as int, gc[index as int] - 1).update(
                    index as int + 2,
                    gc[index as int + 2] - 1,
                ),
                index as int,
                gm,
                gt + 1,
                has_pair,
            ),
        )
    } else {
        b4
    };
    proof {
        assert(best as int == b5);
        assert(best as int == search_min(gc, index as int, gm, gt, has_pair));
        lemma_memo_insert(memo@, gc, index as int, gm, gt, has_pair, best);
    }
    memo.insert(key, best);
    best
}

/// The shanten number of `counts`: the minimum number of tile
/// exchanges separating the hand from a complete standard shape, with
/// -1 meaning the hand is already complete.  Deterministic: the result
/// is a function of the count vector alone.
pub fn calculate_shanten(counts: &Vec<i32>) -> (r: i32)
    requires
        counts_wf(counts@),
    ensures
        r as int == shanten_spec(int_counts(counts@)),
{
    let ghost gc = int_counts(counts@);
    proof {
        assert(counts_nonneg(gc) && counts_bounded(gc));
        lemma_total_from_bounds(gc, 0);
    }
    let mut memo: HashMap<u128, i32> = HashMap::new();
    proof {
        assert(memo_ok(memo@));
    }
    let mut best = calculate_recursive(counts, 0, 0, 0, false, &mut memo);
    proof {
        assert(best as int == shanten_upto(gc, 0));
    }
    let mut i: usize = 0;
    while i < 34
        invariant
            i <= 34,
            counts_wf(counts@),
            gc == int_counts(counts@),
            counts_nonneg(gc),
            counts_bounded(gc),
            total_from(gc, 0) <= 238,
            memo_ok(memo@),
            best as int == shanten_upto(gc, i as int),
        decreases 34 - i,
    {
        let ci = counts[i];
        proof {
            assert(gc[i as int] == counts@[i as int] as int);
        }
        if ci >= 2 {
            let mut c2 = clone_counts(counts);
            c2[i] = ci - 2;
            proof {
                let g2 = int_counts(c2@);
                assert(g2 =~= gc.update(i as int, gc[i as int] - 2));
                lemma_total_from_update(gc, i as int, gc[i as int] - 2, 0);
                assert(counts_nonneg(g2) && counts_bounded(g2));
            }
            let s = calculate_recursive(&c2, 0, 0, 0, true, &mut memo);
            if s < best {
                best = s;
            }
        }
        proof {
            assert(best as int == shanten_upto(gc, i as int + 1));
        }
        i = i + 1;
    }
    best
}

} // verus!
