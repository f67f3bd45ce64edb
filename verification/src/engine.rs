//! Discard recommendation engine: for every tile the hand could
//! discard, the shanten after the discard, the tiles whose draw would
//! lower it further, and how many copies of those tiles remain unseen,
//! ranked best first.

use vstd::prelude::*;
use vstd::multiset::Multiset;
use crate::hand::Hand;
use crate::hand::ParseError;
use crate::hand::parse_spec;
use crate::hand::tile_str_spec;
use crate::hand::lemma_tile_str_inj;
use crate::hand::zero_counts;
use crate::hand::zeros;
use crate::shanten::calculate_shanten;
use crate::shanten::clone_counts;
use crate::shanten::counts_wf;
use crate::shanten::int_counts;
use crate::shanten::shanten_spec;

verus! {

/// One discard candidate: the tile to discard, the shanten after the
/// discard, the accepting tiles, and their remaining copy count.
pub struct Recommendation {
    pub discard_tile: String,
    pub shanten_after: i32,
    pub ukeire: Vec<String>,
    pub ukeire_count: i32,
}

/// The shanten of the hand as given, and the ranked discard candidates.
pub struct AnalysisResult {
    pub current_shanten: i32,
    pub recommendations: Vec<Recommendation>,
}

/// The views of a sequence of strings.
pub open spec fn str_views(ss: Seq<String>) -> Seq<Seq<char>> {
    ss.map_values(|s: String| s@)
}

/// Elementwise sum of two 34-slot count vectors.
pub open spec fn seq_add(a: Seq<int>, b: Seq<int>) -> Seq<int> {
    Seq::new(34, |j: int| a[j] + b[j])
}

/// Sum of the count vectors of a list of discard strings, or the first
/// parse error among them.
pub open spec fn parse_all(ds: Seq<String>) -> Result<Seq<int>, ParseError>
    decreases ds.len(),
{
    if ds.len() == 0 {
        Ok(zero_counts())
    } else {
        match parse_all(ds.drop_last()) {
            Err(e) => Err(e),
            Ok(acc) => match parse_spec(ds.last()@) {
                Err(e) => Err(e),
                Ok(c) => Ok(seq_add(acc, c)),
            },
        }
    }
}

/// The first rejection among the hand string and the discard strings.
pub open spec fn first_error(hand: Seq<char>, ds: Seq<String>) -> Option<ParseError> {
    match parse_spec(hand) {
        Err(e) => Some(e),
        Ok(_) => match parse_all(ds) {
            Err(e) => Some(e),
            Ok(_) => None,
        },
    }
}

/// The hand after one copy of category `i` is discarded.
pub open spec fn next_counts(h: Seq<int>, i: int) -> Seq<int> {
    h.update(i, h[i] - 1)
}

/// The discarded hand after one copy of category `j` is drawn.
pub open spec fn test_counts(h: Seq<int>, i: int, j: int) -> Seq<int> {
    let n = next_counts(h, i);
    n.update(j, n[j] + 1)
}

/// Drawing `j` after discarding `i` lowers the shanten.
pub open spec fn accepts(h: Seq<int>, i: int, j: int) -> bool {
    shanten_spec(test_counts(h, i, j)) < shanten_spec(next_counts(h, i))
}

/// Copies of category `j` not already in the hand or among the seen
/// discards, never negative.
pub open spec fn remaining_of(h: Seq<int>, d: Seq<int>, j: int) -> int {
    let rem = 4 - h[j] - d[j];
    if rem > 0 {
        rem
    } else {
        0
    }
}

/// Remaining-copy total of the accepting categories below `j`, for the
/// discard of category `i`.
pub open spec fn ukeire_count_upto(h: Seq<int>, d: Seq<int>, i: int, j: int) -> int
    decreases j,
{
    if j <= 0 {
        0
    } else {
        ukeire_count_upto(h, d, i, j - 1) + (if accepts(h, i, j - 1) {
            remaining_of(h, d, j - 1)
        } else {
            0
        })
    }
}

/// Names of the accepting categories below `j`, ascending.
pub open spec fn ukeire_strs_upto(h: Seq<int>, i: int, j: int) -> Seq<Seq<char>>
    decreases j,
{
    if j <= 0 {
        Seq::empty()
    } else {
        let pre = ukeire_strs_upto(h, i, j - 1);
        if accepts(h, i, j - 1) {
            pre.push(tile_str_spec(j - 1))
        } else {
            pre
        }
    }
}

/// `r` is the full recommendation for discarding category `i` from
/// hand `h` with seen discards `d`.
pub open spec fn rec_matches(r: Recommendation, h: Seq<int>, d: Seq<int>, i: int) -> bool {
    &&& 0 <= i < 34
    &&& h[i] > 0
    &&& r.discard_tile@ == tile_str_spec(i)
    &&& r.shanten_after as int == shanten_spec(next_counts(h, i))
    &&& str_views(r.ukeire@) == ukeire_strs_upto(h, i, 34)
    &&& r.ukeire_count as int == ukeire_count_upto(h, d, i, 34)
}

/// `r` is the recommendation for discarding some category.
pub open spec fn rec_matches_some(r: Recommendation, h: Seq<int>, d: Seq<int>) -> bool {
    exists|i: int| rec_matches(r, h, d, i)
}

/// Some entry of `rs` is the recommendation for discarding category `i`.
pub open spec fn has_rec_for(rs: Seq<Recommendation>, h: Seq<int>, d: Seq<int>, i: int) -> bool {
    exists|k: int| 0 <= k < rs.len() && rec_matches(rs[k], h, d, i)
}

/// `r` is the recommendation for discarding some category below `n`.
pub open spec fn rec_matches_below(r: Recommendation, h: Seq<int>, d: Seq<int>, n: int) -> bool {
    exists|i: int| 0 <= i < n && rec_matches(r, h, d, i)
}

/// Ranking order: lower shanten first, then larger remaining count.
pub open spec fn rec_le(a: Recommendation, b: Recommendation) -> bool {
    ||| a.shanten_after < b.shanten_after
    ||| (a.shanten_after == b.shanten_after && a.ukeire_count >= b.ukeire_count)
}

/// Every earlier recommendation ranks at or before every later one.
pub open spec fn sorted_recs(rs: Seq<Recommendation>) -> bool {
    forall|k1: int, k2: int| 0 <= k1 < k2 < rs.len() ==> rec_le(rs[k1], rs[k2])
}

/// Number of categories below `i` the hand holds at least one copy of.
pub open spec fn n_positive(h: Seq<int>, i: int) -> int
    decreases i,
{
    if i <= 0 {
        0
    } else {
        n_positive(h, i - 1) + (if h[i - 1] > 0 {
            1int
        } else {
            0int
        })
    }
}

/// The full contract of an analysis result: the hand's shanten, and
/// one recommendation for each held category, ranked, with no category
/// repeated and none missing.
pub open spec fn analysis_ok(res: AnalysisResult, h: Seq<int>, d: Seq<int>) -> bool {
    &&& res.current_shanten as int == shanten_spec(h)
    &&& sorted_recs(res.recommendations@)
    &&& res.recommendations@.len() == n_positive(h, 34)
    &&& forall|k: int|
        0 <= k < res.recommendations@.len() ==> rec_matches_some(
            #[trigger] res.recommendations@[k],
            h,
            d,
        )
    &&& forall|i: int|
        0 <= i < 34 && #[trigger] h[i] > 0 ==> has_rec_for(res.recommendations@, h, d, i)
    &&& forall|k1: int, k2: int|
        0 <= k1 < k2 < res.recommendations@.len()
            ==> (#[trigger] res.recommendations@[k1]).discard_tile@ != (
        #[trigger] res.recommendations@[k2]).discard_tile@
}

/// A category with three copies visible between hand and discards has
/// exactly one remaining copy to draw; with four visible, none; and the
/// remaining count is never negative.
pub proof fn lemma_remaining_acceptance(h: Seq<int>, d: Seq<int>, j: int)
    requires
        0 <= j < 34,
    ensures
        remaining_of(h, d, j) >= 0,
        h[j] + d[j] == 3 ==> remaining_of(h, d, j) == 1,
        h[j] + d[j] >= 4 ==> remaining_of(h, d, j) == 0,
{
}

/// Discarding a tile and drawing the same tile restores the hand, so
/// the shanten after any discard stands within one draw of the original
/// hand's shanten.
pub proof fn lemma_redraw_restores(h: Seq<int>, i: int)
    requires
        h.len() == 34,
        0 <= i < 34,
    ensures
        test_counts(h, i, i) == h,
{
    assert(test_counts(h, i, i) =~= h);
}

proof fn lemma_parse_all_prefix_err(ds: Seq<String>, t: int, e: ParseError)
    requires
        0 <= t <= ds.len(),
        parse_all(ds.take(t)) == Err::<Seq<int>, ParseError>(e),
    ensures
        parse_all(ds) == Err::<Seq<int>, ParseError>(e),
    decreases ds.len() - t,
{
    if t < ds.len() {
        assert(ds.take(t + 1).drop_last() =~= ds.take(t));
        assert(parse_all(ds.take(t + 1)) == Err::<Seq<int>, ParseError>(e));
        lemma_parse_all_prefix_err(ds, t + 1, e);
    } else {
        assert(ds.take(t) =~= ds);
    }
}

proof fn lemma_two_positions_count(s: Seq<Recommendation>, k1: int, k2: int)
    requires
        0 <= k1 < k2 < s.len(),
        s[k1] == s[k2],
    ensures
        s.to_multiset().count(s[k1]) >= 2,
{
    broadcast use vstd::multiset::group_multiset_axioms;

    s.to_multiset_ensures();
    s.remove(k1).to_multiset_ensures();
    assert(s.remove(k1).to_multiset() =~= s.to_multiset().remove(s[k1]));
    assert(s.remove(k1)[k2 - 1] == s[k2]);
    assert(s.remove(k1).contains(s[k2]));
    assert(s.remove(k1).to_multiset().count(s[k1]) > 0);
}

proof fn lemma_count2_two_positions(s: Seq<Recommendation>, v: Recommendation) -> (r: (int, int))
    requires
        s.to_multiset().count(v) >= 2,
    ensures
        0 <= r.0 < r.1 < s.len(),
        s[r.0] == v,
        s[r.1] == v,
{
    broadcast use vstd::multiset::group_multiset_axioms;

    s.to_multiset_ensures();
    assert(s.contains(v));
    let q1 = choose|q: int| 0 <= q < s.len() && s[q] == v;
    s.remove(q1).to_multiset_ensures();
    assert(s.remove(q1).to_multiset() =~= s.to_multiset().remove(v));
    assert(s.remove(q1).to_multiset().count(v) >= 1);
    assert(s.remove(q1).contains(v));
    let p = choose|p: int| 0 <= p < s.remove(q1).len() && s.remove(q1)[p] == v;
    if p < q1 {
        assert(s[p] == v);
        (p, q1)
    } else {
        assert(s[p + 1] == v);
        (q1, p + 1)
    }
}

/// An element of a sequence is an element of any reordering of it.
proof fn lemma_ms_seq_contains(a: Seq<Recommendation>, b: Seq<Recommendation>, x: Recommendation)
    requires
        a.to_multiset() == b.to_multiset(),
        a.contains(x),
    ensures
        b.contains(x),
{
    a.to_multiset_ensures();
    b.to_multiset_ensures();
    assert(a.to_multiset().count(x) > 0);
}

/// Every element of a reordered recommendation list still matches a tile.
proof fn lemma_recs_transfer_each(
    a: Seq<Recommendation>,
    b: Seq<Recommendation>,
    h: Seq<int>,
    d: Seq<int>,
)
    requires
        a.to_multiset() == b.to_multiset(),
        forall|k: int| 0 <= k < a.len() ==> rec_matches_some(#[trigger] a[k], h, d),
    ensures
        forall|k: int| 0 <= k < b.len() ==> rec_matches_some(#[trigger] b[k], h, d),
{
    assert forall|k: int| 0 <= k < b.len() implies rec_matches_some(#[trigger] b[k], h, d) by {
        assert(b.contains(b[k]));
        lemma_ms_seq_contains(b, a, b[k]);
        let q = choose|q: int| 0 <= q < a.len() && a[q] == b[k];
        assert(rec_matches_some(a[q], h, d));
        assert(rec_matches_some(b[k], h, d));
    }
}

/// Every held tile keeps a matching entry in a reordered list.
proof fn lemma_recs_transfer_all(
    a: Seq<Recommendation>,
    b: Seq<Recommendation>,
    h: Seq<int>,
    d: Seq<int>,
)
    requires
        a.to_multiset() == b.to_multiset(),
        forall|i: int| 0 <= i < 34 && #[trigger] h[i] > 0 ==> has_rec_for(a, h, d, i),
    ensures
        forall|i: int| 0 <= i < 34 && #[trigger] h[i] > 0 ==> has_rec_for(b, h, d, i),
{
    assert forall|i: int| 0 <= i < 34 && #[trigger] h[i] > 0 implies has_rec_for(b, h, d, i) by {
        assert(has_rec_for(a, h, d, i));
        let q = choose|q: int| 0 <= q < a.len() && rec_matches(a[q], h, d, i);
        assert(a.contains(a[q]));
        lemma_ms_seq_contains(a, b, a[q]);
        let k = choose|k: int| 0 <= k < b.len() && b[k] == a[q];
        assert(0 <= k < b.len() && rec_matches(b[k], h, d, i));
    }
}

/// Reordering keeps the discarded tiles of a recommendation list
/// pairwise distinct.
proof fn lemma_recs_transfer_distinct(a: Seq<Recommendation>, b: Seq<Recommendation>)
    requires
        a.to_multiset() == b.to_multiset(),
        forall|k1: int, k2: int|
            0 <= k1 < k2 < a.len() ==> (#[trigger] a[k1]).discard_tile@ != (
            #[trigger] a[k2]).discard_tile@,
    ensures
        forall|k1: int, k2: int|
            0 <= k1 < k2 < b.len() ==> (#[trigger] b[k1]).discard_tile@ != (
            #[trigger] b[k2]).discard_tile@,
{
    assert forall|k1: int, k2: int| 0 <= k1 < k2 < b.len() implies (
    #[trigger] b[k1]).discard_tile@ != (#[trigger] b[k2]).discard_tile@ by {
        if b[k1].discard_tile@ == b[k2].discard_tile@ {
            if b[k1] == b[k2] {
                lemma_two_positions_count(b, k1, k2);
                let qs = lemma_count2_two_positions(a, b[k1]);
                assert(a[qs.0].discard_tile@ == a[qs.1].discard_tile@);
                assert(false);
            } else {
                assert(b.contains(b[k1]));
                assert(b.contains(b[k2]));
                lemma_ms_seq_contains(b, a, b[k1]);
                lemma_ms_seq_contains(b, a, b[k2]);
                let q1 = choose|q: int| 0 <= q < a.len() && a[q] == b[k1];
                let q2 = choose|q: int| 0 <= q < a.len() && a[q] == b[k2];
                assert(q1 != q2);
                if q1 < q2 {
                    assert(a[q1].discard_tile@ != a[q2].discard_tile@);
                } else {
                    assert(a[q2].discard_tile@ != a[q1].discard_tile@);
                }
                assert(false);
            }
        }
    }
}

proof fn lemma_empty_to_multiset(s: Seq<Recommendation>)
    requires
        s.len() == 0,
    ensures
        s.to_multiset() =~= Multiset::<Recommendation>::empty(),
{
    broadcast use vstd::multiset::group_multiset_axioms;

    s.to_multiset_ensures();
    assert forall|x: Recommendation| s.to_multiset().count(x) == 0 by {
        if s.to_multiset().count(x) > 0 {
            assert(s.contains(x));
        }
    }
}

fn rec_le_exec(a: &Recommendation, b: &Recommendation) -> (r: bool)
    ensures
        r == rec_le(*a, *b),
{
    a.shanten_after < b.shanten_after || (a.shanten_after == b.shanten_after && a.ukeire_count
        >= b.ukeire_count)
}

/// Selection sort by rank; keeps exactly the given recommendations.
#[verifier::rlimit(50)]
fn sort_recommendations(input: Vec<Recommendation>) -> (out: Vec<Recommendation>)
    ensures
        out@.to_multiset() == input@.to_multiset(),
        out@.len() == input@.len(),
        sorted_recs(out@),
{
    let ghost orig = input@;
    let mut rest = input;
    let mut out: Vec<Recommendation> = Vec::new();
    proof {
        broadcast use vstd::multiset::group_multiset_axioms;

        lemma_empty_to_multiset(out@);
        assert(out@.to_multiset().add(rest@.to_multiset()) =~= orig.to_multiset());
    }
    while rest.len() > 0
        invariant
            out@.to_multiset().add(rest@.to_multiset()) == orig.to_multiset(),
            out@.len() + rest@.len() == orig.len(),
            sorted_recs(out@),
            forall|k1: int, k2: int|
                #![trigger out@[k1], rest@[k2]]
                0 <= k1 < out@.len() && 0 <= k2 < rest@.len() ==> rec_le(out@[k1], rest@[k2]),
        decreases rest@.len(),
    {
        let mut mi: usize = 0;
        let mut t: usize = 1;
        while t < rest.len()
            invariant
                0 < rest@.len(),
                mi < t <= rest@.len(),
                forall|u: int| 0 <= u < t ==> rec_le(rest@[mi as int], #[trigger] rest@[u]),
            decreases rest@.len() - t,
        {
            if !rec_le_exec(&rest[mi], &rest[t]) {
                mi = t;
            }
            t = t + 1;
        }
        let ghost prev = rest@;
        let ghost prevout = out@;
        let r = rest.remove(mi);
        proof {
            broadcast use vstd::multiset::group_multiset_axioms;

            prev.remove_ensures(mi as int);
            prev.to_multiset_ensures();
            assert(prev[mi as int] == r);
            assert(prev.contains(r));
            assert(prev.to_multiset().count(r) > 0);
            assert(rest@.to_multiset() =~= prev.to_multiset().remove(r));
        }
        out.push(r);
        proof {
            broadcast use vstd::multiset::group_multiset_axioms;

            prevout.to_multiset_ensures();
            assert(out@ =~= prevout.push(r));
            assert(out@.to_multiset() =~= prevout.to_multiset().insert(r));
            assert forall|x: Recommendation|
                out@.to_multiset().add(rest@.to_multiset()).count(x) == orig.to_multiset().count(
                    x,
                ) by {
                assert(prevout.to_multiset().add(prev.to_multiset()).count(x)
                    == orig.to_multiset().count(x));
            }
            assert(out@.to_multiset().add(rest@.to_multiset()) =~= orig.to_multiset());
            assert forall|k2: int| 0 <= k2 < rest@.len() implies rec_le(r, #[trigger] rest@[k2]) by {
                if k2 < mi as int {
                    assert(rest@[k2] == prev[k2]);
                    assert(rec_le(prev[mi as int], prev[k2]));
                } else {
                    assert(rest@[k2] == prev[k2 + 1]);
                    assert(rec_le(prev[mi as int], prev[k2 + 1]));
                }
            }
            assert forall|k1: int, k2: int|
                #![trigger out@[k1], rest@[k2]]
                0 <= k1 < out@.len() && 0 <= k2 < rest@.len() implies rec_le(
                out@[k1],
                rest@[k2],
            ) by {
                if k1 < prevout.len() {
                    assert(out@[k1] == prevout[k1]);
                    if k2 < mi as int {
                        assert(rest@[k2] == prev[k2]);
                        assert(rec_le(prevout[k1], prev[k2]));
                    } else {
                        assert(rest@[k2] == prev[k2 + 1]);
                        assert(rec_le(prevout[k1], prev[k2 + 1]));
                    }
                } else {
                    assert(out@[k1] == r);
                }
            }
            assert forall|k1: int, k2: int| 0 <= k1 < k2 < out@.len() implies rec_le(
                out@[k1],
                out@[k2],
            ) by {
                if k2 < prevout.len() {
                    assert(rec_le(prevout[k1], prevout[k2]));
                } else {
                    assert(out@[k2] == r);
                    assert(out@[k1] == prevout[k1]);
                    assert(rec_le(prevout[k1], prev[mi as int]));
                }
            }
        }
    }
    proof {
        broadcast use vstd::multiset::group_multiset_axioms;

        lemma_empty_to_multiset(rest@);
        assert forall|x: Recommendation| out@.to_multiset().count(x) == orig.to_multiset().count(
            x,
        ) by {
            assert(out@.to_multiset().add(rest@.to_multiset()).count(x) == orig.to_multiset().count(
                x,
            ));
        }
        assert(out@.to_multiset() =~= orig.to_multiset());
    }
    out
}

/// Analyze a hand: parse it and the seen discards, compute its shanten,
/// and rank every possible discard by the shanten after it and by the
/// remaining copies of the tiles that would then lower the shanten.
#[verifier::rlimit(50)]
pub fn analyze(hand_str: &str, discards: &[String]) -> (r: Result<AnalysisResult, ParseError>)
    requires
        discards@.len() <= 100000000,
    ensures
        (r matches Err(e) ==> first_error(hand_str@, discards@) == Some(e)),
        (first_error(hand_str@, discards@) is None ==> r is Ok),
        (r matches Ok(res) ==> {
            &&& first_error(hand_str@, discards@) is None
            &&& parse_spec(hand_str@) matches Ok(h) && parse_all(discards@) matches Ok(d)
                && analysis_ok(res, h, d)
        }),
{
    let hand = match Hand::from_string(hand_str) {
        Ok(h) => h,
        Err(e) => {
            return Err(e);
        },
    };
    let ghost gh = int_counts(hand.counts@);
    proof {
        assert(counts_wf(hand.counts@));
    }
    let current = calculate_shanten(&hand.counts);
    let mut discard_counts: Vec<i32> = zeros();
    let mut k: usize = 0;
    proof {
        assert(discards@.take(0) =~= Seq::<String>::empty());
        assert(int_counts(discard_counts@) =~= zero_counts());
    }
    while k < discards.len()
        invariant
            k <= discards@.len(),
            discards@.len() <= 100000000,
            parse_spec(hand_str@) == Ok::<Seq<int>, ParseError>(gh),
            discard_counts@.len() == 34,
            forall|q: int| 0 <= q < 34 ==> 0 <= #[trigger] discard_counts@[q] <= 4 * (k as int),
            parse_all(discards@.take(k as int)) == Ok::<Seq<int>, ParseError>(
                int_counts(discard_counts@),
            ),
        decreases discards@.len() - k,
    {
        let ds = vstd::slice::slice_index_get(discards, k);
        match Hand::from_string(ds.as_str()) {
            Err(e) => {
                proof {
                    assert(discards@.take(k as int + 1).drop_last() =~= discards@.take(k as int));
                    assert(discards@.take(k as int + 1).last() == discards@[k as int]);
                    assert(parse_all(discards@.take(k as int + 1)) == Err::<Seq<int>, ParseError>(
                        e,
                    ));
                    lemma_parse_all_prefix_err(discards@, k as int + 1, e);
                }
                return Err(e);
            },
            Ok(h2) => {
                let ghost olddc = int_counts(discard_counts@);
                let mut j: usize = 0;
                while j < 34
                    invariant
                        j <= 34,
                        k < discards@.len() <= 100000000,
                        olddc.len() == 34,
                        discard_counts@.len() == 34,
                        h2.counts@.len() == 34,
                        forall|q: int| 0 <= q < 34 ==> 0 <= #[trigger] h2.counts@[q] <= 4,
                        forall|q: int|
                            j <= q < 34 ==> #[trigger] discard_counts@[q] as int == olddc[q],
                        forall|q: int|
                            0 <= q < j ==> #[trigger] discard_counts@[q] as int == olddc[q]
                                + h2.counts@[q] as int,
                        forall|q: int| 0 <= q < 34 ==> 0 <= #[trigger] olddc[q] <= 4 * (k as int),
                    decreases 34 - j,
                {
                    let a = discard_counts[j];
                    let b = h2.counts[j];
                    discard_counts[j] = a + b;
                    j = j + 1;
                }
                proof {
                    assert(int_counts(discard_counts@) =~= seq_add(olddc, int_counts(h2.counts@)));
                    assert(discards@.take(k as int + 1).drop_last() =~= discards@.take(k as int));
                    assert(discards@.take(k as int + 1).last() == discards@[k as int]);
                }
            },
        }
        k = k + 1;
    }
    proof {
        assert(discards@.take(discards@.len() as int) =~= discards@);
    }
    let ghost gd = int_counts(discard_counts@);
    let mut recs: Vec<Recommendation> = Vec::new();
    let mut i: usize = 0;
    while i < 34
        invariant
            i <= 34,
            gh == int_counts(hand.counts@),
            gd == int_counts(discard_counts@),
            hand.counts@.len() == 34,
            discard_counts@.len() == 34,
            forall|q: int| 0 <= q < 34 ==> 0 <= #[trigger] hand.counts@[q] <= 4,
            forall|q: int| 0 <= q < 34 ==> 0 <= #[trigger] discard_counts@[q] <= 400000000,
            recs@.len() == n_positive(gh, i as int),
            forall|k2: int|
                0 <= k2 < recs@.len() ==> rec_matches_below(
                    #[trigger] recs@[k2],
                    gh,
                    gd,
                    i as int,
                ),
            forall|ii: int|
                0 <= ii < i && #[trigger] gh[ii] > 0 ==> has_rec_for(recs@, gh, gd, ii),
            forall|k1: int, k2: int|
                0 <= k1 < k2 < recs@.len() ==> (#[trigger] recs@[k1]).discard_tile@ != (
                #[trigger] recs@[k2]).discard_tile@,
        decreases 34 - i,
    {
        let ci = hand.counts[i];
        proof {
            assert(gh[i as int] == hand.counts@[i as int] as int);
        }
        if ci > 0 {
            let mut next = clone_counts(&hand.counts);
            next[i] = ci - 1;
            proof {
                assert(int_counts(next@) =~= next_counts(gh, i as int));
                assert(counts_wf(next@));
            }
            let shanten_after = calculate_shanten(&next);
            let mut ukeire: Vec<String> = Vec::new();
            let mut ukeire_count: i32 = 0;
            let mut j: usize = 0;
            proof {
                assert(str_views(ukeire@) =~= ukeire_strs_upto(gh, i as int, 0));
            }
            while j < 34
                invariant
                    j <= 34,
                    i < 34,
                    gh == int_counts(hand.counts@),
                    gd == int_counts(discard_counts@),
                    hand.counts@.len() == 34,
                    discard_counts@.len() == 34,
                    next@.len() == 34,
                    forall|q: int| 0 <= q < 34 ==> 0 <= #[trigger] hand.counts@[q] <= 4,
                    forall|q: int| 0 <= q < 34 ==> 0 <= #[trigger] discard_counts@[q] <= 400000000,
                    counts_wf(next@),
                    int_counts(next@) == next_counts(gh, i as int),
                    shanten_after as int == shanten_spec(next_counts(gh, i as int)),
                    str_views(ukeire@) == ukeire_strs_upto(gh, i as int, j as int),
                    ukeire_count as int == ukeire_count_upto(gh, gd, i as int, j as int),
                    0 <= ukeire_count <= 4 * (j as int),
                decreases 34 - j,
            {
                let mut test = clone_counts(&next);
                let tv = test[j];
                test[j] = tv + 1;
                proof {
                    assert(int_counts(test@) =~= test_counts(gh, i as int, j as int));
                    assert(counts_wf(test@));
                }
                let s = calculate_shanten(&test);
                let ghost oldu = str_views(ukeire@);
                if s < shanten_after {
                    ukeire.push(Hand::to_tile_string(j));
                    proof {
                        assert(accepts(gh, i as int, j as int));
                        assert(str_views(ukeire@) =~= oldu.push(tile_str_spec(j as int)));
                    }
                    let hj = hand.counts[j];
                    let dj = discard_counts[j];
                    let remaining = 4 - hj - dj;
                    if remaining > 0 {
                        ukeire_count = ukeire_count + remaining;
                    }
                    proof {
                        assert(gh[j as int] == hand.counts@[j as int] as int);
                        assert(gd[j as int] == discard_counts@[j as int] as int);
                        assert(ukeire_count as int == ukeire_count_upto(
                            gh,
                            gd,
                            i as int,
                            j as int + 1,
                        ));
                    }
                } else {
                    proof {
                        assert(!accepts(gh, i as int, j as int));
                    }
                }
                j = j + 1;
            }
            let tile = Hand::to_tile_string(i);
            let rec = Recommendation { discard_tile: tile, shanten_after, ukeire, ukeire_count };
            let ghost prevrecs = recs@;
            proof {
                assert(rec_matches(rec, gh, gd, i as int));
                assert forall|k2: int| 0 <= k2 < prevrecs.len() implies (
                #[trigger] prevrecs[k2]).discard_tile@ != rec.discard_tile@ by {
                    assert(rec_matches_below(prevrecs[k2], gh, gd, i as int));
                    let ii = choose|ii: int|
                        0 <= ii < i as int && rec_matches(prevrecs[k2], gh, gd, ii);
                    if prevrecs[k2].discard_tile@ == rec.discard_tile@ {
                        lemma_tile_str_inj(ii, i as int);
                    }
                }
            }
            recs.push(rec);
            proof {
                assert(recs@ =~= prevrecs.push(rec));
                assert forall|k2: int| 0 <= k2 < recs@.len() implies rec_matches_below(
                    #[trigger] recs@[k2],
                    gh,
                    gd,
                    i as int + 1,
                ) by {
                    if k2 < prevrecs.len() {
                        assert(recs@[k2] == prevrecs[k2]);
                        assert(rec_matches_below(prevrecs[k2], gh, gd, i as int));
                        let ii = choose|ii: int|
                            0 <= ii < i as int && rec_matches(prevrecs[k2], gh, gd, ii);
                        assert(0 <= ii < i as int + 1 && rec_matches(recs@[k2], gh, gd, ii));
                    } else {
                        assert(recs@[k2] == rec);
                        assert(rec_matches(recs@[k2], gh, gd, i as int));
                    }
                }
                assert forall|ii: int| 0 <= ii < i as int + 1 && #[trigger] gh[ii] > 0 implies
                    has_rec_for(recs@, gh, gd, ii) by {
                    if ii < i as int {
                        assert(has_rec_for(prevrecs, gh, gd, ii));
                        let k2 = choose|k2: int|
                            0 <= k2 < prevrecs.len() && rec_matches(prevrecs[k2], gh, gd, ii);
                        assert(recs@[k2] == prevrecs[k2]);
                        assert(0 <= k2 < recs@.len() && rec_matches(recs@[k2], gh, gd, ii));
                    } else {
                        assert(0 <= prevrecs.len() < recs@.len() && rec_matches(
                            recs@[prevrecs.len() as int],
                            gh,
                            gd,
                            i as int,
                        ));
                    }
                }
            }
        } else {
            proof {
                assert forall|k2: int| 0 <= k2 < recs@.len() implies rec_matches_below(
                    #[trigger] recs@[k2],
                    gh,
                    gd,
                    i as int + 1,
                ) by {
                    assert(rec_matches_below(recs@[k2], gh, gd, i as int));
                    let ii = choose|ii: int|
                        0 <= ii < i as int && rec_matches(recs@[k2], gh, gd, ii);
                    assert(0 <= ii < i as int + 1 && rec_matches(recs@[k2], gh, gd, ii));
                }
                assert forall|ii: int| 0 <= ii < i as int + 1 && #[trigger] gh[ii] > 0 implies
                    has_rec_for(recs@, gh, gd, ii) by {
                    assert(gh[i as int] <= 0);
                    assert(ii < i as int);
                    assert(has_rec_for(recs@, gh, gd, ii));
                }
            }
        }
        proof {
            assert(recs@.len() == n_positive(gh, i as int + 1));
        }
        i = i + 1;
    }
    let ghost unsorted = recs@;
    proof {
        assert forall|k2: int| 0 <= k2 < unsorted.len() implies rec_matches_some(
            #[trigger] unsorted[k2],
            gh,
            gd,
        ) by {
            assert(rec_matches_below(unsorted[k2], gh, gd, 34));
            let ii = choose|ii: int| 0 <= ii < 34 && rec_matches(unsorted[k2], gh, gd, ii);
            assert(rec_matches(unsorted[k2], gh, gd, ii));
        }
    }
    let sorted = sort_recommendations(recs);
    proof {
        lemma_recs_transfer_each(unsorted, sorted@, gh, gd);
        lemma_recs_transfer_all(unsorted, sorted@, gh, gd);
        lemma_recs_transfer_distinct(unsorted, sorted@);
    }
    Ok(AnalysisResult { current_shanten: current, recommendations: sorted })
}

} // verus!
