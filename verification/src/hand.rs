//! Hand notation: parsing a compact tile string into a 34-slot count
//! vector, and rendering a tile category back to its two-character name.
//!
//! The notation lists digits followed by a family letter: `m`/`w` for
//! the Wan family (categories 0-8), `p`/`t` for Tong (9-17), `s`/`l`
//! for Tiao (18-26) and `z` for the seven honors (27-33).  Honor digits
//! run 1-7 only; an honor digit of 8 or 9 names no category and is
//! rejected rather than mapped into a neighbouring slot.  A fifth copy
//! of any category is likewise rejected: at most four physical copies
//! of a tile exist.  Unrecognised characters are skipped, a digit 0 is
//! ignored, and digits not yet closed by a family letter are dropped.

use vstd::prelude::*;
use vstd::string::*;
use crate::shanten::int_counts;

verus! {

/// The four tile families, with the honors split by their kind.
#[derive(Debug, Clone, Copy, PartialEq, Eq, Hash)]
pub enum TileType {
    Wan,
    Tong,
    Tiao,
    Wind,
    Dragon,
}

/// Why a hand string was rejected.
#[derive(Debug, Clone, Copy, PartialEq, Eq, Structural)]
pub enum ParseError {
    /// An honor digit of 8 or 9: the honor family has seven categories.
    HonorOutOfRange,
    /// A fifth copy of one tile category.
    TooManyCopies,
}

/// A hand as a 34-slot tile count vector.
pub struct Hand {
    pub counts: Vec<i32>,
}

/// Value of a decimal digit character, -1 for any other character.
pub open spec fn digit_of(ch: char) -> int {
    match ch {
        '0' => 0,
        '1' => 1,
        '2' => 2,
        '3' => 3,
        '4' => 4,
        '5' => 5,
        '6' => 6,
        '7' => 7,
        '8' => 8,
        '9' => 9,
        _ => -1,
    }
}

/// First category index of the family a letter names, -1 for any other
/// character.
pub open spec fn suit_offset(ch: char) -> int {
    match ch {
        'm' | 'w' => 0,
        'p' | 't' => 9,
        's' | 'l' => 18,
        'z' => 27,
        _ => -1,
    }
}

/// The all-zero count vector.
pub open spec fn zero_counts() -> Seq<int> {
    Seq::new(34, |j: int| 0)
}

/// Add the pending digits to `counts` under the family starting at
/// `off`, left to right: a digit in range raises its category's count,
/// a digit 0 is ignored, an honor digit 8 or 9 is an error, and so is a
/// count raised past 4.
pub open spec fn flush_digits(counts: Seq<int>, off: int, pending: Seq<int>) -> Result<
    Seq<int>,
    ParseError,
>
    decreases pending.len(),
{
    if pending.len() == 0 {
        Ok(counts)
    } else {
        let d = pending[0];
        let rest = pending.drop_first();
        if off == 27 && (d == 8 || d == 9) {
            Err(ParseError::HonorOutOfRange)
        } else if 1 <= d && d <= (if off == 27 {
            7int
        } else {
            9int
        }) {
            let idx = off + d - 1;
            if counts[idx] >= 4 {
                Err(ParseError::TooManyCopies)
            } else {
                flush_digits(counts.update(idx, counts[idx] + 1), off, rest)
            }
        } else {
            flush_digits(counts, off, rest)
        }
    }
}

/// Scan the characters of `s` from position `k`: digits gather in
/// `pending`, a family letter flushes them into `counts`, anything else
/// is skipped, and pending digits left at the end are dropped.
pub open spec fn parse_from(s: Seq<char>, k: int, pending: Seq<int>, counts: Seq<int>) -> Result<
    Seq<int>,
    ParseError,
>
    decreases s.len() - k,
{
    if k < 0 || k >= s.len() {
        Ok(counts)
    } else {
        let ch = s[k];
        if digit_of(ch) >= 0 {
            parse_from(s, k + 1, pending.push(digit_of(ch)), counts)
        } else if suit_offset(ch) >= 0 {
            match flush_digits(counts, suit_offset(ch), pending) {
                Err(e) => Err(e),
                Ok(c2) => parse_from(s, k + 1, Seq::empty(), c2),
            }
        } else {
            parse_from(s, k + 1, pending, counts)
        }
    }
}

/// The count vector a hand string denotes, or the error rejecting it.
pub open spec fn parse_spec(s: Seq<char>) -> Result<Seq<int>, ParseError> {
    parse_from(s, 0, Seq::empty(), zero_counts())
}

/// A parsed count vector: 34 entries, each between 0 and 4.
pub open spec fn parsed_wf(c: Seq<int>) -> bool {
    c.len() == 34 && forall|j: int| 0 <= j < 34 ==> 0 <= #[trigger] c[j] <= 4
}

/// Digits awaiting a family letter are decimal digit values.
pub open spec fn pending_wf(p: Seq<int>) -> bool {
    forall|t: int| 0 <= t < p.len() ==> 0 <= #[trigger] p[t] <= 9
}

proof fn lemma_flush_digits_wf(counts: Seq<int>, off: int, pending: Seq<int>)
    requires
        parsed_wf(counts),
        off == 0 || off == 9 || off == 18 || off == 27,
        pending_wf(pending),
    ensures
        flush_digits(counts, off, pending) matches Ok(c2) ==> parsed_wf(c2),
    decreases pending.len(),
{
    if pending.len() > 0 {
        let d = pending[0];
        let rest = pending.drop_first();
        assert(pending_wf(rest));
        if off == 27 && (d == 8 || d == 9) {
        } else if 1 <= d && d <= (if off == 27 {
            7int
        } else {
            9int
        }) {
            let idx = off + d - 1;
            if counts[idx] < 4 {
                lemma_flush_digits_wf(counts.update(idx, counts[idx] + 1), off, rest);
            }
        } else {
            lemma_flush_digits_wf(counts, off, rest);
        }
    }
}

proof fn lemma_parse_from_wf(s: Seq<char>, k: int, pending: Seq<int>, counts: Seq<int>)
    requires
        parsed_wf(counts),
        pending_wf(pending),
    ensures
        parse_from(s, k, pending, counts) matches Ok(c2) ==> parsed_wf(c2),
    decreases s.len() - k,
{
    if 0 <= k < s.len() {
        let ch = s[k];
        if digit_of(ch) >= 0 {
            assert(pending_wf(pending.push(digit_of(ch))));
            lemma_parse_from_wf(s, k + 1, pending.push(digit_of(ch)), counts);
        } else if suit_offset(ch) >= 0 {
            lemma_flush_digits_wf(counts, suit_offset(ch), pending);
            match flush_digits(counts, suit_offset(ch), pending) {
                Err(_) => {},
                Ok(c2) => {
                    lemma_parse_from_wf(s, k + 1, Seq::empty(), c2);
                },
            }
        } else {
            lemma_parse_from_wf(s, k + 1, pending, counts);
        }
    }
}

/// A parsed hand is well formed: 34 slots, each holding 0 to 4 copies.
pub proof fn lemma_parse_spec_wf(s: Seq<char>)
    ensures
        parse_spec(s) matches Ok(c) ==> parsed_wf(c),
{
    lemma_parse_from_wf(s, 0, Seq::empty(), zero_counts());
}

fn digit_of_exec(ch: char) -> (d: i32)
    ensures
        d == digit_of(ch),
{
    match ch {
        '0' => 0,
        '1' => 1,
        '2' => 2,
        '3' => 3,
        '4' => 4,
        '5' => 5,
        '6' => 6,
        '7' => 7,
        '8' => 8,
        '9' => 9,
        _ => -1,
    }
}

fn suit_offset_exec(ch: char) -> (off: i32)
    ensures
        off == suit_offset(ch),
{
    match ch {
        'm' | 'w' => 0,
        'p' | 't' => 9,
        's' | 'l' => 18,
        'z' => 27,
        _ => -1,
    }
}

/// A fresh all-zero 34-slot count vector.
pub fn zeros() -> (r: Vec<i32>)
    ensures
        r@.len() == 34,
        forall|j: int| 0 <= j < 34 ==> #[trigger] r@[j] == 0,
        int_counts(r@) == zero_counts(),
{
    let mut r: Vec<i32> = Vec::new();
    let mut k: usize = 0;
    while k < 34
        invariant
            k <= 34,
            r@.len() == k,
            forall|j: int| 0 <= j < k ==> #[trigger] r@[j] == 0,
        decreases 34 - k,
    {
        r.push(0);
        k = k + 1;
    }
    proof {
        assert(int_counts(r@) =~= zero_counts());
    }
    r
}

impl Hand {
    /// Parse a hand string into a count vector, rejecting an honor
    /// digit of 8 or 9 and a fifth copy of any category.
    pub fn from_string(s: &str) -> (r: Result<Hand, ParseError>)
        ensures
            (r matches Ok(h) ==> {
                &&& parsed_wf(int_counts(h.counts@))
                &&& h.counts@.len() == 34
                &&& forall|j: int| 0 <= j < 34 ==> 0 <= #[trigger] h.counts@[j] <= 4
                &&& parse_spec(s@) == Ok::<Seq<int>, ParseError>(int_counts(h.counts@))
            }),
            (r matches Err(e) ==> parse_spec(s@) == Err::<Seq<int>, ParseError>(e)),
    {
        let n = s.unicode_len();
        let mut counts: Vec<i32> = zeros();
        let mut pending: Vec<i32> = Vec::new();
        let mut k: usize = 0;
        proof {
            assert(int_counts(pending@) =~= Seq::<int>::empty());
        }
        while k < n
            invariant
                n == s@.len(),
                k <= n,
                counts@.len() == 34,
                forall|j: int| 0 <= j < 34 ==> 0 <= #[trigger] counts@[j] <= 4,
                pending_wf(int_counts(pending@)),
                parse_spec(s@) == parse_from(
                    s@,
                    k as int,
                    int_counts(pending@),
                    int_counts(counts@),
                ),
            decreases n - k,
        {
            let ch = s.get_char(k);
            let d = digit_of_exec(ch);
            if d >= 0 {
                let ghost oldp = int_counts(pending@);
                pending.push(d);
                proof {
                    assert(int_counts(pending@) =~= oldp.push(d as int));
                }
            } else {
                let off = suit_offset_exec(ch);
                if off >= 0 {
                    let ghost goff = off as int;
                    let ghost gp = int_counts(pending@);
                    let ghost gc0 = int_counts(counts@);
                    let mut t: usize = 0;
                    proof {
                        assert(gp.skip(0) =~= gp);
                    }
                    while t < pending.len()
                        invariant
                            t <= pending@.len(),
                            off as int == goff,
                            goff == 0 || goff == 9 || goff == 18 || goff == 27,
                            gp == int_counts(pending@),
                            pending_wf(gp),
                            counts@.len() == 34,
                            forall|j: int| 0 <= j < 34 ==> 0 <= #[trigger] counts@[j] <= 4,
                            flush_digits(gc0, goff, gp) == flush_digits(
                                int_counts(counts@),
                                goff,
                                gp.skip(t as int),
                            ),
                            parse_spec(s@) == parse_from(s@, k as int, gp, gc0),
                            k < n,
                            n == s@.len(),
                            digit_of(s@[k as int]) < 0,
                            suit_offset(s@[k as int]) == goff,
                        decreases pending@.len() - t,
                    {
                        let d2 = pending[t];
                        proof {
                            assert(gp[t as int] == pending@[t as int] as int);
                            assert(d2 as int == gp[t as int]);
                            assert(0 <= d2 <= 9);
                            assert(gp.skip(t as int)[0] == gp[t as int]);
                            assert(gp.skip(t as int).drop_first() =~= gp.skip(t as int + 1));
                        }
                        if off == 27 && (d2 == 8 || d2 == 9) {
                            proof {
                                assert(flush_digits(gc0, goff, gp) == Err::<Seq<int>, ParseError>(
                                    ParseError::HonorOutOfRange,
                                ));
                            }
                            return Err(ParseError::HonorOutOfRange);
                        } else if 1 <= d2 && d2 <= (if off == 27 {
                            7
                        } else {
                            9
                        }) {
                            let idx = (off + d2 - 1) as usize;
                            if counts[idx] >= 4 {
                                proof {
                                    assert(flush_digits(gc0, goff, gp) == Err::<
                                        Seq<int>,
                                        ParseError,
                                    >(ParseError::TooManyCopies));
                                }
                                return Err(ParseError::TooManyCopies);
                            }
                            let ghost oc = int_counts(counts@);
                            let cv = counts[idx];
                            counts[idx] = cv + 1;
                            proof {
                                assert(int_counts(counts@) =~= oc.update(idx as int, oc[idx as int] + 1));
                            }
                        }
                        t = t + 1;
                    }
                    proof {
                        assert(gp.skip(pending@.len() as int) =~= Seq::<int>::empty());
                    }
                    pending.clear();
                    proof {
                        assert(int_counts(pending@) =~= Seq::<int>::empty());
                    }
                }
            }
            k = k + 1;
        }
        proof {
            lemma_parse_spec_wf(s@);
        }
        Ok(Hand { counts })
    }
}

/// Digit character of a tile's rank.
pub open spec fn digit_char(d: int) -> char {
    if d == 1 {
        '1'
    } else if d == 2 {
        '2'
    } else if d == 3 {
        '3'
    } else if d == 4 {
        '4'
    } else if d == 5 {
        '5'
    } else if d == 6 {
        '6'
    } else if d == 7 {
        '7'
    } else if d == 8 {
        '8'
    } else if d == 9 {
        '9'
    } else {
        '0'
    }
}

/// Family letter of a category index.
pub open spec fn family_char(i: int) -> char {
    if i < 9 {
        'm'
    } else if i < 18 {
        'p'
    } else if i < 27 {
        's'
    } else {
        'z'
    }
}

/// Rank of a category within its family, 1-based.
pub open spec fn tile_digit(i: int) -> int {
    if i < 27 {
        i % 9 + 1
    } else {
        i - 27 + 1
    }
}

/// The two-character name of a category: rank digit, family letter.
pub open spec fn tile_str_spec(i: int) -> Seq<char> {
    seq![digit_char(tile_digit(i)), family_char(i)]
}

/// Two distinct categories render to distinct names.
pub proof fn lemma_tile_str_inj(i1: int, i2: int)
    requires
        0 <= i1 < 34,
        0 <= i2 < 34,
        tile_str_spec(i1) == tile_str_spec(i2),
    ensures
        i1 == i2,
{
    assert(tile_str_spec(i1)[0] == tile_str_spec(i2)[0]);
    assert(tile_str_spec(i1)[1] == tile_str_spec(i2)[1]);
}

impl Hand {
    /// Render a category index back to its textual name.
    pub fn to_tile_string(index: usize) -> (r: String)
        requires
            index < 34,
        ensures
            r@ == tile_str_spec(index as int),
    {
        proof {
            reveal_strlit("1");
            reveal_strlit("2");
            reveal_strlit("3");
            reveal_strlit("4");
            reveal_strlit("5");
            reveal_strlit("6");
            reveal_strlit("7");
            reveal_strlit("8");
            reveal_strlit("9");
            reveal_strlit("0");
            reveal_strlit("m");
            reveal_strlit("p");
            reveal_strlit("s");
            reveal_strlit("z");
        }
        let d: usize = if index < 27 {
            index % 9 + 1
        } else {
            index - 27 + 1
        };
        let ds: &str = match d {
            1 => "1",
            2 => "2",
            3 => "3",
            4 => "4",
            5 => "5",
            6 => "6",
            7 => "7",
            8 => "8",
            9 => "9",
            _ => "0",
        };
        let fs: &str = if index < 9 {
            "m"
        } else if index < 18 {
            "p"
        } else if index < 27 {
            "s"
        } else {
            "z"
        };
        let r = String::from_str(ds).concat(fs);
        proof {
            assert(r@ =~= tile_str_spec(index as int));
        }
        r
    }
}

} // verus!
