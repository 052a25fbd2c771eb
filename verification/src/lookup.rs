use vstd::prelude::*;

use crate::index::bviews_of;
use crate::index::idx_contains;
use crate::index::Bucket;
use crate::index::Imdb;
use crate::outside::lev_of;
use crate::outside::levenshtein;
use crate::outside::lower_of;
use crate::outside::lowercase;
use crate::title::views_of;
use crate::title::Title;
use crate::title::TitleKind;
use crate::title::TitleView;
use crate::tokens::spec_tags;
use crate::tokens::text_to_tags;
use vstd::arithmetic::div_mod::lemma_div_is_ordered;
use vstd::arithmetic::div_mod::lemma_div_multiples_vanish;
use vstd::arithmetic::div_mod::lemma_div_pos_is_pos;
use vstd::arithmetic::mul::lemma_mul_inequality;
use vstd::string::StrSliceExecFns;

verus! {

/// Similarity is measured in parts per million: 1.0 scales to this value.
pub const SIM_SCALE: u64 = 1000000;

/// The approximate-tie band: scores within 0.01 of the best, in score
/// units (similarity scaled by the two hundredth-valued multipliers).
pub const SCORE_MARGIN: u64 = 100000000;

/// The normalized similarity of two strings, in parts per million: the
/// edit distance scaled against the longer length, 1.0 for two empty
/// strings, symmetric because the edit distance is.
pub open spec fn spec_sim(a: Seq<char>, b: Seq<char>) -> int {
    let ml = if a.len() >= b.len() {
        a.len() as int
    } else {
        b.len() as int
    };
    let d = lev_of(a, b) as int;
    if ml == 0 {
        SIM_SCALE as int
    } else if d >= ml {
        0
    } else {
        ((ml - d) * SIM_SCALE as int) / ml
    }
}

/// Similarity stays within its scale.
pub proof fn lemma_sim_bounds(a: Seq<char>, b: Seq<char>)
    ensures
        0 <= spec_sim(a, b) <= SIM_SCALE as int,
{
    let ml = if a.len() >= b.len() {
        a.len() as int
    } else {
        b.len() as int
    };
    let d = lev_of(a, b) as int;
    if ml > 0 && d < ml {
        lemma_div_pos_is_pos((ml - d) * SIM_SCALE as int, ml);
        lemma_mul_inequality(ml - d, ml, SIM_SCALE as int);
        lemma_div_is_ordered((ml - d) * SIM_SCALE as int, ml * SIM_SCALE as int, ml);
        lemma_div_multiples_vanish(SIM_SCALE as int, ml);
        assert(ml * SIM_SCALE as int == SIM_SCALE as int * ml) by (nonlinear_arith);
    }
}

/// Computes the normalized similarity of two strings.
fn sim(a: &str, b: &str) -> (r: u64)
    ensures
        r as int == spec_sim(a@, b@),
{
    let la = a.unicode_len();
    let lb = b.unicode_len();
    let ml: usize = if la >= lb {
        la
    } else {
        lb
    };
    let d = levenshtein(a, b);
    proof {
        lemma_sim_bounds(a@, b@);
    }
    if ml == 0 {
        SIM_SCALE
    } else if d >= ml {
        0
    } else {
        let num: u128 = ((ml - d) as u128) * (SIM_SCALE as u128);
        let q: u128 = num / (ml as u128);
        proof {
            assert(num as int == (ml - d) as int * SIM_SCALE as int);
            assert(q as int == ((ml - d) as int * SIM_SCALE as int) / ml as int);
        }
        q as u64
    }
}

/// The score of a candidate record for a query: the best similarity of
/// its lowercased titles against the query text, times 85/100 when a
/// requested year misses the record's year, times 80/100 when the record
/// is not a theatrical movie. Units: similarity in parts per million,
/// then two hundredth-valued multipliers.
pub open spec fn spec_score(t: TitleView, qtext: Seq<char>, year: Option<i32>) -> int {
    let base_p = spec_sim(lower_of(t.primary_title), qtext);
    let base = match t.original_title {
        Some(o) => {
            let base_o = spec_sim(lower_of(o), qtext);
            if base_p >= base_o {
                base_p
            } else {
                base_o
            }
        },
        None => base_p,
    };
    let ym: int = match year {
        Some(y) => if t.year as int != y {
            85
        } else {
            100
        },
        None => 100,
    };
    let km: int = if t.kind is Movie {
        100
    } else {
        80
    };
    base * ym * km
}

/// Scores stay below 10^10, so they fit comfortably in a `u64`.
pub proof fn lemma_score_bounds(t: TitleView, qtext: Seq<char>, year: Option<i32>)
    ensures
        0 <= spec_score(t, qtext, year) <= 10000000000,
{
    lemma_sim_bounds(lower_of(t.primary_title), qtext);
    match t.original_title {
        Some(o) => {
            lemma_sim_bounds(lower_of(o), qtext);
        },
        None => {},
    }
    let base_p = spec_sim(lower_of(t.primary_title), qtext);
    let base = match t.original_title {
        Some(o) => {
            let base_o = spec_sim(lower_of(o), qtext);
            if base_p >= base_o {
                base_p
            } else {
                base_o
            }
        },
        None => base_p,
    };
    let ym: int = match year {
        Some(y) => if t.year as int != y {
            85
        } else {
            100
        },
        None => 100,
    };
    let km: int = if t.kind is Movie {
        100
    } else {
        80
    };
    assert(0 <= base * ym * km <= 10000000000) by (nonlinear_arith)
        requires
            0 <= base <= 1000000,
            80 <= ym <= 100,
            80 <= km <= 100,
    ;
}

/// Computes a candidate's score for the query.
fn score_title(t: &Title, text: &str, year: Option<i32>) -> (r: u64)
    ensures
        r as int == spec_score(t@, text@, year),
{
    proof {
        lemma_score_bounds(t@, text@, year);
        lemma_sim_bounds(lower_of(t@.primary_title), text@);
    }
    let lp = lowercase(t.primary_title());
    let base_p = sim(lp.as_str(), text);
    let base: u64 = match t.original_title() {
        Some(o) => {
            proof {
                lemma_sim_bounds(lower_of(t@.original_title->Some_0), text@);
            }
            let lo = lowercase(o);
            let base_o = sim(lo.as_str(), text);
            if base_p >= base_o {
                base_p
            } else {
                base_o
            }
        },
        None => base_p,
    };
    let ym: u64 = match year {
        Some(y) => if !(t.year as i32 == y) {
            85
        } else {
            100
        },
        None => 100,
    };
    let km: u64 = if matches!(t.kind, TitleKind::Movie) {
        100
    } else {
        80
    };
    base * ym * km
}

/// Whether a record's year lies within one year of the requested year;
/// no requested year admits everything.
pub open spec fn spec_in_window(year: Option<i32>, ty: u16) -> bool {
    match year {
        Some(y) => -1 <= y - ty as int <= 1,
        None => true,
    }
}

/// Tests the hard year window.
fn in_window(year: Option<i32>, ty: u16) -> (r: bool)
    ensures
        r == spec_in_window(year, ty),
{
    match year {
        Some(y) => {
            let diff: i64 = (y as i64) - (ty as i64);
            -1 <= diff && diff <= 1
        },
        None => true,
    }
}

/// How many of the query tags the index pairs with `id`.
pub open spec fn spec_hits(bs: Seq<crate::index::BucketView>, tags: Seq<Seq<char>>, id: u32) -> int
    decreases tags.len(),
{
    if tags.len() == 0 {
        0
    } else {
        spec_hits(bs, tags.drop_last(), id) + if idx_contains(bs, tags.last(), id) {
            1int
        } else {
            0int
        }
    }
}

/// Whether any bucket pairs `tag` with `id`.
#[verifier::loop_isolation(false)]
fn bucket_has(index: &Vec<Bucket>, tag: &String, id: u32) -> (r: bool)
    ensures
        r == idx_contains(bviews_of(index@), tag@, id),
{
    let ghost bs = bviews_of(index@);
    let n = index.len();
    let mut bi: usize = 0;
    while bi < n
        invariant
            n == index@.len(),
            bi <= n,
            forall|l: int|
                0 <= l < bi ==> !((#[trigger] bs[l]).tag == tag@ && bs[l].ids.contains(id)),
        decreases n - bi,
    {
        if index[bi].tag == *tag {
            let m = index[bi].ids.len();
            let mut k: usize = 0;
            while k < m
                invariant
                    bi < index@.len(),
                    m == index@[bi as int].ids@.len(),
                    k <= m,
                    forall|l: int| 0 <= l < k ==> bs[bi as int].ids[l] != id,
                decreases m - k,
            {
                if index[bi].ids[k] == id {
                    proof {
                        assert(bs[bi as int].ids[k as int] == id);
                        assert(bs[bi as int].ids.contains(id));
                    }
                    return true;
                }
                k += 1;
            }
        }
        proof {
            assert(!(bs[bi as int].tag == tag@ && bs[bi as int].ids.contains(id)));
        }
        bi += 1;
    }
    proof {
        assert forall|wb: int|
            0 <= wb < bs.len() implies !((#[trigger] bs[wb]).tag == tag@ && bs[wb].ids.contains(
            id,
        )) by {}
    }
    false
}

/// Counts how many query tags hit `id` in the index.
#[verifier::loop_isolation(false)]
fn count_hits(index: &Vec<Bucket>, tags: &Vec<String>, id: u32) -> (r: usize)
    ensures
        r as int == spec_hits(bviews_of(index@), tags.deep_view(), id),
{
    let ghost bs = bviews_of(index@);
    let ghost tv = tags.deep_view();
    let n = tags.len();
    let mut h: usize = 0;
    let mut k: usize = 0;
    proof {
        assert(tv.take(0) =~= Seq::<Seq<char>>::empty());
    }
    while k < n
        invariant
            n == tags@.len(),
            k <= n,
            h <= k,
            h as int == spec_hits(bs, tv.take(k as int), id),
        decreases n - k,
    {
        proof {
            assert(tv.take(k as int + 1).drop_last() =~= tv.take(k as int));
            assert(tv.take(k as int + 1).last() == tv[k as int]);
            assert(tv[k as int] == tags@[k as int]@);
        }
        if bucket_has(index, &tags[k], id) {
            h += 1;
        }
        k += 1;
    }
    proof {
        assert(tv.take(n as int) =~= tv);
    }
    h
}


/// A candidate for the query: a record whose year passes the hard window
/// and that at least one query tag hits in the index.
pub open spec fn spec_cand(
    vs: Seq<TitleView>,
    bs: Seq<crate::index::BucketView>,
    qtags: Seq<Seq<char>>,
    year: Option<i32>,
    i: int,
) -> bool {
    &&& 0 <= i < vs.len()
    &&& spec_in_window(year, vs[i].year)
    &&& spec_hits(bs, qtags, vs[i].id) > 0
}

/// A candidate tied at the highest tag-overlap count.
pub open spec fn spec_most_common(
    vs: Seq<TitleView>,
    bs: Seq<crate::index::BucketView>,
    qtags: Seq<Seq<char>>,
    year: Option<i32>,
    i: int,
) -> bool {
    &&& spec_cand(vs, bs, qtags, year, i)
    &&& forall|j: int|
        #[trigger] spec_cand(vs, bs, qtags, year, j) ==> spec_hits(bs, qtags, vs[j].id)
            <= spec_hits(bs, qtags, vs[i].id)
}

/// A most-common candidate whose score lies within the approximate-tie
/// band of the best score.
pub open spec fn spec_band(
    vs: Seq<TitleView>,
    bs: Seq<crate::index::BucketView>,
    qtags: Seq<Seq<char>>,
    qtext: Seq<char>,
    year: Option<i32>,
    i: int,
) -> bool {
    &&& spec_most_common(vs, bs, qtags, year, i)
    &&& forall|j: int|
        #[trigger] spec_most_common(vs, bs, qtags, year, j) ==> spec_score(vs[j], qtext, year)
            <= spec_score(vs[i], qtext, year) + SCORE_MARGIN as int
}

/// The record `lookup` returns: the band member with the most votes, ties
/// broken toward the smallest id.
pub open spec fn spec_winner(
    vs: Seq<TitleView>,
    bs: Seq<crate::index::BucketView>,
    qtags: Seq<Seq<char>>,
    qtext: Seq<char>,
    year: Option<i32>,
    i: int,
) -> bool {
    &&& spec_band(vs, bs, qtags, qtext, year, i)
    &&& forall|j: int|
        #[trigger] spec_band(vs, bs, qtags, qtext, year, j) ==> (vs[j].votes < vs[i].votes || (
        vs[j].votes == vs[i].votes && vs[i].id <= vs[j].id))
}

impl Imdb {
    /// Answers a query: tokenize the text, count per-record tag hits under
    /// the hard one-year window, keep the records tied at the highest
    /// count, score them by similarity with the year and kind penalties,
    /// keep the approximate-tie band of the best score, and return the
    /// band member with the most votes (smallest id on a votes tie).
    /// Returns `None` exactly when no query tag hits an eligible record;
    /// an unmatched query is a normal outcome, never an error.
    #[verifier::loop_isolation(false)]
    pub fn lookup<'a>(&'a self, text: &str, year: Option<i32>) -> (r: Option<&'a Title>)
        ensures
            ({
                let vs = views_of(self.titles@);
                let bs = bviews_of(self.index@);
                let qtags = spec_tags(lower_of(text@));
                match r {
                    Some(t) => exists|i: int|
                        #[trigger] spec_winner(vs, bs, qtags, text@, year, i) && *t
                            == self.titles@[i],
                    None => forall|i: int| !spec_cand(vs, bs, qtags, year, i),
                }
            }),
            match (r, year) {
                (Some(t), Some(y)) => -1 <= y - t.year as int <= 1,
                _ => true,
            },
    {
        let ghost vs = views_of(self.titles@);
        let ghost bs = bviews_of(self.index@);
        let ghost qt = spec_tags(lower_of(text@));
        let mut tags: Vec<String> = Vec::new();
        text_to_tags(text, &mut tags);

        // Gather candidates: eligible records hit by at least one tag.
        let n = self.titles.len();
        let mut cands: Vec<(usize, usize)> = Vec::new();
        let mut i: usize = 0;
        while i < n
            invariant
                n == self.titles@.len(),
                i <= n,
                vs == views_of(self.titles@),
                bs == bviews_of(self.index@),
                tags.deep_view() == qt,
                forall|k: int|
                    0 <= k < cands@.len() ==> {
                        &&& (#[trigger] cands@[k]).0 < i
                        &&& spec_cand(vs, bs, qt, year, cands@[k].0 as int)
                        &&& cands@[k].1 as int == spec_hits(bs, qt, vs[cands@[k].0 as int].id)
                    },
                forall|j: int|
                    0 <= j < i && #[trigger] spec_cand(vs, bs, qt, year, j) ==> exists|k: int|
                        0 <= k < cands@.len() && (#[trigger] cands@[k]).0 == j,
            decreases n - i,
        {
            let t = &self.titles[i];
            proof {
                assert(vs[i as int] == t@);
            }
            if in_window(year, t.year) {
                let h = count_hits(&self.index, &tags, t.id);
                if h > 0 {
                    let ghost oldc = cands@;
                    cands.push((i, h));
                    proof {
                        assert(cands@[cands@.len() - 1].0 == i);
                        assert forall|j: int|
                            0 <= j < i + 1 && #[trigger] spec_cand(
                                vs,
                                bs,
                                qt,
                                year,
                                j,
                            ) implies exists|k: int|
                            0 <= k < cands@.len() && (#[trigger] cands@[k]).0 == j by {
                            if j < i {
                                let k = choose|k: int|
                                    0 <= k < oldc.len() && (#[trigger] oldc[k]).0 == j;
                                assert(cands@[k].0 == j);
                            } else {
                                assert(cands@[cands@.len() - 1].0 == j);
                            }
                        }
                    }
                }
            }
            proof {
                if !spec_cand(vs, bs, qt, year, i as int) {
                    assert forall|j: int|
                        0 <= j < i + 1 && #[trigger] spec_cand(vs, bs, qt, year, j) implies exists|
                        k: int,
                    | 0 <= k < cands@.len() && (#[trigger] cands@[k]).0 == j by {}
                }
            }
            i += 1;
        }

        if cands.len() == 0 {
            proof {
                assert forall|j: int| !spec_cand(vs, bs, qt, year, j) by {
                    if 0 <= j < vs.len() && spec_cand(vs, bs, qt, year, j) {
                        let k = choose|k: int|
                            0 <= k < cands@.len() && (#[trigger] cands@[k]).0 == j;
                        assert(false);
                    }
                }
            }
            return None;
        }

        // The highest tag-overlap count among the candidates.
        let m = cands.len();
        let mut maxh: usize = cands[0].1;
        let ghost mut att: int = 0;
        let mut k: usize = 1;
        while k < m
            invariant
                m == cands@.len(),
                1 <= k <= m,
                0 <= att < k,
                cands@[att].1 == maxh,
                forall|l: int| 0 <= l < k ==> (#[trigger] cands@[l]).1 <= maxh,
            decreases m - k,
        {
            if cands[k].1 > maxh {
                maxh = cands[k].1;
                proof {
                    att = k as int;
                }
            }
            k += 1;
        }

        proof {
            // A candidate is most-common exactly when its hit count is maxh.
            assert forall|j: int|
                spec_cand(vs, bs, qt, year, j) && spec_hits(bs, qt, vs[j].id)
                    == maxh implies #[trigger] spec_most_common(vs, bs, qt, year, j) by {
                assert forall|j2: int| #[trigger]
                    spec_cand(vs, bs, qt, year, j2) implies spec_hits(bs, qt, vs[j2].id)
                    <= spec_hits(bs, qt, vs[j].id) by {
                    let k2 = choose|k2: int|
                        0 <= k2 < cands@.len() && (#[trigger] cands@[k2]).0 == j2;
                    assert(cands@[k2].1 <= maxh);
                }
            }
            assert forall|j: int| #[trigger]
                spec_most_common(vs, bs, qt, year, j) implies spec_hits(bs, qt, vs[j].id)
                == maxh by {
                let ja = cands@[att].0 as int;
                assert(spec_cand(vs, bs, qt, year, ja));
                assert(spec_hits(bs, qt, vs[ja].id) == maxh);
                assert(spec_hits(bs, qt, vs[ja].id) <= spec_hits(bs, qt, vs[j].id));
                let k2 = choose|k2: int| 0 <= k2 < cands@.len() && (#[trigger] cands@[k2]).0 == j;
                assert(cands@[k2].1 <= maxh);
            }
        }

        // Collect the most-common set and score it.
        let mut mcs: Vec<usize> = Vec::new();
        let mut scores: Vec<u64> = Vec::new();
        let mut k2: usize = 0;
        while k2 < m
            invariant
                m == cands@.len(),
                k2 <= m,
                vs == views_of(self.titles@),
                bs == bviews_of(self.index@),
                mcs@.len() == scores@.len(),
                forall|k: int|
                    0 <= k < cands@.len() ==> {
                        &&& (#[trigger] cands@[k]).0 < self.titles@.len()
                        &&& spec_cand(vs, bs, qt, year, cands@[k].0 as int)
                        &&& cands@[k].1 as int == spec_hits(bs, qt, vs[cands@[k].0 as int].id)
                    },
                forall|l: int|
                    0 <= l < mcs@.len() ==> {
                        &&& (#[trigger] mcs@[l]) < self.titles@.len()
                        &&& spec_most_common(vs, bs, qt, year, mcs@[l] as int)
                        &&& scores@[l] as int == spec_score(vs[mcs@[l] as int], text@, year)
                        &&& scores@[l] <= 10000000000
                    },
                forall|kk: int|
                    0 <= kk < k2 && (#[trigger] cands@[kk]).1 == maxh ==> exists|l: int|
                        0 <= l < mcs@.len() && (#[trigger] mcs@[l]) == cands@[kk].0,
                forall|j: int|
                    spec_cand(vs, bs, qt, year, j) && spec_hits(bs, qt, vs[j].id)
                        == maxh <==> #[trigger] spec_most_common(vs, bs, qt, year, j),
            decreases m - k2,
        {
            if cands[k2].1 == maxh {
                let ti = cands[k2].0;
                let sc = score_title(&self.titles[ti], text, year);
                proof {
                    assert(vs[ti as int] == self.titles@[ti as int]@);
                    lemma_score_bounds(vs[ti as int], text@, year);
                }
                let ghost oldm = mcs@;
                mcs.push(ti);
                scores.push(sc);
                proof {
                    assert forall|kk: int|
                        0 <= kk < k2 + 1 && (#[trigger] cands@[kk]).1 == maxh implies exists|
                        l: int,
                    | 0 <= l < mcs@.len() && (#[trigger] mcs@[l]) == cands@[kk].0 by {
                        if kk < k2 {
                            let l = choose|l: int|
                                0 <= l < oldm.len() && (#[trigger] oldm[l]) == cands@[kk].0;
                            assert(mcs@[l] == cands@[kk].0);
                        } else {
                            assert(mcs@[mcs@.len() - 1] == cands@[kk].0);
                        }
                    }
                }
            }
            k2 += 1;
        }

        proof {
            // The attained maximum puts at least one record in the set.
            assert(cands@[att].1 == maxh);
            assert(exists|l: int| 0 <= l < mcs@.len() && (#[trigger] mcs@[l]) == cands@[att].0);
            // Every most-common record appears in the collected set.
            assert forall|j: int| #[trigger]
                spec_most_common(vs, bs, qt, year, j) implies exists|l: int|
                0 <= l < mcs@.len() && (#[trigger] mcs@[l]) == j by {
                let k = choose|k: int| 0 <= k < cands@.len() && (#[trigger] cands@[k]).0 == j;
                assert(cands@[k].1 == maxh);
            }
        }

        // The best score in the most-common set.
        let mm = mcs.len();
        let mut maxsc: u64 = scores[0];
        let ghost mut satt: int = 0;
        let mut k3: usize = 1;
        while k3 < mm
            invariant
                mm == mcs@.len(),
                mcs@.len() == scores@.len(),
                1 <= k3 <= mm,
                0 <= satt < k3,
                scores@[satt] == maxsc,
                forall|l: int| 0 <= l < k3 ==> (#[trigger] scores@[l]) <= maxsc,
            decreases mm - k3,
        {
            if scores[k3] > maxsc {
                maxsc = scores[k3];
                proof {
                    satt = k3 as int;
                }
            }
            k3 += 1;
        }

        proof {
            // A most-common record is in the band exactly when its score is
            // within the margin of the best score.
            assert forall|j: int|
                spec_most_common(vs, bs, qt, year, j) && maxsc as int <= spec_score(
                    vs[j],
                    text@,
                    year,
                ) + SCORE_MARGIN as int implies #[trigger] spec_band(
                vs,
                bs,
                qt,
                text@,
                year,
                j,
            ) by {
                assert forall|j2: int| #[trigger]
                    spec_most_common(vs, bs, qt, year, j2) implies spec_score(vs[j2], text@, year)
                    <= spec_score(vs[j], text@, year) + SCORE_MARGIN as int by {
                    let l2 = choose|l2: int|
                        0 <= l2 < mcs@.len() && (#[trigger] mcs@[l2]) == j2;
                    assert(scores@[l2] <= maxsc);
                }
            }
            assert forall|j: int| #[trigger]
                spec_band(vs, bs, qt, text@, year, j) implies maxsc as int <= spec_score(
                vs[j],
                text@,
                year,
            ) + SCORE_MARGIN as int by {
                let js = mcs@[satt] as int;
                assert(spec_most_common(vs, bs, qt, year, js));
                assert(spec_score(vs[js], text@, year) == maxsc as int);
                assert(spec_score(vs[js], text@, year) <= spec_score(vs[j], text@, year)
                    + SCORE_MARGIN as int);
            }
        }

        // Pick the band member with the most votes; smallest id on a tie.
        let mut have: bool = false;
        let mut best_i: usize = 0;
        let mut k4: usize = 0;
        while k4 < mm
            invariant
                mm == mcs@.len(),
                mcs@.len() == scores@.len(),
                k4 <= mm,
                vs == views_of(self.titles@),
                bs == bviews_of(self.index@),
                forall|l: int|
                    0 <= l < mcs@.len() ==> {
                        &&& (#[trigger] mcs@[l]) < self.titles@.len()
                        &&& spec_most_common(vs, bs, qt, year, mcs@[l] as int)
                        &&& scores@[l] as int == spec_score(vs[mcs@[l] as int], text@, year)
                    },
                forall|j: int|
                    spec_most_common(vs, bs, qt, year, j) && maxsc as int <= spec_score(
                        vs[j],
                        text@,
                        year,
                    ) + SCORE_MARGIN as int <==> #[trigger] spec_band(vs, bs, qt, text@, year, j),
                have ==> best_i < self.titles@.len() && spec_band(
                    vs,
                    bs,
                    qt,
                    text@,
                    year,
                    best_i as int,
                ),
                have ==> forall|l: int|
                    0 <= l < k4 && (#[trigger] scores@[l]) + SCORE_MARGIN >= maxsc ==> (vs[mcs@[l] as int].votes
                        < vs[best_i as int].votes || (vs[mcs@[l] as int].votes
                        == vs[best_i as int].votes && vs[best_i as int].id
                        <= vs[mcs@[l] as int].id)),
                !have ==> forall|l: int|
                    0 <= l < k4 ==> !((#[trigger] scores@[l]) + SCORE_MARGIN >= maxsc),
            decreases mm - k4,
        {
            proof {
                if scores@[k4 as int] + SCORE_MARGIN >= maxsc {
                    assert(maxsc as int <= spec_score(vs[mcs@[k4 as int] as int], text@, year)
                        + SCORE_MARGIN as int);
                    assert(spec_band(vs, bs, qt, text@, year, mcs@[k4 as int] as int));
                }
            }
            if scores[k4] + SCORE_MARGIN >= maxsc {
                let ti = mcs[k4];
                if !have {
                    have = true;
                    best_i = ti;
                } else {
                    let tv = self.titles[ti].votes;
                    let bv = self.titles[best_i].votes;
                    if tv > bv || (tv == bv && self.titles[ti].id < self.titles[best_i].id) {
                        best_i = ti;
                    }
                }
            }
            k4 += 1;
        }

        proof {
            // The best-scoring record itself is in the band, so one exists.
            let js = mcs@[satt] as int;
            assert(scores@[satt] + SCORE_MARGIN >= maxsc);
            assert(have);
            assert forall|j: int| #[trigger]
                spec_band(vs, bs, qt, text@, year, j) implies (vs[j].votes
                < vs[best_i as int].votes || (vs[j].votes == vs[best_i as int].votes
                && vs[best_i as int].id <= vs[j].id)) by {
                let l = choose|l: int| 0 <= l < mcs@.len() && (#[trigger] mcs@[l]) == j;
                assert(scores@[l] as int == spec_score(vs[j], text@, year));
                assert(scores@[l] + SCORE_MARGIN >= maxsc);
            }
            assert(spec_winner(vs, bs, qt, text@, year, best_i as int));
            assert(spec_cand(vs, bs, qt, year, best_i as int));
        }
        Some(&self.titles[best_i])
    }
}

/// Lookup is deterministic: the winner characterization in `lookup`'s
/// contract picks at most one record of a table with distinct ids, so
/// repeated calls with identical arguments against an unmodified engine
/// return the same record.
pub proof fn lemma_lookup_deterministic(
    vs: Seq<TitleView>,
    bs: Seq<crate::index::BucketView>,
    qtags: Seq<Seq<char>>,
    qtext: Seq<char>,
    year: Option<i32>,
    i: int,
    j: int,
)
    requires
        crate::title::tbl_wf(vs),
        spec_winner(vs, bs, qtags, qtext, year, i),
        spec_winner(vs, bs, qtags, qtext, year, j),
    ensures
        i == j,
{
    if i != j {
        assert(spec_band(vs, bs, qtags, qtext, year, i));
        assert(spec_band(vs, bs, qtags, qtext, year, j));
        assert(vs[i].votes == vs[j].votes);
        assert(vs[i].id == vs[j].id);
    }
}

} // verus!
