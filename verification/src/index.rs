use vstd::prelude::*;

use crate::error::Error;
use crate::ingest::read_titles;
use crate::ingest::read_votes;
use crate::ingest::spec_all_kinds;
use crate::ingest::spec_read_titles;
use crate::ingest::spec_read_votes;
use crate::ingest::spec_rows;
use crate::outside::lower_of;
use crate::ingest::lemma_read_titles_wf;
use crate::title::tbl_wf;
use crate::title::views_of;
use crate::title::Title;
use crate::title::TitleView;
use crate::tokens::eq_str;
use crate::tokens::spec_tags;
use crate::tokens::text_to_tags;

verus! {

/// The vote floor: rows with fewer votes carry no signal and are dropped.
pub const VOTE_FLOOR: u32 = 50;

/// One bucket of the inverted index: a tag and the ids of every record
/// whose titles contain it.
#[derive(Debug)]
pub struct Bucket {
    pub tag: String,
    pub ids: Vec<u32>,
}

/// The mathematical value of a bucket.
pub struct BucketView {
    pub tag: Seq<char>,
    pub ids: Seq<u32>,
}

impl View for Bucket {
    type V = BucketView;

    open spec fn view(&self) -> BucketView {
        BucketView { tag: self.tag@, ids: self.ids@ }
    }
}

/// The views of a whole bucket list.
pub open spec fn bviews_of(s: Seq<Bucket>) -> Seq<BucketView> {
    s.map_values(|b: Bucket| b@)
}

/// Whether some bucket of `bs` pairs `tag` with `id`.
pub open spec fn idx_contains(bs: Seq<BucketView>, tag: Seq<char>, id: u32) -> bool {
    exists|bi: int|
        0 <= bi < bs.len() && (#[trigger] bs[bi]).tag == tag && bs[bi].ids.contains(id)
}

/// Well-formedness of the index: tags are distinct, every bucket holds a
/// non-empty set of distinct ids.
pub open spec fn idx_wf(bs: Seq<BucketView>) -> bool {
    &&& forall|i: int, j: int| 0 <= i < j < bs.len() ==> (#[trigger] bs[i]).tag != (
    #[trigger] bs[j]).tag
    &&& forall|bi: int, i: int, j: int|
        0 <= bi < bs.len() && 0 <= i < j < bs[bi].ids.len() ==> #[trigger] bs[bi].ids[i]
            != #[trigger] bs[bi].ids[j]
    &&& forall|bi: int| 0 <= bi < bs.len() ==> (#[trigger] bs[bi]).ids.len() > 0
}


/// The tags a record contributes to the index: the tags of its primary
/// title, then those of its original title when one exists and differs.
pub open spec fn title_tags(t: TitleView) -> Seq<Seq<char>> {
    spec_tags(lower_of(t.primary_title)) + match t.original_title {
        Some(o) => if o != t.primary_title {
            spec_tags(lower_of(o))
        } else {
            Seq::empty()
        },
        None => Seq::empty(),
    }
}

/// Whether some record of `vs` has id `id` and carries `tag`.
pub open spec fn in_corpus(vs: Seq<TitleView>, tag: Seq<char>, id: u32) -> bool {
    exists|i: int|
        0 <= i < vs.len() && (#[trigger] vs[i]).id == id && title_tags(vs[i]).contains(tag)
}

/// Adds the pair `(tag, id)` to the index: a no-op when already present.
#[verifier::loop_isolation(false)]
fn index_one(buckets: &mut Vec<Bucket>, tag: &String, id: u32)
    requires
        idx_wf(bviews_of(old(buckets)@)),
    ensures
        idx_wf(bviews_of(final(buckets)@)),
        forall|t: Seq<char>, i: u32|
            #[trigger] idx_contains(bviews_of(final(buckets)@), t, i) <==> (idx_contains(
                bviews_of(old(buckets)@),
                t,
                i,
            ) || (t == tag@ && i == id)),
{
    let ghost obs = bviews_of(old(buckets)@);
    let n = buckets.len();
    let mut bi: usize = 0;
    while bi < n
        invariant
            *buckets == *old(buckets),
            n == buckets@.len(),
            bi <= n,
            forall|l: int| 0 <= l < bi ==> (#[trigger] obs[l]).tag != tag@,
        decreases n - bi,
    {
        if buckets[bi].tag == *tag {
            let m = buckets[bi].ids.len();
            let mut k: usize = 0;
            while k < m
                invariant
                    *buckets == *old(buckets),
                    bi < buckets@.len(),
                    m == buckets@[bi as int].ids@.len(),
                    k <= m,
                    forall|l: int| 0 <= l < k ==> obs[bi as int].ids[l] != id,
                decreases m - k,
            {
                if buckets[bi].ids[k] == id {
                    proof {
                        assert(obs[bi as int].ids.contains(id));
                        assert(idx_contains(obs, tag@, id));
                        assert(bviews_of(buckets@) =~= obs);
                        assert(forall|t: Seq<char>, i: u32|
                            #[trigger] idx_contains(bviews_of(buckets@), t, i) <==> (idx_contains(
                                obs,
                                t,
                                i,
                            ) || (t == tag@ && i == id)));
                    }
                    return ;
                }
                k += 1;
            }
            // id not present in this bucket: append it
            let ghost oldb = buckets@[bi as int]@;
            buckets[bi].ids.push(id);
            proof {
                let bs = bviews_of(buckets@);
                assert(bs =~= obs.update(
                    bi as int,
                    BucketView { tag: oldb.tag, ids: oldb.ids.push(id) },
                ));
                assert(bs[bi as int].ids =~= oldb.ids.push(id));
                assert forall|t: Seq<char>, i: u32| #[trigger]
                    idx_contains(bs, t, i) implies (idx_contains(obs, t, i) || (t == tag@ && i
                    == id)) by {
                    let wb = choose|wb: int|
                        0 <= wb < bs.len() && (#[trigger] bs[wb]).tag == t && bs[wb].ids.contains(
                            i,
                        );
                    if wb != bi as int {
                        assert(obs[wb].tag == t && obs[wb].ids.contains(i));
                    } else {
                        if i != id {
                            let wk = choose|wk: int|
                                0 <= wk < bs[wb].ids.len() && bs[wb].ids[wk] == i;
                            assert(oldb.ids[wk] == i);
                            assert(obs[bi as int].ids.contains(i));
                        }
                    }
                }
                assert forall|t: Seq<char>, i: u32|
                    (idx_contains(obs, t, i) || (t == tag@ && i == id)) implies #[trigger]
                    idx_contains(bs, t, i) by {
                    if idx_contains(obs, t, i) {
                        let wb = choose|wb: int|
                            0 <= wb < obs.len() && (#[trigger] obs[wb]).tag == t
                                && obs[wb].ids.contains(i);
                        if wb == bi as int {
                            let wk = choose|wk: int|
                                0 <= wk < obs[wb].ids.len() && obs[wb].ids[wk] == i;
                            assert(bs[wb].ids[wk] == i);
                            assert(bs[wb].ids.contains(i));
                        } else {
                            assert(bs[wb].tag == t && bs[wb].ids.contains(i));
                        }
                    } else {
                        assert(bs[bi as int].ids.last() == id);
                        assert(bs[bi as int].ids.contains(id));
                    }
                }
                assert(idx_wf(bs)) by {
                    assert(oldb == obs[bi as int]);
                    assert(forall|l: int|
                        0 <= l < bs.len() && l != bi as int ==> bs[l] == obs[l]);
                    assert forall|ww: int, i: int, j: int|
                        0 <= ww < bs.len() && 0 <= i < j < bs[ww].ids.len() implies #[trigger]
                    bs[ww].ids[i] != #[trigger] bs[ww].ids[j] by {
                        if ww == bi as int {
                            if j == bs[ww].ids.len() - 1 {
                                assert(bs[ww].ids[j] == id);
                                assert(bs[ww].ids[i] == oldb.ids[i]);
                                assert(obs[bi as int].ids[i] != id);
                            } else {
                                assert(bs[ww].ids[i] == oldb.ids[i]);
                                assert(bs[ww].ids[j] == oldb.ids[j]);
                                assert(obs[bi as int].ids[i] != obs[bi as int].ids[j]);
                            }
                        } else {
                            assert(obs[ww].ids[i] != obs[ww].ids[j]);
                        }
                    }
                }
            }
            return ;
        }
        proof {
            assert(obs[bi as int].tag != tag@);
        }
        bi += 1;
    }
    // no bucket holds this tag yet
    let mut ids: Vec<u32> = Vec::new();
    ids.push(id);
    let b = Bucket { tag: tag.clone(), ids };
    buckets.push(b);
    proof {
        let bs = bviews_of(buckets@);
        assert(bs =~= obs.push(BucketView { tag: tag@, ids: seq![id] }));
        assert(bs.last().ids[0] == id);
        assert(bs.last().ids.contains(id));
        assert(idx_contains(bs, tag@, id));
        assert forall|t: Seq<char>, i: u32| #[trigger]
            idx_contains(bs, t, i) implies (idx_contains(obs, t, i) || (t == tag@ && i == id)) by {
            let wb = choose|wb: int|
                0 <= wb < bs.len() && (#[trigger] bs[wb]).tag == t && bs[wb].ids.contains(i);
            if wb < obs.len() {
                assert(obs[wb].tag == t && obs[wb].ids.contains(i));
            } else {
                let wk = choose|wk: int| 0 <= wk < bs[wb].ids.len() && bs[wb].ids[wk] == i;
                assert(wk == 0);
            }
        }
        assert forall|t: Seq<char>, i: u32|
            (idx_contains(obs, t, i) || (t == tag@ && i == id)) implies #[trigger] idx_contains(
            bs,
            t,
            i,
        ) by {
            if idx_contains(obs, t, i) {
                let wb = choose|wb: int|
                    0 <= wb < obs.len() && (#[trigger] obs[wb]).tag == t && obs[wb].ids.contains(
                        i,
                    );
                assert(bs[wb].tag == t && bs[wb].ids.contains(i));
            }
        }
        assert(idx_wf(bs)) by {
            assert(forall|l: int| 0 <= l < obs.len() ==> bs[l] == obs[l]);
            assert(forall|l: int| 0 <= l < obs.len() ==> (#[trigger] obs[l]).tag != tag@);
        }
    }
}

/// Adds every `(tag, id)` pair of `tags` to the index.
#[verifier::loop_isolation(false)]
fn index_tag_list(buckets: &mut Vec<Bucket>, tags: &Vec<String>, id: u32)
    requires
        idx_wf(bviews_of(old(buckets)@)),
    ensures
        idx_wf(bviews_of(final(buckets)@)),
        forall|t: Seq<char>, i: u32|
            #[trigger] idx_contains(bviews_of(final(buckets)@), t, i) <==> (idx_contains(
                bviews_of(old(buckets)@),
                t,
                i,
            ) || (tags.deep_view().contains(t) && i == id)),
{
    let ghost obs = bviews_of(old(buckets)@);
    let n = tags.len();
    let mut k: usize = 0;
    while k < n
        invariant
            n == tags@.len(),
            k <= n,
            idx_wf(bviews_of(buckets@)),
            forall|t: Seq<char>, i: u32|
                #[trigger] idx_contains(bviews_of(buckets@), t, i) <==> (idx_contains(obs, t, i)
                    || (tags.deep_view().take(k as int).contains(t) && i == id)),
        decreases n - k,
    {
        index_one(buckets, &tags[k], id);
        proof {
            let tk = tags.deep_view();
            assert(tk[k as int] == tags@[k as int]@);
            assert forall|t: Seq<char>|
                tk.take(k as int + 1).contains(t) implies (tk.take(k as int).contains(t) || t
                == tk[k as int]) by {
                let w = choose|w: int|
                    0 <= w < tk.take(k as int + 1).len() && #[trigger] tk.take(
                        k as int + 1,
                    )[w] == t;
                if w < k as int {
                    assert(tk.take(k as int)[w] == t);
                }
            }
            assert forall|t: Seq<char>|
                (tk.take(k as int).contains(t) || t == tk[k as int]) implies tk.take(
                k as int + 1,
            ).contains(t) by {
                if tk.take(k as int).contains(t) {
                    let w = choose|w: int|
                        0 <= w < tk.take(k as int).len() && #[trigger] tk.take(
                            k as int,
                        )[w] == t;
                    assert(tk.take(k as int + 1)[w] == t);
                } else {
                    assert(tk.take(k as int + 1)[k as int] == t);
                }
            }
        }
        k += 1;
    }
    proof {
        assert(tags.deep_view().take(n as int) =~= tags.deep_view());
    }
}

/// Builds the inverted index over a record table: every tag of every
/// record's titles maps to the set of record ids carrying it. The result
/// is characterized purely by which `(tag, id)` pairs it holds, so any
/// permutation of the table builds the same buckets as sets.
#[verifier::loop_isolation(false)]
pub fn build_reverse_index(titles: &Vec<Title>) -> (r: Vec<Bucket>)
    ensures
        idx_wf(bviews_of(r@)),
        forall|t: Seq<char>, i: u32|
            #[trigger] idx_contains(bviews_of(r@), t, i) <==> in_corpus(
                views_of(titles@),
                t,
                i,
            ),
{
    let ghost vs = views_of(titles@);
    let mut buckets: Vec<Bucket> = Vec::new();
    let mut tags: Vec<String> = Vec::new();
    let n = titles.len();
    let mut i: usize = 0;
    proof {
        assert(bviews_of(buckets@) =~= Seq::<BucketView>::empty());
    }
    while i < n
        invariant
            n == titles@.len(),
            i <= n,
            vs == views_of(titles@),
            idx_wf(bviews_of(buckets@)),
            forall|t: Seq<char>, idv: u32|
                #[trigger] idx_contains(bviews_of(buckets@), t, idv) <==> in_corpus(
                    vs.take(i as int),
                    t,
                    idv,
                ),
        decreases n - i,
    {
        let ghost tv = vs[i as int];
        let title = &titles[i];
        proof {
            assert(tv == title@);
        }
        let ghost before = bviews_of(buckets@);
        text_to_tags(title.primary_title(), &mut tags);
        index_tag_list(&mut buckets, &tags, title.id);
        let ghost mid = bviews_of(buckets@);
        let ghost ptags = spec_tags(lower_of(tv.primary_title));
        let ghost otags = title_tags(tv).skip(ptags.len() as int);
        proof {
            assert(title_tags(tv).take(ptags.len() as int) =~= ptags);
        }
        match title.original_title() {
            Some(orig) => {
                if !eq_str(orig, title.primary_title()) {
                    text_to_tags(orig, &mut tags);
                    index_tag_list(&mut buckets, &tags, title.id);
                    proof {
                        assert(otags =~= spec_tags(lower_of(orig@)));
                    }
                } else {
                    proof {
                        assert(otags =~= Seq::<Seq<char>>::empty());
                    }
                }
            },
            None => {
                proof {
                    assert(otags =~= Seq::<Seq<char>>::empty());
                }
            },
        }
        proof {
            let now = bviews_of(buckets@);
            assert forall|t: Seq<char>, idv: u32| #[trigger]
                idx_contains(now, t, idv) implies in_corpus(vs.take(i as int + 1), t, idv) by {
                if idx_contains(before, t, idv) {
                    assert(in_corpus(vs.take(i as int), t, idv));
                    let w = choose|w: int|
                        0 <= w < vs.take(i as int).len() && (#[trigger] vs.take(
                            i as int,
                        )[w]).id == idv && title_tags(vs.take(i as int)[w]).contains(t);
                    assert(vs.take(i as int + 1)[w] == vs[w]);
                    assert(in_corpus(vs.take(i as int + 1), t, idv));
                } else {
                    assert(idv == tv.id);
                    assert(ptags.contains(t) || otags.contains(t));
                    assert(title_tags(tv).contains(t)) by {
                        if ptags.contains(t) {
                            let w = choose|w: int| 0 <= w < ptags.len() && ptags[w] == t;
                            assert(title_tags(tv)[w] == t);
                        } else {
                            let w = choose|w: int| 0 <= w < otags.len() && otags[w] == t;
                            assert(title_tags(tv)[w + ptags.len()] == t);
                        }
                    }
                    assert(vs.take(i as int + 1)[i as int] == tv);
                    assert(in_corpus(vs.take(i as int + 1), t, idv));
                }
            }
            assert forall|t: Seq<char>, idv: u32|
                in_corpus(vs.take(i as int + 1), t, idv) implies #[trigger] idx_contains(
                now,
                t,
                idv,
            ) by {
                let w = choose|w: int|
                    0 <= w < vs.take(i as int + 1).len() && (#[trigger] vs.take(
                        i as int + 1,
                    )[w]).id == idv && title_tags(vs.take(i as int + 1)[w]).contains(t);
                if w < i as int {
                    assert(vs.take(i as int)[w] == vs[w]);
                    assert(in_corpus(vs.take(i as int), t, idv));
                    assert(idx_contains(before, t, idv));
                } else {
                    assert(vs.take(i as int + 1)[w] == tv);
                    assert(title_tags(tv).contains(t));
                    let u = choose|u: int| 0 <= u < title_tags(tv).len() && title_tags(tv)[u] == t;
                    if u < ptags.len() {
                        assert(ptags[u] == t);
                        assert(ptags.contains(t));
                        assert(idx_contains(mid, t, idv));
                    } else {
                        assert(otags[u - ptags.len()] == t);
                        assert(otags.contains(t));
                    }
                }
            }
        }
        i += 1;
    }
    proof {
        assert(vs.take(n as int) =~= vs);
    }
    buckets
}


/// The engine: the record table and the inverted index over it, built once
/// and read-only afterwards.
#[derive(Debug)]
pub struct Imdb {
    pub titles: Vec<Title>,
    pub index: Vec<Bucket>,
}

impl Imdb {
    /// Record ids in the table are distinct.
    pub open spec fn wf(&self) -> bool {
        tbl_wf(views_of(self.titles@))
    }

    /// The invariant of the index against the table it was built from:
    /// well-formed buckets holding exactly the corpus's `(tag, id)` pairs.
    pub open spec fn index_matches(&self) -> bool {
        &&& idx_wf(bviews_of(self.index@))
        &&& forall|t: Seq<char>, i: u32|
            #[trigger] idx_contains(bviews_of(self.index@), t, i) <==> in_corpus(
                views_of(self.titles@),
                t,
                i,
            )
    }

    /// Ingests the two decompressed tab-separated passes and builds the
    /// engine: the ratings pass with the vote floor, the basics pass with
    /// its filters, then the inverted index. One malformed row fails the
    /// whole build.
    pub fn create_index(titles_text: &str, ratings_text: &str) -> (r: Result<Imdb, Error>)
        ensures
            match r {
                Ok(m) => {
                    &&& spec_read_votes(spec_rows(ratings_text@), VOTE_FLOOR) matches Some(vm)
                        && spec_read_titles(spec_rows(titles_text@), vm, spec_all_kinds()) == Some(
                        views_of(m.titles@),
                    )
                    &&& m.wf()
                    &&& m.index_matches()
                },
                Err(e) => {
                    &&& e == Error::ParseInt
                    &&& match spec_read_votes(spec_rows(ratings_text@), VOTE_FLOOR) {
                        None => true,
                        Some(vm) => spec_read_titles(
                            spec_rows(titles_text@),
                            vm,
                            spec_all_kinds(),
                        ) is None,
                    }
                },
            },
    {
        let votes = match read_votes(ratings_text, VOTE_FLOOR) {
            Ok(v) => v,
            Err(e) => {
                return Err(e);
            },
        };
        let titles = match read_titles(titles_text, &votes) {
            Ok(v) => v,
            Err(e) => {
                return Err(e);
            },
        };
        proof {
            lemma_read_titles_wf(spec_rows(titles_text@), votes@, spec_all_kinds());
        }
        let index = build_reverse_index(&titles);
        Ok(Imdb { titles, index })
    }

    /// How many records the engine holds.
    pub fn len(&self) -> (r: usize)
        ensures
            r == self.titles@.len(),
    {
        self.titles.len()
    }
}


/// The index invariant: every id appearing in any bucket belongs to a
/// record of the table the index was built against. It follows from the
/// characterization that `build_reverse_index` ensures.
pub proof fn lemma_bucket_ids_exist(vs: Seq<TitleView>, bs: Seq<BucketView>)
    requires
        forall|t: Seq<char>, i: u32| #[trigger] idx_contains(bs, t, i) <==> in_corpus(vs, t, i),
    ensures
        forall|t: Seq<char>, i: u32|
            #[trigger] idx_contains(bs, t, i) ==> exists|w: int|
                0 <= w < vs.len() && (#[trigger] vs[w]).id == i,
{
    assert forall|t: Seq<char>, i: u32| #[trigger] idx_contains(bs, t, i) implies exists|w: int|
        0 <= w < vs.len() && (#[trigger] vs[w]).id == i by {
        let w = choose|w: int|
            0 <= w < vs.len() && (#[trigger] vs[w]).id == i && title_tags(vs[w]).contains(t);
        assert(0 <= w < vs.len() && vs[w].id == i);
    }
}

/// Index construction is order-independent: two record tables holding the
/// same records, in any order, carry exactly the same `(tag, id)` pairs,
/// so by `build_reverse_index`'s contract the indexes built from them are
/// identical bucket-for-bucket as sets.
pub proof fn lemma_index_order_independent(vs1: Seq<TitleView>, vs2: Seq<TitleView>)
    requires
        vs1.to_multiset() == vs2.to_multiset(),
    ensures
        forall|t: Seq<char>, i: u32| in_corpus(vs1, t, i) <==> in_corpus(vs2, t, i),
{
    vs1.to_multiset_ensures();
    vs2.to_multiset_ensures();
    assert forall|t: Seq<char>, i: u32| in_corpus(vs1, t, i) implies in_corpus(vs2, t, i) by {
        let w = choose|w: int|
            0 <= w < vs1.len() && (#[trigger] vs1[w]).id == i && title_tags(vs1[w]).contains(t);
        assert(vs1.contains(vs1[w]));
        assert(vs1.to_multiset().count(vs1[w]) > 0);
        assert(vs2.contains(vs1[w]));
        let w2 = choose|w2: int| 0 <= w2 < vs2.len() && vs2[w2] == vs1[w];
        assert(in_corpus(vs2, t, i));
    }
    assert forall|t: Seq<char>, i: u32| in_corpus(vs2, t, i) implies in_corpus(vs1, t, i) by {
        let w = choose|w: int|
            0 <= w < vs2.len() && (#[trigger] vs2[w]).id == i && title_tags(vs2[w]).contains(t);
        assert(vs2.contains(vs2[w]));
        assert(vs2.to_multiset().count(vs2[w]) > 0);
        assert(vs1.contains(vs2[w]));
        let w2 = choose|w2: int| 0 <= w2 < vs1.len() && vs1[w2] == vs2[w];
        assert(in_corpus(vs1, t, i));
    }
}

} // verus!
