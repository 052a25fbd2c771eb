use vstd::prelude::*;

use crate::ingest::spec_digit;
use crate::ingest::spec_digits_val;
use crate::outside::lower_of;
use crate::outside::lowercase;
use crate::tokens::eq_str;
use crate::tokens::join_tokens;
use crate::tokens::spec_render;
use crate::tokens::split_acc;
use vstd::string::StrSliceExecFns;
use vstd::string::StringExecFns;

verus! {

/// The separators that cut a file name into tokens.
pub open spec fn spec_fname_sep(c: char) -> bool {
    c == ' ' || c == '.' || c == '_' || c == '-' || c == ':' || c == '(' || c == ')' || c == '['
        || c == ']'
}

/// Every token lowercased.
pub open spec fn lowers_of(ts: Seq<Seq<char>>) -> Seq<Seq<char>> {
    ts.map_values(|t: Seq<char>| lower_of(t))
}

/// The tokens of a file name: the non-empty fragments between separators,
/// each lowercased.
pub open spec fn spec_fname_tokens(s: Seq<char>) -> Seq<Seq<char>> {
    lowers_of(split_acc(s, |c: char| spec_fname_sep(c), Seq::empty(), Seq::empty()))
}

/// Cuts a file name into its lowercased tokens.
#[verifier::loop_isolation(false)]
pub fn parse_filename(name: &str) -> (r: Vec<String>)
    ensures
        r.deep_view() == spec_fname_tokens(name@),
{
    let ghost sep = |c: char| spec_fname_sep(c);
    let n = name.unicode_len();
    let mut toks: Vec<String> = Vec::new();
    let ghost mut raw: Seq<Seq<char>> = Seq::empty();
    let mut start: usize = 0;
    let mut i: usize = 0;
    proof {
        assert(name@.skip(0) =~= name@);
        assert(name@.subrange(0, 0) =~= Seq::<char>::empty());
        assert(toks.deep_view() =~= lowers_of(raw));
    }
    while i < n
        invariant
            n == name@.len(),
            start <= i <= n,
            split_acc(name@, sep, Seq::empty(), Seq::empty()) == split_acc(
                name@.skip(i as int),
                sep,
                name@.subrange(start as int, i as int),
                raw,
            ),
            toks.deep_view() == lowers_of(raw),
        decreases n - i,
    {
        let c = name.get_char(i);
        let ghost cur = name@.subrange(start as int, i as int);
        let ghost rest = name@.skip(i as int);
        proof {
            assert(rest.len() > 0);
            assert(rest[0] == name@[i as int]);
            assert(rest.drop_first() =~= name@.skip(i as int + 1));
            assert(sep(c) == spec_fname_sep(c));
        }
        let is_sep: bool = c == ' ' || c == '.' || c == '_' || c == '-' || c == ':' || c == '('
            || c == ')' || c == '[' || c == ']';
        if is_sep {
            if start < i {
                let tok = lowercase(name.substring_char(start, i));
                let ghost old_raw = raw;
                toks.push(tok);
                proof {
                    raw = raw.push(cur);
                    assert(lowers_of(raw) =~= lowers_of(old_raw).push(lower_of(cur)));
                    assert(toks.deep_view() =~= lowers_of(raw));
                }
            }
            start = i + 1;
            proof {
                assert(name@.subrange(start as int, i as int + 1) =~= Seq::<char>::empty());
            }
        } else {
            proof {
                assert(cur.push(name@[i as int]) =~= name@.subrange(start as int, i as int + 1));
            }
        }
        i += 1;
    }
    proof {
        assert(name@.skip(n as int) =~= Seq::<char>::empty());
    }
    if start < n {
        let tok = lowercase(name.substring_char(start, n));
        let ghost cur = name@.subrange(start as int, n as int);
        let ghost old_raw = raw;
        toks.push(tok);
        proof {
            raw = raw.push(cur);
            assert(lowers_of(raw) =~= lowers_of(old_raw).push(lower_of(cur)));
            assert(toks.deep_view() =~= lowers_of(raw));
        }
    }
    toks
}

/// A token that reads as a year: exactly four decimal digits.
pub open spec fn spec_is_year(t: Seq<char>) -> bool {
    t.len() == 4 && (forall|k: int| 0 <= k < t.len() ==> spec_digit(#[trigger] t[k]))
}

/// Tests whether a token reads as a year.
#[verifier::loop_isolation(false)]
pub fn is_year(token: &str) -> (r: bool)
    ensures
        r == spec_is_year(token@),
{
    let n = token.unicode_len();
    if n != 4 {
        return false;
    }
    let mut k: usize = 0;
    while k < 4
        invariant
            n == token@.len(),
            n == 4,
            k <= 4,
            forall|l: int| 0 <= l < k ==> spec_digit(#[trigger] token@[l]),
        decreases 4 - k,
    {
        let u = token.get_char(k) as u32;
        if u < 48 || u > 57 {
            return false;
        }
        k += 1;
    }
    true
}

/// The metadata tokens that end a movie title: video quality, video
/// codec, and audio codec markers.
pub open spec fn spec_is_metadata(t: Seq<char>) -> bool {
    ||| t == "2160p"@ || t == "1080p"@ || t == "720p"@ || t == "480p"@ || t == "360p"@ || t
        == "240p"@
    ||| t == "xvid"@ || t == "divx"@ || t == "h264"@ || t == "x264"@ || t == "h265"@ || t
        == "x265"@ || t == "10bit"@
    ||| t == "ac3"@ || t == "aac"@ || t == "aac2"@ || t == "dd5"@ || t == "dd2"@
}

/// Tests whether a token is a metadata marker.
pub fn is_metadata(token: &str) -> (r: bool)
    ensures
        r == spec_is_metadata(token@),
{
    eq_str(token, "2160p") || eq_str(token, "1080p") || eq_str(token, "720p") || eq_str(
        token,
        "480p",
    ) || eq_str(token, "360p") || eq_str(token, "240p") || eq_str(token, "xvid") || eq_str(
        token,
        "divx",
    ) || eq_str(token, "h264") || eq_str(token, "x264") || eq_str(token, "h265") || eq_str(
        token,
        "x265",
    ) || eq_str(token, "10bit") || eq_str(token, "ac3") || eq_str(token, "aac") || eq_str(
        token,
        "aac2",
    ) || eq_str(token, "dd5") || eq_str(token, "dd2")
}

/// The position of the first metadata token, or the token count when
/// there is none.
pub open spec fn spec_first_meta(ts: Seq<Seq<char>>) -> int
    decreases ts.len(),
{
    if ts.len() == 0 {
        0
    } else if spec_is_metadata(ts[0]) {
        0
    } else {
        1 + spec_first_meta(ts.drop_first())
    }
}

proof fn lemma_first_meta_found(ts: Seq<Seq<char>>, j: int)
    requires
        0 <= j < ts.len(),
        spec_is_metadata(ts[j]),
        forall|l: int| 0 <= l < j ==> !spec_is_metadata(#[trigger] ts[l]),
    ensures
        spec_first_meta(ts) == j,
    decreases ts.len(),
{
    if j > 0 {
        assert(forall|l: int|
            0 <= l < j - 1 ==> !spec_is_metadata(#[trigger] ts.drop_first()[l]));
        assert(ts.drop_first()[j - 1] == ts[j]);
        lemma_first_meta_found(ts.drop_first(), j - 1);
    }
}

proof fn lemma_first_meta_absent(ts: Seq<Seq<char>>)
    requires
        forall|l: int| 0 <= l < ts.len() ==> !spec_is_metadata(#[trigger] ts[l]),
    ensures
        spec_first_meta(ts) == ts.len(),
    decreases ts.len(),
{
    if ts.len() > 0 {
        assert(forall|l: int|
            0 <= l < ts.drop_first().len() ==> !spec_is_metadata(#[trigger] ts.drop_first()[l]));
        lemma_first_meta_absent(ts.drop_first());
    }
}

/// The position of the last year-shaped token, or -1.
pub open spec fn spec_last_year(ts: Seq<Seq<char>>) -> int
    decreases ts.len(),
{
    if ts.len() == 0 {
        -1
    } else if spec_is_year(ts.last()) {
        ts.len() - 1
    } else {
        spec_last_year(ts.drop_last())
    }
}

proof fn lemma_last_year_found(ts: Seq<Seq<char>>, j: int)
    requires
        0 <= j < ts.len(),
        spec_is_year(ts[j]),
        forall|l: int| j < l < ts.len() ==> !spec_is_year(#[trigger] ts[l]),
    ensures
        spec_last_year(ts) == j,
    decreases ts.len(),
{
    if j < ts.len() - 1 {
        assert(!spec_is_year(ts.last()));
        assert(ts.drop_last()[j] == ts[j]);
        assert(forall|l: int|
            j < l < ts.drop_last().len() ==> !spec_is_year(#[trigger] ts.drop_last()[l]));
        lemma_last_year_found(ts.drop_last(), j);
    }
}

proof fn lemma_last_year_absent(ts: Seq<Seq<char>>)
    requires
        forall|l: int| 0 <= l < ts.len() ==> !spec_is_year(#[trigger] ts[l]),
    ensures
        spec_last_year(ts) == -1,
    decreases ts.len(),
{
    if ts.len() > 0 {
        assert(forall|l: int|
            0 <= l < ts.drop_last().len() ==> !spec_is_year(#[trigger] ts.drop_last()[l]));
        lemma_last_year_absent(ts.drop_last());
    }
}

/// A digit string of length `n` denotes a value below ten to the `n`.
proof fn lemma_digits_val_upper(s: Seq<char>, bound: int)
    requires
        forall|k: int| 0 <= k < s.len() ==> spec_digit(#[trigger] s[k]),
        s.len() == 4,
        bound == 10000,
    ensures
        0 <= spec_digits_val(s) < bound,
{
    let s3 = s.drop_last();
    let s2 = s3.drop_last();
    let s1 = s2.drop_last();
    let s0 = s1.drop_last();
    assert(s0.len() == 0);
    assert(spec_digits_val(s0) == 0);
    assert(spec_digits_val(s1) <= 9);
    assert(spec_digits_val(s2) <= 99);
    assert(spec_digits_val(s3) <= 999);
    assert(spec_digits_val(s) <= 9999);
    assert(spec_digits_val(s1) >= 0);
    assert(spec_digits_val(s2) >= 0);
    assert(spec_digits_val(s3) >= 0);
    assert(spec_digits_val(s) >= 0);
}

/// What extracting a title and year from a file name yields. The title is
/// everything before the first metadata token; when a year-shaped token
/// occurs, the rightmost one is the release year and the title stops
/// before it, unless nothing would remain of the title.
pub open spec fn spec_parse_movie(s: Seq<char>) -> (Seq<char>, Option<int>) {
    let ts = spec_fname_tokens(s);
    let fm = spec_first_meta(ts);
    let ly = spec_last_year(ts);
    if ly >= 0 {
        let mi = if ly < fm {
            ly
        } else {
            fm
        };
        if mi > 0 {
            (spec_render(ts.take(mi)), Some(spec_digits_val(ts[ly])))
        } else {
            (spec_render(ts.take(fm)), None)
        }
    } else {
        (spec_render(ts.take(fm)), None)
    }
}

/// Extracts the movie title and, when present, the release year from a
/// file name.
#[verifier::loop_isolation(false)]
pub fn parse_movie(filename: &str) -> (r: (String, Option<i32>))
    ensures
        r.0@ == spec_parse_movie(filename@).0,
        match r.1 {
            Some(y) => spec_parse_movie(filename@).1 == Some(y as int),
            None => spec_parse_movie(filename@).1 is None,
        },
{
    let toks = parse_filename(filename);
    let ghost ts = spec_fname_tokens(filename@);
    let n = toks.len();

    // the first metadata token
    let mut fm: usize = n;
    let mut k: usize = 0;
    let mut fm_found: bool = false;
    while k < n && !fm_found
        invariant
            n == toks@.len(),
            k <= n,
            ts == toks.deep_view(),
            fm_found ==> fm < n && spec_is_metadata(ts[fm as int]) && k == fm + 1,
            forall|l: int|
                0 <= l < (if fm_found {
                    fm as int
                } else {
                    k as int
                }) ==> !spec_is_metadata(#[trigger] ts[l]),
            !fm_found ==> fm == n,
        decreases n - k,
    {
        if is_metadata(toks[k].as_str()) {
            fm = k;
            fm_found = true;
        }
        k += 1;
    }
    proof {
        if fm_found {
            lemma_first_meta_found(ts, fm as int);
        } else {
            lemma_first_meta_absent(ts);
        }
        assert(spec_first_meta(ts) == fm as int);
    }

    // the rightmost year-shaped token
    let mut ly: usize = 0;
    let mut ly_found: bool = false;
    let mut k2: usize = 0;
    while k2 < n
        invariant
            n == toks@.len(),
            k2 <= n,
            ts == toks.deep_view(),
            ly_found ==> ly < k2 && spec_is_year(ts[ly as int]) && forall|l: int|
                ly < l < k2 ==> !spec_is_year(#[trigger] ts[l]),
            !ly_found ==> forall|l: int| 0 <= l < k2 ==> !spec_is_year(#[trigger] ts[l]),
        decreases n - k2,
    {
        if is_year(toks[k2].as_str()) {
            ly = k2;
            ly_found = true;
        }
        k2 += 1;
    }
    proof {
        if ly_found {
            lemma_last_year_found(ts, ly as int);
        } else {
            lemma_last_year_absent(ts);
        }
    }

    if ly_found {
        let mi: usize = if ly < fm {
            ly
        } else {
            fm
        };
        if mi > 0 {
            let head = toks_prefix(&toks, mi);
            let title = join_tokens(&head);
            proof {
                lemma_digits_val_upper(ts[ly as int], 10000);
            }
            let y: u32 = match crate::ingest::parse_u32(toks[ly].as_str()) {
                Some(v) => v,
                None => 0,  // unreachable: the token is four digits
            };
            proof {
                assert(crate::ingest::spec_parse_u32(ts[ly as int]) == Some(
                    spec_digits_val(ts[ly as int]) as u32,
                )) by {
                    assert(ts[ly as int].len() > 0 && ts[ly as int][0] != '+');
                }
            }
            (title, Some(y as i32))
        } else {
            let head = toks_prefix(&toks, fm);
            let title = join_tokens(&head);
            (title, None)
        }
    } else {
        let head = toks_prefix(&toks, fm);
        let title = join_tokens(&head);
        (title, None)
    }
}

/// The first `m` tokens.
#[verifier::loop_isolation(false)]
fn toks_prefix(toks: &Vec<String>, m: usize) -> (r: Vec<String>)
    requires
        m <= toks@.len(),
    ensures
        r.deep_view() == toks.deep_view().take(m as int),
{
    let mut out: Vec<String> = Vec::new();
    let mut k: usize = 0;
    proof {
        assert(out.deep_view() =~= toks.deep_view().take(0));
    }
    while k < m
        invariant
            m <= toks@.len(),
            k <= m,
            out.deep_view() == toks.deep_view().take(k as int),
        decreases m - k,
    {
        let ghost old_out = out.deep_view();
        out.push(toks[k].clone());
        proof {
            assert(out.deep_view() =~= toks.deep_view().take(k as int + 1));
        }
        k += 1;
    }
    out
}

} // verus!
