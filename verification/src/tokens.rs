use vstd::prelude::*;

use crate::outside::{lower_of, lowercase};
use vstd::string::StrSliceExecFns;
use vstd::string::StringExecFns;

verus! {

/// The characters on which free text is cut into tags: Unicode whitespace,
/// ASCII control characters, and a fixed punctuation set. The set is a
/// strict superset of the characters that `filter_path` rewrites, so any
/// character surviving in a sanitized path segment is also a tag boundary.
pub open spec fn spec_tag_sep(c: char) -> bool {
    spec_unicode_space(c) || spec_ascii_control(c) || spec_tag_punct(c)
}

/// The Unicode characters with the `White_Space` property, written out.
pub open spec fn spec_unicode_space(c: char) -> bool {
    let u = c as u32;
    (9 <= u && u <= 13) || u == 32 || u == 0x85 || u == 0xA0 || u == 0x1680 || (0x2000 <= u
        && u <= 0x200A) || u == 0x2028 || u == 0x2029 || u == 0x202F || u == 0x205F || u == 0x3000
}

/// The ASCII control characters: 0x00 through 0x1F, and 0x7F.
pub open spec fn spec_ascii_control(c: char) -> bool {
    let u = c as u32;
    u <= 0x1F || u == 0x7F
}

/// The punctuation characters that end a tag.
pub open spec fn spec_tag_punct(c: char) -> bool {
    c == '/' || c == '<' || c == '>' || c == ':' || c == '"' || c == '\\' || c == '|' || c == '?'
        || c == '*' || c == '_' || c == '-' || c == '.' || c == ',' || c == '\'' || c == '('
        || c == ')'
}

/// Whether `c` ends a tag. Must stay a superset of the characters that
/// `filter_path` rewrites.
pub fn tag_splitter(c: char) -> (r: bool)
    ensures
        r == spec_tag_sep(c),
{
    let u = c as u32;
    (9 <= u && u <= 13) || u == 32 || u == 0x85 || u == 0xA0 || u == 0x1680 || (0x2000 <= u
        && u <= 0x200A) || u == 0x2028 || u == 0x2029 || u == 0x202F || u == 0x205F || u == 0x3000
        || u <= 0x1F || u == 0x7F || c == '/' || c == '<' || c == '>' || c == ':' || c == '"'
        || c == '\\' || c == '|' || c == '?' || c == '*' || c == '_' || c == '-' || c == '.'
        || c == ',' || c == '\'' || c == '(' || c == ')'
}

/// The stopwords that never become tags.
pub open spec fn spec_stopword(t: Seq<char>) -> bool {
    t == "a"@ || t == "an"@ || t == "the"@ || t == "of"@ || t == "in"@ || t == "on"@ || t == "to"@
        || t == "t"@ || t == "s"@
}

/// Character-wise string equality.
pub fn eq_str(a: &str, b: &str) -> (r: bool)
    ensures
        r == (a@ == b@),
{
    let n = a.unicode_len();
    if n != b.unicode_len() {
        return false;
    }
    let mut i: usize = 0;
    while i < n
        invariant
            n == a@.len(),
            n == b@.len(),
            i <= n,
            forall|k: int| 0 <= k < i ==> a@[k] == b@[k],
        decreases n - i,
    {
        if a.get_char(i) != b.get_char(i) {
            return false;
        }
        i += 1;
    }
    proof {
        assert(a@ =~= b@);
    }
    true
}

/// Whether `tag` is one of the stopwords.
pub fn ignored(tag: &str) -> (r: bool)
    ensures
        r == spec_stopword(tag@),
{
    eq_str(tag, "a") || eq_str(tag, "an") || eq_str(tag, "the") || eq_str(tag, "of") || eq_str(
        tag,
        "in",
    ) || eq_str(tag, "on") || eq_str(tag, "to") || eq_str(tag, "t") || eq_str(tag, "s")
}

/// Cutting a character sequence into maximal non-separator runs, carrying
/// the run being built (`cur`) and the finished runs (`acc`). Empty runs are
/// dropped.
pub open spec fn split_acc(
    s: Seq<char>,
    sep: spec_fn(char) -> bool,
    cur: Seq<char>,
    acc: Seq<Seq<char>>,
) -> Seq<Seq<char>>
    decreases s.len(),
{
    if s.len() == 0 {
        if cur.len() > 0 {
            acc.push(cur)
        } else {
            acc
        }
    } else if sep(s[0]) {
        split_acc(
            s.drop_first(),
            sep,
            Seq::empty(),
            if cur.len() > 0 {
                acc.push(cur)
            } else {
                acc
            },
        )
    } else {
        split_acc(s.drop_first(), sep, cur.push(s[0]), acc)
    }
}

/// The non-empty fragments of `s` between separators, in order.
pub open spec fn spec_split(s: Seq<char>, sep: spec_fn(char) -> bool) -> Seq<Seq<char>> {
    split_acc(s, sep, Seq::empty(), Seq::empty())
}

/// The tag separator class as a function value, shared by every mention
/// so that uses of `spec_split_tags` agree on it.
pub open spec fn tag_sep_fn() -> spec_fn(char) -> bool {
    |c: char| spec_tag_sep(c)
}

/// The fragments of `s` between tag separators.
pub open spec fn spec_split_tags(s: Seq<char>) -> Seq<Seq<char>> {
    spec_split(s, tag_sep_fn())
}

/// `ts` with the stopwords removed, order kept.
pub open spec fn spec_keep(ts: Seq<Seq<char>>) -> Seq<Seq<char>>
    decreases ts.len(),
{
    if ts.len() == 0 {
        Seq::empty()
    } else {
        let init = spec_keep(ts.drop_last());
        if spec_stopword(ts.last()) {
            init
        } else {
            init.push(ts.last())
        }
    }
}

/// `ts` with every repetition of an earlier element removed: each distinct
/// element is kept once, at its first occurrence.
pub open spec fn spec_dedup(ts: Seq<Seq<char>>) -> Seq<Seq<char>>
    decreases ts.len(),
{
    if ts.len() == 0 {
        Seq::empty()
    } else {
        let init = spec_dedup(ts.drop_last());
        if init.contains(ts.last()) {
            init
        } else {
            init.push(ts.last())
        }
    }
}

/// The tags of an already-lowercased text: split on the separator class,
/// drop stopwords, keep the first occurrence of each distinct tag.
pub open spec fn spec_tags(s: Seq<char>) -> Seq<Seq<char>> {
    spec_dedup(spec_keep(spec_split_tags(s)))
}

/// Cuts `s` into its maximal runs of non-separator characters.
#[verifier::loop_isolation(false)]
fn split_tag_str(s: &str) -> (r: Vec<String>)
    ensures
        r.deep_view() == spec_split_tags(s@),
{
    let ghost sep = tag_sep_fn();
    let n = s.unicode_len();
    let mut toks: Vec<String> = Vec::new();
    let mut start: usize = 0;
    let mut i: usize = 0;
    proof {
        assert(s@.skip(0) =~= s@);
        assert(s@.subrange(0, 0) =~= Seq::<char>::empty());
        assert(toks.deep_view() =~= Seq::<Seq<char>>::empty());
    }
    while i < n
        invariant
            n == s@.len(),
            start <= i <= n,
            forall|k: int| start <= k < i ==> !sep(s@[k]),
            split_acc(s@, sep, Seq::empty(), Seq::empty()) == split_acc(
                s@.skip(i as int),
                sep,
                s@.subrange(start as int, i as int),
                toks.deep_view(),
            ),
        decreases n - i,
    {
        let c = s.get_char(i);
        let ghost cur = s@.subrange(start as int, i as int);
        let ghost rest = s@.skip(i as int);
        proof {
            assert(rest.len() > 0);
            assert(rest[0] == s@[i as int]);
            assert(rest.drop_first() =~= s@.skip(i as int + 1));
            assert(sep(c) == spec_tag_sep(c));
        }
        if tag_splitter(c) {
            proof {
                assert(split_acc(rest, sep, cur, toks.deep_view()) == split_acc(
                    rest.drop_first(),
                    sep,
                    Seq::<char>::empty(),
                    if cur.len() > 0 {
                        toks.deep_view().push(cur)
                    } else {
                        toks.deep_view()
                    },
                ));
            }
            if start < i {
                let tok = String::from_str(s.substring_char(start, i));
                let ghost old_toks = toks.deep_view();
                toks.push(tok);
                proof {
                    assert(cur.len() > 0);
                    assert(toks.deep_view() =~= old_toks.push(cur));
                }
            } else {
                proof {
                    assert(cur.len() == 0);
                }
            }
            start = i + 1;
            proof {
                assert(s@.subrange(start as int, i as int + 1) =~= Seq::<char>::empty());
            }
        } else {
            proof {
                assert(split_acc(rest, sep, cur, toks.deep_view()) == split_acc(
                    rest.drop_first(),
                    sep,
                    cur.push(rest[0]),
                    toks.deep_view(),
                ));
                assert(cur.push(s@[i as int]) =~= s@.subrange(start as int, i as int + 1));
            }
        }
        i += 1;
    }
    proof {
        assert(s@.skip(n as int) =~= Seq::<char>::empty());
    }
    if start < n {
        let tok = String::from_str(s.substring_char(start, n));
        let ghost old_toks = toks.deep_view();
        let ghost cur = s@.subrange(start as int, n as int);
        toks.push(tok);
        proof {
            assert(toks.deep_view() =~= old_toks.push(cur));
        }
    }
    toks
}

/// Removes the stopwords from `toks`, keeping order.
fn remove_stopwords(toks: &Vec<String>) -> (r: Vec<String>)
    ensures
        r.deep_view() == spec_keep(toks.deep_view()),
{
    let mut kept: Vec<String> = Vec::new();
    let mut j: usize = 0;
    while j < toks.len()
        invariant
            j <= toks.len(),
            kept.deep_view() == spec_keep(toks.deep_view().take(j as int)),
        decreases toks.len() - j,
    {
        proof {
            assert(toks.deep_view().take(j as int + 1).drop_last() =~= toks.deep_view().take(
                j as int,
            ));
            assert(toks.deep_view().take(j as int + 1).last() == toks.deep_view()[j as int]);
        }
        if !ignored(toks[j].as_str()) {
            let ghost old_kept = kept.deep_view();
            kept.push(toks[j].clone());
            proof {
                assert(kept.deep_view() =~= old_kept.push(toks.deep_view()[j as int]));
            }
        }
        j += 1;
    }
    proof {
        assert(toks.deep_view().take(toks.deep_view().len() as int) =~= toks.deep_view());
    }
    kept
}

/// Whether some element of `v` has the characters of `s`.
fn contains_str(v: &Vec<String>, s: &String) -> (r: bool)
    ensures
        r == v.deep_view().contains(s@),
{
    let mut j: usize = 0;
    while j < v.len()
        invariant
            j <= v.len(),
            forall|k: int| 0 <= k < j ==> v.deep_view()[k] != s@,
        decreases v.len() - j,
    {
        if v[j] == *s {
            proof {
                assert(v.deep_view()[j as int] == s@);
            }
            return true;
        }
        j += 1;
    }
    proof {
        assert(forall|k: int| 0 <= k < v.deep_view().len() ==> v.deep_view()[k] != s@);
    }
    false
}

/// Keeps the first occurrence of each distinct element of `toks`.
fn dedup_first(toks: &Vec<String>) -> (r: Vec<String>)
    ensures
        r.deep_view() == spec_dedup(toks.deep_view()),
{
    let mut out: Vec<String> = Vec::new();
    let mut j: usize = 0;
    while j < toks.len()
        invariant
            j <= toks.len(),
            out.deep_view() == spec_dedup(toks.deep_view().take(j as int)),
        decreases toks.len() - j,
    {
        proof {
            assert(toks.deep_view().take(j as int + 1).drop_last() =~= toks.deep_view().take(
                j as int,
            ));
            assert(toks.deep_view().take(j as int + 1).last() == toks.deep_view()[j as int]);
        }
        if !contains_str(&out, &toks[j]) {
            let ghost old_out = out.deep_view();
            out.push(toks[j].clone());
            proof {
                assert(out.deep_view() =~= old_out.push(toks.deep_view()[j as int]));
            }
        }
        j += 1;
    }
    proof {
        assert(toks.deep_view().take(toks.deep_view().len() as int) =~= toks.deep_view());
    }
    out
}

/// Turns free text into its ordered tag list: lowercase the whole text,
/// split it on the separator class, drop empty fragments and stopwords, and
/// keep the first occurrence of each distinct tag.
pub fn text_to_tags(text: &str, tags: &mut Vec<String>)
    ensures
        final(tags).deep_view() == spec_tags(lower_of(text@)),
{
    let low = lowercase(text);
    let toks = split_tag_str(low.as_str());
    let kept = remove_stopwords(&toks);
    let deduped = dedup_first(&kept);
    *tags = deduped;
}

/// Tokens joined with single spaces.
pub open spec fn spec_render(ts: Seq<Seq<char>>) -> Seq<char>
    decreases ts.len(),
{
    if ts.len() == 0 {
        Seq::empty()
    } else if ts.len() == 1 {
        ts[0]
    } else {
        spec_render(ts.drop_last()) + seq![' '] + ts.last()
    }
}

/// Joins tokens with single spaces.
#[verifier::loop_isolation(false)]
pub fn join_tokens(toks: &Vec<String>) -> (r: String)
    ensures
        r@ == spec_render(toks.deep_view()),
{
    let ghost ts = toks.deep_view();
    let mut out = String::new();
    let n = toks.len();
    let mut k: usize = 0;
    proof {
        assert(out@ =~= spec_render(ts.take(0)));
    }
    while k < n
        invariant
            n == toks@.len(),
            k <= n,
            ts == toks.deep_view(),
            out@ == spec_render(ts.take(k as int)),
        decreases n - k,
    {
        proof {
            assert(ts.take(k as int + 1).drop_last() =~= ts.take(k as int));
            assert(ts.take(k as int + 1).last() == ts[k as int]);
            assert(ts.take(k as int + 1)[0] == ts[0]);
        }
        if k > 0 {
            out.push(' ');
        }
        out.append(toks[k].as_str());
        proof {
            if k == 0 {
                assert(out@ =~= spec_render(ts.take(1)));
            } else {
                assert(out@ =~= spec_render(ts.take(k as int + 1)));
            }
        }
        k += 1;
    }
    proof {
        assert(ts.take(n as int) =~= ts);
    }
    out
}


/// A tag that the round-trip law speaks of: non-empty, free of separator
/// characters, and not a stopword.
pub open spec fn valid_tag(t: Seq<char>) -> bool {
    &&& t.len() > 0
    &&& forall|k: int| 0 <= k < t.len() ==> !spec_tag_sep(#[trigger] t[k])
    &&& !spec_stopword(t)
}

/// Splitting walks straight through a separator-free run, accumulating it.
proof fn lemma_split_acc_token(
    tok: Seq<char>,
    rest: Seq<char>,
    sep: spec_fn(char) -> bool,
    cur: Seq<char>,
    acc: Seq<Seq<char>>,
)
    requires
        forall|k: int| 0 <= k < tok.len() ==> !sep(#[trigger] tok[k]),
    ensures
        split_acc(tok + rest, sep, cur, acc) == split_acc(rest, sep, cur + tok, acc),
    decreases tok.len(),
{
    if tok.len() == 0 {
        assert(tok + rest =~= rest);
        assert(cur + tok =~= cur);
    } else {
        let w = tok + rest;
        assert(w.len() > 0);
        assert(w[0] == tok[0]);
        assert(!sep(w[0]));
        assert(w.drop_first() =~= tok.drop_first() + rest);
        assert(forall|k: int|
            0 <= k < tok.drop_first().len() ==> !sep(#[trigger] tok.drop_first()[k]));
        lemma_split_acc_token(tok.drop_first(), rest, sep, cur.push(tok[0]), acc);
        assert(cur.push(tok[0]) + tok.drop_first() =~= cur + tok);
    }
}

/// Rendering also decomposes at the front.
proof fn lemma_render_front(tags: Seq<Seq<char>>)
    requires
        tags.len() >= 2,
    ensures
        spec_render(tags) == tags[0] + seq![' '] + spec_render(tags.drop_first()),
    decreases tags.len(),
{
    if tags.len() == 2 {
        assert(tags.drop_last()[0] == tags[0]);
        assert(spec_render(tags.drop_last()) == tags[0]);
        assert(tags.drop_first().len() == 1);
        assert(tags.drop_first()[0] == tags[1]);
        assert(spec_render(tags.drop_first()) == tags[1]);
        assert(tags.last() == tags[1]);
        assert(tags[0] + seq![' '] + tags[1] =~= spec_render(tags.drop_last()) + seq![' ']
            + tags.last());
    } else {
        let dl = tags.drop_last();
        lemma_render_front(dl);
        assert(dl[0] == tags[0]);
        let mid = dl.drop_first();
        assert(tags.drop_first().len() >= 2);
        assert(tags.drop_first().drop_last() =~= mid);
        assert(tags.drop_first().last() == tags.last());
        assert(spec_render(tags.drop_first()) == spec_render(mid) + seq![' '] + tags.last());
        assert(spec_render(tags) == (tags[0] + seq![' '] + spec_render(mid)) + seq![' ']
            + tags.last());
        assert((tags[0] + seq![' '] + spec_render(mid)) + seq![' '] + tags.last() =~= tags[0]
            + seq![' '] + (spec_render(mid) + seq![' '] + tags.last()));
    }
}

/// Splitting the rendering of separator-free tokens yields them back.
proof fn lemma_split_render(tags: Seq<Seq<char>>, sep: spec_fn(char) -> bool, acc: Seq<Seq<char>>)
    requires
        sep(' '),
        forall|i: int, k: int|
            0 <= i < tags.len() && 0 <= k < tags[i].len() ==> !sep(#[trigger] tags[i][k]),
        forall|i: int| 0 <= i < tags.len() ==> (#[trigger] tags[i]).len() > 0,
    ensures
        split_acc(spec_render(tags), sep, Seq::empty(), acc) == acc + tags,
    decreases tags.len(),
{
    if tags.len() == 0 {
        assert(spec_render(tags).len() == 0);
        assert(acc + tags =~= acc);
    } else if tags.len() == 1 {
        let tok = tags[0];
        assert(spec_render(tags) == tok);
        assert(forall|k: int| 0 <= k < tok.len() ==> !sep(#[trigger] tok[k]));
        assert(tok + Seq::<char>::empty() =~= tok);
        lemma_split_acc_token(tok, Seq::empty(), sep, Seq::empty(), acc);
        assert(Seq::<char>::empty() + tok =~= tok);
        assert(split_acc(Seq::<char>::empty(), sep, tok, acc) == acc.push(tok));
        assert(acc.push(tok) =~= acc + tags);
    } else {
        lemma_render_front(tags);
        let tok = tags[0];
        let rest = seq![' '] + spec_render(tags.drop_first());
        assert(spec_render(tags) =~= tok + rest);
        assert(forall|k: int| 0 <= k < tok.len() ==> !sep(#[trigger] tok[k]));
        lemma_split_acc_token(tok, rest, sep, Seq::empty(), acc);
        assert(Seq::<char>::empty() + tok =~= tok);
        assert(rest[0] == ' ');
        assert(rest.drop_first() =~= spec_render(tags.drop_first()));
        assert(split_acc(rest, sep, tok, acc) == split_acc(
            spec_render(tags.drop_first()),
            sep,
            Seq::empty(),
            acc.push(tok),
        ));
        assert(forall|i: int, k: int|
            0 <= i < tags.drop_first().len() && 0 <= k < tags.drop_first()[i].len()
                ==> !sep(#[trigger] tags.drop_first()[i][k]));
        assert(forall|i: int|
            0 <= i < tags.drop_first().len() ==> (#[trigger] tags.drop_first()[i]).len() > 0);
        lemma_split_render(tags.drop_first(), sep, acc.push(tok));
        assert(acc.push(tok) + tags.drop_first() =~= acc + tags);
    }
}

/// Stopword removal leaves a stopword-free list unchanged.
proof fn lemma_keep_id(ts: Seq<Seq<char>>)
    requires
        forall|i: int| 0 <= i < ts.len() ==> !spec_stopword(#[trigger] ts[i]),
    ensures
        spec_keep(ts) == ts,
    decreases ts.len(),
{
    if ts.len() > 0 {
        assert(forall|i: int|
            0 <= i < ts.drop_last().len() ==> !spec_stopword(#[trigger] ts.drop_last()[i]));
        lemma_keep_id(ts.drop_last());
        assert(!spec_stopword(ts.last()));
        assert(ts.drop_last().push(ts.last()) =~= ts);
    }
}

/// Deduplication leaves a duplicate-free list unchanged.
proof fn lemma_dedup_id(ts: Seq<Seq<char>>)
    requires
        forall|i: int, j: int| 0 <= i < j < ts.len() ==> ts[i] != ts[j],
    ensures
        spec_dedup(ts) == ts,
    decreases ts.len(),
{
    if ts.len() > 0 {
        let dl = ts.drop_last();
        assert(forall|i: int, j: int| 0 <= i < j < dl.len() ==> dl[i] != dl[j]);
        lemma_dedup_id(dl);
        assert(!dl.contains(ts.last())) by {
            if dl.contains(ts.last()) {
                let w = choose|w: int| 0 <= w < dl.len() && dl[w] == ts.last();
                assert(ts[w] == ts[ts.len() - 1]);
            }
        }
        assert(dl.push(ts.last()) =~= ts);
    }
}

/// Tokenization inverts rendering: distinct, separator-free, non-stopword
/// tags joined with single spaces tokenize back to exactly that tag list,
/// in order. (The Unicode lowercasing step sits in front of the splitting
/// pipeline and is outside code, so the law is stated of the pipeline.)
pub proof fn lemma_tags_round_trip(tags: Seq<Seq<char>>)
    requires
        forall|i: int| 0 <= i < tags.len() ==> valid_tag(#[trigger] tags[i]),
        forall|i: int, j: int| 0 <= i < j < tags.len() ==> tags[i] != tags[j],
    ensures
        spec_tags(spec_render(tags)) == tags,
{
    let sep = tag_sep_fn();
    assert(sep(' '));
    assert(forall|i: int, k: int|
        0 <= i < tags.len() && 0 <= k < tags[i].len() ==> !sep(#[trigger] tags[i][k])) by {
        assert(forall|i: int, k: int|
            0 <= i < tags.len() && 0 <= k < tags[i].len() ==> !spec_tag_sep(
                #[trigger] tags[i][k],
            ));
    }
    lemma_split_render(tags, sep, Seq::empty());
    assert(Seq::<Seq<char>>::empty() + tags =~= tags);
    assert(spec_split_tags(spec_render(tags)) == tags);
    assert(forall|i: int| 0 <= i < tags.len() ==> !spec_stopword(#[trigger] tags[i]));
    lemma_keep_id(tags);
    lemma_dedup_id(tags);
}


/// Every element of a deduplicated list occurs in the original list.
proof fn lemma_dedup_elems(ts: Seq<Seq<char>>)
    ensures
        forall|i: int|
            0 <= i < spec_dedup(ts).len() ==> ts.contains(#[trigger] spec_dedup(ts)[i]),
    decreases ts.len(),
{
    if ts.len() > 0 {
        lemma_dedup_elems(ts.drop_last());
        assert forall|i: int|
            0 <= i < spec_dedup(ts).len() implies ts.contains(#[trigger] spec_dedup(ts)[i]) by {
            let init = spec_dedup(ts.drop_last());
            if i < init.len() {
                assert(ts.drop_last().contains(init[i]));
                let w = choose|w: int| 0 <= w < ts.drop_last().len() && ts.drop_last()[w] == init[i];
                assert(ts[w] == init[i]);
            } else {
                assert(spec_dedup(ts)[i] == ts.last());
                assert(ts[ts.len() - 1] == ts.last());
            }
        }
    }
}

/// No stopword survives the filtering pass.
proof fn lemma_keep_no_stopwords(ts: Seq<Seq<char>>)
    ensures
        forall|i: int|
            0 <= i < spec_keep(ts).len() ==> !spec_stopword(#[trigger] spec_keep(ts)[i]),
    decreases ts.len(),
{
    if ts.len() > 0 {
        lemma_keep_no_stopwords(ts.drop_last());
        let init = spec_keep(ts.drop_last());
        assert forall|i: int|
            0 <= i < spec_keep(ts).len() implies !spec_stopword(#[trigger] spec_keep(ts)[i]) by {
            if i < init.len() {
                assert(spec_keep(ts)[i] == init[i]);
            }
        }
    }
}

/// Stopwords never appear among the tags of any text.
pub proof fn lemma_tags_no_stopwords(s: Seq<char>)
    ensures
        forall|i: int|
            0 <= i < spec_tags(s).len() ==> !spec_stopword(#[trigger] spec_tags(s)[i]),
{
    let kept = spec_keep(spec_split_tags(s));
    lemma_keep_no_stopwords(spec_split_tags(s));
    lemma_dedup_elems(kept);
    assert forall|i: int|
        0 <= i < spec_tags(s).len() implies !spec_stopword(#[trigger] spec_tags(s)[i]) by {
        assert(kept.contains(spec_tags(s)[i]));
        let w = choose|w: int| 0 <= w < kept.len() && kept[w] == spec_tags(s)[i];
    }
}

/// Deduplication leaves no two equal elements behind.
proof fn lemma_dedup_distinct(ts: Seq<Seq<char>>)
    ensures
        forall|i: int, j: int|
            0 <= i < j < spec_dedup(ts).len() ==> spec_dedup(ts)[i] != spec_dedup(ts)[j],
    decreases ts.len(),
{
    if ts.len() > 0 {
        lemma_dedup_distinct(ts.drop_last());
        let init = spec_dedup(ts.drop_last());
        assert forall|i: int, j: int|
            0 <= i < j < spec_dedup(ts).len() implies spec_dedup(ts)[i] != spec_dedup(ts)[j] by {
            if j == spec_dedup(ts).len() - 1 && spec_dedup(ts).len() > init.len() {
                if spec_dedup(ts)[i] == ts.last() {
                    assert(init[i] == ts.last());
                    assert(init.contains(ts.last()));
                }
            }
        }
    }
}

/// The tags of any text are pairwise distinct: duplicates are collapsed.
pub proof fn lemma_tags_distinct(s: Seq<char>)
    ensures
        forall|i: int, j: int|
            0 <= i < j < spec_tags(s).len() ==> spec_tags(s)[i] != spec_tags(s)[j],
{
    lemma_dedup_distinct(spec_keep(spec_split_tags(s)));
}

} // verus!
