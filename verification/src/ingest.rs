use vstd::prelude::*;

use crate::error::Error;
use crate::title::tbl_wf;
use crate::title::views_of;
use crate::title::Title;
use crate::title::TitleKind;
use crate::title::TitleView;
use crate::tokens::eq_str;
use vstd::string::StrSliceExecFns;
use vstd::string::StringExecFns;

verus! {

/// Whether `c` is an ASCII decimal digit.
pub open spec fn spec_digit(c: char) -> bool {
    48 <= c as u32 && c as u32 <= 57
}

/// The number denoted by a digit string, most significant digit first.
pub open spec fn spec_digits_val(s: Seq<char>) -> int
    decreases s.len(),
{
    if s.len() == 0 {
        0
    } else {
        spec_digits_val(s.drop_last()) * 10 + (s.last() as u32 - 48)
    }
}

/// What parsing a bare digit string yields: at least one digit and a value
/// that fits in a `u32`; anything else is rejected.
pub open spec fn spec_parse_digits(d: Seq<char>) -> Option<u32> {
    if d.len() > 0 && (forall|k: int| 0 <= k < d.len() ==> spec_digit(#[trigger] d[k]))
        && spec_digits_val(d) <= u32::MAX {
        Some(spec_digits_val(d) as u32)
    } else {
        None
    }
}

/// What parsing a decimal `u32` yields: an optional leading `+`, then at
/// least one digit, and a value that fits; anything else is rejected.
pub open spec fn spec_parse_u32(s: Seq<char>) -> Option<u32> {
    if s.len() > 0 && s[0] == '+' {
        spec_parse_digits(s.drop_first())
    } else {
        spec_parse_digits(s)
    }
}

/// A digit string denotes a non-negative number.
proof fn lemma_digits_val_nonneg(s: Seq<char>)
    requires
        forall|k: int| 0 <= k < s.len() ==> spec_digit(#[trigger] s[k]),
    ensures
        spec_digits_val(s) >= 0,
    decreases s.len(),
{
    if s.len() > 0 {
        assert(forall|k: int|
            0 <= k < s.drop_last().len() ==> spec_digit(#[trigger] s.drop_last()[k]));
        lemma_digits_val_nonneg(s.drop_last());
    }
}

/// A longer digit string never denotes a smaller number.
proof fn lemma_digits_val_monotone(s: Seq<char>, j: int)
    requires
        0 <= j <= s.len(),
        forall|k: int| 0 <= k < s.len() ==> spec_digit(#[trigger] s[k]),
    ensures
        spec_digits_val(s) >= spec_digits_val(s.take(j)),
    decreases s.len() - j,
{
    if j == s.len() {
        assert(s.take(j) =~= s);
    } else {
        assert(s.take(j + 1).drop_last() =~= s.take(j));
        assert(forall|k: int| 0 <= k < s.take(j).len() ==> spec_digit(#[trigger] s.take(j)[k]));
        lemma_digits_val_nonneg(s.take(j));
        assert(spec_digits_val(s.take(j + 1)) == spec_digits_val(s.take(j)) * 10 + (s[j] as u32
            - 48));
        assert(spec_digits_val(s.take(j + 1)) >= spec_digits_val(s.take(j)));
        lemma_digits_val_monotone(s, j + 1);
    }
}

/// Parses a decimal `u32` as the corpus fields use them: an optional
/// leading `+`, then digits; rejects anything else, including overflow.
#[verifier::loop_isolation(false)]
pub fn parse_u32(s: &str) -> (r: Option<u32>)
    ensures
        r == spec_parse_u32(s@),
{
    let n = s.unicode_len();
    let mut start: usize = 0;
    if n > 0 && s.get_char(0) == '+' {
        start = 1;
    }
    let ghost d = if s@.len() > 0 && s@[0] == '+' {
        s@.drop_first()
    } else {
        s@
    };
    proof {
        assert(d =~= s@.skip(start as int));
    }
    if start >= n {
        return None;
    }
    let mut v: u32 = 0;
    let mut j: usize = start;
    while j < n
        invariant
            start <= j <= n,
            v as int == spec_digits_val(s@.skip(start as int).take(j - start)),
            forall|k: int| 0 <= k < j - start ==> spec_digit(#[trigger] s@.skip(start as int)[k]),
        decreases n - j,
    {
        let c = s.get_char(j);
        let u = c as u32;
        proof {
            assert(s@.skip(start as int)[j - start] == s@[j as int]);
            assert(s@.skip(start as int).take(j - start + 1).drop_last() =~= s@.skip(
                start as int,
            ).take(j - start));
            assert(s@.skip(start as int).take(j - start + 1).last() == s@[j as int]);
        }
        if u < 48 || u > 57 {
            proof {
                assert(d[j - start] == s@[j as int]);
                assert(0 <= j - start < d.len());
                assert(!spec_digit(d[j - start]));
                assert(!(forall|k: int| 0 <= k < d.len() ==> spec_digit(#[trigger] d[k])));
                assert(spec_parse_digits(d) is None);
                assert(spec_parse_u32(s@) is None);
            }
            return None;
        }
        let dv = u - 48;
        proof {
            assert(spec_digit(d[j - start]));
            assert(spec_digits_val(d.take(j - start + 1)) == v * 10 + dv);
        }
        let overflowed: bool;
        match v.checked_mul(10) {
            Some(w) => {
                match w.checked_add(dv) {
                    Some(w2) => {
                        v = w2;
                        overflowed = false;
                    },
                    None => {
                        overflowed = true;
                    },
                }
            },
            None => {
                overflowed = true;
            },
        }
        if overflowed {
            proof {
                assert(spec_digits_val(d.take(j - start + 1)) > u32::MAX);
                if forall|k: int| 0 <= k < d.len() ==> spec_digit(#[trigger] d[k]) {
                    lemma_digits_val_monotone(d, j - start + 1);
                    assert(spec_digits_val(d) > u32::MAX);
                    assert(spec_parse_digits(d) is None);
                } else {
                    assert(spec_parse_digits(d) is None);
                }
                assert(spec_parse_u32(s@) is None);
            }
            return None;
        }
        j += 1;
    }
    proof {
        assert(d.take(n - start) =~= d);
    }
    Some(v)
}

/// Parses a corpus field that may be the `\N` marker for "absent": `None`
/// for `\N` and for anything that is not a decimal number.
pub fn parse_none(field: &str) -> (r: Option<u32>)
    ensures
        r == spec_parse_none(field@),
{
    if eq_str(field, "\\N") {
        None
    } else {
        parse_u32(field)
    }
}

/// What `parse_none` yields: the absent-marker and malformed numbers alike
/// give `None`.
pub open spec fn spec_parse_none(s: Seq<char>) -> Option<u32> {
    if s == "\\N"@ {
        None
    } else {
        spec_parse_u32(s)
    }
}

/// Cutting a character sequence at every occurrence of `sep`, keeping empty
/// pieces: `n` separators always yield `n + 1` pieces.
pub open spec fn fsplit_acc(s: Seq<char>, sep: char, cur: Seq<char>, acc: Seq<Seq<char>>) -> Seq<
    Seq<char>,
>
    decreases s.len(),
{
    if s.len() == 0 {
        acc.push(cur)
    } else if s[0] == sep {
        fsplit_acc(s.drop_first(), sep, Seq::empty(), acc.push(cur))
    } else {
        fsplit_acc(s.drop_first(), sep, cur.push(s[0]), acc)
    }
}

/// The pieces of `s` between occurrences of `sep`, empty pieces kept.
pub open spec fn spec_split_keep(s: Seq<char>, sep: char) -> Seq<Seq<char>> {
    fsplit_acc(s, sep, Seq::empty(), Seq::empty())
}

/// Cuts `s` at every `sep`, keeping empty pieces.
#[verifier::loop_isolation(false)]
fn split_keep(s: &str, sep: char) -> (r: Vec<String>)
    ensures
        r.deep_view() == spec_split_keep(s@, sep),
{
    let n = s.unicode_len();
    let mut parts: Vec<String> = Vec::new();
    let mut start: usize = 0;
    let mut i: usize = 0;
    proof {
        assert(s@.skip(0) =~= s@);
        assert(s@.subrange(0, 0) =~= Seq::<char>::empty());
        assert(parts.deep_view() =~= Seq::<Seq<char>>::empty());
    }
    while i < n
        invariant
            n == s@.len(),
            start <= i <= n,
            spec_split_keep(s@, sep) == fsplit_acc(
                s@.skip(i as int),
                sep,
                s@.subrange(start as int, i as int),
                parts.deep_view(),
            ),
        decreases n - i,
    {
        let c = s.get_char(i);
        let ghost cur = s@.subrange(start as int, i as int);
        let ghost rest = s@.skip(i as int);
        proof {
            assert(rest.len() > 0);
            assert(rest[0] == s@[i as int]);
            assert(rest.drop_first() =~= s@.skip(i as int + 1));
        }
        if c == sep {
            let piece = String::from_str(s.substring_char(start, i));
            let ghost old_parts = parts.deep_view();
            parts.push(piece);
            proof {
                assert(parts.deep_view() =~= old_parts.push(cur));
            }
            start = i + 1;
            proof {
                assert(s@.subrange(start as int, i as int + 1) =~= Seq::<char>::empty());
            }
        } else {
            proof {
                assert(cur.push(s@[i as int]) =~= s@.subrange(start as int, i as int + 1));
            }
        }
        i += 1;
    }
    proof {
        assert(s@.skip(n as int) =~= Seq::<char>::empty());
    }
    let piece = String::from_str(s.substring_char(start, n));
    let ghost old_parts = parts.deep_view();
    let ghost cur = s@.subrange(start as int, n as int);
    parts.push(piece);
    proof {
        assert(parts.deep_view() =~= old_parts.push(cur));
    }
    parts
}

/// A line with a trailing carriage return stripped.
pub open spec fn spec_strip_cr(l: Seq<char>) -> Seq<char> {
    if l.len() > 0 && l.last() == '\r' {
        l.drop_last()
    } else {
        l
    }
}

/// The non-empty elements of `ls`, in order.
pub open spec fn spec_nonempty(ls: Seq<Seq<char>>) -> Seq<Seq<char>>
    decreases ls.len(),
{
    if ls.len() == 0 {
        Seq::empty()
    } else {
        let init = spec_nonempty(ls.drop_last());
        if ls.last().len() > 0 {
            init.push(ls.last())
        } else {
            init
        }
    }
}

/// The cleaned lines of a tab-separated file: split on newlines, trailing
/// carriage returns stripped, empty lines dropped.
pub open spec fn spec_clean_lines(text: Seq<char>) -> Seq<Seq<char>> {
    spec_nonempty(spec_split_keep(text, '\n').map_values(|l: Seq<char>| spec_strip_cr(l)))
}

/// The data rows of a tab-separated file: every cleaned line after the
/// header line, each cut into its tab-separated fields.
pub open spec fn spec_rows(text: Seq<char>) -> Seq<Seq<Seq<char>>> {
    let ls = spec_clean_lines(text);
    if ls.len() == 0 {
        Seq::empty()
    } else {
        ls.drop_first().map_values(|l: Seq<char>| spec_split_keep(l, '\t'))
    }
}

/// Splits a tab-separated file into its data rows: lines after the header,
/// each as its list of fields.
#[verifier::loop_isolation(false)]
pub fn data_rows(text: &str) -> (r: Vec<Vec<String>>)
    ensures
        r.deep_view() == spec_rows(text@),
{
    let raw = split_keep(text, '\n');
    let mut clean: Vec<String> = Vec::new();
    let mut j: usize = 0;
    let ghost stripped = raw.deep_view().map_values(|l: Seq<char>| spec_strip_cr(l));
    while j < raw.len()
        invariant
            j <= raw.len(),
            stripped == raw.deep_view().map_values(|l: Seq<char>| spec_strip_cr(l)),
            clean.deep_view() == spec_nonempty(stripped.take(j as int)),
        decreases raw.len() - j,
    {
        proof {
            assert(stripped.take(j as int + 1).drop_last() =~= stripped.take(j as int));
            assert(stripped.take(j as int + 1).last() == stripped[j as int]);
            assert(stripped[j as int] == spec_strip_cr(raw.deep_view()[j as int]));
        }
        let line = &raw[j];
        let ln = line.as_str().unicode_len();
        let kept: String;
        if ln > 0 && line.as_str().get_char(ln - 1) == '\r' {
            kept = String::from_str(line.as_str().substring_char(0, ln - 1));
            proof {
                assert(kept@ =~= spec_strip_cr(raw.deep_view()[j as int]));
            }
        } else {
            kept = line.clone();
            proof {
                assert(kept@ =~= spec_strip_cr(raw.deep_view()[j as int]));
            }
        }
        if kept.as_str().unicode_len() > 0 {
            let ghost old_clean = clean.deep_view();
            clean.push(kept);
            proof {
                assert(clean.deep_view() =~= old_clean.push(stripped[j as int]));
            }
        }
        j += 1;
    }
    proof {
        assert(stripped.take(raw.deep_view().len() as int) =~= stripped);
        assert(clean.deep_view() == spec_clean_lines(text@));
    }
    let mut rows: Vec<Vec<String>> = Vec::new();
    if clean.len() == 0 {
        proof {
            assert(rows.deep_view() =~= spec_rows(text@));
        }
        return rows;
    }
    let ghost body = clean.deep_view().drop_first();
    let mut k: usize = 1;
    while k < clean.len()
        invariant
            1 <= k <= clean.len(),
            clean.deep_view().len() > 0,
            body == clean.deep_view().drop_first(),
            rows.deep_view() == body.take(k - 1).map_values(
                |l: Seq<char>| spec_split_keep(l, '\t'),
            ),
        decreases clean.len() - k,
    {
        let fields = split_keep(clean[k].as_str(), '\t');
        let ghost old_rows = rows.deep_view();
        rows.push(fields);
        proof {
            assert(body.take(k as int).drop_last() =~= body.take(k - 1));
            assert(body.take(k as int).last() == body[k - 1]);
            assert(body[k - 1] == clean.deep_view()[k as int]);
            assert(rows.deep_view() =~= body.take(k as int).map_values(
                |l: Seq<char>| spec_split_keep(l, '\t'),
            )) by {
                assert(old_rows =~= body.take(k - 1).map_values(
                    |l: Seq<char>| spec_split_keep(l, '\t'),
                ));
                assert(body.take(k as int).map_values(|l: Seq<char>| spec_split_keep(l, '\t'))
                    =~= old_rows.push(spec_split_keep(body[k - 1], '\t')));
            }
        }
        k += 1;
    }
    proof {
        assert(body.take(clean.deep_view().len() - 1) =~= body);
    }
    rows
}


/// The mapping held by a key-value pair list, later pairs overriding
/// earlier ones.
pub open spec fn pairs_map(s: Seq<(u32, u32)>) -> Map<u32, u32>
    decreases s.len(),
{
    if s.len() == 0 {
        Map::empty()
    } else {
        pairs_map(s.drop_last()).insert(s.last().0, s.last().1)
    }
}

/// The id-to-votes mapping produced by the ratings pass.
pub struct VotesTable {
    pairs: Vec<(u32, u32)>,
}

impl View for VotesTable {
    type V = Map<u32, u32>;

    closed spec fn view(&self) -> Map<u32, u32> {
        pairs_map(self.pairs@)
    }
}

impl VotesTable {
    /// The votes recorded for `id`, if any.
    pub fn get(&self, id: u32) -> (r: Option<u32>)
        ensures
            match r {
                Some(v) => self@.contains_key(id) && self@[id] == v,
                None => !self@.contains_key(id),
            },
    {
        let mut j: usize = self.pairs.len();
        proof {
            assert(self.pairs@.take(j as int) =~= self.pairs@);
        }
        while j > 0
            invariant
                j <= self.pairs@.len(),
                pairs_map(self.pairs@).contains_key(id) == pairs_map(
                    self.pairs@.take(j as int),
                ).contains_key(id),
                pairs_map(self.pairs@).contains_key(id) ==> pairs_map(self.pairs@)[id]
                    == pairs_map(self.pairs@.take(j as int))[id],
            decreases j,
        {
            j -= 1;
            proof {
                assert(self.pairs@.take(j as int + 1).drop_last() =~= self.pairs@.take(j as int));
                assert(self.pairs@.take(j as int + 1).last() == self.pairs@[j as int]);
            }
            let p = self.pairs[j];
            if p.0 == id {
                return Some(p.1);
            }
        }
        proof {
            assert(self.pairs@.take(0) =~= Seq::<(u32, u32)>::empty());
        }
        None
    }
}

/// What one ratings row yields: its id (the two-character prefix stripped)
/// and its vote count, or nothing for a malformed row.
pub open spec fn spec_votes_row(row: Seq<Seq<char>>) -> Option<(u32, u32)> {
    if row.len() >= 3 && row[0].len() >= 2 {
        match (spec_parse_u32(row[0].skip(2)), spec_parse_u32(row[2])) {
            (Some(i), Some(v)) => Some((i, v)),
            _ => None,
        }
    } else {
        None
    }
}

/// The id-to-votes mapping of a whole ratings table: rows below the floor
/// are dropped, one malformed row voids the whole pass.
pub open spec fn spec_read_votes(rows: Seq<Seq<Seq<char>>>, floor: u32) -> Option<Map<u32, u32>>
    decreases rows.len(),
{
    if rows.len() == 0 {
        Some(Map::empty())
    } else {
        match spec_read_votes(rows.drop_last(), floor) {
            None => None,
            Some(m) => match spec_votes_row(rows.last()) {
                None => None,
                Some(p) => if p.1 >= floor {
                    Some(m.insert(p.0, p.1))
                } else {
                    Some(m)
                },
            },
        }
    }
}

/// A malformed row voids every longer prefix of the ratings pass too.
proof fn lemma_votes_err_persists(rows: Seq<Seq<Seq<char>>>, floor: u32, k: int, m: int)
    requires
        0 <= k <= m <= rows.len(),
        spec_read_votes(rows.take(k), floor) is None,
    ensures
        spec_read_votes(rows.take(m), floor) is None,
    decreases m - k,
{
    if m > k {
        lemma_votes_err_persists(rows, floor, k, m - 1);
        assert(rows.take(m).drop_last() =~= rows.take(m - 1));
    } else {
        assert(rows.take(m) =~= rows.take(k));
    }
}

/// Reads the ratings pass from the decompressed tab-separated text: keeps
/// `(id, votes)` for every row at or above the vote floor; any malformed
/// row fails the whole pass.
#[verifier::loop_isolation(false)]
pub fn read_votes(ratings_text: &str, floor: u32) -> (r: Result<VotesTable, Error>)
    ensures
        match r {
            Ok(t) => spec_read_votes(spec_rows(ratings_text@), floor) == Some(t@),
            Err(e) => spec_read_votes(spec_rows(ratings_text@), floor) is None && e
                == Error::ParseInt,
        },
{
    let rows = data_rows(ratings_text);
    let ghost rs = spec_rows(ratings_text@);
    let mut table = VotesTable { pairs: Vec::new() };
    let mut j: usize = 0;
    proof {
        assert(rs.take(0) =~= Seq::<Seq<Seq<char>>>::empty());
    }
    while j < rows.len()
        invariant
            rows.deep_view() == rs,
            j <= rows.len(),
            spec_read_votes(rs.take(j as int), floor) == Some(pairs_map(table.pairs@)),
        decreases rows.len() - j,
    {
        proof {
            assert(rs.take(j as int + 1).drop_last() =~= rs.take(j as int));
            assert(rs.take(j as int + 1).last() == rs[j as int]);
            assert(rs[j as int] == rows@[j as int].deep_view());
        }
        let row = &rows[j];
        let parsed: Option<(u32, u32)>;
        if row.len() < 3 {
            parsed = None;
        } else {
            let f0len = row[0].as_str().unicode_len();
            if f0len < 2 {
                parsed = None;
            } else {
                let idtail = row[0].as_str().substring_char(2, f0len);
                proof {
                    assert(idtail@ =~= rs[j as int][0].skip(2));
                }
                match parse_u32(idtail) {
                    None => {
                        parsed = None;
                    },
                    Some(id) => {
                        proof {
                            assert(row@[2]@ == rs[j as int][2]);
                        }
                        match parse_u32(row[2].as_str()) {
                            None => {
                                parsed = None;
                            },
                            Some(v) => {
                                parsed = Some((id, v));
                            },
                        }
                    },
                }
            }
        }
        match parsed {
            None => {
                proof {
                    assert(spec_votes_row(rs[j as int]) is None);
                    assert(spec_read_votes(rs.take(j as int + 1), floor) is None);
                    lemma_votes_err_persists(rs, floor, j as int + 1, rs.len() as int);
                    assert(rs.take(rs.len() as int) =~= rs);
                }
                return Err(Error::ParseInt);
            },
            Some(p) => {
                proof {
                    assert(spec_votes_row(rs[j as int]) == Some(p));
                }
                if p.1 >= floor {
                    let ghost old_pairs = table.pairs@;
                    table.pairs.push(p);
                    proof {
                        assert(table.pairs@.drop_last() =~= old_pairs);
                        assert(pairs_map(table.pairs@) == pairs_map(old_pairs).insert(p.0, p.1));
                    }
                }
            },
        }
        j += 1;
    }
    proof {
        assert(rs.take(rows@.len() as int) =~= rs);
    }
    Ok(table)
}

/// The outcome of one basics row: a record to keep, a row to skip, or a
/// malformed row that aborts the build.
pub enum RowOutcome {
    Keep(TitleView),
    Skip,
    Bad,
}

/// The record category a corpus kind field denotes, if it is one this
/// engine keeps.
pub open spec fn spec_kind_of(s: Seq<char>) -> Option<TitleKind> {
    if s == "movie"@ {
        Some(TitleKind::Movie)
    } else if s == "tvMovie"@ {
        Some(TitleKind::TvMovie)
    } else if s == "video"@ {
        Some(TitleKind::Video)
    } else if s == "short"@ {
        Some(TitleKind::Short)
    } else {
        None
    }
}

/// Parses a corpus kind field.
pub fn kind_of(s: &str) -> (r: Option<TitleKind>)
    ensures
        r == spec_kind_of(s@),
{
    if eq_str(s, "movie") {
        Some(TitleKind::Movie)
    } else if eq_str(s, "tvMovie") {
        Some(TitleKind::TvMovie)
    } else if eq_str(s, "video") {
        Some(TitleKind::Video)
    } else if eq_str(s, "short") {
        Some(TitleKind::Short)
    } else {
        None
    }
}

/// The four categories the engine keeps.
pub open spec fn spec_all_kinds() -> Set<TitleKind> {
    set![TitleKind::Movie, TitleKind::TvMovie, TitleKind::Video, TitleKind::Short]
}

/// What one basics row yields, checked in the order the fields are read:
/// the adult flag, the kind, the year, the runtime, the id, and finally the
/// vote table; `Bad` marks a row so malformed that the whole build fails.
pub open spec fn spec_title_row(
    row: Seq<Seq<char>>,
    votes: Map<u32, u32>,
    allowed: Set<TitleKind>,
) -> RowOutcome {
    if row.len() <= 4 {
        RowOutcome::Bad
    } else {
        match spec_parse_none(row[4]) {
            None => RowOutcome::Skip,
            Some(a) => if a > 255 || a == 1 {
                RowOutcome::Skip
            } else {
                match spec_kind_of(row[1]) {
                    None => RowOutcome::Skip,
                    Some(k) => if !allowed.contains(k) {
                        RowOutcome::Skip
                    } else if row.len() <= 5 {
                        RowOutcome::Bad
                    } else {
                        match spec_parse_none(row[5]) {
                            None => RowOutcome::Skip,
                            Some(y) => if y > 0xFFFF {
                                RowOutcome::Skip
                            } else if row.len() <= 7 {
                                RowOutcome::Bad
                            } else {
                                match spec_parse_none(row[7]) {
                                    None => RowOutcome::Skip,
                                    Some(rt) => if rt > 0xFFFF || y == 0 || rt == 0 {
                                        RowOutcome::Skip
                                    } else if row[0].len() < 2 {
                                        RowOutcome::Bad
                                    } else {
                                        match spec_parse_u32(row[0].skip(2)) {
                                            None => RowOutcome::Bad,
                                            Some(id) => if !votes.contains_key(id) {
                                                RowOutcome::Skip
                                            } else {
                                                RowOutcome::Keep(
                                                    TitleView {
                                                        id,
                                                        year: y as u16,
                                                        runtime: rt as u16,
                                                        primary_title: row[2],
                                                        original_title: if row[2] != row[3] {
                                                            Some(row[3])
                                                        } else {
                                                            None
                                                        },
                                                        kind: k,
                                                        votes: votes[id],
                                                    },
                                                )
                                            },
                                        }
                                    },
                                }
                            },
                        }
                    },
                }
            },
        }
    }
}

/// The first position of `s` holding `id`, or -1.
pub open spec fn first_id_idx(s: Seq<TitleView>, id: u32) -> int
    decreases s.len(),
{
    if s.len() == 0 {
        -1
    } else if s[0].id == id {
        0
    } else {
        let r = first_id_idx(s.drop_first(), id);
        if r < 0 {
            -1
        } else {
            r + 1
        }
    }
}

/// Adding a record to the table: replace the record with the same id, or
/// append.
pub open spec fn spec_upsert(s: Seq<TitleView>, t: TitleView) -> Seq<TitleView> {
    let j = first_id_idx(s, t.id);
    if j < 0 {
        s.push(t)
    } else {
        s.update(j, t)
    }
}

proof fn lemma_first_id_found(s: Seq<TitleView>, id: u32, j: int)
    requires
        0 <= j < s.len(),
        s[j].id == id,
        forall|l: int| 0 <= l < j ==> s[l].id != id,
    ensures
        first_id_idx(s, id) == j,
    decreases s.len(),
{
    if j == 0 {
    } else {
        assert(forall|l: int| 0 <= l < j - 1 ==> s.drop_first()[l].id != id);
        assert(s.drop_first()[j - 1].id == id);
        lemma_first_id_found(s.drop_first(), id, j - 1);
    }
}

proof fn lemma_first_id_absent(s: Seq<TitleView>, id: u32)
    requires
        forall|l: int| 0 <= l < s.len() ==> s[l].id != id,
    ensures
        first_id_idx(s, id) == -1,
    decreases s.len(),
{
    if s.len() > 0 {
        assert(forall|l: int| 0 <= l < s.drop_first().len() ==> s.drop_first()[l].id != id);
        lemma_first_id_absent(s.drop_first(), id);
    }
}

/// The record table of a whole basics pass over `rows`.
pub open spec fn spec_read_titles(
    rows: Seq<Seq<Seq<char>>>,
    votes: Map<u32, u32>,
    allowed: Set<TitleKind>,
) -> Option<Seq<TitleView>>
    decreases rows.len(),
{
    if rows.len() == 0 {
        Some(Seq::empty())
    } else {
        match spec_read_titles(rows.drop_last(), votes, allowed) {
            None => None,
            Some(s) => match spec_title_row(rows.last(), votes, allowed) {
                RowOutcome::Bad => None,
                RowOutcome::Skip => Some(s),
                RowOutcome::Keep(t) => Some(spec_upsert(s, t)),
            },
        }
    }
}

/// A malformed row voids every longer prefix of the basics pass too.
proof fn lemma_titles_err_persists(
    rows: Seq<Seq<Seq<char>>>,
    votes: Map<u32, u32>,
    allowed: Set<TitleKind>,
    k: int,
    m: int,
)
    requires
        0 <= k <= m <= rows.len(),
        spec_read_titles(rows.take(k), votes, allowed) is None,
    ensures
        spec_read_titles(rows.take(m), votes, allowed) is None,
    decreases m - k,
{
    if m > k {
        lemma_titles_err_persists(rows, votes, allowed, k, m - 1);
        assert(rows.take(m).drop_last() =~= rows.take(m - 1));
    } else {
        assert(rows.take(m) =~= rows.take(k));
    }
}

/// Replaces the record with `t`'s id, or appends `t`.
fn upsert_title(table: &mut Vec<Title>, t: Title)
    ensures
        views_of(final(table)@) == spec_upsert(views_of(old(table)@), t@),
{
    let ghost tv = t@;
    let ghost vs = views_of(old(table)@);
    let n = table.len();
    let mut j: usize = 0;
    while j < n
        invariant
            *table == *old(table),
            n == table@.len(),
            j <= n,
            tv == t@,
            vs == views_of(old(table)@),
            forall|l: int| 0 <= l < j ==> vs[l].id != tv.id,
        decreases n - j,
    {
        if table[j].id == t.id {
            proof {
                assert(vs[j as int].id == tv.id);
                lemma_first_id_found(vs, tv.id, j as int);
            }
            table[j] = t;
            proof {
                assert(views_of(table@) =~= vs.update(j as int, tv));
            }
            return ;
        }
        proof {
            assert(vs[j as int].id != tv.id);
        }
        j += 1;
    }
    proof {
        lemma_first_id_absent(vs, tv.id);
    }
    table.push(t);
    proof {
        assert(views_of(table@) =~= vs.push(tv));
    }
}

/// Reads the basics pass from the decompressed tab-separated text, keeping
/// exactly the rows that pass every filter and have a vote entry; one
/// malformed row fails the whole pass.
#[verifier::loop_isolation(false)]
pub fn read_titles(basics_text: &str, votes: &VotesTable) -> (r: Result<Vec<Title>, Error>)
    ensures
        match r {
            Ok(v) => spec_read_titles(spec_rows(basics_text@), votes@, spec_all_kinds()) == Some(
                views_of(v@),
            ),
            Err(e) => spec_read_titles(spec_rows(basics_text@), votes@, spec_all_kinds()) is None
                && e == Error::ParseInt,
        },
{
    let rows = data_rows(basics_text);
    let ghost rs = spec_rows(basics_text@);
    let ghost all = spec_all_kinds();
    let mut table: Vec<Title> = Vec::new();
    let mut j: usize = 0;
    proof {
        assert(rs.take(0) =~= Seq::<Seq<Seq<char>>>::empty());
        assert(views_of(table@) =~= Seq::<TitleView>::empty());
    }
    while j < rows.len()
        invariant
            rows.deep_view() == rs,
            j <= rows.len(),
            spec_read_titles(rs.take(j as int), votes@, all) == Some(views_of(table@)),
        decreases rows.len() - j,
    {
        proof {
            assert(rs.take(j as int + 1).drop_last() =~= rs.take(j as int));
            assert(rs.take(j as int + 1).last() == rs[j as int]);
            assert(rs[j as int] == rows@[j as int].deep_view());
        }
        let ghost rv = rs[j as int];
        let row = &rows[j];
        let outcome: Option<Option<Title>>;  // None: skip; Some(None): bad; Some(Some(t)): keep
        if row.len() <= 4 {
            outcome = Some(None);
            proof {
                assert(spec_title_row(rv, votes@, all) is Bad);
            }
        } else {
            proof {
                assert(row@[4]@ == rv[4]);
                assert(row@[1]@ == rv[1]);
                assert(row@[2]@ == rv[2]);
                assert(row@[3]@ == rv[3]);
            }
            match parse_none(row[4].as_str()) {
                None => {
                    outcome = None;
                },
                Some(a) => if a > 255 || a == 1 {
                    outcome = None;
                } else {
                    match kind_of(row[1].as_str()) {
                        None => {
                            outcome = None;
                        },
                        Some(k) => if row.len() <= 5 {
                            outcome = Some(None);
                        } else {
                            proof {
                                assert(row@[5]@ == rv[5]);
                                assert(all.contains(k));
                            }
                            match parse_none(row[5].as_str()) {
                                None => {
                                    outcome = None;
                                },
                                Some(y) => if y > 0xFFFF {
                                    outcome = None;
                                } else if row.len() <= 7 {
                                    outcome = Some(None);
                                } else {
                                    proof {
                                        assert(row@[7]@ == rv[7]);
                                    }
                                    match parse_none(row[7].as_str()) {
                                        None => {
                                            outcome = None;
                                        },
                                        Some(rt) => if rt > 0xFFFF || y == 0 || rt == 0 {
                                            outcome = None;
                                        } else {
                                            let f0len = row[0].as_str().unicode_len();
                                            proof {
                                                assert(row@[0]@ == rv[0]);
                                            }
                                            if f0len < 2 {
                                                outcome = Some(None);
                                            } else {
                                                let idtail = row[0].as_str().substring_char(
                                                    2,
                                                    f0len,
                                                );
                                                proof {
                                                    assert(idtail@ =~= rv[0].skip(2));
                                                }
                                                match parse_u32(idtail) {
                                                    None => {
                                                        outcome = Some(None);
                                                    },
                                                    Some(id) => {
                                                        match votes.get(id) {
                                                            None => {
                                                                outcome = None;
                                                            },
                                                            Some(vt) => {
                                                                let primary = row[2].clone();
                                                                let orig: Option<String>;
                                                                if !(row[2] == row[3]) {
                                                                    orig = Some(row[3].clone());
                                                                } else {
                                                                    orig = None;
                                                                }
                                                                let t = Title {
                                                                    id,
                                                                    year: y as u16,
                                                                    runtime: rt as u16,
                                                                    primary_title: primary,
                                                                    original_title: orig,
                                                                    kind: k,
                                                                    votes: vt,
                                                                };
                                                                outcome = Some(Some(t));
                                                            },
                                                        }
                                                    },
                                                }
                                            }
                                        },
                                    }
                                },
                            }
                        },
                    }
                },
            }
        }
        match outcome {
            None => {
                proof {
                    assert(spec_title_row(rv, votes@, all) is Skip);
                }
            },
            Some(None) => {
                proof {
                    assert(spec_title_row(rv, votes@, all) is Bad);
                    assert(spec_read_titles(rs.take(j as int + 1), votes@, all) is None);
                    lemma_titles_err_persists(rs, votes@, all, j as int + 1, rs.len() as int);
                    assert(rs.take(rs.len() as int) =~= rs);
                }
                return Err(Error::ParseInt);
            },
            Some(Some(t)) => {
                proof {
                    assert(spec_title_row(rv, votes@, all) == RowOutcome::Keep(t@));
                }
                upsert_title(&mut table, t);
            },
        }
        j += 1;
    }
    proof {
        assert(rs.take(rows@.len() as int) =~= rs);
    }
    Ok(table)
}


/// What `first_id_idx` finds: a valid first position, or proof of absence.
pub proof fn lemma_first_id_props(s: Seq<TitleView>, id: u32)
    ensures
        first_id_idx(s, id) == -1 ==> forall|l: int| 0 <= l < s.len() ==> (#[trigger] s[l]).id
            != id,
        first_id_idx(s, id) >= 0 ==> 0 <= first_id_idx(s, id) < s.len() && s[first_id_idx(
            s,
            id,
        )].id == id,
    decreases s.len(),
{
    if s.len() > 0 && s[0].id != id {
        lemma_first_id_props(s.drop_first(), id);
        if first_id_idx(s.drop_first(), id) == -1 {
            assert forall|l: int| 0 <= l < s.len() implies (#[trigger] s[l]).id != id by {
                if l > 0 {
                    assert(s.drop_first()[l - 1].id != id);
                }
            }
        }
    }
}

/// Upserting keeps record ids distinct.
proof fn lemma_upsert_wf(s: Seq<TitleView>, t: TitleView)
    requires
        tbl_wf(s),
    ensures
        tbl_wf(spec_upsert(s, t)),
{
    lemma_first_id_props(s, t.id);
    let j = first_id_idx(s, t.id);
    if j < 0 {
        let r = s.push(t);
        assert forall|i: int, l: int|
            0 <= i < l < r.len() implies (#[trigger] r[i]).id != (#[trigger] r[l]).id by {
            if l == s.len() {
                assert(s[i].id != t.id);
            }
        }
    } else {
        let r = s.update(j, t);
        assert forall|i: int, l: int|
            0 <= i < l < r.len() implies (#[trigger] r[i]).id != (#[trigger] r[l]).id by {
            assert(s[i].id != s[l].id);
        }
    }
}

/// Whatever the basics pass keeps has distinct record ids.
pub proof fn lemma_read_titles_wf(
    rows: Seq<Seq<Seq<char>>>,
    votes: Map<u32, u32>,
    allowed: Set<TitleKind>,
)
    ensures
        spec_read_titles(rows, votes, allowed) matches Some(s) ==> tbl_wf(s),
    decreases rows.len(),
{
    if rows.len() > 0 {
        lemma_read_titles_wf(rows.drop_last(), votes, allowed);
        if spec_read_titles(rows, votes, allowed) is Some {
            match spec_title_row(rows.last(), votes, allowed) {
                RowOutcome::Keep(t) => {
                    lemma_upsert_wf(spec_read_titles(rows.drop_last(), votes, allowed)->Some_0, t);
                },
                _ => {},
            }
        }
    }
}


/// Raising the vote floor never fails a pass that succeeded, and only
/// shrinks the set of ids the pass keeps.
proof fn lemma_votes_tighten(rows: Seq<Seq<Seq<char>>>, f1: u32, f2: u32)
    requires
        f1 <= f2,
    ensures
        spec_read_votes(rows, f1) is Some <==> spec_read_votes(rows, f2) is Some,
        (spec_read_votes(rows, f1) is Some && spec_read_votes(rows, f2) is Some) ==> forall|k: u32|
            spec_read_votes(rows, f2)->Some_0.contains_key(k) ==> #[trigger] spec_read_votes(
                rows,
                f1,
            )->Some_0.contains_key(k),
    decreases rows.len(),
{
    if rows.len() > 0 {
        lemma_votes_tighten(rows.drop_last(), f1, f2);
    }
}

/// Shrinking the vote table or the allowed kinds only turns kept rows
/// into skipped rows; which rows are malformed does not change on the
/// kept path, and a row malformed under the tighter filters was already
/// malformed under the looser ones.
proof fn lemma_title_row_monotone(
    row: Seq<Seq<char>>,
    vm1: Map<u32, u32>,
    vm2: Map<u32, u32>,
    a1: Set<TitleKind>,
    a2: Set<TitleKind>,
)
    requires
        forall|k: u32| vm2.contains_key(k) ==> vm1.contains_key(k),
        a2.subset_of(a1),
    ensures
        spec_title_row(row, vm2, a2) matches RowOutcome::Keep(t2) ==> (spec_title_row(
            row,
            vm1,
            a1,
        ) matches RowOutcome::Keep(t1) && t1.id == t2.id),
        spec_title_row(row, vm2, a2) is Bad ==> spec_title_row(row, vm1, a1) is Bad,
{
}

/// The set of record ids a table holds.
pub open spec fn ids_of(s: Seq<TitleView>) -> Set<u32>
    decreases s.len(),
{
    if s.len() == 0 {
        Set::empty()
    } else {
        ids_of(s.drop_last()).insert(s.last().id)
    }
}

proof fn lemma_ids_of_props(s: Seq<TitleView>)
    ensures
        ids_of(s).finite(),
        forall|id: u32|
            ids_of(s).contains(id) <==> exists|i: int|
                0 <= i < s.len() && (#[trigger] s[i]).id == id,
    decreases s.len(),
{
    if s.len() > 0 {
        lemma_ids_of_props(s.drop_last());
        assert forall|id: u32| ids_of(s).contains(id) implies exists|i: int|
            0 <= i < s.len() && (#[trigger] s[i]).id == id by {
            if id == s.last().id {
                assert(s[s.len() - 1].id == id);
            } else {
                let w = choose|w: int|
                    0 <= w < s.drop_last().len() && (#[trigger] s.drop_last()[w]).id == id;
                assert(s[w].id == id);
            }
        }
        assert forall|id: u32|
            (exists|i: int| 0 <= i < s.len() && (#[trigger] s[i]).id == id) implies ids_of(
            s,
        ).contains(id) by {
            let w = choose|w: int| 0 <= w < s.len() && (#[trigger] s[w]).id == id;
            if w < s.len() - 1 {
                assert(s.drop_last()[w].id == id);
            }
        }
    }
}

proof fn lemma_ids_of_len(s: Seq<TitleView>)
    requires
        tbl_wf(s),
    ensures
        ids_of(s).len() == s.len(),
    decreases s.len(),
{
    if s.len() > 0 {
        let dl = s.drop_last();
        assert(tbl_wf(dl));
        lemma_ids_of_len(dl);
        lemma_ids_of_props(dl);
        assert(!ids_of(dl).contains(s.last().id)) by {
            if ids_of(dl).contains(s.last().id) {
                let w = choose|w: int|
                    0 <= w < dl.len() && (#[trigger] dl[w]).id == s.last().id;
                assert(s[w].id == s[s.len() - 1].id);
            }
        }
    }
}

proof fn lemma_upsert_ids(s: Seq<TitleView>, t: TitleView)
    ensures
        ids_of(spec_upsert(s, t)) == ids_of(s).insert(t.id),
{
    lemma_first_id_props(s, t.id);
    lemma_ids_of_props(s);
    lemma_ids_of_props(spec_upsert(s, t));
    let j = first_id_idx(s, t.id);
    let r = spec_upsert(s, t);
    assert(ids_of(r) =~= ids_of(s).insert(t.id)) by {
        assert forall|id: u32| ids_of(r).contains(id) implies ids_of(s).insert(t.id).contains(
            id,
        ) by {
            let w = choose|w: int| 0 <= w < r.len() && (#[trigger] r[w]).id == id;
            if j < 0 {
                if w < s.len() {
                    assert(s[w].id == id);
                }
            } else {
                if w != j {
                    assert(s[w].id == id);
                }
            }
        }
        assert forall|id: u32| ids_of(s).insert(t.id).contains(id) implies ids_of(r).contains(
            id,
        ) by {
            if id == t.id {
                if j < 0 {
                    assert(r[s.len() as int].id == id);
                } else {
                    assert(r[j].id == id);
                }
            } else {
                let w = choose|w: int| 0 <= w < s.len() && (#[trigger] s[w]).id == id;
                assert(r[w].id == id);
            }
        }
    }
}

/// Tightening the filters keeps the basics pass succeeding and only
/// shrinks the set of ids it keeps.
proof fn lemma_read_titles_monotone(
    rows: Seq<Seq<Seq<char>>>,
    vm1: Map<u32, u32>,
    vm2: Map<u32, u32>,
    a1: Set<TitleKind>,
    a2: Set<TitleKind>,
)
    requires
        forall|k: u32| vm2.contains_key(k) ==> vm1.contains_key(k),
        a2.subset_of(a1),
        spec_read_titles(rows, vm1, a1) is Some,
    ensures
        spec_read_titles(rows, vm2, a2) is Some,
        ids_of(spec_read_titles(rows, vm2, a2)->Some_0).subset_of(
            ids_of(spec_read_titles(rows, vm1, a1)->Some_0),
        ),
    decreases rows.len(),
{
    if rows.len() > 0 {
        lemma_read_titles_monotone(rows.drop_last(), vm1, vm2, a1, a2);
        lemma_title_row_monotone(rows.last(), vm1, vm2, a1, a2);
        let s1 = spec_read_titles(rows.drop_last(), vm1, a1)->Some_0;
        let s2 = spec_read_titles(rows.drop_last(), vm2, a2)->Some_0;
        match spec_title_row(rows.last(), vm2, a2) {
            RowOutcome::Keep(t2) => {
                match spec_title_row(rows.last(), vm1, a1) {
                    RowOutcome::Keep(t1) => {
                        lemma_upsert_ids(s1, t1);
                        lemma_upsert_ids(s2, t2);
                    },
                    _ => {
                        assert(false);
                    },
                }
            },
            RowOutcome::Skip => {
                match spec_title_row(rows.last(), vm1, a1) {
                    RowOutcome::Keep(t1) => {
                        lemma_upsert_ids(s1, t1);
                    },
                    _ => {},
                }
            },
            RowOutcome::Bad => {},
        }
    }
}

/// Tightening any ingestion filter is monotonic: raising the vote floor
/// or excluding record kinds never grows the surviving record table, and
/// a build that succeeded still succeeds.
pub proof fn lemma_ingest_monotone(
    rrows: Seq<Seq<Seq<char>>>,
    trows: Seq<Seq<Seq<char>>>,
    f1: u32,
    f2: u32,
    a1: Set<TitleKind>,
    a2: Set<TitleKind>,
)
    requires
        f1 <= f2,
        a2.subset_of(a1),
        spec_read_votes(rrows, f1) is Some,
        spec_read_titles(trows, spec_read_votes(rrows, f1)->Some_0, a1) is Some,
    ensures
        spec_read_votes(rrows, f2) is Some,
        spec_read_titles(trows, spec_read_votes(rrows, f2)->Some_0, a2) is Some,
        spec_read_titles(trows, spec_read_votes(rrows, f2)->Some_0, a2)->Some_0.len()
            <= spec_read_titles(trows, spec_read_votes(rrows, f1)->Some_0, a1)->Some_0.len(),
{
    lemma_votes_tighten(rrows, f1, f2);
    let vm1 = spec_read_votes(rrows, f1)->Some_0;
    let vm2 = spec_read_votes(rrows, f2)->Some_0;
    lemma_read_titles_monotone(trows, vm1, vm2, a1, a2);
    let s1 = spec_read_titles(trows, vm1, a1)->Some_0;
    let s2 = spec_read_titles(trows, vm2, a2)->Some_0;
    lemma_read_titles_wf(trows, vm1, a1);
    lemma_read_titles_wf(trows, vm2, a2);
    lemma_ids_of_len(s1);
    lemma_ids_of_len(s2);
    lemma_ids_of_props(s1);
    vstd::set_lib::lemma_len_subset(ids_of(s2), ids_of(s1));
}

} // verus!
