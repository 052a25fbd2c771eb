use merovingian::error::Error;
use merovingian::index::Imdb;
use merovingian::ingest::data_rows;
use merovingian::ingest::parse_none;
use merovingian::ingest::read_votes;
use merovingian::ingest::parse_u32;
use merovingian::TitleKind;

const BASICS_HEADER: &str =
    "tconst\ttitleType\tprimaryTitle\toriginalTitle\tisAdult\tstartYear\tendYear\truntimeMinutes\tgenres\n";
const RATINGS_HEADER: &str = "tconst\taverageRating\tnumVotes\n";

fn basics(rows: &[&str]) -> String {
    let mut out = String::from(BASICS_HEADER);
    for r in rows {
        out.push_str(r);
        out.push('\n');
    }
    out
}

fn ratings(rows: &[&str]) -> String {
    let mut out = String::from(RATINGS_HEADER);
    for r in rows {
        out.push_str(r);
        out.push('\n');
    }
    out
}

fn matrix_corpus() -> Imdb {
    let b = basics(&[
        "tt0000001\tmovie\tMatrix\tMatrix\t0\t1999\t\\N\t136\tAction",
        "tt0000002\tmovie\tMatrix\tMatrix\t0\t2021\t\\N\t148\tAction",
    ]);
    let r = ratings(&["tt0000001\t8.7\t500000", "tt0000002\t5.7\t20000"]);
    Imdb::create_index(&b, &r).unwrap()
}

#[test]
fn builds_table_and_counts_records() {
    let m = matrix_corpus();
    assert_eq!(m.len(), 2);
}

#[test]
fn low_vote_records_never_enter_the_index() {
    // A record with 10 votes sits below the floor of 50: it is dropped
    // entirely, and querying its tags finds nothing.
    let b = basics(&["tt0000007\tmovie\tZebra Crossing\tZebra Crossing\t0\t1984\t\\N\t90\tDrama"]);
    let r = ratings(&["tt0000007\t6.0\t10"]);
    let m = Imdb::create_index(&b, &r).unwrap();
    assert_eq!(m.len(), 0);
    assert!(m.lookup("zebra", None).is_none());
    assert!(m.lookup("crossing", None).is_none());
}

#[test]
fn matrix_tie_is_broken_by_votes() {
    let m = matrix_corpus();
    let t = m.lookup("matrix", None).unwrap();
    assert_eq!(t.id(), 1);
    assert_eq!(t.year(), 1999);
    assert_eq!(t.votes(), 500000);
}

#[test]
fn misspelled_query_with_no_tag_hit_is_no_match() {
    let m = matrix_corpus();
    assert!(m.lookup("matricks", Some(1999)).is_none());
}

#[test]
fn year_window_excludes_far_years() {
    let m = matrix_corpus();
    // 1999 and 2021 both differ from 1990 by more than one year.
    assert!(m.lookup("matrix", Some(1990)).is_none());
    // A one-year miss stays eligible.
    let t = m.lookup("matrix", Some(2000)).unwrap();
    assert_eq!(t.id(), 1);
}

#[test]
fn repeated_lookups_return_the_same_record() {
    let m = matrix_corpus();
    let a = m.lookup("matrix", Some(1999)).unwrap().id();
    let b = m.lookup("matrix", Some(1999)).unwrap().id();
    let c = m.lookup("matrix", Some(1999)).unwrap().id();
    assert_eq!(a, b);
    assert_eq!(b, c);
}

#[test]
fn exact_year_beats_one_year_miss() {
    let b = basics(&[
        "tt0000011\tmovie\tAlpha\tAlpha\t0\t2000\t\\N\t100\tDrama",
        "tt0000012\tmovie\tAlpha\tAlpha\t0\t2001\t\\N\t100\tDrama",
    ]);
    let r = ratings(&["tt0000011\t7.0\t100", "tt0000012\t7.0\t900000"]);
    let m = Imdb::create_index(&b, &r).unwrap();
    // The year penalty (0.85) pushes the 2001 record out of the tie band,
    // so its larger vote count never comes into play.
    let t = m.lookup("alpha", Some(2000)).unwrap();
    assert_eq!(t.id(), 11);
}

#[test]
fn movies_outrank_shorts_on_equal_titles() {
    let b = basics(&[
        "tt0000021\tmovie\tBeta\tBeta\t0\t1990\t\\N\t100\tDrama",
        "tt0000022\tshort\tBeta\tBeta\t0\t1990\t\\N\t10\tDrama",
    ]);
    let r = ratings(&["tt0000021\t7.0\t60", "tt0000022\t7.0\t700000"]);
    let m = Imdb::create_index(&b, &r).unwrap();
    let t = m.lookup("beta", Some(1990)).unwrap();
    assert_eq!(t.id(), 21);
    assert_eq!(t.kind(), TitleKind::Movie);
}

#[test]
fn closer_title_beats_popularity_outside_the_band() {
    let b = basics(&[
        "tt0000031\tmovie\tGamma\tGamma\t0\t1990\t\\N\t100\tDrama",
        "tt0000032\tmovie\tGamma Delta Epsilon Zeta\tGamma Delta Epsilon Zeta\t0\t1990\t\\N\t100\tDrama",
    ]);
    let r = ratings(&["tt0000031\t7.0\t60", "tt0000032\t7.0\t900000"]);
    let m = Imdb::create_index(&b, &r).unwrap();
    let t = m.lookup("gamma", None).unwrap();
    assert_eq!(t.id(), 31);
}

#[test]
fn uppercase_corpus_titles_are_indexed_lowercased() {
    let b = basics(&["tt0000041\tmovie\tMATRIX\tMATRIX\t0\t1999\t\\N\t136\tAction"]);
    let r = ratings(&["tt0000041\t8.7\t500000"]);
    let m = Imdb::create_index(&b, &r).unwrap();
    let t = m.lookup("matrix", None).unwrap();
    assert_eq!(t.id(), 41);
}

#[test]
fn original_title_is_indexed_when_it_differs() {
    let b = basics(&[
        "tt0000051\tmovie\tThe Lives of Others\tDas Leben der Anderen\t0\t2006\t\\N\t137\tDrama",
    ]);
    let r = ratings(&["tt0000051\t8.4\t400000"]);
    let m = Imdb::create_index(&b, &r).unwrap();
    assert_eq!(m.lookup("anderen", None).unwrap().id(), 51);
    assert_eq!(m.lookup("others", None).unwrap().id(), 51);
    assert_eq!(m.lookup("leben", Some(2006)).unwrap().id(), 51);
}

#[test]
fn filters_drop_rows_without_signal() {
    let b = basics(&[
        // adult flag set
        "tt0000061\tmovie\tSixty One\tSixty One\t1\t1999\t\\N\t100\tDrama",
        // kind outside the closed enumeration
        "tt0000062\ttvSeries\tSixty Two\tSixty Two\t0\t1999\t\\N\t100\tDrama",
        // missing year
        "tt0000063\tmovie\tSixty Three\tSixty Three\t0\t\\N\t\\N\t100\tDrama",
        // zero runtime
        "tt0000064\tmovie\tSixty Four\tSixty Four\t0\t1999\t\\N\t0\tDrama",
        // no ratings entry at all
        "tt0000065\tmovie\tSixty Five\tSixty Five\t0\t1999\t\\N\t100\tDrama",
        // survives
        "tt0000066\tmovie\tSixty Six\tSixty Six\t0\t1999\t\\N\t100\tDrama",
    ]);
    let r = ratings(&[
        "tt0000061\t7.0\t1000",
        "tt0000062\t7.0\t1000",
        "tt0000063\t7.0\t1000",
        "tt0000064\t7.0\t1000",
        "tt0000066\t7.0\t1000",
    ]);
    let m = Imdb::create_index(&b, &r).unwrap();
    assert_eq!(m.len(), 1);
    assert_eq!(m.lookup("sixty", None).unwrap().id(), 66);
}

#[test]
fn malformed_ratings_row_fails_the_build() {
    let b = basics(&["tt0000001\tmovie\tMatrix\tMatrix\t0\t1999\t\\N\t136\tAction"]);
    let r = ratings(&["tt0000001\t8.7\tnot-a-number"]);
    let e = Imdb::create_index(&b, &r).unwrap_err();
    assert_eq!(e, Error::ParseInt);
    assert_eq!(e.message(), "malformed numeric field in corpus row");
}

#[test]
fn malformed_basics_id_fails_the_build() {
    let b = basics(&["ttXYZ\tmovie\tMatrix\tMatrix\t0\t1999\t\\N\t136\tAction"]);
    let r = ratings(&["tt0000001\t8.7\t500000"]);
    let e = Imdb::create_index(&b, &r).unwrap_err();
    assert_eq!(e, Error::ParseInt);
}

#[test]
fn snapshot_round_trip_preserves_contents() {
    let m = matrix_corpus();
    let blob = m.save();
    let m2 = Imdb::load_index(&blob).unwrap();
    assert_eq!(m2.len(), m.len());
    assert_eq!(m2.lookup("matrix", None).unwrap().id(), 1);
    assert_eq!(
        m2.lookup("matrix", Some(2021)).unwrap().id(),
        m.lookup("matrix", Some(2021)).unwrap().id()
    );
    // byte-for-byte identical re-encoding: the structures are equal
    assert_eq!(m2.save(), m.save());
}

#[test]
fn snapshot_round_trip_of_empty_index() {
    let m = Imdb::create_index(BASICS_HEADER, RATINGS_HEADER).unwrap();
    assert_eq!(m.len(), 0);
    let m2 = Imdb::load_index(&m.save()).unwrap();
    assert_eq!(m2.len(), 0);
    assert_eq!(m2.save(), m.save());
}

#[test]
fn corrupt_snapshot_is_rejected() {
    let garbage: Vec<u8> = vec![1, 2, 3, 4, 5];
    let e = Imdb::load_index(&garbage).unwrap_err();
    assert_eq!(e, Error::Corrupt);
    assert_eq!(e.message(), "corrupt snapshot");
}

#[test]
fn truncated_snapshot_is_rejected() {
    let m = matrix_corpus();
    let mut blob = m.save();
    blob.truncate(blob.len() / 2);
    assert_eq!(Imdb::load_index(&blob).unwrap_err(), Error::Corrupt);
}

#[test]
fn numeric_fields_parse_like_the_corpus_uses_them() {
    assert_eq!(parse_none("\\N"), None);
    assert_eq!(parse_none("42"), Some(42));
    assert_eq!(parse_none("junk"), None);
    assert_eq!(parse_u32("+7"), Some(7));
    assert_eq!(parse_u32("4294967295"), Some(u32::MAX));
    assert_eq!(parse_u32("4294967296"), None);
    assert_eq!(parse_u32(""), None);
}

#[test]
fn rows_skip_header_blank_lines_and_carriage_returns() {
    let rows = data_rows("h1\th2\r\na\tb\r\n\r\nc\td\n");
    assert_eq!(rows.len(), 2);
    assert_eq!(rows[0], vec!["a", "b"]);
    assert_eq!(rows[1], vec!["c", "d"]);
}

#[test]
fn later_duplicate_id_replaces_the_earlier_record() {
    let b = basics(&[
        "tt0000071\tmovie\tOld Name\tOld Name\t0\t1980\t\\N\t90\tDrama",
        "tt0000071\tmovie\tNew Name\tNew Name\t0\t1981\t\\N\t91\tDrama",
    ]);
    let r = ratings(&["tt0000071\t7.0\t1000"]);
    let m = Imdb::create_index(&b, &r).unwrap();
    assert_eq!(m.len(), 1);
    assert!(m.lookup("old", None).is_none());
    assert_eq!(m.lookup("new", None).unwrap().year(), 1981);
}

#[test]
fn index_build_is_order_independent() {
    let b1 = basics(&[
        "tt0000001\tmovie\tMatrix\tMatrix\t0\t1999\t\\N\t136\tAction",
        "tt0000002\tmovie\tMatrix\tMatrix\t0\t2021\t\\N\t148\tAction",
        "tt0000051\tmovie\tThe Lives of Others\tDas Leben der Anderen\t0\t2006\t\\N\t137\tDrama",
    ]);
    let b2 = basics(&[
        "tt0000051\tmovie\tThe Lives of Others\tDas Leben der Anderen\t0\t2006\t\\N\t137\tDrama",
        "tt0000002\tmovie\tMatrix\tMatrix\t0\t2021\t\\N\t148\tAction",
        "tt0000001\tmovie\tMatrix\tMatrix\t0\t1999\t\\N\t136\tAction",
    ]);
    let r = ratings(&[
        "tt0000001\t8.7\t500000",
        "tt0000002\t5.7\t20000",
        "tt0000051\t8.4\t400000",
    ]);
    let m1 = Imdb::create_index(&b1, &r).unwrap();
    let m2 = Imdb::create_index(&b2, &r).unwrap();
    assert_eq!(m1.len(), m2.len());
    for (query, year) in [
        ("matrix", None),
        ("matrix", Some(1999)),
        ("matrix", Some(2021)),
        ("lives of others", None),
        ("anderen", Some(2006)),
        ("nothing here", None),
    ] {
        let a = m1.lookup(query, year).map(|t| t.id());
        let b = m2.lookup(query, year).map(|t| t.id());
        assert_eq!(a, b);
    }
}

#[test]
fn raising_the_vote_floor_only_drops_entries() {
    let r = ratings(&[
        "tt0000001\t8.7\t500000",
        "tt0000002\t5.7\t60",
        "tt0000003\t6.0\t10",
    ]);
    let loose = read_votes(&r, 50).unwrap();
    let tight = read_votes(&r, 100).unwrap();
    // below the loose floor: in neither table
    assert_eq!(loose.get(3), None);
    assert_eq!(tight.get(3), None);
    // between the floors: only the loose table keeps it
    assert_eq!(loose.get(2), Some(60));
    assert_eq!(tight.get(2), None);
    // above both floors: kept by both
    assert_eq!(loose.get(1), Some(500000));
    assert_eq!(tight.get(1), Some(500000));
}
