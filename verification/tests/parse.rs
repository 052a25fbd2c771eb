use merovingian::parse::is_year;
use merovingian::parse::parse_filename;
use merovingian::parse::parse_movie;

#[test]
fn test_is_year() {
    assert!(is_year("2009"));
    assert!(!is_year("1080p"));
}

#[test]
fn test_split_tokens() {
    assert_eq!(
        parse_filename("this.file_name-uses:every separator"),
        vec!["this", "file", "name", "uses", "every", "separator"]
    );

    assert_eq!(parse_filename("foo.-_ .:bar"), vec!["foo", "bar"]);
}

#[test]
fn test_parse_filename_simple() {
    let tokens = parse_filename("american psycho");
    assert_eq!(tokens, vec!["american", "psycho"]);
}

#[test]
fn test_parse_filename_parens_square() {
    let tokens = parse_filename("American.Psycho.(2000).[1080p]");
    assert_eq!(tokens, vec!["american", "psycho", "2000", "1080p"]);
}

#[test]
fn test_simple() {
    assert_eq!(parse_movie("Groundhog Day"), ("groundhog day".into(), None));
    assert_eq!(parse_movie("Snatch! 2005"), ("snatch!".into(), Some(2005)));
    assert_eq!(
        parse_movie("snatch! (2005)"),
        ("snatch!".into(), Some(2005))
    );
    assert_eq!(
        parse_movie("snatch! [2005]"),
        ("snatch!".into(), Some(2005))
    );
}

#[test]
fn test_ambiguous_year() {
    assert_eq!(parse_movie("2011 1968"), ("2011".into(), Some(1968)));
    assert_eq!(parse_movie("2011"), ("2011".into(), None));
}

#[test]
fn test_metadata() {
    assert_eq!(
        parse_movie("Truman Show 1080p 1998.mkv"),
        ("truman show".into(), Some(1998))
    );
    assert_eq!(
        parse_movie("Truman Show 1080p.mkv"),
        ("truman show".into(), None)
    );
}

#[test]
fn test_year_within_scope() {
    assert_eq!(
        parse_movie("Night Of The Living Dead (1968 - Widescreen)"),
        ("night of the living dead".into(), Some(1968))
    )
}
