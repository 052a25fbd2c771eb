use merovingian::tokens::join_tokens;
use merovingian::tokens::tag_splitter;
use merovingian::tokens::text_to_tags;
use merovingian::util::filter_path;
use merovingian::util::format_runtime;

fn tags_of(text: &str) -> Vec<String> {
    let mut tags = Vec::new();
    text_to_tags(text, &mut tags);
    tags
}

#[test]
fn tokenize_lowercases_and_splits() {
    assert_eq!(tags_of("The Matrix"), vec!["matrix"]);
    assert_eq!(tags_of("American.Psycho"), vec!["american", "psycho"]);
}

#[test]
fn tokenize_drops_stopwords() {
    assert_eq!(
        tags_of("Night Of The Living Dead"),
        vec!["night", "living", "dead"]
    );
    assert_eq!(tags_of("a an the of in on to t s"), Vec::<String>::new());
}

#[test]
fn tokenize_collapses_duplicates_keeping_first_occurrence() {
    assert_eq!(tags_of("foo bar foo baz bar"), vec!["foo", "bar", "baz"]);
}

#[test]
fn tokenize_drops_empty_fragments() {
    assert_eq!(tags_of("--foo..bar--"), vec!["foo", "bar"]);
    assert_eq!(tags_of(""), Vec::<String>::new());
}

#[test]
fn tokenize_render_round_trip_on_concrete_tags() {
    let tags = tags_of("night living dead");
    let rendered = join_tokens(&tags);
    assert_eq!(rendered, "night living dead");
    assert_eq!(tags_of(&rendered), tags);
}

#[test]
fn splitter_covers_path_filter_class() {
    for c in ['/', '<', '>', ':', '"', '\\', '|', '?', '*', '\u{0}', '\u{1f}', '\u{7f}'] {
        assert!(tag_splitter(c));
    }
    assert!(tag_splitter(' '));
    assert!(tag_splitter('\u{a0}'));
    assert!(!tag_splitter('x'));
    assert!(!tag_splitter('0'));
}

#[test]
fn filter_path_rewrites_and_trims() {
    assert_eq!(filter_path("a/b:c"), "a_b_c");
    assert_eq!(filter_path("It Follows (2014)"), "It Follows (2014)");
    assert_eq!(filter_path("ends badly. "), "ends badly");
    assert_eq!(filter_path("tab\there"), "tab_here");
}

#[test]
fn format_runtime_pads_minutes() {
    assert_eq!(format_runtime(142), "2h 22m");
    assert_eq!(format_runtime(60), "1h 00m");
    assert_eq!(format_runtime(9), "0h 09m");
    assert_eq!(format_runtime(0), "0h 00m");
}
