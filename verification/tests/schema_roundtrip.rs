use spiderman::schema::Schema;
use spiderman::schema::SchemaPathComponent;

fn comp_fixed(s: &str) -> SchemaPathComponent {
    SchemaPathComponent::Fixed(s.to_owned())
}

fn comp_tag(s: &str) -> SchemaPathComponent {
    SchemaPathComponent::Tag(s.to_owned())
}

fn comps_of(schema: &Schema) -> Vec<(bool, String)> {
    schema
        .components
        .iter()
        .map(|c| match c {
            SchemaPathComponent::Tag(t) => (true, t.clone()),
            SchemaPathComponent::Fixed(f) => (false, f.clone()),
        })
        .collect()
}

#[test]
fn parse_literal_and_placeholder() {
    let s = Schema::parse("type/{status}");
    assert_eq!(
        comps_of(&s),
        vec![(false, "type".to_owned()), (true, "status".to_owned())]
    );
}

#[test]
fn parse_strips_one_leading_and_trailing_slash() {
    let s = Schema::parse("/a/{b}/c/");
    assert_eq!(
        comps_of(&s),
        vec![
            (false, "a".to_owned()),
            (true, "b".to_owned()),
            (false, "c".to_owned())
        ]
    );
}

#[test]
fn parse_empty_string_is_one_empty_literal() {
    let s = Schema::parse("");
    assert_eq!(comps_of(&s), vec![(false, String::new())]);
}

#[test]
fn parse_empty_segments_are_kept() {
    let s = Schema::parse("a//b");
    assert_eq!(
        comps_of(&s),
        vec![
            (false, "a".to_owned()),
            (false, String::new()),
            (false, "b".to_owned())
        ]
    );
}

#[test]
fn parse_unbalanced_braces_stay_literal() {
    let s = Schema::parse("{open/close}/a{b}");
    assert_eq!(
        comps_of(&s),
        vec![
            (false, "{open".to_owned()),
            (false, "close}".to_owned()),
            (false, "a{b}".to_owned())
        ]
    );
}

#[test]
fn parse_empty_braces_stay_literal() {
    let s = Schema::parse("{}");
    assert_eq!(comps_of(&s), vec![(false, "{}".to_owned())]);
}

#[test]
fn serialize_rewraps_placeholders() {
    let s = Schema {
        components: vec![comp_fixed("projects"), comp_tag("year"), comp_fixed("misc")],
    };
    assert_eq!(s.serialize(), Some("projects/{year}/misc".to_owned()));
}

#[test]
fn serialize_empty_schema_has_no_string_form() {
    let s = Schema { components: vec![] };
    assert_eq!(s.serialize(), None);
}

#[test]
fn serialize_single_component() {
    let s = Schema { components: vec![comp_tag("x")] };
    assert_eq!(s.serialize(), Some("{x}".to_owned()));
}

#[test]
fn round_trip_reproduces_schema_strings() {
    for text in [
        "type/{status}",
        "a",
        "",
        "{tag}",
        "a//b",
        "{x}/{x}/{x}",
        "plain/path/without/tags",
        "odd{brace/seg}ment",
    ] {
        let parsed = Schema::parse(text);
        assert_eq!(parsed.serialize(), Some(text.to_owned()));
    }
}

#[test]
fn match_with_dir_captures_tags() {
    let s = Schema::parse("{type}/{status}");
    let base = vec!["base".to_owned()];
    let path = vec!["base".to_owned(), "app".to_owned(), "open".to_owned()];
    let m = s.match_with_dir(&path, &base).expect("path should match");
    assert_eq!(
        m,
        vec![
            ("type".to_owned(), "app".to_owned()),
            ("status".to_owned(), "open".to_owned())
        ]
    );
}

#[test]
fn match_with_dir_rejects_wrong_literal() {
    let s = Schema::parse("type/{status}");
    let base = vec!["base".to_owned()];
    let path = vec!["base".to_owned(), "other".to_owned(), "open".to_owned()];
    assert!(s.match_with_dir(&path, &base).is_none());
}

#[test]
fn match_with_dir_rejects_path_outside_base() {
    let s = Schema::parse("{status}");
    let base = vec!["base".to_owned()];
    let path = vec!["elsewhere".to_owned(), "open".to_owned()];
    assert!(s.match_with_dir(&path, &base).is_none());
}

#[test]
fn match_with_dir_zip_stops_at_shorter() {
    let s = Schema::parse("type/{status}");
    let base: Vec<String> = vec![];
    // The path has only the first segment: the placeholder is never reached.
    let path = vec!["type".to_owned()];
    let m = s.match_with_dir(&path, &base).expect("prefix should match");
    assert_eq!(m, vec![]);
}

#[test]
fn match_with_dir_repeated_tag_keeps_last_value() {
    let s = Schema::parse("{x}/{x}");
    let base: Vec<String> = vec![];
    let path = vec!["first".to_owned(), "second".to_owned()];
    let m = s.match_with_dir(&path, &base).expect("path should match");
    assert_eq!(m, vec![("x".to_owned(), "second".to_owned())]);
}
