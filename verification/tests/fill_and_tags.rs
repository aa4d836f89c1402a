use spiderman::diag::Diagnostic;
use spiderman::expand::expand_tags;
use spiderman::paths::nth_candidate;
use spiderman::paths::resolve_collision;
use spiderman::paths::u64_to_dec;
use spiderman::project::parse_tags;
use spiderman::project::Project;
use spiderman::schema::Schema;
use spiderman::schema::Schemas;
use spiderman::text::trim_string;

fn strings(v: &[&str]) -> Vec<String> {
    v.iter().map(|s| (*s).to_owned()).collect()
}

fn project(uuid: &str, name: &str, tags: &[(&str, &[&str])]) -> Project {
    Project {
        uuid: uuid.to_owned(),
        name: name.to_owned(),
        tags: tags
            .iter()
            .map(|(t, vs)| ((*t).to_owned(), strings(vs)))
            .collect(),
    }
}

#[test]
fn cartesian_sizing_two_by_one() {
    // Tags {a: {"1","2"}, b: {"x"}} expand to exactly two environments.
    let tags = vec![
        ("a".to_owned(), strings(&["1", "2"])),
        ("b".to_owned(), strings(&["x"])),
    ];
    let envs = expand_tags(&tags);
    assert_eq!(
        envs,
        vec![
            vec![("a".to_owned(), "1".to_owned()), ("b".to_owned(), "x".to_owned())],
            vec![("a".to_owned(), "2".to_owned()), ("b".to_owned(), "x".to_owned())],
        ]
    );
}

#[test]
fn empty_tag_map_expands_to_nothing() {
    let tags: Vec<(String, Vec<String>)> = vec![];
    assert_eq!(expand_tags(&tags), Vec::<Vec<(String, String)>>::new());
}

#[test]
fn tag_with_no_values_empties_the_product() {
    let tags = vec![
        ("a".to_owned(), strings(&["1", "2"])),
        ("b".to_owned(), Vec::new()),
    ];
    assert_eq!(expand_tags(&tags), Vec::<Vec<(String, String)>>::new());
}

#[test]
fn fill_uses_tag_values() {
    let schemas = Schemas {
        schemas: vec![Schema::parse("{type}/{status}")],
        default_tag_values: vec![],
    };
    let p = project("u1", "proj", &[("type", &["app"]), ("status", &["open"])]);
    let base = strings(&["base"]);
    let (paths, diags) = schemas.fill(&p, &base);
    assert_eq!(paths, vec![strings(&["base", "app", "open", "proj"])]);
    assert!(diags.is_empty());
}

#[test]
fn fill_literal_segments_are_verbatim() {
    let schemas = Schemas {
        schemas: vec![Schema::parse("type/{status}")],
        default_tag_values: vec![("status".to_owned(), "open".to_owned())],
    };
    let p = project("u1", "proj1", &[("type", &["app"])]);
    let base: Vec<String> = vec![];
    let (paths, diags) = schemas.fill(&p, &base);
    assert_eq!(paths, vec![strings(&["type", "open", "proj1"])]);
    assert!(diags.is_empty());
}

#[test]
fn default_fallback_is_silent() {
    let schemas = Schemas {
        schemas: vec![Schema::parse("{status}")],
        default_tag_values: vec![("status".to_owned(), "open".to_owned())],
    };
    let p = project("u1", "proj", &[("other", &["v"])]);
    let (paths, diags) = schemas.fill(&p, &vec![]);
    assert_eq!(paths, vec![strings(&["open", "proj"])]);
    assert!(diags.is_empty());
}

#[test]
fn unresolved_tag_takes_sentinel_with_one_diagnostic() {
    let schemas = Schemas {
        schemas: vec![Schema::parse("{missing}")],
        default_tag_values: vec![],
    };
    let p = project("u7", "proj", &[("other", &["v"])]);
    let (paths, diags) = schemas.fill(&p, &vec![]);
    assert_eq!(paths, vec![strings(&["unknown", "proj"])]);
    assert_eq!(diags.len(), 1);
    match &diags[0] {
        Diagnostic::UnresolvedTag { tag, project } => {
            assert_eq!(tag, "missing");
            assert_eq!(project, "u7");
        }
        _ => panic!("expected an unresolved-tag diagnostic"),
    }
}

#[test]
fn no_tags_project_yields_no_paths_and_a_diagnostic() {
    let schemas = Schemas {
        schemas: vec![Schema::parse("{type}")],
        default_tag_values: vec![],
    };
    let p = project("u9", "lonely", &[]);
    let (paths, diags) = schemas.fill(&p, &vec![]);
    assert!(paths.is_empty());
    assert_eq!(diags.len(), 1);
    match &diags[0] {
        Diagnostic::ProjectHasNoTags { project } => assert_eq!(project, "u9"),
        _ => panic!("expected a no-tags diagnostic"),
    }
}

#[test]
fn parse_tags_reads_colon_separated_lines() {
    let lines = strings(&["type: app", "status: open : wip"]);
    let tags = parse_tags(&lines);
    assert_eq!(
        tags,
        vec![
            ("type".to_owned(), strings(&["app"])),
            ("status".to_owned(), strings(&["open", "wip"])),
        ]
    );
}

#[test]
fn parse_tags_merges_repeated_tags() {
    let lines = strings(&["a: 1", "b: x", "a: 2"]);
    let tags = parse_tags(&lines);
    assert_eq!(
        tags,
        vec![
            ("a".to_owned(), strings(&["1", "2"])),
            ("b".to_owned(), strings(&["x"])),
        ]
    );
}

#[test]
fn parse_tags_skips_bad_lines() {
    let lines = strings(&["no colon here", "  : value", "", "ok: v"]);
    let tags = parse_tags(&lines);
    assert_eq!(tags, vec![("ok".to_owned(), strings(&["v"]))]);
}

#[test]
fn parse_tags_keeps_empty_values() {
    let lines = strings(&["a:"]);
    let tags = parse_tags(&lines);
    assert_eq!(tags, vec![("a".to_owned(), strings(&[""]))]);
}

#[test]
fn trim_removes_surrounding_whitespace() {
    assert_eq!(trim_string("  a b\t"), "a b");
    assert_eq!(trim_string("\r\n"), "");
    assert_eq!(trim_string("x"), "x");
}

#[test]
fn decimal_rendering() {
    assert_eq!(u64_to_dec(0), "0");
    assert_eq!(u64_to_dec(42), "42");
    assert_eq!(u64_to_dec(1234567890), "1234567890");
}

#[test]
fn candidate_appends_counter_to_extension() {
    let p = strings(&["dir", "name.tar.gz"]);
    assert_eq!(nth_candidate(&p, 0), strings(&["dir", "name.tar.gz"]));
    assert_eq!(nth_candidate(&p, 1), strings(&["dir", "name.tar.gz.1"]));
    assert_eq!(nth_candidate(&p, 2), strings(&["dir", "name.tar.gz.2"]));
    let q = strings(&["plain"]);
    assert_eq!(nth_candidate(&q, 1), strings(&["plain.1"]));
}

#[test]
fn resolve_collision_takes_first_free_candidate() {
    let p = strings(&["shared", "name"]);
    let occupied = vec![
        strings(&["shared", "name"]),
        strings(&["shared", "name.1"]),
    ];
    let (resolved, counter) = resolve_collision(&p, &occupied);
    assert_eq!(resolved, strings(&["shared", "name.2"]));
    assert_eq!(counter, 2);

    let (unrenamed, zero) = resolve_collision(&p, &vec![]);
    assert_eq!(unrenamed, p);
    assert_eq!(zero, 0);
}

#[test]
fn raw_data_paths() {
    let p = project("u-42", "proj", &[]);
    let raw = strings(&["root", ".spiderman", "raw"]);
    assert_eq!(
        p.get_project_raw_data_path(&raw),
        strings(&["root", ".spiderman", "raw", "u-42", "proj"])
    );
    assert_eq!(
        p.get_tags_file_path(&raw),
        strings(&["root", ".spiderman", "raw", "u-42", "spiderman.tags"])
    );
}

#[test]
fn cartesian_sizing_two_by_three() {
    let tags = vec![
        ("a".to_owned(), strings(&["1", "2"])),
        ("b".to_owned(), strings(&["x", "y", "z"])),
    ];
    let envs = expand_tags(&tags);
    assert_eq!(envs.len(), 6);
    // The first tag varies slowest.
    assert_eq!(envs[0][0].1, "1");
    assert_eq!(envs[5][0].1, "2");
    assert_eq!(envs[5][1].1, "z");
}

#[test]
fn schema_order_is_kept_across_the_set() {
    let schemas = Schemas {
        schemas: vec![Schema::parse("first/{g}"), Schema::parse("second/{g}")],
        default_tag_values: vec![],
    };
    let p = project("u", "n", &[("g", &["v"])]);
    let (paths, _) = schemas.fill(&p, &vec![]);
    assert_eq!(
        paths,
        vec![strings(&["first", "v", "n"]), strings(&["second", "v", "n"])]
    );
}

#[test]
fn every_view_path_ends_in_the_project_name() {
    let schemas = Schemas {
        schemas: vec![Schema::parse("{a}/{b}"), Schema::parse("x")],
        default_tag_values: vec![("b".to_owned(), "d".to_owned())],
    };
    let p = project("u", "the-name", &[("a", &["1", "2"])]);
    let (paths, _) = schemas.fill(&p, &strings(&["base"]));
    assert!(!paths.is_empty());
    for path in &paths {
        assert_eq!(path.last().map(String::as_str), Some("the-name"));
    }
}
