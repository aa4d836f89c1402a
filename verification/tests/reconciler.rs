use spiderman::diag::Diagnostic;
use spiderman::environment::Config;
use spiderman::environment::Environment;
use spiderman::fstree::remove_empty_directories;
use spiderman::fstree::remove_symlinks;
use spiderman::fstree::EntryKind;
use spiderman::fstree::FsEntry;
use spiderman::project::Project;
use spiderman::schema::Schema;
use spiderman::schema::Schemas;
use spiderman::weave::weave;

fn strings(v: &[&str]) -> Vec<String> {
    v.iter().map(|s| (*s).to_owned()).collect()
}

fn dir(path: &[&str]) -> FsEntry {
    FsEntry { path: strings(path), kind: EntryKind::Directory }
}

fn file(path: &[&str]) -> FsEntry {
    FsEntry { path: strings(path), kind: EntryKind::File }
}

fn link(path: &[&str], target: &[&str]) -> FsEntry {
    FsEntry { path: strings(path), kind: EntryKind::Symlink(strings(target)) }
}

/// A comparable rendering of an entry: its path, a kind marker, and the
/// target if it is a symlink.
fn snap(e: &FsEntry) -> (Vec<String>, u8, Vec<String>) {
    match &e.kind {
        EntryKind::Directory => (e.path.clone(), 0, vec![]),
        EntryKind::Symlink(t) => (e.path.clone(), 1, t.clone()),
        EntryKind::File => (e.path.clone(), 2, vec![]),
    }
}

fn snap_all(entries: &[FsEntry]) -> Vec<(Vec<String>, u8, Vec<String>)> {
    entries.iter().map(snap).collect()
}

fn project(uuid: &str, name: &str, tags: &[(&str, &[&str])]) -> Project {
    Project {
        uuid: uuid.to_owned(),
        name: name.to_owned(),
        tags: tags
            .iter()
            .map(|(t, vs)| ((*t).to_owned(), vs.iter().map(|v| (*v).to_owned()).collect()))
            .collect(),
    }
}

#[test]
fn remove_symlinks_removes_only_managed_links() {
    let raw = strings(&["root", ".spiderman", "raw"]);
    let entries = vec![
        dir(&["a"]),
        link(&["a", "mine"], &["root", ".spiderman", "raw", "u1", "p"]),
        link(&["a", "foreign"], &["somewhere", "else"]),
        file(&["a", "data.txt"]),
        link(&[".spiderman", "inside"], &["root", ".spiderman", "raw", "u1", "p"]),
    ];
    let (kept, removed) = remove_symlinks(&entries, &raw, &".spiderman".to_owned());
    assert_eq!(removed, vec![strings(&["a", "mine"])]);
    assert_eq!(
        snap_all(&kept),
        snap_all(&[
            dir(&["a"]),
            link(&["a", "foreign"], &["somewhere", "else"]),
            file(&["a", "data.txt"]),
            link(&[".spiderman", "inside"], &["root", ".spiderman", "raw", "u1", "p"]),
        ])
    );
}

#[test]
fn teardown_completeness_no_managed_links_no_empty_dirs() {
    let raw = strings(&["root", ".spiderman", "raw"]);
    let reserved = ".spiderman".to_owned();
    let entries = vec![
        dir(&["a"]),
        dir(&["a", "b"]),
        link(&["a", "b", "p"], &["root", ".spiderman", "raw", "u1", "p"]),
        dir(&["c"]),
        file(&["c", "f.txt"]),
        dir(&["d"]),
    ];
    let (after_links, _) = remove_symlinks(&entries, &raw, &reserved);
    let (kept, removed_dirs, diags) = remove_empty_directories(&after_links, &reserved);
    // The directories emptied by the teardown are gone, children first.
    assert_eq!(
        removed_dirs,
        vec![strings(&["d"]), strings(&["a", "b"]), strings(&["a"])]
    );
    // What stays: the directory with foreign content and the content itself.
    assert_eq!(snap_all(&kept), snap_all(&[dir(&["c"]), file(&["c", "f.txt"])]));
    // Nothing that remains resolves into raw storage.
    for e in &kept {
        if let EntryKind::Symlink(target) = &e.kind {
            assert!(!target.starts_with(&raw[..]));
        }
    }
    // The leftovers are each reported once.
    assert_eq!(diags.len(), 2);
    match &diags[0] {
        Diagnostic::DirectoryNotEmpty { path } => assert_eq!(path, &strings(&["c"])),
        _ => panic!("expected a directory-not-empty diagnostic"),
    }
    match &diags[1] {
        Diagnostic::UnexpectedEntry { path } => assert_eq!(path, &strings(&["c", "f.txt"])),
        _ => panic!("expected an unexpected-entry diagnostic"),
    }
}

#[test]
fn end_to_end_default_used_silently() {
    // One project with a type tag only; status falls back to the default.
    let schemas = Schemas {
        schemas: vec![Schema::parse("{type}/{status}")],
        default_tag_values: vec![("status".to_owned(), "open".to_owned())],
    };
    let projects = vec![project("u-p1", "proj1", &[("type", &["app"])])];
    let raw = strings(&["root", ".spiderman", "raw"]);
    let snapshot: Vec<FsEntry> = vec![];
    let plan = weave(&snapshot, &projects, &schemas, &raw, &raw, &".spiderman".to_owned());
    assert!(plan.symlink_removals.is_empty());
    assert!(plan.directory_removals.is_empty());
    assert_eq!(
        plan.links,
        vec![(
            strings(&["app", "open", "proj1"]),
            strings(&["root", ".spiderman", "raw", "u-p1", "proj1"])
        )]
    );
    assert!(plan.diagnostics.is_empty());
    assert_eq!(
        snap_all(&plan.entries),
        snap_all(&[
            dir(&["app"]),
            dir(&["app", "open"]),
            link(
                &["app", "open", "proj1"],
                &["root", ".spiderman", "raw", "u-p1", "proj1"]
            ),
        ])
    );
}

#[test]
fn collision_determinism_first_project_claims_plain_name() {
    let schemas = Schemas {
        schemas: vec![Schema::parse("{g}")],
        default_tag_values: vec![],
    };
    let projects = vec![
        project("u-1", "name", &[("g", &["shared"])]),
        project("u-2", "name", &[("g", &["shared"])]),
    ];
    let raw = strings(&["root", ".spiderman", "raw"]);
    let plan = weave(&vec![], &projects, &schemas, &raw, &raw, &".spiderman".to_owned());
    assert_eq!(plan.links.len(), 2);
    assert_eq!(plan.links[0].0, strings(&["shared", "name"]));
    assert_eq!(plan.links[1].0, strings(&["shared", "name.1"]));
    assert_eq!(plan.diagnostics.len(), 1);
    match &plan.diagnostics[0] {
        Diagnostic::CollisionResolved { project, path } => {
            assert_eq!(project, "u-2");
            assert_eq!(path, &strings(&["shared", "name.1"]));
        }
        _ => panic!("expected a collision diagnostic"),
    }
}

#[test]
fn empty_tag_project_never_appears() {
    let schemas = Schemas {
        schemas: vec![Schema::parse("{g}")],
        default_tag_values: vec![],
    };
    let projects = vec![project("u-empty", "ghost", &[])];
    let raw = strings(&["root", ".spiderman", "raw"]);
    let plan = weave(&vec![], &projects, &schemas, &raw, &raw, &".spiderman".to_owned());
    assert!(plan.links.is_empty());
    assert!(plan.entries.is_empty());
    assert_eq!(plan.diagnostics.len(), 1);
    assert!(matches!(
        &plan.diagnostics[0],
        Diagnostic::ProjectHasNoTags { project } if project == "u-empty"
    ));
}

#[test]
fn weave_twice_produces_identical_tree() {
    // The full pipeline run a second time over the tree it produced, with
    // unchanged projects and schemas, leaves a byte-identical tree.
    let schemas = Schemas {
        schemas: vec![Schema::parse("{type}/{status}"), Schema::parse("all")],
        default_tag_values: vec![("status".to_owned(), "open".to_owned())],
    };
    let projects = vec![
        project("u-1", "one", &[("type", &["app", "tool"])]),
        project("u-2", "one", &[("type", &["app"]), ("status", &["wip"])]),
    ];
    let raw = strings(&["root", ".spiderman", "raw"]);
    let reserved = ".spiderman".to_owned();
    // Foreign content that teardown must preserve.
    let snapshot = vec![
        dir(&["keep"]),
        file(&["keep", "notes.txt"]),
        link(&["stale"], &["root", ".spiderman", "raw", "u-gone", "old"]),
    ];
    let plan1 = weave(&snapshot, &projects, &schemas, &raw, &raw, &reserved);
    let plan2 = weave(&plan1.entries, &projects, &schemas, &raw, &raw, &reserved);
    assert_eq!(snap_all(&plan1.entries), snap_all(&plan2.entries));
    // The second run removes exactly the links the first one created.
    let created: Vec<Vec<String>> = plan1.links.iter().map(|(p, _)| p.clone()).collect();
    assert_eq!(plan2.symlink_removals, created);
}

#[test]
fn valid_spiderman_dir_needs_all_three_entries() {
    let complete = vec![
        dir(&[".spiderman"]),
        dir(&[".spiderman", "raw"]),
        file(&[".spiderman", "schema.toml"]),
    ];
    assert!(Environment::is_valid_spiderman_dir(&complete));

    let missing_raw = vec![dir(&[".spiderman"]), file(&[".spiderman", "schema.toml"])];
    assert!(!Environment::is_valid_spiderman_dir(&missing_raw));

    let schema_is_dir = vec![
        dir(&[".spiderman"]),
        dir(&[".spiderman", "raw"]),
        dir(&[".spiderman", "schema.toml"]),
    ];
    assert!(!Environment::is_valid_spiderman_dir(&schema_is_dir));
}

#[test]
fn environment_derives_management_paths() {
    let schemas = Schemas { schemas: vec![], default_tag_values: vec![] };
    let config = Config { default_project_dir: "~/spiderman_projects".to_owned() };
    let env = Environment::new(strings(&["home", "projects"]), schemas, config);
    assert_eq!(env.base_path, strings(&["home", "projects"]));
    assert_eq!(env.spiderman_dir, strings(&["home", "projects", ".spiderman"]));
    assert_eq!(
        env.raw_storage_dir,
        strings(&["home", "projects", ".spiderman", "raw"])
    );
}

#[test]
fn teardown_stages_are_idempotent() {
    let raw = strings(&["root", ".spiderman", "raw"]);
    let reserved = ".spiderman".to_owned();
    let entries = vec![
        dir(&["a"]),
        link(&["a", "p"], &["root", ".spiderman", "raw", "u", "p"]),
        dir(&["c"]),
        file(&["c", "f"]),
    ];
    let (s1, _) = remove_symlinks(&entries, &raw, &reserved);
    let (s1_again, removed_again) = remove_symlinks(&s1, &raw, &reserved);
    assert!(removed_again.is_empty());
    assert_eq!(snap_all(&s1), snap_all(&s1_again));

    let (s2, _, _) = remove_empty_directories(&s1, &reserved);
    let (s2_again, removed_dirs_again, _) = remove_empty_directories(&s2, &reserved);
    assert!(removed_dirs_again.is_empty());
    assert_eq!(snap_all(&s2), snap_all(&s2_again));
}
