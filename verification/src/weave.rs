//! The tree reconciler: full teardown followed by full rebuild.
//!
//! The pipeline has three stages, each completing before the next: remove
//! every managed symlink; prune the directories that became empty; then
//! enumerate projects and create one symlink per computed view path,
//! resolving collisions deterministically against everything already in
//! place. The library computes the whole plan over a snapshot; a thin driver
//! executes it against the disk in order, aborting on the first filesystem
//! error with no rollback.

use crate::diag::Diagnostic;
use crate::diag::DiagnosticModel;
use crate::expand::expand_spec;
use crate::fstree::remove_empty_directories;
use crate::fstree::remove_empty_dirs_spec;
use crate::fstree::remove_symlinks_spec;
use crate::fstree::removed_dir_paths_spec;
use crate::fstree::removed_symlink_paths_spec;
use crate::fstree::stage2_diags_spec;
use crate::fstree::ancestor_closed;
use crate::fstree::contains_dir_at;
use crate::fstree::entry_managed;
use crate::fstree::has_live_content;
use crate::fstree::lemma_stage1_preserves_closure;
use crate::fstree::lemma_stage2_preserves_closure;
use crate::fstree::lemma_teardown_complete;
use crate::fstree::stage2_keep;
use crate::fstree::under_reserved;
use crate::fstree::EntryKind;
use crate::fstree::EntryKindModel;
use crate::fstree::EntryModel;
use crate::fstree::FsEntry;
use crate::paths::candidate_path;
use crate::paths::clone_path;
use crate::paths::first_free_index;
use crate::paths::lemma_candidate_path_injective;
use crate::paths::lemma_first_free_index;
use crate::paths::resolve_collision;
use crate::paths::resolve_spec;
use crate::paths::is_seg_prefix;
use crate::paths::seg_path_eq;
use crate::project::Project;
use crate::project::ProjectModel;
use crate::text::lemma_filter_all;
use crate::text::lemma_filter_concat;
use crate::text::lemma_filter_congruent;
use crate::text::lemma_filter_none;
use crate::schema::schemas_fill_diags_spec;
use crate::schema::schemas_fill_paths_spec;
use crate::schema::Schemas;
use vstd::prelude::*;

verus! {

/// The paths the entries of a snapshot occupy, in order.
pub open spec fn occupied_paths(entries: Seq<EntryModel>) -> Seq<Seq<Seq<char>>> {
    entries.map_values(|e: EntryModel| e.path)
}

/// The snapshot with directory entries added for the first `k` proper
/// prefixes of `w` that are not already present: what creating the missing
/// ancestors of a view path does.
pub open spec fn add_dirs_upto(entries: Seq<EntryModel>, w: Seq<Seq<char>>, k: int) -> Seq<
    EntryModel,
>
    decreases k,
{
    if k <= 0 {
        entries
    } else {
        let prev = add_dirs_upto(entries, w, k - 1);
        if occupied_paths(prev).contains(w.take(k)) {
            prev
        } else {
            prev.push(EntryModel { path: w.take(k), kind: EntryKindModel::Directory })
        }
    }
}

/// One link to be placed: the wanted path, the owning project, and the
/// symlink target.
pub struct WantedModel {
    pub path: Seq<Seq<char>>,
    pub uuid: Seq<char>,
    pub target: Seq<Seq<char>>,
}

/// The outcome of placing links: the grown snapshot, the created links in
/// creation order, and the collision diagnostics.
pub struct PlaceState {
    pub entries: Seq<EntryModel>,
    pub links: Seq<(Seq<Seq<char>>, Seq<Seq<char>>)>,
    pub diags: Seq<DiagnosticModel>,
}

/// The state after placing the first `n` wanted links, each against
/// everything already in place: missing ancestor directories are created,
/// then the first free collision candidate of the wanted path is taken.
pub open spec fn place_upto(init: Seq<EntryModel>, wanted: Seq<WantedModel>, n: int) -> PlaceState
    decreases n,
{
    if n <= 0 {
        PlaceState { entries: init, links: Seq::empty(), diags: Seq::empty() }
    } else {
        let prev = place_upto(init, wanted, n - 1);
        let w = wanted[n - 1];
        let with_dirs = add_dirs_upto(prev.entries, w.path, w.path.len() - 1);
        let k = first_free_index(w.path, occupied_paths(with_dirs));
        let resolved = candidate_path(w.path, k);
        PlaceState {
            entries: with_dirs.push(
                EntryModel { path: resolved, kind: EntryKindModel::Symlink(w.target) },
            ),
            links: prev.links.push((resolved, w.target)),
            diags: prev.diags + (if k != 0 {
                seq![DiagnosticModel::CollisionResolved { project: w.uuid, path: resolved }]
            } else {
                Seq::empty()
            }),
        }
    }
}

/// The links one project wants: its view paths in schema-then-environment
/// order, each pointing at the project's raw-storage data directory.
pub open spec fn project_wanted(
    p: ProjectModel,
    schemas: Seq<Seq<crate::schema::ComponentModel>>,
    defaults: Seq<(Seq<char>, Seq<char>)>,
    raw: Seq<Seq<char>>,
) -> Seq<WantedModel> {
    schemas_fill_paths_spec(
        schemas,
        expand_spec(p.tags),
        defaults,
        Seq::empty(),
        p.name,
    ).map_values(
        |path: Seq<Seq<char>>| WantedModel {
            path,
            uuid: p.uuid,
            target: raw + seq![p.uuid, p.name],
        },
    )
}

/// The state after rebuilding the view for the first `n` projects, in
/// project-store order: per project the fill diagnostics come first, then
/// its placements with their collision diagnostics.
pub open spec fn construct_upto(
    init: Seq<EntryModel>,
    projects: Seq<ProjectModel>,
    schemas: Seq<Seq<crate::schema::ComponentModel>>,
    defaults: Seq<(Seq<char>, Seq<char>)>,
    raw: Seq<Seq<char>>,
    n: int,
) -> PlaceState
    decreases n,
{
    if n <= 0 {
        PlaceState { entries: init, links: Seq::empty(), diags: Seq::empty() }
    } else {
        let prev = construct_upto(init, projects, schemas, defaults, raw, n - 1);
        let p = projects[n - 1];
        let wanted = project_wanted(p, schemas, defaults, raw);
        let placed = place_upto(prev.entries, wanted, wanted.len() as int);
        PlaceState {
            entries: placed.entries,
            links: prev.links + placed.links,
            diags: prev.diags + schemas_fill_diags_spec(
                schemas,
                expand_spec(p.tags),
                defaults,
                p.uuid,
            ) + placed.diags,
        }
    }
}

/// The state after rebuilding the whole view tree over a snapshot.
pub open spec fn construct_spec(
    init: Seq<EntryModel>,
    projects: Seq<ProjectModel>,
    schemas: Seq<Seq<crate::schema::ComponentModel>>,
    defaults: Seq<(Seq<char>, Seq<char>)>,
    raw: Seq<Seq<char>>,
) -> PlaceState {
    construct_upto(init, projects, schemas, defaults, raw, projects.len() as int)
}

/// The first `k` segments of a path, copied.
fn path_take(p: &Vec<String>, k: usize) -> (r: Vec<String>)
    requires
        k <= p@.len(),
    ensures
        r.deep_view() == p.deep_view().take(k as int),
{
    let mut r: Vec<String> = Vec::new();
    let mut i: usize = 0;
    while i < k
        invariant
            i <= k <= p@.len(),
            p@.len() == p.deep_view().len(),
            r.deep_view() =~= p.deep_view().take(i as int),
        decreases k - i,
    {
        assert(p.deep_view()[i as int] == p@[i as int]@);
        let ghost r_old = r.deep_view();
        r.push(p[i].clone());
        proof {
            assert(r.deep_view() =~= r_old.push(p.deep_view()[i as int]));
            assert(p.deep_view().take(i + 1) =~= p.deep_view().take(i as int).push(
                p.deep_view()[i as int],
            ));
        }
        i = i + 1;
    }
    r
}

/// Whether any entry occupies the given path.
#[verifier::loop_isolation(false)]
fn entries_contain_path(entries: &Vec<FsEntry>, p: &Vec<String>) -> (r: bool)
    ensures
        r == occupied_paths(entries.deep_view()).contains(p.deep_view()),
{
    let mut i: usize = 0;
    while i < entries.len()
        invariant
            i <= entries@.len(),
            entries@.len() == entries.deep_view().len(),
            forall|j: int|
                0 <= j < i ==> (#[trigger] entries.deep_view()[j]).path != p.deep_view(),
        decreases entries@.len() - i,
    {
        assert(entries.deep_view()[i as int] == entries@[i as int]@);
        if seg_path_eq(&entries[i].path, p) {
            assert(occupied_paths(entries.deep_view())[i as int] == p.deep_view());
            return true;
        }
        i = i + 1;
    }
    proof {
        if occupied_paths(entries.deep_view()).contains(p.deep_view()) {
            let j = choose|j: int|
                0 <= j < occupied_paths(entries.deep_view()).len() && occupied_paths(
                    entries.deep_view(),
                )[j] == p.deep_view();
            assert(entries.deep_view()[j].path == p.deep_view());
        }
    }
    false
}

/// The paths of all entries, copied, in order.
#[verifier::loop_isolation(false)]
fn collect_paths(entries: &Vec<FsEntry>) -> (r: Vec<Vec<String>>)
    ensures
        r.deep_view() == occupied_paths(entries.deep_view()),
{
    let mut r: Vec<Vec<String>> = Vec::new();
    let mut i: usize = 0;
    proof {
        assert(r.deep_view() =~= occupied_paths(entries.deep_view().take(0)));
    }
    while i < entries.len()
        invariant
            i <= entries@.len(),
            entries@.len() == entries.deep_view().len(),
            r.deep_view() == occupied_paths(entries.deep_view().take(i as int)),
        decreases entries@.len() - i,
    {
        assert(entries.deep_view()[i as int] == entries@[i as int]@);
        let ghost r_old = r.deep_view();
        r.push(clone_path(&entries[i].path));
        proof {
            assert(r.deep_view() =~= r_old.push(entries.deep_view()[i as int].path));
            assert(entries.deep_view().take(i + 1) =~= entries.deep_view().take(i as int).push(
                entries.deep_view()[i as int],
            ));
            assert(occupied_paths(entries.deep_view().take(i + 1)) =~= occupied_paths(
                entries.deep_view().take(i as int),
            ).push(entries.deep_view()[i as int].path));
        }
        i = i + 1;
    }
    proof {
        assert(entries.deep_view().take(entries.deep_view().len() as int) =~= entries.deep_view());
    }
    r
}

/// Creates the missing ancestor directories of one view path, resolves its
/// collisions against everything in place, and records the symlink entry.
/// Returns the resolved path and the collision counter it took.
#[verifier::loop_isolation(false)]
fn place_link(entries: &mut Vec<FsEntry>, w: &Vec<String>, target: &Vec<String>) -> (r: (
    Vec<String>,
    u64,
))
    requires
        w@.len() > 0,
    ensures
        final(entries).deep_view() == add_dirs_upto(
            old(entries).deep_view(),
            w.deep_view(),
            w.deep_view().len() - 1,
        ).push(
            EntryModel {
                path: resolve_spec(
                    w.deep_view(),
                    occupied_paths(
                        add_dirs_upto(
                            old(entries).deep_view(),
                            w.deep_view(),
                            w.deep_view().len() - 1,
                        ),
                    ),
                ),
                kind: EntryKindModel::Symlink(target.deep_view()),
            },
        ),
        r.0.deep_view() == resolve_spec(
            w.deep_view(),
            occupied_paths(
                add_dirs_upto(old(entries).deep_view(), w.deep_view(), w.deep_view().len() - 1),
            ),
        ),
        r.1 as nat == first_free_index(
            w.deep_view(),
            occupied_paths(
                add_dirs_upto(old(entries).deep_view(), w.deep_view(), w.deep_view().len() - 1),
            ),
        ),
{
    let ghost init = entries.deep_view();
    let ghost w_view = w.deep_view();
    let mut k: usize = 1;
    proof {
        assert(entries.deep_view() =~= add_dirs_upto(init, w_view, 0));
    }
    while k < w.len()
        invariant
            1 <= k,
            w@.len() > 0,
            k <= w@.len(),
            w@.len() == w_view.len(),
            entries.deep_view() == add_dirs_upto(init, w_view, k - 1),
        decreases w@.len() - k,
    {
        let prefix = path_take(w, k);
        if !entries_contain_path(entries, &prefix) {
            let ghost entries_old = entries.deep_view();
            entries.push(FsEntry { path: prefix, kind: EntryKind::Directory });
            proof {
                assert(entries.deep_view() =~= entries_old.push(
                    EntryModel { path: w_view.take(k as int), kind: EntryKindModel::Directory },
                ));
            }
        }
        proof {
            assert(entries.deep_view() =~= add_dirs_upto(init, w_view, k as int));
        }
        k = k + 1;
    }
    proof {
        assert(entries.deep_view() == add_dirs_upto(init, w_view, w_view.len() - 1));
    }
    let occ = collect_paths(entries);
    let (resolved, counter) = resolve_collision(w, &occ);
    let ghost entries_old = entries.deep_view();
    entries.push(FsEntry { path: clone_path(&resolved), kind: EntryKind::Symlink(clone_path(target)) });
    proof {
        assert(entries.deep_view() =~= entries_old.push(
            EntryModel { path: resolved.deep_view(), kind: EntryKindModel::Symlink(target.deep_view()) },
        ));
    }
    (resolved, counter)
}

/// The third stage: rebuilds the whole view tree over a snapshot of what
/// teardown left. For every project in store order, every view path the
/// schema set yields is materialized: missing ancestor directories are
/// created and the link is placed at the first free collision candidate,
/// claimed in enumeration order. Returns the grown snapshot, the links to
/// create in order, and the diagnostics of the run.
#[verifier::loop_isolation(false)]
pub fn construct_view_tree(
    existing: Vec<FsEntry>,
    projects: &Vec<Project>,
    schemas: &Schemas,
    raw_storage_dir: &Vec<String>,
) -> (r: (Vec<FsEntry>, Vec<(Vec<String>, Vec<String>)>, Vec<Diagnostic>))
    ensures
        r.0.deep_view() == construct_spec(
            existing.deep_view(),
            projects.deep_view(),
            schemas.schemas.deep_view(),
            schemas.default_tag_values.deep_view(),
            raw_storage_dir.deep_view(),
        ).entries,
        r.1.deep_view() == construct_spec(
            existing.deep_view(),
            projects.deep_view(),
            schemas.schemas.deep_view(),
            schemas.default_tag_values.deep_view(),
            raw_storage_dir.deep_view(),
        ).links,
        r.2.deep_view() == construct_spec(
            existing.deep_view(),
            projects.deep_view(),
            schemas.schemas.deep_view(),
            schemas.default_tag_values.deep_view(),
            raw_storage_dir.deep_view(),
        ).diags,
{
    let ghost init = existing.deep_view();
    let ghost projects_view = projects.deep_view();
    let ghost schemas_view = schemas.schemas.deep_view();
    let ghost defaults_view = schemas.default_tag_values.deep_view();
    let ghost raw_view = raw_storage_dir.deep_view();
    let mut entries = existing;
    let mut links: Vec<(Vec<String>, Vec<String>)> = Vec::new();
    let mut diags: Vec<Diagnostic> = Vec::new();
    let empty_base: Vec<String> = Vec::new();
    let mut i: usize = 0;
    proof {
        assert(entries.deep_view() =~= construct_upto(
            init,
            projects_view,
            schemas_view,
            defaults_view,
            raw_view,
            0,
        ).entries);
        assert(links.deep_view() =~= construct_upto(
            init,
            projects_view,
            schemas_view,
            defaults_view,
            raw_view,
            0,
        ).links);
        assert(diags.deep_view() =~= construct_upto(
            init,
            projects_view,
            schemas_view,
            defaults_view,
            raw_view,
            0,
        ).diags);
    }
    while i < projects.len()
        invariant
            i <= projects@.len(),
            projects@.len() == projects_view.len(),
            empty_base.deep_view() == Seq::<Seq<char>>::empty(),
            entries.deep_view() == construct_upto(
                init,
                projects_view,
                schemas_view,
                defaults_view,
                raw_view,
                i as int,
            ).entries,
            links.deep_view() == construct_upto(
                init,
                projects_view,
                schemas_view,
                defaults_view,
                raw_view,
                i as int,
            ).links,
            diags.deep_view() == construct_upto(
                init,
                projects_view,
                schemas_view,
                defaults_view,
                raw_view,
                i as int,
            ).diags,
        decreases projects@.len() - i,
    {
        assert(projects_view[i as int] == projects@[i as int]@);
        let project = &projects[i];
        let ghost p = projects_view[i as int];
        let (paths, mut fill_diags) = schemas.fill(project, &empty_base);
        let target = project.get_project_raw_data_path(raw_storage_dir);
        let ghost wanted = project_wanted(p, schemas_view, defaults_view, raw_view);
        proof {
            assert(target.deep_view() =~= raw_view + seq![p.uuid, p.name]);
            assert(wanted.len() == paths.deep_view().len());
            assert(forall|j: int|
                0 <= j < wanted.len() ==> (#[trigger] wanted[j]) == (WantedModel {
                    path: paths.deep_view()[j],
                    uuid: p.uuid,
                    target: raw_view + seq![p.uuid, p.name],
                }));
        }
        let ghost diags_mid = diags.deep_view();
        let ghost fd_view = fill_diags.deep_view();
        diags.append(&mut fill_diags);
        proof {
            assert(diags.deep_view() =~= diags_mid + fd_view);
        }
        // Place this project's links in order.
        let ghost entries_start = entries.deep_view();
        let mut j: usize = 0;
        let ghost links_start = links.deep_view();
        let ghost diags_start = diags.deep_view();
        proof {
            assert(place_upto(entries_start, wanted, 0).entries =~= entries.deep_view());
        }
        while j < paths.len()
            invariant
                j <= paths@.len(),
                paths@.len() == paths.deep_view().len(),
                paths@.len() == wanted.len(),
                forall|q: int|
                    0 <= q < wanted.len() ==> (#[trigger] wanted[q]) == (WantedModel {
                        path: paths.deep_view()[q],
                        uuid: p.uuid,
                        target: raw_view + seq![p.uuid, p.name],
                    }),
                target.deep_view() == raw_view + seq![p.uuid, p.name],
                entries.deep_view() == place_upto(entries_start, wanted, j as int).entries,
                links.deep_view() == links_start + place_upto(entries_start, wanted, j as int).links,
                diags.deep_view() == diags_start + place_upto(entries_start, wanted, j as int).diags,
            decreases paths@.len() - j,
        {
            assert(paths.deep_view()[j as int] == paths@[j as int].deep_view());
            let w = &paths[j];
            proof {
                assert(wanted[j as int].path == w.deep_view());
                if w.deep_view().len() == 0 {
                    assert(false) by {
                        assert(wanted[j as int].path.len() > 0) by {
                            lemma_wanted_paths_nonempty(p, schemas_view, defaults_view, raw_view, j as int);
                        }
                    }
                }
            }
            let (resolved, counter) = place_link(&mut entries, w, &target);
            let ghost links_old = links.deep_view();
            links.push((clone_path(&resolved), clone_path(&target)));
            proof {
                assert(links.deep_view() =~= links_old.push(
                    (resolved.deep_view(), target.deep_view()),
                ));
            }
            if counter != 0 {
                let ghost diags_old = diags.deep_view();
                diags.push(
                    Diagnostic::CollisionResolved {
                        project: project.uuid.clone(),
                        path: clone_path(&resolved),
                    },
                );
                proof {
                    assert(diags.deep_view() =~= diags_old.push(
                        DiagnosticModel::CollisionResolved {
                            project: p.uuid,
                            path: resolved.deep_view(),
                        },
                    ));
                }
            }
            proof {
                let st = place_upto(entries_start, wanted, j + 1);
                let prevst = place_upto(entries_start, wanted, j as int);
                assert(entries.deep_view() =~= st.entries);
                assert(links.deep_view() =~= links_start + st.links);
                assert(diags.deep_view() =~= diags_start + st.diags);
            }
            j = j + 1;
        }
        proof {
            let st = place_upto(entries_start, wanted, wanted.len() as int);
            let next = construct_upto(
                init,
                projects_view,
                schemas_view,
                defaults_view,
                raw_view,
                i + 1,
            );
            assert(entries.deep_view() =~= next.entries);
            assert(links.deep_view() =~= next.links);
            assert(diags.deep_view() =~= next.diags);
        }
        i = i + 1;
    }
    proof {
        assert(projects_view.len() as int == projects@.len() as int);
    }
    (entries, links, diags)
}

/// Every view path has the project's name as its final segment, so it is
/// never empty.
proof fn lemma_wanted_paths_nonempty(
    p: ProjectModel,
    schemas: Seq<Seq<crate::schema::ComponentModel>>,
    defaults: Seq<(Seq<char>, Seq<char>)>,
    raw: Seq<Seq<char>>,
    j: int,
)
    requires
        0 <= j < project_wanted(p, schemas, defaults, raw).len(),
    ensures
        project_wanted(p, schemas, defaults, raw)[j].path.len() > 0,
        project_wanted(p, schemas, defaults, raw)[j].path.last() == p.name,
{
    let paths = schemas_fill_paths_spec(schemas, expand_spec(p.tags), defaults, Seq::empty(), p.name);
    lemma_schemas_paths_shape(schemas, expand_spec(p.tags), defaults, Seq::empty(), p.name, schemas.len() as int);
}

/// Every path a schema set yields ends in the project name appended after
/// the base and the filled segments.
proof fn lemma_schemas_paths_shape(
    schemas: Seq<Seq<crate::schema::ComponentModel>>,
    envs: Seq<Seq<(Seq<char>, Seq<char>)>>,
    defaults: Seq<(Seq<char>, Seq<char>)>,
    base: Seq<Seq<char>>,
    name: Seq<char>,
    n: int,
)
    ensures
        forall|j: int|
            0 <= j < crate::schema::schemas_paths_upto(schemas, envs, defaults, base, name, n).len()
                ==> (#[trigger] crate::schema::schemas_paths_upto(
                schemas,
                envs,
                defaults,
                base,
                name,
                n,
            )[j]).len() > 0 && crate::schema::schemas_paths_upto(
                schemas,
                envs,
                defaults,
                base,
                name,
                n,
            )[j].last() == name,
    decreases n,
{
    if n > 0 {
        lemma_schemas_paths_shape(schemas, envs, defaults, base, name, n - 1);
        let prev = crate::schema::schemas_paths_upto(schemas, envs, defaults, base, name, n - 1);
        let block = crate::schema::fill_paths_spec(schemas[n - 1], envs, defaults, base, name);
        let whole = crate::schema::schemas_paths_upto(schemas, envs, defaults, base, name, n);
        assert(whole == prev + block);
        assert forall|j: int| 0 <= j < whole.len() implies (#[trigger] whole[j]).len() > 0
            && whole[j].last() == name by {
            if j < prev.len() {
                assert(whole[j] == prev[j]);
            } else {
                assert(whole[j] == block[j - prev.len()]);
                assert(block[j - prev.len()] == crate::schema::fill_path_spec(
                    schemas[n - 1],
                    envs[j - prev.len()],
                    defaults,
                    base,
                    name,
                ));
            }
        }
    }
}

/// The full plan one weave run produces, for a driver to execute in order:
/// remove the listed symlinks, remove the listed directories (children
/// first), then create the listed links, creating missing ancestor
/// directories of each. `entries` is the snapshot the tree is left in when
/// every operation succeeds.
pub struct WeavePlan {
    pub symlink_removals: Vec<Vec<String>>,
    pub directory_removals: Vec<Vec<String>>,
    pub links: Vec<(Vec<String>, Vec<String>)>,
    pub entries: Vec<FsEntry>,
    pub diagnostics: Vec<Diagnostic>,
}

/// The snapshot a full weave run leaves behind.
pub open spec fn weave_entries_spec(
    snapshot: Seq<EntryModel>,
    projects: Seq<ProjectModel>,
    schemas: Seq<Seq<crate::schema::ComponentModel>>,
    defaults: Seq<(Seq<char>, Seq<char>)>,
    canonical_raw: Seq<Seq<char>>,
    raw: Seq<Seq<char>>,
    reserved: Seq<char>,
) -> Seq<EntryModel> {
    construct_spec(
        remove_empty_dirs_spec(remove_symlinks_spec(snapshot, canonical_raw, reserved), reserved),
        projects,
        schemas,
        defaults,
        raw,
    ).entries
}

/// One full weave: teardown, prune, rebuild, strictly in that order, over a
/// snapshot of the view tree. Returns the complete plan and the
/// diagnostics: the teardown stage's first, then, per project, the fill
/// diagnostics and its collision diagnostics.
pub fn weave(
    snapshot: &Vec<FsEntry>,
    projects: &Vec<Project>,
    schemas: &Schemas,
    canonical_raw: &Vec<String>,
    raw_storage_dir: &Vec<String>,
    reserved: &String,
) -> (plan: WeavePlan)
    ensures
        plan.symlink_removals.deep_view() == removed_symlink_paths_spec(
            snapshot.deep_view(),
            canonical_raw.deep_view(),
            reserved@,
        ),
        plan.directory_removals.deep_view() == removed_dir_paths_spec(
            remove_symlinks_spec(snapshot.deep_view(), canonical_raw.deep_view(), reserved@),
            reserved@,
        ).reverse(),
        plan.links.deep_view() == construct_spec(
            remove_empty_dirs_spec(
                remove_symlinks_spec(snapshot.deep_view(), canonical_raw.deep_view(), reserved@),
                reserved@,
            ),
            projects.deep_view(),
            schemas.schemas.deep_view(),
            schemas.default_tag_values.deep_view(),
            raw_storage_dir.deep_view(),
        ).links,
        plan.entries.deep_view() == weave_entries_spec(
            snapshot.deep_view(),
            projects.deep_view(),
            schemas.schemas.deep_view(),
            schemas.default_tag_values.deep_view(),
            canonical_raw.deep_view(),
            raw_storage_dir.deep_view(),
            reserved@,
        ),
        plan.diagnostics.deep_view() == stage2_diags_spec(
            remove_symlinks_spec(snapshot.deep_view(), canonical_raw.deep_view(), reserved@),
            reserved@,
        ) + construct_spec(
            remove_empty_dirs_spec(
                remove_symlinks_spec(snapshot.deep_view(), canonical_raw.deep_view(), reserved@),
                reserved@,
            ),
            projects.deep_view(),
            schemas.schemas.deep_view(),
            schemas.default_tag_values.deep_view(),
            raw_storage_dir.deep_view(),
        ).diags,
{
    let (after_symlinks, symlink_removals) = crate::fstree::remove_symlinks(
        snapshot,
        canonical_raw,
        reserved,
    );
    let (after_dirs, directory_removals, mut teardown_diags) = remove_empty_directories(
        &after_symlinks,
        reserved,
    );
    let (entries, links, mut construct_diags) = construct_view_tree(
        after_dirs,
        projects,
        schemas,
        raw_storage_dir,
    );
    let mut diagnostics: Vec<Diagnostic> = Vec::new();
    let ghost td_view = teardown_diags.deep_view();
    let ghost cd_view = construct_diags.deep_view();
    diagnostics.append(&mut teardown_diags);
    diagnostics.append(&mut construct_diags);
    proof {
        assert(diagnostics.deep_view() =~= td_view + cd_view);
    }
    WeavePlan { symlink_removals, directory_removals, links, entries, diagnostics }
}

/// Collision determinism: when two enumerated view paths collide at the same
/// target, the first keeps the unrenamed path and the second is placed at
/// the path with `.1` appended; enumeration order alone decides which is
/// which.
pub proof fn lemma_collision_determinism(p: Seq<Seq<char>>, occ: Seq<Seq<Seq<char>>>)
    requires
        p.len() > 0,
        !occ.contains(p),
        !occ.contains(candidate_path(p, 1)),
    ensures
        resolve_spec(p, occ) == p,
        resolve_spec(p, occ.push(p)) == candidate_path(p, 1),
{
    lemma_first_free_index(p, occ);
    assert(candidate_path(p, 0) =~= p);
    let k0 = first_free_index(p, occ);
    if k0 > 0 {
        assert(occ.contains(candidate_path(p, 0)));
    }
    assert(k0 == 0);

    let occ2 = occ.push(p);
    lemma_first_free_index(p, occ2);
    let k1 = first_free_index(p, occ2);
    assert(occ2[occ.len() as int] == p);
    assert(occ2.contains(candidate_path(p, 0)));
    if k1 == 0 {
        assert(!occ2.contains(candidate_path(p, k1)));
    }
    lemma_candidate_path_injective(p, 0, 1);
    if occ2.contains(candidate_path(p, 1)) {
        let j = choose|j: int| 0 <= j < occ2.len() && occ2[j] == candidate_path(p, 1);
        if j < occ.len() {
            assert(occ.contains(candidate_path(p, 1)));
        } else {
            assert(occ2[j] == p);
        }
    }
    if k1 > 1 {
        assert(occ2.contains(candidate_path(p, 1)));
    }
    assert(k1 == 1);
}

/// What the rebuild may add over a snapshot: a directory at a path the
/// snapshot does not occupy, or a managed symlink, in both cases outside the
/// reserved directory.
pub open spec fn added_entry_ok(
    init: Seq<EntryModel>,
    e: EntryModel,
    raw: Seq<Seq<char>>,
    reserved: Seq<char>,
) -> bool {
    ||| (e.kind is Directory && e.path.len() >= 1 && !occupied_paths(init).contains(e.path)
        && !under_reserved(e.path, reserved))
    ||| (e.kind is Symlink && is_seg_prefix(raw, e.kind->Symlink_0) && !under_reserved(
        e.path,
        reserved,
    ))
}

/// A snapshot that starts with another occupies every path the other does.
proof fn lemma_occupied_prefix(a: Seq<EntryModel>, b: Seq<EntryModel>)
    requires
        b.len() >= a.len(),
        b.take(a.len() as int) == a,
    ensures
        forall|p: Seq<Seq<char>>|
            occupied_paths(a).contains(p) ==> #[trigger] occupied_paths(b).contains(p),
{
    assert forall|p: Seq<Seq<char>>|
        occupied_paths(a).contains(p) implies #[trigger] occupied_paths(b).contains(p) by {
        let j = choose|j: int| 0 <= j < a.len() && occupied_paths(a)[j] == p;
        assert(b.take(a.len() as int)[j] == b[j]);
        assert(occupied_paths(b)[j] == p);
    }
}

proof fn lemma_add_dirs_shape(
    entries: Seq<EntryModel>,
    w: Seq<Seq<char>>,
    k: int,
    reserved: Seq<char>,
)
    requires
        w.len() >= 1,
        w[0] != reserved,
        k <= w.len() - 1,
    ensures
        add_dirs_upto(entries, w, k).len() >= entries.len(),
        add_dirs_upto(entries, w, k).take(entries.len() as int) == entries,
        forall|i: int|
            entries.len() <= i < add_dirs_upto(entries, w, k).len() ==> (#[trigger] add_dirs_upto(
                entries,
                w,
                k,
            )[i]).kind is Directory && !occupied_paths(entries).contains(
                add_dirs_upto(entries, w, k)[i].path,
            ) && !under_reserved(add_dirs_upto(entries, w, k)[i].path, reserved)
                && add_dirs_upto(entries, w, k)[i].path.len() >= 1,
    decreases k,
{
    if k <= 0 {
        assert(add_dirs_upto(entries, w, k).take(entries.len() as int) =~= entries);
    } else {
        lemma_add_dirs_shape(entries, w, k - 1, reserved);
        let prev = add_dirs_upto(entries, w, k - 1);
        let out = add_dirs_upto(entries, w, k);
        if !occupied_paths(prev).contains(w.take(k)) {
            assert(out == prev.push(
                EntryModel { path: w.take(k), kind: EntryKindModel::Directory },
            ));
            assert(out.take(entries.len() as int) =~= prev.take(entries.len() as int));
            lemma_occupied_prefix(entries, prev);
            if occupied_paths(entries).contains(w.take(k)) {
                assert(occupied_paths(prev).contains(w.take(k)));
            }
            assert(w.take(k).len() == k);
            assert(w.take(k)[0] == w[0]);
            assert forall|i: int| entries.len() <= i < out.len() implies (#[trigger] out[i]).kind
                is Directory && !occupied_paths(entries).contains(out[i].path) && !under_reserved(
                out[i].path,
                reserved,
            ) && out[i].path.len() >= 1 by {
                if i < prev.len() {
                    assert(out[i] == prev[i]);
                }
            }
        }
    }
}

proof fn lemma_place_shape(
    init: Seq<EntryModel>,
    wanted: Seq<WantedModel>,
    n: int,
    raw: Seq<Seq<char>>,
    reserved: Seq<char>,
)
    requires
        0 <= n <= wanted.len(),
        forall|q: int|
            0 <= q < wanted.len() ==> (#[trigger] wanted[q]).path.len() >= 2 && wanted[q].path[0]
                != reserved && is_seg_prefix(raw, wanted[q].target),
    ensures
        place_upto(init, wanted, n).entries.len() >= init.len(),
        place_upto(init, wanted, n).entries.take(init.len() as int) == init,
        forall|i: int|
            init.len() <= i < place_upto(init, wanted, n).entries.len() ==> added_entry_ok(
                init,
                #[trigger] place_upto(init, wanted, n).entries[i],
                raw,
                reserved,
            ),
    decreases n,
{
    if n > 0 {
        lemma_place_shape(init, wanted, n - 1, raw, reserved);
        let prev = place_upto(init, wanted, n - 1).entries;
        let wq = wanted[n - 1];
        lemma_add_dirs_shape(prev, wq.path, wq.path.len() - 1, reserved);
        let with_dirs = add_dirs_upto(prev, wq.path, wq.path.len() - 1);
        let kf = first_free_index(wq.path, occupied_paths(with_dirs));
        let resolved = candidate_path(wq.path, kf);
        let out = place_upto(init, wanted, n).entries;
        assert(out == with_dirs.push(
            EntryModel { path: resolved, kind: EntryKindModel::Symlink(wq.target) },
        ));
        assert(with_dirs.take(init.len() as int) =~= with_dirs.take(prev.len() as int).take(
            init.len() as int,
        ));
        assert(out.take(init.len() as int) =~= with_dirs.take(init.len() as int));
        lemma_occupied_prefix(init, prev);
        assert(resolved.len() == wq.path.len());
        assert(resolved[0] == wq.path[0]);
        assert(!under_reserved(resolved, reserved));
        assert forall|i: int| init.len() <= i < out.len() implies added_entry_ok(
            init,
            #[trigger] out[i],
            raw,
            reserved,
        ) by {
            if i < prev.len() {
                assert(with_dirs.take(prev.len() as int)[i] == with_dirs[i]);
                assert(out[i] == place_upto(init, wanted, n - 1).entries[i]);
            } else if i < with_dirs.len() {
                assert(out[i] == with_dirs[i]);
                if occupied_paths(init).contains(with_dirs[i].path) {
                    assert(occupied_paths(prev).contains(with_dirs[i].path));
                }
            } else {
                assert(out[i] == (EntryModel {
                    path: resolved,
                    kind: EntryKindModel::Symlink(wq.target),
                }));
            }
        }
    } else {
        assert(place_upto(init, wanted, n).entries.take(init.len() as int) =~= init);
    }
}

/// With non-empty schemas, every view path has at least a segment for one
/// component and the final name segment.
proof fn lemma_schemas_paths_min_len(
    schemas: Seq<Seq<crate::schema::ComponentModel>>,
    envs: Seq<Seq<(Seq<char>, Seq<char>)>>,
    defaults: Seq<(Seq<char>, Seq<char>)>,
    base: Seq<Seq<char>>,
    name: Seq<char>,
    n: int,
)
    requires
        n <= schemas.len(),
        forall|s: int| 0 <= s < schemas.len() ==> (#[trigger] schemas[s]).len() > 0,
    ensures
        forall|j: int|
            0 <= j < crate::schema::schemas_paths_upto(schemas, envs, defaults, base, name, n).len()
                ==> (#[trigger] crate::schema::schemas_paths_upto(
                schemas,
                envs,
                defaults,
                base,
                name,
                n,
            )[j]).len() >= base.len() + 2,
    decreases n,
{
    if n > 0 {
        lemma_schemas_paths_min_len(schemas, envs, defaults, base, name, n - 1);
        let prev = crate::schema::schemas_paths_upto(schemas, envs, defaults, base, name, n - 1);
        let block = crate::schema::fill_paths_spec(schemas[n - 1], envs, defaults, base, name);
        let whole = crate::schema::schemas_paths_upto(schemas, envs, defaults, base, name, n);
        assert(whole == prev + block);
        assert forall|j: int| 0 <= j < whole.len() implies (#[trigger] whole[j]).len() >= base.len()
            + 2 by {
            if j < prev.len() {
                assert(whole[j] == prev[j]);
            } else {
                assert(whole[j] == block[j - prev.len()]);
                assert(block[j - prev.len()] == crate::schema::fill_path_spec(
                    schemas[n - 1],
                    envs[j - prev.len()],
                    defaults,
                    base,
                    name,
                ));
                assert(schemas[n - 1].len() > 0);
                assert(crate::schema::fill_segs_spec(
                    schemas[n - 1],
                    envs[j - prev.len()],
                    defaults,
                ).len() == schemas[n - 1].len());
            }
        }
    }
}

proof fn lemma_construct_shape(
    init: Seq<EntryModel>,
    projects: Seq<ProjectModel>,
    schemas: Seq<Seq<crate::schema::ComponentModel>>,
    defaults: Seq<(Seq<char>, Seq<char>)>,
    raw: Seq<Seq<char>>,
    reserved: Seq<char>,
    n: int,
)
    requires
        0 <= n <= projects.len(),
        forall|s: int| 0 <= s < schemas.len() ==> (#[trigger] schemas[s]).len() > 0,
        forall|i: int, j: int|
            0 <= i < projects.len() && 0 <= j < project_wanted(
                projects[i],
                schemas,
                defaults,
                raw,
            ).len() ==> (#[trigger] project_wanted(projects[i], schemas, defaults, raw)[j]).path[0]
                != reserved,
    ensures
        construct_upto(init, projects, schemas, defaults, raw, n).entries.len() >= init.len(),
        construct_upto(init, projects, schemas, defaults, raw, n).entries.take(init.len() as int)
            == init,
        forall|i: int|
            init.len() <= i < construct_upto(init, projects, schemas, defaults, raw, n).entries.len()
                ==> added_entry_ok(
                init,
                #[trigger] construct_upto(init, projects, schemas, defaults, raw, n).entries[i],
                raw,
                reserved,
            ),
    decreases n,
{
    if n > 0 {
        lemma_construct_shape(init, projects, schemas, defaults, raw, reserved, n - 1);
        let prev = construct_upto(init, projects, schemas, defaults, raw, n - 1).entries;
        let p = projects[n - 1];
        let wanted = project_wanted(p, schemas, defaults, raw);
        let paths = schemas_fill_paths_spec(schemas, expand_spec(p.tags), defaults, Seq::empty(), p.name);
        lemma_schemas_paths_min_len(schemas, expand_spec(p.tags), defaults, Seq::empty(), p.name, schemas.len() as int);
        assert forall|q: int| 0 <= q < wanted.len() implies (#[trigger] wanted[q]).path.len() >= 2
            && wanted[q].path[0] != reserved && is_seg_prefix(raw, wanted[q].target) by {
            assert(wanted[q].path == paths[q]);
            assert(wanted[q].target == raw + seq![p.uuid, p.name]);
            assert(raw =~= (raw + seq![p.uuid, p.name]).subrange(0, raw.len() as int));
        }
        lemma_place_shape(prev, wanted, wanted.len() as int, raw, reserved);
        let out = construct_upto(init, projects, schemas, defaults, raw, n).entries;
        assert(out == place_upto(prev, wanted, wanted.len() as int).entries);
        assert(out.take(init.len() as int) =~= out.take(prev.len() as int).take(init.len() as int));
        lemma_occupied_prefix(init, prev);
        assert forall|i: int| init.len() <= i < out.len() implies added_entry_ok(
            init,
            #[trigger] out[i],
            raw,
            reserved,
        ) by {
            if i < prev.len() {
                assert(out.take(prev.len() as int)[i] == out[i]);
                assert(out[i] == prev[i]);
            } else {
                assert(added_entry_ok(prev, out[i], raw, reserved));
                if out[i].kind is Directory && occupied_paths(init).contains(out[i].path) {
                    assert(occupied_paths(prev).contains(out[i].path));
                }
            }
        }
    } else {
        assert(construct_upto(init, projects, schemas, defaults, raw, n).entries.take(
            init.len() as int,
        ) =~= init);
    }
}

/// Idempotence of the full pipeline: a second weave over the tree the first
/// one produced, with unchanged projects and schemas, leaves an identical
/// tree. The snapshot must list every ancestor directory of its entries, as
/// a scan of a real tree does; symlink targets are taken as already
/// canonical, with the raw-storage root equal to its canonical form; every
/// schema is non-empty; and no view path may start with the reserved
/// management directory's name.
pub proof fn lemma_weave_idempotent(
    snapshot: Seq<EntryModel>,
    projects: Seq<ProjectModel>,
    schemas: Seq<Seq<crate::schema::ComponentModel>>,
    defaults: Seq<(Seq<char>, Seq<char>)>,
    raw: Seq<Seq<char>>,
    reserved: Seq<char>,
)
    requires
        ancestor_closed(snapshot),
        forall|s: int| 0 <= s < schemas.len() ==> (#[trigger] schemas[s]).len() > 0,
        forall|i: int, j: int|
            0 <= i < projects.len() && 0 <= j < project_wanted(
                projects[i],
                schemas,
                defaults,
                raw,
            ).len() ==> (#[trigger] project_wanted(projects[i], schemas, defaults, raw)[j]).path[0]
                != reserved,
    ensures
        weave_entries_spec(
            weave_entries_spec(snapshot, projects, schemas, defaults, raw, raw, reserved),
            projects,
            schemas,
            defaults,
            raw,
            raw,
            reserved,
        ) == weave_entries_spec(snapshot, projects, schemas, defaults, raw, raw, reserved),
{
    let keep1 = |e: EntryModel| !entry_managed(e, raw, reserved);
    let s1 = remove_symlinks_spec(snapshot, raw, reserved);
    let tear = remove_empty_dirs_spec(s1, reserved);
    let keep2 = |e: EntryModel| stage2_keep(s1, e, reserved);
    lemma_teardown_complete(snapshot, raw, reserved);
    lemma_stage1_preserves_closure(snapshot, raw, reserved);
    lemma_stage2_preserves_closure(s1, reserved);

    let built = construct_spec(tear, projects, schemas, defaults, raw);
    let t1 = built.entries;
    lemma_construct_shape(tear, projects, schemas, defaults, raw, reserved, projects.len() as int);
    let added = t1.skip(tear.len() as int);
    assert(t1 =~= tear + added) by {
        assert(t1.take(tear.len() as int) == tear);
    }

    // The second symlink stage removes exactly the created links.
    let is_dir_pred = |e: EntryModel| e.kind is Directory;
    lemma_filter_concat(tear, added, keep1);
    assert forall|i: int| 0 <= i < tear.len() implies keep1(#[trigger] tear[i]) by {}
    lemma_filter_all(tear, keep1);
    assert forall|i: int| 0 <= i < added.len() implies keep1(#[trigger] added[i]) == is_dir_pred(
        added[i],
    ) by {
        assert(added[i] == t1[tear.len() + i]);
        assert(added_entry_ok(tear, t1[tear.len() + i], raw, reserved));
    }
    lemma_filter_congruent(added, keep1, is_dir_pred);
    let d = added.filter(is_dir_pred);
    let s1b = remove_symlinks_spec(t1, raw, reserved);
    assert(s1b == tear + d);

    // The second directory stage removes exactly the created directories.
    let keep2b = |e: EntryModel| stage2_keep(s1b, e, reserved);
    lemma_filter_concat(tear, d, keep2b);
    crate::text::lemma_filter_element_of(added, is_dir_pred);
    assert forall|i: int| 0 <= i < tear.len() implies keep2b(#[trigger] tear[i]) by {
        if tear[i].kind is Directory && !under_reserved(tear[i].path, reserved) {
            assert(has_live_content(tear, tear[i].path));
            let wit = choose|w: int|
                0 <= w < tear.len() && !((#[trigger] tear[w]).kind is Directory) && is_seg_prefix(
                    tear[i].path,
                    tear[w].path,
                ) && tear[i].path.len() < tear[w].path.len();
            assert(s1b[wit] == tear[wit]);
            assert(has_live_content(s1b, tear[i].path));
        }
    }
    lemma_filter_all(tear, keep2b);
    assert forall|i: int| 0 <= i < d.len() implies !keep2b(#[trigger] d[i]) by {
        assert(added.contains(d[i]));
        let j = choose|j: int| 0 <= j < added.len() && added[j] == d[i];
        assert(added[j] == t1[tear.len() + j]);
        assert(added_entry_ok(tear, d[i], raw, reserved));
        assert(d[i].kind is Directory);
        assert(!under_reserved(d[i].path, reserved));
        if has_live_content(s1b, d[i].path) {
            let wit = choose|w: int|
                0 <= w < s1b.len() && !((#[trigger] s1b[w]).kind is Directory) && is_seg_prefix(
                    d[i].path,
                    s1b[w].path,
                ) && d[i].path.len() < s1b[w].path.len();
            // The witness is not one of the added directories, so it lies in
            // the teardown result, whose ancestor closure puts a directory at
            // the added directory's path, contradicting its freshness.
            assert(s1b =~= tear + d);
            if wit >= tear.len() {
                added.lemma_filter_pred(is_dir_pred, wit - tear.len());
                assert(s1b[wit] == d[wit - tear.len()]);
            }
            assert(wit < tear.len());
            assert(s1b[wit] == tear[wit]);
            let k = d[i].path.len() as int;
            assert(1 <= k < tear[wit].path.len());
            assert(contains_dir_at(tear, tear[wit].path.take(k)));
            assert(tear[wit].path.take(k) =~= d[i].path) by {
                assert(d[i].path == tear[wit].path.subrange(0, k));
            }
            let dd = choose|dd: int|
                0 <= dd < tear.len() && (#[trigger] tear[dd]).kind is Directory && tear[dd].path
                    == d[i].path;
            assert(occupied_paths(tear)[dd] == d[i].path);
            assert(occupied_paths(tear).contains(d[i].path));
            assert(false);
        }
    }
    lemma_filter_none(d, keep2b);
    let tear_b = remove_empty_dirs_spec(s1b, reserved);
    assert(tear_b =~= tear);

    // The rebuild over the same teardown result is the same rebuild.
    assert(weave_entries_spec(t1, projects, schemas, defaults, raw, raw, reserved) == construct_spec(
        tear_b,
        projects,
        schemas,
        defaults,
        raw,
    ).entries);
    assert(construct_spec(tear_b, projects, schemas, defaults, raw).entries == t1);
}

} // verus!
