//! A snapshot of the view tree and the two teardown stages of the
//! reconciler.
//!
//! The snapshot lists every entry under the base directory, its path given
//! as segments relative to the base, and symlink targets given as absolute,
//! already canonicalized segment paths. A symlink is managed exactly when
//! its canonical target lies under the canonical raw-storage root; that
//! comparison, over canonical paths, is the sole criterion by which the
//! reconciler tells its own content from foreign content. Entries whose
//! first segment is the reserved management directory are never touched.

use crate::diag::Diagnostic;
use crate::diag::DiagnosticModel;
use crate::paths::clone_path;
use crate::paths::is_seg_prefix;
use crate::paths::seg_prefix;
use crate::text::lemma_filter_all;
use crate::text::lemma_filter_element_of;
use crate::text::lemma_filter_push;
use vstd::prelude::*;

verus! {

/// What one entry under the base directory is.
pub enum EntryKind {
    Directory,
    /// A symlink, with its canonicalized target as absolute segments.
    Symlink(Vec<String>),
    /// Anything that is neither a directory nor a symlink.
    File,
}

/// The mathematical value of an entry kind.
pub enum EntryKindModel {
    Directory,
    Symlink(Seq<Seq<char>>),
    File,
}

/// One entry of the snapshot: its path relative to the base directory, and
/// what it is.
pub struct FsEntry {
    pub path: Vec<String>,
    pub kind: EntryKind,
}

/// The mathematical value of one snapshot entry.
pub struct EntryModel {
    pub path: Seq<Seq<char>>,
    pub kind: EntryKindModel,
}

impl View for EntryKind {
    type V = EntryKindModel;

    open spec fn view(&self) -> EntryKindModel {
        match self {
            EntryKind::Directory => EntryKindModel::Directory,
            EntryKind::Symlink(t) => EntryKindModel::Symlink(t.deep_view()),
            EntryKind::File => EntryKindModel::File,
        }
    }
}

impl View for FsEntry {
    type V = EntryModel;

    open spec fn view(&self) -> EntryModel {
        EntryModel { path: self.path.deep_view(), kind: self.kind@ }
    }
}

impl DeepView for FsEntry {
    type V = EntryModel;

    open spec fn deep_view(&self) -> EntryModel {
        self.view()
    }
}

/// Whether a path lies inside the reserved management directory.
pub open spec fn under_reserved(p: Seq<Seq<char>>, reserved: Seq<char>) -> bool {
    p.len() > 0 && p[0] == reserved
}

/// Whether an entry is a managed symlink: a symlink outside the reserved
/// directory whose canonical target lies under the canonical raw-storage
/// root.
pub open spec fn entry_managed(e: EntryModel, raw: Seq<Seq<char>>, reserved: Seq<char>) -> bool {
    &&& e.kind is Symlink
    &&& is_seg_prefix(raw, e.kind->Symlink_0)
    &&& !under_reserved(e.path, reserved)
}

/// The entries that survive the symlink-removal stage: everything except the
/// managed symlinks.
pub open spec fn remove_symlinks_spec(
    entries: Seq<EntryModel>,
    raw: Seq<Seq<char>>,
    reserved: Seq<char>,
) -> Seq<EntryModel> {
    entries.filter(|e: EntryModel| !entry_managed(e, raw, reserved))
}

/// The paths of the symlinks the first stage removes, in snapshot order.
pub open spec fn removed_symlink_paths_spec(
    entries: Seq<EntryModel>,
    raw: Seq<Seq<char>>,
    reserved: Seq<char>,
) -> Seq<Seq<Seq<char>>> {
    entries.filter(|e: EntryModel| entry_managed(e, raw, reserved)).map_values(
        |e: EntryModel| e.path,
    )
}

/// Whether anything that is not a directory lives strictly below `d`.
pub open spec fn has_live_content(entries: Seq<EntryModel>, d: Seq<Seq<char>>) -> bool {
    exists|j: int|
        0 <= j < entries.len() && !((#[trigger] entries[j]).kind is Directory) && is_seg_prefix(
            d,
            entries[j].path,
        ) && d.len() < entries[j].path.len()
}

/// Whether the empty-directory stage keeps an entry: every non-directory
/// stays; a directory stays when it is reserved or something other than a
/// directory lives below it.
pub open spec fn stage2_keep(entries: Seq<EntryModel>, e: EntryModel, reserved: Seq<char>) -> bool {
    if e.kind is Directory {
        under_reserved(e.path, reserved) || has_live_content(entries, e.path)
    } else {
        true
    }
}

/// The entries that survive the empty-directory stage.
pub open spec fn remove_empty_dirs_spec(entries: Seq<EntryModel>, reserved: Seq<char>) -> Seq<
    EntryModel,
> {
    entries.filter(|e: EntryModel| stage2_keep(entries, e, reserved))
}

/// The paths of the directories the second stage removes, in snapshot order.
pub open spec fn removed_dir_paths_spec(entries: Seq<EntryModel>, reserved: Seq<char>) -> Seq<
    Seq<Seq<char>>,
> {
    entries.filter(|e: EntryModel| !stage2_keep(entries, e, reserved)).map_values(
        |e: EntryModel| e.path,
    )
}

/// The diagnostic one surviving entry contributes during the second stage.
pub open spec fn stage2_entry_diags(
    entries: Seq<EntryModel>,
    e: EntryModel,
    reserved: Seq<char>,
) -> Seq<DiagnosticModel> {
    if under_reserved(e.path, reserved) {
        Seq::empty()
    } else if !(e.kind is Directory) {
        seq![DiagnosticModel::UnexpectedEntry { path: e.path }]
    } else if has_live_content(entries, e.path) {
        seq![DiagnosticModel::DirectoryNotEmpty { path: e.path }]
    } else {
        Seq::empty()
    }
}

/// The diagnostics the first `n` entries contribute during the second stage.
pub open spec fn stage2_diags_upto(
    entries: Seq<EntryModel>,
    reserved: Seq<char>,
    n: int,
) -> Seq<DiagnosticModel>
    decreases n,
{
    if n <= 0 {
        Seq::empty()
    } else {
        stage2_diags_upto(entries, reserved, n - 1) + stage2_entry_diags(
            entries,
            entries[n - 1],
            reserved,
        )
    }
}

/// The diagnostics of the second stage: one per leftover entry that is not a
/// directory, and one per non-empty directory left in place.
pub open spec fn stage2_diags_spec(entries: Seq<EntryModel>, reserved: Seq<char>) -> Seq<
    DiagnosticModel,
> {
    stage2_diags_upto(entries, reserved, entries.len() as int)
}

/// A copy of one snapshot entry.
pub fn clone_entry(e: &FsEntry) -> (r: FsEntry)
    ensures
        r@ == e@,
{
    let kind = match &e.kind {
        EntryKind::Directory => EntryKind::Directory,
        EntryKind::Symlink(t) => EntryKind::Symlink(clone_path(t)),
        EntryKind::File => EntryKind::File,
    };
    FsEntry { path: clone_path(&e.path), kind }
}

/// Whether the entry is a managed symlink, by canonical-prefix comparison.
fn is_managed(e: &FsEntry, raw: &Vec<String>, reserved: &String) -> (r: bool)
    ensures
        r == entry_managed(e@, raw.deep_view(), reserved@),
{
    match &e.kind {
        EntryKind::Symlink(t) => {
            if e.path.len() > 0 && e.path[0] == *reserved {
                assert(e@.path[0] == reserved@);
                return false;
            }
            assert(!under_reserved(e@.path, reserved@));
            seg_prefix(raw, t)
        },
        _ => false,
    }
}

/// The first teardown stage: removes every managed symlink, leaving all
/// other entries, the reserved directory included, untouched. Returns the
/// surviving entries and the paths of the removed symlinks, both in
/// snapshot order.
#[verifier::loop_isolation(false)]
pub fn remove_symlinks(entries: &Vec<FsEntry>, canonical_raw: &Vec<String>, reserved: &String) -> (
    r: (Vec<FsEntry>, Vec<Vec<String>>))
    ensures
        r.0.deep_view() == remove_symlinks_spec(
            entries.deep_view(),
            canonical_raw.deep_view(),
            reserved@,
        ),
        r.1.deep_view() == removed_symlink_paths_spec(
            entries.deep_view(),
            canonical_raw.deep_view(),
            reserved@,
        ),
{
    let ghost entries_view = entries.deep_view();
    let ghost raw_view = canonical_raw.deep_view();
    let ghost keep_pred = |e: EntryModel| !entry_managed(e, raw_view, reserved@);
    let ghost drop_pred = |e: EntryModel| entry_managed(e, raw_view, reserved@);
    let mut kept: Vec<FsEntry> = Vec::new();
    let mut removed: Vec<Vec<String>> = Vec::new();
    let mut i: usize = 0;
    proof {
        assert(kept.deep_view() =~= entries_view.take(0).filter(keep_pred));
        assert(removed.deep_view() =~= entries_view.take(0).filter(drop_pred).map_values(
            |e: EntryModel| e.path,
        ));
    }
    while i < entries.len()
        invariant
            i <= entries@.len(),
            entries@.len() == entries_view.len(),
            keep_pred == (|e: EntryModel| !entry_managed(e, raw_view, reserved@)),
            drop_pred == (|e: EntryModel| entry_managed(e, raw_view, reserved@)),
            kept.deep_view() == entries_view.take(i as int).filter(keep_pred),
            removed.deep_view() == entries_view.take(i as int).filter(drop_pred).map_values(
                |e: EntryModel| e.path,
            ),
        decreases entries@.len() - i,
    {
        assert(entries_view[i as int] == entries@[i as int]@);
        proof {
            assert(entries_view.take(i + 1) =~= entries_view.take(i as int).push(
                entries_view[i as int],
            ));
            lemma_filter_push(entries_view.take(i as int), entries_view[i as int], keep_pred);
            lemma_filter_push(entries_view.take(i as int), entries_view[i as int], drop_pred);
        }
        if is_managed(&entries[i], canonical_raw, reserved) {
            let ghost removed_old = removed.deep_view();
            removed.push(clone_path(&entries[i].path));
            proof {
                assert(removed.deep_view() =~= removed_old.push(entries_view[i as int].path));
                assert(entries_view.take(i + 1).filter(drop_pred).map_values(
                    |e: EntryModel| e.path,
                ) =~= entries_view.take(i as int).filter(drop_pred).map_values(
                    |e: EntryModel| e.path,
                ).push(entries_view[i as int].path));
                assert(entries_view.take(i + 1).filter(keep_pred) =~= entries_view.take(
                    i as int,
                ).filter(keep_pred));
            }
        } else {
            let ghost kept_old = kept.deep_view();
            kept.push(clone_entry(&entries[i]));
            proof {
                assert(kept.deep_view() =~= kept_old.push(entries_view[i as int]));
                assert(entries_view.take(i + 1).filter(keep_pred) =~= entries_view.take(
                    i as int,
                ).filter(keep_pred).push(entries_view[i as int]));
                assert(entries_view.take(i + 1).filter(drop_pred).map_values(
                    |e: EntryModel| e.path,
                ) =~= entries_view.take(i as int).filter(drop_pred).map_values(
                    |e: EntryModel| e.path,
                ));
            }
        }
        i = i + 1;
    }
    proof {
        assert(entries_view.take(entries_view.len() as int) =~= entries_view);
    }
    (kept, removed)
}

/// Whether anything that is not a directory lives strictly below `d`.
#[verifier::loop_isolation(false)]
fn has_live_content_exec(entries: &Vec<FsEntry>, d: &Vec<String>) -> (r: bool)
    ensures
        r == has_live_content(entries.deep_view(), d.deep_view()),
{
    let mut j: usize = 0;
    while j < entries.len()
        invariant
            j <= entries@.len(),
            entries@.len() == entries.deep_view().len(),
            forall|k: int|
                0 <= k < j ==> !(!((#[trigger] entries.deep_view()[k]).kind is Directory)
                    && is_seg_prefix(d.deep_view(), entries.deep_view()[k].path) && d.deep_view().len()
                    < entries.deep_view()[k].path.len()),
        decreases entries@.len() - j,
    {
        assert(entries.deep_view()[j as int] == entries@[j as int]@);
        let is_dir = match &entries[j].kind {
            EntryKind::Directory => true,
            _ => false,
        };
        if !is_dir && entries[j].path.len() > d.len() && seg_prefix(d, &entries[j].path) {
            assert(has_live_content(entries.deep_view(), d.deep_view()));
            return true;
        }
        proof {
            assert(d.len() == d.deep_view().len());
            assert(entries@[j as int].path@.len() == entries.deep_view()[j as int].path.len());
        }
        j = j + 1;
    }
    false
}

/// The second teardown stage: removes every directory, outside the reserved
/// one, with nothing but directories below it. Returns the surviving
/// entries in snapshot order, the paths of the removed directories in
/// reverse snapshot order (so that, for a snapshot listing parents before
/// children, every directory comes before its parent), and the diagnostics:
/// one for each leftover non-directory, one for each directory left in
/// place because it is not empty.
#[verifier::loop_isolation(false)]
pub fn remove_empty_directories(entries: &Vec<FsEntry>, reserved: &String) -> (r: (
    Vec<FsEntry>,
    Vec<Vec<String>>,
    Vec<Diagnostic>,
))
    ensures
        r.0.deep_view() == remove_empty_dirs_spec(entries.deep_view(), reserved@),
        r.1.deep_view() == removed_dir_paths_spec(entries.deep_view(), reserved@).reverse(),
        r.2.deep_view() == stage2_diags_spec(entries.deep_view(), reserved@),
{
    let ghost entries_view = entries.deep_view();
    let ghost keep_pred = |e: EntryModel| stage2_keep(entries_view, e, reserved@);
    let ghost drop_pred = |e: EntryModel| !stage2_keep(entries_view, e, reserved@);
    let mut kept: Vec<FsEntry> = Vec::new();
    let mut removed_fwd: Vec<Vec<String>> = Vec::new();
    let mut diags: Vec<Diagnostic> = Vec::new();
    let mut i: usize = 0;
    proof {
        assert(kept.deep_view() =~= entries_view.take(0).filter(keep_pred));
        assert(removed_fwd.deep_view() =~= entries_view.take(0).filter(drop_pred).map_values(
            |e: EntryModel| e.path,
        ));
        assert(diags.deep_view() =~= stage2_diags_upto(entries_view, reserved@, 0));
    }
    while i < entries.len()
        invariant
            i <= entries@.len(),
            entries@.len() == entries_view.len(),
            keep_pred == (|e: EntryModel| stage2_keep(entries_view, e, reserved@)),
            drop_pred == (|e: EntryModel| !stage2_keep(entries_view, e, reserved@)),
            kept.deep_view() == entries_view.take(i as int).filter(keep_pred),
            removed_fwd.deep_view() == entries_view.take(i as int).filter(drop_pred).map_values(
                |e: EntryModel| e.path,
            ),
            diags.deep_view() == stage2_diags_upto(entries_view, reserved@, i as int),
        decreases entries@.len() - i,
    {
        assert(entries_view[i as int] == entries@[i as int]@);
        proof {
            assert(entries_view.take(i + 1) =~= entries_view.take(i as int).push(
                entries_view[i as int],
            ));
            lemma_filter_push(entries_view.take(i as int), entries_view[i as int], keep_pred);
            lemma_filter_push(entries_view.take(i as int), entries_view[i as int], drop_pred);
        }
        let e = &entries[i];
        let reserved_here = e.path.len() > 0 && e.path[0] == *reserved;
        proof {
            if reserved_here {
                assert(e@.path[0] == reserved@);
            }
            assert(reserved_here == under_reserved(entries_view[i as int].path, reserved@));
        }
        let is_dir = match &e.kind {
            EntryKind::Directory => true,
            _ => false,
        };
        let ghost kept_old = kept.deep_view();
        let ghost removed_old = removed_fwd.deep_view();
        let ghost diags_old = diags.deep_view();
        if !is_dir {
            kept.push(clone_entry(e));
            if !reserved_here {
                diags.push(Diagnostic::UnexpectedEntry { path: clone_path(&e.path) });
            }
        } else if reserved_here {
            kept.push(clone_entry(e));
        } else if has_live_content_exec(entries, &e.path) {
            kept.push(clone_entry(e));
            diags.push(Diagnostic::DirectoryNotEmpty { path: clone_path(&e.path) });
        } else {
            removed_fwd.push(clone_path(&e.path));
        }
        proof {
            if drop_pred(entries_view[i as int]) {
                assert(entries_view.take(i + 1).filter(keep_pred) =~= entries_view.take(
                    i as int,
                ).filter(keep_pred));
                assert(removed_fwd.deep_view() =~= removed_old.push(
                    entries_view[i as int].path,
                ));
                assert(entries_view.take(i + 1).filter(drop_pred).map_values(
                    |e: EntryModel| e.path,
                ) =~= entries_view.take(i as int).filter(drop_pred).map_values(
                    |e: EntryModel| e.path,
                ).push(entries_view[i as int].path));
            } else {
                assert(entries_view.take(i + 1).filter(drop_pred) =~= entries_view.take(
                    i as int,
                ).filter(drop_pred));
                assert(kept.deep_view() =~= kept_old.push(entries_view[i as int]));
            }
            assert(kept.deep_view() =~= entries_view.take(i + 1).filter(keep_pred));
            assert(removed_fwd.deep_view() =~= entries_view.take(i + 1).filter(
                drop_pred,
            ).map_values(|e: EntryModel| e.path));
            assert(diags.deep_view() =~= stage2_diags_upto(entries_view, reserved@, i + 1));
        }
        i = i + 1;
    }
    proof {
        assert(entries_view.take(entries_view.len() as int) =~= entries_view);
    }
    // Emit the removed directories in reverse order, children before their
    // parents for a parent-first snapshot.
    let ghost fwd_view = removed_fwd.deep_view();
    let mut removed: Vec<Vec<String>> = Vec::new();
    let mut k: usize = removed_fwd.len();
    proof {
        assert(removed.deep_view() =~= fwd_view.reverse().take(0));
    }
    while k > 0
        invariant
            k <= removed_fwd@.len(),
            removed_fwd@.len() == fwd_view.len(),
            removed_fwd.deep_view() == fwd_view,
            removed.deep_view() == fwd_view.reverse().take(fwd_view.len() - k),
        decreases k,
    {
        k = k - 1;
        assert(fwd_view[k as int] == removed_fwd@[k as int].deep_view());
        let ghost removed_old = removed.deep_view();
        removed.push(clone_path(&removed_fwd[k]));
        proof {
            assert(removed.deep_view() =~= removed_old.push(fwd_view[k as int]));
            assert(fwd_view.reverse()[fwd_view.len() - k - 1] == fwd_view[k as int]);
            assert(fwd_view.reverse().take(fwd_view.len() - k) =~= fwd_view.reverse().take(
                fwd_view.len() - k - 1,
            ).push(fwd_view.reverse()[fwd_view.len() - k - 1]));
        }
    }
    proof {
        assert(fwd_view.reverse().take(fwd_view.len() as int) =~= fwd_view.reverse());
    }
    (kept, removed, diags)
}

/// Teardown completeness: after the two stages, no surviving entry is a
/// managed symlink — outside the reserved directory nothing canonically
/// resolves into the raw-storage root — and every surviving non-reserved
/// directory still has something other than a directory below it, so no
/// fully-empty directory remains.
pub proof fn lemma_teardown_complete(
    entries: Seq<EntryModel>,
    raw: Seq<Seq<char>>,
    reserved: Seq<char>,
)
    ensures
        forall|i: int|
            0 <= i < remove_empty_dirs_spec(
                remove_symlinks_spec(entries, raw, reserved),
                reserved,
            ).len() ==> !entry_managed(
                #[trigger] remove_empty_dirs_spec(
                    remove_symlinks_spec(entries, raw, reserved),
                    reserved,
                )[i],
                raw,
                reserved,
            ),
        forall|i: int|
            0 <= i < remove_empty_dirs_spec(
                remove_symlinks_spec(entries, raw, reserved),
                reserved,
            ).len() && (#[trigger] remove_empty_dirs_spec(
                remove_symlinks_spec(entries, raw, reserved),
                reserved,
            )[i]).kind is Directory && !under_reserved(
                remove_empty_dirs_spec(remove_symlinks_spec(entries, raw, reserved), reserved)[i].path,
                reserved,
            ) ==> has_live_content(
                remove_empty_dirs_spec(remove_symlinks_spec(entries, raw, reserved), reserved),
                remove_empty_dirs_spec(remove_symlinks_spec(entries, raw, reserved), reserved)[i].path,
            ),
{
    let s1 = remove_symlinks_spec(entries, raw, reserved);
    let s2 = remove_empty_dirs_spec(s1, reserved);
    let keep1 = |e: EntryModel| !entry_managed(e, raw, reserved);
    let keep2 = |e: EntryModel| stage2_keep(s1, e, reserved);
    lemma_filter_element_of(s1, keep2);
    assert forall|i: int| 0 <= i < s2.len() implies !entry_managed(#[trigger] s2[i], raw, reserved)
        && (s2[i].kind is Directory && !under_reserved(s2[i].path, reserved)
        ==> has_live_content(s2, s2[i].path)) by {
        assert(s1.contains(s2[i]));
        let j = choose|j: int| 0 <= j < s1.len() && s1[j] == s2[i];
        s1.lemma_filter_pred(keep2, i);
        entries.lemma_filter_pred(keep1, j);
        if s2[i].kind is Directory && !under_reserved(s2[i].path, reserved) {
            assert(has_live_content(s1, s2[i].path));
            let w = choose|w: int|
                0 <= w < s1.len() && !((#[trigger] s1[w]).kind is Directory) && is_seg_prefix(
                    s2[i].path,
                    s1[w].path,
                ) && s2[i].path.len() < s1[w].path.len();
            assert(keep2(s1[w]));
            s1.lemma_filter_contains(keep2, w);
            assert(s2.contains(s1[w]));
            let wi = choose|wi: int| 0 <= wi < s2.len() && s2[wi] == s1[w];
            assert(has_live_content(s2, s2[i].path));
        }
    }
}

/// Removing the managed symlinks is idempotent: a second pass over the
/// result removes nothing.
pub proof fn lemma_remove_symlinks_idempotent(
    entries: Seq<EntryModel>,
    raw: Seq<Seq<char>>,
    reserved: Seq<char>,
)
    ensures
        remove_symlinks_spec(remove_symlinks_spec(entries, raw, reserved), raw, reserved)
            == remove_symlinks_spec(entries, raw, reserved),
{
    let keep1 = |e: EntryModel| !entry_managed(e, raw, reserved);
    let s1 = entries.filter(keep1);
    assert forall|i: int| 0 <= i < s1.len() implies keep1(#[trigger] s1[i]) by {
        entries.lemma_filter_pred(keep1, i);
    }
    lemma_filter_all(s1, keep1);
}

/// Removing the empty directories is idempotent: every directory the first
/// pass keeps still has live content among the survivors, so a second pass
/// removes nothing.
pub proof fn lemma_remove_empty_directories_idempotent(
    entries: Seq<EntryModel>,
    reserved: Seq<char>,
)
    ensures
        remove_empty_dirs_spec(remove_empty_dirs_spec(entries, reserved), reserved)
            == remove_empty_dirs_spec(entries, reserved),
{
    let keep_in = |e: EntryModel| stage2_keep(entries, e, reserved);
    let s2 = entries.filter(keep_in);
    let keep_out = |e: EntryModel| stage2_keep(s2, e, reserved);
    assert forall|i: int| 0 <= i < s2.len() implies keep_out(#[trigger] s2[i]) by {
        entries.lemma_filter_pred(keep_in, i);
        if s2[i].kind is Directory && !under_reserved(s2[i].path, reserved) {
            let w = choose|w: int|
                0 <= w < entries.len() && !((#[trigger] entries[w]).kind is Directory)
                    && is_seg_prefix(s2[i].path, entries[w].path) && s2[i].path.len()
                    < entries[w].path.len();
            assert(keep_in(entries[w]));
            entries.lemma_filter_contains(keep_in, w);
            let wi = choose|wi: int| 0 <= wi < s2.len() && s2[wi] == entries[w];
            assert(has_live_content(s2, s2[i].path));
        }
    }
    lemma_filter_all(s2, keep_out);
}

/// The whole teardown is idempotent: running both stages again over what
/// they left produces the same tree, so a second full run tears down only
/// what its own rebuild created.
pub proof fn lemma_teardown_idempotent(
    entries: Seq<EntryModel>,
    raw: Seq<Seq<char>>,
    reserved: Seq<char>,
)
    ensures
        remove_empty_dirs_spec(
            remove_symlinks_spec(
                remove_empty_dirs_spec(
                    remove_symlinks_spec(entries, raw, reserved),
                    reserved,
                ),
                raw,
                reserved,
            ),
            reserved,
        ) == remove_empty_dirs_spec(remove_symlinks_spec(entries, raw, reserved), reserved),
{
    let keep1 = |e: EntryModel| !entry_managed(e, raw, reserved);
    let s1 = entries.filter(keep1);
    let keep2 = |e: EntryModel| stage2_keep(s1, e, reserved);
    let s2 = s1.filter(keep2);
    // No managed symlink survives the first stage, so the repeated symlink
    // stage keeps everything.
    lemma_filter_element_of(s1, keep2);
    assert forall|i: int| 0 <= i < s2.len() implies keep1(#[trigger] s2[i]) by {
        assert(s1.contains(s2[i]));
        let j = choose|j: int| 0 <= j < s1.len() && s1[j] == s2[i];
        entries.lemma_filter_pred(keep1, j);
    }
    lemma_filter_all(s2, keep1);
    // Every directory the second stage kept still has live content among the
    // survivors, so the repeated directory stage keeps everything too.
    let keep_out = |e: EntryModel| stage2_keep(s2, e, reserved);
    assert forall|i: int| 0 <= i < s2.len() implies keep_out(#[trigger] s2[i]) by {
        s1.lemma_filter_pred(keep2, i);
        if s2[i].kind is Directory && !under_reserved(s2[i].path, reserved) {
            let w = choose|w: int|
                0 <= w < s1.len() && !((#[trigger] s1[w]).kind is Directory) && is_seg_prefix(
                    s2[i].path,
                    s1[w].path,
                ) && s2[i].path.len() < s1[w].path.len();
            assert(keep2(s1[w]));
            s1.lemma_filter_contains(keep2, w);
            let wi = choose|wi: int| 0 <= wi < s2.len() && s2[wi] == s1[w];
            assert(has_live_content(s2, s2[i].path));
        }
    }
    lemma_filter_all(s2, keep_out);
}

/// Whether some entry is a directory at exactly the given path.
pub open spec fn contains_dir_at(entries: Seq<EntryModel>, p: Seq<Seq<char>>) -> bool {
    exists|j: int|
        0 <= j < entries.len() && (#[trigger] entries[j]).kind is Directory && entries[j].path == p
}

/// Whether every proper ancestor of every entry's path is itself present as
/// a directory entry: what a top-down scan of a real directory tree yields.
pub open spec fn ancestor_closed(entries: Seq<EntryModel>) -> bool {
    forall|i: int, k: int|
        0 <= i < entries.len() && 1 <= k < entries[i].path.len() ==> contains_dir_at(
            entries,
            #[trigger] entries[i].path.take(k),
        )
}

/// The symlink-removal stage keeps every ancestor directory, so it preserves
/// ancestor closure.
pub proof fn lemma_stage1_preserves_closure(
    entries: Seq<EntryModel>,
    raw: Seq<Seq<char>>,
    reserved: Seq<char>,
)
    requires
        ancestor_closed(entries),
    ensures
        ancestor_closed(remove_symlinks_spec(entries, raw, reserved)),
{
    let keep1 = |e: EntryModel| !entry_managed(e, raw, reserved);
    let s1 = entries.filter(keep1);
    lemma_filter_element_of(entries, keep1);
    assert forall|i: int, k: int|
        0 <= i < s1.len() && 1 <= k < s1[i].path.len() implies contains_dir_at(
        s1,
        #[trigger] s1[i].path.take(k),
    ) by {
        assert(entries.contains(s1[i]));
        let j = choose|j: int| 0 <= j < entries.len() && entries[j] == s1[i];
        assert(contains_dir_at(entries, entries[j].path.take(k)));
        let d = choose|d: int|
            0 <= d < entries.len() && (#[trigger] entries[d]).kind is Directory && entries[d].path
                == entries[j].path.take(k);
        assert(keep1(entries[d]));
        entries.lemma_filter_contains(keep1, d);
        let di = choose|di: int| 0 <= di < s1.len() && s1[di] == entries[d];
    }
}

/// The empty-directory stage keeps every ancestor directory of what it
/// keeps, so it preserves ancestor closure.
pub proof fn lemma_stage2_preserves_closure(entries: Seq<EntryModel>, reserved: Seq<char>)
    requires
        ancestor_closed(entries),
    ensures
        ancestor_closed(remove_empty_dirs_spec(entries, reserved)),
{
    let keep2 = |e: EntryModel| stage2_keep(entries, e, reserved);
    let s2 = entries.filter(keep2);
    lemma_filter_element_of(entries, keep2);
    assert forall|i: int, k: int|
        0 <= i < s2.len() && 1 <= k < s2[i].path.len() implies contains_dir_at(
        s2,
        #[trigger] s2[i].path.take(k),
    ) by {
        assert(entries.contains(s2[i]));
        let j = choose|j: int| 0 <= j < entries.len() && entries[j] == s2[i];
        entries.lemma_filter_pred(keep2, i);
        assert(contains_dir_at(entries, entries[j].path.take(k)));
        let d = choose|d: int|
            0 <= d < entries.len() && (#[trigger] entries[d]).kind is Directory && entries[d].path
                == entries[j].path.take(k);
        // The ancestor directory is itself kept.
        if under_reserved(s2[i].path, reserved) {
            assert(s2[i].path.take(k)[0] == s2[i].path[0]);
            assert(under_reserved(entries[d].path, reserved));
        } else if !(s2[i].kind is Directory) {
            assert(is_seg_prefix(entries[d].path, s2[i].path)) by {
                assert(entries[d].path =~= s2[i].path.subrange(0, k));
            }
            assert(has_live_content(entries, entries[d].path));
        } else {
            // A kept, unreserved directory has live content below it, which
            // also lies below the ancestor.
            assert(stage2_keep(entries, s2[i], reserved));
            let w = choose|w: int|
                0 <= w < entries.len() && !((#[trigger] entries[w]).kind is Directory)
                    && is_seg_prefix(s2[i].path, entries[w].path) && s2[i].path.len()
                    < entries[w].path.len();
            assert(is_seg_prefix(entries[d].path, entries[w].path)) by {
                assert(s2[i].path == entries[w].path.subrange(0, s2[i].path.len() as int));
                assert(entries[d].path =~= entries[w].path.subrange(0, k));
            }
            assert(has_live_content(entries, entries[d].path));
        }
        assert(keep2(entries[d]));
        entries.lemma_filter_contains(keep2, d);
        let di = choose|di: int| 0 <= di < s2.len() && s2[di] == entries[d];
    }
}

} // verus!
