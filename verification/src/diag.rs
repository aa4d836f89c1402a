//! Non-fatal diagnostics. Every semantic or data-quality condition degrades
//! gracefully: the pipeline reports it and continues. Only filesystem
//! failures, which live outside this library, stop a run.

use vstd::prelude::*;

verus! {

/// One diagnostic event, carrying the values a report needs.
pub enum Diagnostic {
    /// A schema placeholder was found neither in the project's tags nor in
    /// the default map and was filled with the sentinel value.
    UnresolvedTag { tag: String, project: String },
    /// A project whose tag map is empty expands to no environments and is
    /// left out of the view tree.
    ProjectHasNoTags { project: String },
    /// A computed view path was taken and the symlink was placed at a
    /// renamed alternative path instead.
    CollisionResolved { project: String, path: Vec<String> },
    /// A directory was still not empty after teardown and was left in place.
    DirectoryNotEmpty { path: Vec<String> },
    /// An entry that is neither a directory nor a removed symlink was found
    /// during teardown and left untouched.
    UnexpectedEntry { path: Vec<String> },
}

/// The mathematical value of a diagnostic.
pub enum DiagnosticModel {
    UnresolvedTag { tag: Seq<char>, project: Seq<char> },
    ProjectHasNoTags { project: Seq<char> },
    CollisionResolved { project: Seq<char>, path: Seq<Seq<char>> },
    DirectoryNotEmpty { path: Seq<Seq<char>> },
    UnexpectedEntry { path: Seq<Seq<char>> },
}

impl View for Diagnostic {
    type V = DiagnosticModel;

    open spec fn view(&self) -> DiagnosticModel {
        match self {
            Diagnostic::UnresolvedTag { tag, project } => DiagnosticModel::UnresolvedTag {
                tag: tag@,
                project: project@,
            },
            Diagnostic::ProjectHasNoTags { project } => DiagnosticModel::ProjectHasNoTags {
                project: project@,
            },
            Diagnostic::CollisionResolved { project, path } => DiagnosticModel::CollisionResolved {
                project: project@,
                path: path.deep_view(),
            },
            Diagnostic::DirectoryNotEmpty { path } => DiagnosticModel::DirectoryNotEmpty {
                path: path.deep_view(),
            },
            Diagnostic::UnexpectedEntry { path } => DiagnosticModel::UnexpectedEntry {
                path: path.deep_view(),
            },
        }
    }
}

impl DeepView for Diagnostic {
    type V = DiagnosticModel;

    open spec fn deep_view(&self) -> DiagnosticModel {
        self.view()
    }
}

} // verus!
