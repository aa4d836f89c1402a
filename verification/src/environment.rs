//! The per-run context: the base directory the view tree lives under, the
//! reserved management directory with the raw-storage root and the schema
//! file inside it, and the loaded configuration and schema set. The context
//! is built once at process start and passed by reference into every
//! pipeline stage.

use crate::fstree::EntryKindModel;
use crate::fstree::EntryModel;
use crate::fstree::FsEntry;
use crate::paths::clone_path;
use crate::schema::Schemas;
use vstd::prelude::*;
use vstd::string::StringExecFns;

verus! {

/// The name of the raw-storage directory inside the management directory.
pub const RAW_STORAGE_DIR_NAME: &'static str = "raw";

/// The name of the schema file inside the management directory.
pub const SCHEMA_FILE_NAME: &'static str = "schema.toml";

/// User configuration: the project root used when no enclosing directory
/// qualifies.
pub struct Config {
    pub default_project_dir: String,
}

/// The context of one run.
pub struct Environment {
    pub base_path: Vec<String>,
    pub spiderman_dir: Vec<String>,
    pub raw_storage_dir: Vec<String>,
    pub schema: Schemas,
    pub config: Config,
}

/// Whether a snapshot of a directory shows a valid project root: the
/// management directory exists as a directory, the raw-storage directory
/// inside it too, and the schema file inside it is a file.
pub open spec fn valid_spiderman_dir_spec(entries: Seq<EntryModel>) -> bool {
    &&& exists|i: int|
        0 <= i < entries.len() && (#[trigger] entries[i]).path == seq![".spiderman"@]
            && entries[i].kind is Directory
    &&& exists|i: int|
        0 <= i < entries.len() && (#[trigger] entries[i]).path == seq![".spiderman"@, "raw"@]
            && entries[i].kind is Directory
    &&& exists|i: int|
        0 <= i < entries.len() && (#[trigger] entries[i]).path == seq![
            ".spiderman"@,
            "schema.toml"@,
        ] && entries[i].kind is File
}

fn entry_at_is(entries: &Vec<FsEntry>, p: &Vec<String>, want_dir: bool) -> (r: bool)
    ensures
        r == exists|i: int|
            0 <= i < entries.deep_view().len() && (#[trigger] entries.deep_view()[i]).path
                == p.deep_view() && if want_dir {
                entries.deep_view()[i].kind is Directory
            } else {
                entries.deep_view()[i].kind is File
            },
{
    let mut i: usize = 0;
    while i < entries.len()
        invariant
            i <= entries@.len(),
            entries@.len() == entries.deep_view().len(),
            forall|j: int|
                0 <= j < i ==> !((#[trigger] entries.deep_view()[j]).path == p.deep_view()
                    && if want_dir {
                    entries.deep_view()[j].kind is Directory
                } else {
                    entries.deep_view()[j].kind is File
                }),
        decreases entries@.len() - i,
    {
        assert(entries.deep_view()[i as int] == entries@[i as int]@);
        let kind_ok = match &entries[i].kind {
            crate::fstree::EntryKind::Directory => want_dir,
            crate::fstree::EntryKind::File => !want_dir,
            crate::fstree::EntryKind::Symlink(_) => false,
        };
        if kind_ok && crate::paths::seg_path_eq(&entries[i].path, p) {
            return true;
        }
        i = i + 1;
    }
    false
}

impl Environment {
    /// Builds the context for a base directory: the management directory is
    /// the reserved name under the base, and the raw-storage root lies
    /// inside it.
    pub fn new(base_path: Vec<String>, schema: Schemas, config: Config) -> (e: Environment)
        ensures
            e.base_path.deep_view() == base_path.deep_view(),
            e.spiderman_dir.deep_view() == base_path.deep_view() + seq![
                crate::SPIDERMAN_DIR_NAME@,
            ],
            e.raw_storage_dir.deep_view() == base_path.deep_view() + seq![
                crate::SPIDERMAN_DIR_NAME@,
                RAW_STORAGE_DIR_NAME@,
            ],
            e.schema == schema,
            e.config == config,
    {
        let mut spiderman_dir = clone_path(&base_path);
        spiderman_dir.push(crate::SPIDERMAN_DIR_NAME.to_owned());
        let mut raw_storage_dir = clone_path(&spiderman_dir);
        raw_storage_dir.push(RAW_STORAGE_DIR_NAME.to_owned());
        proof {
            assert(spiderman_dir.deep_view() =~= base_path.deep_view() + seq![
                crate::SPIDERMAN_DIR_NAME@,
            ]);
            assert(raw_storage_dir.deep_view() =~= spiderman_dir.deep_view() + seq![
                RAW_STORAGE_DIR_NAME@,
            ]);
            assert(raw_storage_dir.deep_view() =~= base_path.deep_view() + seq![
                crate::SPIDERMAN_DIR_NAME@,
                RAW_STORAGE_DIR_NAME@,
            ]);
        }
        Environment { base_path, spiderman_dir, raw_storage_dir, schema, config }
    }

    /// Whether a directory, given as a snapshot of the entries below it, is
    /// a valid project root.
    pub fn is_valid_spiderman_dir(entries: &Vec<FsEntry>) -> (r: bool)
        ensures
            r == valid_spiderman_dir_spec(entries.deep_view()),
    {
        proof {
            reveal_strlit(".spiderman");
            reveal_strlit("raw");
            reveal_strlit("schema.toml");
        }
        let mut p1: Vec<String> = Vec::new();
        p1.push(String::from_str(".spiderman"));
        let mut p2: Vec<String> = Vec::new();
        p2.push(String::from_str(".spiderman"));
        p2.push(String::from_str("raw"));
        let mut p3: Vec<String> = Vec::new();
        p3.push(String::from_str(".spiderman"));
        p3.push(String::from_str("schema.toml"));
        proof {
            assert(p1.deep_view() =~= seq![".spiderman"@]);
            assert(p2.deep_view() =~= seq![".spiderman"@, "raw"@]);
            assert(p3.deep_view() =~= seq![".spiderman"@, "schema.toml"@]);
        }
        let ok1 = entry_at_is(entries, &p1, true);
        let ok2 = entry_at_is(entries, &p2, true);
        let ok3 = entry_at_is(entries, &p3, false);
        ok1 && ok2 && ok3
    }
}

} // verus!
