//! Projects and their tags file.
//!
//! A project lives in raw storage under its identifier; its tags are listed
//! in a text file of colon-separated lines: the first piece of a line is the
//! tag name, the remaining pieces are values for that tag, all trimmed of
//! surrounding whitespace. A tag may appear on several lines; its values
//! accumulate. Lines with an empty name or without any value piece are
//! skipped.

use crate::paths::clone_path;
use crate::text::lookup_spec;
use crate::text::split_char;
use crate::text::split_string;
use crate::text::trim_spec;
use crate::text::trim_string;
use vstd::prelude::*;

verus! {

/// The name of the tags file inside a project's raw-storage directory.
pub const PROJECT_INFO_FILE_NAME: &'static str = "spiderman.tags";

/// One project: its storage identifier, its name, and its multi-valued tag
/// map, in insertion order.
pub struct Project {
    pub uuid: String,
    pub name: String,
    pub tags: Vec<(String, Vec<String>)>,
}

/// The mathematical value of a project.
pub struct ProjectModel {
    pub uuid: Seq<char>,
    pub name: Seq<char>,
    pub tags: Seq<(Seq<char>, Seq<Seq<char>>)>,
}

impl View for Project {
    type V = ProjectModel;

    open spec fn view(&self) -> ProjectModel {
        ProjectModel { uuid: self.uuid@, name: self.name@, tags: self.tags.deep_view() }
    }
}

impl DeepView for Project {
    type V = ProjectModel;

    open spec fn deep_view(&self) -> ProjectModel {
        self.view()
    }
}

/// The tag name and values one line of the tags file contributes, if any:
/// the pieces between colons, trimmed; a line without a colon or with an
/// empty name contributes nothing.
pub open spec fn parse_line_spec(line: Seq<char>) -> Option<(Seq<char>, Seq<Seq<char>>)> {
    let parts = split_char(line, ':');
    let tag = trim_spec(parts[0]);
    if parts.len() < 2 || tag.len() == 0 {
        None
    } else {
        Some((tag, parts.subrange(1, parts.len() as int).map_values(|v: Seq<char>| trim_spec(v))))
    }
}

/// The tag map with one line's values added: appended to the entry with the
/// same name if one exists, as a new entry at the end otherwise.
pub open spec fn merge_tag_spec(
    pairs: Seq<(Seq<char>, Seq<Seq<char>>)>,
    tag: Seq<char>,
    values: Seq<Seq<char>>,
) -> Seq<(Seq<char>, Seq<Seq<char>>)>
    decreases pairs.len(),
{
    if pairs.len() == 0 {
        seq![(tag, values)]
    } else if pairs[0].0 == tag {
        seq![(pairs[0].0, pairs[0].1 + values)] + pairs.subrange(1, pairs.len() as int)
    } else {
        seq![pairs[0]] + merge_tag_spec(pairs.subrange(1, pairs.len() as int), tag, values)
    }
}

/// The tag map contributed by the first `n` lines.
pub open spec fn parse_tags_upto(lines: Seq<Seq<char>>, n: int) -> Seq<
    (Seq<char>, Seq<Seq<char>>),
>
    decreases n,
{
    if n <= 0 {
        Seq::empty()
    } else {
        let prev = parse_tags_upto(lines, n - 1);
        match parse_line_spec(lines[n - 1]) {
            None => prev,
            Some((tag, values)) => merge_tag_spec(prev, tag, values),
        }
    }
}

/// The tag map the lines of a tags file denote.
pub open spec fn parse_tags_spec(lines: Seq<Seq<char>>) -> Seq<(Seq<char>, Seq<Seq<char>>)> {
    parse_tags_upto(lines, lines.len() as int)
}

proof fn lemma_merge_advance(
    pairs: Seq<(Seq<char>, Seq<Seq<char>>)>,
    tag: Seq<char>,
    values: Seq<Seq<char>>,
    i: int,
)
    requires
        0 <= i <= pairs.len(),
        forall|j: int| 0 <= j < i ==> (#[trigger] pairs[j]).0 != tag,
    ensures
        merge_tag_spec(pairs, tag, values) == pairs.subrange(0, i) + merge_tag_spec(
            pairs.subrange(i, pairs.len() as int),
            tag,
            values,
        ),
    decreases i,
{
    if i == 0 {
        assert(pairs.subrange(0, pairs.len() as int) =~= pairs);
        assert(pairs.subrange(0, 0) + merge_tag_spec(pairs, tag, values) =~= merge_tag_spec(
            pairs,
            tag,
            values,
        ));
    } else {
        assert((pairs[0]).0 != tag);
        let tail = pairs.subrange(1, pairs.len() as int);
        assert forall|j: int| 0 <= j < i - 1 implies (#[trigger] tail[j]).0 != tag by {
            assert(tail[j] == pairs[j + 1]);
        }
        lemma_merge_advance(tail, tag, values, i - 1);
        assert(tail.subrange(i - 1, tail.len() as int) =~= pairs.subrange(i, pairs.len() as int));
        assert(seq![pairs[0]] + (tail.subrange(0, i - 1) + merge_tag_spec(
            pairs.subrange(i, pairs.len() as int),
            tag,
            values,
        )) =~= pairs.subrange(0, i) + merge_tag_spec(
            pairs.subrange(i, pairs.len() as int),
            tag,
            values,
        ));
    }
}

/// Adds one line's values to the tag map.
#[verifier::loop_isolation(false)]
fn merge_tag(tags: Vec<(String, Vec<String>)>, tag: String, values: Vec<String>) -> (r: Vec<
    (String, Vec<String>),
>)
    ensures
        r.deep_view() == merge_tag_spec(tags.deep_view(), tag@, values.deep_view()),
{
    let ghost tags_view = tags.deep_view();
    let ghost values_view = values.deep_view();
    let mut tags = tags;
    let mut i: usize = 0;
    while i < tags.len()
        invariant
            i <= tags@.len(),
            tags_view == tags.deep_view(),
            tags@.len() == tags_view.len(),
            values.deep_view() == values_view,
            forall|j: int| 0 <= j < i ==> (#[trigger] tags_view[j]).0 != tag@,
        decreases tags@.len() - i,
    {
        assert(tags_view[i as int] == (tags@[i as int].0@, tags@[i as int].1.deep_view()));
        if tags[i].0 == tag {
            proof {
                lemma_merge_advance(tags_view, tag@, values_view, i as int);
                let rest = tags_view.subrange(i as int, tags_view.len() as int);
                assert(rest[0] == tags_view[i as int]);
                assert(rest.subrange(1, rest.len() as int) =~= tags_view.subrange(
                    i + 1,
                    tags_view.len() as int,
                ));
            }
            let mut entry = tags.remove(i);
            let ghost entry1_old = entry.1.deep_view();
            proof {
                assert(entry1_old == tags_view[i as int].1);
                assert(entry.0@ == tags_view[i as int].0);
            }
            let mut values = values;
            proof {
                assert(values.deep_view() == values_view);
            }
            entry.1.append(&mut values);
            tags.insert(i, entry);
            proof {
                assert(entry.1.deep_view() =~= entry1_old + values_view);
                assert(tags.deep_view() =~~= tags_view.subrange(0, i as int) + (seq![
                    (tags_view[i as int].0, tags_view[i as int].1 + values_view)
                ] + tags_view.subrange(i + 1, tags_view.len() as int)));
                let rest = tags_view.subrange(i as int, tags_view.len() as int);
                assert(merge_tag_spec(rest, tag@, values_view) == seq![
                    (rest[0].0, rest[0].1 + values_view)
                ] + rest.subrange(1, rest.len() as int));
                assert(merge_tag_spec(tags_view, tag@, values_view) == tags_view.subrange(
                    0,
                    i as int,
                ) + (seq![(tags_view[i as int].0, tags_view[i as int].1 + values_view)]
                    + tags_view.subrange(i + 1, tags_view.len() as int)));
            }
            return tags;
        }
        i = i + 1;
    }
    proof {
        lemma_merge_advance(tags_view, tag@, values_view, tags_view.len() as int);
        assert(tags_view.subrange(tags_view.len() as int, tags_view.len() as int) =~= Seq::<
            (Seq<char>, Seq<Seq<char>>),
        >::empty());
    }
    tags.push((tag, values));
    proof {
        assert(tags.deep_view() =~= tags_view.subrange(0, tags_view.len() as int) + seq![
            (tag@, values_view)
        ]);
    }
    tags
}

/// Reads a tags file, given as its lines, into a project's tag map.
pub fn parse_tags(lines: &Vec<String>) -> (r: Vec<(String, Vec<String>)>)
    ensures
        r.deep_view() == parse_tags_spec(lines.deep_view()),
{
    let mut tags: Vec<(String, Vec<String>)> = Vec::new();
    let mut i: usize = 0;
    proof {
        assert(tags.deep_view() =~= parse_tags_upto(lines.deep_view(), 0));
    }
    while i < lines.len()
        invariant
            i <= lines@.len(),
            lines@.len() == lines.deep_view().len(),
            tags.deep_view() == parse_tags_upto(lines.deep_view(), i as int),
        decreases lines@.len() - i,
    {
        let ghost line_view = lines.deep_view()[i as int];
        assert(line_view == lines@[i as int]@);
        let parts = split_string(lines[i].as_str(), ':');
        let ghost parts_view = split_char(line_view, ':');
        assert(parts_view[0] == parts@[0]@);
        let tag = trim_string(parts[0].as_str());
        if parts.len() >= 2 && !tag.as_str().is_empty() {
            let mut values: Vec<String> = Vec::new();
            let mut j: usize = 1;
            proof {
                assert(values.deep_view() =~= parts_view.subrange(1, 1).map_values(
                    |v: Seq<char>| trim_spec(v),
                ));
            }
            while j < parts.len()
                invariant
                    1 <= j <= parts@.len(),
                    parts@.len() == parts_view.len(),
                    parts.deep_view() == parts_view,
                    values.deep_view() == parts_view.subrange(1, j as int).map_values(
                        |v: Seq<char>| trim_spec(v),
                    ),
                decreases parts@.len() - j,
            {
                assert(parts_view[j as int] == parts@[j as int]@);
                let ghost old_values = values.deep_view();
                values.push(trim_string(parts[j].as_str()));
                proof {
                    assert(values.deep_view() =~= old_values.push(trim_spec(parts_view[j as int])));
                    assert(parts_view.subrange(1, j + 1) =~= parts_view.subrange(1, j as int).push(
                        parts_view[j as int],
                    ));
                    assert(parts_view.subrange(1, j + 1).map_values(|v: Seq<char>| trim_spec(v))
                        =~= parts_view.subrange(1, j as int).map_values(
                        |v: Seq<char>| trim_spec(v),
                    ).push(trim_spec(parts_view[j as int])));
                }
                j = j + 1;
            }
            proof {
                assert(parts_view.subrange(1, parts_view.len() as int) =~= parts_view.subrange(
                    1,
                    parts@.len() as int,
                ));
                assert(parse_line_spec(line_view) == Some(
                    (tag@, values.deep_view()),
                ));
            }
            tags = merge_tag(tags, tag, values);
        } else {
            proof {
                assert(parse_line_spec(line_view) is None);
            }
        }
        i = i + 1;
    }
    tags
}

impl Project {
    /// The directory that holds this project's actual content: the raw
    /// storage root, then the project's identifier, then its name.
    pub fn get_project_raw_data_path(&self, raw_storage_dir: &Vec<String>) -> (r: Vec<String>)
        ensures
            r.deep_view() == raw_storage_dir.deep_view() + seq![self.uuid@, self.name@],
    {
        let mut p = clone_path(raw_storage_dir);
        p.push(self.uuid.clone());
        p.push(self.name.clone());
        proof {
            assert(p.deep_view() =~= raw_storage_dir.deep_view() + seq![self.uuid@, self.name@]);
        }
        p
    }

    /// The path of this project's tags file, next to its content directory.
    pub fn get_tags_file_path(&self, raw_storage_dir: &Vec<String>) -> (r: Vec<String>)
        ensures
            r.deep_view() == raw_storage_dir.deep_view() + seq![
                self.uuid@,
                PROJECT_INFO_FILE_NAME@,
            ],
    {
        let mut p = clone_path(raw_storage_dir);
        p.push(self.uuid.clone());
        p.push(PROJECT_INFO_FILE_NAME.to_owned());
        proof {
            assert(p.deep_view() =~= raw_storage_dir.deep_view() + seq![
                self.uuid@,
                PROJECT_INFO_FILE_NAME@,
            ]);
        }
        p
    }
}

} // verus!
