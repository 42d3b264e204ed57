//! Discovery: from the entries of a course directory to its modules.
//!
//! Each regular file of the directory is one module. Its name is the file's
//! name without the extension, and its program is the file itself.

use crate::text::{chars_of, is_whitespace, is_word};
use vstd::prelude::*;

verus! {

/// One entry of a directory, as the listing gave it.
#[derive(Debug, Clone, PartialEq, Eq)]
pub struct DirectoryEntry {
    /// The last component of the entry's path.
    pub file_name: String,
    /// The entry's path, the directory included.
    pub path: String,
    /// Whether the entry is a regular file.
    pub is_file: bool,
}

/// A directory entry over texts.
pub struct DirectoryEntryView {
    pub file_name: Seq<char>,
    pub path: Seq<char>,
    pub is_file: bool,
}

impl View for DirectoryEntry {
    type V = DirectoryEntryView;

    open spec fn view(&self) -> DirectoryEntryView {
        DirectoryEntryView { file_name: self.file_name@, path: self.path@, is_file: self.is_file }
    }
}

impl DeepView for DirectoryEntry {
    type V = DirectoryEntryView;

    open spec fn deep_view(&self) -> DirectoryEntryView {
        self@
    }
}

/// The index of the last dot of `name`, or -1 where it has none.
pub open spec fn last_dot(name: Seq<char>) -> int
    decreases name.len(),
{
    if name.len() == 0 {
        -1
    } else if name.last() == '.' {
        name.len() - 1
    } else {
        last_dot(name.drop_last())
    }
}

/// A file's name without its extension: what stands before the last dot. A
/// name without a dot, or with its only dot in front, is its own stem.
pub open spec fn stem_of(name: Seq<char>) -> Seq<char> {
    if last_dot(name) <= 0 {
        name
    } else {
        name.take(last_dot(name))
    }
}

/// The regular files among `entries`, in the order of the listing.
pub open spec fn regular_files(entries: Seq<DirectoryEntryView>) -> Seq<DirectoryEntryView> {
    entries.filter(|entry: DirectoryEntryView| entry.is_file)
}

/// The names of the modules that `entries` hold: the stem of each regular
/// file's name, in the order of the listing.
pub open spec fn module_names(entries: Seq<DirectoryEntryView>) -> Seq<Seq<char>> {
    regular_files(entries).map_values(|entry: DirectoryEntryView| stem_of(entry.file_name))
}

/// The programs of the modules that `entries` hold: the path of each regular
/// file, in the order of the listing.
pub open spec fn module_paths(entries: Seq<DirectoryEntryView>) -> Seq<Seq<char>> {
    regular_files(entries).map_values(|entry: DirectoryEntryView| entry.path)
}

/// The last dot stands where a dot is and none follows.
pub proof fn lemma_last_dot_is(name: Seq<char>, at: int)
    requires
        -1 <= at < name.len(),
        at >= 0 ==> name[at] == '.',
        forall|k: int| at < k < name.len() ==> name[k] != '.',
    ensures
        last_dot(name) == at,
    decreases name.len(),
{
    if name.len() > 0 && at < name.len() - 1 {
        let front = name.drop_last();
        assert(name.last() != '.');
        assert forall|k: int| at < k < front.len() implies front[k] != '.' by {
            assert(front[k] == name[k]);
        }
        if at >= 0 {
            assert(front[at] == name[at]);
        }
        lemma_last_dot_is(front, at);
    }
}

/// The stem of a file's name is a word where the name is one: a ledger line
/// can hold the name of each module whose file has a name without white space.
pub proof fn lemma_stem_is_word(name: Seq<char>)
    requires
        is_word(name),
    ensures
        is_word(stem_of(name)),
{
    lemma_last_dot_bounds(name);
    let stem = stem_of(name);
    assert forall|i: int| 0 <= i < stem.len() implies !is_whitespace(#[trigger] stem[i]) by {
        assert(stem[i] == name[i]);
    }
}

/// The last dot stands inside the name.
pub proof fn lemma_last_dot_bounds(name: Seq<char>)
    ensures
        -1 <= last_dot(name) < name.len(),
    decreases name.len(),
{
    if name.len() > 0 && name.last() != '.' {
        lemma_last_dot_bounds(name.drop_last());
    }
}

/// A file's name without its extension.
pub fn file_stem(file_name: &str) -> (stem: String)
    ensures
        stem@ == stem_of(file_name@),
{
    let chars = chars_of(file_name);
    let mut end: usize = chars.len();
    while end > 0 && chars[end - 1] != '.'
        invariant
            end <= chars.len(),
            forall|k: int| end <= k < chars.len() ==> chars[k] != '.',
        decreases end,
    {
        end -= 1;
    }
    proof {
        lemma_last_dot_is(chars@, end - 1);
    }
    if end <= 1 {
        file_name.to_owned()
    } else {
        let dot: usize = end - 1;
        let mut stem = String::new();
        for i in 0..dot
            invariant
                dot <= chars.len(),
                stem@ == chars@.take(i as int),
        {
            stem.push(chars[i]);
            assert(chars@.take(i as int).push(chars[i as int]) =~= chars@.take(i + 1));
        }
        stem
    }
}

/// The modules of a course directory: the names and the programs of its
/// regular files, side by side and in the order of the listing.
pub fn discover(entries: &Vec<DirectoryEntry>) -> (found: (Vec<String>, Vec<String>))
    ensures
        found.0.deep_view() == module_names(entries.deep_view()),
        found.1.deep_view() == module_paths(entries.deep_view()),
        found.0.len() == found.1.len(),
        found.0.len() == regular_files(entries.deep_view()).len(),
        forall|i: int|
            0 <= i < found.0.len() ==> (#[trigger] found.0[i])@ == stem_of(
                regular_files(entries.deep_view())[i].file_name,
            ),
{
    let ghost listing = entries.deep_view();
    let ghost is_file = |entry: DirectoryEntryView| entry.is_file;
    let mut names: Vec<String> = Vec::new();
    let mut paths: Vec<String> = Vec::new();
    proof {
        reveal(Seq::filter);
        assert(listing.take(0) =~= Seq::<DirectoryEntryView>::empty());
        assert(names.deep_view() =~= module_names(listing.take(0)));
        assert(paths.deep_view() =~= module_paths(listing.take(0)));
    }
    for i in 0..entries.len()
        invariant
            listing == entries.deep_view(),
            names.deep_view() == module_names(listing.take(i as int)),
            paths.deep_view() == module_paths(listing.take(i as int)),
    {
        let entry = &entries[i];
        proof {
            assert(listing[i as int] == entry@);
            assert(listing.take(i as int).push(entry@) =~= listing.take(i + 1));
            Seq::lemma_filter_push(
                listing.take(i as int),
                entry@,
                |entry: DirectoryEntryView| entry.is_file,
            );
        }
        if entry.is_file {
            let ghost old_names = names.deep_view();
            let ghost old_paths = paths.deep_view();
            let name = file_stem(entry.file_name.as_str());
            names.push(name);
            paths.push(entry.path.clone());
            proof {
                assert(names.deep_view() =~= old_names.push(stem_of(entry@.file_name)));
                assert(paths.deep_view() =~= old_paths.push(entry@.path));
                assert(names.deep_view() =~= module_names(listing.take(i + 1)));
                assert(paths.deep_view() =~= module_paths(listing.take(i + 1)));
            }
        }
    }
    proof {
        assert(listing.take(entries.len() as int) =~= listing);
        assert forall|i: int| 0 <= i < names.len() implies (#[trigger] names[i])@ == stem_of(
            regular_files(listing)[i].file_name,
        ) by {
            assert(names.deep_view()[i] == names[i]@);
        }
        assert(names.deep_view().len() == names.len());
        assert(paths.deep_view().len() == paths.len());
    }
    (names, paths)
}

} // verus!
