//! The shape of a scanned tree, described without naming anything in it.

use crate::bands::{
    classify_fan_out, classify_file_count, fan_out_of, file_count_of, FanOut, FileCount,
};
use crate::order::Ordered;
use crate::sorted_map::{
    ascending, lemma_sum_by, lemma_sum_of_prefix, map_of, sum_by, total_of, SortedMap,
};
use crate::tally::{fits, ratio, ratio_of, DirectoryGroup, Ratio};
use vstd::prelude::*;

verus! {

/// Levels given a row of their own in the structure report. A tree deeper
/// than this is counted and its depth still reported exactly, but the entries
/// share one overflow row, so that the report stays of a fixed size.
pub const MAX_TRACKED_DEPTH: usize = 64;

/// Path length at which a tree starts to break backup agents on Windows, and
/// the reason path lengths are reported at all.
pub const LONG_PATH_LIMIT: usize = 260;

/// The little a directory's child needs to contribute to [`Structure`].
#[derive(Debug, Clone, Copy, PartialEq, Eq, Structural)]
pub struct Child {
    pub is_dir: bool,
    pub is_file: bool,
    pub name_length: usize,
}

impl Child {
    /// Counts as a directory.
    pub open spec fn directory(self) -> bool {
        self.is_dir
    }

    /// Counts as a file. An entry that is neither, such as a symbolic link
    /// that is not followed, is counted as neither.
    pub open spec fn file(self) -> bool {
        !self.is_dir && self.is_file
    }

    /// Length of the path below the root, given the length of the directory's
    /// own. Below the root one separator goes between the two.
    pub open spec fn path_length(self, relative_length: int) -> int {
        if relative_length == 0 {
            self.name_length as int
        } else {
            relative_length + 1 + self.name_length
        }
    }

    /// Past the length that breaks backup agents.
    pub open spec fn is_long(self, relative_length: int) -> bool {
        self.path_length(relative_length) > LONG_PATH_LIMIT
    }
}

pub open spec fn directories_in(children: Seq<Child>) -> nat {
    children.filter(|c: Child| c.directory()).len()
}

pub open spec fn files_in(children: Seq<Child>) -> nat {
    children.filter(|c: Child| c.file()).len()
}

pub open spec fn long_directories_in(children: Seq<Child>, relative_length: int) -> nat {
    children.filter(|c: Child| c.directory() && c.is_long(relative_length)).len()
}

pub open spec fn long_files_in(children: Seq<Child>, relative_length: int) -> nat {
    children.filter(|c: Child| c.file() && c.is_long(relative_length)).len()
}

/// The greater of two numbers.
pub open spec fn greater(a: int, b: int) -> int {
    if a >= b {
        a
    } else {
        b
    }
}

/// Length of the longest path among the children that are counted, or zero if
/// none is.
pub open spec fn longest_in(children: Seq<Child>, relative_length: int) -> int
    decreases children.len(),
{
    if children.len() == 0 {
        0
    } else {
        let rest = longest_in(children.drop_last(), relative_length);
        let c = children.last();
        if c.directory() || c.file() {
            greater(rest, c.path_length(relative_length))
        } else {
            rest
        }
    }
}

/// Counters wrap around at the end of their range.
pub open spec fn wrapped(n: int) -> u64 {
    (n % 0x1_0000_0000_0000_0000) as u64
}

/// A group with more directories and files in it.
pub open spec fn grown(group: DirectoryGroup, directories: int, files: int) -> DirectoryGroup {
    DirectoryGroup {
        directories: wrapped(group.directories + directories),
        files: wrapped(group.files + files),
    }
}

/// What the counters have seen so far.
pub struct Shape {
    pub levels: Seq<DirectoryGroup>,
    pub beyond_tracked: DirectoryGroup,
    pub deepest: int,
    pub directories: u64,
    pub listed: u64,
    pub fan_out: Seq<DirectoryGroup>,
    pub file_counts: Seq<DirectoryGroup>,
    pub longest_path: int,
    pub long_paths: DirectoryGroup,
}

pub open spec fn nothing() -> DirectoryGroup {
    DirectoryGroup { directories: 0, files: 0 }
}

impl Shape {
    /// Before any directory has been listed.
    pub open spec fn blank() -> Shape {
        Shape {
            levels: Seq::new((MAX_TRACKED_DEPTH + 1) as nat, |i: int| nothing()),
            beyond_tracked: nothing(),
            deepest: 0,
            directories: 0,
            listed: 0,
            fan_out: Seq::new(6, |i: int| nothing()),
            file_counts: Seq::new(6, |i: int| nothing()),
            longest_path: 0,
            long_paths: nothing(),
        }
    }

    /// After one more directory has been listed. Its children sit one level
    /// below it.
    pub open spec fn record(
        self,
        depth: int,
        relative_length: int,
        children: Seq<Child>,
    ) -> Shape {
        let directories = directories_in(children) as int;
        let files = files_in(children) as int;
        let occupied = directories > 0 || files > 0;
        let level = depth + 1;
        let fan = fan_out_of(directories as u64).position() as int;
        let count = file_count_of(files as u64).position() as int;
        Shape {
            levels: if occupied && level < self.levels.len() {
                self.levels.update(level, grown(self.levels[level], directories, files))
            } else {
                self.levels
            },
            beyond_tracked: if occupied && level >= self.levels.len() {
                grown(self.beyond_tracked, directories, files)
            } else {
                self.beyond_tracked
            },
            deepest: greater(
                self.deepest,
                if occupied {
                    level
                } else {
                    depth
                },
            ),
            directories: wrapped(self.directories + directories),
            listed: wrapped(self.listed + 1),
            fan_out: self.fan_out.update(fan, grown(self.fan_out[fan], 1, files)),
            file_counts: self.file_counts.update(count, grown(self.file_counts[count], 1, files)),
            longest_path: greater(self.longest_path, longest_in(children, relative_length)),
            long_paths: grown(
                self.long_paths,
                long_directories_in(children, relative_length) as int,
                long_files_in(children, relative_length) as int,
            ),
        }
    }

    /// The counters have their fixed sizes, and nothing has been counted at
    /// the level of the root: no directory lists the root as its child.
    pub open spec fn well_formed(self) -> bool {
        &&& self.levels.len() == MAX_TRACKED_DEPTH + 1
        &&& self.levels[0] == nothing()
        &&& self.fan_out.len() == 6
        &&& self.file_counts.len() == 6
    }

    /// The levels with the root counted, if it is a directory.
    pub open spec fn levels_with_root(self, root_is_directory: bool) -> Seq<DirectoryGroup> {
        if root_is_directory {
            self.levels.update(
                0,
                DirectoryGroup {
                    directories: (self.levels[0].directories + 1) as u64,
                    files: self.levels[0].files,
                },
            )
        } else {
            self.levels
        }
    }
}

/// `levels` without the empty ones at its end.
pub open spec fn without_trailing_empties(levels: Seq<DirectoryGroup>) -> Seq<DirectoryGroup>
    decreases levels.len(),
{
    if levels.len() > 0 && levels.last().holds_nothing() {
        without_trailing_empties(levels.drop_last())
    } else {
        levels
    }
}

/// What a sequence of counters says of each band: the bands nothing landed in
/// are left out.
pub open spec fn banded_map<B: Ordered>(
    counters: Seq<DirectoryGroup>,
    bands: Seq<B>,
) -> Map<B::Key, DirectoryGroup>
    decreases counters.len(),
{
    if counters.len() == 0 || bands.len() == 0 {
        Map::empty()
    } else {
        let rest = banded_map(counters.drop_last(), bands.drop_last());
        if counters.last().holds_nothing() {
            rest
        } else {
            rest.insert(bands.last().key(), counters.last())
        }
    }
}

/// Pair each band with its counters, dropping the bands nothing landed in.
pub fn banded<B: Ordered + Copy>(counters: &Vec<DirectoryGroup>, bands: &[B]) -> (r: SortedMap<
    B,
    DirectoryGroup,
>)
    requires
        counters@.len() == bands@.len(),
    ensures
        r.well_formed(),
        r.map() == banded_map(counters@, bands@),
{
    let mut r: SortedMap<B, DirectoryGroup> = SortedMap::new();
    let mut i: usize = 0;
    while i < counters.len()
        invariant
            counters@.len() == bands@.len(),
            i <= counters@.len(),
            r.well_formed(),
            r.map() == banded_map(counters@.take(i as int), bands@.take(i as int)),
        decreases counters.len() - i,
    {
        assert(counters@.take(i + 1).drop_last() =~= counters@.take(i as int));
        assert(bands@.take(i + 1).drop_last() =~= bands@.take(i as int));
        if !counters[i].is_empty() {
            r.set(bands[i], counters[i]);
        }
        i = i + 1;
    }
    assert(counters@.take(i as int) =~= counters@);
    assert(bands@.take(i as int) =~= bands@);
    r
}

/// Accumulator for [`Structure`], fed one listed directory at a time.
///
/// Every field is a fixed-size counter, so the memory does not grow with the
/// tree.
#[derive(Debug)]
pub struct StructureCounters {
    levels: Vec<DirectoryGroup>,
    beyond_tracked: DirectoryGroup,
    deepest: usize,
    /// The root is added separately, since no parent lists it.
    directories: u64,
    listed: u64,
    fan_out: Vec<DirectoryGroup>,
    file_counts: Vec<DirectoryGroup>,
    longest_path: usize,
    long_paths: DirectoryGroup,
}

impl View for StructureCounters {
    type V = Shape;

    closed spec fn view(&self) -> Shape {
        Shape {
            levels: self.levels@,
            beyond_tracked: self.beyond_tracked,
            deepest: self.deepest as int,
            directories: self.directories,
            listed: self.listed,
            fan_out: self.fan_out@,
            file_counts: self.file_counts@,
            longest_path: self.longest_path as int,
            long_paths: self.long_paths,
        }
    }
}

fn wrapping_grow(group: &DirectoryGroup, directories: u64, files: u64) -> (r: DirectoryGroup)
    ensures
        r == grown(*group, directories as int, files as int),
{
    DirectoryGroup {
        directories: group.directories.wrapping_add(directories),
        files: group.files.wrapping_add(files),
    }
}

fn empty_groups(n: usize) -> (r: Vec<DirectoryGroup>)
    ensures
        r@ == Seq::new(n as nat, |i: int| nothing()),
{
    let mut r: Vec<DirectoryGroup> = Vec::new();
    let mut i: usize = 0;
    while i < n
        invariant
            i <= n,
            r@ == Seq::new(i as nat, |k: int| nothing()),
        decreases n - i,
    {
        r.push(DirectoryGroup { directories: 0, files: 0 });
        i = i + 1;
        assert(r@ =~= Seq::new(i as nat, |k: int| nothing()));
    }
    r
}

impl StructureCounters {
    pub fn new() -> (r: StructureCounters)
        ensures
            r@ == Shape::blank(),
            r@.well_formed(),
    {
        StructureCounters {
            levels: empty_groups(MAX_TRACKED_DEPTH + 1),
            beyond_tracked: DirectoryGroup { directories: 0, files: 0 },
            deepest: 0,
            directories: 0,
            listed: 0,
            fan_out: empty_groups(6),
            file_counts: empty_groups(6),
            longest_path: 0,
            long_paths: DirectoryGroup { directories: 0, files: 0 },
        }
    }

    /// Record one directory whose contents have just been listed.
    ///
    /// `depth` is the directory's own depth, so its children sit one level
    /// below it. Entries that are neither a file nor a directory, such as an
    /// unfollowed symlink, are left out of both counts, matching the way the
    /// rest of the scan treats them.
    pub fn record(&mut self, depth: usize, relative_length: usize, children: &[Child])
        requires
            old(self)@.well_formed(),
            relative_length < usize::MAX,
            depth < usize::MAX || (directories_in(children@) == 0 && files_in(children@) == 0),
            forall|i: int|
                0 <= i < children@.len() ==> (#[trigger] children@[i]).path_length(
                    relative_length as int,
                ) <= usize::MAX,
        ensures
            final(self)@ == old(self)@.record(depth as int, relative_length as int, children@),
            final(self)@.well_formed(),
    {
        let mut files: u64 = 0;
        let mut subdirectories: u64 = 0;
        let mut long_files: u64 = 0;
        let mut long_directories: u64 = 0;
        let mut longest: usize = 0;

        // Children share the directory's path, so their own length only
        // differs by the name and, below the root, one separator.
        let prefix: usize = if relative_length == 0 {
            0
        } else {
            relative_length + 1
        };
        let ghost rel = relative_length as int;

        let mut i: usize = 0;
        proof {
            assert(children@.take(0) =~= Seq::empty());
            reveal_with_fuel(Seq::filter, 1);
        }
        while i < children.len()
            invariant
                i <= children@.len(),
                rel == relative_length,
                prefix == if relative_length == 0 {
                    0int
                } else {
                    relative_length + 1
                },
                forall|i: int|
                    0 <= i < children@.len() ==> (#[trigger] children@[i]).path_length(rel)
                        <= usize::MAX,
                subdirectories == directories_in(children@.take(i as int)),
                files == files_in(children@.take(i as int)),
                long_directories == long_directories_in(children@.take(i as int), rel),
                long_files == long_files_in(children@.take(i as int), rel),
                longest == longest_in(children@.take(i as int), rel),
                subdirectories <= i,
                files <= i,
                long_directories <= i,
                long_files <= i,
            decreases children.len() - i,
        {
            let child: Child = children[i];
            assert(child == children@[i as int]);
            let length: usize = prefix + child.name_length;
            proof {
                reveal_with_fuel(Seq::filter, 1);
                assert(children@.take(i + 1).drop_last() =~= children@.take(i as int));
                assert(children@.take(i + 1).last() == child);
            }

            // Anything counted in neither total is left out of the length
            // figures too, so the longest path reported is always the longest
            // path among the entries the rest of the report describes.
            if child.is_dir {
                subdirectories = subdirectories + 1;
                if length > longest {
                    longest = length;
                }
                if length > LONG_PATH_LIMIT {
                    long_directories = long_directories + 1;
                }
            } else if child.is_file {
                files = files + 1;
                if length > longest {
                    longest = length;
                }
                if length > LONG_PATH_LIMIT {
                    long_files = long_files + 1;
                }
            }
            i = i + 1;
        }
        assert(children@.take(i as int) =~= children@);

        self.listed = self.listed.wrapping_add(1);
        self.directories = self.directories.wrapping_add(subdirectories);
        if depth > self.deepest {
            self.deepest = depth;
        }
        if longest > self.longest_path {
            self.longest_path = longest;
        }
        self.long_paths = wrapping_grow(&self.long_paths, long_directories, long_files);

        if files > 0 || subdirectories > 0 {
            let level: usize = depth + 1;
            if level > self.deepest {
                self.deepest = level;
            }
            if level < self.levels.len() {
                let group: DirectoryGroup = wrapping_grow(
                    &self.levels[level],
                    subdirectories,
                    files,
                );
                self.levels[level] = group;
            } else {
                self.beyond_tracked = wrapping_grow(&self.beyond_tracked, subdirectories, files);
            }
        }
        let fan: usize = classify_fan_out(subdirectories).index();
        let group: DirectoryGroup = wrapping_grow(&self.fan_out[fan], 1, files);
        self.fan_out[fan] = group;
        let count: usize = classify_file_count(files).index();
        let group: DirectoryGroup = wrapping_grow(&self.file_counts[count], 1, files);
        self.file_counts[count] = group;
    }

    /// Collapse the counters into the reported [`Structure`].
    ///
    /// `root_is_directory` is false when the scan was pointed at a single
    /// file, which has no level of its own to occupy.
    pub fn finish(&self, root_is_directory: bool) -> (r: Structure)
        requires
            self@.well_formed(),
        ensures
            r.well_formed(),
            r.describes(self@, root_is_directory),
    {
        let mut levels: Vec<DirectoryGroup> = Vec::new();
        let mut i: usize = 0;
        while i < self.levels.len()
            invariant
                i <= self.levels@.len(),
                levels@ == self.levels@.take(i as int),
            decreases self.levels.len() - i,
        {
            assert(self.levels@.take(i + 1) =~= self.levels@.take(i as int).push(
                self.levels@[i as int],
            ));
            levels.push(self.levels[i]);
            i = i + 1;
        }
        assert(levels@ =~= self.levels@);
        let mut directories: u64 = self.directories;

        if root_is_directory {
            levels[0] = DirectoryGroup {
                directories: self.levels[0].directories + 1,
                files: self.levels[0].files,
            };
            directories = directories.wrapping_add(1);
        }
        let ghost all = self@.levels_with_root(root_is_directory);
        assert(levels@ =~= all);

        // Trailing levels hold nothing once the deepest entry is passed, and a
        // vector of empty rows is only noise for anything reading this.
        while levels.len() > 0 && levels[levels.len() - 1].is_empty()
            invariant
                without_trailing_empties(levels@) == without_trailing_empties(all),
            decreases levels.len(),
        {
            assert(levels@.drop_last() =~= levels@.subrange(0, levels@.len() - 1));
            levels.pop();
        }

        Structure {
            levels,
            beyond_tracked: self.beyond_tracked,
            deepest: self.deepest,
            directories,
            listed_directories: self.listed,
            fan_out: banded(&self.fan_out, &FanOut::ALL),
            file_counts: banded(&self.file_counts, &FileCount::ALL),
            longest_path: self.longest_path,
            long_paths: self.long_paths,
        }
    }
}

/// The files of a group, for adding up.
pub open spec fn group_files() -> spec_fn(DirectoryGroup) -> int {
    |g: DirectoryGroup| g.files as int
}

/// The directories of a group, for adding up.
pub open spec fn group_directories() -> spec_fn(DirectoryGroup) -> int {
    |g: DirectoryGroup| g.directories as int
}

/// The levels that hold anything, with their depth.
pub open spec fn occupied_levels(levels: Seq<DirectoryGroup>) -> Seq<(usize, DirectoryGroup)>
    decreases levels.len(),
{
    if levels.len() == 0 {
        Seq::empty()
    } else {
        let rest = occupied_levels(levels.drop_last());
        if levels.last().holds_nothing() {
            rest
        } else {
            rest.push(((levels.len() - 1) as usize, levels.last()))
        }
    }
}

/// The shape of the scanned tree, described without naming anything in it.
///
/// Every figure is a count or a length, so the report says how the data is
/// laid out without disclosing a single directory name.
#[derive(Debug, Clone, PartialEq, Eq)]
pub struct Structure {
    /// Entries per level, indexed by depth. Level 0 is the scan root itself
    /// and level 1 its immediate children. Files count at the level they sit
    /// at, not at the level of the directory holding them.
    pub levels: Vec<DirectoryGroup>,
    /// Entries deeper than [`MAX_TRACKED_DEPTH`], which get no level of their
    /// own.
    pub beyond_tracked: DirectoryGroup,
    /// Depth of the deepest entry counted. Tracked exactly, even past
    /// [`MAX_TRACKED_DEPTH`].
    pub deepest: usize,
    /// Every directory in the tree, the root among them, whether or not it
    /// could be read.
    pub directories: u64,
    /// Directories whose contents were actually listed. Only these appear in
    /// the band reports, since the others have no known contents.
    pub listed_directories: u64,
    /// Listed directories by how many subdirectories they hold, with the files
    /// they hold directly.
    pub fan_out: SortedMap<FanOut, DirectoryGroup>,
    /// Listed directories by how many files they hold directly, with those
    /// files.
    pub file_counts: SortedMap<FileCount, DirectoryGroup>,
    /// Longest path below the scan root, in bytes of the encoded path. The
    /// root's own prefix is excluded because it changes when the tree is
    /// copied or restored somewhere else.
    pub longest_path: usize,
    /// Entries whose path below the root is longer than [`LONG_PATH_LIMIT`].
    pub long_paths: DirectoryGroup,
}

impl Default for Structure {
    fn default() -> (r: Structure)
        ensures
            r.well_formed(),
            r.is_blank(),
    {
        Structure {
            levels: Vec::new(),
            beyond_tracked: DirectoryGroup { directories: 0, files: 0 },
            deepest: 0,
            directories: 0,
            listed_directories: 0,
            fan_out: SortedMap::new(),
            file_counts: SortedMap::new(),
            longest_path: 0,
            long_paths: DirectoryGroup { directories: 0, files: 0 },
        }
    }
}

impl Structure {
    pub open spec fn well_formed(&self) -> bool {
        self.fan_out.well_formed() && self.file_counts.well_formed()
    }

    /// Nothing has been counted.
    pub open spec fn is_blank(&self) -> bool {
        &&& self.levels@.len() == 0
        &&& self.beyond_tracked == nothing()
        &&& self.deepest == 0
        &&& self.directories == 0
        &&& self.listed_directories == 0
        &&& self.fan_out.map() == Map::<FanOut, DirectoryGroup>::empty()
        &&& self.file_counts.map() == Map::<FileCount, DirectoryGroup>::empty()
        &&& self.longest_path == 0
        &&& self.long_paths == nothing()
    }

    /// Whether this is what the report says of a tree whose directories were
    /// counted in `shape`. No directory lists the root, so it is added here.
    pub open spec fn describes(&self, shape: Shape, root_is_directory: bool) -> bool {
        &&& self.levels@ == without_trailing_empties(shape.levels_with_root(root_is_directory))
        &&& self.beyond_tracked == shape.beyond_tracked
        &&& self.deepest == shape.deepest
        &&& self.directories == if root_is_directory {
            wrapped(shape.directories + 1)
        } else {
            shape.directories
        }
        &&& self.listed_directories == shape.listed
        &&& self.fan_out.map() == banded_map(shape.fan_out, FanOut::ALL@)
        &&& self.file_counts.map() == banded_map(shape.file_counts, FileCount::ALL@)
        &&& self.longest_path == shape.longest_path
        &&& self.long_paths == shape.long_paths
    }

    /// Levels paired with their depth, root first, skipping any that hold
    /// nothing. The `files` of a row are the files at that level.
    ///
    /// Anything past [`MAX_TRACKED_DEPTH`] is in `beyond_tracked` rather than
    /// here.
    pub fn level_rows(&self) -> (r: Vec<(usize, DirectoryGroup)>)
        ensures
            r@ == occupied_levels(self.levels@),
    {
        let mut r: Vec<(usize, DirectoryGroup)> = Vec::new();
        let mut i: usize = 0;
        while i < self.levels.len()
            invariant
                i <= self.levels@.len(),
                r@ == occupied_levels(self.levels@.take(i as int)),
            decreases self.levels.len() - i,
        {
            assert(self.levels@.take(i + 1).drop_last() =~= self.levels@.take(i as int));
            if !self.levels[i].is_empty() {
                r.push((i, self.levels[i]));
            }
            i = i + 1;
        }
        assert(self.levels@.take(i as int) =~= self.levels@);
        r
    }

    /// Fan-out bands in display order, skipping any holding no directories.
    /// The `files` of a row are the files held by those directories.
    pub fn fan_out_rows(&self) -> (r: Vec<(FanOut, DirectoryGroup)>)
        requires
            self.well_formed(),
        ensures
            ascending::<FanOut, DirectoryGroup>(r@),
            map_of(r@) == self.fan_out.map(),
    {
        let r = self.fan_out.rows();
        assert(r@ =~= self.fan_out.pairs());
        r
    }

    /// File-count bands in display order, skipping any holding no directories.
    /// The `files` of a row are the files held by those directories.
    pub fn file_count_rows(&self) -> (r: Vec<(FileCount, DirectoryGroup)>)
        requires
            self.well_formed(),
        ensures
            ascending::<FileCount, DirectoryGroup>(r@),
            map_of(r@) == self.file_counts.map(),
    {
        let r = self.file_counts.rows();
        assert(r@ =~= self.file_counts.pairs());
        r
    }

    /// Directories counted but never listed, because the depth limit stopped
    /// the walk or the directory could not be read. They are missing from the
    /// band reports, so a report that has any must say so.
    pub fn unlisted_directories(&self) -> (r: u64)
        ensures
            r == greater(self.directories - self.listed_directories, 0),
            self.directories >= self.listed_directories ==> r + self.listed_directories
                == self.directories,
            self.directories < self.listed_directories ==> r == 0,
    {
        self.directories.saturating_sub(self.listed_directories)
    }

    /// Every file the walk saw below the root.
    ///
    /// Taken from the walk rather than from the measuring pass, so it counts
    /// any file that was listed but could not afterwards be measured.
    pub fn files(&self) -> (r: u64)
        requires
            self.well_formed(),
            fits(total_of(self.file_counts.map(), group_files())),
        ensures
            r == total_of(self.file_counts.map(), group_files()),
    {
        let ghost pairs = self.file_counts.pairs();
        let ghost f = group_files();
        proof {
            lemma_sum_by::<FileCount, DirectoryGroup>(pairs, f);
            assert(pairs.take(0) =~= Seq::empty());
        }
        let mut sum: u64 = 0;
        let mut i: usize = 0;
        while i < self.file_counts.len()
            invariant
                pairs == self.file_counts.pairs(),
                f == group_files(),
                i <= pairs.len(),
                sum == sum_by(pairs.take(i as int), f),
                sum_by(pairs, f) <= u64::MAX,
            decreases pairs.len() - i,
        {
            proof {
                lemma_sum_of_prefix(pairs, f, i + 1);
                assert(pairs.take(i + 1).drop_last() =~= pairs.take(i as int));
            }
            sum = sum + self.file_counts.value_at(i).files;
            i = i + 1;
        }
        assert(pairs.take(i as int) =~= pairs);
        sum
    }

    /// Mean number of files held directly by a listed directory, or zero if
    /// nothing was listed.
    pub fn mean_files_per_directory(&self) -> (r: Ratio)
        requires
            self.well_formed(),
            self.listed_directories > 0 ==> fits(total_of(self.file_counts.map(), group_files())),
        ensures
            r == ratio_of(
                total_of(self.file_counts.map(), group_files()) as u64,
                self.listed_directories,
            ),
    {
        if self.listed_directories == 0 {
            ratio(0, 0)
        } else {
            ratio(self.files(), self.listed_directories)
        }
    }
}

} // verus!
