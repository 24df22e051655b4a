//! What the report on the shape of a tree says, in terms of the directories
//! that were listed and the entries found in them.

use crate::band_laws::{a_fan_out_is_reported_by_name, a_file_count_is_reported_by_name};
use crate::bands::{fan_out_of, file_count_of, FanOut, FileCount};
use crate::order::Ordered;
use crate::sorted_map::{total_of, value_or};
use crate::structure::{
    banded_map, directories_in, files_in, group_files, long_directories_in, long_files_in,
    longest_in, occupied_levels, without_trailing_empties, Child, Shape, Structure,
};
use crate::structure_laws::{
    at_some_level, banded_sums, every_shape_is_balanced, file_sum, shape_of, sums_after_update,
    sums_of_nothing, wrapping_early, Listing,
};
use crate::tally::DirectoryGroup;
use vstd::prelude::*;

verus! {

/// The sum of `f` over a sequence of listings.
pub open spec fn sum_over(listings: Seq<Listing>, f: spec_fn(Listing) -> int) -> int
    decreases listings.len(),
{
    if listings.len() == 0 {
        0
    } else {
        sum_over(listings.drop_last(), f) + f(listings.last())
    }
}

impl Listing {
    /// How many subdirectories the directory holds.
    pub open spec fn subdirectories(self) -> int {
        self.children.filter(|c: Child| c.is_dir).len() as int
    }

    /// How many files the directory holds itself.
    pub open spec fn own_files(self) -> int {
        self.children.filter(|c: Child| c.is_file && !c.is_dir).len() as int
    }

    /// How long the path of an entry is, counted from the root.
    pub open spec fn length_of(self, child: Child) -> int {
        if self.relative_length == 0 {
            child.name_length as int
        } else {
            self.relative_length + 1 + child.name_length
        }
    }

    /// How many subdirectories have a path longer than 260 bytes.
    pub open spec fn long_subdirectories(self) -> int {
        self.children.filter(|c: Child| c.is_dir && self.length_of(c) > 260).len() as int
    }

    /// How many files have a path longer than 260 bytes.
    pub open spec fn long_own_files(self) -> int {
        self.children.filter(
            |c: Child| c.is_file && !c.is_dir && self.length_of(c) > 260,
        ).len() as int
    }
}

/// Listings that a machine can hold.
pub open spec fn can_be_held(listings: Seq<Listing>) -> bool {
    forall|i: int|
        0 <= i < listings.len() ==> (#[trigger] listings[i]).children.len() <= usize::MAX
}

/// Counters start over at two to the power of sixty-four.
pub open spec fn on_a_counter(n: int) -> int {
    n % 0x1_0000_0000_0000_0000
}

/// Whether the report puts under `band` exactly the directories that `chosen`
/// picks, and the files that these hold themselves. A band that holds nothing
/// is left out.
pub open spec fn reports_band<B>(
    m: Map<B, DirectoryGroup>,
    band: B,
    listings: Seq<Listing>,
    chosen: spec_fn(Listing) -> bool,
) -> bool {
    let group = value_or(m, band, DirectoryGroup { directories: 0, files: 0 });
    &&& group.directories == on_a_counter(
        sum_over(
            listings,
            |l: Listing|
                if chosen(l) {
                    1
                } else {
                    0
                },
        ),
    )
    &&& group.files == on_a_counter(
        sum_over(
            listings,
            |l: Listing|
                if chosen(l) {
                    l.own_files()
                } else {
                    0
                },
        ),
    )
    &&& m.dom().contains(band) <==> group.directories > 0 || group.files > 0
}

proof fn filters_agree(s: Seq<Child>, p: spec_fn(Child) -> bool, q: spec_fn(Child) -> bool)
    requires
        forall|c: Child| #[trigger] p(c) == q(c),
    ensures
        s.filter(p) == s.filter(q),
        s.filter(p).len() <= s.len(),
    decreases s.len(),
{
    reveal(Seq::filter);
    if s.len() > 0 {
        filters_agree(s.drop_last(), p, q);
    }
}

proof fn sums_agree(
    listings: Seq<Listing>,
    f: spec_fn(Listing) -> int,
    g: spec_fn(Listing) -> int,
)
    requires
        forall|i: int| 0 <= i < listings.len() ==> f(#[trigger] listings[i]) == g(listings[i]),
    ensures
        sum_over(listings, f) == sum_over(listings, g),
    decreases listings.len(),
{
    if listings.len() > 0 {
        let rest = listings.drop_last();
        assert forall|i: int| 0 <= i < rest.len() implies f(#[trigger] rest[i]) == g(
            rest[i],
        ) by {
            assert(rest[i] == listings[i]);
        }
        sums_agree(rest, f, g);
        assert(listings[listings.len() - 1] == listings.last());
    }
}

/// What a listing holds is what recording it counts.
proof fn counted_as_held(l: Listing)
    ensures
        directories_in(l.children) == l.subdirectories(),
        files_in(l.children) == l.own_files(),
        long_directories_in(l.children, l.relative_length) == l.long_subdirectories(),
        long_files_in(l.children, l.relative_length) == l.long_own_files(),
        0 <= l.subdirectories() <= l.children.len(),
        0 <= l.own_files() <= l.children.len(),
{
    let s = l.children;
    filters_agree(s, |c: Child| c.directory(), |c: Child| c.is_dir);
    filters_agree(s, |c: Child| c.file(), |c: Child| c.is_file && !c.is_dir);
    filters_agree(
        s,
        |c: Child| c.directory() && c.is_long(l.relative_length),
        |c: Child| c.is_dir && l.length_of(c) > 260,
    );
    filters_agree(
        s,
        |c: Child| c.file() && c.is_long(l.relative_length),
        |c: Child| c.is_file && !c.is_dir && l.length_of(c) > 260,
    );
}

proof fn front_is_at_some_level(listings: Seq<Listing>)
    requires
        at_some_level(listings),
        listings.len() > 0,
    ensures
        at_some_level(listings.drop_last()),
        listings.last().depth >= 0,
{
    assert(listings[listings.len() - 1].depth >= 0);
    assert forall|i: int| 0 <= i < listings.drop_last().len() implies (#[trigger]
    listings.drop_last()[i]).depth >= 0 by {
        assert(listings[i].depth >= 0);
    }
}

spec fn fan_is(at: int) -> spec_fn(Listing) -> bool {
    |l: Listing| fan_out_of(l.subdirectories() as u64).position() == at
}

spec fn count_is(at: int) -> spec_fn(Listing) -> bool {
    |l: Listing| file_count_of(l.own_files() as u64).position() == at
}

spec fn once_if(chosen: spec_fn(Listing) -> bool) -> spec_fn(Listing) -> int {
    |l: Listing|
        if chosen(l) {
            1
        } else {
            0
        }
}

spec fn files_if(chosen: spec_fn(Listing) -> bool) -> spec_fn(Listing) -> int {
    |l: Listing|
        if chosen(l) {
            l.own_files()
        } else {
            0
        }
}

proof fn band_counters(listings: Seq<Listing>, at: int)
    requires
        at_some_level(listings),
        0 <= at < 6,
    ensures
        ({
            let shape = shape_of(listings);
            &&& shape.fan_out[at].directories == on_a_counter(
                sum_over(listings, once_if(fan_is(at))),
            )
            &&& shape.fan_out[at].files == on_a_counter(
                sum_over(listings, files_if(fan_is(at))),
            )
            &&& shape.file_counts[at].directories == on_a_counter(
                sum_over(listings, once_if(count_is(at))),
            )
            &&& shape.file_counts[at].files == on_a_counter(
                sum_over(listings, files_if(count_is(at))),
            )
        }),
    decreases listings.len(),
{
    if listings.len() > 0 {
        let rest = listings.drop_last();
        let l = listings.last();
        front_is_at_some_level(listings);
        band_counters(rest, at);
        every_shape_is_balanced(rest);
        counted_as_held(l);
        wrapping_early(1, sum_over(rest, once_if(fan_is(at))));
        wrapping_early(1, sum_over(rest, once_if(count_is(at))));
        wrapping_early(l.own_files(), sum_over(rest, files_if(fan_is(at))));
        wrapping_early(l.own_files(), sum_over(rest, files_if(count_is(at))));
    }
}

proof fn banded_entry<B: Ordered>(counters: Seq<DirectoryGroup>, bands: Seq<B>, at: int)
    requires
        counters.len() == bands.len(),
        0 <= at < bands.len(),
        forall|i: int, j: int|
            0 <= i < j < bands.len() ==> (#[trigger] bands[i]).key() != (#[trigger] bands[j]).key(),
    ensures
        value_or(
            banded_map(counters, bands),
            bands[at].key(),
            DirectoryGroup { directories: 0, files: 0 },
        ) == counters[at],
        banded_map(counters, bands).dom().contains(bands[at].key()) <==> counters[at].directories
            > 0 || counters[at].files > 0,
    decreases counters.len(),
{
    let front = bands.drop_last();
    let k = bands[at].key();
    assert forall|i: int, j: int| 0 <= i < j < front.len() implies (#[trigger] front[i]).key() != (
    #[trigger] front[j]).key() by {
        assert(bands[i].key() != bands[j].key());
    }
    if at < front.len() {
        banded_entry(counters.drop_last(), front, at);
        assert(bands[at].key() != bands[bands.len() - 1].key());
        assert(front[at] == bands[at]);
    } else {
        banded_sums(counters.drop_last(), front);
        let rest = banded_map(counters.drop_last(), front);
        if rest.dom().contains(k) {
            let i = choose|i: int| 0 <= i < front.len() && (#[trigger] front[i]).key() == k;
            assert(bands[i].key() != bands[at].key());
        }
    }
}

proof fn fan_out_entry(
    structure: Structure,
    listings: Seq<Listing>,
    root_is_directory: bool,
    band: FanOut,
    chosen: spec_fn(Listing) -> bool,
)
    requires
        at_some_level(listings),
        can_be_held(listings),
        structure.describes(shape_of(listings), root_is_directory),
        forall|l: Listing|
            l.children.len() <= usize::MAX ==> #[trigger] chosen(l) == (fan_out_of(
                l.subdirectories() as u64,
            ) == band),
    ensures
        reports_band(structure.fan_out.map(), band, listings, chosen),
{
    let at = band.position() as int;
    every_shape_is_balanced(listings);
    band_counters(listings, at);
    banded_entry(shape_of(listings).fan_out, FanOut::ALL@, at);
    assert(FanOut::ALL@[at] == band);
    let once = |l: Listing|
        if chosen(l) {
            1
        } else {
            0
        };
    let files = |l: Listing|
        if chosen(l) {
            l.own_files()
        } else {
            0
        };
    assert forall|i: int| 0 <= i < listings.len() implies once_if(fan_is(at))(
        #[trigger] listings[i],
    ) == once(listings[i]) && files_if(fan_is(at))(listings[i]) == files(listings[i]) by {
        assert(chosen(listings[i]) == (fan_out_of(listings[i].subdirectories() as u64) == band));
    }
    sums_agree(listings, once_if(fan_is(at)), once);
    sums_agree(listings, files_if(fan_is(at)), files);
}

proof fn file_count_entry(
    structure: Structure,
    listings: Seq<Listing>,
    root_is_directory: bool,
    band: FileCount,
    chosen: spec_fn(Listing) -> bool,
)
    requires
        at_some_level(listings),
        can_be_held(listings),
        structure.describes(shape_of(listings), root_is_directory),
        forall|l: Listing|
            l.children.len() <= usize::MAX ==> #[trigger] chosen(l) == (file_count_of(
                l.own_files() as u64,
            ) == band),
    ensures
        reports_band(structure.file_counts.map(), band, listings, chosen),
{
    let at = band.position() as int;
    every_shape_is_balanced(listings);
    band_counters(listings, at);
    banded_entry(shape_of(listings).file_counts, FileCount::ALL@, at);
    assert(FileCount::ALL@[at] == band);
    let once = |l: Listing|
        if chosen(l) {
            1
        } else {
            0
        };
    let files = |l: Listing|
        if chosen(l) {
            l.own_files()
        } else {
            0
        };
    assert forall|i: int| 0 <= i < listings.len() implies once_if(count_is(at))(
        #[trigger] listings[i],
    ) == once(listings[i]) && files_if(count_is(at))(listings[i]) == files(listings[i]) by {
        assert(chosen(listings[i]) == (file_count_of(listings[i].own_files() as u64) == band));
    }
    sums_agree(listings, once_if(count_is(at)), once);
    sums_agree(listings, files_if(count_is(at)), files);
}

proof fn every_listing_has_its_bands()
    ensures
        forall|l: Listing|
            l.children.len() <= usize::MAX ==> {
                let d = l.subdirectories();
                let band = #[trigger] fan_out_of(l.subdirectories() as u64);
                &&& band == FanOut::Leaf <==> d == 0
                &&& band == FanOut::One <==> d == 1
                &&& band == FanOut::From2To9 <==> 2 <= d <= 9
                &&& band == FanOut::From10To99 <==> 10 <= d <= 99
                &&& band == FanOut::From100To999 <==> 100 <= d <= 999
                &&& band == FanOut::Over1000 <==> 1000 <= d
            },
        forall|l: Listing|
            l.children.len() <= usize::MAX ==> {
                let f = l.own_files();
                let band = #[trigger] file_count_of(l.own_files() as u64);
                &&& band == FileCount::NoFiles <==> f == 0
                &&& band == FileCount::From1To9 <==> 1 <= f <= 9
                &&& band == FileCount::From10To99 <==> 10 <= f <= 99
                &&& band == FileCount::From100To999 <==> 100 <= f <= 999
                &&& band == FileCount::From1000To9999 <==> 1000 <= f <= 9999
                &&& band == FileCount::Over10000 <==> 10000 <= f
            },
{
    assert forall|l: Listing| l.children.len() <= usize::MAX implies {
        let d = l.subdirectories();
        let band = #[trigger] fan_out_of(l.subdirectories() as u64);
        &&& band == FanOut::Leaf <==> d == 0
        &&& band == FanOut::One <==> d == 1
        &&& band == FanOut::From2To9 <==> 2 <= d <= 9
        &&& band == FanOut::From10To99 <==> 10 <= d <= 99
        &&& band == FanOut::From100To999 <==> 100 <= d <= 999
        &&& band == FanOut::Over1000 <==> 1000 <= d
    } by {
        counted_as_held(l);
        a_fan_out_is_reported_by_name(l.subdirectories() as u64);
    }
    assert forall|l: Listing| l.children.len() <= usize::MAX implies {
        let f = l.own_files();
        let band = #[trigger] file_count_of(l.own_files() as u64);
        &&& band == FileCount::NoFiles <==> f == 0
        &&& band == FileCount::From1To9 <==> 1 <= f <= 9
        &&& band == FileCount::From10To99 <==> 10 <= f <= 99
        &&& band == FileCount::From100To999 <==> 100 <= f <= 999
        &&& band == FileCount::From1000To9999 <==> 1000 <= f <= 9999
        &&& band == FileCount::Over10000 <==> 10000 <= f
    } by {
        counted_as_held(l);
        a_file_count_is_reported_by_name(l.own_files() as u64);
    }
}

/// Each directory that was listed is reported once by how many files it holds
/// itself, whatever the number of its subdirectories, together with those
/// files.
pub proof fn directories_are_banded_by_their_own_files(
    structure: Structure,
    listings: Seq<Listing>,
    root_is_directory: bool,
)
    requires
        at_some_level(listings),
        can_be_held(listings),
        structure.describes(shape_of(listings), root_is_directory),
    ensures
        ({
            let m = structure.file_counts.map();
            &&& reports_band(m, FileCount::NoFiles, listings, |l: Listing| l.own_files() == 0)
            &&& reports_band(
                m,
                FileCount::From1To9,
                listings,
                |l: Listing| 1 <= l.own_files() <= 9,
            )
            &&& reports_band(
                m,
                FileCount::From10To99,
                listings,
                |l: Listing| 10 <= l.own_files() <= 99,
            )
            &&& reports_band(
                m,
                FileCount::From100To999,
                listings,
                |l: Listing| 100 <= l.own_files() <= 999,
            )
            &&& reports_band(
                m,
                FileCount::From1000To9999,
                listings,
                |l: Listing| 1000 <= l.own_files() <= 9999,
            )
            &&& reports_band(
                m,
                FileCount::Over10000,
                listings,
                |l: Listing| 10000 <= l.own_files(),
            )
        }),
{
    every_listing_has_its_bands();
    let root = root_is_directory;
    file_count_entry(
        structure,
        listings,
        root,
        FileCount::NoFiles,
        |l: Listing| l.own_files() == 0,
    );
    file_count_entry(
        structure,
        listings,
        root,
        FileCount::From1To9,
        |l: Listing| 1 <= l.own_files() <= 9,
    );
    file_count_entry(
        structure,
        listings,
        root,
        FileCount::From10To99,
        |l: Listing| 10 <= l.own_files() <= 99,
    );
    file_count_entry(
        structure,
        listings,
        root,
        FileCount::From100To999,
        |l: Listing| 100 <= l.own_files() <= 999,
    );
    file_count_entry(
        structure,
        listings,
        root,
        FileCount::From1000To9999,
        |l: Listing| 1000 <= l.own_files() <= 9999,
    );
    file_count_entry(
        structure,
        listings,
        root,
        FileCount::Over10000,
        |l: Listing| 10000 <= l.own_files(),
    );
}

/// Each directory that was listed is reported once by how many subdirectories
/// it holds, whatever the number of its files, together with those files.
pub proof fn directories_are_banded_by_their_subdirectories(
    structure: Structure,
    listings: Seq<Listing>,
    root_is_directory: bool,
)
    requires
        at_some_level(listings),
        can_be_held(listings),
        structure.describes(shape_of(listings), root_is_directory),
    ensures
        ({
            let m = structure.fan_out.map();
            &&& reports_band(m, FanOut::Leaf, listings, |l: Listing| l.subdirectories() == 0)
            &&& reports_band(m, FanOut::One, listings, |l: Listing| l.subdirectories() == 1)
            &&& reports_band(
                m,
                FanOut::From2To9,
                listings,
                |l: Listing| 2 <= l.subdirectories() <= 9,
            )
            &&& reports_band(
                m,
                FanOut::From10To99,
                listings,
                |l: Listing| 10 <= l.subdirectories() <= 99,
            )
            &&& reports_band(
                m,
                FanOut::From100To999,
                listings,
                |l: Listing| 100 <= l.subdirectories() <= 999,
            )
            &&& reports_band(
                m,
                FanOut::Over1000,
                listings,
                |l: Listing| 1000 <= l.subdirectories(),
            )
        }),
{
    every_listing_has_its_bands();
    let root = root_is_directory;
    fan_out_entry(
        structure,
        listings,
        root,
        FanOut::Leaf,
        |l: Listing| l.subdirectories() == 0,
    );
    fan_out_entry(
        structure,
        listings,
        root,
        FanOut::One,
        |l: Listing| l.subdirectories() == 1,
    );
    fan_out_entry(
        structure,
        listings,
        root,
        FanOut::From2To9,
        |l: Listing| 2 <= l.subdirectories() <= 9,
    );
    fan_out_entry(
        structure,
        listings,
        root,
        FanOut::From10To99,
        |l: Listing| 10 <= l.subdirectories() <= 99,
    );
    fan_out_entry(
        structure,
        listings,
        root,
        FanOut::From100To999,
        |l: Listing| 100 <= l.subdirectories() <= 999,
    );
    fan_out_entry(
        structure,
        listings,
        root,
        FanOut::Over1000,
        |l: Listing| 1000 <= l.subdirectories(),
    );
}

spec fn dirs_at(level: int) -> spec_fn(Listing) -> int {
    |l: Listing|
        if l.depth + 1 == level {
            l.subdirectories()
        } else {
            0
        }
}

spec fn files_at(level: int) -> spec_fn(Listing) -> int {
    |l: Listing|
        if l.depth + 1 == level {
            l.own_files()
        } else {
            0
        }
}

proof fn level_counters(listings: Seq<Listing>, level: int)
    requires
        at_some_level(listings),
        1 <= level <= 64,
    ensures
        ({
            let group = shape_of(listings).levels[level];
            &&& group.directories == on_a_counter(sum_over(listings, dirs_at(level)))
            &&& group.files == on_a_counter(sum_over(listings, files_at(level)))
        }),
    decreases listings.len(),
{
    if listings.len() > 0 {
        let rest = listings.drop_last();
        let l = listings.last();
        front_is_at_some_level(listings);
        level_counters(rest, level);
        every_shape_is_balanced(rest);
        counted_as_held(l);
        wrapping_early(l.subdirectories(), sum_over(rest, dirs_at(level)));
        wrapping_early(l.own_files(), sum_over(rest, files_at(level)));
    }
}

/// The sums over all the listings, and over those too deep for a level of
/// their own.
proof fn whole_counters(listings: Seq<Listing>)
    requires
        at_some_level(listings),
    ensures
        ({
            let shape = shape_of(listings);
            &&& shape.beyond_tracked.directories == on_a_counter(
                sum_over(
                    listings,
                    |l: Listing|
                        if l.depth + 1 > 64 {
                            l.subdirectories()
                        } else {
                            0
                        },
                ),
            )
            &&& shape.beyond_tracked.files == on_a_counter(
                sum_over(
                    listings,
                    |l: Listing|
                        if l.depth + 1 > 64 {
                            l.own_files()
                        } else {
                            0
                        },
                ),
            )
            &&& shape.directories == on_a_counter(
                sum_over(listings, |l: Listing| l.subdirectories()),
            )
            &&& shape.listed == on_a_counter(listings.len() as int)
            &&& shape.long_paths.directories == on_a_counter(
                sum_over(listings, |l: Listing| l.long_subdirectories()),
            )
            &&& shape.long_paths.files == on_a_counter(
                sum_over(listings, |l: Listing| l.long_own_files()),
            )
        }),
    decreases listings.len(),
{
    if listings.len() > 0 {
        let rest = listings.drop_last();
        let l = listings.last();
        front_is_at_some_level(listings);
        whole_counters(rest);
        every_shape_is_balanced(rest);
        counted_as_held(l);
        let deep_dirs = |l: Listing|
            if l.depth + 1 > 64 {
                l.subdirectories()
            } else {
                0
            };
        let deep_files = |l: Listing|
            if l.depth + 1 > 64 {
                l.own_files()
            } else {
                0
            };
        wrapping_early(l.subdirectories(), sum_over(rest, deep_dirs));
        wrapping_early(l.own_files(), sum_over(rest, deep_files));
        wrapping_early(l.subdirectories(), sum_over(rest, |l: Listing| l.subdirectories()));
        wrapping_early(1, rest.len() as int);
        wrapping_early(
            l.long_subdirectories(),
            sum_over(rest, |l: Listing| l.long_subdirectories()),
        );
        wrapping_early(l.long_own_files(), sum_over(rest, |l: Listing| l.long_own_files()));
    }
}

proof fn trailing_empties(levels: Seq<DirectoryGroup>)
    ensures
        ({
            let kept = without_trailing_empties(levels);
            &&& kept.len() <= levels.len()
            &&& kept == levels.take(kept.len() as int)
            &&& kept.len() > 0 ==> kept.last().directories > 0 || kept.last().files > 0
            &&& forall|i: int|
                kept.len() <= i < levels.len() ==> (#[trigger] levels[i]).directories == 0
                    && levels[i].files == 0
        }),
    decreases levels.len(),
{
    let kept = without_trailing_empties(levels);
    if levels.len() > 0 && levels.last().holds_nothing() {
        let fewer = levels.drop_last();
        trailing_empties(fewer);
        assert(fewer.take(kept.len() as int) =~= levels.take(kept.len() as int));
        assert forall|i: int| kept.len() <= i < levels.len() implies (#[trigger]
        levels[i]).directories == 0 && levels[i].files == 0 by {
            if i < fewer.len() {
                assert(fewer[i] == levels[i]);
            }
        }
    } else {
        assert(levels.take(levels.len() as int) =~= levels);
    }
}

/// What the report says of a level. It stops behind the last level that holds
/// anything.
pub open spec fn level_of(structure: Structure, level: int) -> DirectoryGroup {
    if 0 <= level < structure.levels@.len() {
        structure.levels@[level]
    } else {
        DirectoryGroup { directories: 0, files: 0 }
    }
}

/// Every entry is counted at the level it sits at, one below the directory that
/// lists it, and the root, if it is a directory, at level zero. There are
/// sixty-four levels below the root; what sits deeper is counted apart.
pub proof fn entries_are_counted_at_their_level(
    structure: Structure,
    listings: Seq<Listing>,
    root_is_directory: bool,
    level: int,
)
    requires
        at_some_level(listings),
        structure.describes(shape_of(listings), root_is_directory),
    ensures
        level_of(structure, 0).directories == if root_is_directory {
            1int
        } else {
            0
        },
        level_of(structure, 0).files == 0,
        1 <= level <= 64 ==> level_of(structure, level).directories == on_a_counter(
            sum_over(
                listings,
                |l: Listing|
                    if l.depth + 1 == level {
                        l.subdirectories()
                    } else {
                        0
                    },
            ),
        ),
        1 <= level <= 64 ==> level_of(structure, level).files == on_a_counter(
            sum_over(
                listings,
                |l: Listing|
                    if l.depth + 1 == level {
                        l.own_files()
                    } else {
                        0
                    },
            ),
        ),
        structure.beyond_tracked.directories == on_a_counter(
            sum_over(
                listings,
                |l: Listing|
                    if l.depth + 1 > 64 {
                        l.subdirectories()
                    } else {
                        0
                    },
            ),
        ),
        structure.beyond_tracked.files == on_a_counter(
            sum_over(
                listings,
                |l: Listing|
                    if l.depth + 1 > 64 {
                        l.own_files()
                    } else {
                        0
                    },
            ),
        ),
        structure.levels@.len() <= 65,
        structure.levels@.len() > 0 ==> structure.levels@.last().directories > 0
            || structure.levels@.last().files > 0,
{
    let shape = shape_of(listings);
    let all = shape.levels_with_root(root_is_directory);
    every_shape_is_balanced(listings);
    whole_counters(listings);
    trailing_empties(all);
    assert(level_of(structure, 0) == all[0]);
    if 1 <= level <= 64 {
        level_counters(listings, level);
        assert(level_of(structure, level) == all[level]);
        let dirs = |l: Listing|
            if l.depth + 1 == level {
                l.subdirectories()
            } else {
                0
            };
        let files = |l: Listing|
            if l.depth + 1 == level {
                l.own_files()
            } else {
                0
            };
        sums_agree(listings, dirs_at(level), dirs);
        sums_agree(listings, files_at(level), files);
    }
}

/// The directories of a tree are the root, if it is one, and every
/// subdirectory that was seen. Those listed are as many as the listings. The
/// entries past the length that backups break at are those whose path below
/// the root is longer than 260 bytes.
pub proof fn everything_seen_is_counted(
    structure: Structure,
    listings: Seq<Listing>,
    root_is_directory: bool,
)
    requires
        at_some_level(listings),
        structure.describes(shape_of(listings), root_is_directory),
    ensures
        structure.directories == on_a_counter(
            sum_over(listings, |l: Listing| l.subdirectories()) + if root_is_directory {
                1int
            } else {
                0
            },
        ),
        structure.listed_directories == on_a_counter(listings.len() as int),
        structure.long_paths.directories == on_a_counter(
            sum_over(listings, |l: Listing| l.long_subdirectories()),
        ),
        structure.long_paths.files == on_a_counter(
            sum_over(listings, |l: Listing| l.long_own_files()),
        ),
{
    whole_counters(listings);
    wrapping_early(1, sum_over(listings, |l: Listing| l.subdirectories()));
}

proof fn longest_is_reached(l: Listing, children: Seq<Child>)
    ensures
        ({
            let longest = longest_in(children, l.relative_length);
            &&& longest >= 0
            &&& forall|i: int|
                0 <= i < children.len() && ((#[trigger] children[i]).is_dir || children[i].is_file)
                    ==> l.length_of(children[i]) <= longest
            &&& longest == 0 || exists|i: int|
                0 <= i < children.len() && ((#[trigger] children[i]).is_dir || children[i].is_file)
                    && l.length_of(children[i]) == longest
        }),
    decreases children.len(),
{
    if children.len() > 0 {
        let rest = children.drop_last();
        longest_is_reached(l, rest);
        let longest = longest_in(children, l.relative_length);
        assert forall|i: int|
            0 <= i < children.len() && ((#[trigger] children[i]).is_dir
                || children[i].is_file) implies l.length_of(children[i]) <= longest by {
            if i < rest.len() {
                assert(rest[i] == children[i]);
            }
        }
        let before = longest_in(rest, l.relative_length);
        if longest == before && before != 0 {
            let i = choose|i: int|
                0 <= i < rest.len() && ((#[trigger] rest[i]).is_dir || rest[i].is_file)
                    && l.length_of(rest[i]) == before;
            assert(children[i] == rest[i]);
        } else if longest != before {
            let c = children[children.len() - 1];
            assert(c == children.last());
            assert(l.length_of(c) == longest);
        }
    }
}

/// The deepest level is that of the deepest directory listed, or one more if
/// that directory holds anything. The longest path is that of some file or
/// directory, and none is longer.
pub proof fn the_extremes_are_reached(
    structure: Structure,
    listings: Seq<Listing>,
    root_is_directory: bool,
)
    requires
        at_some_level(listings),
        structure.describes(shape_of(listings), root_is_directory),
    ensures
        forall|i: int|
            0 <= i < listings.len() ==> (#[trigger] listings[i]).depth <= structure.deepest,
        forall|i: int|
            0 <= i < listings.len() && ((#[trigger] listings[i]).subdirectories() > 0
                || listings[i].own_files() > 0) ==> listings[i].depth + 1 <= structure.deepest,
        structure.deepest == 0 || exists|i: int|
            0 <= i < listings.len() && structure.deepest == (#[trigger] listings[i]).depth + if (
            listings[i].subdirectories() > 0 || listings[i].own_files() > 0) {
                1int
            } else {
                0
            },
        forall|i: int, j: int|
            0 <= i < listings.len() && 0 <= j < listings[i].children.len() && ((
            #[trigger] listings[i].children[j]).is_dir || listings[i].children[j].is_file)
                ==> listings[i].length_of(listings[i].children[j]) <= structure.longest_path,
        structure.longest_path == 0 || exists|i: int, j: int|
            0 <= i < listings.len() && 0 <= j < listings[i].children.len() && ((
            #[trigger] listings[i].children[j]).is_dir || listings[i].children[j].is_file)
                && listings[i].length_of(listings[i].children[j]) == structure.longest_path,
{
    extremes(listings);
}

proof fn extremes(listings: Seq<Listing>)
    requires
        at_some_level(listings),
    ensures
        ({
            let shape = shape_of(listings);
            &&& shape.deepest >= 0
            &&& shape.longest_path >= 0
            &&& forall|i: int|
                0 <= i < listings.len() ==> (#[trigger] listings[i]).depth <= shape.deepest
            &&& forall|i: int|
                0 <= i < listings.len() && ((#[trigger] listings[i]).subdirectories() > 0
                    || listings[i].own_files() > 0) ==> listings[i].depth + 1 <= shape.deepest
            &&& shape.deepest == 0 || exists|i: int|
                0 <= i < listings.len() && shape.deepest == (#[trigger] listings[i]).depth + if (
                listings[i].subdirectories() > 0 || listings[i].own_files() > 0) {
                    1int
                } else {
                    0
                }
            &&& forall|i: int, j: int|
                0 <= i < listings.len() && 0 <= j < listings[i].children.len() && ((
                #[trigger] listings[i].children[j]).is_dir || listings[i].children[j].is_file)
                    ==> listings[i].length_of(listings[i].children[j]) <= shape.longest_path
            &&& shape.longest_path == 0 || exists|i: int, j: int|
                0 <= i < listings.len() && 0 <= j < listings[i].children.len() && ((
                #[trigger] listings[i].children[j]).is_dir || listings[i].children[j].is_file)
                    && listings[i].length_of(listings[i].children[j]) == shape.longest_path
        }),
    decreases listings.len(),
{
    if listings.len() > 0 {
        let rest = listings.drop_last();
        let n = listings.len() - 1;
        let l = listings[n];
        let before = shape_of(rest);
        let shape = shape_of(listings);
        front_is_at_some_level(listings);
        extremes(rest);
        counted_as_held(l);
        longest_is_reached(l, l.children);
        let longest = longest_in(l.children, l.relative_length);
        assert(l == listings.last());
        assert forall|i: int| 0 <= i < rest.len() implies #[trigger] rest[i] == listings[i] by {}
        assert forall|i: int| 0 <= i < listings.len() implies (#[trigger] listings[i]).depth
            <= shape.deepest by {
            if i < n {
                assert(rest[i].depth <= before.deepest);
            }
        }
        assert forall|i: int|
            0 <= i < listings.len() && ((#[trigger] listings[i]).subdirectories() > 0
                || listings[i].own_files() > 0) implies listings[i].depth + 1 <= shape.deepest by {
            if i < n {
                assert(rest[i].depth + 1 <= before.deepest);
            }
        }
        if shape.deepest == before.deepest {
            if before.deepest != 0 {
                let i = choose|i: int|
                    0 <= i < rest.len() && before.deepest == (#[trigger] rest[i]).depth + if (
                    rest[i].subdirectories() > 0 || rest[i].own_files() > 0) {
                        1int
                    } else {
                        0
                    };
                assert(listings[i] == rest[i]);
            }
        } else {
            assert(shape.deepest == listings[n].depth + if (listings[n].subdirectories() > 0
                || listings[n].own_files() > 0) {
                1int
            } else {
                0
            });
        }
        assert forall|i: int, j: int|
            0 <= i < listings.len() && 0 <= j < listings[i].children.len() && ((
            #[trigger] listings[i].children[j]).is_dir
                || listings[i].children[j].is_file) implies listings[i].length_of(
            listings[i].children[j],
        ) <= shape.longest_path by {
            if i < n {
                assert(rest[i].children[j] == listings[i].children[j]);
            }
        }
        if shape.longest_path == before.longest_path {
            if before.longest_path != 0 {
                let (i, j) = choose|i: int, j: int|
                    0 <= i < rest.len() && 0 <= j < rest[i].children.len() && ((
                    #[trigger] rest[i].children[j]).is_dir || rest[i].children[j].is_file)
                        && rest[i].length_of(rest[i].children[j]) == before.longest_path;
                assert(listings[i].children[j] == rest[i].children[j]);
            }
        } else {
            let j = choose|j: int|
                0 <= j < l.children.len() && ((#[trigger] l.children[j]).is_dir
                    || l.children[j].is_file) && l.length_of(l.children[j]) == longest;
            assert(listings[n].children[j] == l.children[j]);
        }
    }
}

proof fn own_files_add_up(listings: Seq<Listing>)
    requires
        at_some_level(listings),
    ensures
        on_a_counter(file_sum(shape_of(listings).file_counts)) == on_a_counter(
            sum_over(listings, |l: Listing| l.own_files()),
        ),
    decreases listings.len(),
{
    if listings.len() == 0 {
        sums_of_nothing(shape_of(listings).file_counts);
    } else {
        let rest = listings.drop_last();
        let l = listings.last();
        front_is_at_some_level(listings);
        own_files_add_up(rest);
        every_shape_is_balanced(rest);
        counted_as_held(l);
        let counts = shape_of(rest).file_counts;
        let f = l.own_files();
        let at = file_count_of(f as u64).position() as int;
        sums_after_update(counts, at, shape_of(listings).file_counts[at]);
        wrapping_early(file_sum(counts) - counts[at].files, counts[at].files + f);
        wrapping_early(f, file_sum(counts));
        wrapping_early(f, sum_over(rest, |l: Listing| l.own_files()));
    }
}

/// The files of the report are all those that were seen in a directory.
pub proof fn every_file_seen_is_reported(
    structure: Structure,
    listings: Seq<Listing>,
    root_is_directory: bool,
)
    requires
        at_some_level(listings),
        structure.describes(shape_of(listings), root_is_directory),
    ensures
        on_a_counter(total_of(structure.file_counts.map(), group_files())) == on_a_counter(
            sum_over(listings, |l: Listing| l.own_files()),
        ),
{
    own_files_add_up(listings);
    every_shape_is_balanced(listings);
    banded_sums(shape_of(listings).file_counts, FileCount::ALL@);
}

/// The file counts look at files alone: two listings with as many files leave
/// the same report on them, whatever subdirectories and other entries they hold
/// and wherever they stand.
pub proof fn subdirectories_do_not_touch_the_file_counts(shape: Shape, a: Listing, b: Listing)
    requires
        a.own_files() == b.own_files(),
    ensures
        shape.with_listing(a).file_counts == shape.with_listing(b).file_counts,
{
    counted_as_held(a);
    counted_as_held(b);
}

/// Neither report on directories depends on where they stand or on how long
/// the names in them are.
pub proof fn places_do_not_touch_the_bands(shape: Shape, a: Listing, b: Listing)
    requires
        a.own_files() == b.own_files(),
        a.subdirectories() == b.subdirectories(),
    ensures
        shape.with_listing(a).fan_out == shape.with_listing(b).fan_out,
        shape.with_listing(a).file_counts == shape.with_listing(b).file_counts,
        shape.with_listing(a).directories == shape.with_listing(b).directories,
{
    counted_as_held(a);
    counted_as_held(b);
}

/// The rows of the report on levels are the levels that hold anything, each
/// with its depth, root first.
pub proof fn level_rows_are_the_levels_in_use(levels: Seq<DirectoryGroup>)
    requires
        levels.len() <= usize::MAX,
    ensures
        ({
            let rows = occupied_levels(levels);
            &&& forall|i: int|
                0 <= i < rows.len() ==> {
                    let (depth, group) = #[trigger] rows[i];
                    depth < levels.len() && group == levels[depth as int] && (group.directories > 0
                        || group.files > 0)
                }
            &&& forall|i: int, j: int|
                0 <= i < j < rows.len() ==> (#[trigger] rows[i]).0 < (#[trigger] rows[j]).0
            &&& forall|depth: int|
                0 <= depth < levels.len() && ((#[trigger] levels[depth]).directories > 0
                    || levels[depth].files > 0) ==> exists|i: int|
                    0 <= i < rows.len() && (#[trigger] rows[i]).0 == depth
        }),
    decreases levels.len(),
{
    if levels.len() > 0 {
        let front = levels.drop_last();
        let before = occupied_levels(front);
        let rows = occupied_levels(levels);
        level_rows_are_the_levels_in_use(front);
        assert forall|i: int| 0 <= i < rows.len() implies {
            let (depth, group) = #[trigger] rows[i];
            depth < levels.len() && group == levels[depth as int] && (group.directories > 0
                || group.files > 0)
        } by {
            if i < before.len() {
                assert(rows[i] == before[i]);
                assert(front[before[i].0 as int] == levels[before[i].0 as int]);
            }
        }
        assert forall|i: int, j: int| 0 <= i < j < rows.len() implies (#[trigger] rows[i]).0 < (
        #[trigger] rows[j]).0 by {
            assert(rows[i] == before[i]);
            if j < before.len() {
                assert(rows[j] == before[j]);
            }
        }
        assert forall|depth: int|
            0 <= depth < levels.len() && ((#[trigger] levels[depth]).directories > 0
                || levels[depth].files > 0) implies exists|i: int|
            0 <= i < rows.len() && (#[trigger] rows[i]).0 == depth by {
            if depth < front.len() {
                assert(front[depth] == levels[depth]);
                let i = choose|i: int| 0 <= i < before.len() && (#[trigger] before[i]).0 == depth;
                assert(rows[i] == before[i]);
            } else {
                assert(rows[before.len() as int].0 == depth);
            }
        }
    }
}

} // verus!
