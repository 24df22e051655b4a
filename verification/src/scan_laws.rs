//! What a scan reports, in terms of the files that were measured and the
//! options that were given.

use crate::band_laws::{a_size_is_reported_by_name, an_age_is_reported_by_name};
use crate::bands::{age_of, size_band_of, AgeBucket, SizeBand, Timestamp};
use crate::laws::{
    dividing_the_files_makes_no_difference, each_total_counts_its_own_files,
    every_report_accounts_for_every_file, tally_where, turning_a_report_off_changes_no_other,
};
use crate::options::ScanOptions;
use crate::order::Ordered;
use crate::partial::{
    all_spelled_by, facts, shares_spelled_by, summaries, tallies, FileRecord, Measurement, Partial,
};
use crate::path::{extension_text, parts_precede, spelled, FilePath, PartKey, Spelling};
use crate::ranking::{keys, leading, ranked, ranked_is_in_order};
use crate::scan::{hotspot_precedes, Scan};
use crate::sorted_map::value_or;
use crate::summary::{
    combined, largest_are_the_leading_files, measured_keys, summarise, FileFacts, FileKey,
    LargestFile, Settings,
};
use crate::tally::{fits, Bucket, Tally};
use vstd::prelude::*;

verus! {

/// The number and size of the measured files that satisfy `p`.
pub open spec fn tally_of(files: Seq<Measurement>, p: spec_fn(FileRecord) -> bool) -> Tally
    decreases files.len(),
{
    if files.len() == 0 {
        Tally { count: 0, bytes: 0 }
    } else {
        let rest = tally_of(files.drop_last(), p);
        match files.last() {
            Measurement::Measured(f) => if p(f) {
                Tally { count: rest.count + 1, bytes: rest.bytes + f.size }
            } else {
                rest
            },
            Measurement::Failed => rest,
        }
    }
}

/// How many files could not be measured.
pub open spec fn failures(files: Seq<Measurement>) -> int
    decreases files.len(),
{
    if files.len() == 0 {
        0
    } else {
        failures(files.drop_last()) + match files.last() {
            Measurement::Measured(_) => 0int,
            Measurement::Failed => 1,
        }
    }
}

/// Whether a report puts under `name` exactly the files that `chosen` picks. A
/// name that no file belongs to is left out.
pub open spec fn reports_files<B>(
    m: Map<B, Bucket>,
    name: B,
    files: Seq<Measurement>,
    chosen: spec_fn(FileRecord) -> bool,
) -> bool {
    let all = tally_of(files, chosen);
    &&& m.dom().contains(name) <==> all.count > 0
    &&& m.dom().contains(name) ==> m[name].count == all.count && m[name].bytes == all.bytes
}

proof fn tallies_agree(
    files: Seq<Measurement>,
    p: spec_fn(FileRecord) -> bool,
    q: spec_fn(FileFacts) -> bool,
)
    requires
        forall|f: FileRecord| #[trigger] p(f) == q(f@),
    ensures
        tally_of(files, p) == tally_where(facts(files), q),
        tally_of(files, p).count >= 0,
        tally_of(files, p).bytes >= 0,
    decreases files.len(),
{
    if files.len() > 0 {
        tallies_agree(files.drop_last(), p, q);
        assert(facts(files).drop_last() =~= facts(files.drop_last()));
        assert(facts(files).last() == files.last()@);
        match files.last() {
            Measurement::Measured(f) => {
                assert(p(f) == q(f@));
            },
            Measurement::Failed => {},
        }
    }
}

/// A total is there only if some file belongs to it.
proof fn only_totals_in_use_are_kept(
    files: Seq<Option<FileFacts>>,
    settings: Settings,
    extension: Seq<char>,
    age: AgeBucket,
    size: SizeBand,
    directory: Seq<PartKey>,
)
    ensures
        ({
            let s = summarise(files, settings);
            let e = tally_where(files, |f: FileFacts| extension_text(f.name) == extension);
            let a = tally_where(files, |f: FileFacts| age_of(f.modified, settings.now) == age);
            let b = tally_where(files, |f: FileFacts| size_band_of(f.size) == size);
            let d = tally_where(files, |f: FileFacts| f.directory == directory);
            &&& e.count >= 0 && a.count >= 0 && b.count >= 0 && d.count >= 0
            &&& s.extensions.dom().contains(extension) <==> e.count > 0
            &&& s.ages.dom().contains(age) <==> a.count > 0
            &&& s.sizes.dom().contains(size) <==> b.count > 0
            &&& settings.track_directories ==> (s.directories.dom().contains(directory)
                <==> d.count > 0)
        }),
    decreases files.len(),
{
    if files.len() > 0 {
        only_totals_in_use_are_kept(
            files.drop_last(),
            settings,
            extension,
            age,
            size,
            directory,
        );
    }
}

proof fn held_totals<Q>(m: Map<Q, Bucket>, k: Q, all: Tally)
    requires
        value_or(tallies(m), k, Tally::zero()) == all,
        tallies(m).dom().contains(k) <==> all.count > 0,
    ensures
        m.dom().contains(k) <==> all.count > 0,
        m.dom().contains(k) ==> m[k].count == all.count && m[k].bytes == all.bytes,
{
}

/// Each extension is reported with the files that have it, and those alone.
pub proof fn files_are_counted_by_extension(
    scan: Scan,
    files: Seq<Measurement>,
    options: ScanOptions,
    now: Timestamp,
    extension: Seq<char>,
)
    requires
        scan.reports(summarise(facts(files), options.settings(now)), options),
    ensures
        reports_files(
            scan.totals.map(),
            extension,
            files,
            |f: FileRecord| extension_text(f.name@) == extension,
        ),
{
    let settings = options.settings(now);
    let all = facts(files);
    each_total_counts_its_own_files(
        all,
        settings,
        extension,
        AgeBucket::Unknown,
        SizeBand::Empty,
        Seq::empty(),
    );
    only_totals_in_use_are_kept(
        all,
        settings,
        extension,
        AgeBucket::Unknown,
        SizeBand::Empty,
        Seq::empty(),
    );
    let p = |f: FileRecord| extension_text(f.name@) == extension;
    tallies_agree(files, p, |f: FileFacts| extension_text(f.name) == extension);
    held_totals(scan.totals.map(), extension, tally_of(files, p));
}

proof fn age_entry(
    scan: Scan,
    files: Seq<Measurement>,
    options: ScanOptions,
    now: Timestamp,
    band: AgeBucket,
    chosen: spec_fn(FileRecord) -> bool,
)
    requires
        scan.reports(summarise(facts(files), options.settings(now)), options),
        forall|f: FileRecord| #[trigger] chosen(f) == (age_of(f.modified, now) == band),
    ensures
        reports_files(scan.ages.map(), band, files, chosen),
{
    let settings = options.settings(now);
    let all = facts(files);
    each_total_counts_its_own_files(
        all,
        settings,
        Seq::empty(),
        band,
        SizeBand::Empty,
        Seq::empty(),
    );
    only_totals_in_use_are_kept(all, settings, Seq::empty(), band, SizeBand::Empty, Seq::empty());
    tallies_agree(
        files,
        chosen,
        |f: FileFacts| age_of(f.modified, settings.now) == band,
    );
    held_totals(scan.ages.map(), band, tally_of(files, chosen));
}

/// Whether a file was last modified at least `from` days before `now` and less
/// than `to` days.
pub open spec fn aged(f: FileRecord, now: Timestamp, from: int, to: int) -> bool {
    match f.modified {
        Some(at) => from * 86_400_000_000_000 <= now.nanos - at.nanos < to * 86_400_000_000_000,
        None => false,
    }
}

/// Each age is reported with the files of that age as seen from the start of
/// the scan, and those alone.
pub proof fn files_are_counted_by_age(
    scan: Scan,
    files: Seq<Measurement>,
    options: ScanOptions,
    now: Timestamp,
)
    requires
        scan.reports(summarise(facts(files), options.settings(now)), options),
    ensures
        ({
            let m = scan.ages.map();
            &&& reports_files(
                m,
                AgeBucket::Future,
                files,
                |f: FileRecord|
                    match f.modified {
                        Some(at) => at.nanos > now.nanos,
                        None => false,
                    },
            )
            &&& reports_files(m, AgeBucket::UpTo30Days, files, |f: FileRecord| aged(f, now, 0, 30))
            &&& reports_files(
                m,
                AgeBucket::From30To90Days,
                files,
                |f: FileRecord| aged(f, now, 30, 90),
            )
            &&& reports_files(
                m,
                AgeBucket::From90DaysTo1Year,
                files,
                |f: FileRecord| aged(f, now, 90, 365),
            )
            &&& reports_files(
                m,
                AgeBucket::From1To2Years,
                files,
                |f: FileRecord| aged(f, now, 365, 730),
            )
            &&& reports_files(
                m,
                AgeBucket::Over2Years,
                files,
                |f: FileRecord|
                    match f.modified {
                        Some(at) => now.nanos - at.nanos >= 730 * 86_400_000_000_000,
                        None => false,
                    },
            )
            &&& reports_files(m, AgeBucket::Unknown, files, |f: FileRecord| f.modified is None)
        }),
{
    assert forall|f: FileRecord|
        match f.modified {
            Some(at) => {
                let age = now.nanos - at.nanos;
                let day: int = 86_400_000_000_000;
                let band = #[trigger] age_of(f.modified, now);
                &&& band == AgeBucket::Future <==> age < 0
                &&& band == AgeBucket::UpTo30Days <==> 0 <= age < 30 * day
                &&& band == AgeBucket::From30To90Days <==> 30 * day <= age < 90 * day
                &&& band == AgeBucket::From90DaysTo1Year <==> 90 * day <= age < 365 * day
                &&& band == AgeBucket::From1To2Years <==> 365 * day <= age < 730 * day
                &&& band == AgeBucket::Over2Years <==> 730 * day <= age
                &&& band != AgeBucket::Unknown
            },
            None => age_of(f.modified, now) == AgeBucket::Unknown,
        } by {
        match f.modified {
            Some(at) => {
                an_age_is_reported_by_name(at, now);
            },
            None => {
                an_age_is_reported_by_name(now, now);
            },
        }
    }
    let future = |f: FileRecord|
        match f.modified {
            Some(at) => at.nanos > now.nanos,
            None => false,
        };
    let old = |f: FileRecord|
        match f.modified {
            Some(at) => now.nanos - at.nanos >= 730 * 86_400_000_000_000,
            None => false,
        };
    age_entry(scan, files, options, now, AgeBucket::Future, future);
    age_entry(
        scan,
        files,
        options,
        now,
        AgeBucket::UpTo30Days,
        |f: FileRecord| aged(f, now, 0, 30),
    );
    age_entry(
        scan,
        files,
        options,
        now,
        AgeBucket::From30To90Days,
        |f: FileRecord| aged(f, now, 30, 90),
    );
    age_entry(
        scan,
        files,
        options,
        now,
        AgeBucket::From90DaysTo1Year,
        |f: FileRecord| aged(f, now, 90, 365),
    );
    age_entry(
        scan,
        files,
        options,
        now,
        AgeBucket::From1To2Years,
        |f: FileRecord| aged(f, now, 365, 730),
    );
    age_entry(scan, files, options, now, AgeBucket::Over2Years, old);
    age_entry(scan, files, options, now, AgeBucket::Unknown, |f: FileRecord| f.modified is None);
}

proof fn size_entry(
    scan: Scan,
    files: Seq<Measurement>,
    options: ScanOptions,
    now: Timestamp,
    band: SizeBand,
    chosen: spec_fn(FileRecord) -> bool,
)
    requires
        scan.reports(summarise(facts(files), options.settings(now)), options),
        forall|f: FileRecord| #[trigger] chosen(f) == (size_band_of(f.size) == band),
    ensures
        reports_files(scan.sizes.map(), band, files, chosen),
{
    let settings = options.settings(now);
    let all = facts(files);
    each_total_counts_its_own_files(
        all,
        settings,
        Seq::empty(),
        AgeBucket::Unknown,
        band,
        Seq::empty(),
    );
    only_totals_in_use_are_kept(
        all,
        settings,
        Seq::empty(),
        AgeBucket::Unknown,
        band,
        Seq::empty(),
    );
    tallies_agree(files, chosen, |f: FileFacts| size_band_of(f.size) == band);
    held_totals(scan.sizes.map(), band, tally_of(files, chosen));
}

/// Each band of sizes is reported with the files of such a size, and those
/// alone.
pub proof fn files_are_counted_by_size(
    scan: Scan,
    files: Seq<Measurement>,
    options: ScanOptions,
    now: Timestamp,
)
    requires
        scan.reports(summarise(facts(files), options.settings(now)), options),
    ensures
        ({
            let m = scan.sizes.map();
            &&& reports_files(m, SizeBand::Empty, files, |f: FileRecord| f.size == 0)
            &&& reports_files(m, SizeBand::Under4K, files, |f: FileRecord| 0 < f.size < 0x1000)
            &&& reports_files(
                m,
                SizeBand::From4KTo64K,
                files,
                |f: FileRecord| 0x1000 <= f.size < 0x1_0000,
            )
            &&& reports_files(
                m,
                SizeBand::From64KTo1M,
                files,
                |f: FileRecord| 0x1_0000 <= f.size < 0x10_0000,
            )
            &&& reports_files(
                m,
                SizeBand::From1MTo16M,
                files,
                |f: FileRecord| 0x10_0000 <= f.size < 0x100_0000,
            )
            &&& reports_files(
                m,
                SizeBand::From16MTo128M,
                files,
                |f: FileRecord| 0x100_0000 <= f.size < 0x800_0000,
            )
            &&& reports_files(m, SizeBand::Over128M, files, |f: FileRecord| 0x800_0000 <= f.size)
        }),
{
    assert forall|f: FileRecord|
        {
            let n = f.size;
            let band = #[trigger] size_band_of(f.size);
            &&& band == SizeBand::Empty <==> n == 0
            &&& band == SizeBand::Under4K <==> 0 < n < 0x1000
            &&& band == SizeBand::From4KTo64K <==> 0x1000 <= n < 0x1_0000
            &&& band == SizeBand::From64KTo1M <==> 0x1_0000 <= n < 0x10_0000
            &&& band == SizeBand::From1MTo16M <==> 0x10_0000 <= n < 0x100_0000
            &&& band == SizeBand::From16MTo128M <==> 0x100_0000 <= n < 0x800_0000
            &&& band == SizeBand::Over128M <==> 0x800_0000 <= n
        } by {
        a_size_is_reported_by_name(f.size);
    }
    size_entry(scan, files, options, now, SizeBand::Empty, |f: FileRecord| f.size == 0);
    size_entry(scan, files, options, now, SizeBand::Under4K, |f: FileRecord| 0 < f.size < 0x1000);
    size_entry(
        scan,
        files,
        options,
        now,
        SizeBand::From4KTo64K,
        |f: FileRecord| 0x1000 <= f.size < 0x1_0000,
    );
    size_entry(
        scan,
        files,
        options,
        now,
        SizeBand::From64KTo1M,
        |f: FileRecord| 0x1_0000 <= f.size < 0x10_0000,
    );
    size_entry(
        scan,
        files,
        options,
        now,
        SizeBand::From1MTo16M,
        |f: FileRecord| 0x10_0000 <= f.size < 0x100_0000,
    );
    size_entry(
        scan,
        files,
        options,
        now,
        SizeBand::From16MTo128M,
        |f: FileRecord| 0x100_0000 <= f.size < 0x800_0000,
    );
    size_entry(scan, files, options, now, SizeBand::Over128M, |f: FileRecord| 0x800_0000 <= f.size);
}

proof fn failures_are_counted(files: Seq<Measurement>, settings: Settings)
    ensures
        summarise(facts(files), settings).unmeasurable == failures(files),
        tally_of(files, |f: FileRecord| true).count + failures(files) == files.len(),
    decreases files.len(),
{
    if files.len() > 0 {
        failures_are_counted(files.drop_last(), settings);
        assert(facts(files).drop_last() =~= facts(files.drop_last()));
        assert(facts(files).last() == files.last()@);
    }
}

/// The totals of a scan are those of all the files measured. The files counted
/// as small are those no larger than the size that was asked for, whatever else
/// was. Each file that could not be measured is counted as such, and no file is
/// left out.
pub proof fn the_whole_scan_is_counted(
    scan: Scan,
    files: Seq<Measurement>,
    options: ScanOptions,
    now: Timestamp,
)
    requires
        scan.reports(summarise(facts(files), options.settings(now)), options),
    ensures
        scan.total() == tally_of(files, |f: FileRecord| true),
        scan.small_files == tally_of(
            files,
            |f: FileRecord| f.size <= options.small_at_or_below,
        ).count,
        scan.small_bytes == tally_of(
            files,
            |f: FileRecord| f.size <= options.small_at_or_below,
        ).bytes,
        scan.small_at_or_below == options.small_at_or_below,
        scan.unmeasurable_files == failures(files),
        tally_of(files, |f: FileRecord| true).count + failures(files) == files.len(),
{
    let settings = options.settings(now);
    let all = facts(files);
    every_report_accounts_for_every_file(all, settings);
    each_total_counts_its_own_files(
        all,
        settings,
        Seq::empty(),
        AgeBucket::Unknown,
        SizeBand::Empty,
        Seq::empty(),
    );
    tallies_agree(files, |f: FileRecord| true, |f: FileFacts| true);
    tallies_agree(
        files,
        |f: FileRecord| f.size <= options.small_at_or_below,
        |f: FileFacts| f.size <= settings.small_at_or_below,
    );
    failures_are_counted(files, settings);
}

/// The files that a directory holds itself.
pub open spec fn held_by(files: Seq<Measurement>, directory: Seq<PartKey>) -> Tally {
    tally_of(files, |f: FileRecord| f.directory.components() == directory)
}

/// The files of at most `limit` bytes that a directory holds itself.
pub open spec fn small_held_by(
    files: Seq<Measurement>,
    directory: Seq<PartKey>,
    limit: u64,
) -> Tally {
    tally_of(files, |f: FileRecord| f.directory.components() == directory && f.size <= limit)
}

/// If at least one hotspot is asked for, measuring leaves for each directory
/// the number and size of its files and of its small files, whatever else is
/// asked for. If none is, no directory is kept track of.
pub proof fn directories_are_measured_if_hotspots_are_wanted(
    files: Seq<Measurement>,
    options: ScanOptions,
    now: Timestamp,
    directory: Seq<PartKey>,
)
    ensures
        ({
            let m = summarise(facts(files), options.settings(now)).directories;
            let all = held_by(files, directory);
            let small = small_held_by(files, directory, options.small_at_or_below);
            &&& options.hotspots > 0 ==> (m.dom().contains(directory) <==> all.count > 0)
            &&& options.hotspots > 0 && m.dom().contains(directory) ==> m[directory].all == all
                && m[directory].small == small
            &&& options.hotspots == 0 ==> !m.dom().contains(directory)
            &&& 0 <= small.count <= all.count
        }),
{
    let settings = options.settings(now);
    let facts = facts(files);
    let limit = options.small_at_or_below;
    each_total_counts_its_own_files(
        facts,
        settings,
        Seq::empty(),
        AgeBucket::Unknown,
        SizeBand::Empty,
        directory,
    );
    only_totals_in_use_are_kept(
        facts,
        settings,
        Seq::empty(),
        AgeBucket::Unknown,
        SizeBand::Empty,
        directory,
    );
    tallies_agree(
        files,
        |f: FileRecord| f.directory.components() == directory,
        |f: FileFacts| f.directory == directory,
    );
    tallies_agree(
        files,
        |f: FileRecord| f.directory.components() == directory && f.size <= limit,
        |f: FileFacts| f.directory == directory && f.size <= settings.small_at_or_below,
    );
    narrower_tallies_are_smaller(
        files,
        |f: FileRecord| f.directory.components() == directory && f.size <= limit,
        |f: FileRecord| f.directory.components() == directory,
    );
}

proof fn narrower_tallies_are_smaller(
    files: Seq<Measurement>,
    narrow: spec_fn(FileRecord) -> bool,
    wide: spec_fn(FileRecord) -> bool,
)
    requires
        forall|f: FileRecord| #[trigger] narrow(f) ==> wide(f),
    ensures
        0 <= tally_of(files, narrow).count <= tally_of(files, wide).count,
        0 <= tally_of(files, narrow).bytes <= tally_of(files, wide).bytes,
    decreases files.len(),
{
    if files.len() > 0 {
        narrower_tallies_are_smaller(files.drop_last(), narrow, wide);
    }
}

proof fn a_file_is_counted(files: Seq<Measurement>, p: spec_fn(FileRecord) -> bool, k: int)
    requires
        0 <= k < files.len(),
        match files[k] {
            Measurement::Measured(f) => p(f),
            Measurement::Failed => false,
        },
    ensures
        tally_of(files, p).count > 0,
    decreases files.len(),
{
    narrower_tallies_are_smaller(files.drop_last(), p, p);
    if k < files.len() - 1 {
        a_file_is_counted(files.drop_last(), p, k);
    }
}

/// Whether one directory comes ahead of another in the report on hotspots: it
/// holds more small files, or as many and its path comes first.
pub open spec fn is_worse(
    directory: Seq<PartKey>,
    small: int,
    other: Seq<PartKey>,
    other_small: int,
) -> bool {
    small > other_small || (small == other_small && parts_precede(directory, other))
}

/// The hotspots are the directories with the most small files, as many as were
/// asked for at most, each with what it holds, worst first.
pub proof fn hotspots_hold_the_most_small_files(
    scan: Scan,
    files: Seq<Measurement>,
    options: ScanOptions,
    now: Timestamp,
)
    requires
        scan.reports(summarise(facts(files), options.settings(now)), options),
    ensures
        ({
            let found = scan.hotspots@;
            let limit = options.small_at_or_below;
            &&& found.len() <= options.hotspots
            &&& forall|i: int|
                0 <= i < found.len() ==> {
                    let stats = (#[trigger] found[i]).stats;
                    let all = held_by(files, found[i].directory.components());
                    let small = small_held_by(files, found[i].directory.components(), limit);
                    &&& stats.files == all.count
                    &&& stats.bytes == all.bytes
                    &&& stats.small_files == small.count
                    &&& stats.small_bytes == small.bytes
                    &&& stats.small_files > 0
                }
            &&& forall|i: int, j: int|
                0 <= i < j < found.len() ==> is_worse(
                    (#[trigger] found[i]).directory.components(),
                    found[i].stats.small_files as int,
                    (#[trigger] found[j]).directory.components(),
                    found[j].stats.small_files as int,
                )
        }),
{
    let found = scan.hotspots@;
    let m = summarise(facts(files), options.settings(now)).directories;
    assert forall|i: int| 0 <= i < found.len() implies {
        let stats = (#[trigger] found[i]).stats;
        let d = found[i].directory.components();
        let all = held_by(files, d);
        let small = small_held_by(files, d, options.small_at_or_below);
        &&& stats.files == all.count
        &&& stats.bytes == all.bytes
        &&& stats.small_files == small.count
        &&& stats.small_bytes == small.bytes
        &&& stats.small_files > 0
    } by {
        let d = found[i].directory.components();
        assert(m.dom().contains(d) && m[d] == found[i].stats@);
        directories_are_measured_if_hotspots_are_wanted(files, options, now, d);
    }
    assert forall|i: int, j: int| 0 <= i < j < found.len() implies is_worse(
        (#[trigger] found[i]).directory.components(),
        found[i].stats.small_files as int,
        (#[trigger] found[j]).directory.components(),
        found[j].stats.small_files as int,
    ) by {
        assert(hotspot_precedes(found[i].hotspot_key(), found[j].hotspot_key()));
    }
}

/// A directory with a small file is among the hotspots, unless as many as were
/// asked for come ahead of it.
pub proof fn no_worse_directory_is_left_out(
    scan: Scan,
    files: Seq<Measurement>,
    options: ScanOptions,
    now: Timestamp,
    k: int,
    file: FileRecord,
)
    requires
        scan.reports(summarise(facts(files), options.settings(now)), options),
        0 <= k < files.len(),
        files[k] == Measurement::Measured(file),
        file.size <= options.small_at_or_below,
        options.hotspots > 0,
    ensures
        ({
            let found = scan.hotspots@;
            let d = file.directory.components();
            ||| exists|i: int|
                0 <= i < found.len() && (#[trigger] found[i]).directory.components() == d
            ||| found.len() == options.hotspots && forall|i: int|
                0 <= i < found.len() ==> is_worse(
                    (#[trigger] found[i]).directory.components(),
                    found[i].stats.small_files as int,
                    d,
                    small_held_by(files, d, options.small_at_or_below).count,
                )
        }),
{
    let found = scan.hotspots@;
    let d = file.directory.components();
    let limit = options.small_at_or_below;
    let m = summarise(facts(files), options.settings(now)).directories;
    directories_are_measured_if_hotspots_are_wanted(files, options, now, d);
    a_file_is_counted(
        files,
        |f: FileRecord| f.directory.components() == d && f.size <= limit,
        k,
    );
    assert(m.dom().contains(d) && m[d].small.count > 0);
    if !(exists|i: int|
        0 <= i < found.len() && (#[trigger] found[i]).directory.components() == d) {
        assert forall|i: int| 0 <= i < found.len() implies is_worse(
            (#[trigger] found[i]).directory.components(),
            found[i].stats.small_files as int,
            d,
            small_held_by(files, d, limit).count,
        ) by {
            assert(hotspot_precedes(found[i].hotspot_key(), (d, m[d].small.count)));
        }
    }
}

/// The path and size of a measured file.
pub open spec fn path_and_size(f: FileRecord) -> FileKey {
    (f.directory.components().push((4, f.name@)), f.size)
}

/// The paths and sizes that the report on the largest files lists.
pub open spec fn listed_largest(scan: Scan) -> Seq<FileKey> {
    Seq::new(
        scan.largest@.len(),
        |i: int| (scan.largest@[i].path.components(), scan.largest@[i].bytes),
    )
}

/// How many of the measured files have this path and size.
pub open spec fn times_measured(files: Seq<Measurement>, key: FileKey) -> int {
    tally_of(files, |f: FileRecord| path_and_size(f) == key).count
}

proof fn keys_are_counted(files: Seq<Measurement>, key: FileKey)
    ensures
        measured_keys(facts(files)).to_multiset().count(key) == times_measured(files, key),
        measured_keys(facts(files)).len() == tally_of(files, |f: FileRecord| true).count,
    decreases files.len(),
{
    broadcast use vstd::seq_lib::group_to_multiset_ensures;
    if files.len() > 0 {
        let rest = files.drop_last();
        keys_are_counted(rest, key);
        assert(facts(files).drop_last() =~= facts(rest));
        assert(facts(files).last() == files.last()@);
        match files.last() {
            Measurement::Measured(f) => {
                assert(path_and_size(f) == f@.largest_key());
                let before = measured_keys(facts(rest));
                assert(measured_keys(facts(files)) == before.push(f@.largest_key()));
                assert(before.push(f@.largest_key()).to_multiset() =~= before.to_multiset().insert(
                    f@.largest_key(),
                ));
            },
            Measurement::Failed => {},
        }
    } else {
        assert(measured_keys(facts(files)) =~= Seq::empty());
    }
}

/// The report on the largest files lists as many as were asked for, or all of
/// them if there are fewer, biggest first and by path where sizes are equal.
pub proof fn as_many_of_the_largest_are_listed_as_were_asked_for(
    scan: Scan,
    files: Seq<Measurement>,
    options: ScanOptions,
    now: Timestamp,
)
    requires
        scan.reports(summarise(facts(files), options.settings(now)), options),
    ensures
        ({
            let measured = tally_of(files, |f: FileRecord| true).count;
            let listed = listed_largest(scan);
            &&& measured <= options.top ==> listed.len() == measured
            &&& measured > options.top ==> listed.len() == options.top
            &&& forall|i: int, j: int|
                0 <= i < j < listed.len() ==> (#[trigger] listed[i]).1 > (#[trigger] listed[j]).1
                    || (listed[i].1 == listed[j].1 && !parts_precede(listed[j].0, listed[i].0))
        }),
{
    let all = measured_keys(facts(files));
    let listed = listed_largest(scan);
    largest_are_the_leading_files(facts(files), options.settings(now));
    ranked_is_in_order::<LargestFile>(all);
    keys_are_counted(files, (Seq::empty(), 0));
    assert(listed =~= keys(scan.largest@));
    assert(listed =~= leading::<LargestFile>(all, options.top as nat));
    let order = ranked::<LargestFile>(all);
    assert forall|i: int, j: int| 0 <= i < j < listed.len() implies (#[trigger] listed[i]).1 > (
    #[trigger] listed[j]).1 || (listed[i].1 == listed[j].1 && !parts_precede(
        listed[j].0,
        listed[i].0,
    )) by {
        assert(!LargestFile::precedes(order[j], order[i]));
    }
}

/// Only measured files are listed among the largest, each as often as it was
/// measured at most, and none is left out unless as many as were asked for are
/// listed that it does not come ahead of.
pub proof fn no_larger_file_is_left_out(
    scan: Scan,
    files: Seq<Measurement>,
    options: ScanOptions,
    now: Timestamp,
    key: FileKey,
)
    requires
        scan.reports(summarise(facts(files), options.settings(now)), options),
    ensures
        ({
            let listed = listed_largest(scan);
            let times = listed.to_multiset().count(key);
            &&& times <= times_measured(files, key)
            &&& times < times_measured(files, key) ==> listed.len() == options.top && forall|i: int|
                0 <= i < listed.len() ==> (#[trigger] listed[i]).1 > key.1 || (listed[i].1 == key.1
                    && !parts_precede(key.0, listed[i].0))
        }),
{
    broadcast use vstd::seq_lib::group_to_multiset_ensures;
    let all = measured_keys(facts(files));
    let listed = listed_largest(scan);
    let order = ranked::<LargestFile>(all);
    let n = options.top as int;
    largest_are_the_leading_files(facts(files), options.settings(now));
    ranked_is_in_order::<LargestFile>(all);
    keys_are_counted(files, key);
    assert(listed =~= keys(scan.largest@));
    assert(listed == leading::<LargestFile>(all, options.top as nat));
    if order.len() > n {
        let rest = order.skip(n);
        assert(order =~= listed + rest);
        vstd::seq_lib::lemma_multiset_commutative(listed, rest);
        assert(order.to_multiset().count(key) == listed.to_multiset().count(key)
            + rest.to_multiset().count(key));
        if listed.to_multiset().count(key) < times_measured(files, key) {
            assert(rest.to_multiset().count(key) > 0);
            assert(rest.contains(key));
            let at = choose|at: int| 0 <= at < rest.len() && rest[at] == key;
            assert forall|i: int| 0 <= i < listed.len() implies (#[trigger] listed[i]).1 > key.1
                || (listed[i].1 == key.1 && !parts_precede(key.0, listed[i].0)) by {
                assert(!LargestFile::precedes(order[n + at], order[i]));
            }
        }
    }
}

/// How many of the largest files are asked for changes none of the other
/// figures, and how many hotspots are asked for changes none but theirs: as long
/// as any are asked for, the totals per directory are the same.
pub proof fn options_of_one_report_touch_no_other(
    files: Seq<Measurement>,
    one: ScanOptions,
    other: ScanOptions,
    now: Timestamp,
)
    requires
        one.small_at_or_below == other.small_at_or_below,
    ensures
        ({
            let s = summarise(facts(files), one.settings(now));
            let t = summarise(facts(files), other.settings(now));
            &&& s.extensions == t.extensions
            &&& s.ages == t.ages
            &&& s.sizes == t.sizes
            &&& s.small == t.small
            &&& s.unmeasurable == t.unmeasurable
            &&& one.hotspots > 0 && other.hotspots > 0 ==> s.directories == t.directories
            &&& one.top == other.top ==> s.largest == t.largest
        }),
{
    turning_a_report_off_changes_no_other(
        facts(files),
        one.settings(now),
        other.settings(now),
    );
}

/// However the files are divided into shares, putting the shares together with
/// the number of largest files that the options ask for gives what measuring
/// every file in one go gives.
pub proof fn dividing_by_the_options_makes_no_difference(
    shares: Seq<Seq<Option<FileFacts>>>,
    options: ScanOptions,
    now: Timestamp,
)
    ensures
        combined(
            Seq::new(shares.len(), |i: int| summarise(shares[i], options.settings(now))),
            options.top as nat,
        ) == summarise(shares.flatten(), options.settings(now)),
{
    dividing_the_files_makes_no_difference(shares, options.settings(now));
}

proof fn part_of_the_whole(
    files: Seq<Measurement>,
    p: spec_fn(FileRecord) -> bool,
    q: spec_fn(FileFacts) -> bool,
)
    requires
        forall|f: FileRecord| #[trigger] p(f) == q(f@),
        tally_of(files, |f: FileRecord| true).count <= u64::MAX,
        tally_of(files, |f: FileRecord| true).bytes <= u64::MAX,
    ensures
        tally_where(facts(files), q).fits(),
{
    tallies_agree(files, p, q);
    narrower_tallies_are_smaller(files, p, |f: FileRecord| true);
}

/// A share of the files can be measured whenever there are fewer of them, and
/// they hold fewer bytes, than two to the power of sixty-four: no total is then
/// too large for its counter, whatever is asked for.
pub proof fn what_a_counter_can_hold_is_measured(
    files: Seq<Measurement>,
    options: ScanOptions,
    now: Timestamp,
)
    requires
        files.len() < 0x1_0000_0000_0000_0000,
        tally_of(files, |f: FileRecord| true).bytes < 0x1_0000_0000_0000_0000,
    ensures
        summarise(facts(files), options.settings(now)).fits(),
{
    let settings = options.settings(now);
    let all = facts(files);
    let s = summarise(all, settings);
    let none = Seq::<char>::empty();
    let unknown = AgeBucket::Unknown;
    let empty = SizeBand::Empty;
    failures_are_counted(files, settings);
    failures_are_few(files);
    assert forall|k: Seq<char>| #[trigger]
        s.extensions.dom().contains(k) implies s.extensions[k].fits() by {
        each_total_counts_its_own_files(all, settings, k, unknown, empty, Seq::empty());
        part_of_the_whole(
            files,
            |f: FileRecord| extension_text(f.name@) == k,
            |f: FileFacts| extension_text(f.name) == k,
        );
    }
    assert forall|k: AgeBucket| #[trigger] s.ages.dom().contains(k) implies s.ages[k].fits() by {
        each_total_counts_its_own_files(all, settings, none, k, empty, Seq::empty());
        part_of_the_whole(
            files,
            |f: FileRecord| age_of(f.modified, settings.now) == k,
            |f: FileFacts| age_of(f.modified, settings.now) == k,
        );
    }
    assert forall|k: SizeBand| #[trigger] s.sizes.dom().contains(k) implies s.sizes[k].fits() by {
        each_total_counts_its_own_files(all, settings, none, unknown, k, Seq::empty());
        part_of_the_whole(
            files,
            |f: FileRecord| size_band_of(f.size) == k,
            |f: FileFacts| size_band_of(f.size) == k,
        );
    }
    assert forall|k: Seq<PartKey>| #[trigger]
        s.directories.dom().contains(k) implies s.directories[k].fits() by {
        each_total_counts_its_own_files(all, settings, none, unknown, empty, k);
        part_of_the_whole(
            files,
            |f: FileRecord| f.directory.components() == k,
            |f: FileFacts| f.directory == k,
        );
        part_of_the_whole(
            files,
            |f: FileRecord|
                f.directory.components() == k && f.size <= settings.small_at_or_below,
            |f: FileFacts| f.directory == k && f.size <= settings.small_at_or_below,
        );
    }
    each_total_counts_its_own_files(all, settings, none, unknown, empty, Seq::empty());
    part_of_the_whole(
        files,
        |f: FileRecord| f.size <= settings.small_at_or_below,
        |f: FileFacts| f.size <= settings.small_at_or_below,
    );
}

proof fn failures_are_few(files: Seq<Measurement>)
    ensures
        0 <= failures(files) <= files.len(),
    decreases files.len(),
{
    if files.len() > 0 {
        failures_are_few(files.drop_last());
    }
}

/// What fits a counter is what is not negative and below two to the power of
/// sixty-four.
pub proof fn counters_hold_sixty_four_bits(n: int, t: Tally)
    ensures
        fits(n) <==> 0 <= n < 0x1_0000_0000_0000_0000,
        t.fits() <==> 0 <= t.count < 0x1_0000_0000_0000_0000 && 0 <= t.bytes
            < 0x1_0000_0000_0000_0000,
{
}

proof fn facts_of_parts(parts: Seq<Seq<Measurement>>)
    ensures
        facts(parts.flatten()) == Seq::new(parts.len(), |i: int| facts(parts[i])).flatten(),
    decreases parts.len(),
{
    let each = Seq::new(parts.len(), |i: int| facts(parts[i]));
    if parts.len() == 0 {
        assert(facts(parts.flatten()) =~= each.flatten());
    } else {
        let front = parts.drop_last();
        let last = parts.last();
        facts_of_parts(front);
        front.lemma_flatten_push(last);
        assert(front.push(last) =~= parts);
        let front_each = Seq::new(front.len(), |i: int| facts(front[i]));
        front_each.lemma_flatten_push(facts(last));
        assert(front_each.push(facts(last)) =~= each);
        assert(facts(front.flatten() + last) =~= facts(front.flatten()) + facts(last));
    }
}

/// Measuring the files in shares, on as many threads as there are, and putting
/// the shares together comes to measuring all the files in one go: no share is
/// left out and none counts twice.
pub proof fn shares_add_up_to_the_whole(
    shares: Seq<Partial>,
    parts: Seq<Seq<Measurement>>,
    options: ScanOptions,
    now: Timestamp,
)
    requires
        shares.len() == parts.len(),
        forall|i: int|
            0 <= i < shares.len() ==> (#[trigger] shares[i])@ == summarise(
                facts(parts[i]),
                options.settings(now),
            ),
    ensures
        combined(summaries(shares), options.top as nat) == summarise(
            facts(parts.flatten()),
            options.settings(now),
        ),
{
    let each = Seq::new(parts.len(), |i: int| facts(parts[i]));
    facts_of_parts(parts);
    dividing_by_the_options_makes_no_difference(each, options, now);
    assert(summaries(shares) =~= Seq::new(
        each.len(),
        |i: int| summarise(each[i], options.settings(now)),
    ));
}

/// A file whose directory is spelled in one way, and who is itself spelled as
/// that directory and its name, keeps that spelling through measuring.
pub proof fn files_are_spelled_as_they_were_found(
    files: Seq<Measurement>,
    shares: Seq<Partial>,
    spelling: Spelling,
)
    requires
        forall|i: int|
            0 <= i < files.len() ==> match #[trigger] files[i] {
                Measurement::Measured(f) => f.directory.spelling@ == spelling(
                    f.directory.components(),
                ) && f.directory.joined_spelling(f.name@) == spelling(
                    f.directory.components().push((4, f.name@)),
                ),
                Measurement::Failed => true,
            },
        forall|i: int| 0 <= i < shares.len() ==> (#[trigger] shares[i]).spelled_by(spelling),
    ensures
        all_spelled_by(files, spelling),
        shares_spelled_by(shares, spelling),
{
    assert forall|i: int| 0 <= i < files.len() implies (#[trigger] files[i]).spelled_by(
        spelling,
    ) by {
        match files[i] {
            Measurement::Measured(f) => {
                assert(f.spelled_by(spelling));
            },
            Measurement::Failed => {},
        }
    }
}

/// Every path in a report is spelled as it was found.
pub proof fn reports_spell_paths_as_they_were_found(scan: Scan, spelling: Spelling)
    requires
        scan.spelled_by(spelling),
    ensures
        forall|i: int|
            0 <= i < scan.largest@.len() ==> (#[trigger] scan.largest@[i]).path.spelling@
                == spelling(scan.largest@[i].path.components()),
        forall|i: int|
            0 <= i < scan.hotspots@.len() ==> (#[trigger] scan.hotspots@[i]).directory.spelling@
                == spelling(scan.hotspots@[i].directory.components()),
{
    assert forall|i: int| 0 <= i < scan.largest@.len() implies (#[trigger]
    scan.largest@[i]).path.spelling@ == spelling(scan.largest@[i].path.components()) by {
        assert(scan.largest@[i].path.spelled_by(spelling));
    }
    assert forall|i: int| 0 <= i < scan.hotspots@.len() implies (#[trigger]
    scan.hotspots@[i]).directory.spelling@ == spelling(
        scan.hotspots@[i].directory.components(),
    ) by {
        assert(scan.hotspots@[i].directory.spelled_by(spelling));
    }
}

/// What is measured but not yet reported is spelled as it was found, too.
pub proof fn shares_spell_paths_as_they_were_found(share: Partial, spelling: Spelling)
    requires
        share.spelled_by(spelling),
    ensures
        share.directories.all_keys(spelled(spelling)),
        forall|path: FilePath| #[trigger]
            spelled(spelling)(path) <==> path.spelling@ == spelling(path.components()),
        forall|i: int|
            0 <= i < share.largest@.len() ==> (#[trigger] share.largest@[i]).path.spelling@
                == spelling(share.largest@[i].path.components()),
        match share.pending {
            Some(pending) => pending.0.spelling@ == spelling(pending.0.components()),
            None => true,
        },
{
    assert forall|i: int| 0 <= i < share.largest@.len() implies (#[trigger]
    share.largest@[i]).path.spelling@ == spelling(share.largest@[i].path.components()) by {
        assert(share.largest@[i].path.spelled_by(spelling));
    }
}

} // verus!
