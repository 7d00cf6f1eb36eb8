//! File-size metrics: the average object size and the largest and
//! smallest objects.

use vstd::prelude::*;

use crate::bounded::apply;
use crate::bounded::apply_all;
use crate::bounded::apply_spec;
use crate::bounded::count_eq;
use crate::bounded::first_key_with;
use crate::bounded::lemma_extremum_tracker;
use crate::bounded::max_of;
use crate::bounded::min_of;
use crate::bounded::unset;
use crate::bounded::values_of;
use crate::bounded::Bounded;
use crate::bounded::BoundedView;
use crate::types::ObjectRecord;
use crate::types::RecordView;
use crate::util::bytes_text;
use crate::util::convert_bytes;
use crate::util::log_bound;
use crate::util::log_bound_spec;

verus! {

/// Mathematical state of the file-size collector.
pub struct FileSizeView {
    pub total_files: nat,
    pub total_size: nat,
    pub smallest: BoundedView,
    pub largest: BoundedView,
}

/// Container struct for file-size metrics: running totals and one
/// extremum tracker pair over byte sizes, keyed by object key.
pub struct FileSize {
    total_files: u64,
    total_size: u64,
    smallest_file: Bounded,
    largest_file: Bounded,
}

impl View for FileSize {
    type V = FileSizeView;

    closed spec fn view(&self) -> FileSizeView {
        FileSizeView {
            total_files: self.total_files as nat,
            total_size: self.total_size as nat,
            smallest: self.smallest_file@,
            largest: self.largest_file@,
        }
    }
}

/// The file-size state after one more record.
pub open spec fn file_size_step(v: FileSizeView, r: RecordView) -> FileSizeView {
    FileSizeView {
        total_files: v.total_files + 1,
        total_size: (v.total_size + r.size) as nat,
        smallest: apply_spec(v.smallest, v.largest, r.key, r.size).0,
        largest: apply_spec(v.smallest, v.largest, r.key, r.size).1,
    }
}

/// The average object size: total bytes over total objects, zero
/// when nothing was seen.
pub open spec fn average_spec(v: FileSizeView) -> nat {
    if v.total_files == 0 {
        0
    } else {
        v.total_size / v.total_files
    }
}

/// The `[file_size]` section: the average size, then the largest and
/// smallest objects where any record was seen.
pub open spec fn file_size_report(v: FileSizeView) -> Seq<Seq<char>> {
    seq!["[file_size]"@, "average_size="@ + bytes_text(average_spec(v) as u64)] + log_bound_spec(
        "largest_file"@,
        "largest_file_size"@,
        bytes_text(v.largest.best_value),
        v.largest,
    ) + log_bound_spec(
        "smallest_file"@,
        "smallest_file_size"@,
        bytes_text(v.smallest.best_value),
        v.smallest,
    )
}

/// The pairs the trackers see from a record sequence: each record's
/// key with its byte size.
pub open spec fn size_pairs(rs: Seq<RecordView>) -> Seq<(Seq<char>, u64)> {
    rs.map_values(|r: RecordView| (r.key, r.size))
}

/// The file-size state after a sequence of records, in order.
pub open spec fn file_size_fold(v: FileSizeView, rs: Seq<RecordView>) -> FileSizeView
    decreases rs.len(),
{
    if rs.len() == 0 {
        v
    } else {
        file_size_step(file_size_fold(v, rs.drop_last()), rs.last())
    }
}

proof fn lemma_fold_tracks_apply_all(v: FileSizeView, rs: Seq<RecordView>)
    ensures
        ({
            let p = apply_all(v.smallest, v.largest, size_pairs(rs));
            &&& file_size_fold(v, rs).smallest == p.0
            &&& file_size_fold(v, rs).largest == p.1
        }),
    decreases rs.len(),
{
    if rs.len() == 0 {
        assert(size_pairs(rs) =~= Seq::<(Seq<char>, u64)>::empty());
    } else {
        lemma_fold_tracks_apply_all(v, rs.drop_last());
        assert(size_pairs(rs).drop_last() =~= size_pairs(rs.drop_last()));
        assert(size_pairs(rs).last() == (rs.last().key, rs.last().size));
    }
}

/// After registering any non-empty sequence of records on a fresh
/// file-size collector, the smallest side holds the true minimum of
/// all sizes, keyed by the first record that reached it, with one
/// tie counted for every further record equal to it — a tie never
/// replaces the stored key; symmetrically, the largest side holds
/// the true maximum.
pub proof fn lemma_size_extremes(rs: Seq<RecordView>)
    requires
        rs.len() > 0,
    ensures
        ({
            let v = file_size_fold(
                FileSizeView { total_files: 0, total_size: 0, smallest: unset(), largest: unset() },
                rs,
            );
            let pairs = size_pairs(rs);
            let sizes = values_of(pairs);
            &&& v.smallest.best_value == min_of(sizes)
            &&& v.smallest.best_key == first_key_with(pairs, min_of(sizes))
            &&& v.smallest.tie_count + 1 == count_eq(sizes, min_of(sizes))
            &&& v.largest.best_value == max_of(sizes)
            &&& v.largest.best_key == first_key_with(pairs, max_of(sizes))
            &&& v.largest.tie_count + 1 == count_eq(sizes, max_of(sizes))
        }),
{
    lemma_fold_tracks_apply_all(
        FileSizeView { total_files: 0, total_size: 0, smallest: unset(), largest: unset() },
        rs,
    );
    lemma_extremum_tracker(size_pairs(rs));
}

impl FileSize {
    /// Constructs a new `FileSize` collector with nothing seen yet.
    pub fn new() -> (f: FileSize)
        ensures
            f@ == (FileSizeView {
                total_files: 0,
                total_size: 0,
                smallest: unset(),
                largest: unset(),
            }),
    {
        FileSize {
            total_files: 0,
            total_size: 0,
            smallest_file: Bounded::new(),
            largest_file: Bounded::new(),
        }
    }

    /// Registers an object record: counts it, adds its size, and
    /// feeds it to both extremum trackers.
    pub fn register(&mut self, record: &ObjectRecord)
        requires
            old(self)@.total_files < u64::MAX,
            old(self)@.total_size + record@.size <= u64::MAX,
            old(self)@.smallest.tie_count < u64::MAX,
            old(self)@.largest.tie_count < u64::MAX,
        ensures
            final(self)@ == file_size_step(old(self)@, record@),
    {
        self.total_files = self.total_files + 1;
        self.total_size = self.total_size + record.size;
        apply(&mut self.smallest_file, &mut self.largest_file, record.key.as_str(), record.size);
    }

    /// The average object size so far; zero while nothing was seen,
    /// so no division can fail.
    pub fn average(&self) -> (r: u64)
        ensures
            r == average_spec(self@),
    {
        if self.total_files == 0 {
            0
        } else {
            self.total_size / self.total_files
        }
    }

    /// Renders the `[file_size]` section.
    pub fn report(&self) -> (lines: Vec<String>)
        ensures
            lines.deep_view() == file_size_report(self@),
    {
        let mut lines: Vec<String> = Vec::new();
        lines.push("[file_size]".to_owned());

        let mut avg_line = String::new();
        avg_line.append("average_size=");
        let avg = convert_bytes(self.average());
        avg_line.append(avg.as_str());
        lines.push(avg_line);

        let largest_text = convert_bytes(self.largest_file.best_value);
        let mut largest = log_bound(
            "largest_file",
            "largest_file_size",
            largest_text.as_str(),
            &self.largest_file,
        );
        lines.append(&mut largest);

        let smallest_text = convert_bytes(self.smallest_file.best_value);
        let mut smallest = log_bound(
            "smallest_file",
            "smallest_file_size",
            smallest_text.as_str(),
            &self.smallest_file,
        );
        lines.append(&mut smallest);

        proof {
            assert(lines.deep_view() =~= file_size_report(self@));
        }
        lines
    }
}

} // verus!
