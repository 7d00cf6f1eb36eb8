//! Modification metrics: the earliest and latest modified objects.

use vstd::prelude::*;

use crate::bounded::apply;
use crate::bounded::apply_all;
use crate::bounded::apply_spec;
use crate::bounded::count_eq;
use crate::bounded::first_key_with;
use crate::bounded::lemma_extremum_tracker;
use crate::bounded::max_of;
use crate::bounded::min_of;
use crate::bounded::unset;
use crate::bounded::values_of;
use crate::bounded::Bounded;
use crate::bounded::BoundedView;
use crate::types::format_timestamp;
use crate::types::rfc3339_text;
use crate::types::ObjectRecord;
use crate::types::RecordView;
use crate::types::TIMESTAMP_LIMIT;
use crate::util::log_bound;
use crate::util::log_bound_spec;

verus! {

/// Mathematical state of the modification collector.
pub struct ModificationView {
    pub earliest: BoundedView,
    pub latest: BoundedView,
}

/// Container struct for modification metrics: one extremum tracker
/// pair over last-modified times, keyed by object key.
pub struct Modification {
    earliest_file: Bounded,
    latest_file: Bounded,
}

impl View for Modification {
    type V = ModificationView;

    closed spec fn view(&self) -> ModificationView {
        ModificationView { earliest: self.earliest_file@, latest: self.latest_file@ }
    }
}

/// Whether one tracker side holds a renderable time whenever it is
/// set.
pub open spec fn renderable(b: BoundedView) -> bool {
    b.best_key is Some ==> b.best_value < TIMESTAMP_LIMIT
}

/// The modification state after one more record.
pub open spec fn modification_step(v: ModificationView, r: RecordView) -> ModificationView {
    ModificationView {
        earliest: apply_spec(v.earliest, v.latest, r.key, r.last_modified).0,
        latest: apply_spec(v.earliest, v.latest, r.key, r.last_modified).1,
    }
}

/// The `[modification]` section: the earliest and latest objects,
/// where any record was seen.
pub open spec fn modification_report(v: ModificationView) -> Seq<Seq<char>> {
    seq!["[modification]"@] + log_bound_spec(
        "earliest_file"@,
        "earliest_file_date"@,
        rfc3339_text(v.earliest.best_value),
        v.earliest,
    ) + log_bound_spec(
        "latest_file"@,
        "latest_file_date"@,
        rfc3339_text(v.latest.best_value),
        v.latest,
    )
}

/// The pairs the trackers see from a record sequence: each record's
/// key with its modification time.
pub open spec fn time_pairs(rs: Seq<RecordView>) -> Seq<(Seq<char>, u64)> {
    rs.map_values(|r: RecordView| (r.key, r.last_modified))
}

/// The modification state after a sequence of records, in order.
pub open spec fn modification_fold(v: ModificationView, rs: Seq<RecordView>) -> ModificationView
    decreases rs.len(),
{
    if rs.len() == 0 {
        v
    } else {
        modification_step(modification_fold(v, rs.drop_last()), rs.last())
    }
}

proof fn lemma_fold_is_apply_all(v: ModificationView, rs: Seq<RecordView>)
    ensures
        ({
            let p = apply_all(v.earliest, v.latest, time_pairs(rs));
            modification_fold(v, rs) == (ModificationView { earliest: p.0, latest: p.1 })
        }),
    decreases rs.len(),
{
    if rs.len() == 0 {
        assert(time_pairs(rs) =~= Seq::<(Seq<char>, u64)>::empty());
    } else {
        lemma_fold_is_apply_all(v, rs.drop_last());
        assert(time_pairs(rs).drop_last() =~= time_pairs(rs.drop_last()));
        assert(time_pairs(rs).last() == (rs.last().key, rs.last().last_modified));
    }
}

/// After registering any non-empty sequence of records on a fresh
/// modification collector, the earliest side holds the true minimum
/// of all modification times, keyed by the first record that reached
/// it, with one tie counted for every further record equal to it —
/// a tie never replaces the stored key; symmetrically, the latest
/// side holds the true maximum.
pub proof fn lemma_modification_extremes(rs: Seq<RecordView>)
    requires
        rs.len() > 0,
    ensures
        ({
            let v = modification_fold(
                ModificationView { earliest: unset(), latest: unset() },
                rs,
            );
            let pairs = time_pairs(rs);
            let times = values_of(pairs);
            &&& v.earliest.best_value == min_of(times)
            &&& v.earliest.best_key == first_key_with(pairs, min_of(times))
            &&& v.earliest.tie_count + 1 == count_eq(times, min_of(times))
            &&& v.latest.best_value == max_of(times)
            &&& v.latest.best_key == first_key_with(pairs, max_of(times))
            &&& v.latest.tie_count + 1 == count_eq(times, max_of(times))
        }),
{
    lemma_fold_is_apply_all(ModificationView { earliest: unset(), latest: unset() }, rs);
    lemma_extremum_tracker(time_pairs(rs));
}

impl Modification {
    /// Both sides hold renderable times.
    pub open spec fn wf(&self) -> bool {
        renderable(self@.earliest) && renderable(self@.latest)
    }

    /// Constructs a new `Modification` collector with nothing seen
    /// yet.
    pub fn new() -> (m: Modification)
        ensures
            m.wf(),
            m@ == (ModificationView { earliest: unset(), latest: unset() }),
    {
        Modification { earliest_file: Bounded::new(), latest_file: Bounded::new() }
    }

    /// Registers an object record: feeds its modification time to
    /// both extremum trackers.
    pub fn register(&mut self, record: &ObjectRecord)
        requires
            old(self).wf(),
            record@.last_modified < TIMESTAMP_LIMIT,
            old(self)@.earliest.tie_count < u64::MAX,
            old(self)@.latest.tie_count < u64::MAX,
        ensures
            final(self).wf(),
            final(self)@ == modification_step(old(self)@, record@),
    {
        apply(
            &mut self.earliest_file,
            &mut self.latest_file,
            record.key.as_str(),
            record.last_modified,
        );
    }

    /// Renders the `[modification]` section.
    pub fn report(&self) -> (lines: Vec<String>)
        requires
            self.wf(),
        ensures
            lines.deep_view() == modification_report(self@),
    {
        let mut lines: Vec<String> = Vec::new();
        lines.push("[modification]".to_owned());

        let earliest_text: String = match &self.earliest_file.best_key {
            Some(_) => format_timestamp(self.earliest_file.best_value),
            None => String::new(),
        };
        let mut earliest = log_bound(
            "earliest_file",
            "earliest_file_date",
            earliest_text.as_str(),
            &self.earliest_file,
        );
        lines.append(&mut earliest);

        let latest_text: String = match &self.latest_file.best_key {
            Some(_) => format_timestamp(self.latest_file.best_value),
            None => String::new(),
        };
        let mut latest = log_bound(
            "latest_file",
            "latest_file_date",
            latest_text.as_str(),
            &self.latest_file,
        );
        lines.append(&mut latest);

        proof {
            assert(lines.deep_view() =~= modification_report(self@));
        }
        lines
    }
}

} // verus!
