//! Metric collectors and the chain that drives them.
//!
//! Every collector observes each object record exactly once through
//! `register` and renders its section of the final report through
//! `report`. The collectors are mutually independent; the chain fixes
//! their order.

use vstd::prelude::*;

pub mod extensions;
pub mod file_size;
pub mod general;
pub mod modification;

use crate::metrics::extensions::ext_step;
use crate::metrics::extensions::extensions_report;
use crate::metrics::extensions::Extensions;
use crate::metrics::file_size::file_size_step;
use crate::metrics::file_size::file_size_report;
use crate::metrics::file_size::FileSize;
use crate::metrics::file_size::FileSizeView;
use crate::metrics::general::general_step;
use crate::metrics::general::general_report;
use crate::metrics::general::General;
use crate::metrics::general::GeneralView;
use crate::metrics::modification::modification_step;
use crate::metrics::modification::modification_report;
use crate::metrics::modification::Modification;
use crate::metrics::modification::ModificationView;
use crate::types::ObjectRecord;
use crate::types::RecordView;

verus! {

/// The position of the last occurrence of `c` in `s`, or `-1`.
pub open spec fn last_index_of(s: Seq<char>, c: char) -> int
    decreases s.len(),
{
    if s.len() == 0 {
        -1
    } else if s.last() == c {
        s.len() - 1
    } else {
        last_index_of(s.drop_last(), c)
    }
}

/// `last_index_of` stays within the bounds of its sequence.
pub proof fn lemma_last_index_bounds(s: Seq<char>, c: char)
    ensures
        -1 <= last_index_of(s, c) < s.len(),
    decreases s.len(),
{
    if s.len() > 0 && s.last() != c {
        lemma_last_index_bounds(s.drop_last(), c);
    }
}

/// The folder that directly contains an object: the prefix of its key
/// up to, and excluding, the last path separator. A key in the root
/// (none or a leading separator only) has no folder.
///
/// This is a deliberate reading of the folder count: the set holds
/// the folders that directly contain at least one object, so an
/// ancestor that only contains other folders is not counted, and the
/// root never is.
pub open spec fn folder_of(key: Seq<char>) -> Option<Seq<char>> {
    let ls = last_index_of(key, '/');
    if ls > 0 {
        Some(key.take(ls))
    } else {
        None
    }
}

/// The extension of an object key: the suffix after the last `.` of
/// its final path segment, excluding the dot. A final segment without
/// a dot, or whose only dot leads it, has no extension.
pub open spec fn ext_of(key: Seq<char>) -> Option<Seq<char>> {
    let ls = last_index_of(key, '/');
    let ld = last_index_of(key, '.');
    if ld > ls + 1 {
        Some(key.skip(ld + 1))
    } else {
        None
    }
}

/// The position of the last occurrence of `c` in `s`, if any.
pub(crate) fn last_char_pos(s: &str, c: char) -> (r: Option<usize>)
    ensures
        match r {
            Some(j) => j == last_index_of(s@, c) && j < s@.len(),
            None => last_index_of(s@, c) == -1,
        },
{
    let n: usize = s.unicode_len();
    let mut i: usize = n;
    proof {
        assert(s@.take(n as int) =~= s@);
    }
    while i > 0
        invariant
            n == s@.len(),
            i <= n,
            last_index_of(s@, c) == last_index_of(s@.take(i as int), c),
        decreases i,
    {
        i = i - 1;
        if s.get_char(i) == c {
            proof {
                assert(s@.take(i + 1).last() == s@[i as int]);
            }
            return Some(i);
        }
        proof {
            assert(s@.take(i + 1).last() == s@[i as int]);
            assert(s@.take(i + 1).drop_last() =~= s@.take(i as int));
        }
    }
    None
}

/// Mathematical state of the whole collector chain.
pub struct ChainView {
    pub general: GeneralView,
    pub file_size: FileSizeView,
    pub extensions: Map<Seq<char>, nat>,
    pub modification: ModificationView,
}

/// The fixed, ordered set of collectors that one enumeration pass
/// drives: general, file size, extensions, modification. The order
/// is also the reporting order.
pub struct Chain {
    general: General,
    file_size: FileSize,
    extensions: Extensions,
    modification: Modification,
}

impl View for Chain {
    type V = ChainView;

    closed spec fn view(&self) -> ChainView {
        ChainView {
            general: self.general@,
            file_size: self.file_size@,
            extensions: self.extensions@,
            modification: self.modification@,
        }
    }
}

/// The chain state before any record: all collectors empty, the
/// clock seeded.
pub open spec fn chain_init(start_time: u64) -> ChainView {
    ChainView {
        general: GeneralView {
            folders: Set::empty(),
            start_time,
            total_keys: 0,
            total_size: 0,
        },
        file_size: FileSizeView {
            total_files: 0,
            total_size: 0,
            smallest: crate::bounded::unset(),
            largest: crate::bounded::unset(),
        },
        extensions: Map::empty(),
        modification: ModificationView {
            earliest: crate::bounded::unset(),
            latest: crate::bounded::unset(),
        },
    }
}

/// The chain state after one more record: every collector sees it
/// exactly once.
pub open spec fn chain_step(c: ChainView, r: RecordView) -> ChainView {
    ChainView {
        general: general_step(c.general, r),
        file_size: file_size_step(c.file_size, r),
        extensions: ext_step(c.extensions, r),
        modification: modification_step(c.modification, r),
    }
}

/// The chain state after a sequence of records, in order.
pub open spec fn chain_fold(c: ChainView, rs: Seq<RecordView>) -> ChainView
    decreases rs.len(),
{
    if rs.len() == 0 {
        c
    } else {
        chain_step(chain_fold(c, rs.drop_last()), rs.last())
    }
}

/// The chain state after a sequence of pages, each a sequence of
/// records, in provider order.
pub open spec fn chain_fold_pages(c: ChainView, pages: Seq<Seq<RecordView>>) -> ChainView
    decreases pages.len(),
{
    if pages.len() == 0 {
        c
    } else {
        chain_fold(chain_fold_pages(c, pages.drop_last()), pages.last())
    }
}

/// The total byte size of a sequence of records.
pub open spec fn sum_sizes(rs: Seq<RecordView>) -> nat
    decreases rs.len(),
{
    if rs.len() == 0 {
        0
    } else {
        (sum_sizes(rs.drop_last()) + rs.last().size) as nat
    }
}

/// Whether the chain has room for one more record: the record is
/// valid, and no counter can overflow its machine word.
pub open spec fn can_register(c: ChainView, r: RecordView) -> bool {
    &&& r.valid()
    &&& c.general.total_keys < u64::MAX
    &&& c.general.total_size + r.size <= u64::MAX
    &&& c.file_size.total_files < u64::MAX
    &&& c.file_size.total_size + r.size <= u64::MAX
    &&& c.file_size.smallest.tie_count < u64::MAX
    &&& c.file_size.largest.tie_count < u64::MAX
    &&& (forall|e: Seq<char>| c.extensions.dom().contains(e) ==> c.extensions[e] < u64::MAX)
    &&& c.modification.earliest.tie_count < u64::MAX
    &&& c.modification.latest.tie_count < u64::MAX
}

/// Whether the chain has room for a whole page of records.
pub open spec fn can_take(c: ChainView, rs: Seq<RecordView>) -> bool {
    &&& (forall|i: int| 0 <= i < rs.len() ==> (#[trigger] rs[i]).valid())
    &&& rs.len() <= u64::MAX
    &&& c.general.total_keys + rs.len() <= u64::MAX
    &&& c.general.total_size + sum_sizes(rs) <= u64::MAX
    &&& c.file_size.total_files + rs.len() <= u64::MAX
    &&& c.file_size.total_size + sum_sizes(rs) <= u64::MAX
    &&& c.file_size.smallest.tie_count + rs.len() <= u64::MAX
    &&& c.file_size.largest.tie_count + rs.len() <= u64::MAX
    &&& (forall|e: Seq<char>|
        c.extensions.dom().contains(e) ==> c.extensions[e] + rs.len() <= u64::MAX)
    &&& c.modification.earliest.tie_count + rs.len() <= u64::MAX
    &&& c.modification.latest.tie_count + rs.len() <= u64::MAX
}

/// Folding a sequence of records grows every counter by no more than
/// the number of records, and the byte totals by exactly the sum of
/// the sizes.
proof fn lemma_fold_growth(c: ChainView, rs: Seq<RecordView>)
    ensures
        chain_fold(c, rs).general.start_time == c.general.start_time,
        chain_fold(c, rs).general.total_keys == c.general.total_keys + rs.len(),
        chain_fold(c, rs).general.total_size == c.general.total_size + sum_sizes(rs),
        chain_fold(c, rs).file_size.total_files == c.file_size.total_files + rs.len(),
        chain_fold(c, rs).file_size.total_size == c.file_size.total_size + sum_sizes(rs),
        chain_fold(c, rs).file_size.smallest.tie_count <= c.file_size.smallest.tie_count
            + rs.len(),
        chain_fold(c, rs).file_size.largest.tie_count <= c.file_size.largest.tie_count + rs.len(),
        chain_fold(c, rs).modification.earliest.tie_count <= c.modification.earliest.tie_count
            + rs.len(),
        chain_fold(c, rs).modification.latest.tie_count <= c.modification.latest.tie_count
            + rs.len(),
        forall|e: Seq<char>|
            chain_fold(c, rs).extensions.dom().contains(e) ==> chain_fold(c, rs).extensions[e]
                <= (if c.extensions.dom().contains(e) {
                c.extensions[e]
            } else {
                0
            }) + rs.len(),
    decreases rs.len(),
{
    if rs.len() > 0 {
        lemma_fold_growth(c, rs.drop_last());
    }
}

/// Builds the collector chain, seeded with the moment the run
/// started.
pub fn chain(start_time: u64) -> (c: Chain)
    ensures
        c.wf(),
        c@ == chain_init(start_time),
{
    Chain {
        general: General::new(start_time),
        file_size: FileSize::new(),
        extensions: Extensions::new(),
        modification: Modification::new(),
    }
}

impl Chain {
    /// Every collector's internal invariant holds.
    pub closed spec fn wf(&self) -> bool {
        &&& self.general.wf()
        &&& self.extensions.wf()
        &&& self.modification.wf()
    }

    /// Registers one object record with every collector, in chain
    /// order.
    pub fn register(&mut self, record: &ObjectRecord)
        requires
            old(self).wf(),
            can_register(old(self)@, record@),
        ensures
            final(self).wf(),
            final(self)@ == chain_step(old(self)@, record@),
    {
        self.general.register(record);
        self.file_size.register(record);
        self.extensions.register(record);
        self.modification.register(record);
    }

    /// Registers every record of one page, in page order.
    pub fn register_page(&mut self, page: &Vec<ObjectRecord>)
        requires
            old(self).wf(),
            can_take(old(self)@, page.deep_view()),
        ensures
            final(self).wf(),
            final(self)@ == chain_fold(old(self)@, page.deep_view()),
    {
        let ghost views = page.deep_view();
        let ghost c0 = self@;
        let n: usize = page.len();
        let mut i: usize = 0;
        proof {
            assert(views.take(0) =~= Seq::<RecordView>::empty());
        }
        while i < n
            invariant
                self.wf(),
                n == views.len(),
                n == page@.len(),
                views == page.deep_view(),
                i <= n,
                can_take(c0, views),
                self@ == chain_fold(c0, views.take(i as int)),
            decreases n - i,
        {
            proof {
                lemma_fold_growth(c0, views.take(i as int));
                lemma_sum_take_le(views, i + 1);
                assert(views.take(i + 1).drop_last() =~= views.take(i as int));
                assert(views.take(i + 1).last() == views[i as int]);
                assert(sum_sizes(views.take(i + 1)) == sum_sizes(views.take(i as int))
                    + views[i as int].size);
                assert(can_register(self@, views[i as int]));
            }
            self.register(&page[i]);
            i = i + 1;
        }
        proof {
            assert(views.take(n as int) =~= views);
        }
    }

    /// Renders the whole report: every section in chain order, blank
    /// lines between sections.
    pub fn report(&self, now: u64) -> (lines: Vec<String>)
        requires
            self.wf(),
            now >= self@.general.start_time,
        ensures
            lines.deep_view() == chain_report(self@, now),
    {
        let mut lines = self.general.report(now);
        lines.push(String::new());
        let mut fs = self.file_size.report();
        lines.append(&mut fs);
        lines.push(String::new());
        let mut ex = self.extensions.report();
        lines.append(&mut ex);
        lines.push(String::new());
        let mut md = self.modification.report();
        lines.append(&mut md);
        proof {
            assert(lines.deep_view() =~= chain_report(self@, now));
        }
        lines
    }
}

/// The whole report: the four sections in chain order, separated by
/// blank lines.
pub open spec fn chain_report(c: ChainView, now: u64) -> Seq<Seq<char>> {
    general_report(c.general, now) + seq![Seq::<char>::empty()] + file_size_report(c.file_size)
        + seq![Seq::<char>::empty()] + extensions_report(c.extensions) + seq![
        Seq::<char>::empty(),
    ] + modification_report(c.modification)
}

/// A prefix of a record sequence never weighs more than the whole.
proof fn lemma_sum_take_le(rs: Seq<RecordView>, i: int)
    requires
        0 <= i <= rs.len(),
    ensures
        sum_sizes(rs.take(i)) <= sum_sizes(rs),
    decreases rs.len() - i,
{
    if i < rs.len() {
        assert(rs.take(i + 1).drop_last() =~= rs.take(i));
        lemma_sum_take_le(rs, i + 1);
    } else {
        assert(rs.take(i) =~= rs);
    }
}

/// Folding a concatenation is folding the pieces in turn.
proof fn lemma_fold_concat(c: ChainView, a: Seq<RecordView>, b: Seq<RecordView>)
    ensures
        chain_fold(c, a + b) == chain_fold(chain_fold(c, a), b),
    decreases b.len(),
{
    if b.len() == 0 {
        assert(a + b =~= a);
    } else {
        assert((a + b).drop_last() =~= a + b.drop_last());
        lemma_fold_concat(c, a, b.drop_last());
    }
}

/// Page-boundary invariance: however a sequence of records is split
/// into pages, feeding the pages to the chain one by one ends in
/// exactly the state reached by feeding the records in one pass. The
/// chain's output depends only on the records, not on the pagination.
pub proof fn lemma_page_boundary_invariance(c: ChainView, pages: Seq<Seq<RecordView>>)
    ensures
        chain_fold_pages(c, pages) == chain_fold(c, pages.flatten()),
    decreases pages.len(),
{
    if pages.len() == 0 {
        assert(pages.flatten() =~= Seq::<RecordView>::empty());
    } else {
        let d = pages.drop_last();
        lemma_page_boundary_invariance(c, d);
        pages.lemma_flatten_and_flatten_alt_are_equivalent();
        d.lemma_flatten_and_flatten_alt_are_equivalent();
        assert(pages.flatten_alt() == d.flatten_alt() + pages.last());
        lemma_fold_concat(c, d.flatten(), pages.last());
    }
}

} // verus!
