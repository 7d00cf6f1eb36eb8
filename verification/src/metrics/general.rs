//! General metrics: record count, total size, distinct folders, and
//! the elapsed time of the run.

use vstd::prelude::*;

use crate::metrics::folder_of;
use crate::metrics::last_char_pos;
use crate::types::ObjectRecord;
use crate::types::RecordView;
use crate::util::bytes_text;
use crate::util::comma;
use crate::util::comma_text;
use crate::util::convert_bytes;
use crate::util::duration_text;
use crate::util::format_duration_secs;

verus! {

/// Mathematical state of the general collector.
pub struct GeneralView {
    pub folders: Set<Seq<char>>,
    pub start_time: u64,
    pub total_keys: nat,
    pub total_size: nat,
}

/// Container struct for general metrics: every distinct folder seen,
/// the moment the run started, and running totals of keys and bytes.
pub struct General {
    folder_set: Vec<String>,
    start_time: u64,
    total_keys: u64,
    total_size: u64,
}

impl View for General {
    type V = GeneralView;

    closed spec fn view(&self) -> GeneralView {
        GeneralView {
            folders: self.folder_set.deep_view().to_set(),
            start_time: self.start_time,
            total_keys: self.total_keys as nat,
            total_size: self.total_size as nat,
        }
    }
}

/// The general state after one more record: its folder (if it has
/// one) joins the set, the counters grow.
pub open spec fn general_step(g: GeneralView, r: RecordView) -> GeneralView {
    GeneralView {
        folders: match folder_of(r.key) {
            Some(f) => g.folders.insert(f),
            None => g.folders,
        },
        start_time: g.start_time,
        total_keys: g.total_keys + 1,
        total_size: (g.total_size + r.size) as nat,
    }
}

/// The general report: elapsed time, counts with thousands
/// separators, and the total size in human-scaled units.
pub open spec fn general_report(g: GeneralView, now: u64) -> Seq<Seq<char>> {
    seq![
        "[general]"@,
        "total_time="@ + duration_text((now - g.start_time) as u64),
        "total_files="@ + comma_text(g.total_keys as u64),
        "total_folders="@ + comma_text(g.folders.len() as u64),
        "total_storage="@ + bytes_text(g.total_size as u64),
    ]
}

impl General {
    /// The folder list never repeats an entry, so its length is the
    /// number of distinct folders seen.
    pub closed spec fn wf(&self) -> bool {
        self.folder_set.deep_view().no_duplicates()
    }

    /// Constructs a new `General` collector, with the given start
    /// moment and nothing seen yet.
    pub fn new(start_time: u64) -> (g: General)
        ensures
            g.wf(),
            g@ == (GeneralView {
                folders: Set::<Seq<char>>::empty(),
                start_time,
                total_keys: 0,
                total_size: 0,
            }),
    {
        let g = General { folder_set: Vec::new(), start_time, total_keys: 0, total_size: 0 };
        proof {
            assert(g.folder_set.deep_view() =~= Seq::<Seq<char>>::empty());
            assert(g.folder_set.deep_view().to_set() =~= Set::<Seq<char>>::empty());
        }
        g
    }

    /// Whether a folder is already recorded.
    fn contains_folder(&self, f: &String) -> (b: bool)
        ensures
            b == self.folder_set.deep_view().contains(f@),
    {
        let n: usize = self.folder_set.len();
        let mut j: usize = 0;
        while j < n
            invariant
                n == self.folder_set@.len(),
                j <= n,
                forall|t: int| 0 <= t < j ==> self.folder_set.deep_view()[t] != f@,
            decreases n - j,
        {
            if f.eq(&self.folder_set[j]) {
                proof {
                    assert(self.folder_set.deep_view()[j as int] == f@);
                }
                return true;
            }
            j = j + 1;
        }
        proof {
            if self.folder_set.deep_view().contains(f@) {
                let w = choose|w: int|
                    0 <= w < self.folder_set.deep_view().len() && self.folder_set.deep_view()[w]
                        == f@;
                assert(false);
            }
        }
        false
    }

    /// Registers an object record: counts it, adds its size, and
    /// records its folder.
    pub fn register(&mut self, record: &ObjectRecord)
        requires
            old(self).wf(),
            old(self)@.total_keys < u64::MAX,
            old(self)@.total_size + record@.size <= u64::MAX,
        ensures
            final(self).wf(),
            final(self)@ == general_step(old(self)@, record@),
    {
        let ghost pre = self.folder_set.deep_view();
        match last_char_pos(record.key.as_str(), '/') {
            Some(ls) => {
                if ls > 0 {
                    let f: String = record.key.as_str().substring_char(0, ls).to_owned();
                    proof {
                        assert(f@ == record@.key.take(ls as int));
                        assert(folder_of(record@.key) == Some(f@));
                    }
                    if !self.contains_folder(&f) {
                        self.folder_set.push(f);
                        proof {
                            assert(self.folder_set.deep_view() =~= pre.push(
                                folder_of(record@.key)->Some_0,
                            ));
                            lemma_push_to_set(pre, folder_of(record@.key)->Some_0);
                        }
                    } else {
                        proof {
                            assert(pre.to_set().insert(folder_of(record@.key)->Some_0)
                                =~= pre.to_set());
                        }
                    }
                } else {
                    proof {
                        assert(folder_of(record@.key) is None);
                    }
                }
            },
            None => {
                proof {
                    assert(folder_of(record@.key) is None);
                }
            },
        }
        self.total_keys = self.total_keys + 1;
        self.total_size = self.total_size + record.size;
        proof {
            assert(self@ == general_step(old(self)@, record@));
        }
    }

    /// Renders the `[general]` section.
    pub fn report(&self, now: u64) -> (lines: Vec<String>)
        requires
            self.wf(),
            now >= self@.start_time,
        ensures
            lines.deep_view() == general_report(self@, now),
    {
        let mut lines: Vec<String> = Vec::new();
        lines.push("[general]".to_owned());

        let mut time_line = String::new();
        time_line.append("total_time=");
        let dur = format_duration_secs(now - self.start_time);
        time_line.append(dur.as_str());
        lines.push(time_line);

        let mut files_line = String::new();
        files_line.append("total_files=");
        let files = comma(self.total_keys);
        files_line.append(files.as_str());
        lines.push(files_line);

        let mut folders_line = String::new();
        folders_line.append("total_folders=");
        proof {
            self.folder_set.deep_view().unique_seq_to_set();
        }
        let folders = comma(self.folder_set.len() as u64);
        folders_line.append(folders.as_str());
        lines.push(folders_line);

        let mut storage_line = String::new();
        storage_line.append("total_storage=");
        let storage = convert_bytes(self.total_size);
        storage_line.append(storage.as_str());
        lines.push(storage_line);

        proof {
            assert(lines.deep_view() =~= general_report(self@, now));
        }
        lines
    }
}

/// Pushing a fresh element onto a sequence inserts it into the
/// sequence's set of elements.
pub(crate) proof fn lemma_push_to_set(s: Seq<Seq<char>>, x: Seq<char>)
    ensures
        s.push(x).to_set() == s.to_set().insert(x),
{
    assert forall|a: Seq<char>| s.push(x).to_set().contains(a) implies s.to_set().insert(
        x,
    ).contains(a) by {
        let i = choose|i: int| 0 <= i < s.push(x).len() && s.push(x)[i] == a;
        if i < s.len() {
            assert(s[i] == a);
        }
    }
    assert forall|a: Seq<char>| s.to_set().insert(x).contains(a) implies s.push(
        x,
    ).to_set().contains(a) by {
        if a == x {
            assert(s.push(x)[s.len() as int] == a);
        } else {
            let i = choose|i: int| 0 <= i < s.len() && s[i] == a;
            assert(s.push(x)[i] == a);
        }
    }
    assert(s.push(x).to_set() =~= s.to_set().insert(x));
}

} // verus!
