//! Extension metrics: a frequency table of file extensions and the
//! most popular one.

use vstd::prelude::*;

use crate::metrics::ext_of;
use crate::metrics::last_char_pos;
use crate::metrics::lemma_last_index_bounds;
use crate::types::ObjectRecord;
use crate::types::RecordView;
use crate::util::dec_of;
use crate::util::to_decimal;

verus! {

/// The keys of a sequence of `(extension, count)` pairs.
pub open spec fn keys_of(s: Seq<(Seq<char>, u64)>) -> Seq<Seq<char>> {
    s.map_values(|p: (Seq<char>, u64)| p.0)
}

/// The frequency table held by a sequence of `(extension, count)`
/// pairs.
pub open spec fn hist_of(s: Seq<(Seq<char>, u64)>) -> Map<Seq<char>, nat>
    decreases s.len(),
{
    if s.len() == 0 {
        Map::empty()
    } else {
        hist_of(s.drop_last()).insert(s.last().0, s.last().1 as nat)
    }
}

/// Lexicographic order on character sequences, by code point.
pub open spec fn lex_le(a: Seq<char>, b: Seq<char>) -> bool
    decreases a.len(),
{
    if a.len() == 0 {
        true
    } else if b.len() == 0 {
        false
    } else if a[0] == b[0] {
        lex_le(a.drop_first(), b.drop_first())
    } else {
        a[0] < b[0]
    }
}

/// Whether `e` is the deterministic "most popular" choice: it holds
/// the highest count, and among equally frequent extensions it is the
/// lexicographically smallest.
pub open spec fn is_most_popular(m: Map<Seq<char>, nat>, e: Seq<char>) -> bool {
    &&& m.dom().contains(e)
    &&& forall|o: Seq<char>|
        m.dom().contains(o) ==> m[o] < m[e] || (m[o] == m[e] && lex_le(e, o))
}

/// The deterministic "most popular" extension of a non-empty table.
pub open spec fn most_popular_of(m: Map<Seq<char>, nat>) -> Seq<char> {
    choose|e: Seq<char>| is_most_popular(m, e)
}

/// The histogram after one more record: the record's extension, if it
/// has one, gains a count.
pub open spec fn ext_step(m: Map<Seq<char>, nat>, r: RecordView) -> Map<Seq<char>, nat> {
    match ext_of(r.key) {
        Some(e) => m.insert(
            e,
            (if m.dom().contains(e) {
                m[e]
            } else {
                0
            }) + 1,
        ),
        None => m,
    }
}

/// The `[extensions]` section: the number of distinct extensions,
/// and, when any were seen, the most popular one.
pub open spec fn extensions_report(m: Map<Seq<char>, nat>) -> Seq<Seq<char>> {
    let base = seq!["[extensions]"@, "unique_extensions="@ + dec_of(m.dom().len())];
    if m.dom().len() == 0 {
        base
    } else {
        base.push("most_popular_extension="@ + most_popular_of(m))
    }
}

/// Container struct for extension metrics: occurrence counts, one
/// entry per distinct extension seen.
pub struct Extensions {
    extensions: Vec<(String, u64)>,
}

impl View for Extensions {
    type V = Map<Seq<char>, nat>;

    closed spec fn view(&self) -> Map<Seq<char>, nat> {
        hist_of(self.extensions.deep_view())
    }
}

proof fn lemma_hist_of(s: Seq<(Seq<char>, u64)>)
    requires
        keys_of(s).no_duplicates(),
    ensures
        hist_of(s).dom() =~= keys_of(s).to_set(),
        forall|i: int| 0 <= i < s.len() ==> hist_of(s).dom().contains(#[trigger] s[i].0),
        forall|i: int| 0 <= i < s.len() ==> hist_of(s)[#[trigger] s[i].0] == s[i].1 as nat,
    decreases s.len(),
{
    if s.len() > 0 {
        let d = s.drop_last();
        assert(keys_of(d) =~= keys_of(s).drop_last());
        lemma_hist_of(d);
        assert forall|i: int| 0 <= i < s.len() implies hist_of(s)[#[trigger] s[i].0] == s[i].1
            as nat by {
            if i < s.len() - 1 {
                assert(keys_of(s)[i] == s[i].0);
                assert(keys_of(s)[s.len() - 1] == s.last().0);
                assert(s[i].0 != s.last().0);
                assert(d[i] == s[i]);
            }
        }
        assert forall|a: Seq<char>| hist_of(s).dom().contains(a) implies keys_of(
            s,
        ).to_set().contains(a) by {
            if a == s.last().0 {
                assert(keys_of(s)[s.len() - 1] == a);
            } else {
                let w = choose|w: int| 0 <= w < keys_of(d).len() && keys_of(d)[w] == a;
                assert(keys_of(s)[w] == a);
            }
        }
        assert forall|a: Seq<char>| keys_of(s).to_set().contains(a) implies hist_of(
            s,
        ).dom().contains(a) by {
            let w = choose|w: int| 0 <= w < keys_of(s).len() && keys_of(s)[w] == a;
            if w < s.len() - 1 {
                assert(keys_of(d)[w] == a);
            }
        }
        assert forall|i: int| 0 <= i < s.len() implies hist_of(s).dom().contains(
            #[trigger] s[i].0,
        ) by {
            assert(keys_of(s)[i] == s[i].0);
            assert(keys_of(s).contains(s[i].0));
        }
    }
}

proof fn lemma_hist_update(s: Seq<(Seq<char>, u64)>, j: int, v: u64)
    requires
        keys_of(s).no_duplicates(),
        0 <= j < s.len(),
    ensures
        hist_of(s.update(j, (s[j].0, v))) == hist_of(s).insert(s[j].0, v as nat),
    decreases s.len(),
{
    let u = s.update(j, (s[j].0, v));
    if j == s.len() - 1 {
        assert(u.drop_last() =~= s.drop_last());
        assert(u.last() == (s[j].0, v));
        assert(hist_of(s.drop_last()).insert(s[j].0, v as nat) =~= hist_of(s.drop_last()).insert(
            s.last().0,
            s.last().1 as nat,
        ).insert(s[j].0, v as nat));
    } else {
        let d = s.drop_last();
        assert(keys_of(d) =~= keys_of(s).drop_last());
        lemma_hist_update(d, j, v);
        assert(u.drop_last() =~= d.update(j, (d[j].0, v)));
        assert(u.last() == s.last());
        assert(keys_of(s)[j] == s[j].0);
        assert(keys_of(s)[s.len() - 1] == s.last().0);
        assert(s[j].0 != s.last().0);
        assert(hist_of(d).insert(s[j].0, v as nat).insert(s.last().0, s.last().1 as nat)
            =~= hist_of(d).insert(s.last().0, s.last().1 as nat).insert(s[j].0, v as nat));
    }
}

proof fn lemma_lex_le_antisymmetric(a: Seq<char>, b: Seq<char>)
    requires
        lex_le(a, b),
        lex_le(b, a),
    ensures
        a == b,
    decreases a.len(),
{
    if a.len() == 0 {
        assert(b.len() == 0);
        assert(a =~= b);
    } else {
        assert(b.len() > 0);
        assert(a[0] == b[0]);
        lemma_lex_le_antisymmetric(a.drop_first(), b.drop_first());
        assert(a.drop_first() == b.drop_first());
        assert(a.drop_first().len() == b.drop_first().len());
        assert(a.len() == b.len());
        assert forall|i: int| 0 <= i < a.len() implies a[i] == b[i] by {
            if i > 0 {
                assert(a[i] == a.drop_first()[i - 1]);
                assert(b[i] == b.drop_first()[i - 1]);
            }
        }
        assert(a =~= b);
    }
}

proof fn lemma_most_popular_unique(m: Map<Seq<char>, nat>, a: Seq<char>, b: Seq<char>)
    requires
        is_most_popular(m, a),
        is_most_popular(m, b),
    ensures
        a == b,
{
    assert(m[a] == m[b]);
    lemma_lex_le_antisymmetric(a, b);
}

/// Whether `a` comes lexicographically no later than `b`.
fn lex_le_str(a: &str, b: &str) -> (r: bool)
    ensures
        r == lex_le(a@, b@),
{
    let an: usize = a.unicode_len();
    let bn: usize = b.unicode_len();
    let mut i: usize = 0;
    proof {
        assert(a@.skip(0) =~= a@);
        assert(b@.skip(0) =~= b@);
    }
    loop
        invariant
            an == a@.len(),
            bn == b@.len(),
            i <= an,
            i <= bn,
            lex_le(a@, b@) == lex_le(a@.skip(i as int), b@.skip(i as int)),
        decreases an - i,
    {
        if i == an {
            return true;
        }
        if i == bn {
            return false;
        }
        let ca = a.get_char(i);
        let cb = b.get_char(i);
        proof {
            assert(a@.skip(i as int)[0] == ca);
            assert(b@.skip(i as int)[0] == cb);
            assert(a@.skip(i as int).drop_first() =~= a@.skip(i + 1));
            assert(b@.skip(i as int).drop_first() =~= b@.skip(i + 1));
        }
        if ca != cb {
            let r: bool = (ca as u32) < (cb as u32);
            proof {
                assert(r == (ca < cb));
            }
            return r;
        }
        i = i + 1;
    }
}

impl Extensions {
    /// The table never repeats an extension, so its length is the
    /// number of distinct extensions seen.
    pub closed spec fn wf(&self) -> bool {
        keys_of(self.extensions.deep_view()).no_duplicates()
    }

    /// Constructs a new `Extensions` collector with an empty table.
    pub fn new() -> (e: Extensions)
        ensures
            e.wf(),
            e@ == Map::<Seq<char>, nat>::empty(),
    {
        let e = Extensions { extensions: Vec::new() };
        proof {
            assert(e.extensions.deep_view() =~= Seq::<(Seq<char>, u64)>::empty());
        }
        e
    }

    /// The position of an extension in the table, if present.
    fn find_ext(&self, e: &String) -> (r: Option<usize>)
        ensures
            match r {
                Some(j) => j < self.extensions.deep_view().len() && self.extensions.deep_view()[
                    j as int
                ].0 == e@,
                None => forall|t: int|
                    0 <= t < self.extensions.deep_view().len()
                        ==> (#[trigger] self.extensions.deep_view()[t]).0 != e@,
            },
    {
        let n: usize = self.extensions.len();
        let mut j: usize = 0;
        while j < n
            invariant
                n == self.extensions@.len(),
                j <= n,
                forall|t: int|
                    0 <= t < j ==> (#[trigger] self.extensions.deep_view()[t]).0 != e@,
            decreases n - j,
        {
            if e.eq(&self.extensions[j].0) {
                return Some(j);
            }
            j = j + 1;
        }
        None
    }

    /// Registers an object record: its extension, if it has one,
    /// gains a count.
    pub fn register(&mut self, record: &ObjectRecord)
        requires
            old(self).wf(),
            forall|e: Seq<char>| old(self)@.dom().contains(e) ==> old(self)@[e] < u64::MAX,
        ensures
            final(self).wf(),
            final(self)@ == ext_step(old(self)@, record@),
    {
        let ghost pre = self.extensions.deep_view();
        let key = record.key.as_str();
        let n: usize = key.unicode_len();
        let ld: usize = match last_char_pos(key, '.') {
            Some(ld) => ld,
            None => {
                proof {
                    lemma_last_index_bounds(record@.key, '/');
                    assert(ext_of(record@.key) is None);
                }
                return ;
            },
        };
        let in_segment: bool = match last_char_pos(key, '/') {
            Some(ls) => ld > ls + 1,
            None => ld > 0,
        };
        if !in_segment {
            proof {
                assert(ext_of(record@.key) is None);
            }
            return ;
        }
        let e: String = key.substring_char(ld + 1, n).to_owned();
        proof {
            assert(e@ =~= record@.key.skip(ld + 1));
            assert(ext_of(record@.key) == Some(e@));
            lemma_hist_of(pre);
        }
        match self.find_ext(&e) {
            Some(j) => {
                let c: u64 = self.extensions[j].1;
                proof {
                    assert(keys_of(pre)[j as int] == pre[j as int].0);
                    assert(self@.dom().contains(e@));
                    assert(self@[e@] == c as nat);
                }
                self.extensions[j] = (e, c + 1);
                proof {
                    assert(self.extensions.deep_view() =~= pre.update(j as int, (
                        pre[j as int].0,
                        (c + 1) as u64,
                    )));
                    lemma_hist_update(pre, j as int, (c + 1) as u64);
                    assert(keys_of(self.extensions.deep_view()) =~= keys_of(pre));
                }
            },
            None => {
                proof {
                    if hist_of(pre).dom().contains(e@) {
                        let w = choose|w: int|
                            0 <= w < keys_of(pre).len() && keys_of(pre)[w] == e@;
                        assert(pre[w].0 == e@);
                    }
                }
                self.extensions.push((e, 1));
                proof {
                    let post = self.extensions.deep_view();
                    assert(post =~= pre.push((record@.key.skip(ld + 1), 1u64)));
                    assert(post.drop_last() =~= pre);
                    assert(keys_of(post) =~= keys_of(pre).push(record@.key.skip(ld + 1)));
                }
            },
        }
    }

    /// Renders the `[extensions]` section.
    pub fn report(&self) -> (lines: Vec<String>)
        requires
            self.wf(),
        ensures
            lines.deep_view() == extensions_report(self@),
    {
        proof {
            lemma_hist_of(self.extensions.deep_view());
            keys_of(self.extensions.deep_view()).unique_seq_to_set();
        }
        let mut lines: Vec<String> = Vec::new();
        lines.push("[extensions]".to_owned());

        let n: usize = self.extensions.len();
        let mut count_line = String::new();
        count_line.append("unique_extensions=");
        let count = to_decimal(n as u64);
        count_line.append(count.as_str());
        lines.push(count_line);

        if n == 0 {
            proof {
                assert(lines.deep_view() =~= extensions_report(self@));
            }
            return lines;
        }
        let mut best: usize = 0;
        let mut j: usize = 1;
        proof {
            lemma_lex_le_reflexive(self.extensions.deep_view()[0].0);
        }
        while j < n
            invariant
                n == self.extensions@.len(),
                self.wf(),
                best < j <= n,
                forall|t: int|
                    0 <= t < j ==> (#[trigger] self.extensions.deep_view()[t]).1
                        < self.extensions.deep_view()[best as int].1 || (
                    self.extensions.deep_view()[t].1 == self.extensions.deep_view()[
                        best as int
                    ].1 && lex_le(
                        self.extensions.deep_view()[best as int].0,
                        self.extensions.deep_view()[t].0,
                    )),
            decreases n - j,
        {
            let better: bool = if self.extensions[j].1 > self.extensions[best].1 {
                true
            } else if self.extensions[j].1 == self.extensions[best].1 {
                lex_le_str(self.extensions[j].0.as_str(), self.extensions[best].0.as_str())
                    && !lex_le_str(self.extensions[best].0.as_str(), self.extensions[j].0.as_str())
            } else {
                false
            };
            if better {
                proof {
                    let dv = self.extensions.deep_view();
                    assert forall|t: int| 0 <= t < j + 1 implies (
                    #[trigger] self.extensions.deep_view()[t]).1 < self.extensions.deep_view()[
                        j as int
                    ].1 || (self.extensions.deep_view()[t].1 == self.extensions.deep_view()[
                        j as int
                    ].1 && lex_le(
                        self.extensions.deep_view()[j as int].0,
                        self.extensions.deep_view()[t].0,
                    )) by {
                        if t < j {
                            if dv[t].1 == dv[j as int].1 && dv[t].1 == dv[best as int].1 {
                                lemma_lex_le_total(dv[j as int].0, dv[best as int].0);
                                lemma_lex_le_transitive(dv[j as int].0, dv[best as int].0, dv[t].0);
                            }
                        } else {
                            lemma_lex_le_reflexive(dv[j as int].0);
                        }
                    }
                }
                best = j;
            } else {
                proof {
                    let dv = self.extensions.deep_view();
                    if dv[j as int].1 == dv[best as int].1 {
                        lemma_lex_le_total(dv[j as int].0, dv[best as int].0);
                        lemma_lex_le_antisymmetric_cond(dv[j as int].0, dv[best as int].0);
                    }
                }
            }
            j = j + 1;
        }
        let mut best_line = String::new();
        best_line.append("most_popular_extension=");
        best_line.append(self.extensions[best].0.as_str());
        lines.push(best_line);
        proof {
            let dv = self.extensions.deep_view();
            let bk = dv[best as int].0;
            assert forall|o: Seq<char>| self@.dom().contains(o) implies self@[o] < self@[bk] || (
            self@[o] == self@[bk] && lex_le(bk, o)) by {
                let w = choose|w: int| 0 <= w < keys_of(dv).len() && keys_of(dv)[w] == o;
                assert(dv[w].0 == o);
                assert(self@[o] == dv[w].1 as nat);
            }
            assert(is_most_popular(self@, bk));
            lemma_most_popular_unique(self@, most_popular_of(self@), bk);
            assert(self@.dom().len() == n);
            assert(lines.deep_view() =~= extensions_report(self@));
        }
        lines
    }
}

proof fn lemma_lex_le_reflexive(a: Seq<char>)
    ensures
        lex_le(a, a),
    decreases a.len(),
{
    if a.len() > 0 {
        lemma_lex_le_reflexive(a.drop_first());
    }
}

proof fn lemma_lex_le_total(a: Seq<char>, b: Seq<char>)
    ensures
        lex_le(a, b) || lex_le(b, a),
    decreases a.len(),
{
    if a.len() == 0 {
    } else if b.len() == 0 {
        assert(lex_le(b, a));
    } else if a[0] == b[0] {
        lemma_lex_le_total(a.drop_first(), b.drop_first());
    }
}

proof fn lemma_lex_le_antisymmetric_cond(a: Seq<char>, b: Seq<char>)
    ensures
        lex_le(a, b) && lex_le(b, a) ==> a == b,
{
    if lex_le(a, b) && lex_le(b, a) {
        lemma_lex_le_antisymmetric(a, b);
    }
}

proof fn lemma_lex_le_transitive(a: Seq<char>, b: Seq<char>, c: Seq<char>)
    requires
        lex_le(a, b),
        lex_le(b, c),
    ensures
        lex_le(a, c),
    decreases a.len(),
{
    if a.len() > 0 && b.len() > 0 && c.len() > 0 && a[0] == b[0] && b[0] == c[0] {
        lemma_lex_le_transitive(a.drop_first(), b.drop_first(), c.drop_first());
    }
}

} // verus!
