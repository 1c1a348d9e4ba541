use vstd::prelude::*;

use crate::measure::{denser, lemma_denser_transitive, Measurement};

verus! {

broadcast use vstd::seq_lib::group_to_multiset_ensures;

/// One measured image: its ratio, its path, and its place in discovery order.
#[derive(Debug)]
pub struct Report {
    pub measurement: Measurement,
    pub path: String,
    pub order: u64,
}

/// `a` is printed before `b` in sorted output: a strictly greater ratio
/// first, and among equal ratios the one discovered first.
pub open spec fn ranks_before(a: Report, b: Report) -> bool {
    denser(a.measurement, b.measurement) || (!denser(b.measurement, a.measurement) && a.order
        < b.order)
}

/// Every earlier report ranks before every later one.
pub open spec fn ranked(s: Seq<Report>) -> bool {
    forall|i: int, j: int| 0 <= i < j < s.len() ==> #[trigger] ranks_before(s[i], s[j])
}

/// The ratios along `s` never increase.
pub open spec fn non_increasing(s: Seq<Report>) -> bool {
    forall|i: int, j: int|
        0 <= i < j < s.len() ==> !#[trigger] denser(s[j].measurement, s[i].measurement)
}

/// Collects reports in discovery order. When sorting, it holds them back
/// ranked by ratio; otherwise it hands each one back at once to be printed.
pub struct Scanner {
    sorting: bool,
    next: u64,
    held: Vec<Report>,
    kept: Ghost<Seq<Report>>,
}

impl Scanner {
    /// Whether reports are held back and ranked.
    pub closed spec fn sorting_spec(&self) -> bool {
        self.sorting
    }

    /// Every report taken so far, in discovery order.
    pub closed spec fn kept(&self) -> Seq<Report> {
        self.kept@
    }

    /// Reports are numbered by discovery and well formed; when sorting, the
    /// held reports are exactly those taken, ranked.
    pub closed spec fn wf(&self) -> bool {
        &&& self.next == self.kept@.len()
        &&& forall|i: int|
            0 <= i < self.kept@.len() ==> (#[trigger] self.kept@[i]).order == i
                && self.kept@[i].measurement.wf()
        &&& forall|i: int|
            0 <= i < self.held@.len() ==> (#[trigger] self.held@[i]).order < self.next
                && self.held@[i].measurement.wf()
        &&& ranked(self.held@)
        &&& if self.sorting {
            self.held@.to_multiset() == self.kept@.to_multiset()
        } else {
            self.held@.len() == 0
        }
    }

    pub fn new(sorting: bool) -> (r: Scanner)
        ensures
            r.wf(),
            r.sorting_spec() == sorting,
            r.kept() == Seq::<Report>::empty(),
    {
        let r = Scanner { sorting, next: 0, held: Vec::new(), kept: Ghost(Seq::empty()) };
        assert(r.held@.to_multiset() =~= r.kept@.to_multiset());
        r
    }

    /// How many reports were taken so far.
    pub fn count(&self) -> (r: u64)
        requires
            self.wf(),
        ensures
            r == self.kept().len(),
    {
        self.next
    }

    /// Takes the next report in discovery order. Without sorting it is handed
    /// back at once; with sorting it is held back and nothing is returned.
    pub fn offer(&mut self, measurement: Measurement, path: String) -> (r: Option<Report>)
        requires
            old(self).wf(),
            measurement.wf(),
            old(self).kept().len() < u64::MAX,
        ensures
            final(self).wf(),
            final(self).sorting_spec() == old(self).sorting_spec(),
            final(self).kept() == old(self).kept().push(
                (Report { measurement, path, order: old(self).kept().len() as u64 }),
            ),
            old(self).sorting_spec() ==> r is None,
            !old(self).sorting_spec() ==> r == Some(
                (Report { measurement, path, order: old(self).kept().len() as u64 }),
            ),
    {
        let report = Report { measurement, path, order: self.next };
        let ghost item = report;
        self.kept = Ghost(self.kept@.push(item));
        self.next = self.next + 1;
        if !self.sorting {
            return Some(report);
        }
        let ghost before = self.held@;
        let n = self.held.len();
        let mut k: usize = 0;
        let mut found = false;
        while k < n && !found
            invariant
                n == self.held@.len(),
                self.held@ == before,
                item == report,
                k <= n,
                found ==> k < n && denser(item.measurement, before[k as int].measurement),
                forall|i: int| 0 <= i < k ==> !denser(item.measurement, #[trigger] before[i].measurement),
            decreases n - k + (if found { 0int } else { 1int }),
        {
            if report.measurement.denser_than(&self.held[k].measurement) {
                found = true;
            } else {
                k = k + 1;
            }
        }
        proof {
            assert forall|i: int, j: int| 0 <= i < j < before.len() + 1 implies ranks_before(
                #[trigger] before.insert(k as int, item)[i],
                #[trigger] before.insert(k as int, item)[j],
            ) by {
                let s = before.insert(k as int, item);
                if j == k {
                    assert(s[i] == before[i]);
                } else if i == k {
                    assert(s[j] == before[j - 1]);
                    if j - 1 > k {
                        assert(ranks_before(before[k as int], before[j - 1]));
                        lemma_denser_transitive(
                            item.measurement,
                            before[k as int].measurement,
                            before[j - 1].measurement,
                        );
                    }
                } else if j < k {
                    assert(s[i] == before[i] && s[j] == before[j]);
                    assert(ranks_before(before[i], before[j]));
                } else if i < k {
                    assert(s[i] == before[i] && s[j] == before[j - 1]);
                    assert(ranks_before(before[i], before[j - 1]));
                } else {
                    assert(s[i] == before[i - 1] && s[j] == before[j - 1]);
                    assert(ranks_before(before[i - 1], before[j - 1]));
                }
            }
            let s = before.insert(k as int, item);
            assert(s.remove(k as int) =~= before);
            assert(s[k as int] == item);
        }
        self.held.insert(k, report);
        None
    }

    /// Ends the scan. With sorting, returns every report taken, ranked:
    /// ratios never increase, and equal ratios keep discovery order.
    /// Without sorting, everything was handed back already.
    pub fn finish(self) -> (r: Vec<Report>)
        requires
            self.wf(),
        ensures
            self.sorting_spec() ==> r@.to_multiset() == self.kept().to_multiset(),
            self.sorting_spec() ==> r@.len() == self.kept().len(),
            self.sorting_spec() ==> ranked(r@),
            self.sorting_spec() ==> non_increasing(r@),
            !self.sorting_spec() ==> r@.len() == 0,
    {
        proof {
            lemma_ranked_non_increasing(self.held@);
            if self.sorting {
                assert(self.held@.to_multiset().len() == self.held@.len());
                assert(self.kept@.to_multiset().len() == self.kept@.len());
            }
        }
        self.held
    }
}

/// A ranked sequence of reports never increases in ratio.
pub proof fn lemma_ranked_non_increasing(s: Seq<Report>)
    requires
        ranked(s),
    ensures
        non_increasing(s),
{
    assert forall|i: int, j: int| 0 <= i < j < s.len() implies !#[trigger] denser(
        s[j].measurement,
        s[i].measurement,
    ) by {
        assert(ranks_before(s[i], s[j]));
    }
}

} // verus!
