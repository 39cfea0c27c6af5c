//! The fan-in of per-file results: each file's findings arrive as one batch,
//! and the batches are joined in order into one collection with a count of
//! the files scanned.

use crate::scanner::{findings_view, Finding, FindingView};
use vstd::prelude::*;

verus! {

/// The concatenation of the first `k` batches.
pub open spec fn concat_upto(bs: Seq<Seq<FindingView>>, k: int) -> Seq<FindingView>
    decreases k,
{
    if k <= 0 {
        seq![]
    } else {
        concat_upto(bs, k - 1) + bs[k - 1]
    }
}

/// The findings of each batch, as values.
pub open spec fn batch_views(bs: Seq<Vec<Finding>>) -> Seq<Seq<FindingView>> {
    bs.map_values(|b: Vec<Finding>| findings_view(b@))
}

/// The collected result of a scan: how many files were scanned and every
/// finding, each file's findings kept together and in line order.
pub struct ScanTotals {
    pub files_scanned: usize,
    pub findings: Vec<Finding>,
}

impl ScanTotals {
    /// Totals before any file was scanned.
    pub fn new() -> (r: ScanTotals)
        ensures
            r.files_scanned == 0,
            r.findings@.len() == 0,
    {
        ScanTotals { files_scanned: 0, findings: Vec::new() }
    }

    /// Counts one more scanned file and appends its findings.
    pub fn add_file(&mut self, batch: Vec<Finding>)
        requires
            old(self).files_scanned < usize::MAX,
        ensures
            final(self).files_scanned == old(self).files_scanned + 1,
            findings_view(final(self).findings@) == findings_view(old(self).findings@) + findings_view(batch@),
    {
        let ghost before = self.findings@;
        let mut batch = batch;
        let ghost added = batch@;
        self.findings.append(&mut batch);
        assert(findings_view(self.findings@) =~= findings_view(before) + findings_view(added));
        self.files_scanned = self.files_scanned + 1;
    }
}

/// Joins the per-file batches in the order given; each batch counts as one
/// scanned file.
pub fn merge_batches(batches: Vec<Vec<Finding>>) -> (r: ScanTotals)
    ensures
        r.files_scanned == batches@.len(),
        findings_view(r.findings@) == concat_upto(batch_views(batches@), batches@.len() as int),
{
    let ghost orig = batches@;
    let mut batches = batches;
    let mut totals = ScanTotals::new();
    let mut i: usize = 0;
    assert(findings_view(totals.findings@) =~= concat_upto(batch_views(orig), 0));
    while i < batches.len()
        invariant
            batches@.len() == orig.len(),
            0 <= i <= batches@.len(),
            totals.files_scanned == i,
            forall|j: int| i <= j < orig.len() ==> #[trigger] batches@[j] == orig[j],
            findings_view(totals.findings@) == concat_upto(batch_views(orig), i as int),
        decreases batches@.len() - i,
    {
        let mut taken: Vec<Finding> = Vec::new();
        core::mem::swap(&mut batches[i], &mut taken);
        assert(taken@ == orig[i as int]@);
        totals.add_file(taken);
        assert(batch_views(orig)[i as int] == findings_view(orig[i as int]@));
        i = i + 1;
    }
    totals
}

proof fn lemma_concat_contains(bs: Seq<Seq<FindingView>>, k: int, x: FindingView)
    requires
        0 <= k <= bs.len(),
    ensures
        concat_upto(bs, k).contains(x) <==> exists|i: int| 0 <= i < k && (#[trigger] bs[i]).contains(x),
    decreases k,
{
    if k > 0 {
        lemma_concat_contains(bs, k - 1, x);
        let prev = concat_upto(bs, k - 1);
        let last = bs[k - 1];
        if (prev + last).contains(x) {
            let p = choose|p: int| 0 <= p < (prev + last).len() && (prev + last)[p] == x;
            if p < prev.len() {
                assert(prev[p] == x);
            } else {
                assert(last[p - prev.len()] == x);
            }
        }
        if exists|i: int| 0 <= i < k && (#[trigger] bs[i]).contains(x) {
            let i = choose|i: int| 0 <= i < k && (#[trigger] bs[i]).contains(x);
            if i < k - 1 {
                assert(prev.contains(x));
                let p = choose|p: int| 0 <= p < prev.len() && prev[p] == x;
                assert((prev + last)[p] == x);
            } else {
                let p = choose|p: int| 0 <= p < last.len() && last[p] == x;
                assert((prev + last)[prev.len() + p] == x);
            }
        }
    }
}

/// A finding is among the joined findings iff it is in one of the batches.
pub proof fn lemma_merged_membership(bs: Seq<Seq<FindingView>>, x: FindingView)
    ensures
        concat_upto(bs, bs.len() as int).contains(x) <==> exists|i: int| 0 <= i < bs.len() && (#[trigger] bs[i]).contains(x),
{
    lemma_concat_contains(bs, bs.len() as int, x);
}

/// Idempotence of the fan-in: the set of joined findings depends only on
/// which per-file batches arrived, not on the order in which they arrived,
/// so two runs whose workers finish in different orders agree on it.
pub proof fn lemma_merge_order_free(b1: Seq<Seq<FindingView>>, b2: Seq<Seq<FindingView>>)
    requires
        b1.to_set() == b2.to_set(),
    ensures
        concat_upto(b1, b1.len() as int).to_set() == concat_upto(b2, b2.len() as int).to_set(),
{
    assert forall|x: FindingView| concat_upto(b1, b1.len() as int).contains(x) <==> concat_upto(b2, b2.len() as int).contains(x) by {
        lemma_merged_membership(b1, x);
        lemma_merged_membership(b2, x);
        if exists|i: int| 0 <= i < b1.len() && (#[trigger] b1[i]).contains(x) {
            let i = choose|i: int| 0 <= i < b1.len() && (#[trigger] b1[i]).contains(x);
            assert(b1.to_set().contains(b1[i]));
            assert(b2.to_set().contains(b1[i]));
            let j = choose|j: int| 0 <= j < b2.len() && b2[j] == b1[i];
            assert(b2[j].contains(x));
        }
        if exists|i: int| 0 <= i < b2.len() && (#[trigger] b2[i]).contains(x) {
            let i = choose|i: int| 0 <= i < b2.len() && (#[trigger] b2[i]).contains(x);
            assert(b2.to_set().contains(b2[i]));
            assert(b1.to_set().contains(b2[i]));
            let j = choose|j: int| 0 <= j < b1.len() && b1[j] == b2[i];
            assert(b1[j].contains(x));
        }
    }
    assert(concat_upto(b1, b1.len() as int).to_set() =~= concat_upto(b2, b2.len() as int).to_set());
}

/// A tree in which no file gives a finding gives no finding in all: the
/// joined collection is empty (and so the report is `Clean`).
pub proof fn lemma_clean_tree(bs: Seq<Seq<FindingView>>)
    requires
        forall|i: int| 0 <= i < bs.len() ==> (#[trigger] bs[i]).len() == 0,
    ensures
        concat_upto(bs, bs.len() as int).len() == 0,
{
    assert forall|k: int| 0 <= k <= bs.len() implies #[trigger] concat_upto(bs, k).len() == 0 by {
        lemma_concat_empty(bs, k);
    }
}

proof fn lemma_concat_empty(bs: Seq<Seq<FindingView>>, k: int)
    requires
        0 <= k <= bs.len(),
        forall|i: int| 0 <= i < bs.len() ==> (#[trigger] bs[i]).len() == 0,
    ensures
        concat_upto(bs, k).len() == 0,
    decreases k,
{
    if k > 0 {
        lemma_concat_empty(bs, k - 1);
    }
}

} // verus!
