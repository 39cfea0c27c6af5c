//! The grouped report: distinct affected files, one header per first
//! arrival of a path, and the lines that follow it.

use crate::scanner::{findings_view, Finding, FindingView};
use vstd::prelude::*;
use vstd::utf8::encode_utf8;

verus! {

/// One line of the report body.
#[derive(Debug, Clone)]
pub enum ReportLine {
    /// A file's path, printed where a new group of findings starts.
    FileHeader(String),
    /// A finding's line number and run length.
    Entry { line_num: usize, ws_count: usize },
    /// A finding's preview, shown in verbose mode.
    Preview(String),
}

/// A report line as values.
pub enum ReportLineView {
    FileHeader(Seq<char>),
    Entry { line_num: nat, ws_count: nat },
    Preview(Seq<u8>),
}

impl View for ReportLine {
    type V = ReportLineView;

    open spec fn view(&self) -> ReportLineView {
        match self {
            ReportLine::FileHeader(p) => ReportLineView::FileHeader(p@),
            ReportLine::Entry { line_num, ws_count } => ReportLineView::Entry {
                line_num: *line_num as nat,
                ws_count: *ws_count as nat,
            },
            ReportLine::Preview(s) => ReportLineView::Preview(encode_utf8(s@)),
        }
    }
}

/// What the report says: nothing was found, or how many distinct files
/// were affected and the grouped lines.
#[derive(Debug, Clone)]
pub enum Report {
    Clean,
    Found { file_count: usize, lines: Vec<ReportLine> },
}

/// The view of each report line, in order.
pub open spec fn lines_view(v: Seq<ReportLine>) -> Seq<ReportLineView> {
    v.map_values(|l: ReportLine| l@)
}

/// The distinct paths of the first `k` findings, in order of first arrival.
pub open spec fn first_paths(fs: Seq<FindingView>, k: int) -> Seq<Seq<char>>
    decreases k,
{
    if k <= 0 {
        seq![]
    } else {
        let prev = first_paths(fs, k - 1);
        if prev.contains(fs[k - 1].path) {
            prev
        } else {
            prev.push(fs[k - 1].path)
        }
    }
}

/// Finding `k` starts a group: it is the first, or its path differs from
/// that of the finding just before it.
pub open spec fn starts_group(fs: Seq<FindingView>, k: int) -> bool {
    k == 0 || fs[k - 1].path != fs[k].path
}

/// The report lines of finding `k`.
pub open spec fn lines_for(fs: Seq<FindingView>, verbose: bool, k: int) -> Seq<ReportLineView> {
    let head = if starts_group(fs, k) {
        seq![ReportLineView::FileHeader(fs[k].path)]
    } else {
        seq![]
    };
    let entry = seq![ReportLineView::Entry { line_num: fs[k].line_num, ws_count: fs[k].ws_count }];
    let tail = if verbose {
        seq![ReportLineView::Preview(fs[k].preview)]
    } else {
        seq![]
    };
    head + entry + tail
}

/// The report lines of the first `k` findings.
pub open spec fn report_upto(fs: Seq<FindingView>, verbose: bool, k: int) -> Seq<ReportLineView>
    decreases k,
{
    if k <= 0 {
        seq![]
    } else {
        report_upto(fs, verbose, k - 1) + lines_for(fs, verbose, k - 1)
    }
}

/// The distinct paths among the findings, in order of first arrival.
pub fn distinct_paths(findings: &Vec<Finding>) -> (r: Vec<String>)
    ensures
        r@.map_values(|s: String| s@) == first_paths(findings_view(findings@), findings@.len() as int),
{
    let ghost fs = findings_view(findings@);
    let mut out: Vec<String> = Vec::new();
    let mut i: usize = 0;
    while i < findings.len()
        invariant
            0 <= i <= findings@.len(),
            fs == findings_view(findings@),
            out@.map_values(|s: String| s@) == first_paths(fs, i as int),
        decreases findings@.len() - i,
    {
        let path = &findings[i].path;
        assert(fs[i as int].path == path@);
        let mut seen = false;
        let mut j: usize = 0;
        while j < out.len()
            invariant
                0 <= j <= out@.len(),
                seen <==> exists|q: int| 0 <= q < j && (#[trigger] out@[q])@ == path@,
            decreases out@.len() - j,
        {
            if out[j] == *path {
                seen = true;
            }
            j = j + 1;
        }
        let ghost prev = out@;
        proof {
            let pv = prev.map_values(|s: String| s@);
            if seen {
                let q = choose|q: int| 0 <= q < j && (#[trigger] out@[q])@ == path@;
                assert(pv[q] == path@);
            } else {
                assert forall|q: int| 0 <= q < pv.len() implies pv[q] != path@ by {
                    assert(out@[q]@ == pv[q]);
                }
            }
        }
        if !seen {
            out.push(path.clone());
            assert(out@.map_values(|s: String| s@) =~= prev.map_values(|s: String| s@).push(path@));
        }
        i = i + 1;
    }
    out
}

/// Plans the report: `Clean` when there is no finding; otherwise the
/// number of distinct affected files and, in arrival order, a header for
/// each finding that starts a new group of one path, an entry for each
/// finding and, in verbose mode, its preview.
pub fn plan_report(findings: &Vec<Finding>, verbose: bool) -> (r: Report)
    ensures
        findings@.len() == 0 <==> r is Clean,
        r matches Report::Found { file_count, lines } ==> {
            &&& file_count == first_paths(findings_view(findings@), findings@.len() as int).len()
            &&& lines_view(lines@) == report_upto(findings_view(findings@), verbose, findings@.len() as int)
        },
{
    if findings.len() == 0 {
        return Report::Clean;
    }
    let file_count = distinct_paths(findings).len();
    let ghost fs = findings_view(findings@);
    let mut lines: Vec<ReportLine> = Vec::new();
    let mut i: usize = 0;
    while i < findings.len()
        invariant
            0 <= i <= findings@.len(),
            fs == findings_view(findings@),
            lines_view(lines@) == report_upto(fs, verbose, i as int),
        decreases findings@.len() - i,
    {
        let ghost before = lines@;
        let f = &findings[i];
        assert(fs[i as int] == f@);
        let starts = if i == 0 {
            true
        } else {
            assert(fs[i - 1] == findings@[i - 1]@);
            findings[i - 1].path != f.path
        };
        if starts {
            lines.push(ReportLine::FileHeader(f.path.clone()));
        }
        lines.push(ReportLine::Entry { line_num: f.line_num, ws_count: f.ws_count });
        if verbose {
            lines.push(ReportLine::Preview(f.preview.clone()));
        }
        assert(lines_view(lines@) =~= lines_view(before) + lines_for(fs, verbose, i as int));
        i = i + 1;
    }
    Report::Found { file_count, lines }
}

/// The distinct-file list has no repeated path, and holds exactly the paths
/// that some finding carries; so its length is the number of distinct
/// affected files.
pub proof fn lemma_first_paths_distinct(fs: Seq<FindingView>, k: int)
    requires
        0 <= k <= fs.len(),
    ensures
        first_paths(fs, k).no_duplicates(),
        forall|p: Seq<char>| #[trigger] first_paths(fs, k).contains(p) <==> exists|j: int| 0 <= j < k && (#[trigger] fs[j]).path == p,
    decreases k,
{
    if k > 0 {
        lemma_first_paths_distinct(fs, k - 1);
        let prev = first_paths(fs, k - 1);
        let cur = first_paths(fs, k);
        assert forall|p: Seq<char>| #[trigger] cur.contains(p) <==> exists|j: int| 0 <= j < k && (#[trigger] fs[j]).path == p by {
            if cur.contains(p) && !prev.contains(p) {
                let q = choose|q: int| 0 <= q < cur.len() && cur[q] == p;
                assert(q == prev.len());
                assert(fs[k - 1].path == p);
            }
            if exists|j: int| 0 <= j < k && (#[trigger] fs[j]).path == p {
                let j = choose|j: int| 0 <= j < k && (#[trigger] fs[j]).path == p;
                if j == k - 1 && !prev.contains(p) {
                    assert(cur[prev.len() as int] == p);
                }
                if prev.contains(p) {
                    let q = choose|q: int| 0 <= q < prev.len() && prev[q] == p;
                    assert(cur[q] == p);
                }
            }
        }
    }
}

} // verus!
