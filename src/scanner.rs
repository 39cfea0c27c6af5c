//! The per-file scanner: which files are read, and the findings that the
//! decoded lines of one file give.

use crate::chars::{
    byte_offset, char_run, is_ws_char, lemma_boundary_offset, lemma_encode_concat, lemma_match_in_chars,
    ws_char_window,
};
use crate::pattern::{first_ws_run, WsPattern};
use vstd::prelude::*;
use vstd::string::{StringExecFns, StringSliceAdditionalSpecFns};
use vstd::utf8::{
    encode_scalar, encode_utf8, encode_utf8_decode_utf8, encode_utf8_valid_utf8, is_char_boundary,
    valid_utf8,
};

verus! {

/// Longest preview, in bytes, before the truncation marker.
pub const PREVIEW_LIMIT: usize = 120;

/// One detected run: the file, the 1-based line number, the length of the
/// run and a preview of the line.
#[derive(Debug, Clone)]
pub struct Finding {
    pub path: String,
    pub line_num: usize,
    pub ws_count: usize,
    pub preview: String,
}

/// A finding as values: the preview is given by its UTF-8 bytes.
pub struct FindingView {
    pub path: Seq<char>,
    pub line_num: nat,
    pub ws_count: nat,
    pub preview: Seq<u8>,
}

impl View for Finding {
    type V = FindingView;

    open spec fn view(&self) -> FindingView {
        FindingView {
            path: self.path@,
            line_num: self.line_num as nat,
            ws_count: self.ws_count as nat,
            preview: encode_utf8(self.preview@),
        }
    }
}

/// The largest character boundary of `b` at or below `k`.
pub open spec fn cut_point(b: Seq<u8>, k: int) -> int
    decreases k,
{
    if k <= 0 {
        0
    } else if is_char_boundary(b, k) {
        k
    } else {
        cut_point(b, k - 1)
    }
}

/// The bytes of the preview of a line with bytes `b`: the line itself when it
/// fits in the limit, else its longest prefix of whole characters within the
/// limit followed by `...`.
pub open spec fn preview_bytes(b: Seq<u8>) -> Seq<u8> {
    if b.len() > PREVIEW_LIMIT {
        b.subrange(0, cut_point(b, PREVIEW_LIMIT as int)) + seq![46u8, 46u8, 46u8]
    } else {
        b
    }
}

/// The UTF-8 bytes of a decoded line.
pub open spec fn line_bytes(line: Option<String>) -> Seq<u8> {
    encode_utf8(line->Some_0@)
}

/// The lines before `k` were all decoded.
pub open spec fn all_decoded(lines: Seq<Option<String>>, k: int) -> bool {
    forall|j: int| 0 <= j < k ==> #[trigger] lines[j] is Some
}

/// The finding that line index `k` gives with threshold `n`, if any.
pub open spec fn finding_at(path: Seq<char>, lines: Seq<Option<String>>, n: nat, k: int) -> Option<FindingView> {
    match first_ws_run(line_bytes(lines[k]), n) {
        None => None,
        Some(span) => Some(
            FindingView {
                path,
                line_num: (k + 1) as nat,
                ws_count: (span.1 - span.0) as nat,
                preview: preview_bytes(line_bytes(lines[k])),
            },
        ),
    }
}

/// The findings of the first `k` lines; a line that failed to decode ends
/// the scan, so nothing after it counts.
pub open spec fn scan_upto(path: Seq<char>, lines: Seq<Option<String>>, n: nat, k: int) -> Seq<FindingView>
    decreases k,
{
    if k <= 0 {
        seq![]
    } else {
        let prev = scan_upto(path, lines, n, k - 1);
        if !all_decoded(lines, k) {
            prev
        } else {
            match finding_at(path, lines, n, k - 1) {
                None => prev,
                Some(f) => prev.push(f),
            }
        }
    }
}

/// The findings of a whole file.
pub open spec fn scan_spec(path: Seq<char>, lines: Seq<Option<String>>, n: nat) -> Seq<FindingView> {
    scan_upto(path, lines, n, lines.len() as int)
}

/// Whether a file with this metadata is read at all: a regular file that is
/// neither empty nor larger than `max_size` bytes.
pub open spec fn scan_admits(is_file: bool, size: u64, max_size: u64) -> bool {
    is_file && 0 < size && size <= max_size
}

/// Decides from a path's metadata whether the file is read.
pub fn should_scan(is_file: bool, size: u64, max_size: u64) -> (r: bool)
    ensures
        r == scan_admits(is_file, size, max_size),
        size > max_size ==> !r,
        size == 0 ==> !r,
{
    is_file && size > 0 && size <= max_size
}

proof fn lemma_encode_dots()
    ensures
        encode_utf8(seq!['.', '.', '.']) == seq![46u8, 46u8, 46u8],
{
    let d = seq!['.', '.', '.'];
    assert((46u32 & 0x7Fu32) == 46u32) by (bit_vector);
    assert('.' as u32 == 46u32);
    assert(encode_scalar('.' as u32) == seq![46u8]);
    reveal_with_fuel(encode_utf8, 4);
    assert(d.drop_first() == seq!['.', '.']);
    assert(d.drop_first().drop_first() == seq!['.']);
    assert(d.drop_first().drop_first().drop_first() == Seq::<char>::empty());
}

/// The preview of a line: the line itself when it is at most
/// `PREVIEW_LIMIT` bytes long, else its longest prefix of whole characters
/// within that limit followed by `...`.
pub fn make_preview(line: &str) -> (p: String)
    ensures
        encode_utf8(p@) == preview_bytes(line.spec_bytes()),
{
    let total = line.as_bytes().len();
    if total > PREVIEW_LIMIT {
        let mut end: usize = PREVIEW_LIMIT;
        while !line.is_char_boundary(end)
            invariant
                0 <= end <= PREVIEW_LIMIT,
                cut_point(line.spec_bytes(), PREVIEW_LIMIT as int) == cut_point(line.spec_bytes(), end as int),
            decreases end,
        {
            assert(end > 0) by {
                encode_utf8_valid_utf8(line@);
                reveal_with_fuel(is_char_boundary, 1);
            }
            end = end - 1;
        }
        let (head, _) = line.split_at(end);
        let mut p = String::from_str(head);
        let dots = "...";
        proof {
            reveal_strlit("...");
            assert(dots@ == seq!['.', '.', '.']);
        }
        p.append(dots);
        proof {
            lemma_encode_concat(head@, dots@);
            lemma_encode_dots();
        }
        p
    } else {
        String::from_str(line)
    }
}

/// The view of each finding of `v`, in order.
pub open spec fn findings_view(v: Seq<Finding>) -> Seq<FindingView> {
    v.map_values(|f: Finding| f@)
}

proof fn lemma_scan_stops(path: Seq<char>, lines: Seq<Option<String>>, n: nat, i: int, k: int)
    requires
        0 <= i < k <= lines.len(),
        lines[i] is None,
    ensures
        scan_upto(path, lines, n, k) == scan_upto(path, lines, n, i),
    decreases k,
{
    assert(!all_decoded(lines, k));
    if k > i + 1 {
        lemma_scan_stops(path, lines, n, i, k - 1);
    }
}

/// The findings of one file, given its lines in order; `None` stands for a
/// line that could not be decoded as text, which ends the scan of the file.
pub fn scan_lines(pattern: &WsPattern, path: &String, lines: &Vec<Option<String>>) -> (r: Vec<Finding>)
    requires
        pattern.wf(),
    ensures
        findings_view(r@) == scan_spec(path@, lines@, pattern.spec_min()),
{
    let ghost n = pattern.spec_min();
    let mut out: Vec<Finding> = Vec::new();
    let mut i: usize = 0;
    while i < lines.len() && lines[i].is_some()
        invariant
            0 <= i <= lines.len(),
            pattern.wf(),
            n == pattern.spec_min(),
            all_decoded(lines@, i as int),
            findings_view(out@) == scan_upto(path@, lines@, n, i as int),
        decreases lines.len() - i,
    {
        let ghost before = out@;
        assert(all_decoded(lines@, i + 1));
        match &lines[i] {
            Some(line) => {
                let text: &str = line.as_str();
                assert(text.spec_bytes() == line_bytes(lines@[i as int]));
                match pattern.find(text) {
                    Some(m) => {
                        let f = Finding {
                            path: path.clone(),
                            line_num: i + 1,
                            ws_count: m.len,
                            preview: make_preview(text),
                        };
                        out.push(f);
                        assert(findings_view(out@) =~= findings_view(before).push(f@));
                    },
                    None => {},
                }
            },
            None => {},
        }
        i = i + 1;
    }
    proof {
        if i < lines.len() {
            lemma_scan_stops(path@, lines@, n, i as int, lines.len() as int);
        }
    }
    out
}

proof fn lemma_cut_point(b: Seq<u8>, k: int)
    requires
        valid_utf8(b),
    ensures
        0 <= cut_point(b, k),
        k >= 0 ==> cut_point(b, k) <= k,
        is_char_boundary(b, cut_point(b, k)),
    decreases k,
{
    reveal_with_fuel(is_char_boundary, 1);
    if k > 0 && !is_char_boundary(b, k) {
        lemma_cut_point(b, k - 1);
    }
}

proof fn lemma_encode_len(a: Seq<char>)
    ensures
        encode_utf8(a).len() >= a.len(),
    decreases a.len(),
{
    if a.len() > 0 {
        lemma_encode_len(a.drop_first());
    }
}

/// Truncation law: a preview holds at most `PREVIEW_LIMIT + 3` characters;
/// a line longer than the limit is cut at a character boundary within the
/// limit and gets the three-character marker `...`.
pub proof fn lemma_preview_truncation(line: Seq<char>, preview: Seq<char>)
    requires
        encode_utf8(preview) == preview_bytes(encode_utf8(line)),
    ensures
        preview.len() <= PREVIEW_LIMIT + 3,
        encode_utf8(preview).len() <= PREVIEW_LIMIT + 3,
        encode_utf8(line).len() <= PREVIEW_LIMIT ==> preview == line,
        encode_utf8(line).len() > PREVIEW_LIMIT ==> {
            let cut = cut_point(encode_utf8(line), PREVIEW_LIMIT as int);
            &&& 0 <= cut <= PREVIEW_LIMIT
            &&& is_char_boundary(encode_utf8(line), cut)
            &&& encode_utf8(preview) == encode_utf8(line).subrange(0, cut) + seq![46u8, 46u8, 46u8]
        },
{
    let b = encode_utf8(line);
    encode_utf8_valid_utf8(line);
    lemma_cut_point(b, PREVIEW_LIMIT as int);
    lemma_encode_len(preview);
    if b.len() <= PREVIEW_LIMIT {
        encode_utf8_decode_utf8(line);
        encode_utf8_decode_utf8(preview);
    }
}

proof fn lemma_scan_upto_shape(path: Seq<char>, lines: Seq<Option<String>>, n: nat, k: int)
    requires
        0 <= k <= lines.len(),
    ensures
        forall|a: int| 0 <= a < scan_upto(path, lines, n, k).len() ==> {
            let f = #[trigger] scan_upto(path, lines, n, k)[a];
            &&& 1 <= f.line_num <= k
            &&& f.path == path
        },
        forall|a: int, c: int|
            0 <= a < c < scan_upto(path, lines, n, k).len() ==> #[trigger] scan_upto(path, lines, n, k)[a].line_num
                < #[trigger] scan_upto(path, lines, n, k)[c].line_num,
    decreases k,
{
    if k > 0 {
        lemma_scan_upto_shape(path, lines, n, k - 1);
        let prev = scan_upto(path, lines, n, k - 1);
        let cur = scan_upto(path, lines, n, k);
        if all_decoded(lines, k) {
            if let Some(f) = finding_at(path, lines, n, k - 1) {
                assert(cur == prev.push(f));
                assert(f.line_num == k);
                assert forall|a: int| 0 <= a < prev.len() implies #[trigger] cur[a] == prev[a] by {}
            }
        }
    }
}

/// Order law: the findings of one file come in strictly increasing line
/// order, each with a line number between 1 and the number of lines, and
/// each carries the file's path.
pub proof fn lemma_scan_line_order(path: Seq<char>, lines: Seq<Option<String>>, n: nat)
    ensures
        forall|a: int| 0 <= a < scan_spec(path, lines, n).len() ==> {
            let f = #[trigger] scan_spec(path, lines, n)[a];
            &&& 1 <= f.line_num <= lines.len()
            &&& f.path == path
        },
        forall|a: int, c: int|
            0 <= a < c < scan_spec(path, lines, n).len() ==> #[trigger] scan_spec(path, lines, n)[a].line_num
                < #[trigger] scan_spec(path, lines, n)[c].line_num,
{
    lemma_scan_upto_shape(path, lines, n, lines.len() as int);
}

proof fn lemma_scan_upto_clean(path: Seq<char>, lines: Seq<Option<String>>, n: nat, k: int)
    requires
        0 <= k <= lines.len(),
        forall|j: int| 0 <= j < lines.len() && #[trigger] all_decoded(lines, j + 1) ==> first_ws_run(line_bytes(lines[j]), n) is None,
    ensures
        scan_upto(path, lines, n, k).len() == 0,
    decreases k,
{
    if k > 0 {
        lemma_scan_upto_clean(path, lines, n, k - 1);
    }
}

/// A file none of whose lines, up to the first one that failed to decode,
/// holds `n` or more consecutive space or tab characters gives no finding.
pub proof fn lemma_clean_file_no_findings(path: Seq<char>, lines: Seq<Option<String>>, n: nat)
    requires
        n >= 1,
        forall|j: int, i: int| 0 <= j < lines.len() && all_decoded(lines, j + 1) ==> !#[trigger] ws_char_window(lines[j]->Some_0@, i, n),
    ensures
        scan_spec(path, lines, n).len() == 0,
{
    assert forall|j: int| 0 <= j < lines.len() && #[trigger] all_decoded(lines, j + 1) implies first_ws_run(line_bytes(lines[j]), n) is None by {
        lemma_match_in_chars(lines[j]->Some_0@, n);
    }
    lemma_scan_upto_clean(path, lines, n, lines.len() as int);
}

/// An empty file gives no finding: it is not read at all, and a file with
/// no lines has nothing to report.
pub proof fn lemma_empty_file_no_findings(path: Seq<char>, n: nat, is_file: bool, max_size: u64)
    ensures
        !scan_admits(is_file, 0, max_size),
        scan_spec(path, Seq::<Option<String>>::empty(), n).len() == 0,
{
}

/// Truncation law in characters: a preview holds at most
/// `PREVIEW_LIMIT + 3` characters; a line of at most `PREVIEW_LIMIT` bytes is
/// its own preview; a longer line's preview is a prefix of its characters,
/// ending at a character boundary within `PREVIEW_LIMIT` bytes and so of at
/// most `PREVIEW_LIMIT` characters, followed by `...`.
pub proof fn lemma_preview_in_chars(line: Seq<char>, preview: Seq<char>)
    requires
        encode_utf8(preview) == preview_bytes(encode_utf8(line)),
    ensures
        preview.len() <= PREVIEW_LIMIT + 3,
        encode_utf8(line).len() <= PREVIEW_LIMIT ==> preview == line,
        encode_utf8(line).len() > PREVIEW_LIMIT ==> exists|i: int|
            0 <= i <= PREVIEW_LIMIT && i < line.len() && byte_offset(line, i) <= PREVIEW_LIMIT
                && preview == line.subrange(0, i) + seq!['.', '.', '.'],
{
    lemma_preview_truncation(line, preview);
    let b = encode_utf8(line);
    if b.len() > PREVIEW_LIMIT {
        let cut = cut_point(b, PREVIEW_LIMIT as int);
        lemma_boundary_offset(line, cut);
        let i = choose|i: int| 0 <= i <= line.len() && byte_offset(line, i) == cut;
        let head = line.subrange(0, i);
        assert(line == head + line.subrange(i, line.len() as int));
        lemma_encode_concat(head, line.subrange(i, line.len() as int));
        assert(b.subrange(0, cut) == encode_utf8(head));
        lemma_encode_len(head);
        assert(line.subrange(0, line.len() as int) == line);
        let dots = seq!['.', '.', '.'];
        lemma_encode_dots();
        lemma_encode_concat(head, dots);
        encode_utf8_decode_utf8(preview);
        encode_utf8_decode_utf8(head + dots);
        assert(preview == head + dots);
    }
}

/// A decoded line gives a finding iff its characters hold `n` consecutive
/// spaces or tabs; the finding's count is the number of characters in the
/// first maximal such run, and its line number is the line's 1-based index.
pub proof fn lemma_finding_in_chars(path: Seq<char>, lines: Seq<Option<String>>, n: nat, k: int)
    requires
        n >= 1,
        0 <= k < lines.len(),
        lines[k] is Some,
    ensures
        finding_at(path, lines, n, k) is Some <==> exists|i: int| ws_char_window(lines[k]->Some_0@, i, n),
        finding_at(path, lines, n, k) matches Some(f) ==> {
            let cs = lines[k]->Some_0@;
            &&& f.line_num == k + 1
            &&& exists|i: int|
                0 <= i < cs.len() && {
                    &&& f.ws_count == char_run(cs, i)
                    &&& ws_char_window(cs, i, n)
                    &&& i == 0 || !is_ws_char(cs[i - 1])
                    &&& forall|j: int| 0 <= j < i ==> !ws_char_window(cs, j, n)
                }
        },
{
    lemma_match_in_chars(lines[k]->Some_0@, n);
}

} // verus!
