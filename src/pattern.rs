//! The whitespace-run matcher: the first maximal run of spaces and tabs of
//! at least a given length in a line.

use regex::Regex;
use vstd::prelude::*;
use vstd::string::{StringExecFns, StringSliceAdditionalSpecFns};

verus! {

/// A byte that the matcher counts as whitespace: a space or a horizontal tab.
/// Both are single-byte characters in UTF-8, so a run measured in bytes has
/// the same length in characters.
pub open spec fn is_ws(b: u8) -> bool {
    b == 32u8 || b == 9u8
}

/// Length of the run of whitespace bytes that starts at index `i` of `s`.
pub open spec fn ws_run(s: Seq<u8>, i: int) -> nat
    decreases s.len() - i,
{
    if i < 0 || i >= s.len() || !is_ws(s[i]) {
        0
    } else {
        1 + ws_run(s, i + 1)
    }
}

/// The first index at or after `i` where a whitespace run of at least `n`
/// bytes starts, with the end of that run.
pub open spec fn first_run_from(s: Seq<u8>, n: nat, i: int) -> Option<(int, int)>
    decreases s.len() - i,
{
    if i < 0 || i >= s.len() {
        None
    } else if ws_run(s, i) >= n {
        Some((i, i + ws_run(s, i)))
    } else {
        first_run_from(s, n, i + 1)
    }
}

/// The byte span of the first whitespace run of at least `n` bytes in `s`.
pub open spec fn first_ws_run(s: Seq<u8>, n: nat) -> Option<(int, int)> {
    first_run_from(s, n, 0)
}

/// `s` holds `n` consecutive whitespace bytes starting at `i`.
pub open spec fn ws_window(s: Seq<u8>, i: int, n: nat) -> bool {
    &&& 0 <= i
    &&& i + n <= s.len()
    &&& forall|k: int| i <= k < i + n ==> is_ws(#[trigger] s[k])
}

#[verifier::external_type_specification]
#[verifier::external_body]
pub struct ExRegex(regex::Regex);

#[verifier::external_type_specification]
#[verifier::external_body]
pub struct ExRegexError(regex::Error);

/// Why a matcher could not be built.
#[derive(Debug, Clone, Copy, PartialEq, Eq)]
pub enum PatternError {
    /// The minimum run length was zero.
    ZeroThreshold,
    /// The regex engine refused the pattern (for instance, over its size limit).
    Rejected,
}

/// A matched run: its first byte offset in the line and its length.
#[derive(Debug, Clone, Copy, PartialEq, Eq)]
pub struct RunMatch {
    pub start: usize,
    pub len: usize,
}

/// A compiled matcher for runs of at least `min` spaces or tabs.
/// Values are only built by `WsPattern::new`, which compiles `re` from
/// `ws_pattern_text(min)`.
pub struct WsPattern {
    re: Regex,
    min: usize,
}

/// The decimal digit character for `d < 10`.
pub open spec fn digit_char(d: nat) -> char {
    if d == 0 {
        '0'
    } else if d == 1 {
        '1'
    } else if d == 2 {
        '2'
    } else if d == 3 {
        '3'
    } else if d == 4 {
        '4'
    } else if d == 5 {
        '5'
    } else if d == 6 {
        '6'
    } else if d == 7 {
        '7'
    } else if d == 8 {
        '8'
    } else {
        '9'
    }
}

/// The decimal digits of `n`, without leading zeros.
pub open spec fn decimal(n: nat) -> Seq<char>
    decreases n,
{
    if n < 10 {
        seq![digit_char(n)]
    } else {
        decimal(n / 10) + seq![digit_char(n % 10)]
    }
}

/// The regex source for a run of at least `min` spaces or tabs: the class
/// `[ \t]` repeated `{min,}` times.
pub open spec fn ws_pattern_text(min: nat) -> Seq<char> {
    "[ \\t]{"@ + decimal(min) + ",}"@
}

/// The one-character text of a decimal digit.
fn digit_text(d: usize) -> (r: &'static str)
    requires
        d < 10,
    ensures
        r@ == seq![digit_char(d as nat)],
{
    proof {
        reveal_strlit("0");
        reveal_strlit("1");
        reveal_strlit("2");
        reveal_strlit("3");
        reveal_strlit("4");
        reveal_strlit("5");
        reveal_strlit("6");
        reveal_strlit("7");
        reveal_strlit("8");
        reveal_strlit("9");
    }
    match d {
        0 => "0",
        1 => "1",
        2 => "2",
        3 => "3",
        4 => "4",
        5 => "5",
        6 => "6",
        7 => "7",
        8 => "8",
        _ => "9",
    }
}

/// Appends the decimal digits of `n` to `s`.
fn append_decimal(s: &mut String, n: usize)
    ensures
        final(s)@ == old(s)@ + decimal(n as nat),
    decreases n,
{
    if n >= 10 {
        append_decimal(s, n / 10);
    }
    s.append(digit_text(n % 10));
    assert(final(s)@ =~= old(s)@ + decimal(n as nat));
}

/// The regex source for runs of at least `min` spaces or tabs.
pub fn ws_pattern_source(min: usize) -> (r: String)
    ensures
        r@ == ws_pattern_text(min as nat),
{
    let mut s = String::from_str("[ \\t]{");
    append_decimal(&mut s, min);
    s.append(",}");
    assert(s@ =~= ws_pattern_text(min as nat));
    s
}

/// Whether the regex engine, with its default settings and size limit,
/// compiles the pattern text `pat`: a function of the text alone.
pub uninterp spec fn regex_accepts(pat: Seq<char>) -> bool;

/// Relies on regex::Regex::new: it returns an error only for an invalid
/// pattern or one over the fixed default size limit, so whether it succeeds
/// depends on the pattern text alone.
#[verifier::external_body]
fn compile_regex(pat: &str) -> (r: Result<Regex, regex::Error>)
    ensures
        r is Ok <==> regex_accepts(pat@),
{
    Regex::new(pat)
}

/// Relies on regex::Regex::find on the regex that `p.re` was compiled from,
/// `ws_pattern_text(p.spec_min())`, that is `[ \t]{min,}`: the leftmost
/// match, extended greedily, as byte offsets.
/// The leftmost start with `min` whitespace bytes after it is the start of a
/// maximal run, and greedy repetition takes that run to its end.
#[verifier::external_body]
fn regex_find_run(p: &WsPattern, line: &str) -> (r: Option<(usize, usize)>)
    requires
        p.wf(),
    ensures
        match first_ws_run(line.spec_bytes(), p.spec_min()) {
            None => r is None,
            Some(span) => r matches Some(m) && m.0 == span.0 && m.1 == span.1,
        },
{
    p.re.find(line).map(|m| (m.start(), m.end()))
}

impl WsPattern {
    /// A matcher looks for runs of at least one byte.
    pub closed spec fn wf(&self) -> bool {
        self.min >= 1
    }

    /// The minimum run length.
    pub closed spec fn spec_min(&self) -> nat {
        self.min as nat
    }

    /// Builds a matcher for runs of at least `min` whitespace characters.
    pub fn new(min: usize) -> (r: Result<WsPattern, PatternError>)
        ensures
            min == 0 <==> r == Err::<WsPattern, PatternError>(PatternError::ZeroThreshold),
            min >= 1 ==> (r is Ok <==> regex_accepts(ws_pattern_text(min as nat))),
            r is Ok ==> r->Ok_0.wf() && r->Ok_0.spec_min() == min as nat,
    {
        if min == 0 {
            return Err(PatternError::ZeroThreshold);
        }
        let source = ws_pattern_source(min);
        match compile_regex(source.as_str()) {
            Ok(re) => Ok(WsPattern { re, min }),
            Err(_) => Err(PatternError::Rejected),
        }
    }

    /// The minimum run length this matcher reports.
    pub fn min_run(&self) -> (r: usize)
        ensures
            r as nat == self.spec_min(),
    {
        self.min
    }

    /// The first maximal run of at least `min` spaces or tabs in `line`.
    pub fn find(&self, line: &str) -> (r: Option<RunMatch>)
        requires
            self.wf(),
        ensures
            match first_ws_run(line.spec_bytes(), self.spec_min()) {
                None => r is None,
                Some(span) => r matches Some(m) && m.start == span.0 && m.len == span.1 - span.0,
            },
    {
        proof {
            lemma_first_run_from_shape(line.spec_bytes(), self.min as nat, 0);
        }
        match regex_find_run(self, line) {
            None => None,
            Some((a, b)) => Some(RunMatch { start: a, len: b - a }),
        }
    }
}

/// A well-formed matcher has a minimum of at least one.
pub proof fn lemma_wf_min(p: &WsPattern)
    requires
        p.wf(),
    ensures
        p.spec_min() >= 1,
{
}

/// The run length from `i` stays inside `s`.
pub proof fn lemma_ws_run_bound(s: Seq<u8>, i: int)
    requires
        0 <= i <= s.len(),
    ensures
        i + ws_run(s, i) <= s.len(),
    decreases s.len() - i,
{
    if i < s.len() && is_ws(s[i]) {
        lemma_ws_run_bound(s, i + 1);
    }
}

/// A run of at least `k` bytes from `i` is exactly a window of `k` whitespace bytes.
pub proof fn lemma_ws_run_window(s: Seq<u8>, i: int, k: nat)
    requires
        0 <= i <= s.len(),
    ensures
        ws_run(s, i) >= k <==> ws_window(s, i, k),
    decreases k,
{
    if k > 0 && i < s.len() {
        lemma_ws_run_window(s, i + 1, (k - 1) as nat);
        if ws_window(s, i, k) {
            assert(is_ws(s[i]));
            assert(ws_window(s, i + 1, (k - 1) as nat)) by {
                assert forall|j: int| i + 1 <= j < i + 1 + (k - 1) implies is_ws(#[trigger] s[j]) by {
                    assert(i <= j < i + k);
                }
            }
        }
        if ws_run(s, i) >= k {
            assert forall|j: int| i <= j < i + k implies is_ws(#[trigger] s[j]) by {
                if j > i {
                    assert(ws_window(s, i + 1, (k - 1) as nat));
                }
            }
            lemma_ws_run_bound(s, i);
        }
    }
}

/// What `first_run_from` returns: a span inside `s`, starting at a run of at
/// least `n`, ending where that run ends, with no such run before it.
pub proof fn lemma_first_run_from_shape(s: Seq<u8>, n: nat, i: int)
    requires
        0 <= i,
        n >= 1,
    ensures
        match first_run_from(s, n, i) {
            None => forall|j: int| i <= j < s.len() ==> ws_run(s, j) < n,
            Some(span) => {
                &&& i <= span.0 < span.1 <= s.len()
                &&& span.1 == span.0 + ws_run(s, span.0)
                &&& ws_run(s, span.0) >= n
                &&& forall|j: int| i <= j < span.0 ==> ws_run(s, j) < n
            },
        },
    decreases s.len() - i,
{
    if 0 <= i < s.len() {
        lemma_ws_run_bound(s, i);
        if ws_run(s, i) < n {
            lemma_first_run_from_shape(s, n, i + 1);
        }
    }
}

/// The matcher's law: a line has a match iff it holds `n` consecutive spaces
/// or tabs somewhere; a match starts at the earliest such place, which begins
/// a maximal run, and its length is the whole length of that run.
pub proof fn lemma_match_iff_run(s: Seq<u8>, n: nat)
    requires
        n >= 1,
    ensures
        first_ws_run(s, n) is Some <==> exists|i: int| ws_window(s, i, n),
        first_ws_run(s, n) matches Some(span) ==> {
            &&& ws_window(s, span.0, n)
            &&& span.1 - span.0 == ws_run(s, span.0)
            &&& span.1 == s.len() || !is_ws(s[span.1])
            &&& span.0 == 0 || !is_ws(s[span.0 - 1])
            &&& forall|j: int| 0 <= j < span.0 ==> !ws_window(s, j, n)
        },
{
    lemma_first_run_from_shape(s, n, 0);
    match first_ws_run(s, n) {
        None => {
            assert forall|i: int| !ws_window(s, i, n) by {
                if 0 <= i <= s.len() {
                    lemma_ws_run_window(s, i, n);
                }
            }
        },
        Some(span) => {
            lemma_ws_run_window(s, span.0, n);
            assert forall|j: int| 0 <= j < span.0 implies !ws_window(s, j, n) by {
                lemma_ws_run_window(s, j, n);
            }
            lemma_ws_run_end(s, span.0);
            if span.0 > 0 && is_ws(s[span.0 - 1]) {
                assert(ws_run(s, span.0 - 1) == 1 + ws_run(s, span.0));
            }
        },
    }
}

/// The run from `i` ends at the end of `s` or at a byte that is not whitespace.
pub proof fn lemma_ws_run_end(s: Seq<u8>, i: int)
    requires
        0 <= i <= s.len(),
    ensures
        i + ws_run(s, i) == s.len() || !is_ws(s[i + ws_run(s, i)]),
    decreases s.len() - i,
{
    if i < s.len() && is_ws(s[i]) {
        lemma_ws_run_end(s, i + 1);
    }
}

} // verus!
