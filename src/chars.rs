//! The matcher's law in characters: a line's UTF-8 bytes hold a run of `n`
//! space or tab bytes exactly where its characters hold `n` space or tab
//! characters, and the first such run has the same start and length in both.

use crate::pattern::{first_ws_run, is_ws, lemma_first_run_from_shape, ws_run};
use vstd::prelude::*;
use vstd::utf8::{
    char_is_scalar, encode_scalar, encode_utf8, encode_utf8_first_scalar, encode_utf8_valid_utf8, is_char_boundary,
    pop_first_scalar,
};

verus! {

/// A space or a horizontal tab.
pub open spec fn is_ws_char(c: char) -> bool {
    c == ' ' || c == '\t'
}

/// Length of the run of whitespace characters that starts at index `i`.
pub open spec fn char_run(cs: Seq<char>, i: int) -> nat
    decreases cs.len() - i,
{
    if i < 0 || i >= cs.len() || !is_ws_char(cs[i]) {
        0
    } else {
        1 + char_run(cs, i + 1)
    }
}

/// `cs` holds `n` consecutive whitespace characters starting at `i`.
pub open spec fn ws_char_window(cs: Seq<char>, i: int, n: nat) -> bool {
    &&& 0 <= i
    &&& i + n <= cs.len()
    &&& forall|k: int| i <= k < i + n ==> is_ws_char(#[trigger] cs[k])
}

/// The byte offset of character `i` in the UTF-8 encoding of `cs`.
pub open spec fn byte_offset(cs: Seq<char>, i: int) -> int {
    encode_utf8(cs.subrange(0, i)).len() as int
}

/// The encoding of a sequence is the encodings of its parts, joined.
pub proof fn lemma_encode_concat(a: Seq<char>, b: Seq<char>)
    ensures
        encode_utf8(a + b) == encode_utf8(a) + encode_utf8(b),
    decreases a.len(),
{
    if a.len() > 0 {
        assert((a + b).drop_first() == a.drop_first() + b);
        lemma_encode_concat(a.drop_first(), b);
        assert(encode_utf8(a + b) == encode_scalar(a[0] as u32) + encode_utf8(a.drop_first() + b));
    } else {
        assert(a + b == b);
    }
}

proof fn lemma_scalar_bytes(c: char)
    ensures
        encode_scalar(c as u32).len() >= 1,
        is_ws(encode_scalar(c as u32)[0]) <==> is_ws_char(c),
        is_ws_char(c) ==> encode_scalar(c as u32).len() == 1,
        forall|k: int| 1 <= k < encode_scalar(c as u32).len() ==> !is_ws(#[trigger] encode_scalar(c as u32)[k]),
{
    char_is_scalar(c);
    let u = c as u32;
    assert(forall|x: u8| #[trigger] (0x80u8 | x) >= 0x80u8) by (bit_vector);
    assert(forall|x: u8| #[trigger] (0xC0u8 | x) >= 0x80u8) by (bit_vector);
    assert(forall|x: u8| #[trigger] (0xE0u8 | x) >= 0x80u8) by (bit_vector);
    assert(forall|x: u8| #[trigger] (0xF0u8 | x) >= 0x80u8) by (bit_vector);
    if u <= 0x7F {
        assert((u & 0x7Fu32) == u) by (bit_vector)
            requires
                u <= 0x7Fu32,
        ;
        assert(' ' as u32 == 32u32);
        assert('\t' as u32 == 9u32);
    }
}

proof fn lemma_offset_step(cs: Seq<char>, i: int)
    requires
        0 <= i < cs.len(),
    ensures
        byte_offset(cs, i + 1) == byte_offset(cs, i) + encode_scalar(cs[i] as u32).len(),
        encode_utf8(cs) == encode_utf8(cs.subrange(0, i)) + encode_scalar(cs[i] as u32) + encode_utf8(cs.subrange(i + 1, cs.len() as int)),
{
    let one = seq![cs[i]];
    reveal_with_fuel(encode_utf8, 2);
    assert(one.drop_first() == Seq::<char>::empty());
    assert(encode_utf8(one) == encode_scalar(cs[i] as u32));
    assert(cs.subrange(0, i + 1) == cs.subrange(0, i) + one);
    lemma_encode_concat(cs.subrange(0, i), one);
    assert(cs == cs.subrange(0, i + 1) + cs.subrange(i + 1, cs.len() as int));
    lemma_encode_concat(cs.subrange(0, i + 1), cs.subrange(i + 1, cs.len() as int));
}

proof fn lemma_offset_bounds(cs: Seq<char>, i: int, j: int)
    requires
        0 <= i < j <= cs.len(),
    ensures
        byte_offset(cs, i) < byte_offset(cs, j) <= encode_utf8(cs).len(),
    decreases j - i,
{
    lemma_scalar_bytes(cs[j - 1]);
    lemma_offset_step(cs, j - 1);
    if i < j - 1 {
        lemma_offset_bounds(cs, i, j - 1);
    }
    assert(cs.subrange(0, cs.len() as int) == cs);
    if j < cs.len() {
        lemma_offset_step(cs, j);
    }
}

/// At the byte offset of a character, the byte run has the character run's length.
proof fn lemma_run_at_char(cs: Seq<char>, i: int)
    requires
        0 <= i <= cs.len(),
    ensures
        ws_run(encode_utf8(cs), byte_offset(cs, i)) == char_run(cs, i),
    decreases cs.len() - i,
{
    let b = encode_utf8(cs);
    if i == cs.len() {
        assert(cs.subrange(0, i) == cs);
    } else {
        lemma_offset_step(cs, i);
        lemma_scalar_bytes(cs[i]);
        let o = byte_offset(cs, i);
        let e = encode_scalar(cs[i] as u32);
        assert(b[o] == e[0]);
        if is_ws_char(cs[i]) {
            lemma_run_at_char(cs, i + 1);
        }
    }
}

/// Every byte that is not at a character's offset is not whitespace.
proof fn lemma_inner_bytes(cs: Seq<char>, k: int)
    requires
        0 <= k <= cs.len(),
    ensures
        forall|p: int|
            0 <= p < byte_offset(cs, k) && is_ws(#[trigger] encode_utf8(cs)[p]) ==> exists|i: int|
                0 <= i < k && byte_offset(cs, i) == p,
    decreases k,
{
    if k > 0 {
        lemma_inner_bytes(cs, k - 1);
        lemma_offset_step(cs, k - 1);
        lemma_scalar_bytes(cs[k - 1]);
        let b = encode_utf8(cs);
        let o = byte_offset(cs, k - 1);
        let e = encode_scalar(cs[k - 1] as u32);
        assert forall|p: int| 0 <= p < byte_offset(cs, k) && is_ws(#[trigger] b[p]) implies exists|i: int|
            0 <= i < k && byte_offset(cs, i) == p by {
            if p >= o {
                if p > o {
                    assert(b[p] == e[p - o]);
                }
                assert(byte_offset(cs, k - 1) == p);
            } else {
                let i = choose|i: int| 0 <= i < k - 1 && byte_offset(cs, i) == p;
                assert(byte_offset(cs, i) == p);
            }
        }
    }
}

proof fn lemma_char_run_window(cs: Seq<char>, i: int, k: nat)
    requires
        0 <= i <= cs.len(),
    ensures
        char_run(cs, i) >= k <==> ws_char_window(cs, i, k),
    decreases k,
{
    if k > 0 && i < cs.len() {
        lemma_char_run_window(cs, i + 1, (k - 1) as nat);
        if ws_char_window(cs, i, k) {
            assert(is_ws_char(cs[i]));
            assert(ws_char_window(cs, i + 1, (k - 1) as nat)) by {
                assert forall|j: int| i + 1 <= j < i + 1 + (k - 1) implies is_ws_char(#[trigger] cs[j]) by {
                    assert(i <= j < i + k);
                }
            }
        }
        if char_run(cs, i) >= k {
            assert forall|j: int| i <= j < i + k implies is_ws_char(#[trigger] cs[j]) by {
                if j > i {
                    assert(ws_char_window(cs, i + 1, (k - 1) as nat));
                }
            }
            lemma_char_run_bound(cs, i);
        }
    }
}

proof fn lemma_char_run_bound(cs: Seq<char>, i: int)
    requires
        0 <= i <= cs.len(),
    ensures
        i + char_run(cs, i) <= cs.len(),
        i + char_run(cs, i) == cs.len() || !is_ws_char(cs[i + char_run(cs, i)]),
    decreases cs.len() - i,
{
    if i < cs.len() && is_ws_char(cs[i]) {
        lemma_char_run_bound(cs, i + 1);
    }
}

/// The matcher's law in characters: the bytes of a line hold a match iff the
/// line holds `n` consecutive spaces or tabs; the match starts at the byte
/// offset of the first character where such a run begins, that character
/// begins a maximal run, and the match's length is the number of characters
/// in that whole run.
pub proof fn lemma_match_in_chars(cs: Seq<char>, n: nat)
    requires
        n >= 1,
    ensures
        first_ws_run(encode_utf8(cs), n) is Some <==> exists|i: int| ws_char_window(cs, i, n),
        first_ws_run(encode_utf8(cs), n) matches Some(span) ==> exists|i: int|
            0 <= i < cs.len() && byte_offset(cs, i) == span.0 && {
                &&& span.1 - span.0 == char_run(cs, i)
                &&& ws_char_window(cs, i, n)
                &&& i + char_run(cs, i) == cs.len() || !is_ws_char(cs[i + char_run(cs, i)])
                &&& i == 0 || !is_ws_char(cs[i - 1])
                &&& forall|j: int| 0 <= j < i ==> !ws_char_window(cs, j, n)
            },
{
    let b = encode_utf8(cs);
    lemma_first_run_from_shape(b, n, 0);
    lemma_inner_bytes(cs, cs.len() as int);
    assert(cs.subrange(0, cs.len() as int) == cs);
    assert forall|i: int| 0 <= i <= cs.len() implies ws_run(b, #[trigger] byte_offset(cs, i)) == char_run(cs, i) by {
        lemma_run_at_char(cs, i);
    }
    match first_ws_run(b, n) {
        None => {
            assert forall|i: int| !ws_char_window(cs, i, n) by {
                if 0 <= i <= cs.len() {
                    lemma_char_run_window(cs, i, n);
                    if i < cs.len() {
                        lemma_offset_bounds(cs, i, cs.len() as int);
                    }
                }
            }
        },
        Some(span) => {
            assert(is_ws(b[span.0]));
            let i = choose|i: int| 0 <= i < cs.len() && byte_offset(cs, i) == span.0;
            lemma_char_run_window(cs, i, n);
            lemma_char_run_bound(cs, i);
            assert forall|j: int| 0 <= j < i implies !ws_char_window(cs, j, n) by {
                lemma_offset_bounds(cs, j, i);
                lemma_char_run_window(cs, j, n);
            }
            if i > 0 && is_ws_char(cs[i - 1]) {
                assert(char_run(cs, i - 1) == 1 + char_run(cs, i));
                lemma_char_run_window(cs, i - 1, n);
            }
            assert(ws_char_window(cs, i, n));
        },
    }
}

/// A character boundary of the encoding of `cs` is the byte offset of one
/// of its characters, or its end.
pub proof fn lemma_boundary_offset(cs: Seq<char>, idx: int)
    requires
        is_char_boundary(encode_utf8(cs), idx),
    ensures
        exists|i: int| 0 <= i <= cs.len() && byte_offset(cs, i) == idx,
    decreases cs.len(),
{
    if idx == 0 {
        assert(cs.subrange(0, 0) == Seq::<char>::empty());
        assert(byte_offset(cs, 0) == 0);
    } else if cs.len() == 0 {
        encode_utf8_valid_utf8(cs);
        reveal_with_fuel(is_char_boundary, 1);
        assert(encode_utf8(cs).len() == 0);
    } else {
        let b = encode_utf8(cs);
        let rest = cs.drop_first();
        encode_utf8_valid_utf8(cs);
        encode_utf8_valid_utf8(rest);
        encode_utf8_first_scalar(cs);
        reveal_with_fuel(is_char_boundary, 1);
        let w = encode_scalar(cs[0] as u32).len() as int;
        assert(pop_first_scalar(b) =~= encode_utf8(rest));
        lemma_boundary_offset(rest, idx - w);
        let i = choose|i: int| 0 <= i <= rest.len() && byte_offset(rest, i) == idx - w;
        let pre = cs.subrange(0, i + 1);
        assert(pre.drop_first() == rest.subrange(0, i));
        assert(encode_utf8(pre) == encode_scalar(pre[0] as u32) + encode_utf8(pre.drop_first()));
        assert(byte_offset(cs, i + 1) == idx);
    }
}

} // verus!
