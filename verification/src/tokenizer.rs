//! Splitting an input line into normalized lowercase word tokens.
//!
//! A boundary falls immediately before a byte `right` whenever the adjacent
//! pair `(left, right)` is a camelCase transition or `right` starts a run of
//! terminators.  The line is partitioned at all boundaries and each raw
//! segment is normalized: whitespace trimmed at both ends, terminators
//! removed, letters lowercased.

use vstd::prelude::*;

use crate::chars::is_terminator_byte;
use crate::chars::is_whitespace_byte;
use crate::chars::should_split_at;
use crate::chars::to_lower_byte;
use crate::chars::is_terminator;
use crate::chars::should_split;

verus! {

/// Rejection of one input line; the only cause is a non-ASCII byte.
#[derive(Clone, Copy, Debug, PartialEq, Eq, Structural)]
pub enum TokenizeError {
    NonAsciiInput,
}

/// Every byte of `s` is ASCII.
pub open spec fn ascii_seq(s: Seq<u8>) -> bool {
    forall|i: int| 0 <= i < s.len() ==> s[i] < 128
}

/// `s` with leading whitespace removed.
pub open spec fn trim_front(s: Seq<u8>) -> Seq<u8>
    decreases s.len(),
{
    if s.len() > 0 && is_whitespace_byte(s[0]) {
        trim_front(s.drop_first())
    } else {
        s
    }
}

/// `s` with trailing whitespace removed.
pub open spec fn trim_back(s: Seq<u8>) -> Seq<u8>
    decreases s.len(),
{
    if s.len() > 0 && is_whitespace_byte(s.last()) {
        trim_back(s.drop_last())
    } else {
        s
    }
}

/// `s` with whitespace removed at both ends.
pub open spec fn trimmed(s: Seq<u8>) -> Seq<u8> {
    trim_back(trim_front(s))
}

/// `s` with every terminator byte removed.
pub open spec fn strip_terminators(s: Seq<u8>) -> Seq<u8>
    decreases s.len(),
{
    if s.len() == 0 {
        s
    } else if is_terminator_byte(s.last()) {
        strip_terminators(s.drop_last())
    } else {
        strip_terminators(s.drop_last()).push(s.last())
    }
}

/// `s` with every uppercase ASCII letter lowercased.
pub open spec fn lowered(s: Seq<u8>) -> Seq<u8> {
    s.map_values(|c: u8| to_lower_byte(c))
}

/// A raw segment normalized into a token: trimmed, terminator-free,
/// lowercase.
pub open spec fn normalized(s: Seq<u8>) -> Seq<u8> {
    lowered(strip_terminators(trimmed(s)))
}

/// The position of the first boundary of `s` at or after `i`, or `s.len()`
/// when no boundary remains.  A boundary at `j` means the split falls
/// between `s[j - 1]` and `s[j]`.
pub open spec fn first_split_from(s: Seq<u8>, i: int) -> int
    recommends
        1 <= i,
    decreases s.len() - i,
{
    if i >= s.len() {
        s.len() as int
    } else if should_split_at(s[i - 1], s[i]) {
        i
    } else {
        first_split_from(s, i + 1)
    }
}

/// The raw segments of `s`: the contiguous substrings between consecutive
/// boundaries, in order.  The empty line yields one empty segment.
pub open spec fn raw_tokens(s: Seq<u8>) -> Seq<Seq<u8>>
    decreases s.len(),
{
    let b = first_split_from(s, 1);
    if b < 1 || b >= s.len() {
        seq![s]
    } else {
        seq![s.subrange(0, b)] + raw_tokens(s.subrange(b, s.len() as int))
    }
}

/// The token sequence of a line: each raw segment, normalized.
pub open spec fn tokenized(s: Seq<u8>) -> Seq<Seq<u8>> {
    raw_tokens(s).map_values(|t: Seq<u8>| normalized(t))
}

/// The views of a vector of tokens.
pub open spec fn token_views(ts: Seq<Vec<u8>>) -> Seq<Seq<u8>> {
    ts.map_values(|t: Vec<u8>| t@)
}

proof fn lemma_trim_front_exact(s: Seq<u8>, lo: int)
    requires
        0 <= lo <= s.len(),
        forall|j: int| 0 <= j < lo ==> is_whitespace_byte(s[j]),
        lo == s.len() || !is_whitespace_byte(s[lo]),
    ensures
        trim_front(s) == s.subrange(lo, s.len() as int),
    decreases lo,
{
    if lo == 0 {
        assert(trim_front(s) =~= s.subrange(0, s.len() as int));
    } else {
        let t = s.drop_first();
        lemma_trim_front_exact(t, lo - 1);
        assert(t.subrange(lo - 1, t.len() as int) =~= s.subrange(lo, s.len() as int));
    }
}

proof fn lemma_trim_back_exact(s: Seq<u8>, hi: int)
    requires
        0 <= hi <= s.len(),
        forall|j: int| hi <= j < s.len() ==> is_whitespace_byte(s[j]),
        hi == 0 || !is_whitespace_byte(s[hi - 1]),
    ensures
        trim_back(s) == s.subrange(0, hi),
    decreases s.len() - hi,
{
    if hi == s.len() {
        assert(trim_back(s) =~= s.subrange(0, hi));
    } else {
        let t = s.drop_last();
        lemma_trim_back_exact(t, hi);
        assert(t.subrange(0, hi) =~= s.subrange(0, hi));
    }
}

/// When the whitespace of `s` is exactly its bytes outside `[lo, hi)`,
/// trimming yields exactly that window.
proof fn lemma_trimmed_exact(s: Seq<u8>, lo: int, hi: int)
    requires
        0 <= lo <= hi <= s.len(),
        forall|j: int| 0 <= j < lo ==> is_whitespace_byte(s[j]),
        forall|j: int| hi <= j < s.len() ==> is_whitespace_byte(s[j]),
        lo == hi || (!is_whitespace_byte(s[lo]) && !is_whitespace_byte(s[hi - 1])),
    ensures
        trimmed(s) == s.subrange(lo, hi),
{
    if lo == hi {
        lemma_trim_front_exact(s, s.len() as int);
        assert(trim_front(s) =~= Seq::<u8>::empty());
        assert(trim_back(trim_front(s)) =~= s.subrange(lo, hi));
    } else {
        lemma_trim_front_exact(s, lo);
        let u = s.subrange(lo, s.len() as int);
        lemma_trim_back_exact(u, hi - lo);
        assert(u.subrange(0, hi - lo) =~= s.subrange(lo, hi));
    }
}

proof fn lemma_first_split_from_at(s: Seq<u8>, i: int, m: int)
    requires
        1 <= i <= m <= s.len(),
        forall|j: int| i <= j < m ==> !should_split_at(s[j - 1], #[trigger] s[j]),
        m == s.len() || should_split_at(s[m - 1], s[m]),
    ensures
        first_split_from(s, i) == m,
    decreases m - i,
{
    if i < m {
        lemma_first_split_from_at(s, i + 1, m);
    }
}

/// A line with no boundary is one raw segment.
proof fn lemma_raw_tokens_whole(s: Seq<u8>)
    requires
        forall|j: int| 1 <= j < s.len() ==> !should_split_at(s[j - 1], #[trigger] s[j]),
    ensures
        raw_tokens(s) == seq![s],
{
    if s.len() == 0 {
        assert(first_split_from(s, 1) == 0);
    } else {
        lemma_first_split_from_at(s, 1, s.len() as int);
    }
}

/// A line whose first boundary is `m` begins with the segment up to `m`,
/// followed by the segments of the rest.
proof fn lemma_raw_tokens_step(s: Seq<u8>, m: int)
    requires
        1 <= m < s.len(),
        forall|j: int| 1 <= j < m ==> !should_split_at(s[j - 1], #[trigger] s[j]),
        should_split_at(s[m - 1], s[m]),
    ensures
        raw_tokens(s) == seq![s.subrange(0, m)] + raw_tokens(s.subrange(m, s.len() as int)),
{
    lemma_first_split_from_at(s, 1, m);
}

pub proof fn lemma_tokenized_whole(s: Seq<u8>)
    requires
        forall|j: int| 1 <= j < s.len() ==> !should_split_at(s[j - 1], #[trigger] s[j]),
    ensures
        tokenized(s) == seq![normalized(s)],
{
    lemma_raw_tokens_whole(s);
    assert(tokenized(s) =~= seq![normalized(s)]);
}

pub proof fn lemma_tokenized_step(s: Seq<u8>, m: int)
    requires
        1 <= m < s.len(),
        forall|j: int| 1 <= j < m ==> !should_split_at(s[j - 1], #[trigger] s[j]),
        should_split_at(s[m - 1], s[m]),
    ensures
        tokenized(s) == seq![normalized(s.subrange(0, m))] + tokenized(
            s.subrange(m, s.len() as int),
        ),
{
    lemma_raw_tokens_step(s, m);
    assert(tokenized(s) =~= seq![normalized(s.subrange(0, m))] + tokenized(
        s.subrange(m, s.len() as int),
    ));
}

/// Normalize one raw segment: trim whitespace at both ends, drop every
/// terminator byte, lowercase every letter.
pub fn normalize(token: &[u8]) -> (r: Vec<u8>)
    ensures
        r@ == normalized(token@),
{
    let ghost s = token@;
    let mut lo: usize = 0;
    while lo < token.len() && (token[lo] == 32 || 9 <= token[lo] && token[lo] <= 13)
        invariant
            0 <= lo <= s.len(),
            s == token@,
            forall|j: int| 0 <= j < lo ==> is_whitespace_byte(s[j]),
        decreases s.len() - lo,
    {
        lo = lo + 1;
    }
    let mut hi: usize = token.len();
    while hi > lo && (token[hi - 1] == 32 || 9 <= token[hi - 1] && token[hi - 1] <= 13)
        invariant
            lo <= hi <= s.len(),
            s == token@,
            forall|j: int| hi <= j < s.len() ==> is_whitespace_byte(s[j]),
        decreases hi,
    {
        hi = hi - 1;
    }
    proof {
        lemma_trimmed_exact(s, lo as int, hi as int);
    }
    let mut r: Vec<u8> = Vec::new();
    let mut i: usize = lo;
    while i < hi
        invariant
            lo <= i <= hi <= s.len(),
            s == token@,
            r@ == lowered(strip_terminators(s.subrange(lo as int, i as int))),
        decreases hi - i,
    {
        let c = token[i];
        proof {
            assert(s.subrange(lo as int, i + 1 as int).drop_last() =~= s.subrange(
                lo as int,
                i as int,
            ));
        }
        if !is_terminator(c) {
            let low = if 65 <= c && c <= 90 {
                c + 32
            } else {
                c
            };
            r.push(low);
            proof {
                assert(lowered(strip_terminators(s.subrange(lo as int, i + 1 as int))) =~= r@);
            }
        } else {
            proof {
                assert(lowered(strip_terminators(s.subrange(lo as int, i + 1 as int))) =~= r@);
            }
        }
        i = i + 1;
    }
    proof {
        assert(s.subrange(lo as int, hi as int) == trimmed(s));
    }
    r
}

/// Split one input line into its normalized tokens, left to right.
/// A line containing any non-ASCII byte is rejected whole.
pub fn tokenize(input: &[u8]) -> (r: Result<Vec<Vec<u8>>, TokenizeError>)
    ensures
        r is Ok <==> ascii_seq(input@),
        r matches Ok(tokens) ==> token_views(tokens@) == tokenized(input@),
        r matches Err(e) ==> e == TokenizeError::NonAsciiInput,
{
    let ghost s = input@;
    let mut k: usize = 0;
    while k < input.len()
        invariant
            0 <= k <= s.len(),
            s == input@,
            forall|j: int| 0 <= j < k ==> s[j] < 128,
        decreases s.len() - k,
    {
        if input[k] >= 128 {
            return Err(TokenizeError::NonAsciiInput);
        }
        k = k + 1;
    }
    let mut tokens: Vec<Vec<u8>> = Vec::new();
    let mut start: usize = 0;
    let mut i: usize = 1;
    proof {
        assert(s.subrange(0, s.len() as int) =~= s);
        assert(tokenized(s) =~= token_views(tokens@) + tokenized(s.subrange(0, s.len() as int)));
    }
    while i < input.len()
        invariant
            s == input@,
            1 <= i,
            start < i,
            start <= s.len(),
            i <= s.len() + 1,
            forall|j: int| start < j < i ==> !should_split_at(s[j - 1], #[trigger] s[j]),
            tokenized(s) == token_views(tokens@) + tokenized(
                s.subrange(start as int, s.len() as int),
            ),
        decreases s.len() - i,
    {
        if should_split(input[i - 1], input[i]) {
            let t = normalize(&input[start..i]);
            proof {
                let suffix = s.subrange(start as int, s.len() as int);
                let m = i - start;
                assert forall|jr: int| 1 <= jr < m implies !should_split_at(
                    suffix[jr - 1],
                    #[trigger] suffix[jr],
                ) by {
                    assert(suffix[jr] == s[start + jr]);
                    assert(suffix[jr - 1] == s[start + jr - 1]);
                }
                assert(suffix[m - 1] == s[i - 1]);
                assert(suffix[m as int] == s[i as int]);
                lemma_tokenized_step(suffix, m as int);
                assert(suffix.subrange(0, m as int) =~= s.subrange(start as int, i as int));
                assert(suffix.subrange(m as int, suffix.len() as int) =~= s.subrange(
                    i as int,
                    s.len() as int,
                ));
                assert(token_views(tokens@.push(t)) =~= token_views(tokens@).push(t@));
                assert(tokenized(s) =~= token_views(tokens@.push(t)) + tokenized(
                    s.subrange(i as int, s.len() as int),
                ));
            }
            tokens.push(t);
            start = i;
        }
        i = i + 1;
    }
    let t = normalize(&input[start..input.len()]);
    proof {
        let suffix = s.subrange(start as int, s.len() as int);
        assert forall|jr: int| 1 <= jr < suffix.len() implies !should_split_at(
            suffix[jr - 1],
            #[trigger] suffix[jr],
        ) by {
            assert(suffix[jr] == s[start + jr]);
            assert(suffix[jr - 1] == s[start + jr - 1]);
        }
        lemma_tokenized_whole(suffix);
        assert(token_views(tokens@.push(t)) =~= token_views(tokens@).push(t@));
        assert(tokenized(s) =~= token_views(tokens@.push(t)));
    }
    tokens.push(t);
    Ok(tokens)
}

} // verus!
