//! Laws relating the tokenizer and the recombiner.

use vstd::prelude::*;

use crate::chars::is_lower_byte;
use crate::chars::is_terminator_byte;
use crate::chars::is_upper_byte;
use crate::chars::is_whitespace_byte;
use crate::chars::should_split_at;
use crate::chars::to_lower_byte;
use crate::tokenizer::ascii_seq;
use crate::tokenizer::lemma_tokenized_step;
use crate::tokenizer::lemma_tokenized_whole;
use crate::tokenizer::lowered;
use crate::tokenizer::normalized;
use crate::tokenizer::first_split_from;
use crate::tokenizer::raw_tokens;
use crate::tokenizer::strip_terminators;
use crate::tokenizer::tokenized;
use crate::tokenizer::trim_back;
use crate::tokenizer::trim_front;
use crate::tokenizer::trimmed;
use crate::recombiner::joined;

verus! {

/// Every whitespace byte of `s` is a plain space, the only whitespace that
/// the tokenizer treats as a terminator.
pub open spec fn space_only_whitespace(s: Seq<u8>) -> bool {
    forall|i: int|
        0 <= i < s.len() ==> (is_whitespace_byte(#[trigger] s[i]) ==> s[i] == 32)
}

/// A well-formed nonempty token: free of terminators and uppercase letters,
/// with no whitespace at either end.
pub open spec fn valid_token(t: Seq<u8>) -> bool {
    &&& t.len() > 0
    &&& forall|i: int|
        0 <= i < t.len() ==> !is_terminator_byte(#[trigger] t[i]) && !is_upper_byte(t[i])
    &&& !is_whitespace_byte(t[0])
    &&& !is_whitespace_byte(t[t.len() - 1])
}

proof fn lemma_strip_id(t: Seq<u8>)
    requires
        forall|i: int| 0 <= i < t.len() ==> !is_terminator_byte(#[trigger] t[i]),
    ensures
        strip_terminators(t) == t,
    decreases t.len(),
{
    if t.len() > 0 {
        lemma_strip_id(t.drop_last());
        assert(t.drop_last().push(t.last()) =~= t);
    }
}

/// A sequence without whitespace at its ends and without terminators or
/// uppercase letters anywhere is already normal.
proof fn lemma_normalized_fixed(t: Seq<u8>)
    requires
        forall|i: int|
            0 <= i < t.len() ==> !is_terminator_byte(#[trigger] t[i]) && !is_upper_byte(t[i]),
        t.len() > 0 ==> !is_whitespace_byte(t[0]) && !is_whitespace_byte(t[t.len() - 1]),
    ensures
        normalized(t) == t,
{
    assert(trim_front(t) == t);
    assert(trim_back(t) == t);
    lemma_strip_id(t);
    assert(lowered(t) =~= t);
}

proof fn lemma_joined_front(ts: Seq<Seq<u8>>, sep: u8)
    requires
        ts.len() >= 2,
    ensures
        joined(ts, sep) == ts[0] + seq![sep] + joined(ts.drop_first(), sep),
    decreases ts.len(),
{
    if ts.len() == 2 {
        assert(joined(ts.drop_last(), sep) == ts.drop_last()[0]);
        assert(joined(ts.drop_first(), sep) == ts.drop_first()[0]);
        assert(joined(ts, sep) =~= ts[0] + seq![sep] + joined(ts.drop_first(), sep));
    } else {
        let tl = ts.drop_last();
        lemma_joined_front(tl, sep);
        assert(tl.drop_first() =~= ts.drop_first().drop_last());
        assert(ts.drop_first().last() == ts.last());
        assert(joined(ts, sep) =~= ts[0] + seq![sep] + joined(ts.drop_first(), sep));
    }
}

proof fn lemma_strip_drop_lead(c: u8, t: Seq<u8>)
    ensures
        strip_terminators(seq![c] + t) == if is_terminator_byte(c) {
            strip_terminators(t)
        } else {
            seq![c] + strip_terminators(t)
        },
    decreases t.len(),
{
    let s = seq![c] + t;
    if t.len() == 0 {
        assert(s.len() == 1);
        assert(s.last() == c);
        assert(s.drop_last() =~= Seq::<u8>::empty());
        if !is_terminator_byte(c) {
            assert(strip_terminators(s.drop_last()).push(c) =~= seq![c] + strip_terminators(t));
        }
    } else {
        assert(s.last() == t.last());
        assert(s.drop_last() =~= seq![c] + t.drop_last());
        lemma_strip_drop_lead(c, t.drop_last());
        if !is_terminator_byte(t.last()) && !is_terminator_byte(c) {
            assert((seq![c] + strip_terminators(t.drop_last())).push(t.last()) =~= seq![c]
                + strip_terminators(t.drop_last()).push(t.last()));
        }
    }
}

/// Prefixing a well-formed token with one underscore does not change how it
/// normalizes: the underscore is stripped.
proof fn lemma_normalized_underscore(t: Seq<u8>)
    requires
        forall|i: int|
            0 <= i < t.len() ==> !is_terminator_byte(#[trigger] t[i]) && !is_upper_byte(t[i]),
        t.len() > 0 ==> !is_whitespace_byte(t[0]) && !is_whitespace_byte(t[t.len() - 1]),
    ensures
        normalized(seq![95u8] + t) == t,
{
    let s = seq![95u8] + t;
    assert(s[0] == 95);
    assert(!is_whitespace_byte(s[0]));
    assert(trim_front(s) == s);
    if t.len() > 0 {
        assert(s.last() == t[t.len() - 1]);
    } else {
        assert(s.last() == 95);
    }
    assert(trim_back(s) == s);
    lemma_strip_drop_lead(95, t);
    lemma_strip_id(t);
    assert(lowered(t) =~= t);
}

/// Tokenizing an underscore followed by the snake_case rendering of `ts`
/// recovers `ts`, when every token but possibly the last is well formed and
/// the last is well formed or empty.
proof fn lemma_tok_usjoin(ts: Seq<Seq<u8>>)
    requires
        ts.len() >= 1,
        forall|k: int| 0 <= k < ts.len() - 1 ==> valid_token(#[trigger] ts[k]),
        valid_token(ts.last()) || ts.last().len() == 0,
    ensures
        tokenized(seq![95u8] + joined(ts, 95)) == ts,
    decreases ts.len(),
{
    let s = seq![95u8] + joined(ts, 95);
    if ts.len() == 1 {
        let t0 = ts[0];
        assert(joined(ts, 95) == t0);
        assert forall|j: int| 1 <= j < s.len() implies !should_split_at(
            s[j - 1],
            #[trigger] s[j],
        ) by {
            if j == 1 {
                assert(s[0] == 95);
            } else {
                assert(s[j - 1] == t0[j - 2]);
                assert(s[j] == t0[j - 1]);
            }
        }
        lemma_tokenized_whole(s);
        lemma_normalized_underscore(t0);
        assert(tokenized(s) =~= ts);
    } else {
        let t0 = ts[0];
        let rest = ts.drop_first();
        lemma_joined_front(ts, 95);
        let m = 1 + t0.len() as int;
        assert(valid_token(t0));
        assert(s =~= seq![95u8] + t0 + (seq![95u8] + joined(rest, 95)));
        assert forall|j: int| 1 <= j < m implies !should_split_at(
            s[j - 1],
            #[trigger] s[j],
        ) by {
            if j == 1 {
                assert(s[0] == 95);
                assert(s[1] == t0[0]);
            } else {
                assert(s[j - 1] == t0[j - 2]);
                assert(s[j] == t0[j - 1]);
            }
        }
        assert(s[m - 1] == t0[t0.len() - 1]);
        assert(s[m] == 95);
        assert(should_split_at(s[m - 1], s[m]));
        lemma_tokenized_step(s, m);
        assert(s.subrange(0, m) =~= seq![95u8] + t0);
        lemma_normalized_underscore(t0);
        assert(s.subrange(m, s.len() as int) =~= seq![95u8] + joined(rest, 95));
        assert forall|k: int| 0 <= k < rest.len() - 1 implies valid_token(#[trigger] rest[k]) by {
            assert(rest[k] == ts[k + 1]);
        }
        assert(rest.last() == ts.last());
        lemma_tok_usjoin(rest);
        assert(tokenized(s) =~= ts);
    }
}

/// Tokenizing the snake_case rendering of `ts` recovers `ts`, when every
/// token but possibly the last is well formed and the last is well formed,
/// or empty behind at least one well-formed token.
proof fn lemma_tok_join(ts: Seq<Seq<u8>>)
    requires
        ts.len() >= 1,
        forall|k: int| 0 <= k < ts.len() - 1 ==> valid_token(#[trigger] ts[k]),
        valid_token(ts.last()) || (ts.last().len() == 0 && ts.len() >= 2),
    ensures
        tokenized(joined(ts, 95)) == ts,
{
    if ts.len() == 1 {
        let t0 = ts[0];
        assert(valid_token(t0));
        let s = joined(ts, 95);
        assert(s == t0);
        assert forall|j: int| 1 <= j < s.len() implies !should_split_at(
            s[j - 1],
            #[trigger] s[j],
        ) by {}
        lemma_tokenized_whole(s);
        lemma_normalized_fixed(t0);
        assert(tokenized(s) =~= ts);
    } else {
        let t0 = ts[0];
        let rest = ts.drop_first();
        lemma_joined_front(ts, 95);
        let s = joined(ts, 95);
        assert(valid_token(t0));
        let m = t0.len() as int;
        assert(s =~= t0 + (seq![95u8] + joined(rest, 95)));
        assert forall|j: int| 1 <= j < m implies !should_split_at(
            s[j - 1],
            #[trigger] s[j],
        ) by {
            assert(s[j - 1] == t0[j - 1]);
            assert(s[j] == t0[j]);
        }
        assert(s[m - 1] == t0[t0.len() - 1]);
        assert(s[m] == 95);
        assert(should_split_at(s[m - 1], s[m]));
        lemma_tokenized_step(s, m);
        assert(s.subrange(0, m) =~= t0);
        lemma_normalized_fixed(t0);
        assert(s.subrange(m, s.len() as int) =~= seq![95u8] + joined(rest, 95));
        assert forall|k: int| 0 <= k < rest.len() - 1 implies valid_token(#[trigger] rest[k]) by {
            assert(rest[k] == ts[k + 1]);
        }
        assert(rest.last() == ts.last());
        lemma_tok_usjoin(rest);
        assert(tokenized(s) =~= ts);
    }
}

/// The bytes of a token the tokenizer can produce: no terminators, no
/// uppercase letters and, for a line whose whitespace is all spaces, no
/// whitespace at all.
spec fn clean_seq(t: Seq<u8>) -> bool {
    forall|i: int|
        0 <= i < t.len() ==> !is_terminator_byte(#[trigger] t[i]) && !is_upper_byte(t[i])
            && !is_whitespace_byte(t[i])
}

proof fn lemma_first_split_bounds(s: Seq<u8>, i: int)
    requires
        1 <= i,
    ensures
        first_split_from(s, i) <= s.len(),
        i <= s.len() ==> i <= first_split_from(s, i),
    decreases s.len() - i,
{
    if i < s.len() && !should_split_at(s[i - 1], s[i]) {
        lemma_first_split_bounds(s, i + 1);
    }
}

proof fn lemma_first_split_found(s: Seq<u8>, i: int)
    requires
        1 <= i,
    ensures
        first_split_from(s, i) < s.len() ==> should_split_at(
            s[first_split_from(s, i) - 1],
            s[first_split_from(s, i)],
        ),
    decreases s.len() - i,
{
    if i < s.len() && !should_split_at(s[i - 1], s[i]) {
        lemma_first_split_found(s, i + 1);
    }
}

proof fn lemma_trim_front_space_only(t: Seq<u8>)
    requires
        space_only_whitespace(t),
    ensures
        space_only_whitespace(trim_front(t)),
    decreases t.len(),
{
    if t.len() > 0 && is_whitespace_byte(t[0]) {
        let u = t.drop_first();
        assert forall|i: int|
            0 <= i < u.len() && is_whitespace_byte(#[trigger] u[i]) implies u[i] == 32 by {
            assert(u[i] == t[i + 1]);
        }
        lemma_trim_front_space_only(u);
    }
}

proof fn lemma_trim_back_space_only(t: Seq<u8>)
    requires
        space_only_whitespace(t),
    ensures
        space_only_whitespace(trim_back(t)),
    decreases t.len(),
{
    if t.len() > 0 && is_whitespace_byte(t.last()) {
        let u = t.drop_last();
        assert forall|i: int|
            0 <= i < u.len() && is_whitespace_byte(#[trigger] u[i]) implies u[i] == 32 by {
            assert(u[i] == t[i]);
        }
        lemma_trim_back_space_only(u);
    }
}

/// Stripping terminators from a line whose whitespace is all spaces leaves
/// no terminator and no whitespace at all.
proof fn lemma_strip_clean(t: Seq<u8>)
    requires
        space_only_whitespace(t),
    ensures
        forall|i: int|
            0 <= i < strip_terminators(t).len() ==> !is_terminator_byte(
                #[trigger] strip_terminators(t)[i],
            ) && !is_whitespace_byte(strip_terminators(t)[i]),
    decreases t.len(),
{
    if t.len() > 0 {
        let u = t.drop_last();
        assert forall|i: int|
            0 <= i < u.len() && is_whitespace_byte(#[trigger] u[i]) implies u[i] == 32 by {
            assert(u[i] == t[i]);
        }
        lemma_strip_clean(u);
        if !is_terminator_byte(t.last()) {
            assert(!is_whitespace_byte(t.last())) by {
                if is_whitespace_byte(t[t.len() - 1]) {
                    assert(t[t.len() - 1] == 32);
                }
            }
            let v = strip_terminators(u).push(t.last());
            assert(strip_terminators(t) == v);
            assert forall|i: int|
                0 <= i < v.len() implies !is_terminator_byte(#[trigger] v[i])
                    && !is_whitespace_byte(v[i]) by {
                if i < strip_terminators(u).len() {
                    assert(v[i] == strip_terminators(u)[i]);
                } else {
                    assert(v[i] == t.last());
                }
            }
        }
    }
}

/// Normalizing any segment of a line whose whitespace is all spaces yields
/// a clean token.
proof fn lemma_normalized_clean(t: Seq<u8>)
    requires
        space_only_whitespace(t),
    ensures
        clean_seq(normalized(t)),
{
    lemma_trim_front_space_only(t);
    lemma_trim_back_space_only(trim_front(t));
    let u = trimmed(t);
    lemma_strip_clean(u);
    let v = strip_terminators(u);
    assert forall|i: int|
        0 <= i < lowered(v).len() implies !is_terminator_byte(#[trigger] lowered(v)[i])
            && !is_upper_byte(lowered(v)[i]) && !is_whitespace_byte(lowered(v)[i]) by {
        assert(lowered(v)[i] == to_lower_byte(v[i]));
    }
}

/// `t` holds at least one byte that is neither a terminator nor whitespace.
spec fn has_word_byte(t: Seq<u8>) -> bool {
    exists|j: int|
        0 <= j < t.len() && !is_terminator_byte(#[trigger] t[j]) && !is_whitespace_byte(t[j])
}

proof fn lemma_trim_front_has(t: Seq<u8>)
    requires
        has_word_byte(t),
    ensures
        has_word_byte(trim_front(t)),
    decreases t.len(),
{
    if t.len() > 0 && is_whitespace_byte(t[0]) {
        let u = t.drop_first();
        let j = choose|j: int|
            0 <= j < t.len() && !is_terminator_byte(#[trigger] t[j]) && !is_whitespace_byte(t[j]);
        assert(j != 0);
        assert(u[j - 1] == t[j]);
        assert(has_word_byte(u));
        lemma_trim_front_has(u);
    }
}

proof fn lemma_trim_back_has(t: Seq<u8>)
    requires
        has_word_byte(t),
    ensures
        has_word_byte(trim_back(t)),
    decreases t.len(),
{
    if t.len() > 0 && is_whitespace_byte(t.last()) {
        let u = t.drop_last();
        let j = choose|j: int|
            0 <= j < t.len() && !is_terminator_byte(#[trigger] t[j]) && !is_whitespace_byte(t[j]);
        assert(j != t.len() - 1);
        assert(u[j] == t[j]);
        assert(has_word_byte(u));
        lemma_trim_back_has(u);
    }
}

proof fn lemma_strip_has_nonempty(t: Seq<u8>)
    requires
        has_word_byte(t),
    ensures
        strip_terminators(t).len() > 0,
    decreases t.len(),
{
    if t.len() == 0 {
        assert(false);
    } else if is_terminator_byte(t.last()) {
        let u = t.drop_last();
        let j = choose|j: int|
            0 <= j < t.len() && !is_terminator_byte(#[trigger] t[j]) && !is_whitespace_byte(t[j]);
        assert(j != t.len() - 1);
        assert(u[j] == t[j]);
        assert(has_word_byte(u));
        lemma_strip_has_nonempty(u);
    }
}

/// A segment holding at least one word byte normalizes to a nonempty token.
proof fn lemma_normalized_nonempty(t: Seq<u8>)
    requires
        has_word_byte(t),
    ensures
        normalized(t).len() > 0,
{
    lemma_trim_front_has(t);
    lemma_trim_back_has(trim_front(t));
    lemma_strip_has_nonempty(trimmed(t));
}

/// Every token the tokenizer produces from a line whose whitespace is all
/// spaces is clean.
proof fn lemma_tokenized_clean(s: Seq<u8>)
    requires
        space_only_whitespace(s),
    ensures
        forall|k: int| 0 <= k < tokenized(s).len() ==> clean_seq(#[trigger] tokenized(s)[k]),
    decreases s.len(),
{
    let b = first_split_from(s, 1);
    lemma_first_split_bounds(s, 1);
    if b < 1 || b >= s.len() {
        lemma_normalized_clean(s);
        assert(tokenized(s) =~= seq![normalized(s)]);
    } else {
        let pre = s.subrange(0, b);
        let suffix = s.subrange(b, s.len() as int);
        assert forall|i: int|
            0 <= i < pre.len() && is_whitespace_byte(#[trigger] pre[i]) implies pre[i] == 32 by {
            assert(pre[i] == s[i]);
        }
        assert forall|i: int|
            0 <= i < suffix.len() && is_whitespace_byte(#[trigger] suffix[i]) implies suffix[i]
                == 32 by {
            assert(suffix[i] == s[b + i]);
        }
        lemma_normalized_clean(pre);
        lemma_tokenized_clean(suffix);
        assert(raw_tokens(s) == seq![pre] + raw_tokens(suffix));
        assert forall|k: int| 0 <= k < tokenized(s).len() implies clean_seq(
            #[trigger] tokenized(s)[k],
        ) by {
            if k == 0 {
                assert(tokenized(s)[0] == normalized(pre));
            } else {
                assert(raw_tokens(s)[k] == raw_tokens(suffix)[k - 1]);
                assert(tokenized(s)[k] == normalized(raw_tokens(suffix)[k - 1]));
                assert(tokenized(suffix)[k - 1] == normalized(raw_tokens(suffix)[k - 1]));
            }
        }
    }
}

/// In the token sequence of a line whose whitespace is all spaces, every
/// token but the last is nonempty.
proof fn lemma_tokenized_middle_nonempty(s: Seq<u8>)
    requires
        space_only_whitespace(s),
    ensures
        forall|k: int| 0 <= k < tokenized(s).len() - 1 ==> #[trigger] tokenized(s)[k].len() > 0,
    decreases s.len(),
{
    let b = first_split_from(s, 1);
    lemma_first_split_bounds(s, 1);
    lemma_first_split_found(s, 1);
    if b < 1 || b >= s.len() {
        assert(raw_tokens(s) == seq![s]);
        assert(tokenized(s).len() == 1);
    } else {
        let pre = s.subrange(0, b);
        let suffix = s.subrange(b, s.len() as int);
        assert(should_split_at(s[b - 1], s[b]));
        assert(!is_terminator_byte(s[b - 1]));
        assert(!is_whitespace_byte(s[b - 1])) by {
            if is_whitespace_byte(s[b - 1]) {
                assert(s[b - 1] == 32);
            }
        }
        assert(pre[b - 1] == s[b - 1]);
        assert(has_word_byte(pre));
        lemma_normalized_nonempty(pre);
        assert forall|i: int|
            0 <= i < suffix.len() && is_whitespace_byte(#[trigger] suffix[i]) implies suffix[i]
                == 32 by {
            assert(suffix[i] == s[b + i]);
        }
        lemma_tokenized_middle_nonempty(suffix);
        assert(raw_tokens(s) == seq![pre] + raw_tokens(suffix));
        assert forall|k: int|
            0 <= k < tokenized(s).len() - 1 implies #[trigger] tokenized(s)[k].len() > 0 by {
            if k == 0 {
                assert(tokenized(s)[0] == normalized(pre));
            } else {
                assert(raw_tokens(s)[k] == raw_tokens(suffix)[k - 1]);
                assert(tokenized(s)[k] == normalized(raw_tokens(suffix)[k - 1]));
                assert(tokenized(suffix)[k - 1] == normalized(raw_tokens(suffix)[k - 1]));
            }
        }
    }
}

/// Converting to snake_case twice is stable: rendering the tokens of a line
/// in snake_case and tokenizing again yields the same tokens, hence the same
/// snake_case rendering.
pub proof fn lemma_snake_idempotent(s: Seq<u8>)
    requires
        ascii_seq(s),
        space_only_whitespace(s),
    ensures
        tokenized(joined(tokenized(s), 95)) == tokenized(s),
        joined(tokenized(joined(tokenized(s), 95)), 95) == joined(tokenized(s), 95),
{
    let t = tokenized(s);
    lemma_tokenized_clean(s);
    lemma_tokenized_middle_nonempty(s);
    assert(raw_tokens(s).len() >= 1);
    assert(t.len() >= 1);
    if t.len() == 1 && t[0].len() == 0 {
        assert(joined(t, 95) == t[0]);
        assert(t[0] =~= Seq::<u8>::empty());
        lemma_tokenized_whole(t[0]);
        lemma_normalized_fixed(t[0]);
        assert(tokenized(joined(t, 95)) =~= t);
    } else {
        assert forall|k: int| 0 <= k < t.len() - 1 implies valid_token(#[trigger] t[k]) by {
            assert(clean_seq(t[k]));
            assert(t[k].len() > 0);
        }
        if t.last().len() == 0 {
            assert(t.len() >= 2);
        } else {
            assert(clean_seq(t.last()));
            assert(valid_token(t.last()));
        }
        lemma_tok_join(t);
    }
}

/// Round trip across styles: tokenizing the snake_case rendering of any
/// sequence of well-formed nonempty tokens recovers the sequence exactly.
pub proof fn lemma_snake_round_trip(ts: Seq<Seq<u8>>)
    requires
        ts.len() >= 1,
        forall|k: int| 0 <= k < ts.len() ==> valid_token(#[trigger] ts[k]),
    ensures
        tokenized(joined(ts, 95)) == ts,
{
    lemma_tok_join(ts);
}

/// A line of ASCII bytes with no terminators, no whitespace other than
/// spaces, and no lowercase-to-uppercase transition tokenizes to the single
/// token that is the lowercased line.
pub proof fn lemma_plain_line_single_token(s: Seq<u8>)
    requires
        ascii_seq(s),
        forall|i: int| 0 <= i < s.len() ==> !is_terminator_byte(#[trigger] s[i]),
        forall|j: int|
            1 <= j < s.len() ==> !(is_lower_byte(s[j - 1]) && is_upper_byte(#[trigger] s[j])),
        space_only_whitespace(s),
    ensures
        tokenized(s) == seq![lowered(s)],
{
    assert forall|j: int| 1 <= j < s.len() implies !should_split_at(
        s[j - 1],
        #[trigger] s[j],
    ) by {}
    lemma_tokenized_whole(s);
    assert forall|i: int| 0 <= i < s.len() implies !is_whitespace_byte(#[trigger] s[i]) by {
        if is_whitespace_byte(s[i]) {
            assert(s[i] == 32);
        }
    }
    assert(trim_front(s) == s);
    assert(trim_back(s) == s);
    lemma_strip_id(s);
}

} // verus!
