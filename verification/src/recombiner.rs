//! Rendering a token sequence in a chosen case style.

use vstd::prelude::*;

use crate::chars::to_lower_byte;
use crate::chars::to_upper_byte;
use crate::tokenizer::token_views;

verus! {

/// The closed set of output naming conventions.
#[derive(Clone, Copy, Debug, PartialEq, Eq, Structural)]
pub enum Case {
    LowerCamel,
    UpperCamel,
    Snake,
    ScreamingSnake,
    Kebab,
    ScreamingKebab,
    Words,
}

/// `t` with its first byte uppercased and the rest unchanged; the empty
/// token stays empty.
pub open spec fn capitalized(t: Seq<u8>) -> Seq<u8> {
    if t.len() == 0 {
        t
    } else {
        seq![to_upper_byte(t[0])] + t.drop_first()
    }
}

/// The tokens joined with the single separator byte `sep`.
pub open spec fn joined(ts: Seq<Seq<u8>>, sep: u8) -> Seq<u8>
    decreases ts.len(),
{
    if ts.len() == 0 {
        Seq::empty()
    } else if ts.len() == 1 {
        ts[0]
    } else {
        joined(ts.drop_last(), sep) + seq![sep] + ts.last()
    }
}

/// Every token capitalized, concatenated with no separator.
pub open spec fn upper_camel(ts: Seq<Seq<u8>>) -> Seq<u8>
    decreases ts.len(),
{
    if ts.len() == 0 {
        Seq::empty()
    } else {
        upper_camel(ts.drop_last()) + capitalized(ts.last())
    }
}

/// The first token unchanged, every later token capitalized, concatenated
/// with no separator.
pub open spec fn lower_camel(ts: Seq<Seq<u8>>) -> Seq<u8>
    decreases ts.len(),
{
    if ts.len() == 0 {
        Seq::empty()
    } else if ts.len() == 1 {
        ts[0]
    } else {
        lower_camel(ts.drop_last()) + capitalized(ts.last())
    }
}

/// `s` with every lowercase ASCII letter uppercased.
pub open spec fn uppered(s: Seq<u8>) -> Seq<u8> {
    s.map_values(|c: u8| to_upper_byte(c))
}

/// What `recombine` returns for each style.
pub open spec fn recombined(ts: Seq<Seq<u8>>, style: Case) -> Seq<u8> {
    match style {
        Case::LowerCamel => lower_camel(ts),
        Case::UpperCamel => upper_camel(ts),
        Case::Snake => joined(ts, 95),
        Case::ScreamingSnake => uppered(joined(ts, 95)),
        Case::Kebab => joined(ts, 45),
        Case::ScreamingKebab => uppered(joined(ts, 45)),
        Case::Words => joined(ts, 32),
    }
}

fn push_all(r: &mut Vec<u8>, t: &[u8])
    ensures
        final(r)@ == old(r)@ + t@,
{
    let mut k: usize = 0;
    while k < t.len()
        invariant
            0 <= k <= t@.len(),
            r@ == old(r)@ + t@.subrange(0, k as int),
        decreases t@.len() - k,
    {
        r.push(t[k]);
        proof {
            assert(old(r)@ + t@.subrange(0, k + 1 as int) =~= (old(r)@ + t@.subrange(
                0,
                k as int,
            )).push(t@[k as int]));
        }
        k = k + 1;
    }
    proof {
        assert(t@.subrange(0, t@.len() as int) =~= t@);
    }
}

/// Return a copy of the token with its first byte uppercased.
pub fn capitalize_first(token: &[u8]) -> (r: Vec<u8>)
    ensures
        r@ == capitalized(token@),
{
    let mut r: Vec<u8> = Vec::new();
    if token.len() > 0 {
        let c = token[0];
        let up = if 97 <= c && c <= 122 {
            c - 32
        } else {
            c
        };
        r.push(up);
        push_all(&mut r, &token[1..token.len()]);
        proof {
            assert(r@ =~= capitalized(token@));
        }
    }
    r
}

fn join_tokens(tokens: &Vec<Vec<u8>>, sep: u8) -> (r: Vec<u8>)
    ensures
        r@ == joined(token_views(tokens@), sep),
{
    let ghost tv = token_views(tokens@);
    let mut r: Vec<u8> = Vec::new();
    let mut i: usize = 0;
    while i < tokens.len()
        invariant
            tv == token_views(tokens@),
            tv.len() == tokens@.len(),
            0 <= i <= tokens@.len(),
            r@ == joined(tv.take(i as int), sep),
        decreases tokens@.len() - i,
    {
        if i > 0 {
            r.push(sep);
        }
        push_all(&mut r, tokens[i].as_slice());
        proof {
            assert(tv.take(i + 1 as int).drop_last() =~= tv.take(i as int));
            assert(tv.take(i + 1 as int).last() == tv[i as int]);
            if i > 0 {
                assert(r@ =~= joined(tv.take(i as int), sep) + seq![sep] + tv[i as int]);
            }
            assert(r@ == joined(tv.take(i + 1 as int), sep));
        }
        i = i + 1;
    }
    proof {
        assert(tv.take(tv.len() as int) =~= tv);
    }
    r
}

fn upper_all(v: &[u8]) -> (r: Vec<u8>)
    ensures
        r@ == uppered(v@),
{
    let mut r: Vec<u8> = Vec::new();
    let mut k: usize = 0;
    while k < v.len()
        invariant
            0 <= k <= v@.len(),
            r@ == uppered(v@.subrange(0, k as int)),
        decreases v@.len() - k,
    {
        let c = v[k];
        let up = if 97 <= c && c <= 122 {
            c - 32
        } else {
            c
        };
        r.push(up);
        proof {
            assert(uppered(v@.subrange(0, k + 1 as int)) =~= uppered(
                v@.subrange(0, k as int),
            ).push(to_upper_byte(v@[k as int])));
        }
        k = k + 1;
    }
    proof {
        assert(v@.subrange(0, v@.len() as int) =~= v@);
    }
    r
}

/// Render the tokens in the requested case style.  Total over every token
/// sequence; the empty sequence renders as the empty string in every style.
pub fn recombine(tokens: &Vec<Vec<u8>>, style: Case) -> (r: Vec<u8>)
    ensures
        r@ == recombined(token_views(tokens@), style),
{
    let ghost tv = token_views(tokens@);
    match style {
        Case::LowerCamel => {
            let mut r: Vec<u8> = Vec::new();
            let mut i: usize = 0;
            while i < tokens.len()
                invariant
                    tv == token_views(tokens@),
                    tv.len() == tokens@.len(),
                    0 <= i <= tokens@.len(),
                    r@ == lower_camel(tv.take(i as int)),
                decreases tokens@.len() - i,
            {
                if i == 0 {
                    push_all(&mut r, tokens[i].as_slice());
                } else {
                    let cap = capitalize_first(tokens[i].as_slice());
                    push_all(&mut r, cap.as_slice());
                }
                proof {
                    assert(tv.take(i + 1 as int).drop_last() =~= tv.take(i as int));
                    assert(tv.take(i + 1 as int).last() == tv[i as int]);
                    assert(r@ == lower_camel(tv.take(i + 1 as int)));
                }
                i = i + 1;
            }
            proof {
                assert(tv.take(tv.len() as int) =~= tv);
            }
            r
        },
        Case::UpperCamel => {
            let mut r: Vec<u8> = Vec::new();
            let mut i: usize = 0;
            while i < tokens.len()
                invariant
                    tv == token_views(tokens@),
                    tv.len() == tokens@.len(),
                    0 <= i <= tokens@.len(),
                    r@ == upper_camel(tv.take(i as int)),
                decreases tokens@.len() - i,
            {
                let cap = capitalize_first(tokens[i].as_slice());
                push_all(&mut r, cap.as_slice());
                proof {
                    assert(tv.take(i + 1 as int).drop_last() =~= tv.take(i as int));
                    assert(tv.take(i + 1 as int).last() == tv[i as int]);
                    assert(r@ == upper_camel(tv.take(i + 1 as int)));
                }
                i = i + 1;
            }
            proof {
                assert(tv.take(tv.len() as int) =~= tv);
            }
            r
        },
        Case::Snake => join_tokens(tokens, 95),
        Case::ScreamingSnake => {
            let j = join_tokens(tokens, 95);
            upper_all(j.as_slice())
        },
        Case::Kebab => join_tokens(tokens, 45),
        Case::ScreamingKebab => {
            let j = join_tokens(tokens, 45);
            upper_all(j.as_slice())
        },
        Case::Words => join_tokens(tokens, 32),
    }
}

} // verus!
