//! Content fingerprinting for snippets.
//!
//! A snippet's hash is a 64-bit FNV-1a fold over a canonical serialization of
//! its lines: for each line, the byte length of its text, the text itself,
//! the number of match spans, and each span's start and end offset.  The hash
//! is a function of that content alone, so byte-identical blocks fingerprint
//! identically; span positions are included, so moving a highlight moves the
//! fingerprint.

use vstd::prelude::*;

use crate::base::{Line, LineModel, line_models, spans_of};

verus! {

pub const FNV_OFFSET: u64 = 0xcbf29ce484222325;

pub const FNV_PRIME: u64 = 0x100000001b3;

/// One FNV-1a step: fold the value `x` into the running hash `h`.
pub open spec fn mix(h: u64, x: u64) -> u64 {
    vstd::wrapping::u64_specs::wrapping_mul(h ^ x, FNV_PRIME)
}

/// Folds every byte of `s` into the running hash `h`, left to right.
pub open spec fn hash_bytes_from(h: u64, s: Seq<u8>) -> u64
    decreases s.len(),
{
    if s.len() == 0 {
        h
    } else {
        hash_bytes_from(mix(h, s.first() as u64), s.drop_first())
    }
}

/// Folds every span of `s` into the running hash `h`, left to right.
pub open spec fn hash_spans_from(h: u64, s: Seq<(int, int)>) -> u64
    decreases s.len(),
{
    if s.len() == 0 {
        h
    } else {
        hash_spans_from(mix(mix(h, s.first().0 as u64), s.first().1 as u64), s.drop_first())
    }
}

/// Folds one line into the running hash: text length, text bytes, span
/// count, then the spans.
pub open spec fn hash_line_from(h: u64, l: LineModel) -> u64 {
    hash_spans_from(mix(hash_bytes_from(mix(h, l.full.len() as u64), l.full), l.matches.len() as u64), l.matches)
}

/// Folds every line of `ls` into the running hash `h`, in order.
pub open spec fn hash_lines_from(h: u64, ls: Seq<LineModel>) -> u64
    decreases ls.len(),
{
    if ls.len() == 0 {
        h
    } else {
        hash_lines_from(hash_line_from(h, ls.first()), ls.drop_first())
    }
}

/// The content fingerprint of a block of lines.
pub open spec fn content_hash(ls: Seq<LineModel>) -> u64 {
    hash_lines_from(mix(FNV_OFFSET, ls.len() as u64), ls)
}

/// One exec FNV-1a step.
fn mix_step(h: u64, x: u64) -> (r: u64)
    ensures
        r == mix(h, x),
{
    (h ^ x).wrapping_mul(FNV_PRIME)
}

/// Folds a byte vector into the running hash.
fn hash_bytes(h0: u64, s: &Vec<u8>) -> (r: u64)
    ensures
        r == hash_bytes_from(h0, s@),
{
    let mut h = h0;
    let mut i: usize = 0;
    proof {
        assert(s@.skip(0) =~= s@);
    }
    while i < s.len()
        invariant
            i <= s.len(),
            hash_bytes_from(h0, s@) == hash_bytes_from(h, s@.skip(i as int)),
        decreases s.len() - i,
    {
        h = mix_step(h, s[i] as u64);
        i = i + 1;
        proof {
            assert(s@.skip(i as int - 1).drop_first() =~= s@.skip(i as int));
        }
    }
    proof {
        assert(s@.skip(s@.len() as int) =~= Seq::<u8>::empty());
    }
    h
}

/// Folds a vector of spans into the running hash.
fn hash_spans(h0: u64, s: &Vec<(usize, usize)>) -> (r: u64)
    ensures
        r == hash_spans_from(h0, spans_of(s@)),
{
    let ghost spans = spans_of(s@);
    let mut h = h0;
    let mut i: usize = 0;
    proof {
        assert(spans.skip(0) =~= spans);
    }
    while i < s.len()
        invariant
            i <= s.len(),
            hash_spans_from(h0, spans) == hash_spans_from(h, spans.skip(i as int)),
            spans == spans_of(s@),
        decreases s.len() - i,
    {
        let (a, b) = s[i];
        proof {
            assert(spans.skip(i as int).first() == spans[i as int]);
        }
        h = mix_step(mix_step(h, a as u64), b as u64);
        i = i + 1;
        proof {
            assert(spans.skip(i as int - 1).drop_first() =~= spans.skip(i as int));
        }
    }
    proof {
        assert(spans.skip(spans.len() as int) =~= Seq::<(int, int)>::empty());
    }
    h
}

/// Computes the content fingerprint of a block of lines.
pub fn hash_lines(lines: &Vec<Line>) -> (r: u64)
    ensures
        r == content_hash(line_models(lines@)),
{
    let ghost ls = line_models(lines@);
    let mut h = mix_step(FNV_OFFSET, lines.len() as u64);
    let mut i: usize = 0;
    proof {
        assert(ls.skip(0) =~= ls);
    }
    while i < lines.len()
        invariant
            i <= lines.len(),
            content_hash(ls) == hash_lines_from(h, ls.skip(i as int)),
            ls == line_models(lines@),
        decreases lines.len() - i,
    {
        let l = &lines[i];
        proof {
            assert(ls.skip(i as int).first() == ls[i as int]);
            assert(ls[i as int] == lines@[i as int]@);
        }
        h = mix_step(h, l.full.len() as u64);
        h = hash_bytes(h, &l.full);
        h = mix_step(h, l.matches.len() as u64);
        h = hash_spans(h, &l.matches);
        i = i + 1;
        proof {
            assert(ls.skip(i as int - 1).drop_first() =~= ls.skip(i as int));
        }
    }
    proof {
        assert(ls.skip(ls.len() as int) =~= Seq::<LineModel>::empty());
    }
    h
}

} // verus!
