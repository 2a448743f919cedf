//! Escape decoder: turns one raw output line holding terminal color-escape
//! sequences into plain text plus the byte spans that were wrapped in the
//! search tool's match-highlight sequence.
//!
//! The wire format is the tool's default colorized output: a match highlight
//! opens with the fixed twelve-byte prefix `ESC [ m ESC [ 3 1 m ESC [ 1 m`
//! and closes with the three-byte reset `ESC [ m`.  Every byte outside those
//! sequences is copied verbatim; the bytes between them are copied and their
//! resulting range in the output is recorded as one match span.  An opening
//! sequence whose reset never arrives is a decode error, never a truncated or
//! wrong span.

use vstd::prelude::*;

use crate::base::{Line, LineModel, spans_of};

verus! {

/// Why raw tool output could not be reinterpreted.
#[derive(Clone, Copy, Debug, PartialEq, Eq, Structural)]
pub enum ParseError {
    /// A match highlight was opened but never reset.
    UnterminatedHighlight,
    /// A file-header line too short to hold a path.
    MalformedHeader,
    /// A numbered content line whose line-number field never ends.
    MalformedContentLine,
    /// A numbered content line whose embedded line number is not a number.
    InvalidLineNumber,
    /// A content line arrived before any file header.
    MissingFileHeader,
}

/// The twelve bytes that open a match highlight: `ESC [ m ESC [ 3 1 m ESC [ 1 m`.
pub open spec fn highlight_open() -> Seq<u8> {
    seq![27u8, 91u8, 109u8, 27u8, 91u8, 51u8, 49u8, 109u8, 27u8, 91u8, 49u8, 109u8]
}

/// The three reset bytes: `ESC [ m`.
pub open spec fn reset_mark() -> Seq<u8> {
    seq![27u8, 91u8, 109u8]
}

/// `p` occurs in `s` at position `i`.
pub open spec fn matches_at(s: Seq<u8>, i: int, p: Seq<u8>) -> bool {
    &&& 0 <= i
    &&& i + p.len() <= s.len()
    &&& forall|k: int| 0 <= k < p.len() ==> s[i + k] == #[trigger] p[k]
}

/// Position of the first reset mark at or after `from`, if any.
pub open spec fn find_reset(s: Seq<u8>, from: int) -> Option<int>
    decreases s.len() - from,
{
    if from < 0 || from + 3 > s.len() {
        None
    } else if matches_at(s, from, reset_mark()) {
        Some(from)
    } else {
        find_reset(s, from + 1)
    }
}

/// What a found reset position satisfies: it is the first one.
pub proof fn lemma_find_reset_some(s: Seq<u8>, from: int, e: int)
    requires
        find_reset(s, from) == Some(e),
    ensures
        from <= e,
        e + 3 <= s.len(),
        matches_at(s, e, reset_mark()),
        forall|p: int| from <= p < e ==> !matches_at(s, p, reset_mark()),
    decreases s.len() - from,
{
    if from < 0 || from + 3 > s.len() {
    } else if matches_at(s, from, reset_mark()) {
    } else {
        lemma_find_reset_some(s, from + 1, e);
    }
}

/// Where no reset mark stands at or after `from`, none is found.
pub proof fn lemma_find_reset_none(s: Seq<u8>, from: int)
    requires
        forall|p: int| p >= from ==> !matches_at(s, p, reset_mark()),
    ensures
        find_reset(s, from) is None,
    decreases s.len() - from,
{
    if from < 0 || from + 3 > s.len() {
    } else if matches_at(s, from, reset_mark()) {
    } else {
        lemma_find_reset_none(s, from + 1);
    }
}

/// The decoded form of a raw line suffix: the plain text it contributes and
/// its match spans, with span offsets measured from the start of the whole
/// output text (`out_len` bytes of which were already produced).
#[verifier::ext_equal]
pub ghost struct DecodedLine {
    pub full: Seq<u8>,
    pub spans: Seq<(int, int)>,
}

/// Decodes the suffix of `s` that starts at `i`, with `out_len` output bytes
/// already produced; `None` is an unterminated highlight.
pub open spec fn decode_from(s: Seq<u8>, i: int, out_len: int) -> Option<DecodedLine>
    decreases s.len() - i,
{
    if i < 0 {
        None
    } else if i >= s.len() {
        Some(DecodedLine { full: Seq::empty(), spans: Seq::empty() })
    } else if matches_at(s, i, highlight_open()) {
        match find_reset(s, i + 12) {
            None => None,
            Some(e) => if i + 12 <= e && e + 3 <= s.len() {
                let m = s.subrange(i + 12, e);
                match decode_from(s, e + 3, out_len + m.len()) {
                    None => None,
                    Some(rest) => Some(
                        DecodedLine {
                            full: m + rest.full,
                            spans: seq![(out_len, out_len + m.len() as int)] + rest.spans,
                        },
                    ),
                }
            } else {
                None
            },
        }
    } else {
        match decode_from(s, i + 1, out_len + 1) {
            None => None,
            Some(rest) => Some(
                DecodedLine { full: seq![s[i]] + rest.full, spans: rest.spans },
            ),
        }
    }
}

/// The decoded form of one whole raw line.
pub open spec fn decode_line(s: Seq<u8>) -> Option<DecodedLine> {
    decode_from(s, 0, 0)
}

/// Prefixes already-produced text and spans onto a decoded suffix.
pub open spec fn decoded_prepend(f: Seq<u8>, sp: Seq<(int, int)>, r: Option<DecodedLine>) -> Option<
    DecodedLine,
> {
    match r {
        None => None,
        Some(d) => Some(DecodedLine { full: f + d.full, spans: sp + d.spans }),
    }
}

/// Decoding a suffix free of escape bytes returns it unchanged, without spans.
proof fn lemma_decode_plain_suffix(s: Seq<u8>, i: int, out_len: int)
    requires
        0 <= i <= s.len(),
        forall|k: int| i <= k < s.len() ==> s[k] != 27,
    ensures
        decode_from(s, i, out_len) == Some(
            DecodedLine { full: s.skip(i), spans: Seq::<(int, int)>::empty() },
        ),
    decreases s.len() - i,
{
    if i >= s.len() {
        assert(s.skip(i) =~= Seq::<u8>::empty());
    } else {
        assert(!matches_at(s, i, highlight_open())) by {
            if matches_at(s, i, highlight_open()) {
                assert(s[i + 0] == highlight_open()[0]);
            }
        }
        lemma_decode_plain_suffix(s, i + 1, out_len + 1);
        assert(seq![s[i]] + s.skip(i + 1) =~= s.skip(i));
    }
}

/// A line with no escape byte decodes to itself, with no match spans.
pub proof fn lemma_decode_no_escape(s: Seq<u8>)
    requires
        forall|k: int| 0 <= k < s.len() ==> s[k] != 27,
    ensures
        decode_line(s) == Some(DecodedLine { full: s, spans: Seq::<(int, int)>::empty() }),
{
    lemma_decode_plain_suffix(s, 0, 0);
    assert(s.skip(0) =~= s);
}

/// The highlighted substrings of the suffix of `s` starting at `i`, in
/// left-to-right order, as the raw input holds them.
pub open spec fn highlights_from(s: Seq<u8>, i: int) -> Option<Seq<Seq<u8>>>
    decreases s.len() - i,
{
    if i < 0 {
        None
    } else if i >= s.len() {
        Some(Seq::empty())
    } else if matches_at(s, i, highlight_open()) {
        match find_reset(s, i + 12) {
            None => None,
            Some(e) => if i + 12 <= e && e + 3 <= s.len() {
                match highlights_from(s, e + 3) {
                    None => None,
                    Some(hs) => Some(seq![s.subrange(i + 12, e)] + hs),
                }
            } else {
                None
            },
        }
    } else {
        highlights_from(s, i + 1)
    }
}

/// The highlighted substrings of one whole raw line.
pub open spec fn line_highlights(s: Seq<u8>) -> Option<Seq<Seq<u8>>> {
    highlights_from(s, 0)
}

proof fn lemma_round_trip_from(s: Seq<u8>, i: int, out_len: int)
    requires
        0 <= i,
        decode_from(s, i, out_len) is Some,
    ensures
        highlights_from(s, i) is Some,
        ({
            let d = decode_from(s, i, out_len).unwrap();
            let hs = highlights_from(s, i).unwrap();
            &&& d.spans.len() == hs.len()
            &&& forall|k: int|
                0 <= k < d.spans.len() ==> out_len <= #[trigger] d.spans[k].0 <= d.spans[k].1
                    <= out_len + d.full.len()
            &&& forall|k: int|
                0 <= k && k + 1 < d.spans.len() ==> #[trigger] d.spans[k].1 <= d.spans[k + 1].0
            &&& forall|k: int|
                0 <= k < d.spans.len() ==> d.full.subrange(
                    #[trigger] d.spans[k].0 - out_len,
                    d.spans[k].1 - out_len,
                ) == hs[k]
        }),
    decreases s.len() - i,
{
    let d = decode_from(s, i, out_len).unwrap();
    if i >= s.len() {
    } else if matches_at(s, i, highlight_open()) {
        let e = find_reset(s, i + 12).unwrap();
        let m = s.subrange(i + 12, e);
        lemma_round_trip_from(s, e + 3, out_len + m.len() as int);
        let rest = decode_from(s, e + 3, out_len + m.len() as int).unwrap();
        let rhs = highlights_from(s, e + 3).unwrap();
        let hs = highlights_from(s, i).unwrap();
        assert(hs == seq![m] + rhs);
        assert(d.full == m + rest.full);
        assert(d.spans == seq![(out_len, out_len + m.len() as int)] + rest.spans);
        assert forall|k: int| 0 <= k < d.spans.len() implies d.full.subrange(
            #[trigger] d.spans[k].0 - out_len,
            d.spans[k].1 - out_len,
        ) == hs[k] by {
            if k == 0 {
                assert(d.full.subrange(0, m.len() as int) =~= m);
            } else {
                let (a, b) = rest.spans[k - 1];
                assert(d.spans[k] == rest.spans[k - 1]);
                assert(out_len + m.len() <= a <= b <= out_len + m.len() + rest.full.len());
                assert(d.full.subrange(a - out_len, b - out_len) =~= rest.full.subrange(
                    a - (out_len + m.len() as int),
                    b - (out_len + m.len() as int),
                ));
                assert(rest.full.subrange(
                    a - (out_len + m.len() as int),
                    b - (out_len + m.len() as int),
                ) == rhs[k - 1]);
            }
        }
    } else {
        lemma_round_trip_from(s, i + 1, out_len + 1);
        let rest = decode_from(s, i + 1, out_len + 1).unwrap();
        let rhs = highlights_from(s, i + 1).unwrap();
        assert(d.full == seq![s[i]] + rest.full);
        assert forall|k: int| 0 <= k < d.spans.len() implies d.full.subrange(
            #[trigger] d.spans[k].0 - out_len,
            d.spans[k].1 - out_len,
        ) == hs_of(s, i)[k] by {
            let (a, b) = rest.spans[k];
            assert(out_len + 1 <= a <= b <= out_len + 1 + rest.full.len());
            assert(d.full.subrange(a - out_len, b - out_len) =~= rest.full.subrange(
                a - (out_len + 1),
                b - (out_len + 1),
            ));
            assert(rest.full.subrange(a - (out_len + 1), b - (out_len + 1)) == rhs[k]);
        }
    }
}

/// Spec-side shorthand for the highlight list of a suffix.
pub open spec fn hs_of(s: Seq<u8>, i: int) -> Seq<Seq<u8>> {
    highlights_from(s, i).unwrap()
}

/// The decoder's round trip: when a line decodes, it has exactly as many
/// spans as it has highlighted substrings, the spans are ordered left to
/// right and non-overlapping within the decoded text, and slicing the decoded
/// text by any span returns exactly the corresponding highlighted substring.
pub proof fn lemma_decode_round_trip(s: Seq<u8>)
    requires
        decode_line(s) is Some,
    ensures
        line_highlights(s) is Some,
        ({
            let d = decode_line(s).unwrap();
            let hs = line_highlights(s).unwrap();
            &&& d.spans.len() == hs.len()
            &&& forall|k: int|
                0 <= k < d.spans.len() ==> 0 <= #[trigger] d.spans[k].0 <= d.spans[k].1
                    <= d.full.len()
            &&& forall|k: int|
                0 <= k && k + 1 < d.spans.len() ==> #[trigger] d.spans[k].1 <= d.spans[k + 1].0
            &&& forall|k: int|
                0 <= k < d.spans.len() ==> d.full.subrange(
                    #[trigger] d.spans[k].0,
                    d.spans[k].1,
                ) == hs[k]
        }),
{
    lemma_round_trip_from(s, 0, 0);
    let d = decode_line(s).unwrap();
    assert forall|k: int| 0 <= k < d.spans.len() implies d.full.subrange(
        #[trigger] d.spans[k].0,
        d.spans[k].1,
    ) == line_highlights(s).unwrap()[k] by {
        assert(d.full.subrange(d.spans[k].0 - 0, d.spans[k].1 - 0) == line_highlights(
            s,
        ).unwrap()[k]);
    }
}

/// A line whose first highlight opening is never reset fails to decode: no
/// truncated or wrong span is produced.  `i` is the position of the first
/// opening sequence, and no reset mark stands at or beyond the end of that
/// opening.
pub proof fn lemma_unterminated_highlight(s: Seq<u8>, i: int)
    requires
        matches_at(s, i, highlight_open()),
        forall|j: int| 0 <= j < i ==> !matches_at(s, j, highlight_open()),
        forall|p: int| p >= i + 12 ==> !matches_at(s, p, reset_mark()),
    ensures
        decode_line(s) is None,
{
    lemma_unterminated_aux(s, 0, i, 0);
}

proof fn lemma_unterminated_aux(s: Seq<u8>, j: int, i: int, out_len: int)
    requires
        0 <= j <= i,
        matches_at(s, i, highlight_open()),
        forall|t: int| j <= t < i ==> !matches_at(s, t, highlight_open()),
        forall|p: int| p >= i + 12 ==> !matches_at(s, p, reset_mark()),
    ensures
        decode_from(s, j, out_len) is None,
    decreases i - j,
{
    if j == i {
        lemma_find_reset_none(s, i + 12);
    } else {
        lemma_unterminated_aux(s, j + 1, i, out_len + 1);
    }
}

/// Checks for the highlight-opening sequence at position `i`.
fn open_at(v: &Vec<u8>, i: usize) -> (r: bool)
    ensures
        r == matches_at(v@, i as int, highlight_open()),
{
    if v.len() < 12 || i > v.len() - 12 {
        return false;
    }
    let r = v[i] == 27 && v[i + 1] == 91 && v[i + 2] == 109 && v[i + 3] == 27 && v[i + 4] == 91
        && v[i + 5] == 51 && v[i + 6] == 49 && v[i + 7] == 109 && v[i + 8] == 27 && v[i + 9] == 91
        && v[i + 10] == 49 && v[i + 11] == 109;
    proof {
        if r {
            assert forall|k: int| 0 <= k < 12 implies v@[i + k] == #[trigger] highlight_open()[k] by {
                if k == 0 {
                } else if k == 1 {
                } else if k == 2 {
                } else if k == 3 {
                } else if k == 4 {
                } else if k == 5 {
                } else if k == 6 {
                } else if k == 7 {
                } else if k == 8 {
                } else if k == 9 {
                } else if k == 10 {
                } else {
                }
            }
        } else {
            if matches_at(v@, i as int, highlight_open()) {
                assert(v@[i as int + 0] == highlight_open()[0]);
                assert(v@[i as int + 1] == highlight_open()[1]);
                assert(v@[i as int + 2] == highlight_open()[2]);
                assert(v@[i as int + 3] == highlight_open()[3]);
                assert(v@[i as int + 4] == highlight_open()[4]);
                assert(v@[i as int + 5] == highlight_open()[5]);
                assert(v@[i as int + 6] == highlight_open()[6]);
                assert(v@[i as int + 7] == highlight_open()[7]);
                assert(v@[i as int + 8] == highlight_open()[8]);
                assert(v@[i as int + 9] == highlight_open()[9]);
                assert(v@[i as int + 10] == highlight_open()[10]);
                assert(v@[i as int + 11] == highlight_open()[11]);
            }
        }
    }
    r
}

/// Checks for the reset mark at position `i`.
fn reset_at(v: &Vec<u8>, i: usize) -> (r: bool)
    ensures
        r == matches_at(v@, i as int, reset_mark()),
{
    if v.len() < 3 || i > v.len() - 3 {
        return false;
    }
    let r = v[i] == 27 && v[i + 1] == 91 && v[i + 2] == 109;
    proof {
        if r {
            assert forall|k: int| 0 <= k < 3 implies v@[i + k] == #[trigger] reset_mark()[k] by {
                if k == 0 {
                } else if k == 1 {
                } else {
                }
            }
        } else {
            if matches_at(v@, i as int, reset_mark()) {
                assert(v@[i as int + 0] == reset_mark()[0]);
                assert(v@[i as int + 1] == reset_mark()[1]);
                assert(v@[i as int + 2] == reset_mark()[2]);
            }
        }
    }
    r
}

/// Finds the first reset mark at or after `from`.
pub fn find_reset_from(v: &Vec<u8>, from: usize) -> (r: Option<usize>)
    ensures
        match r {
            Some(e) => find_reset(v@, from as int) == Some(e as int) && from <= e && e + 3 <= v@.len(),
            None => find_reset(v@, from as int) is None,
        },
{
    if v.len() < 3 || from > v.len() - 3 {
        return None;
    }
    let mut j = from;
    while j <= v.len() - 3
        invariant
            from <= j,
            v@.len() >= 3,
            j <= v@.len() - 3 + 1,
            find_reset(v@, from as int) == find_reset(v@, j as int),
        decreases v.len() - j,
    {
        if reset_at(v, j) {
            proof {
                lemma_find_reset_some(v@, j as int, j as int);
            }
            return Some(j);
        }
        j = j + 1;
    }
    None
}

/// Decodes one raw line: strips the color-escape sequences, returning the
/// plain text and, in output-byte coordinates, the span of every highlighted
/// substring, in left-to-right order.  A highlight that is opened but never
/// reset is reported as an error.
#[verifier::rlimit(50)]
pub fn parse_line(raw: &Vec<u8>) -> (r: Result<Line, ParseError>)
    ensures
        match r {
            Ok(l) => decode_line(raw@) == Some(DecodedLine { full: l@.full, spans: l@.matches })
                && crate::base::line_wf(l@),
            Err(e) => decode_line(raw@) is None && e == ParseError::UnterminatedHighlight,
        },
{
    let mut full: Vec<u8> = Vec::new();
    let mut matches: Vec<(usize, usize)> = Vec::new();
    let mut i: usize = 0;
    proof {
        assert(decoded_prepend(full@, spans_of(matches@), decode_from(raw@, 0, 0)) =~= match decode_from(
            raw@,
            0,
            0,
        ) {
            None => None,
            Some(d) => Some(DecodedLine { full: d.full, spans: d.spans }),
        }) by {
            match decode_from(raw@, 0, 0) {
                None => {},
                Some(d) => {
                    assert(full@ + d.full =~= d.full);
                    assert(spans_of(matches@) + d.spans =~= d.spans);
                },
            }
        }
    }
    while i < raw.len()
        invariant
            i <= raw.len(),
            full@.len() <= i,
            decode_line(raw@) == decoded_prepend(
                full@,
                spans_of(matches@),
                decode_from(raw@, i as int, full@.len() as int),
            ),
        decreases raw.len() - i,
    {
        let ghost old_full = full@;
        let ghost old_spans = spans_of(matches@);
        let ghost old_i = i as int;
        if open_at(raw, i) {
            match find_reset_from(raw, i + 12) {
                None => {
                    proof {
                        assert(decode_from(raw@, old_i, old_full.len() as int) is None);
                    }
                    return Err(ParseError::UnterminatedHighlight);
                },
                Some(e) => {
                    let start = full.len();
                    let mut t = i + 12;
                    while t < e
                        invariant
                            i + 12 <= t <= e,
                            e <= raw@.len(),
                            full@ == old_full + raw@.subrange(old_i + 12, t as int),
                            i as int == old_i,
                        decreases e - t,
                    {
                        full.push(raw[t]);
                        t = t + 1;
                        proof {
                            assert(full@ =~= old_full + raw@.subrange(old_i + 12, t as int));
                        }
                    }
                    let mlen = e - (i + 12);
                    matches.push((start, start + mlen));
                    i = e + 3;
                    proof {
                        let m = raw@.subrange(old_i + 12, e as int);
                        let inner = decode_from(raw@, e as int + 3, old_full.len() as int + m.len() as int);
                        assert(decode_from(raw@, old_i, old_full.len() as int) == decoded_prepend(
                            m,
                            seq![(old_full.len() as int, old_full.len() as int + m.len() as int)],
                            inner,
                        ));
                        assert(spans_of(matches@) =~= old_spans + seq![
                            (old_full.len() as int, old_full.len() as int + m.len() as int),
                        ]);
                        match inner {
                            None => {},
                            Some(d) => {
                                assert(old_full + (m + d.full) =~= (old_full + m) + d.full);
                                assert(old_spans + (seq![
                                    (old_full.len() as int, old_full.len() as int + m.len() as int),
                                ] + d.spans) =~= spans_of(matches@) + d.spans);
                            },
                        }
                        assert(full@.len() == old_full.len() as int + m.len() as int);
                    }
                },
            }
        } else {
            full.push(raw[i]);
            i = i + 1;
            proof {
                let inner = decode_from(raw@, old_i + 1, old_full.len() as int + 1);
                assert(decode_from(raw@, old_i, old_full.len() as int) == decoded_prepend(
                    seq![raw@[old_i]],
                    Seq::empty(),
                    inner,
                ));
                match inner {
                    None => {},
                    Some(d) => {
                        assert(old_full + (seq![raw@[old_i]] + d.full) =~= full@ + d.full);
                        assert(old_spans + (Seq::<(int, int)>::empty() + d.spans) =~= old_spans
                            + d.spans);
                    },
                }
            }
        }
    }
    proof {
        let tail = decode_from(raw@, i as int, full@.len() as int);
        assert(tail == Some(DecodedLine { full: Seq::<u8>::empty(), spans: Seq::<(int, int)>::empty() }));
        assert(full@ + Seq::<u8>::empty() =~= full@);
        assert(spans_of(matches@) + Seq::<(int, int)>::empty() =~= spans_of(matches@));
    }
    proof {
        assert(decode_line(raw@) == Some(
            DecodedLine { full: full@, spans: spans_of(matches@) },
        ));
        lemma_decode_round_trip(raw@);
        let d = decode_line(raw@).unwrap();
        assert(d.full == full@);
        assert(d.spans == spans_of(matches@));
        let sp = spans_of(matches@);
        let lm = LineModel { full: full@, matches: sp };
        assert forall|k: int|
            0 <= k < lm.matches.len() implies 0 <= #[trigger] lm.matches[k].0 && lm.matches[k].0
            <= lm.matches[k].1 && lm.matches[k].1 <= lm.full.len() by {
            assert(lm.matches[k] == d.spans[k]);
        }
        assert forall|k: int|
            0 <= k && k + 1 < lm.matches.len() implies #[trigger] lm.matches[k].1
            <= lm.matches[k + 1].0 by {
            assert(lm.matches[k] == d.spans[k]);
            assert(lm.matches[k + 1] == d.spans[k + 1]);
        }
        assert(crate::base::line_wf(lm));
    }
    Ok(Line::new(full, matches))
}

} // verus!
