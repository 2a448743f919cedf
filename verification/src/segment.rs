//! Output segmenter: a stateful scan over the ordered raw-line stream of one
//! search-tool invocation.  It recognizes file-header lines, numbered content
//! lines and snippet-boundary markers, and produces one snippet per
//! contiguous matched region, each carrying the file it belongs to and the
//! file line number of its first line.
//!
//! A file header opens with `ESC [ m ESC [ 3 5 m` and closes its embedded
//! path with a reset mark; a numbered content line opens with
//! `ESC [ m ESC [ 3 2 m`, holds the decimal line number up to the first reset
//! mark, and continues with the line's (possibly highlighted) content after a
//! one-byte separator.

use vstd::prelude::*;

use crate::base::{
    FileRef, FileRefModel, Line, LineModel, Project, ProjectModel, Snippet, SnippetModel,
    file_ref_of, line_models, snippet_models, snippet_of,
};
use crate::bytes::subvec;
use crate::decode::{
    DecodedLine, ParseError, decode_line, find_reset, find_reset_from, matches_at, parse_line,
};

verus! {

/// The eight bytes that open a file-header line: `ESC [ m ESC [ 3 5 m`.
pub open spec fn file_header_prefix() -> Seq<u8> {
    seq![27u8, 91u8, 109u8, 27u8, 91u8, 51u8, 53u8, 109u8]
}

/// The eight bytes that open a numbered content line: `ESC [ m ESC [ 3 2 m`.
pub open spec fn line_number_prefix() -> Seq<u8> {
    seq![27u8, 91u8, 109u8, 27u8, 91u8, 51u8, 50u8, 109u8]
}

/// A snippet-boundary marker: the line `--`.
pub open spec fn is_boundary_line(l: Seq<u8>) -> bool {
    l.len() == 2 && l[0] == 45 && l[1] == 45
}

/// A file-header line.
pub open spec fn is_header_line(l: Seq<u8>) -> bool {
    matches_at(l, 0, file_header_prefix())
}

/// A numbered content line.
pub open spec fn is_content_line(l: Seq<u8>) -> bool {
    matches_at(l, 0, line_number_prefix())
}

/// A decimal digit.
pub open spec fn is_digit(b: u8) -> bool {
    48 <= b <= 57
}

/// Every byte of `s` is a decimal digit.
pub open spec fn all_digits(s: Seq<u8>) -> bool {
    forall|k: int| 0 <= k < s.len() ==> is_digit(#[trigger] s[k])
}

/// The decimal value of a digit string.
pub open spec fn digits_val(s: Seq<u8>) -> int
    decreases s.len(),
{
    if s.len() == 0 {
        0
    } else {
        digits_val(s.drop_last()) * 10 + (s.last() as int - 48)
    }
}

/// What parsing an embedded line number yields: its value when the field is
/// a non-empty run of digits whose value a `usize` can hold, nothing
/// otherwise.
pub open spec fn parse_count(s: Seq<u8>) -> Option<int> {
    if s.len() == 0 || !all_digits(s) || digits_val(s) > usize::MAX {
        None
    } else {
        Some(digits_val(s))
    }
}

proof fn lemma_digits_val_nonneg(s: Seq<u8>)
    requires
        all_digits(s),
    ensures
        digits_val(s) >= 0,
    decreases s.len(),
{
    if s.len() > 0 {
        lemma_digits_val_nonneg(s.drop_last());
    }
}

/// A digit string's value is at least the value of any of its prefixes.
proof fn lemma_digits_val_prefix(s: Seq<u8>, k: int)
    requires
        all_digits(s),
        0 <= k <= s.len(),
    ensures
        digits_val(s) >= digits_val(s.subrange(0, k)),
    decreases s.len() - k,
{
    if k == s.len() {
        assert(s.subrange(0, k) =~= s);
    } else {
        lemma_digits_val_prefix(s, k + 1);
        let p = s.subrange(0, k + 1);
        assert(p.drop_last() =~= s.subrange(0, k));
        assert(all_digits(s.subrange(0, k))) by {
            assert(forall|t: int|
                0 <= t < k ==> #[trigger] s.subrange(0, k)[t] == s[t]);
        }
        lemma_digits_val_nonneg(s.subrange(0, k));
        assert(digits_val(p) == digits_val(s.subrange(0, k)) * 10 + (p.last() as int - 48));
        assert(digits_val(p) >= digits_val(s.subrange(0, k)));
    }
}

/// Parses the decimal line number held in `v[from..to]`.
pub fn parse_usize(v: &Vec<u8>, from: usize, to: usize) -> (r: Option<usize>)
    requires
        from <= to <= v@.len(),
    ensures
        match r {
            Some(n) => parse_count(v@.subrange(from as int, to as int)) == Some(n as int),
            None => parse_count(v@.subrange(from as int, to as int)) is None,
        },
{
    let ghost digs = v@.subrange(from as int, to as int);
    if from == to {
        return None;
    }
    let mut acc: usize = 0;
    let mut i: usize = from;
    proof {
        assert(digs.subrange(0, 0) =~= Seq::<u8>::empty());
    }
    while i < to
        invariant
            from <= i <= to <= v@.len(),
            digs == v@.subrange(from as int, to as int),
            all_digits(digs.subrange(0, i - from)),
            acc as int == digits_val(digs.subrange(0, i - from)),
        decreases to - i,
    {
        let b = v[i];
        if b < 48 || b > 57 {
            proof {
                assert(digs[i - from] == b);
                assert(!all_digits(digs));
            }
            return None;
        }
        let d = (b - 48) as usize;
        let ghost pre = digs.subrange(0, i - from);
        let ghost ext = digs.subrange(0, i - from + 1);
        proof {
            assert(ext.drop_last() =~= pre);
            assert(ext.last() == digs[i - from]);
            assert(digs[i - from] == b);
            assert(all_digits(ext)) by {
                assert(forall|t: int| 0 <= t < pre.len() ==> ext[t] == #[trigger] pre[t]);
            }
            assert(digits_val(ext) == acc as int * 10 + d);
        }
        if acc > usize::MAX / 10 {
            proof {
                lemma_overflow(digs, i - from + 1);
            }
            return None;
        }
        let base = acc * 10;
        if d > usize::MAX - base {
            proof {
                lemma_overflow(digs, i - from + 1);
            }
            return None;
        }
        acc = base + d;
        i = i + 1;
    }
    proof {
        assert(digs.subrange(0, to - from) =~= digs);
    }
    Some(acc)
}

/// When some prefix of the digit field already exceeds `usize::MAX`, the
/// whole field cannot be parsed.
proof fn lemma_overflow(digs: Seq<u8>, k: int)
    requires
        0 <= k <= digs.len(),
        digits_val(digs.subrange(0, k)) > usize::MAX,
    ensures
        parse_count(digs) is None,
{
    if all_digits(digs) {
        lemma_digits_val_prefix(digs, k);
    }
}

/// Checks whether `v` is a boundary marker.
fn boundary_at(v: &Vec<u8>) -> (r: bool)
    ensures
        r == is_boundary_line(v@),
{
    v.len() == 2 && v[0] == 45 && v[1] == 45
}

/// Checks whether `v` opens with the file-header prefix.
fn header_at(v: &Vec<u8>) -> (r: bool)
    ensures
        r == is_header_line(v@),
{
    if v.len() < 8 {
        proof {
            if matches_at(v@, 0, file_header_prefix()) {
            }
        }
        return false;
    }
    let r = v[0] == 27 && v[1] == 91 && v[2] == 109 && v[3] == 27 && v[4] == 91 && v[5] == 51
        && v[6] == 53 && v[7] == 109;
    proof {
        if r {
            assert forall|k: int| 0 <= k < 8 implies v@[0 + k] == #[trigger] file_header_prefix()[k] by {
                if k == 0 {
                } else if k == 1 {
                } else if k == 2 {
                } else if k == 3 {
                } else if k == 4 {
                } else if k == 5 {
                } else if k == 6 {
                } else {
                }
            }
        } else {
            if matches_at(v@, 0, file_header_prefix()) {
                assert(v@[0] == file_header_prefix()[0]);
                assert(v@[1] == file_header_prefix()[1]);
                assert(v@[2] == file_header_prefix()[2]);
                assert(v@[3] == file_header_prefix()[3]);
                assert(v@[4] == file_header_prefix()[4]);
                assert(v@[5] == file_header_prefix()[5]);
                assert(v@[6] == file_header_prefix()[6]);
                assert(v@[7] == file_header_prefix()[7]);
            }
        }
    }
    r
}

/// Checks whether `v` opens with the line-number prefix.
fn content_at(v: &Vec<u8>) -> (r: bool)
    ensures
        r == is_content_line(v@),
{
    if v.len() < 8 {
        proof {
            if matches_at(v@, 0, line_number_prefix()) {
            }
        }
        return false;
    }
    let r = v[0] == 27 && v[1] == 91 && v[2] == 109 && v[3] == 27 && v[4] == 91 && v[5] == 51
        && v[6] == 50 && v[7] == 109;
    proof {
        if r {
            assert forall|k: int| 0 <= k < 8 implies v@[0 + k] == #[trigger] line_number_prefix()[k] by {
                if k == 0 {
                } else if k == 1 {
                } else if k == 2 {
                } else if k == 3 {
                } else if k == 4 {
                } else if k == 5 {
                } else if k == 6 {
                } else {
                }
            }
        } else {
            if matches_at(v@, 0, line_number_prefix()) {
                assert(v@[0] == line_number_prefix()[0]);
                assert(v@[1] == line_number_prefix()[1]);
                assert(v@[2] == line_number_prefix()[2]);
                assert(v@[3] == line_number_prefix()[3]);
                assert(v@[4] == line_number_prefix()[4]);
                assert(v@[5] == line_number_prefix()[5]);
                assert(v@[6] == line_number_prefix()[6]);
                assert(v@[7] == line_number_prefix()[7]);
            }
        }
    }
    r
}


/// The views of a sequence of raw byte lines.
pub open spec fn raw_views(s: Seq<Vec<u8>>) -> Seq<Seq<u8>> {
    s.map_values(|v: Vec<u8>| v@)
}

/// The model of an optional current file.
pub open spec fn file_opt_model(c: Option<FileRef>) -> Option<FileRefModel> {
    match c {
        None => None,
        Some(f) => Some(f@),
    }
}

/// Prefixes already-emitted snippets onto the rest of a segmentation.
pub open spec fn seg_prepend(
    pre: Seq<SnippetModel>,
    r: Result<Seq<SnippetModel>, ParseError>,
) -> Result<Seq<SnippetModel>, ParseError> {
    match r {
        Err(e) => Err(e),
        Ok(v) => Ok(pre + v),
    }
}

/// The segmenter's state machine, from raw line `i` on: `cur` is the current
/// file, `pending` the lines accumulated since the last flush, and `start`
/// the file line number of the first pending line.  Yields the snippets the
/// rest of the stream produces, or the first error.
pub open spec fn segment_from(
    lines: Seq<Seq<u8>>,
    i: int,
    project: ProjectModel,
    cur: Option<FileRefModel>,
    pending: Seq<LineModel>,
    start: int,
) -> Result<Seq<SnippetModel>, ParseError>
    decreases lines.len() - i,
{
    if i < 0 {
        Err(ParseError::MissingFileHeader)
    } else if i >= lines.len() {
        if pending.len() == 0 {
            Ok(Seq::empty())
        } else {
            match cur {
                None => Err(ParseError::MissingFileHeader),
                Some(f) => Ok(seq![snippet_of(pending, start, f)]),
            }
        }
    } else {
        let l = lines[i];
        if is_boundary_line(l) {
            if pending.len() == 0 {
                segment_from(lines, i + 1, project, cur, pending, start)
            } else {
                match cur {
                    None => Err(ParseError::MissingFileHeader),
                    Some(f) => match segment_from(lines, i + 1, project, cur, Seq::empty(), 0) {
                        Err(e) => Err(e),
                        Ok(rest) => Ok(seq![snippet_of(pending, start, f)] + rest),
                    },
                }
            }
        } else if is_header_line(l) {
            if l.len() < 11 {
                Err(ParseError::MalformedHeader)
            } else {
                let nf = file_ref_of(project, l.subrange(8, l.len() - 3));
                if pending.len() == 0 {
                    segment_from(lines, i + 1, project, Some(nf), pending, start)
                } else {
                    match cur {
                        None => Err(ParseError::MissingFileHeader),
                        Some(pf) => match segment_from(
                            lines,
                            i + 1,
                            project,
                            Some(nf),
                            Seq::empty(),
                            0,
                        ) {
                            Err(e) => Err(e),
                            Ok(rest) => Ok(seq![snippet_of(pending, start, pf)] + rest),
                        },
                    }
                }
            }
        } else if is_content_line(l) {
            match find_reset(l, 8) {
                None => Err(ParseError::MalformedContentLine),
                Some(e) => if e + 4 > l.len() {
                    Err(ParseError::MalformedContentLine)
                } else {
                    match parse_count(l.subrange(8, e)) {
                        None => Err(ParseError::InvalidLineNumber),
                        Some(n) => match decode_line(l.subrange(e + 4, l.len() as int)) {
                            None => Err(ParseError::UnterminatedHighlight),
                            Some(d) => {
                                let lm = LineModel { full: d.full, matches: d.spans };
                                let ns = if pending.len() == 0 {
                                    n
                                } else {
                                    start
                                };
                                segment_from(lines, i + 1, project, cur, pending.push(lm), ns)
                            },
                        },
                    }
                },
            }
        } else {
            segment_from(lines, i + 1, project, cur, pending, start)
        }
    }
}

/// The segmentation of one whole invocation's raw output.
pub open spec fn segment_lines(lines: Seq<Seq<u8>>, project: ProjectModel) -> Result<
    Seq<SnippetModel>,
    ParseError,
> {
    segment_from(lines, 0, project, None, Seq::empty(), 0)
}

/// Segments the ordered raw-line output of one search invocation for one
/// project into snippets: one per contiguous matched region, grouped under
/// the file header that precedes it, anchored at the region's first line
/// number.  Fails with the stream's first decode error or contract
/// violation.
pub fn lines_to_snippets(project: &Project, raw_lines: &Vec<Vec<u8>>) -> (r: Result<
    Vec<Snippet>,
    ParseError,
>)
    ensures
        match r {
            Ok(v) => segment_lines(raw_views(raw_lines@), project@) == Ok::<_, ParseError>(snippet_models(v@)),
            Err(e) => segment_lines(raw_views(raw_lines@), project@) == Err::<Seq<SnippetModel>, _>(e),
        },
{
    let ghost all = raw_views(raw_lines@);
    let mut snippets: Vec<Snippet> = Vec::new();
    let mut pending: Vec<Line> = Vec::new();
    let mut cur: Option<FileRef> = None;
    let mut start: usize = 0;
    let mut i: usize = 0;
    proof {
        assert(line_models(pending@) =~= Seq::<LineModel>::empty());
        assert(snippet_models(snippets@) =~= Seq::<SnippetModel>::empty());
        match segment_lines(all, project@) {
            Err(_) => {},
            Ok(v) => {
                assert(Seq::<SnippetModel>::empty() + v =~= v);
            },
        }
    }
    while i < raw_lines.len()
        invariant
            i <= raw_lines.len(),
            all == raw_views(raw_lines@),
            segment_lines(all, project@) == seg_prepend(
                snippet_models(snippets@),
                segment_from(
                    all,
                    i as int,
                    project@,
                    file_opt_model(cur),
                    line_models(pending@),
                    start as int,
                ),
            ),
        decreases raw_lines.len() - i,
    {
        let ghost old_snips = snippet_models(snippets@);
        let ghost old_pending = line_models(pending@);
        let ghost old_start = start as int;
        let ghost old_cm = file_opt_model(cur);
        let ghost old_i = i as int;
        let line = &raw_lines[i];
        proof {
            assert(all[old_i] == line@);
        }
        if boundary_at(line) {
            if pending.len() > 0 {
                match &cur {
                    None => {
                        return Err(ParseError::MissingFileHeader);
                    },
                    Some(f) => {
                        let owner = f.duplicate();
                        let block = pending;
                        pending = Vec::new();
                        let snip = Snippet::new(block, start, owner);
                        snippets.push(snip);
                        start = 0;
                        proof {
                            let rec = segment_from(
                                all,
                                old_i + 1,
                                project@,
                                old_cm,
                                Seq::empty(),
                                0,
                            );
                            assert(snippet_models(snippets@) =~= old_snips.push(
                                snippet_of(old_pending, old_start, f@),
                            ));
                            assert(line_models(pending@) =~= Seq::<LineModel>::empty());
                            match rec {
                                Err(_) => {},
                                Ok(rest) => {
                                    assert(old_snips + (seq![
                                        snippet_of(old_pending, old_start, f@),
                                    ] + rest) =~= snippet_models(snippets@) + rest);
                                },
                            }
                        }
                    },
                }
            }
            i = i + 1;
        } else if header_at(line) {
            if line.len() < 11 {
                return Err(ParseError::MalformedHeader);
            }
            let path = subvec(line, 8, line.len() - 3);
            let nf = FileRef::new(project, &path);
            if pending.len() > 0 {
                match &cur {
                    None => {
                        return Err(ParseError::MissingFileHeader);
                    },
                    Some(pf) => {
                        let owner = pf.duplicate();
                        let block = pending;
                        pending = Vec::new();
                        let snip = Snippet::new(block, start, owner);
                        snippets.push(snip);
                        start = 0;
                        proof {
                            let rec = segment_from(
                                all,
                                old_i + 1,
                                project@,
                                Some(nf@),
                                Seq::empty(),
                                0,
                            );
                            assert(snippet_models(snippets@) =~= old_snips.push(
                                snippet_of(old_pending, old_start, pf@),
                            ));
                            assert(line_models(pending@) =~= Seq::<LineModel>::empty());
                            match rec {
                                Err(_) => {},
                                Ok(rest) => {
                                    assert(old_snips + (seq![
                                        snippet_of(old_pending, old_start, pf@),
                                    ] + rest) =~= snippet_models(snippets@) + rest);
                                },
                            }
                        }
                    },
                }
            }
            cur = Some(nf);
            i = i + 1;
        } else if content_at(line) {
            match find_reset_from(line, 8) {
                None => {
                    return Err(ParseError::MalformedContentLine);
                },
                Some(e) => {
                    if line.len() < 4 || e > line.len() - 4 {
                        return Err(ParseError::MalformedContentLine);
                    }
                    match parse_usize(line, 8, e) {
                        None => {
                            return Err(ParseError::InvalidLineNumber);
                        },
                        Some(n) => {
                            let content = subvec(line, e + 4, line.len());
                            match parse_line(&content) {
                                Err(err) => {
                                    return Err(err);
                                },
                                Ok(ln) => {
                                    proof {
                                        let d = decode_line(content@).unwrap();
                                        assert(ln@ =~= LineModel {
                                            full: d.full,
                                            matches: d.spans,
                                        });
                                    }
                                    if pending.len() == 0 {
                                        start = n;
                                    }
                                    pending.push(ln);
                                    i = i + 1;
                                    proof {
                                        assert(line_models(pending@) =~= old_pending.push(ln@));
                                    }
                                },
                            }
                        },
                    }
                },
            }
        } else {
            i = i + 1;
        }
    }
    if pending.len() > 0 {
        match &cur {
            None => {
                return Err(ParseError::MissingFileHeader);
            },
            Some(f) => {
                let ghost pre_final = snippet_models(snippets@);
                let ghost pending_model = line_models(pending@);
                let owner = f.duplicate();
                let block = pending;
                let snip = Snippet::new(block, start, owner);
                snippets.push(snip);
                proof {
                    assert(snippet_models(snippets@) =~= pre_final.push(snip@));
                    assert(pre_final + seq![snippet_of(pending_model, start as int, f@)]
                        =~= snippet_models(snippets@));
                }
            },
        }
    }
    proof {
        match segment_lines(all, project@) {
            Err(_) => {},
            Ok(v) => {
                assert(v =~= snippet_models(snippets@));
            },
        }
    }
    Ok(snippets)
}


/// The single-file scan: collects the decoded content of every numbered
/// line, ignoring everything else; the embedded line number itself is not
/// interpreted here.
pub open spec fn collect_from(lines: Seq<Seq<u8>>, i: int) -> Result<Seq<LineModel>, ParseError>
    decreases lines.len() - i,
{
    if i < 0 {
        Err(ParseError::MalformedContentLine)
    } else if i >= lines.len() {
        Ok(Seq::empty())
    } else {
        let l = lines[i];
        if is_content_line(l) {
            match find_reset(l, 8) {
                None => Err(ParseError::MalformedContentLine),
                Some(e) => if e + 4 > l.len() {
                    Err(ParseError::MalformedContentLine)
                } else {
                    match decode_line(l.subrange(e + 4, l.len() as int)) {
                        None => Err(ParseError::UnterminatedHighlight),
                        Some(d) => match collect_from(lines, i + 1) {
                            Err(err) => Err(err),
                            Ok(rest) => Ok(
                                seq![LineModel { full: d.full, matches: d.spans }] + rest,
                            ),
                        },
                    }
                },
            }
        } else {
            collect_from(lines, i + 1)
        }
    }
}

/// The decoded lines of one whole single-file listing.
pub open spec fn collect_lines(lines: Seq<Seq<u8>>) -> Result<Seq<LineModel>, ParseError> {
    collect_from(lines, 0)
}

/// Prefixes already-collected lines onto the rest of a single-file scan.
pub open spec fn collect_prepend(pre: Seq<LineModel>, r: Result<Seq<LineModel>, ParseError>) -> Result<
    Seq<LineModel>,
    ParseError,
> {
    match r {
        Err(e) => Err(e),
        Ok(v) => Ok(pre + v),
    }
}

/// Builds the one whole-file snippet of a single-file listing: every
/// numbered line of the raw output is decoded, in order, into one block
/// anchored at line number 0 for the given file.
pub fn lines_to_snippet(file: &FileRef, raw_lines: &Vec<Vec<u8>>) -> (r: Result<
    Snippet,
    ParseError,
>)
    ensures
        match r {
            Ok(s) => collect_lines(raw_views(raw_lines@)) == Ok::<_, ParseError>(s@.lines)
                && s@ == snippet_of(s@.lines, 0, file@),
            Err(e) => collect_lines(raw_views(raw_lines@)) == Err::<Seq<LineModel>, _>(e),
        },
{
    let ghost all = raw_views(raw_lines@);
    let mut lines: Vec<Line> = Vec::new();
    let mut i: usize = 0;
    proof {
        assert(line_models(lines@) =~= Seq::<LineModel>::empty());
        match collect_lines(all) {
            Err(_) => {},
            Ok(v) => {
                assert(Seq::<LineModel>::empty() + v =~= v);
            },
        }
    }
    while i < raw_lines.len()
        invariant
            i <= raw_lines.len(),
            all == raw_views(raw_lines@),
            collect_lines(all) == collect_prepend(
                line_models(lines@),
                collect_from(all, i as int),
            ),
        decreases raw_lines.len() - i,
    {
        let ghost old_lines = line_models(lines@);
        let ghost old_i = i as int;
        let line = &raw_lines[i];
        proof {
            assert(all[old_i] == line@);
        }
        if content_at(line) {
            match find_reset_from(line, 8) {
                None => {
                    return Err(ParseError::MalformedContentLine);
                },
                Some(e) => {
                    if line.len() < 4 || e > line.len() - 4 {
                        return Err(ParseError::MalformedContentLine);
                    }
                    let content = subvec(line, e + 4, line.len());
                    match parse_line(&content) {
                        Err(err) => {
                            return Err(err);
                        },
                        Ok(ln) => {
                            proof {
                                let d = decode_line(content@).unwrap();
                                assert(ln@ =~= LineModel { full: d.full, matches: d.spans });
                            }
                            lines.push(ln);
                            i = i + 1;
                            proof {
                                assert(line_models(lines@) =~= old_lines.push(ln@));
                                let rec = collect_from(all, old_i + 1);
                                match rec {
                                    Err(_) => {},
                                    Ok(rest) => {
                                        assert(old_lines + (seq![ln@] + rest) =~= line_models(
                                            lines@,
                                        ) + rest);
                                    },
                                }
                            }
                        },
                    }
                },
            }
        } else {
            i = i + 1;
        }
    }
    proof {
        match collect_lines(all) {
            Err(_) => {},
            Ok(v) => {
                assert(v =~= line_models(lines@));
            },
        }
    }
    let s = Snippet::new(lines, 0, file.duplicate());
    Ok(s)
}

} // verus!
