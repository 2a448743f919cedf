//! The compute side of the two search operations.  The external tool's
//! invocation is I/O and lives with the caller; these functions take the
//! tool's raw output lines (already split, empty lines dropped) and turn them
//! into structured snippets.
//!
//! `search` segments one multi-file listing; `file` builds the one
//! whole-file snippet of a single-file listing, falling back to the file's
//! own lines (no matches, anchored at line 0) when the tool produced no
//! output at all.

use vstd::prelude::*;

use crate::base::{FileRef, Line, LineModel, Project, Snippet, line_models, snippet_of};
use crate::bytes::clone_bytes;
use crate::decode::ParseError;
use crate::segment::{
    collect_lines, lines_to_snippet, lines_to_snippets, raw_views, segment_lines,
};

verus! {

/// The lines of a whole-file view: each raw line verbatim, with no match
/// spans.
pub open spec fn plain_lines(ls: Seq<Seq<u8>>) -> Seq<LineModel> {
    ls.map_values(|b: Seq<u8>| LineModel { full: b, matches: Seq::empty() })
}

/// Segments the raw output of one search invocation for `project` into
/// snippets, one per contiguous matched region.
pub fn search(project: &Project, raw_lines: &Vec<Vec<u8>>) -> (r: Result<Vec<Snippet>, ParseError>)
    ensures
        match r {
            Ok(v) => segment_lines(raw_views(raw_lines@), project@) == Ok::<_, ParseError>(
                crate::base::snippet_models(v@),
            ),
            Err(e) => segment_lines(raw_views(raw_lines@), project@) == Err::<
                Seq<crate::base::SnippetModel>,
                _,
            >(e),
        },
{
    lines_to_snippets(project, raw_lines)
}

/// Builds the whole-file snippet for one file view.  `raw_lines` is the
/// tool's output for the single-file invocation; when it is empty (the query
/// does not occur in the file), `fallback` — the file's own lines, read
/// directly — becomes one snippet covering every line with no match spans,
/// anchored at line number 0.
pub fn file(
    project: &Project,
    path: &Vec<u8>,
    raw_lines: &Vec<Vec<u8>>,
    fallback: &Vec<Vec<u8>>,
) -> (r: Result<Snippet, ParseError>)
    ensures
        raw_lines@.len() == 0 ==> (r matches Ok(s) && s@ == snippet_of(
            plain_lines(raw_views(fallback@)),
            0,
            crate::base::file_ref_of(project@, path@),
        )),
        raw_lines@.len() > 0 ==> match r {
            Ok(s) => collect_lines(raw_views(raw_lines@)) == Ok::<_, ParseError>(s@.lines) && s@
                == snippet_of(s@.lines, 0, crate::base::file_ref_of(project@, path@)),
            Err(e) => collect_lines(raw_views(raw_lines@)) == Err::<Seq<LineModel>, _>(e),
        },
{
    let file_ref = FileRef::new(project, path);
    if raw_lines.len() == 0 {
        let mut lines: Vec<Line> = Vec::new();
        let mut i: usize = 0;
        proof {
            assert(line_models(lines@) =~= plain_lines(raw_views(fallback@)).subrange(0, 0));
        }
        while i < fallback.len()
            invariant
                i <= fallback.len(),
                line_models(lines@) == plain_lines(raw_views(fallback@)).subrange(0, i as int),
            decreases fallback.len() - i,
        {
            let ghost old_lines = lines@;
            let text = clone_bytes(&fallback[i]);
            let l = Line::new(text, Vec::new());
            lines.push(l);
            i = i + 1;
            proof {
                assert(l@ =~= LineModel { full: fallback@[i - 1]@, matches: Seq::empty() });
                assert(line_models(lines@) =~= line_models(old_lines).push(l@));
                assert(plain_lines(raw_views(fallback@))[i - 1] == l@);
                assert(line_models(lines@) =~= plain_lines(raw_views(fallback@)).subrange(
                    0,
                    i as int,
                ));
            }
        }
        proof {
            assert(plain_lines(raw_views(fallback@)).subrange(
                0,
                fallback@.len() as int,
            ) =~= plain_lines(raw_views(fallback@)));
        }
        Ok(Snippet::new(lines, 0, file_ref))
    } else {
        lines_to_snippet(&file_ref, raw_lines)
    }
}

} // verus!
