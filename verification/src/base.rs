//! Core data model: projects, file references, decoded lines, snippets and
//! per-file snippet groups, together with their mathematical views.
//!
//! All text is carried as byte vectors; match spans are byte offsets into the
//! decoded text of a line, which keeps substring extraction by range stable.

use vstd::prelude::*;
use vstd::multiset::Multiset;

use crate::bytes::{clone_bytes, lex_leq, rfind_byte, rfind_in, subvec};
use crate::hash::{content_hash, hash_lines};

verus! {

/// A named root path to search within.
#[derive(Debug)]
pub struct Project {
    pub name: Vec<u8>,
    pub path: Vec<u8>,
}

/// Mathematical view of a [`Project`].
#[verifier::ext_equal]
pub ghost struct ProjectModel {
    pub name: Seq<u8>,
    pub path: Seq<u8>,
}

impl View for Project {
    type V = ProjectModel;

    open spec fn view(&self) -> ProjectModel {
        ProjectModel { name: self.name@, path: self.path@ }
    }
}

impl Project {
    /// Builds a project from its name and root path.
    pub fn new(name: &Vec<u8>, path: &Vec<u8>) -> (p: Project)
        ensures
            p@ == (ProjectModel { name: name@, path: path@ }),
    {
        Project { name: clone_bytes(name), path: clone_bytes(path) }
    }

    /// Copies this project.
    pub fn duplicate(&self) -> (p: Project)
        ensures
            p@ == self@,
    {
        Project { name: clone_bytes(&self.name), path: clone_bytes(&self.path) }
    }
}

/// The basename of a path: everything after the last `/`, or the whole path.
pub open spec fn base_name_of(path: Seq<u8>) -> Seq<u8> {
    match rfind_in(path, 47u8) {
        None => path,
        Some(i) => path.subrange(i + 1, path.len() as int),
    }
}

/// The extension of a path: what follows the last `.` of the basename,
/// unless that `.` is the basename's first byte; empty when there is none.
pub open spec fn extension_of(path: Seq<u8>) -> Seq<u8> {
    let name = base_name_of(path);
    match rfind_in(name, 46u8) {
        None => Seq::empty(),
        Some(i) => if i > 0 {
            name.subrange(i + 1, name.len() as int)
        } else {
            Seq::empty()
        },
    }
}

/// Mathematical view of a [`FileRef`].
#[verifier::ext_equal]
pub ghost struct FileRefModel {
    pub name: Seq<u8>,
    pub path: Seq<u8>,
    pub extension: Seq<u8>,
    pub project: ProjectModel,
}

/// The file reference derived from a project and a path.
pub open spec fn file_ref_of(project: ProjectModel, path: Seq<u8>) -> FileRefModel {
    FileRefModel {
        name: base_name_of(path),
        path: path,
        extension: extension_of(path),
        project: project,
    }
}

/// A file inside a project, with its derived basename and extension.
#[derive(Debug)]
pub struct FileRef {
    pub name: Vec<u8>,
    pub path: Vec<u8>,
    pub extension: Vec<u8>,
    pub project: Project,
}

impl View for FileRef {
    type V = FileRefModel;

    open spec fn view(&self) -> FileRefModel {
        FileRefModel {
            name: self.name@,
            path: self.path@,
            extension: self.extension@,
            project: self.project@,
        }
    }
}

/// The basename of a path, as bytes.
pub fn path_name(path: &Vec<u8>) -> (r: Vec<u8>)
    ensures
        r@ == base_name_of(path@),
{
    let len = path.len();
    match rfind_byte(path, 47u8) {
        None => clone_bytes(path),
        Some(i) => subvec(path, i + 1, len),
    }
}

/// The extension of a path, as bytes; empty when the path has none.
pub fn extension(path: &Vec<u8>) -> (r: Vec<u8>)
    ensures
        r@ == extension_of(path@),
{
    let name = path_name(path);
    let len = name.len();
    match rfind_byte(&name, 46u8) {
        None => Vec::new(),
        Some(i) => if i > 0 {
            subvec(&name, i + 1, len)
        } else {
            Vec::new()
        },
    }
}

impl FileRef {
    /// Derives a file reference from a project and a path.
    pub fn new(project: &Project, path: &Vec<u8>) -> (f: FileRef)
        ensures
            f@ == file_ref_of(project@, path@),
    {
        FileRef {
            name: path_name(path),
            extension: extension(path),
            path: clone_bytes(path),
            project: project.duplicate(),
        }
    }

    /// Copies this file reference.
    pub fn duplicate(&self) -> (f: FileRef)
        ensures
            f@ == self@,
    {
        FileRef {
            name: clone_bytes(&self.name),
            path: clone_bytes(&self.path),
            extension: clone_bytes(&self.extension),
            project: self.project.duplicate(),
        }
    }
}

/// Mathematical view of a [`Line`]: decoded text plus match spans as
/// byte-offset pairs into that text.
#[verifier::ext_equal]
pub ghost struct LineModel {
    pub full: Seq<u8>,
    pub matches: Seq<(int, int)>,
}

/// Match spans as pairs of mathematical integers.
pub open spec fn spans_of(m: Seq<(usize, usize)>) -> Seq<(int, int)> {
    m.map_values(|p: (usize, usize)| (p.0 as int, p.1 as int))
}

/// One decoded line of text together with the byte spans of its highlighted
/// query matches.
#[derive(Debug)]
pub struct Line {
    pub full: Vec<u8>,
    pub matches: Vec<(usize, usize)>,
}

impl View for Line {
    type V = LineModel;

    open spec fn view(&self) -> LineModel {
        LineModel { full: self.full@, matches: spans_of(self.matches@) }
    }
}

impl Line {
    /// Builds a line from its decoded text and match spans.
    pub fn new(full: Vec<u8>, matches: Vec<(usize, usize)>) -> (l: Line)
        ensures
            l.full == full,
            l.matches == matches,
    {
        Line { full, matches }
    }
}

/// A line's spans are within its text, ordered left to right, and
/// non-overlapping.
pub open spec fn line_wf(l: LineModel) -> bool {
    &&& forall|k: int|
        0 <= k < l.matches.len() ==> 0 <= #[trigger] l.matches[k].0 <= l.matches[k].1
            <= l.full.len()
    &&& forall|k: int|
        0 <= k && k + 1 < l.matches.len() ==> #[trigger] l.matches[k].1 <= l.matches[k + 1].0
}

/// The models of a sequence of lines.
pub open spec fn line_models(s: Seq<Line>) -> Seq<LineModel> {
    s.map_values(|l: Line| l@)
}

/// Mathematical view of a [`Snippet`].
#[verifier::ext_equal]
pub ghost struct SnippetModel {
    pub lines: Seq<LineModel>,
    pub line_number: int,
    pub hash: u64,
    pub file: FileRefModel,
}

/// The snippet a block of decoded lines gives rise to; its hash is the
/// content fingerprint of the lines.
pub open spec fn snippet_of(lines: Seq<LineModel>, line_number: int, file: FileRefModel) -> SnippetModel {
    SnippetModel { lines, line_number, hash: content_hash(lines), file }
}

/// One contiguous block of matched and context lines in one file.
#[derive(Debug)]
pub struct Snippet {
    pub lines: Vec<Line>,
    pub line_number: usize,
    pub hash: u64,
    pub file: FileRef,
}

impl View for Snippet {
    type V = SnippetModel;

    open spec fn view(&self) -> SnippetModel {
        SnippetModel {
            lines: line_models(self.lines@),
            line_number: self.line_number as int,
            hash: self.hash,
            file: self.file@,
        }
    }
}

impl Snippet {
    /// Builds a snippet, fingerprinting its lines with the content hash.
    pub fn new(lines: Vec<Line>, line_number: usize, file: FileRef) -> (s: Snippet)
        ensures
            s@ == snippet_of(line_models(lines@), line_number as int, file@),
    {
        let hash = hash_lines(&lines);
        Snippet { lines, line_number, hash, file }
    }
}

/// The models of a sequence of snippets.
pub open spec fn snippet_models(s: Seq<Snippet>) -> Seq<SnippetModel> {
    s.map_values(|x: Snippet| x@)
}

/// Byte-identical block content fingerprints identically: the content hash
/// is a function of the lines alone (their text and match spans), never of
/// the owning file or the anchor line number.
pub proof fn lemma_content_hash_deterministic(
    lines: Seq<LineModel>,
    n1: int,
    f1: FileRefModel,
    n2: int,
    f2: FileRefModel,
)
    ensures
        snippet_of(lines, n1, f1).hash == snippet_of(lines, n2, f2).hash,
{
}

/// Sum of the match-span counts over a sequence of lines.
pub open spec fn sum_matches_lines(ls: Seq<LineModel>) -> nat
    decreases ls.len(),
{
    if ls.len() == 0 {
        0
    } else {
        sum_matches_lines(ls.drop_last()) + ls.last().matches.len()
    }
}

/// Sum of the match-span counts over all lines of all snippets.
pub open spec fn sum_matches(s: Seq<SnippetModel>) -> nat
    decreases s.len(),
{
    if s.len() == 0 {
        0
    } else {
        sum_matches(s.drop_last()) + sum_matches_lines(s.last().lines)
    }
}

/// A total clamped to what a `usize` can hold.
pub open spec fn clamp_usize(n: nat) -> nat {
    if n > usize::MAX {
        usize::MAX as nat
    } else {
        n
    }
}

/// Snippets ordered by starting line number.
pub open spec fn sorted_by_line_number(s: Seq<SnippetModel>) -> bool {
    forall|i: int, j: int|
        0 <= i < j < s.len() ==> #[trigger] s[i].line_number <= #[trigger] s[j].line_number
}

/// Mathematical view of a [`FileSnippets`].
#[verifier::ext_equal]
pub ghost struct FileSnippetsModel {
    pub file: FileRefModel,
    pub snippets: Seq<SnippetModel>,
    pub match_count: nat,
    pub truncated: bool,
}

/// All snippets of one file in one response, with the aggregate match count.
#[derive(Debug)]
pub struct FileSnippets {
    pub file: FileRef,
    pub snippets: Vec<Snippet>,
    pub match_count: usize,
    pub truncated: bool,
}

impl View for FileSnippets {
    type V = FileSnippetsModel;

    open spec fn view(&self) -> FileSnippetsModel {
        FileSnippetsModel {
            file: self.file@,
            snippets: snippet_models(self.snippets@),
            match_count: self.match_count as nat,
            truncated: self.truncated,
        }
    }
}

/// Adds two counts, clamping at `usize::MAX`.
fn sat_add(a: usize, b: usize) -> (r: usize)
    ensures
        r as nat == clamp_usize(a as nat + b as nat),
{
    if a <= usize::MAX - b {
        a + b
    } else {
        usize::MAX
    }
}

/// Sums the match-span counts of all lines of all snippets, clamping at
/// `usize::MAX`.
fn count_matches(snippets: &Vec<Snippet>) -> (r: usize)
    ensures
        r as nat == clamp_usize(sum_matches(snippet_models(snippets@))),
{
    let mut acc: usize = 0;
    let mut i: usize = 0;
    while i < snippets.len()
        invariant
            i <= snippets.len(),
            acc as nat == clamp_usize(sum_matches(snippet_models(snippets@.subrange(0, i as int)))),
        decreases snippets.len() - i,
    {
        let ghost pre = snippet_models(snippets@.subrange(0, i as int));
        let s = &snippets[i];
        let mut j: usize = 0;
        while j < s.lines.len()
            invariant
                j <= s.lines.len(),
                s == &snippets[i as int],
                acc as nat == clamp_usize(
                    sum_matches(pre) + sum_matches_lines(line_models(s.lines@.subrange(0, j as int))),
                ),
            decreases s.lines.len() - j,
        {
            acc = sat_add(acc, s.lines[j].matches.len());
            j = j + 1;
            proof {
                let lm = line_models(s.lines@.subrange(0, j as int));
                assert(lm.drop_last() =~= line_models(s.lines@.subrange(0, j as int - 1)));
                assert(lm.last() == s.lines@[j as int - 1]@);
            }
        }
        i = i + 1;
        proof {
            let sm = snippet_models(snippets@.subrange(0, i as int));
            assert(sm.drop_last() =~= pre);
            assert(sm.last() == snippets@[i as int - 1]@);
            assert(line_models(s.lines@.subrange(0, s.lines@.len() as int)) =~= line_models(
                s.lines@,
            ));
        }
    }
    proof {
        assert(snippets@.subrange(0, snippets@.len() as int) =~= snippets@);
    }
    acc
}

/// Sorts snippets by starting line number; the result is a rearrangement of
/// the input.
fn sort_snippets(snippets: Vec<Snippet>) -> (r: Vec<Snippet>)
    ensures
        sorted_by_line_number(snippet_models(r@)),
        snippet_models(r@).to_multiset() == snippet_models(snippets@).to_multiset(),
{
    let mut rest = snippets;
    let mut out: Vec<Snippet> = Vec::new();
    let ghost all = snippet_models(rest@).to_multiset();
    proof {
        broadcast use vstd::seq_lib::group_to_multiset_ensures;

        assert(snippet_models(out@) =~= Seq::<SnippetModel>::empty());
    }
    while rest.len() > 0
        invariant
            snippet_models(out@).to_multiset().add(snippet_models(rest@).to_multiset()) =~= all,
            sorted_by_line_number(snippet_models(out@)),
            forall|i: int, j: int|
                0 <= i < out@.len() && 0 <= j < rest@.len() ==> #[trigger] out@[i]@.line_number
                    <= #[trigger] rest@[j]@.line_number,
        decreases rest.len(),
    {
        let mut min_idx: usize = 0;
        let mut k: usize = 1;
        while k < rest.len()
            invariant
                min_idx < k <= rest.len(),
                forall|t: int|
                    0 <= t < k ==> rest@[min_idx as int].line_number <= #[trigger] rest@[t].line_number,
            decreases rest.len() - k,
        {
            if rest[k].line_number < rest[min_idx].line_number {
                min_idx = k;
            }
            k = k + 1;
        }
        let ghost old_rest = rest@;
        let ghost old_out = out@;
        let x = rest.remove(min_idx);
        out.push(x);
        proof {
            broadcast use vstd::seq_lib::group_to_multiset_ensures;

            assert(snippet_models(old_rest).to_multiset().count(x@) > 0) by {
                assert(snippet_models(old_rest)[min_idx as int] == x@);
                assert(snippet_models(old_rest).contains(x@));
            }
            assert(snippet_models(rest@) =~= snippet_models(old_rest).remove(min_idx as int));
            assert(snippet_models(out@) =~= snippet_models(old_out).push(x@));
            assert(snippet_models(out@).to_multiset() =~= snippet_models(old_out).to_multiset()
                .insert(x@));
            assert(snippet_models(rest@).to_multiset() =~= snippet_models(old_rest).to_multiset()
                .remove(x@));
            assert(snippet_models(out@).to_multiset().add(snippet_models(rest@).to_multiset())
                =~= all);
            assert forall|i: int, j: int|
                0 <= i < out@.len() && 0 <= j < rest@.len() implies #[trigger] out@[i]@.line_number
                <= #[trigger] rest@[j]@.line_number by {
                if i < out@.len() - 1 {
                    assert(out@[i] == old_out[i]);
                }
                assert(rest@[j] == if j < min_idx {
                    old_rest[j]
                } else {
                    old_rest[j + 1]
                });
            }
            assert(sorted_by_line_number(snippet_models(out@))) by {
                assert forall|i: int, j: int|
                    0 <= i < j < out@.len() implies #[trigger] snippet_models(out@)[i].line_number
                    <= #[trigger] snippet_models(out@)[j].line_number by {
                    if j < out@.len() - 1 {
                        assert(snippet_models(old_out)[i].line_number <= snippet_models(
                            old_out,
                        )[j].line_number);
                    } else {
                        assert(out@[j] == x);
                        if i < out@.len() - 1 {
                            assert(old_out[i]@.line_number <= old_rest[min_idx as int]@.line_number);
                        }
                    }
                }
            }
        }
    }
    proof {
        broadcast use vstd::seq_lib::group_to_multiset_ensures;

        assert(snippet_models(rest@) =~= Seq::<SnippetModel>::empty());
        assert(snippet_models(out@).to_multiset().add(Multiset::<SnippetModel>::empty())
            =~= snippet_models(out@).to_multiset());
    }
    out
}

/// A file group after truncation: the same file and match count, but with its
/// snippet content withheld.
pub open spec fn truncated_group(g: FileSnippetsModel) -> FileSnippetsModel {
    FileSnippetsModel {
        file: g.file,
        snippets: Seq::empty(),
        match_count: g.match_count,
        truncated: true,
    }
}

impl FileSnippets {
    /// Groups a file's snippets: orders them by starting line number and
    /// computes the aggregate match count (clamped at `usize::MAX`).
    pub fn new(file: FileRef, snippets: Vec<Snippet>) -> (g: FileSnippets)
        ensures
            g@.file == file@,
            g@.truncated == false,
            g@.match_count == clamp_usize(sum_matches(snippet_models(snippets@))),
            sorted_by_line_number(g@.snippets),
            g@.snippets.to_multiset() == snippet_models(snippets@).to_multiset(),
    {
        let match_count = count_matches(&snippets);
        let sorted = sort_snippets(snippets);
        FileSnippets { file, snippets: sorted, match_count, truncated: false }
    }

    /// Empties the group's snippets while keeping its match count: the
    /// truncated placeholder that stands for this file in an over-large
    /// response.
    pub fn truncate(&self) -> (g: FileSnippets)
        ensures
            g@ == truncated_group(self@),
    {
        let g = FileSnippets {
            file: self.file.duplicate(),
            snippets: Vec::new(),
            match_count: self.match_count,
            truncated: true,
        };
        proof {
            assert(snippet_models(g.snippets@) =~= Seq::<SnippetModel>::empty());
        }
        g
    }
}

/// The models of a sequence of file groups.
pub open spec fn group_models(s: Seq<FileSnippets>) -> Seq<FileSnippetsModel> {
    s.map_values(|g: FileSnippets| g@)
}

/// File groups ordered by file path.
pub open spec fn sorted_by_path(s: Seq<FileSnippetsModel>) -> bool {
    forall|i: int, j: int|
        0 <= i < j < s.len() ==> lex_leq(#[trigger] s[i].file.path, #[trigger] s[j].file.path)
}

} // verus!
