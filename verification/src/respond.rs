//! Snippet assembler and result bounder: groups the segmenter's ordered
//! snippets by file (first-seen order, then each group sorted by starting
//! line number), sorts the groups by file path, and caps how many groups keep
//! their snippet content.  Groups beyond the cap are emptied but keep their
//! match counts, so the response stays bounded while totals stay accurate.

use vstd::prelude::*;
use vstd::multiset::Multiset;

use crate::base::{
    FileRef, FileRefModel, FileSnippets, FileSnippetsModel, Snippet, SnippetModel, clamp_usize,
    group_models, snippet_models, sorted_by_line_number, sorted_by_path, sum_matches,
    truncated_group,
};
use crate::bytes::{eq_bytes, lex_leq, lex_leq_bytes, lemma_lex_leq_total, lemma_lex_leq_trans};

verus! {

/// The distinct files of a snippet sequence, in first-seen order.
pub open spec fn group_files(s: Seq<SnippetModel>) -> Seq<FileRefModel>
    decreases s.len(),
{
    if s.len() == 0 {
        Seq::empty()
    } else {
        let pre = group_files(s.drop_last());
        if pre.contains(s.last().file) {
            pre
        } else {
            pre.push(s.last().file)
        }
    }
}

/// The snippets of `s` that belong to file `f`, in order.
pub open spec fn filter_file(s: Seq<SnippetModel>, f: FileRefModel) -> Seq<SnippetModel>
    decreases s.len(),
{
    if s.len() == 0 {
        Seq::empty()
    } else {
        let pre = filter_file(s.drop_last(), f);
        if s.last().file == f {
            pre.push(s.last())
        } else {
            pre
        }
    }
}

/// What one assembled file group satisfies for file `f` whose snippets are
/// `snips`: the right file, not truncated, the aggregate match count, and
/// the same snippets ordered by starting line number.
pub open spec fn is_group_for(g: FileSnippetsModel, f: FileRefModel, snips: Seq<SnippetModel>) -> bool {
    &&& g.file == f
    &&& g.truncated == false
    &&& g.match_count == clamp_usize(sum_matches(snips))
    &&& sorted_by_line_number(g.snippets)
    &&& g.snippets.to_multiset() == snips.to_multiset()
}

/// Every snippet's file is one of the group files.
proof fn lemma_group_files_covers(s: Seq<SnippetModel>)
    ensures
        forall|i: int| 0 <= i < s.len() ==> group_files(s).contains(#[trigger] s[i].file),
    decreases s.len(),
{
    if s.len() > 0 {
        lemma_group_files_covers(s.drop_last());
        let pre = group_files(s.drop_last());
        assert forall|i: int| 0 <= i < s.len() implies group_files(s).contains(
            #[trigger] s[i].file,
        ) by {
            if i < s.len() - 1 {
                assert(s.drop_last()[i] == s[i]);
                assert(pre.contains(s[i].file));
                let w = choose|w: int| 0 <= w < pre.len() && pre[w] == s[i].file;
                if pre.contains(s.last().file) {
                    assert(group_files(s)[w] == s[i].file);
                } else {
                    assert(group_files(s)[w] == s[i].file);
                }
            } else {
                if pre.contains(s.last().file) {
                } else {
                    assert(group_files(s).last() == s.last().file);
                }
            }
        }
    }
}

/// A file that no snippet of `s` belongs to filters to nothing.
proof fn lemma_filter_of_absent(s: Seq<SnippetModel>, f: FileRefModel)
    requires
        forall|i: int| 0 <= i < s.len() ==> (#[trigger] s[i].file) != f,
    ensures
        filter_file(s, f) == Seq::<SnippetModel>::empty(),
    decreases s.len(),
{
    if s.len() > 0 {
        assert(forall|i: int|
            0 <= i < s.drop_last().len() ==> (#[trigger] s.drop_last()[i].file) != f);
        lemma_filter_of_absent(s.drop_last(), f);
    }
}

/// The file labels of the buckets being assembled.
pub open spec fn bucket_files(b: Seq<(FileRef, Vec<Snippet>)>) -> Seq<FileRefModel> {
    b.map_values(|p: (FileRef, Vec<Snippet>)| p.0@)
}

/// Decides whether two file references name the same file of the same
/// project.
pub fn eq_file_ref(a: &FileRef, b: &FileRef) -> (r: bool)
    ensures
        r == (a@ == b@),
{
    let r = eq_bytes(&a.name, &b.name) && eq_bytes(&a.path, &b.path) && eq_bytes(
        &a.extension,
        &b.extension,
    ) && eq_bytes(&a.project.name, &b.project.name) && eq_bytes(&a.project.path, &b.project.path);
    proof {
        if r {
            assert(a@.project =~= b@.project);
            assert(a@ =~= b@);
        }
    }
    r
}

/// Groups an ordered snippet sequence by file: one group per distinct file in
/// first-seen order, each holding exactly that file's snippets (ordered by
/// starting line number) and their aggregate match count.
pub fn group_by_file(snippets: Vec<Snippet>) -> (r: Vec<FileSnippets>)
    ensures
        ({
            let ms = snippet_models(snippets@);
            let fs = group_files(ms);
            &&& r@.len() == fs.len()
            &&& forall|j: int|
                0 <= j < r@.len() ==> is_group_for(
                    (#[trigger] r@[j])@,
                    fs[j],
                    filter_file(ms, fs[j]),
                )
        }),
{
    let ghost ms = snippet_models(snippets@);
    let mut rest = snippets;
    let mut buckets: Vec<(FileRef, Vec<Snippet>)> = Vec::new();
    let ghost mut done: Seq<SnippetModel> = Seq::empty();
    proof {
        assert(done + snippet_models(rest@) =~= ms);
        assert(bucket_files(buckets@) =~= group_files(done));
    }
    while rest.len() > 0
        invariant
            ms == done + snippet_models(rest@),
            bucket_files(buckets@) == group_files(done),
            forall|j: int|
                0 <= j < buckets@.len() ==> snippet_models((#[trigger] buckets@[j]).1@)
                    == filter_file(done, bucket_files(buckets@)[j]),
            forall|j: int, k: int|
                0 <= j < k < buckets@.len() ==> bucket_files(buckets@)[j] != bucket_files(
                    buckets@,
                )[k],
        decreases rest.len(),
    {
        let ghost old_done = done;
        let ghost old_buckets = buckets@;
        let ghost old_rest = rest@;
        let s = rest.remove(0);
        proof {
            done = done.push(s@);
            assert(done + snippet_models(rest@) =~= old_done + snippet_models(old_rest));
            assert(done.drop_last() =~= old_done);
            assert(done.last() == s@);
        }
        let mut idx: Option<usize> = None;
        let mut j: usize = 0;
        while j < buckets.len()
            invariant
                j <= buckets@.len(),
                match idx {
                    None => forall|k: int|
                        0 <= k < j ==> (#[trigger] buckets@[k]).0@ != s.file@,
                    Some(t) => t < j <= buckets@.len() && buckets@[t as int].0@ == s.file@,
                },
            decreases buckets.len() - j,
        {
            if idx.is_none() && eq_file_ref(&buckets[j].0, &s.file) {
                idx = Some(j);
            }
            j = j + 1;
        }
        match idx {
            Some(t) => {
                let (f, mut b) = buckets.remove(t);
                let ghost old_models = snippet_models(b@);
                b.push(s);
                proof {
                    assert(snippet_models(b@) =~= old_models.push(done.last()));
                }
                buckets.insert(t, (f, b));
                proof {
                    assert(buckets@ =~= old_buckets.update(t as int, (f, b)));
                    assert(bucket_files(buckets@) =~= bucket_files(old_buckets));
                    assert(group_files(old_done).contains(s@.file)) by {
                        assert(bucket_files(old_buckets)[t as int] == s@.file);
                    }
                    assert(group_files(done) == group_files(old_done));
                    assert forall|q: int| 0 <= q < buckets@.len() implies snippet_models(
                        (#[trigger] buckets@[q]).1@,
                    ) == filter_file(done, bucket_files(buckets@)[q]) by {
                        if q == t {
                            assert(filter_file(done, s@.file) =~= filter_file(
                                old_done,
                                s@.file,
                            ).push(s@));
                        } else {
                            assert(bucket_files(buckets@)[q] != s@.file);
                            assert(filter_file(done, bucket_files(buckets@)[q]) == filter_file(
                                old_done,
                                bucket_files(buckets@)[q],
                            ));
                        }
                    }
                }
            },
            None => {
                let fr = s.file.duplicate();
                let mut b: Vec<Snippet> = Vec::new();
                b.push(s);
                buckets.push((fr, b));
                proof {
                    assert(!group_files(old_done).contains(s@.file)) by {
                        if group_files(old_done).contains(s@.file) {
                            let w = choose|w: int|
                                0 <= w < group_files(old_done).len() && group_files(old_done)[w]
                                    == s@.file;
                            assert(bucket_files(old_buckets)[w] == s@.file);
                        }
                    }
                    assert(group_files(done) == group_files(old_done).push(s@.file));
                    assert(bucket_files(buckets@) =~= bucket_files(old_buckets).push(s@.file));
                    assert(forall|i: int|
                        0 <= i < old_done.len() ==> (#[trigger] old_done[i].file) != s@.file) by {
                        lemma_group_files_covers(old_done);
                    }
                    lemma_filter_of_absent(old_done, s@.file);
                    assert forall|q: int| 0 <= q < buckets@.len() implies snippet_models(
                        (#[trigger] buckets@[q]).1@,
                    ) == filter_file(done, bucket_files(buckets@)[q]) by {
                        if q == buckets@.len() - 1 {
                            assert(filter_file(done, s@.file) =~= filter_file(
                                old_done,
                                s@.file,
                            ).push(s@));
                            assert(snippet_models(b@) =~= Seq::<SnippetModel>::empty().push(s@));
                        } else {
                            assert(bucket_files(buckets@)[q] != s@.file);
                            assert(filter_file(done, bucket_files(buckets@)[q]) == filter_file(
                                old_done,
                                bucket_files(buckets@)[q],
                            ));
                        }
                    }
                }
            },
        }
    }
    proof {
        assert(snippet_models(rest@) =~= Seq::<SnippetModel>::empty());
        assert(done =~= ms);
    }
    let ghost fs = group_files(ms);
    let mut out: Vec<FileSnippets> = Vec::new();
    proof {
        assert(bucket_files(buckets@) =~= fs.skip(0));
    }
    while buckets.len() > 0
        invariant
            out@.len() + buckets@.len() == fs.len(),
            bucket_files(buckets@) == fs.skip(out@.len() as int),
            forall|j: int|
                0 <= j < out@.len() ==> is_group_for(
                    (#[trigger] out@[j])@,
                    fs[j],
                    filter_file(ms, fs[j]),
                ),
            forall|j: int|
                0 <= j < buckets@.len() ==> snippet_models((#[trigger] buckets@[j]).1@)
                    == filter_file(ms, bucket_files(buckets@)[j]),
        decreases buckets.len(),
    {
        let ghost old_buckets = buckets@;
        let ghost o = out@.len() as int;
        let (f, b) = buckets.remove(0);
        proof {
            assert(bucket_files(old_buckets)[0] == fs.skip(o)[0]);
            assert(fs.skip(o)[0] == fs[o]);
        }
        let g = FileSnippets::new(f, b);
        out.push(g);
        proof {
            assert(bucket_files(buckets@) =~= fs.skip(o + 1)) by {
                assert(bucket_files(buckets@) =~= bucket_files(old_buckets).skip(1));
                assert(bucket_files(old_buckets).skip(1) =~= fs.skip(o).skip(1));
                assert(fs.skip(o).skip(1) =~= fs.skip(o + 1));
            }
        }
    }
    proof {
        assert(fs.skip(out@.len() as int).len() == 0);
    }
    out
}


/// Sorts file groups by file path; the result is a rearrangement of the
/// input.
fn sort_groups(groups: Vec<FileSnippets>) -> (r: Vec<FileSnippets>)
    ensures
        r@.len() == groups@.len(),
        sorted_by_path(group_models(r@)),
        group_models(r@).to_multiset() == group_models(groups@).to_multiset(),
{
    let ghost n = groups@.len();
    let mut rest = groups;
    let mut out: Vec<FileSnippets> = Vec::new();
    let ghost all = group_models(rest@).to_multiset();
    proof {
        broadcast use vstd::seq_lib::group_to_multiset_ensures;

        assert(group_models(out@) =~= Seq::<FileSnippetsModel>::empty());
    }
    while rest.len() > 0
        invariant
            out@.len() + rest@.len() == n,
            group_models(out@).to_multiset().add(group_models(rest@).to_multiset()) =~= all,
            sorted_by_path(group_models(out@)),
            forall|i: int, j: int|
                0 <= i < out@.len() && 0 <= j < rest@.len() ==> lex_leq(
                    (#[trigger] out@[i])@.file.path,
                    (#[trigger] rest@[j])@.file.path,
                ),
        decreases rest.len(),
    {
        let mut min_idx: usize = 0;
        let mut k: usize = 1;
        proof {
            lemma_lex_leq_total(rest@[0]@.file.path, rest@[0]@.file.path);
        }
        while k < rest.len()
            invariant
                min_idx < k <= rest.len(),
                forall|t: int|
                    0 <= t < k ==> lex_leq(
                        rest@[min_idx as int]@.file.path,
                        (#[trigger] rest@[t])@.file.path,
                    ),
            decreases rest.len() - k,
        {
            let ghost old_min = min_idx as int;
            if lex_leq_bytes(&rest[k].file.path, &rest[min_idx].file.path) {
                min_idx = k;
                proof {
                    assert forall|t: int| 0 <= t < k + 1 implies lex_leq(
                        rest@[min_idx as int]@.file.path,
                        (#[trigger] rest@[t])@.file.path,
                    ) by {
                        if t < k {
                            lemma_lex_leq_trans(
                                rest@[min_idx as int]@.file.path,
                                rest@[old_min]@.file.path,
                                rest@[t]@.file.path,
                            );
                        } else {
                            lemma_lex_leq_total(
                                rest@[min_idx as int]@.file.path,
                                rest@[min_idx as int]@.file.path,
                            );
                        }
                    }
                }
            } else {
                proof {
                    lemma_lex_leq_total(
                        rest@[k as int]@.file.path,
                        rest@[old_min]@.file.path,
                    );
                }
            }
            k = k + 1;
        }
        let ghost old_rest = rest@;
        let ghost old_out = out@;
        let x = rest.remove(min_idx);
        out.push(x);
        proof {
            broadcast use vstd::seq_lib::group_to_multiset_ensures;

            assert(group_models(old_rest).contains(x@)) by {
                assert(group_models(old_rest)[min_idx as int] == x@);
            }
            assert(group_models(rest@) =~= group_models(old_rest).remove(min_idx as int));
            assert(group_models(out@) =~= group_models(old_out).push(x@));
            assert(group_models(out@).to_multiset() =~= group_models(old_out).to_multiset()
                .insert(x@));
            assert(group_models(rest@).to_multiset() =~= group_models(old_rest).to_multiset()
                .remove(x@));
            assert(group_models(out@).to_multiset().add(group_models(rest@).to_multiset())
                =~= all);
            assert forall|i: int, j: int|
                0 <= i < out@.len() && 0 <= j < rest@.len() implies lex_leq(
                (#[trigger] out@[i])@.file.path,
                (#[trigger] rest@[j])@.file.path,
            ) by {
                if i < out@.len() - 1 {
                    assert(out@[i] == old_out[i]);
                }
                assert(rest@[j] == if j < min_idx {
                    old_rest[j]
                } else {
                    old_rest[j + 1]
                });
            }
            assert(sorted_by_path(group_models(out@))) by {
                assert forall|i: int, j: int| 0 <= i < j < out@.len() implies lex_leq(
                    group_models(out@)[i].file.path,
                    group_models(out@)[j].file.path,
                ) by {
                    if j < out@.len() - 1 {
                        assert(lex_leq(
                            group_models(old_out)[i].file.path,
                            group_models(old_out)[j].file.path,
                        ));
                    } else {
                        assert(out@[j] == x);
                        if i < out@.len() - 1 {
                            assert(lex_leq(
                                old_out[i]@.file.path,
                                old_rest[min_idx as int]@.file.path,
                            ));
                        }
                    }
                }
            }
        }
    }
    proof {
        broadcast use vstd::seq_lib::group_to_multiset_ensures;

        assert(group_models(rest@) =~= Seq::<FileSnippetsModel>::empty());
        assert(group_models(out@).to_multiset().add(Multiset::<FileSnippetsModel>::empty())
            =~= group_models(out@).to_multiset());
    }
    out
}

/// The bounded form of a sorted group sequence: the first `limit` groups
/// stay whole, every later group is emptied but keeps its match count.
pub open spec fn bound_spec(perm: Seq<FileSnippetsModel>, limit: int) -> Seq<FileSnippetsModel> {
    perm.map(
        |i: int, g: FileSnippetsModel|
            if i < limit {
                g
            } else {
                truncated_group(g)
            },
    )
}

/// Mathematical view of a [`SearchResponse`].
#[verifier::ext_equal]
pub ghost struct SearchResponseModel {
    pub file_snippets: Seq<FileSnippetsModel>,
    pub truncated: bool,
}

/// A bounded search response: file groups sorted by path, and whether any
/// group was emptied to keep the response within its budget.
#[derive(Debug)]
pub struct SearchResponse {
    pub file_snippets: Vec<FileSnippets>,
    pub truncated: bool,
}

impl View for SearchResponse {
    type V = SearchResponseModel;

    open spec fn view(&self) -> SearchResponseModel {
        SearchResponseModel {
            file_snippets: group_models(self.file_snippets@),
            truncated: self.truncated,
        }
    }
}

impl SearchResponse {
    /// Sorts the file groups by file path and bounds the response: with at
    /// most `limit` groups everything is returned unchanged; with more, only
    /// the first `limit` sorted groups keep their snippets and every later
    /// group is replaced by its counted-but-emptied placeholder.
    pub fn new(snippets: Vec<FileSnippets>, limit: usize) -> (r: SearchResponse)
        ensures
            r@.truncated == (snippets@.len() > limit),
            r@.file_snippets.len() == snippets@.len(),
            exists|perm: Seq<FileSnippetsModel>|
                {
                    &&& #[trigger] perm.to_multiset() == group_models(snippets@).to_multiset()
                    &&& sorted_by_path(perm)
                    &&& r@.file_snippets == bound_spec(perm, limit as int)
                },
    {
        let truncated = snippets.len() > limit;
        let sorted = sort_groups(snippets);
        let ghost perm = group_models(sorted@);
        if !truncated {
            proof {
                assert(bound_spec(perm, limit as int) =~= perm);
            }
            SearchResponse { file_snippets: sorted, truncated: false }
        } else {
            let mut rest = sorted;
            let mut out: Vec<FileSnippets> = Vec::new();
            proof {
                assert(group_models(out@) =~= bound_spec(perm, limit as int).subrange(0, 0));
                assert(group_models(rest@) =~= perm.skip(0));
            }
            while rest.len() > 0
                invariant
                    out@.len() + rest@.len() == perm.len(),
                    group_models(out@) == bound_spec(perm, limit as int).subrange(
                        0,
                        out@.len() as int,
                    ),
                    group_models(rest@) == perm.skip(out@.len() as int),
                decreases rest.len(),
            {
                let ghost o = out@.len() as int;
                let ghost old_rest = rest@;
                let g = rest.remove(0);
                proof {
                    assert(group_models(old_rest)[0] == perm.skip(o)[0]);
                    assert(perm.skip(o)[0] == perm[o]);
                }
                if out.len() < limit {
                    out.push(g);
                    proof {
                        assert(group_models(out@) =~= bound_spec(perm, limit as int).subrange(
                            0,
                            o + 1,
                        ));
                    }
                } else {
                    let t = g.truncate();
                    out.push(t);
                    proof {
                        assert(group_models(out@) =~= bound_spec(perm, limit as int).subrange(
                            0,
                            o + 1,
                        ));
                    }
                }
                proof {
                    assert(group_models(rest@) =~= group_models(old_rest).skip(1));
                    assert(group_models(old_rest).skip(1) =~= perm.skip(o).skip(1));
                    assert(perm.skip(o).skip(1) =~= perm.skip(o + 1));
                }
            }
            proof {
                assert(group_models(out@) =~= bound_spec(perm, limit as int));
            }
            SearchResponse { file_snippets: out, truncated: true }
        }
    }
}

/// The bounder never changes a group's match count: whether a group is kept
/// whole or emptied by truncation, its aggregate count is preserved.
pub proof fn lemma_bounder_preserves_match_count(
    perm: Seq<FileSnippetsModel>,
    limit: int,
    i: int,
)
    requires
        0 <= i < perm.len(),
    ensures
        bound_spec(perm, limit)[i].match_count == perm[i].match_count,
{
}

/// The bounder's shape: with more groups than the limit, exactly the first
/// `limit` sorted groups keep their snippets and every later group comes
/// back emptied and marked truncated; with at most `limit` groups, nothing
/// is altered.
pub proof fn lemma_bounder_shape(perm: Seq<FileSnippetsModel>, limit: int)
    requires
        limit >= 0,
    ensures
        bound_spec(perm, limit).len() == perm.len(),
        forall|i: int| 0 <= i < perm.len() && i < limit ==> bound_spec(perm, limit)[i] == perm[i],
        forall|i: int|
            limit <= i < perm.len() ==> (#[trigger] bound_spec(perm, limit)[i]).snippets
                =~= Seq::<SnippetModel>::empty(),
        forall|i: int|
            limit <= i < perm.len() ==> (#[trigger] bound_spec(perm, limit)[i]).truncated == true,
        forall|i: int|
            limit <= i < perm.len() ==> (#[trigger] bound_spec(perm, limit)[i]).match_count
                == perm[i].match_count,
        forall|i: int|
            limit <= i < perm.len() ==> (#[trigger] bound_spec(perm, limit)[i]).file
                == perm[i].file,
        perm.len() <= limit ==> bound_spec(perm, limit) == perm,
{
    if perm.len() <= limit {
        assert(bound_spec(perm, limit) =~= perm);
    }
}

} // verus!
