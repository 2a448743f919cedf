use grepview::base::{FileRef, FileSnippets, Line, Project, Snippet};
use grepview::config::Config;
use grepview::respond::{group_by_file, SearchResponse};

fn project() -> Project {
    Project::new(&b"demo".to_vec(), &b"/srv/demo".to_vec())
}

fn snippet_with_matches(path: &[u8], line_number: usize, spans: Vec<(usize, usize)>) -> Snippet {
    let p = project();
    let f = FileRef::new(&p, &path.to_vec());
    let line = Line::new(b"some matched text".to_vec(), spans);
    Snippet::new(vec![line], line_number, f)
}

fn group(path: &[u8], spans_per_snippet: Vec<Vec<(usize, usize)>>) -> FileSnippets {
    let p = project();
    let f = FileRef::new(&p, &path.to_vec());
    let mut snippets = Vec::new();
    let mut n = 1;
    for spans in spans_per_snippet {
        snippets.push(snippet_with_matches(path, n, spans));
        n += 10;
    }
    FileSnippets::new(f, snippets)
}

#[test]
fn file_ref_derives_name_and_extension() {
    let p = project();
    let f = FileRef::new(&p, &b"src/dir/mod.rs".to_vec());
    assert_eq!(f.name, b"mod.rs".to_vec());
    assert_eq!(f.extension, b"rs".to_vec());
    assert_eq!(f.path, b"src/dir/mod.rs".to_vec());
    assert_eq!(f.project.name, b"demo".to_vec());

    let bare = FileRef::new(&p, &b"Makefile".to_vec());
    assert_eq!(bare.name, b"Makefile".to_vec());
    assert_eq!(bare.extension, b"".to_vec());

    let dotfile = FileRef::new(&p, &b"conf/.gitignore".to_vec());
    assert_eq!(dotfile.name, b".gitignore".to_vec());
    assert_eq!(dotfile.extension, b"".to_vec());
}

#[test]
fn file_snippets_counts_and_sorts() {
    let p = project();
    let f = FileRef::new(&p, &b"a.rs".to_vec());
    let s1 = snippet_with_matches(b"a.rs", 30, vec![(0, 4)]);
    let s2 = snippet_with_matches(b"a.rs", 5, vec![(0, 2), (3, 7)]);
    let g = FileSnippets::new(f, vec![s1, s2]);
    assert_eq!(g.match_count, 3);
    assert!(!g.truncated);
    assert_eq!(g.snippets.len(), 2);
    assert_eq!(g.snippets[0].line_number, 5);
    assert_eq!(g.snippets[1].line_number, 30);
}

#[test]
fn truncate_keeps_match_count() {
    let g = group(b"a.rs", vec![vec![(0, 1), (2, 3)], vec![(4, 5)]]);
    assert_eq!(g.match_count, 3);
    let t = g.truncate();
    assert_eq!(t.match_count, 3);
    assert!(t.snippets.is_empty());
    assert!(t.truncated);
    assert_eq!(t.file.path, g.file.path);
}

#[test]
fn group_by_file_keeps_first_seen_order() {
    let snippets = vec![
        snippet_with_matches(b"b.rs", 10, vec![(0, 1)]),
        snippet_with_matches(b"a.rs", 20, vec![(0, 1), (1, 2)]),
        snippet_with_matches(b"b.rs", 2, vec![(0, 3)]),
    ];
    let groups = group_by_file(snippets);
    assert_eq!(groups.len(), 2);
    assert_eq!(groups[0].file.path, b"b.rs".to_vec());
    assert_eq!(groups[0].match_count, 2);
    assert_eq!(groups[0].snippets.len(), 2);
    assert_eq!(groups[0].snippets[0].line_number, 2);
    assert_eq!(groups[0].snippets[1].line_number, 10);
    assert_eq!(groups[1].file.path, b"a.rs".to_vec());
    assert_eq!(groups[1].match_count, 2);
    assert_eq!(groups[1].snippets.len(), 1);
}

#[test]
fn bounder_under_limit_changes_nothing() {
    let groups = vec![group(b"b.rs", vec![vec![(0, 1)]]), group(b"a.rs", vec![vec![(0, 2)]])];
    let resp = SearchResponse::new(groups, 5);
    assert!(!resp.truncated);
    assert_eq!(resp.file_snippets.len(), 2);
    assert_eq!(resp.file_snippets[0].file.path, b"a.rs".to_vec());
    assert_eq!(resp.file_snippets[1].file.path, b"b.rs".to_vec());
    assert!(!resp.file_snippets[0].truncated);
    assert!(!resp.file_snippets[1].truncated);
    assert_eq!(resp.file_snippets[0].snippets.len(), 1);
    assert_eq!(resp.file_snippets[1].snippets.len(), 1);
}

#[test]
fn bounder_over_limit_truncates_tail_groups() {
    let groups = vec![
        group(b"c.rs", vec![vec![(0, 1)]]),
        group(b"a.rs", vec![vec![(0, 1), (2, 3)]]),
        group(b"b.rs", vec![vec![(0, 4)]]),
    ];
    let resp = SearchResponse::new(groups, 2);
    assert!(resp.truncated);
    assert_eq!(resp.file_snippets.len(), 3);
    assert_eq!(resp.file_snippets[0].file.path, b"a.rs".to_vec());
    assert_eq!(resp.file_snippets[1].file.path, b"b.rs".to_vec());
    assert_eq!(resp.file_snippets[2].file.path, b"c.rs".to_vec());
    assert!(!resp.file_snippets[0].truncated);
    assert!(!resp.file_snippets[1].truncated);
    assert_eq!(resp.file_snippets[0].snippets.len(), 1);
    assert_eq!(resp.file_snippets[1].snippets.len(), 1);
    assert!(resp.file_snippets[2].truncated);
    assert!(resp.file_snippets[2].snippets.is_empty());
    assert_eq!(resp.file_snippets[2].match_count, 1);
}

#[test]
fn bounder_keeps_match_counts_across_truncation() {
    let groups = vec![
        group(b"a.rs", vec![vec![(0, 1)]]),
        group(b"b.rs", vec![vec![(0, 1), (2, 3), (4, 5)]]),
    ];
    let resp = SearchResponse::new(groups, 0);
    assert!(resp.truncated);
    assert_eq!(resp.file_snippets[0].match_count, 1);
    assert_eq!(resp.file_snippets[1].match_count, 3);
    assert!(resp.file_snippets[0].snippets.is_empty());
    assert!(resp.file_snippets[1].snippets.is_empty());
}

#[test]
fn config_lookup_finds_projects_by_name() {
    let config = Config::new(vec![
        Project::new(&b"alpha".to_vec(), &b"/srv/alpha".to_vec()),
        Project::new(&b"beta".to_vec(), &b"/srv/beta".to_vec()),
    ]);
    let p = config.project_from_name(&b"beta".to_vec()).unwrap();
    assert_eq!(p.path, b"/srv/beta".to_vec());
    assert!(config.project_from_name(&b"gamma".to_vec()).is_none());
    let all = config.project_list();
    assert_eq!(all.len(), 2);
    assert_eq!(all[0].name, b"alpha".to_vec());
    assert_eq!(all[1].name, b"beta".to_vec());
}

#[test]
fn hash_depends_on_content_alone() {
    let p = project();
    let f1 = FileRef::new(&p, &b"a.rs".to_vec());
    let f2 = FileRef::new(&p, &b"b.rs".to_vec());
    let lines = || vec![Line::new(b"same text".to_vec(), vec![(0, 4)])];
    let s1 = Snippet::new(lines(), 10, f1);
    let s2 = Snippet::new(lines(), 99, f2);
    assert_eq!(s1.hash, s2.hash);
}

#[test]
fn hash_changes_when_a_span_moves() {
    let p = project();
    let f = FileRef::new(&p, &b"a.rs".to_vec());
    let s1 = Snippet::new(vec![Line::new(b"same text".to_vec(), vec![(0, 4)])], 1, f.duplicate());
    let s2 = Snippet::new(vec![Line::new(b"same text".to_vec(), vec![(5, 9)])], 1, f);
    assert_ne!(s1.hash, s2.hash);
}

#[test]
fn hash_changes_when_text_changes() {
    let p = project();
    let f = FileRef::new(&p, &b"a.rs".to_vec());
    let s1 = Snippet::new(vec![Line::new(b"alpha".to_vec(), vec![])], 1, f.duplicate());
    let s2 = Snippet::new(vec![Line::new(b"alphb".to_vec(), vec![])], 1, f);
    assert_ne!(s1.hash, s2.hash);
}
