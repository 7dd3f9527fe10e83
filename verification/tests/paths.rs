use git_objects::digest::Digest;
use git_objects::error::GitError;
use git_objects::ignore::{ignore_patterns, line_pattern, retain_unignored, should_ignore, starts_with, Listed};
use git_objects::locate::{get_repo_root, metadata_dir, objects_dir, sha_to_path, Child, RepoPath, RootSearch};

fn path(parts: &[&str]) -> RepoPath {
    RepoPath { parts: parts.iter().map(|p| p.as_bytes().to_vec()).collect() }
}

fn names(list: &[&str]) -> Vec<Vec<u8>> {
    list.iter().map(|p| p.as_bytes().to_vec()).collect()
}

/// Children by their names; a name that ends in `/` is a directory's.
fn children(list: &[&str]) -> Vec<Child> {
    list.iter()
        .map(|p| Child { name: p.trim_end_matches('/').as_bytes().to_vec(), is_dir: p.ends_with('/') })
        .collect()
}

fn listing(dir: &[&str], list: &[&str]) -> Vec<Listed> {
    list.iter()
        .map(|n| {
            let mut parts: Vec<&str> = dir.to_vec();
            parts.push(n);
            Listed { name: n.as_bytes().to_vec(), path: path(&parts) }
        })
        .collect()
}

fn listed_names(list: &Vec<Listed>) -> Vec<String> {
    list.iter().map(|c| String::from_utf8(c.name.clone()).unwrap()).collect()
}

fn text(parts: &RepoPath) -> String {
    let mut out = String::new();
    for p in parts.parts.iter() {
        out.push('/');
        out.push_str(&String::from_utf8(p.clone()).unwrap());
    }
    out
}

/// Runs the search over a made-up file system: `marked` holds the
/// directories that have the metadata directory among their children.
fn search(start: &[&str], marked: &[&str]) -> Result<String, GitError> {
    let mut dir = path(start);
    loop {
        let children = if marked.contains(&text(&dir).as_str()) {
            children(&["src/", ".git/", "README"])
        } else {
            children(&["src/", "README", ".gitignore", "git/"])
        };
        match get_repo_root(dir, &children)? {
            RootSearch::Found(root) => return Ok(text(&root)),
            RootSearch::Ascend(parent) => dir = parent,
        }
    }
}

#[test]
fn reserved_names() {
    assert_eq!(metadata_dir(), b".git".to_vec());
    assert_eq!(objects_dir(), b"objects".to_vec());
}

#[test]
fn root_is_the_directory_that_holds_the_metadata() {
    match get_repo_root(path(&["home", "me", "repo"]), &children(&["a", ".git/", "b/"])).unwrap() {
        RootSearch::Found(root) => assert_eq!(text(&root), "/home/me/repo"),
        RootSearch::Ascend(_) => panic!("the root was passed over"),
    }
}

#[test]
fn search_goes_up_from_a_directory_without_metadata() {
    match get_repo_root(path(&["home", "me", "repo"]), &children(&["a", ".gitignore", "git/"])).unwrap() {
        RootSearch::Ascend(parent) => assert_eq!(text(&parent), "/home/me"),
        RootSearch::Found(_) => panic!("no metadata directory is there"),
    }
    match get_repo_root(path(&["home"]), &Vec::new()).unwrap() {
        RootSearch::Ascend(parent) => assert_eq!(parent.parts.len(), 0),
        RootSearch::Found(_) => panic!("no metadata directory is there"),
    }
}

#[test]
fn search_fails_at_the_top() {
    assert_eq!(get_repo_root(path(&[]), &children(&["etc/", "home/"])).err(), Some(GitError::RepositoryNotFound));
    assert_eq!(get_repo_root(path(&[]), &Vec::new()).err(), Some(GitError::RepositoryNotFound));
}

#[test]
fn the_top_can_be_a_root() {
    match get_repo_root(path(&[]), &children(&[".git/"])).unwrap() {
        RootSearch::Found(root) => assert_eq!(root.parts.len(), 0),
        RootSearch::Ascend(_) => panic!("the root was passed over"),
    }
}

#[test]
fn a_file_with_the_metadata_name_marks_no_root() {
    match get_repo_root(path(&["r", "a"]), &children(&["x", ".git", "y/"])).unwrap() {
        RootSearch::Ascend(parent) => assert_eq!(text(&parent), "/r"),
        RootSearch::Found(_) => panic!("a file is no metadata directory"),
    }
    assert_eq!(get_repo_root(path(&[]), &children(&[".git"])).err(), Some(GitError::RepositoryNotFound));
    match get_repo_root(path(&["r"]), &children(&[".git", ".git/"])).unwrap() {
        RootSearch::Found(root) => assert_eq!(text(&root), "/r"),
        RootSearch::Ascend(_) => panic!("the root was passed over"),
    }
}

#[test]
fn search_from_a_nested_directory_finds_the_enclosing_root() {
    assert_eq!(search(&["home", "me", "repo", "src", "deep"], &["/home/me/repo"]), Ok(String::from("/home/me/repo")));
    assert_eq!(search(&["home", "me", "repo"], &["/home/me/repo"]), Ok(String::from("/home/me/repo")));
}

#[test]
fn search_finds_the_nearest_root() {
    let marked = ["/home/me", "/home/me/repo/vendor"];
    assert_eq!(search(&["home", "me", "repo", "vendor", "x"], &marked), Ok(String::from("/home/me/repo/vendor")));
    assert_eq!(search(&["home", "me", "repo", "src"], &marked), Ok(String::from("/home/me")));
}

#[test]
fn search_outside_any_repository_fails() {
    assert_eq!(search(&["tmp", "x"], &["/home/me/repo"]), Err(GitError::RepositoryNotFound));
    assert_eq!(search(&[], &[]), Err(GitError::RepositoryNotFound));
}

#[test]
fn object_path_splits_the_hex_text() {
    let sha = Digest::from_hex("04fea06420ca60892f73becee3614f6d023a4b7f").unwrap();
    let p = sha_to_path(&path(&["home", "me", "repo"]), &sha);
    assert_eq!(text(&p), "/home/me/repo/.git/objects/04/fea06420ca60892f73becee3614f6d023a4b7f");
    assert_eq!(p.parts.len(), 7);
    let at_top = sha_to_path(&path(&[]), &Digest { bytes: [0xAB; 20] });
    assert_eq!(text(&at_top), "/.git/objects/ab/ababababababababababababababababababab");
}

#[test]
fn object_path_is_the_same_for_the_same_digest() {
    let root = path(&["r"]);
    let a = sha_to_path(&root, &Digest::of(b"blob 0\0"));
    let b = sha_to_path(&root, &Digest::of(b"blob 0\0"));
    assert_eq!(a.parts, b.parts);
    assert_eq!(text(&a), "/r/.git/objects/e6/9de29bb2d1d6434b8b29ae775ad8c2e48c5391");
}

#[test]
fn ignore_file_lines() {
    let found = ignore_patterns(b"target\n\n# a comment\nsrc/gen\n*.o\nbuild/*\nnotes.txt").unwrap();
    assert_eq!(found, names(&["target", "src/gen", "notes.txt"]));
}

#[test]
fn ignore_file_without_lines() {
    assert_eq!(ignore_patterns(b"").unwrap().len(), 0);
    assert_eq!(ignore_patterns(b"\n\n\n").unwrap().len(), 0);
    assert_eq!(ignore_patterns(b"# only\n#comments\n").unwrap().len(), 0);
}

#[test]
fn ignore_file_keeps_a_verbatim_line_wherever_it_stands() {
    assert_eq!(ignore_patterns(b"target").unwrap(), names(&["target"]));
    assert_eq!(ignore_patterns(b"target\n").unwrap(), names(&["target"]));
    assert_eq!(ignore_patterns(b"\ntarget").unwrap(), names(&["target"]));
    assert_eq!(ignore_patterns(b"a\ntarget\nb").unwrap(), names(&["a", "target", "b"]));
    assert_eq!(ignore_patterns(b"a b\r\n c ").unwrap(), names(&["a b\r", " c "]));
}

#[test]
fn ignore_file_cuts_a_comment_and_the_character_before_it() {
    assert_eq!(ignore_patterns(b"target # build output").unwrap(), names(&["target"]));
    assert_eq!(ignore_patterns(b"target# build output").unwrap(), names(&["targe"]));
    assert_eq!(ignore_patterns(b"target  # x # y").unwrap(), names(&["target "]));
    assert_eq!(ignore_patterns(b"a#").unwrap(), names(&[""]));
    assert_eq!(ignore_patterns("caf\u{e9}# x".as_bytes()).unwrap(), names(&["caf"]));
    assert_eq!(ignore_patterns("\u{20ac}#".as_bytes()).unwrap(), names(&[""]));
}

#[test]
fn ignore_file_drops_globs_after_cutting_comments() {
    assert_eq!(ignore_patterns(b"*.o\na*b\nab*").unwrap().len(), 0);
    assert_eq!(ignore_patterns(b"keep # not *this").unwrap(), names(&["keep"]));
    assert_eq!(ignore_patterns(b"ke*p # gone").unwrap().len(), 0);
    assert_eq!(ignore_patterns(b"keep*# kept, the star is cut").unwrap(), names(&["keep"]));
}

#[test]
fn ignore_file_that_is_no_text_is_refused() {
    assert_eq!(ignore_patterns(b"target\n\xff\n").err(), Some(GitError::UnsupportedContent));
}

#[test]
fn pattern_of_one_line() {
    assert_eq!(line_pattern(b"target"), Some(b"target".to_vec()));
    assert_eq!(line_pattern(b""), None);
    assert_eq!(line_pattern(b"#x"), None);
    assert_eq!(line_pattern(b"x*"), None);
    assert_eq!(line_pattern(b"xy#"), Some(b"x".to_vec()));
}

#[test]
fn metadata_directory_is_always_ignored() {
    let none: Vec<RepoPath> = Vec::new();
    assert!(should_ignore(b".git", &path(&["r", ".git"]), &none));
    assert!(should_ignore(b".git", &path(&["r", "sub", ".git"]), &none));
    assert!(!should_ignore(b".gitignore", &path(&["r", ".gitignore"]), &none));
    assert!(!should_ignore(b"git", &path(&["r", "git"]), &none));
    assert!(!should_ignore(b"a", &path(&["r", ".git", "a"]), &none));
}

#[test]
fn listed_path_is_ignored_at_and_under_it() {
    let patterns = vec![path(&["r", "target"]), path(&["r", "src", "gen"])];
    assert!(should_ignore(b"target", &path(&["r", "target"]), &patterns));
    assert!(should_ignore(b"debug", &path(&["r", "target", "debug"]), &patterns));
    assert!(should_ignore(b"x.rs", &path(&["r", "src", "gen", "deep", "x.rs"]), &patterns));
    assert!(!should_ignore(b"src", &path(&["r", "src"]), &patterns));
    assert!(!should_ignore(b"main.rs", &path(&["r", "src", "main.rs"]), &patterns));
    assert!(!should_ignore(b"r", &path(&["r"]), &patterns));
}

#[test]
fn listed_path_is_matched_by_whole_components() {
    let patterns = vec![path(&["r", "tar"])];
    assert!(!should_ignore(b"target", &path(&["r", "target"]), &patterns));
    assert!(!should_ignore(b"tar", &path(&["q", "tar"]), &patterns));
    assert!(should_ignore(b"tar", &path(&["r", "tar"]), &patterns));
}

#[test]
fn pattern_that_is_the_root_ignores_everything() {
    let patterns = vec![path(&["r"])];
    assert!(should_ignore(b"a", &path(&["r", "a"]), &patterns));
    assert!(should_ignore(b"b", &path(&["r", "a", "b"]), &patterns));
    assert!(!should_ignore(b"a", &path(&["other", "a"]), &patterns));
}

#[test]
fn path_starts_with_its_ancestors() {
    assert!(starts_with(&path(&["a", "b", "c"]), &path(&["a", "b"])));
    assert!(starts_with(&path(&["a", "b", "c"]), &path(&["a", "b", "c"])));
    assert!(starts_with(&path(&["a", "b", "c"]), &path(&[])));
    assert!(!starts_with(&path(&["a", "b"]), &path(&["a", "b", "c"])));
    assert!(!starts_with(&path(&["a", "b", "c"]), &path(&["a", "c"])));
}

#[test]
fn listing_loses_its_ignored_children() {
    let patterns = vec![path(&["r", "target"]), path(&["r", "src", "gen"])];
    let mut at_root = listing(&["r"], &["src", ".git", "target", "a.txt", ".gitignore"]);
    retain_unignored(&mut at_root, &patterns);
    assert_eq!(listed_names(&at_root), vec!["src", "a.txt", ".gitignore"]);
    let mut in_src = listing(&["r", "src"], &["main.rs", "gen", "lib.rs"]);
    retain_unignored(&mut in_src, &patterns);
    assert_eq!(listed_names(&in_src), vec!["main.rs", "lib.rs"]);
    assert_eq!(text(&in_src[1].path), "/r/src/lib.rs");
}

#[test]
fn listing_under_an_ignored_path_is_lost_at_any_depth() {
    let patterns = vec![path(&["r", "target"])];
    let mut deep = listing(&["r", "target", "debug", "deps"], &["a", "b", "c"]);
    retain_unignored(&mut deep, &patterns);
    assert_eq!(deep.len(), 0);
}

#[test]
fn listing_without_ignored_children_is_kept_in_its_order() {
    let none: Vec<RepoPath> = Vec::new();
    let mut all = listing(&["r"], &["z", "a", "m"]);
    retain_unignored(&mut all, &none);
    assert_eq!(listed_names(&all), vec!["z", "a", "m"]);
    let mut empty: Vec<Listed> = Vec::new();
    retain_unignored(&mut empty, &none);
    assert_eq!(empty.len(), 0);
    let mut only_ignored = listing(&["r"], &[".git", "target"]);
    retain_unignored(&mut only_ignored, &vec![path(&["r", "target"])]);
    assert_eq!(only_ignored.len(), 0);
}
