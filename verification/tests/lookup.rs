use gitignore_blocks::read_paths::{self, EntryInfo};
use gitignore_blocks::write_file;
use gitignore_blocks::write_path;

fn names(v: &[&str]) -> Vec<String> {
    v.iter().map(|s| s.to_string()).collect()
}

fn file(name: &str) -> EntryInfo {
    EntryInfo { name: name.to_string(), is_dir: false }
}

fn dir(name: &str) -> EntryInfo {
    EntryInfo { name: name.to_string(), is_dir: true }
}

#[test]
fn read_paths_test_lookup() {
    let with = names(&["dir", "rust", "Lua", "HASKELL", "java", "Casing"]);

    // No entry matches the '*.gitignore' pattern: a bare '.gitignore'
    // has no extension, and other extensions do not qualify.
    let entries = vec![file(".gitignore"), file("fizz.txt"), file("buzz.c")];
    assert!(read_paths::lookup(&entries, &with).is_empty());

    // Directories matching the pattern are ignored.
    let entries = vec![file(".gitignore"), file("fizz.txt"), file("buzz.c"), dir("dir.gitignore")];
    assert!(read_paths::lookup(&entries, &with).is_empty());

    // Files matching the pattern and the wanted list are returned.
    let entries = vec![
        file(".gitignore"),
        file("fizz.txt"),
        file("buzz.c"),
        dir("dir.gitignore"),
        file("rust.gitignore"),
        file("java.gitignore"),
    ];
    assert_eq!(
        read_paths::lookup(&entries, &with),
        names(&["rust.gitignore", "java.gitignore"])
    );

    // Character casing is ignored in both file names and wanted names.
    let entries = vec![
        file("rust.gitignore"),
        file("java.gitignore"),
        file("LUA.gitignore"),
        file("haskeLL.gitignore"),
    ];
    assert_eq!(
        read_paths::lookup(&entries, &with),
        names(&["rust.gitignore", "java.gitignore", "LUA.gitignore", "haskeLL.gitignore"])
    );

    // With several files whose names differ only in casing, only the
    // first one encountered matches.
    let entries = vec![file("casing.gitignore"), file("CASING.gitignore")];
    assert_eq!(read_paths::lookup(&entries, &with), names(&["casing.gitignore"]));
    let entries = vec![file("CASING.gitignore"), file("casing.gitignore")];
    assert_eq!(read_paths::lookup(&entries, &with), names(&["CASING.gitignore"]));
}

#[test]
fn split_file_name_follows_path_rules() {
    assert_eq!(read_paths::split_file_name("rust.gitignore"), ("rust".to_string(), Some("gitignore".to_string())));
    assert_eq!(read_paths::split_file_name(".gitignore"), (".gitignore".to_string(), None));
    assert_eq!(read_paths::split_file_name("a.b.gitignore"), ("a.b".to_string(), Some("gitignore".to_string())));
    assert_eq!(read_paths::split_file_name("plain"), ("plain".to_string(), None));
    assert_eq!(read_paths::split_file_name("trailing."), ("trailing".to_string(), Some("".to_string())));
}

#[test]
fn write_path_test_lookup() {
    let listing_plain = names(&["random.txt", "fizz.h", "buzz.c"]);
    let listing_with_git = names(&["random.txt", ".git", "buzz.c"]);

    // When any directory may hold the target, the starting directory is
    // chosen, whether or not a .gitignore file already exists there.
    let listings = vec![listing_plain.clone()];
    assert_eq!(write_path::lookup(&listings, false), Some(0));
    let listings = vec![names(&["random.txt", ".gitignore"])];
    assert_eq!(write_path::lookup(&listings, false), Some(0));

    // When only a git repository root qualifies, a directory tree with
    // no .git entry yields nothing.
    let listings = vec![listing_plain.clone()];
    assert_eq!(write_path::lookup(&listings, true), None);

    // A .git entry in the starting directory makes it the target.
    let listings = vec![listing_with_git.clone()];
    assert_eq!(write_path::lookup(&listings, true), Some(0));

    // A .git entry in an ancestor makes the nearest such ancestor the
    // target.
    let listings = vec![names(&["sub.txt"]), listing_with_git.clone()];
    assert_eq!(write_path::lookup(&listings, true), Some(1));

    // The nearest git root wins over a farther one.
    let listings = vec![listing_with_git.clone(), listing_with_git.clone()];
    assert_eq!(write_path::lookup(&listings, true), Some(0));
}

#[test]
fn test_find_gitignore_path() {
    let listing_plain = names(&["random.txt", "fizz.h", "buzz.c"]);
    let listing_with_git = names(&["random.txt", "fizz.h", "buzz.c", ".git"]);

    // Without the git-root restriction a path is found even when there
    // is no .gitignore file in the directory.
    let listings = vec![listing_plain.clone()];
    assert_eq!(write_file::find_gitignore_path(&listings, false), Some(0));

    // Without the restriction, an existing .gitignore changes nothing.
    let listings = vec![names(&["random.txt", ".gitignore"])];
    assert_eq!(write_file::find_gitignore_path(&listings, false), Some(0));

    // With the restriction, no .git directory anywhere means no path,
    // even when a .gitignore file exists.
    let listings = vec![names(&["random.txt", ".gitignore"])];
    assert_eq!(write_file::find_gitignore_path(&listings, true), None);

    // With the restriction, a .git entry in the starting directory
    // yields that directory, with or without a .gitignore file.
    let listings = vec![listing_with_git.clone()];
    assert_eq!(write_file::find_gitignore_path(&listings, true), Some(0));
    let listings = vec![names(&["random.txt", ".git", ".gitignore"])];
    assert_eq!(write_file::find_gitignore_path(&listings, true), Some(0));

    // With the restriction, a .git entry in a parent directory yields
    // the parent, whether or not it holds a .gitignore file.
    let listings = vec![names(&["sub.txt"]), listing_with_git.clone()];
    assert_eq!(write_file::find_gitignore_path(&listings, true), Some(1));
    let listings = vec![names(&["sub.txt"]), names(&["random.txt", ".git", ".gitignore"])];
    assert_eq!(write_file::find_gitignore_path(&listings, true), Some(1));
}
