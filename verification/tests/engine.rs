use gitignore_blocks::blocks::{BlockVec, StructureError};
use gitignore_blocks::generator::{
    get_block_names, insert, remove, serialize, to_lower, MergeError, Template,
};

fn buf(lines: &[&str]) -> Vec<String> {
    lines.iter().map(|l| l.to_string()).collect()
}

fn template(stem: &str, content: &[&str]) -> Template {
    Template { stem: stem.to_string(), lines: buf(content) }
}

fn read_back(text: &str) -> Vec<String> {
    text.lines().map(String::from).collect()
}

fn format_as_block(stem: &str, contents: &str) -> String {
    format!(
        "# GITIGNORE-CLI/START:{}\n{}\n# GITIGNORE-CLI/END:{}",
        stem, contents, stem
    )
}

#[test]
fn test_insert() {
    // Insert into an empty buffer formats and writes the block.
    let mut lines: Vec<String> = Vec::new();
    let rust_contents = "target/\nCargo.lock";
    insert(&mut lines, &vec![template("rust", &["target/", "Cargo.lock"])]).unwrap();
    let rust_block = format_as_block("rust", rust_contents);
    let mut expected = rust_block.clone();
    expected.push_str("\n");
    assert_eq!(serialize(&lines), expected);

    // Insert of a second template appends it after a blank separator.
    let mut lines = read_back(&serialize(&lines));
    insert(&mut lines, &vec![template("python", &["build/", "dist/"])]).unwrap();
    let python_block = format_as_block("python", "build/\ndist/");
    let mut expected = rust_block.clone();
    expected.push_str("\n\n");
    expected.push_str(&python_block);
    expected.push_str("\n");
    assert_eq!(serialize(&lines), expected);

    // Re-inserting a template whose contents changed edits the block in
    // place and leaves the other block untouched.
    let mut lines = read_back(&serialize(&lines));
    insert(&mut lines, &vec![template("rust", &["target/"])]).unwrap();
    let rust_block = format_as_block("rust", "target/");
    let mut expected = rust_block.clone();
    expected.push_str("\n\n");
    expected.push_str(&python_block);
    assert_eq!(serialize(&lines), expected);

    // Re-inserting templates whose contents have not changed changes
    // nothing.
    let mut lines = read_back(&serialize(&lines));
    insert(
        &mut lines,
        &vec![template("rust", &["target/"]), template("python", &["build/", "dist/"])],
    )
    .unwrap();
    let mut expected = rust_block.clone();
    expected.push_str("\n\n");
    expected.push_str(&python_block);
    assert_eq!(serialize(&lines), expected);
}

#[test]
fn test_sync() {
    // Sync re-applies every currently listed block from its template:
    // list the block names, then re-insert each template.
    let mut lines: Vec<String> = Vec::new();
    insert(
        &mut lines,
        &vec![template("rust", &["target/"]), template("js", &["dist/"])],
    )
    .unwrap();
    let names = get_block_names(&lines).unwrap();
    assert_eq!(names, vec!["rust".to_string(), "js".to_string()]);
    let before = serialize(&lines);
    let templates: Vec<Template> = vec![template("rust", &["target/"]), template("js", &["dist/"])];
    insert(&mut lines, &templates).unwrap();
    assert_eq!(serialize(&lines), before);
}

#[test]
fn insert_same_template_twice_is_idempotent() {
    let mut once: Vec<String> = buf(&["# notes", "keep"]);
    insert(&mut once, &vec![template("go", &["bin/", "vendor/"])]).unwrap();
    let mut twice = once.clone();
    insert(&mut twice, &vec![template("go", &["bin/", "vendor/"])]).unwrap();
    assert_eq!(serialize(&once), serialize(&twice));
    assert_eq!(once, twice);
}

#[test]
fn update_preserves_surrounding_blocks() {
    let mut lines: Vec<String> = Vec::new();
    insert(
        &mut lines,
        &vec![
            template("alpha", &["a1/", "a2/"]),
            template("beta", &["b1/"]),
            template("gamma", &["g1/", "g2/", "g3/"]),
        ],
    )
    .unwrap();
    let before = serialize(&lines);
    let alpha_before: Vec<&str> = before.lines().take(4).collect();
    // Grow beta from one content line to three.
    insert(&mut lines, &vec![template("beta", &["b1/", "b2/", "b3/"])]).unwrap();
    let after = serialize(&lines);
    let alpha_after: Vec<&str> = after.lines().take(4).collect();
    assert_eq!(alpha_before, alpha_after);
    let gamma_block = format_as_block("gamma", "g1/\ng2/\ng3/");
    assert!(before.contains(&gamma_block));
    assert!(after.contains(&gamma_block));
    let beta_block = format_as_block("beta", "b1/\nb2/\nb3/");
    assert!(after.contains(&beta_block));
}

#[test]
fn case_insensitive_name_matching() {
    // A template file named RUST.gitignore updates the block named rust.
    let mut lines: Vec<String> = Vec::new();
    insert(&mut lines, &vec![template("rust", &["target/"])]).unwrap();
    insert(&mut lines, &vec![template("RUST", &["target/", "Cargo.lock"])]).unwrap();
    let names = get_block_names(&lines).unwrap();
    assert_eq!(names, vec!["rust".to_string()]);
    let expected = format!("{}\n", format_as_block("rust", "target/\nCargo.lock"));
    assert_eq!(serialize(&lines), expected);
    assert_eq!(to_lower("RUST"), "rust");
    assert_eq!(to_lower("haskeLL"), "haskell");
    assert_eq!(to_lower("c++_2.0"), "c++_2.0");
}

#[test]
fn remove_absent_name_is_a_no_op() {
    let mut lines: Vec<String> = Vec::new();
    insert(&mut lines, &vec![template("rust", &["target/"])]).unwrap();
    let before = lines.clone();
    remove(&mut lines, &buf(&["python"])).unwrap();
    assert_eq!(lines, before);
    assert_eq!(serialize(&lines), serialize(&before));
}

#[test]
fn remove_deletes_block_and_markers() {
    let mut lines: Vec<String> = Vec::new();
    insert(
        &mut lines,
        &vec![template("rust", &["target/"]), template("python", &["build/"])],
    )
    .unwrap();
    remove(&mut lines, &buf(&["RUST"])).unwrap();
    let names = get_block_names(&lines).unwrap();
    assert_eq!(names, vec!["python".to_string()]);
    assert!(!serialize(&lines).contains("rust"));
}

#[test]
fn append_formatting() {
    // Appending to a non-empty buffer whose last line is not blank puts
    // exactly one blank separator line before the start marker.
    let mut lines = buf(&["existing content"]);
    insert(&mut lines, &vec![template("rust", &["target/"])]).unwrap();
    assert_eq!(
        lines,
        buf(&[
            "existing content",
            "",
            "# GITIGNORE-CLI/START:rust",
            "target/",
            "# GITIGNORE-CLI/END:rust",
            "",
        ])
    );

    // Appending to an empty buffer puts no leading blank line.
    let mut lines: Vec<String> = Vec::new();
    insert(&mut lines, &vec![template("rust", &["target/"])]).unwrap();
    assert_eq!(
        lines,
        buf(&["# GITIGNORE-CLI/START:rust", "target/", "# GITIGNORE-CLI/END:rust", ""])
    );

    // Appending after a blank last line adds no second separator.
    let mut lines = buf(&["existing content", ""]);
    insert(&mut lines, &vec![template("rust", &["target/"])]).unwrap();
    assert_eq!(
        lines,
        buf(&[
            "existing content",
            "",
            "# GITIGNORE-CLI/START:rust",
            "target/",
            "# GITIGNORE-CLI/END:rust",
            "",
        ])
    );
}

#[test]
fn end_to_end_scenario() {
    // Target starts empty; insert the rust block.
    let mut lines: Vec<String> = Vec::new();
    insert(&mut lines, &vec![template("rust", &["target/", "Cargo.lock"])]).unwrap();
    assert_eq!(
        serialize(&lines),
        "# GITIGNORE-CLI/START:rust\ntarget/\nCargo.lock\n# GITIGNORE-CLI/END:rust\n"
    );

    // Insert the python block: appended after a blank line, trailing
    // blank line at the end.
    insert(&mut lines, &vec![template("python", &["build/", "dist/"])]).unwrap();
    let text = serialize(&lines);
    assert!(text.contains("# GITIGNORE-CLI/END:rust\n\n# GITIGNORE-CLI/START:python"));
    assert!(text.ends_with("# GITIGNORE-CLI/END:python\n"));

    // Shrink the rust block; the python block is untouched and still
    // found by name.
    insert(&mut lines, &vec![template("rust", &["target/"])]).unwrap();
    let text = serialize(&lines);
    assert!(text.contains(&format_as_block("rust", "target/")));
    assert!(text.contains(&format_as_block("python", "build/\ndist/")));
    let names = get_block_names(&lines).unwrap();
    assert_eq!(names, vec!["rust".to_string(), "python".to_string()]);

    // Remove rust: only the python block remains, with its blank-line
    // separation from the top of the file preserved.
    remove(&mut lines, &buf(&["rust"])).unwrap();
    let names = get_block_names(&lines).unwrap();
    assert_eq!(names, vec!["python".to_string()]);
    assert_eq!(
        lines,
        buf(&[
            "",
            "# GITIGNORE-CLI/START:python",
            "build/",
            "dist/",
            "# GITIGNORE-CLI/END:python",
            "",
        ])
    );
}

#[test]
fn structural_violations_are_reported() {
    assert!(matches!(
        BlockVec::from(&buf(&["# GITIGNORE-CLI/START:a", "# GITIGNORE-CLI/START:b"])),
        Err(StructureError::NestedStart)
    ));
    assert!(matches!(
        BlockVec::from(&buf(&["# GITIGNORE-CLI/END:a"])),
        Err(StructureError::StrayEnd)
    ));
    assert!(matches!(
        BlockVec::from(&buf(&["# GITIGNORE-CLI/START:a", "# GITIGNORE-CLI/END:b"])),
        Err(StructureError::NameMismatch)
    ));
    assert!(matches!(
        BlockVec::from(&buf(&["# GITIGNORE-CLI/START:", "# GITIGNORE-CLI/END:"])),
        Err(StructureError::EmptyName)
    ));
    assert!(matches!(
        BlockVec::from(&buf(&[
            "# GITIGNORE-CLI/START:a",
            "# GITIGNORE-CLI/END:a",
            "# GITIGNORE-CLI/START:a",
            "# GITIGNORE-CLI/END:a",
        ])),
        Err(StructureError::DuplicateName)
    ));
    assert!(matches!(
        BlockVec::from(&buf(&["# GITIGNORE-CLI/stray"])),
        Err(StructureError::ForeignMarker)
    ));
    assert!(matches!(
        BlockVec::from(&buf(&["# GITIGNORE-CLI/START:a", "target/"])),
        Err(StructureError::UnclosedBlock)
    ));
    assert!(BlockVec::from(&buf(&["plain", "lines", "only"])).is_ok());
}

#[test]
fn merge_faults_are_reported() {
    // A corrupted target buffer stops the merge before any edit.
    let mut lines = buf(&["# GITIGNORE-CLI/END:a"]);
    let before = lines.clone();
    let r = insert(&mut lines, &vec![template("rust", &["target/"])]);
    assert!(matches!(r, Err(MergeError::Structure(StructureError::StrayEnd))));
    assert_eq!(lines, before);

    // An empty lower-cased stem cannot name a block.
    let mut lines: Vec<String> = Vec::new();
    let r = insert(&mut lines, &vec![template("", &["target/"])]);
    assert_eq!(r, Err(MergeError::EmptyName));
    assert!(lines.is_empty());

    // Template content that carries the marker prefix would corrupt the
    // block structure.
    let mut lines: Vec<String> = Vec::new();
    let r = insert(
        &mut lines,
        &vec![template("rust", &["target/", "# GITIGNORE-CLI/END:rust"])],
    );
    assert_eq!(r, Err(MergeError::ContentMarker));
    assert!(lines.is_empty());

    // Earlier templates stay applied when a later one is faulty.
    let mut lines: Vec<String> = Vec::new();
    let r = insert(
        &mut lines,
        &vec![template("rust", &["target/"]), template("", &["x"])],
    );
    assert_eq!(r, Err(MergeError::EmptyName));
    assert_eq!(get_block_names(&lines).unwrap(), vec!["rust".to_string()]);

    // Remove on a corrupted buffer reports the violation and leaves the
    // buffer untouched.
    let mut lines = buf(&["# GITIGNORE-CLI/other"]);
    let before = lines.clone();
    let r = remove(&mut lines, &buf(&["rust"]));
    assert!(matches!(r, Err(MergeError::Structure(StructureError::ForeignMarker))));
    assert_eq!(lines, before);
    assert!(matches!(
        get_block_names(&lines),
        Err(MergeError::Structure(StructureError::ForeignMarker))
    ));
}

#[test]
fn serialize_joins_with_newlines() {
    assert_eq!(serialize(&Vec::new()), "");
    assert_eq!(serialize(&buf(&["a"])), "a");
    assert_eq!(serialize(&buf(&["a", "b", ""])), "a\nb\n");
    assert_eq!(serialize(&buf(&["", "x"])), "\nx");
}

#[test]
fn same_template_twice_in_one_run_applies_sequentially() {
    // The second occurrence follows the update path against the first
    // occurrence's result: last write wins.
    let mut lines: Vec<String> = Vec::new();
    insert(
        &mut lines,
        &vec![
            template("rust", &["target/", "Cargo.lock"]),
            template("rust", &["target/"]),
        ],
    )
    .unwrap();
    assert_eq!(
        serialize(&lines),
        "# GITIGNORE-CLI/START:rust\ntarget/\n# GITIGNORE-CLI/END:rust\n"
    );
}

#[test]
fn parse_builds_the_index() {
    let lines = buf(&[
        "top",
        "# GITIGNORE-CLI/START:a",
        "x",
        "# GITIGNORE-CLI/END:a",
        "",
        "# GITIGNORE-CLI/START:b",
        "# GITIGNORE-CLI/END:b",
    ]);
    let bv = BlockVec::from(&lines).unwrap();
    assert_eq!(bv.len(), 2);
    let a = bv.get(0);
    assert_eq!(a.name, "a");
    assert_eq!(a.start, 1);
    assert_eq!(a.size, 1);
    let b = bv.get(1);
    assert_eq!(b.name, "b");
    assert_eq!(b.start, 5);
    assert_eq!(b.size, 0);
    assert_eq!(bv.index_of(&"b".to_string()), Some(1));
    assert_eq!(bv.index_of(&"c".to_string()), None);
}
