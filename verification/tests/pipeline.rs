use folder_check::diff::Diff;
use folder_check::diff::DiffOutcome;
use folder_check::hash::sentinel;
use folder_check::hash::NewResult;
use folder_check::hash::ResultItem;
use folder_check::scan::EachDir;
use folder_check::scan::EachFile;
use folder_check::scan::EachPath;
use folder_check::scan::TargetDir;
use folder_check::store::fresh_snapshot_name;
use folder_check::store::render_lines;
use folder_check::store::snapshot_filename;
use folder_check::store::split_lines;
use folder_check::store::LastResult;

fn b(s: &str) -> Vec<u8> {
    s.as_bytes().to_vec()
}

fn file(path: &str, name: &str) -> EachPath {
    EachPath::new(b(path), b(name), None)
}

fn dir(path: &str, name: &str, children: Vec<EachPath>) -> EachPath {
    EachPath::new(b(path), b(name), Some(children))
}

fn result_file(name: &str) -> EachFile {
    EachFile {
        path: b(&format!("/r/{}", name)),
        name: b(name),
    }
}

fn entry_path(p: &EachPath) -> &Vec<u8> {
    match p {
        EachPath::Dir(d) => &d.path,
        EachPath::File(f) => &f.path,
    }
}

#[test]
fn result_file_name_accepted() {
    let f = result_file("checkresult-230101120000.txt");
    assert!(f.is_result_file());
}

#[test]
fn result_file_name_rejected() {
    assert!(!result_file("checkresult-23010112000.txt").is_result_file());
    assert!(!result_file("checkresult-2301011200000.txt").is_result_file());
    assert!(!result_file("checkresult-23010112000x.txt").is_result_file());
    assert!(!result_file("checkresulty230101120000.txt").is_result_file());
    assert!(!result_file("checkresult-230101120000.txz").is_result_file());
    assert!(!result_file("anything-else.txt").is_result_file());
}

#[test]
fn empty_dir_with_no_children() {
    let d = EachDir {
        path: b("/r/e"),
        name: b("e"),
        children: vec![],
    };
    assert!(d.is_empty());
}

#[test]
fn empty_dir_with_only_marker_child() {
    let d = EachDir {
        path: b("/r/e"),
        name: b("e"),
        children: vec![file("/r/e/.DS_Store", ".DS_Store")],
    };
    assert!(d.is_empty());
}

#[test]
fn dir_with_one_real_child_not_empty() {
    let d = EachDir {
        path: b("/r/e"),
        name: b("e"),
        children: vec![file("/r/e/a", "a")],
    };
    assert!(!d.is_empty());
}

#[test]
fn dir_with_two_children_not_empty() {
    let d = EachDir {
        path: b("/r/e"),
        name: b("e"),
        children: vec![
            file("/r/e/.DS_Store", ".DS_Store"),
            file("/r/e/a", "a"),
        ],
    };
    assert!(!d.is_empty());
}

#[test]
fn visit_flattens_and_skips_markers() {
    let tree = EachDir {
        path: b("/r"),
        name: b("r"),
        children: vec![
            file("/r/a", "a"),
            dir(
                "/r/sub",
                "sub",
                vec![
                    file("/r/sub/.DS_Store", ".DS_Store"),
                    file("/r/sub/b", "b"),
                    dir("/r/sub/empty", "empty", vec![]),
                ],
            ),
        ],
    };
    let entries = tree.visit();
    let paths: Vec<Vec<u8>> = entries.iter().map(|e| entry_path(e).clone()).collect();
    assert_eq!(paths, vec![b("/r/a"), b("/r/sub/b"), b("/r/sub/empty")]);
}

#[test]
fn target_dir_separates_result_files() {
    let root = EachDir {
        path: b("/r"),
        name: b("r"),
        children: vec![
            file("/r/checkresult-230101120000.txt", "checkresult-230101120000.txt"),
            file("/r/.DS_Store", ".DS_Store"),
            file("/r/a", "a"),
            dir("/r/empty", "empty", vec![]),
        ],
    };
    let td = TargetDir::new(root);
    assert_eq!(td.path, b("/r"));
    let paths: Vec<Vec<u8>> = td.content.iter().map(|e| entry_path(e).clone()).collect();
    assert_eq!(paths, vec![b("/r/a"), b("/r/empty")]);
    assert_eq!(td.result_files.len(), 1);
    assert_eq!(td.result_files[0].name, b("checkresult-230101120000.txt"));
}

#[test]
fn result_file_in_subdir_is_content() {
    let root = EachDir {
        path: b("/r"),
        name: b("r"),
        children: vec![dir(
            "/r/sub",
            "sub",
            vec![file(
                "/r/sub/checkresult-230101120000.txt",
                "checkresult-230101120000.txt",
            )],
        )],
    };
    let td = TargetDir::new(root);
    assert_eq!(td.result_files.len(), 0);
    assert_eq!(td.content.len(), 1);
}

#[test]
fn sentinel_is_the_fixed_literal() {
    assert_eq!(sentinel(), b("         empty_directory        "));
    assert_eq!(sentinel().len(), 32);
}

#[test]
fn generate_for_empty_dir_uses_sentinel() {
    let e = dir("/r/empty", "empty", vec![]);
    let item = e.generate(&Vec::new());
    assert_eq!(item.path, b("/r/empty"));
    assert_eq!(item.md5, b("         empty_directory        "));
}

#[test]
fn generate_hashes_empty_file() {
    let e = file("/r/a", "a");
    let item = e.generate(&Vec::new());
    assert_eq!(item.md5, b("d41d8cd98f00b204e9800998ecf8427e"));
}

#[test]
fn generate_hashes_known_content() {
    let e = file("/r/a", "a");
    let item = e.generate(&b("abc"));
    assert_eq!(item.md5, b("900150983cd24fb0d6963f7d28e17f72"));
}

fn sample_target() -> TargetDir {
    TargetDir {
        path: b("/r"),
        content: vec![],
        result_files: vec![],
    }
}

fn item(path: &str, digest: &str) -> ResultItem {
    ResultItem {
        path: b(path),
        md5: b(digest),
    }
}

#[test]
fn new_result_sorts_and_serializes() {
    let td = sample_target();
    let items = vec![item("/r/b", "d2"), item("/r/a", "d1")];
    let result = td.new_result(items);
    assert_eq!(result.content, vec![b("d1 ./a"), b("d2 ./b")]);
}

#[test]
fn new_result_is_order_independent() {
    let td = sample_target();
    let one = td.new_result(vec![
        item("/r/a", "d1"),
        item("/r/b", "d2"),
        item("/r/c", "d3"),
    ]);
    let two = td.new_result(vec![
        item("/r/c", "d3"),
        item("/r/a", "d1"),
        item("/r/b", "d2"),
    ]);
    assert_eq!(one.content, two.content);
}

#[test]
fn new_result_empty() {
    let td = sample_target();
    let result = td.new_result(vec![]);
    assert_eq!(result.content.len(), 0);
    assert_eq!(render_lines(&result.content), Vec::<u8>::new());
}

#[test]
fn last_result_picks_largest_sequence() {
    let mut td = sample_target();
    td.result_files = vec![
        result_file("checkresult-230101120000.txt"),
        result_file("checkresult-230105093000.txt"),
        result_file("checkresult-230103000000.txt"),
    ];
    match td.last_result() {
        LastResult::Exist(i) => {
            assert_eq!(td.result_files[i].name, b("checkresult-230105093000.txt"))
        }
        LastResult::NotExist => panic!("a snapshot should have been selected"),
    }
}

#[test]
fn last_result_ignores_listing_order() {
    let mut td = sample_target();
    td.result_files = vec![
        result_file("checkresult-230105093000.txt"),
        result_file("checkresult-230103000000.txt"),
        result_file("checkresult-230101120000.txt"),
    ];
    match td.last_result() {
        LastResult::Exist(i) => {
            assert_eq!(td.result_files[i].name, b("checkresult-230105093000.txt"))
        }
        LastResult::NotExist => panic!("a snapshot should have been selected"),
    }
}

#[test]
fn last_result_without_snapshots() {
    let td = sample_target();
    assert!(matches!(td.last_result(), LastResult::NotExist));
}

#[test]
fn snapshot_filename_embeds_stamp() {
    let name = snapshot_filename(&b("230101120000"));
    assert_eq!(name, b("checkresult-230101120000.txt"));
}

#[test]
fn fresh_snapshot_name_matches_pattern() {
    let name = fresh_snapshot_name().expect("the clock should yield a 12-digit stamp");
    let f = EachFile {
        path: name.clone(),
        name,
    };
    assert!(f.is_result_file());
}

#[test]
fn render_and_split_round_trip() {
    let lines = vec![b("d1 ./a"), b("d2 ./b"), b("")];
    let data = render_lines(&lines);
    assert_eq!(data, b("d1 ./a\nd2 ./b\n\n"));
    assert_eq!(split_lines(&data), lines);
}

#[test]
fn split_lines_of_empty_data() {
    assert_eq!(split_lines(&Vec::new()).len(), 0);
}

#[test]
fn split_lines_with_unterminated_tail() {
    assert_eq!(split_lines(&b("a\nb")), vec![b("a"), b("b")]);
}

fn diff_of(last: Vec<Vec<u8>>, new: Vec<Vec<u8>>) -> DiffOutcome {
    let result = NewResult { content: new };
    result.merge(last).diff()
}

#[test]
fn diff_pure_addition_and_removal() {
    let outcome = diff_of(
        vec![b("d1 .a"), b("d2 .b")],
        vec![b("d1 .a"), b("d3 .c")],
    );
    match outcome {
        DiffOutcome::Changed(d) => {
            assert_eq!(d.added, vec![b("d3 .c")]);
            assert_eq!(d.deleted, vec![b("d2 .b")]);
        }
        DiffOutcome::NoChange => panic!("a change should have been reported"),
    }
}

#[test]
fn diff_content_change_on_same_path() {
    let outcome = diff_of(vec![b("d1 .a")], vec![b("d2 .a")]);
    match outcome {
        DiffOutcome::Changed(d) => {
            assert_eq!(d.added, vec![b("d2 .a")]);
            assert_eq!(d.deleted, vec![b("d1 .a")]);
        }
        DiffOutcome::NoChange => panic!("a change should have been reported"),
    }
}

#[test]
fn diff_no_change_short_circuit() {
    let outcome = diff_of(
        vec![b("d1 .a"), b("d2 .b")],
        vec![b("d1 .a"), b("d2 .b")],
    );
    assert!(matches!(outcome, DiffOutcome::NoChange));
}

#[test]
fn second_run_over_same_tree_reports_no_change() {
    let td = sample_target();
    let first = td.new_result(vec![item("/r/b", "d2"), item("/r/a", "d1")]);
    let persisted = render_lines(&first.content);
    let reloaded = split_lines(&persisted);
    let second = td.new_result(vec![item("/r/a", "d1"), item("/r/b", "d2")]);
    assert!(matches!(second.merge(reloaded).diff(), DiffOutcome::NoChange));
}

#[test]
fn summarize_with_both_sections() {
    let d = Diff {
        added: vec![b("d3 .c")],
        deleted: vec![b("d2 .b")],
    };
    assert_eq!(
        d.summarize(),
        vec![b("Newly added:"), b("d3 .c"), b(""), b("Removed:"), b("d2 .b")]
    );
}

#[test]
fn summarize_with_only_added() {
    let d = Diff {
        added: vec![b("d3 .c")],
        deleted: vec![],
    };
    assert_eq!(d.summarize(), vec![b("Newly added:"), b("d3 .c")]);
}

#[test]
fn summarize_with_only_removed() {
    let d = Diff {
        added: vec![],
        deleted: vec![b("d2 .b")],
    };
    assert_eq!(d.summarize(), vec![b("Removed:"), b("d2 .b")]);
}

#[test]
fn empty_directory_yields_sentinel_line() {
    let root = EachDir {
        path: b("/r"),
        name: b("r"),
        children: vec![dir("/r/empty", "empty", vec![])],
    };
    let td = TargetDir::new(root);
    let mut items = Vec::new();
    for entry in &td.content {
        items.push(entry.generate(&Vec::new()));
    }
    let result = td.new_result(items);
    assert_eq!(
        result.content,
        vec![b("         empty_directory         ./empty")]
    );
}
