use wasm_type_gen::annotate::{FileOut, SharedOutputEntry};
use wasm_type_gen::shared::{plan_file_outputs, EmitError, SharedFileError, SharedFiles};

fn entry(file: &str, label: &str, line: &str, unique: bool, after: Option<&str>) -> SharedOutputEntry {
    SharedOutputEntry {
        filename: file.to_string(),
        label: label.to_string(),
        line: line.to_string(),
        unique,
        after: after.map(|a| a.to_string()),
    }
}

fn render(files: &SharedFiles, name: &str) -> String {
    files.files.iter().find(|f| f.name == name).expect("file").render()
}

#[test]
fn labels_sorted_lines_in_call_order() {
    let mut s = SharedFiles::new();
    s.merge("m1", &vec![entry("hello.txt", "b", "line1", false, None)]).unwrap_or_else(|_| panic!());
    s.merge("m2", &vec![entry("hello.txt", "b", "line2", false, None)]).unwrap_or_else(|_| panic!());
    s.merge("m3", &vec![entry("hello.txt", "a", "line3", false, None)]).unwrap_or_else(|_| panic!());
    s.merge("m4", &vec![entry("hello.txt", "a", "line4", false, None)]).unwrap_or_else(|_| panic!());
    assert_eq!(render(&s, "hello.txt"), "a\nline3\nline4\nb\nline1\nline2\n");
}

#[test]
fn interleaved_labels_in_one_batch() {
    let mut s = SharedFiles::new();
    let batch = vec![
        entry("f", "b", "b1", false, None),
        entry("f", "a", "a1", false, None),
        entry("f", "b", "b2", false, None),
        entry("f", "a", "a2", false, None),
    ];
    assert!(s.merge("m", &batch).is_ok());
    assert_eq!(render(&s, "f"), "a\na1\na2\nb\nb1\nb2\n");
}

#[test]
fn unique_lines_once_per_label() {
    let mut s = SharedFiles::new();
    let batch = vec![
        entry("f", "x", "same", true, None),
        entry("f", "x", "same", true, None),
        entry("f", "y", "same", true, None),
    ];
    assert!(s.merge("m", &batch).is_ok());
    assert_eq!(render(&s, "f"), "x\nsame\ny\nsame\n");
}

#[test]
fn continuation_is_spliced_after_search_string() {
    let mut s = SharedFiles::new();
    let batch = vec![
        entry("hello.txt", "a", "hello ", false, Some(", and also my friend Tim!")),
        entry("hello.txt", "a", "hello ", false, Some("world")),
    ];
    assert!(s.merge("m", &batch).is_ok());
    assert_eq!(render(&s, "hello.txt"), "a\nhello world, and also my friend Tim!\n");
}

#[test]
fn shared_file_path_is_refused() {
    let mut s = SharedFiles::new();
    let batch = vec![
        entry("ok.txt", "a", "fine", false, None),
        entry("../escape.txt", "a", "bad", false, None),
    ];
    match s.merge("mymod", &batch) {
        Err(SharedFileError::OutsideSharedDir { module, file }) => {
            assert_eq!(module, "mymod");
            assert_eq!(file, "../escape.txt");
        }
        Ok(()) => panic!("expected a refusal"),
    }
    assert!(s.files.is_empty());
    assert!(s.merge("m", &vec![entry("a\\b", "l", "x", false, None)]).is_err());
    assert!(s.merge("m", &vec![entry("..", "l", "x", false, None)]).is_err());
    assert!(s.files.is_empty());
}

#[test]
fn traversal_in_emitted_file_is_refused() {
    let outs = vec![
        FileOut { name: "good.txt".to_string(), data: vec![1] },
        FileOut { name: "sub/../../evil".to_string(), data: vec![2] },
    ];
    match plan_file_outputs("/gen", "mymod", "Item", &outs) {
        Err(EmitError::OutsideOutputDir { module, item, file }) => {
            assert_eq!(module, "mymod");
            assert_eq!(item, "Item");
            assert_eq!(file, "sub/../../evil");
        }
        Ok(_) => panic!("expected a refusal"),
    }
    for bad in ["..", "/etc/passwd", "a\\b", "x/.."] {
        let outs = vec![FileOut { name: bad.to_string(), data: vec![] }];
        assert!(plan_file_outputs("/gen", "m", "i", &outs).is_err(), "{}", bad);
    }
}

#[test]
fn emitted_files_land_under_item_dir() {
    let outs = vec![
        FileOut { name: "a.txt".to_string(), data: vec![] },
        FileOut { name: "sub/b..c.txt".to_string(), data: vec![] },
    ];
    let paths = plan_file_outputs("/gen", "mymod", "Item", &outs).unwrap_or_else(|_| panic!());
    assert_eq!(paths, vec!["/gen/mymod/Item/a.txt".to_string(), "/gen/mymod/Item/sub/b..c.txt".to_string()]);
}
