use bundle_rs::bundle::{Bundle, FileSystem, LoadErrorKind, ResolveError, StubFileSystem};
use bundle_rs::lines::split_lines;
use bundle_rs::syntax::{LineRef, LineToken};

fn prep_file_system() -> StubFileSystem {
    let mut map = StubFileSystem::new();
    map.insert(
        "main",
        r"use std::io;
use std::{BufReader};
pub mod game;
enum Test {
    One,
}",
    );
    map.insert(
        "game",
        r"struct Game {
    test: i32,
}
use std::fs::{File}
use std::io;",
    );
    map
}

fn line_from(line: &str, trim_left_count: usize, trim_right_count: usize) -> LineToken {
    LineToken::OtherLine {
        trimmed_ref: LineRef::new(
            trim_left_count,
            line.len() - trim_left_count - trim_right_count,
        ),
        line: line.to_string(),
    }
}

#[test]
fn it_works() {
    let mut bundle = Bundle::new("main", prep_file_system());
    bundle.load().unwrap();
    assert_eq!(
        vec![
            LineToken::UseModule {
                line: "use std::io;".to_string(),
                name: LineRef::new(4, 7)
            },
            LineToken::UseManyModules {
                names: vec![LineRef::new(10, 9)],
                line: "use std::{BufReader};".to_string(),
                parent: LineRef::new(4, 3)
            },
            LineToken::Module {
                name: "game".to_string(),
                is_pub: true,
                tokens: vec![
                    line_from("struct Game {", 0, 0),
                    line_from("    test: i32,", 4, 0),
                    line_from("}", 0, 0),
                    line_from("use std::fs::{File}", 0, 0),
                    LineToken::UseModule {
                        line: "use std::io;".to_string(),
                        name: LineRef::new(4, 7)
                    }
                ]
            },
            line_from("enum Test {", 0, 0),
            line_from("    One,", 4, 0),
            line_from("}", 0, 0)
        ],
        bundle.file
    );
}

#[test]
fn write_works() {
    let files = prep_file_system();
    let mut bundle = Bundle::new("main", files);
    bundle.load().unwrap();
    let mut result = Vec::<u8>::new();
    bundle.write(&mut result);
    assert_eq!(
        String::from_utf8(result).unwrap().as_str(),
        r"use std::io;
use std::{BufReader};
pub mod game{
struct Game {
    test: i32,
}
use std::fs::{File}
use std::io;
}
enum Test {
    One,
}
"
    )
}

#[test]
fn nested_modules_round_trip() {
    let mut fs = StubFileSystem::new();
    fs.insert("main", "mod game;\nfn main() {}\n");
    fs.insert("game", "  pub mod inner;\nstruct G;\n\nuse a::{b, c};");
    fs.insert("inner", "const X: u8 = 1;");
    let mut bundle = Bundle::new("main", fs);
    bundle.load().unwrap();
    assert_eq!(
        bundle.render(),
        "pub mod game{\npub mod inner{\nconst X: u8 = 1;\n}\nstruct G;\n\nuse a::{b, c};\n}\nfn main() {}\n"
    );
}

#[test]
fn missing_module_is_reported() {
    let mut fs = StubFileSystem::new();
    fs.insert("main", "use x;\nmod absent;\nmod game;\n");
    fs.insert("game", "struct G;");
    let mut bundle = Bundle::new("main", fs);
    let err = bundle.load().unwrap_err();
    assert_eq!(err.kind, LoadErrorKind::ResolutionNotFound);
    assert_eq!(err.relative_path, "");
    assert_eq!(err.module_name, "absent");
    assert!(bundle.file.is_empty());
    let mut out = Vec::new();
    bundle.write(&mut out);
    assert!(out.is_empty());
}

#[test]
fn missing_nested_module_names_its_context() {
    let mut fs = StubFileSystem::new();
    fs.insert("main", "mod game;");
    fs.insert("game", "mod gone;");
    let mut bundle = Bundle::new("main", fs);
    let err = bundle.load().unwrap_err();
    assert_eq!(err.kind, LoadErrorKind::ResolutionNotFound);
    assert_eq!(err.relative_path, "/game");
    assert_eq!(err.module_name, "gone");
}

#[test]
fn missing_entry_is_reported() {
    let bundle_fs = StubFileSystem::new();
    let mut bundle = Bundle::new("main", bundle_fs);
    let err = bundle.load().unwrap_err();
    assert_eq!(err.kind, LoadErrorKind::ResolutionNotFound);
    assert_eq!(err.module_name, "main");
}

#[test]
fn later_insert_replaces_text() {
    let mut fs = StubFileSystem::new();
    fs.insert("main", "old");
    fs.insert("main", "new");
    let mut bundle = Bundle::new("main", fs);
    bundle.load().unwrap();
    assert_eq!(bundle.render(), "new\n");
}

#[test]
fn strip_tests_setting() {
    let bundle = Bundle::new("main", StubFileSystem::new());
    assert!(!bundle.strips_test_modules());
    let bundle = bundle.stript_tests(true);
    assert!(bundle.strips_test_modules());
}

#[test]
fn lines_are_split_like_a_reader() {
    assert_eq!(split_lines(""), Vec::<String>::new());
    assert_eq!(split_lines("a"), vec!["a"]);
    assert_eq!(split_lines("a\n"), vec!["a"]);
    assert_eq!(split_lines("a\r\nb\n\nc\r"), vec!["a", "b", "", "c\r"]);
    assert_eq!(split_lines("\n\n"), vec!["", ""]);
}

#[test]
fn write_encodes_utf8() {
    let mut fs = StubFileSystem::new();
    fs.insert("main", "// é ü");
    let mut bundle = Bundle::new("main", fs);
    bundle.load().unwrap();
    let mut out = b">".to_vec();
    bundle.write(&mut out);
    assert_eq!(out, ">// é ü\n".as_bytes());
}

struct BrokenDisk;

impl FileSystem for BrokenDisk {
    fn open_submodule(&self, relative_path: &str, module_name: &str) -> Result<String, ResolveError> {
        match (relative_path, module_name) {
            ("", "main") => Ok("mod a;\n".to_string()),
            ("", "a") => Ok("x\nmod b;\n".to_string()),
            _ => Err(ResolveError::Io),
        }
    }
}

#[test]
fn read_failure_is_reported() {
    let mut bundle = Bundle::new("main", BrokenDisk);
    let err = bundle.load().unwrap_err();
    assert_eq!(err.kind, LoadErrorKind::IoFailure);
    assert_eq!(err.relative_path, "/a");
    assert_eq!(err.module_name, "b");
    assert!(bundle.file.is_empty());
}

#[test]
fn stub_finds_by_name_only() {
    let fs = prep_file_system();
    assert_eq!(fs.open_submodule("/anywhere", "game").unwrap(), fs.find("game").unwrap());
    assert_eq!(fs.find("nothing"), Err(ResolveError::NotFound));
}

#[test]
fn private_declaration_renders_public() {
    let mut fs = StubFileSystem::new();
    fs.insert("main", "mod a;");
    fs.insert("a", "x");
    let mut bundle = Bundle::new("main", fs);
    bundle.load().unwrap();
    assert_eq!(bundle.render(), "pub mod a{\nx\n}\n");
}

#[test]
fn file_without_declarations_is_unchanged() {
    let text = "fn f() {}\n\n    let x = 1;  \nuse a::{b};\n";
    let mut fs = StubFileSystem::new();
    fs.insert("main", text);
    let mut bundle = Bundle::new("main", fs);
    bundle.load().unwrap();
    let mut out = Vec::new();
    bundle.write(&mut out);
    assert_eq!(String::from_utf8(out).unwrap(), text);
}

#[test]
fn non_ascii_module_is_inlined() {
    let mut fs = StubFileSystem::new();
    fs.insert("main", "pub mod café;");
    fs.insert("café", "struct Crème;");
    let mut bundle = Bundle::new("main", fs);
    bundle.load().unwrap();
    assert_eq!(bundle.render(), "pub mod café{\nstruct Crème;\n}\n");
}

struct Recorder {
    asked: std::rc::Rc<std::cell::RefCell<Vec<(String, String)>>>,
}

impl FileSystem for Recorder {
    fn open_submodule(&self, relative_path: &str, module_name: &str) -> Result<String, ResolveError> {
        self.asked
            .borrow_mut()
            .push((relative_path.to_string(), module_name.to_string()));
        match module_name {
            "main" => Ok("mod game;\nmod util;".to_string()),
            "game" => Ok("mod inner;".to_string()),
            _ => Ok(String::new()),
        }
    }
}

#[test]
fn lookups_go_depth_first_with_contexts() {
    let asked = std::rc::Rc::new(std::cell::RefCell::new(Vec::new()));
    let fs = Recorder { asked: asked.clone() };
    let mut bundle = Bundle::new("main", fs);
    bundle.load().unwrap();
    let expected: Vec<(String, String)> = [("", "main"), ("", "game"), ("/game", "inner"), ("", "util")]
        .iter()
        .map(|(r, n)| (r.to_string(), n.to_string()))
        .collect();
    assert_eq!(*asked.borrow(), expected);
    assert_eq!(bundle.render(), "pub mod game{\npub mod inner{\n}\n}\npub mod util{\n}\n");
    let mut out = Vec::new();
    bundle.write(&mut out);
    assert_eq!(out.iter().filter(|b| **b == b'\n').count(), 6);
}
