use bash_bundler::bundle::{Args, BashFile, Error, ImportStyle};
use bash_bundler::sources::Sources;
use bash_bundler::text::{join_lines, split_lines, strip_prefix};

const YELL: &str = "yell() {\n    echo \"$1 !!!\" | tr '[:lower:]' '[:upper:]'\n}\n";
const PRINT: &str = "print() {\n    echo \"$1\"\n}\n";

fn fixtures() -> Vec<(&'static str, &'static str)> {
    vec![
        (
            "./tests/one.sh",
            "# import ./bash/one_utils.sh\n# import ./bash/one_more_utils.sh\nyell \"hallo\"\nprint \"hallo\"\n",
        ),
        ("./tests/bash/one_utils.sh", YELL),
        ("./tests/bash/one_more_utils.sh", PRINT),
        (
            "./tests/two.sh",
            "# import ./bash/two_utils.sh\n# import ./bash/one_more_utils.sh\nyell \"hallo\"\nprint \"hallo\"\nsuper_yell \"hallo\"\n",
        ),
        (
            "./tests/bash/two_utils.sh",
            "# import ./one_utils.sh\n\n\nsuper_yell() {\n    yell \"$1 !!!!!!\"\n}\n",
        ),
        ("./tests/source.sh", "source ./bash/source_utils.sh\n\nyell \"hallo\"\nprint \"hallo\"\n"),
        (
            "./tests/bash/source_utils.sh",
            "source ./bash/one_utils.sh\nsource ./bash/one_more_utils.sh\n\nthis_is_from_sourced_file() {\n    yell \"$1 !!!!!!\"\n}\n",
        ),
        ("./tests/circular.sh", "# import ./circular.sh\n"),
    ]
}

/// Drops `.` components, so that a joined path finds its fixture.
fn normal(p: &str) -> String {
    let mut s = p.to_string();
    while s.contains("/./") {
        s = s.replace("/./", "/");
    }
    s
}

/// Answers each look-up that a resolution asks for from `files`, the way a
/// file system would, until the resolution ends.
fn resolve_in(root: &str, args: &Args, files: &[(&str, &str)]) -> Result<BashFile, Error> {
    let mut sources = Sources::new();
    loop {
        match BashFile::resolve(root.to_string(), args, &sources) {
            Err(Error::Pending(p)) => {
                let found = files.iter().find(|(k, _)| normal(k) == normal(&p)).map(|(_, v)| v.to_string());
                sources.insert(p, found);
            }
            r => return r,
        }
    }
}

fn contents(f: &BashFile) -> String {
    f.contents.clone().unwrap_or_default()
}

#[test]
fn resolving_one_level() {
    let file = resolve_in("./tests/one.sh", &Args::default(), &fixtures()).unwrap();

    let expected = r#"yell() {
    echo "$1 !!!" | tr '[:lower:]' '[:upper:]'
}
print() {
    echo "$1"
}
yell "hallo"
print "hallo""#;

    assert_eq!(expected, contents(&file))
}

#[test]
fn resolving_two_level() {
    let file = resolve_in("./tests/two.sh", &Args::default(), &fixtures()).unwrap();

    let expected = r#"yell() {
    echo "$1 !!!" | tr '[:lower:]' '[:upper:]'
}


super_yell() {
    yell "$1 !!!!!!"
}
print() {
    echo "$1"
}
yell "hallo"
print "hallo"
super_yell "hallo""#;

    assert_eq!(expected, contents(&file))
}

#[test]
fn resolving_circular() {
    let file = resolve_in("./tests/circular.sh", &Args::default(), &fixtures())
        .unwrap_err()
        .to_string();
    let expected = Error::Circular.to_string();
    assert_eq!(expected, file)
}

#[test]
fn resolving_source() {
    let mut args = Args::default();
    args.root_path = Some("./tests/source.sh".into());
    args.replace_source = true;
    args.replace_comment = false;

    let file = resolve_in("./tests/source.sh", &args, &fixtures()).unwrap();

    let expected = r#"yell() {
    echo "$1 !!!" | tr '[:lower:]' '[:upper:]'
}
print() {
    echo "$1"
}

this_is_from_sourced_file() {
    yell "$1 !!!!!!"
}

yell "hallo"
print "hallo""#;

    assert_eq!(expected, contents(&file))
}

#[test]
fn comment_directives_off_leave_the_file_as_is() {
    let mut args = Args::default();
    args.replace_comment = false;
    let file = resolve_in("./tests/one.sh", &args, &fixtures()).unwrap();
    assert_eq!(
        "# import ./bash/one_utils.sh\n# import ./bash/one_more_utils.sh\nyell \"hallo\"\nprint \"hallo\"",
        contents(&file)
    );
}

#[test]
fn source_directives_off_leave_the_file_as_is() {
    let file = resolve_in("./tests/source.sh", &Args::default(), &fixtures()).unwrap();
    assert_eq!("source ./bash/source_utils.sh\n\nyell \"hallo\"\nprint \"hallo\"", contents(&file));
}

#[test]
fn a_file_without_imports_is_unchanged() {
    let files = [("dir/plain.sh", "a\nb\n\nc")];
    let file = resolve_in("dir/plain.sh", &Args::default(), &files).unwrap();
    assert_eq!("a\nb\n\nc", contents(&file));
    assert!(file.dependents.is_empty());
}

#[test]
fn import_at_line_two_is_replaced_in_place() {
    let files = [
        ("w/root.sh", "first\nsecond\n# import ./utils.sh\nthird\nfourth"),
        ("w/utils.sh", "greet() {\n    echo hi\n}"),
    ];
    let file = resolve_in("w/root.sh", &Args::default(), &files).unwrap();
    assert_eq!("first\nsecond\ngreet() {\n    echo hi\n}\nthird\nfourth", contents(&file));
}

#[test]
fn two_imports_keep_the_other_lines_in_order() {
    let files = [
        ("r/main.sh", "a\n# import ./x.sh\nb\n# import ./y.sh\nc"),
        ("r/x.sh", "x1\nx2"),
        ("r/y.sh", "y1"),
    ];
    let file = resolve_in("r/main.sh", &Args::default(), &files).unwrap();
    assert_eq!("a\nx1\nx2\nb\ny1\nc", contents(&file));
}

#[test]
fn each_style_only_when_enabled() {
    let files = [
        ("p/main.sh", "# import ./c.sh\nsource ./s.sh"),
        ("p/c.sh", "from comment"),
        ("p/s.sh", "from source"),
    ];
    let mut args = Args::default();
    args.root_path = Some("p/main.sh".to_string());
    let only_comment = resolve_in("p/main.sh", &args, &files).unwrap();
    assert_eq!("from comment\nsource ./s.sh", contents(&only_comment));

    args.replace_comment = false;
    args.replace_source = true;
    let only_source = resolve_in("p/main.sh", &args, &files).unwrap();
    assert_eq!("# import ./c.sh\nfrom source", contents(&only_source));

    args.replace_comment = true;
    let both = resolve_in("p/main.sh", &args, &files).unwrap();
    assert_eq!("from comment\nfrom source", contents(&both));
}

#[test]
fn nested_paths_resolve_from_the_right_directory() {
    let files = [
        ("top/main.sh", "# import ./lib/a.sh\nsource ./lib/b.sh"),
        ("top/lib/a.sh", "# import ./c.sh"),
        ("top/lib/c.sh", "nested comment"),
        ("top/lib/b.sh", "source ./lib/d.sh"),
        ("top/lib/d.sh", "nested source"),
        ("top/lib/lib/d.sh", "wrong base"),
    ];
    let mut args = Args::default();
    args.root_path = Some("top/main.sh".to_string());
    args.replace_source = true;
    let file = resolve_in("top/main.sh", &args, &files).unwrap();
    assert_eq!("nested comment\nnested source", contents(&file));
}

#[test]
fn invalid_targets_pass_through() {
    let files = [
        ("q/main.sh", "# import ./missing.sh\n# import ./notes.txt\nsource ./gone.sh\n# import ./ok.sh"),
        ("q/notes.txt", "text"),
        ("q/ok.sh", "ok"),
    ];
    let mut args = Args::default();
    args.root_path = Some("q/main.sh".to_string());
    args.replace_source = true;
    let file = resolve_in("q/main.sh", &args, &files).unwrap();
    assert_eq!("# import ./missing.sh\n# import ./notes.txt\nsource ./gone.sh\nok", contents(&file));
}

#[test]
fn a_missing_root_is_an_io_error() {
    let err = resolve_in("nowhere/main.sh", &Args::default(), &fixtures()).unwrap_err();
    assert!(matches!(err, Error::Io(ref p) if p == "nowhere/main.sh"));
    assert_eq!("cannot read nowhere/main.sh", err.to_string());
}

#[test]
fn an_unknown_path_asks_for_a_look_up() {
    let sources = Sources::new();
    let err = BashFile::resolve("a/b.sh".to_string(), &Args::default(), &sources).unwrap_err();
    assert!(matches!(err, Error::Pending(ref p) if p == "a/b.sh"));
    assert_eq!("not looked up a/b.sh", err.to_string());
}

#[test]
fn an_unknown_import_target_asks_for_a_look_up() {
    let mut sources = Sources::new();
    sources.insert("d/main.sh".to_string(), Some("# import ./lib.sh".to_string()));
    let err = BashFile::resolve("d/main.sh".to_string(), &Args::default(), &sources).unwrap_err();
    match err {
        Error::Pending(p) => assert_eq!("d/lib.sh", normal(&p)),
        _ => panic!("expected a look-up"),
    }
}

#[test]
fn mutual_imports_are_circular() {
    let files = [("m/a.sh", "# import ./b.sh"), ("m/b.sh", "# import ./a.sh")];
    let err = resolve_in("m/a.sh", &Args::default(), &files).unwrap_err();
    assert_eq!("Circular import found", err.to_string());
}

#[test]
fn chain_within_the_cut_off_resolves() {
    let mut owned: Vec<(String, String)> = Vec::new();
    for i in 0..40 {
        owned.push((format!("c/f{}.sh", i), format!("# import ./f{}.sh", i + 1)));
    }
    owned.push(("c/f40.sh".to_string(), "end".to_string()));
    let files: Vec<(&str, &str)> = owned.iter().map(|(a, b)| (a.as_str(), b.as_str())).collect();
    let file = resolve_in("c/f0.sh", &Args::default(), &files).unwrap();
    assert_eq!("end", contents(&file));
}

#[test]
fn imports_lists_directives_in_line_order() {
    let mut sources = Sources::new();
    sources.insert("r/x.sh".to_string(), Some("x".to_string()));
    sources.insert("r/./x.sh".to_string(), Some("x".to_string()));
    let mut f = BashFile::new("r/main.sh".to_string());
    f.contents = Some("a\n# import ./x.sh\nb".to_string());
    let found = f.imports(&Args::default(), &sources).unwrap();
    assert_eq!(1, found.len());
    assert_eq!(1, found[0].line_number);
    assert_eq!("./x.sh", found[0].text);
    assert_eq!("# import ./x.sh", found[0].line);
    assert_eq!("r/x.sh", normal(&found[0].path));
    assert_eq!(ImportStyle::Comment, found[0].style);
    assert!(found[0].resolved.is_none());
}

#[test]
fn lines_of_a_file() {
    let mut f = BashFile::new("x.sh".to_string());
    assert!(f.lines().is_empty());
    f.contents = Some("a\r\nb\n\nc\n".to_string());
    assert_eq!(vec!["a", "b", "", "c"], f.lines());
}

#[test]
fn splitting_and_joining_lines() {
    assert_eq!(Vec::<String>::new(), split_lines(""));
    assert_eq!(vec![""], split_lines("\n"));
    assert_eq!(vec!["a", ""], split_lines("a\n\n"));
    assert_eq!(vec!["a", "b\r"], split_lines("a\r\nb\r"));
    let parts = vec!["x".to_string(), "".to_string(), "y".to_string()];
    assert_eq!("x\n\ny", join_lines(&parts));
    assert_eq!("", join_lines(&Vec::new()));
}

#[test]
fn stripping_a_prefix() {
    assert_eq!(Some("./a.sh".to_string()), strip_prefix("# import ./a.sh", "# import "));
    assert_eq!(None, strip_prefix("#import ./a.sh", "# import "));
    assert_eq!(None, strip_prefix("# imp", "# import "));
}

#[test]
fn resolve_dependents_substitutes_loaded_files() {
    let mut sources = Sources::new();
    sources.insert("k/main.sh".to_string(), Some("top\n# import ./part.sh".to_string()));
    sources.insert("k/part.sh".to_string(), Some("part one\npart two".to_string()));
    sources.insert("k/./part.sh".to_string(), Some("part one\npart two".to_string()));
    let f = BashFile::new("k/main.sh".to_string()).load(&sources).unwrap();
    let loaded = f.load_dependents(&Args::default(), &sources).unwrap();
    assert_eq!(1, loaded.dependents.len());
    assert_eq!(1, loaded.dependents[0].resolved.as_ref().unwrap().nested);
    let flat = loaded.resolve_dependents();
    assert_eq!(Some("top\npart one\npart two".to_string()), flat.contents);
    assert!(flat.dependents.is_empty());
}

#[test]
fn sourced_file_is_substituted_with_nested_sources() {
    let files = [
        ("proj/main.sh", "echo start\nsource ./utils/sourced.sh\necho end"),
        ("proj/utils/sourced.sh", "source ./utils/inner.sh\nsourced() { :; }"),
        ("proj/utils/inner.sh", "inner() { :; }"),
    ];
    let mut args = Args::default();
    args.root_path = Some("proj/main.sh".to_string());
    args.replace_source = true;
    args.replace_comment = false;
    let file = resolve_in("proj/main.sh", &args, &files).unwrap();
    assert_eq!("echo start\ninner() { :; }\nsourced() { :; }\necho end", contents(&file));
}

fn chain(last: usize) -> Vec<(String, String)> {
    let mut owned: Vec<(String, String)> = Vec::new();
    for i in 0..last {
        owned.push((format!("z/f{}.sh", i), format!("# import ./f{}.sh", i + 1)));
    }
    owned.push((format!("z/f{}.sh", last), "end".to_string()));
    owned
}

#[test]
fn chain_at_the_cut_off_resolves() {
    let owned = chain(512);
    let files: Vec<(&str, &str)> = owned.iter().map(|(a, b)| (a.as_str(), b.as_str())).collect();
    let file = resolve_in("z/f0.sh", &Args::default(), &files).unwrap();
    assert_eq!("end", contents(&file));
}

#[test]
fn chain_past_the_cut_off_is_circular() {
    let owned = chain(513);
    let files: Vec<(&str, &str)> = owned.iter().map(|(a, b)| (a.as_str(), b.as_str())).collect();
    let err = resolve_in("z/f0.sh", &Args::default(), &files).unwrap_err();
    assert!(matches!(err, Error::Circular));
}

#[test]
fn sources_keep_the_latest_entry_per_path() {
    let mut sources = Sources::new();
    assert_eq!(None, sources.lookup("a.sh"));
    sources.insert("a.sh".to_string(), None);
    assert_eq!(Some(None), sources.lookup("a.sh"));
    sources.insert("b.sh".to_string(), Some("b".to_string()));
    sources.insert("a.sh".to_string(), Some("a".to_string()));
    assert_eq!(Some(Some("a".to_string())), sources.lookup("a.sh"));
    assert_eq!(Some(Some("b".to_string())), sources.lookup("b.sh"));
    assert_eq!(None, sources.lookup("c.sh"));
}

#[test]
fn default_options() {
    let args = Args::default();
    assert!(args.root_path.is_none());
    assert!(args.config.is_none());
    assert!(args.replace_comment);
    assert!(!args.replace_source);
}

#[test]
fn loaded_tree_holds_the_scanned_directives() {
    let mut sources = Sources::new();
    sources.insert("t/main.sh".to_string(), Some("a\nsource ./lib/s.sh\n# import ./lib/c.sh".to_string()));
    for p in ["t/./lib/s.sh", "t/lib/s.sh"] {
        sources.insert(p.to_string(), Some("# import ./x.sh".to_string()));
    }
    for p in ["t/./lib/c.sh", "t/lib/c.sh"] {
        sources.insert(p.to_string(), Some("c".to_string()));
    }
    for p in ["t/./lib/./x.sh", "t/lib/x.sh", "t/./lib/x.sh"] {
        sources.insert(p.to_string(), Some("x".to_string()));
    }
    let mut args = Args::default();
    args.root_path = Some("t/main.sh".to_string());
    args.replace_source = true;
    let f = BashFile::new("t/main.sh".to_string()).load(&sources).unwrap();
    let t = f.load_dependents(&args, &sources).unwrap();
    assert_eq!(2, t.dependents.len());
    let s = &t.dependents[0];
    assert_eq!((1, ImportStyle::Source, "./lib/s.sh"), (s.line_number, s.style, s.text.as_str()));
    let c = &t.dependents[1];
    assert_eq!((2, ImportStyle::Comment, "./lib/c.sh"), (c.line_number, c.style, c.text.as_str()));
    let child = s.resolved.as_ref().unwrap();
    assert_eq!(s.path, child.path);
    assert_eq!(1, child.nested);
    assert_eq!(Some("# import ./x.sh".to_string()), child.contents);
    let grandchild = child.dependents[0].resolved.as_ref().unwrap();
    assert_eq!(2, grandchild.nested);
    assert_eq!("t/lib/x.sh", normal(&grandchild.path));
}
