use rs_loc::loc::{classify_line, count_line_kinds, extension_of, LineKind, LocData};
use rs_loc::report::{permille, Report};
use rs_loc::walk::{process_file, scan_dir_recursive, FsEntry};

fn file(name: &str, content: &str) -> FsEntry {
    FsEntry::File {
        name: name.to_string(),
        executable: false,
        content: Some(content.to_string()),
    }
}

fn find<'a>(r: &'a Report, lang: &str) -> Option<&'a LocData> {
    r.cats.iter().find(|c| c.lang == lang)
}

#[test]
fn classify_blank_comment_code() {
    assert!(matches!(classify_line(""), LineKind::Blank));
    assert!(matches!(classify_line("   \t  "), LineKind::Blank));
    assert!(matches!(classify_line("# note"), LineKind::Comment));
    assert!(matches!(classify_line("   // indented"), LineKind::Comment));
    assert!(matches!(classify_line("//"), LineKind::Comment));
    assert!(matches!(classify_line("let x = 1; // tail"), LineKind::Code));
    assert!(matches!(classify_line("/ /"), LineKind::Code));
    assert!(matches!(classify_line("/"), LineKind::Code));
}

#[test]
fn count_lines_of_content() {
    let c = count_line_kinds("hello\n\n# note\n");
    assert_eq!(c.blank, 1);
    assert_eq!(c.comment, 1);
    assert_eq!(c.code, 1);

    // a final line without a line feed still counts
    let c = count_line_kinds("a\nb");
    assert_eq!(c.code, 2);

    // carriage returns before line feeds are dropped before trimming
    let c = count_line_kinds("x\r\n\r\n# y\r\n");
    assert_eq!(c.blank, 1);
    assert_eq!(c.comment, 1);
    assert_eq!(c.code, 1);

    let c = count_line_kinds("");
    assert_eq!(c.blank + c.comment + c.code, 0);
}

#[test]
fn extension_rules() {
    assert_eq!(extension_of("main.rs"), "rs");
    assert_eq!(extension_of("archive.tar.gz"), "gz");
    assert_eq!(extension_of("README"), "unknown");
    // the text after the last dot counts even at the start of the name
    assert_eq!(extension_of(".gitignore"), "gitignore");
    assert_eq!(extension_of("trailing."), "unknown");
    assert_eq!(extension_of(""), "unknown");
}

#[test]
fn two_text_files() {
    // a.txt = "hello\n\n# note\n", b.txt = "x\n": txt has 2 files,
    // 1 blank, 1 comment, 2 code lines
    let tree = FsEntry::Dir {
        readable: true,
        entries: vec![file("a.txt", "hello\n\n# note\n"), file("b.txt", "x\n")],
    };
    let r = scan_dir_recursive(&tree, &Vec::new());
    assert_eq!(r.cats.len(), 1);
    let txt = find(&r, "txt").expect("txt category");
    assert_eq!(txt.files, 2);
    assert_eq!(txt.blank, 1);
    assert_eq!(txt.comment, 1);
    assert_eq!(txt.code, 2);
}

#[test]
fn ignored_extension_gives_empty_report() {
    let tree = FsEntry::Dir {
        readable: true,
        entries: vec![file("a.txt", "hello\n\n# note\n"), file("b.txt", "x\n")],
    };
    let r = scan_dir_recursive(&tree, &vec!["txt".to_string()]);
    assert_eq!(r.cats.len(), 0);
}

#[test]
fn merge_order_does_not_change_totals() {
    // the same leaves grouped differently: totals must agree
    let nested = FsEntry::Dir {
        readable: true,
        entries: vec![
            FsEntry::Dir {
                readable: true,
                entries: vec![file("a.rs", "fn a() {}\n"), file("b.txt", "x\n")],
            },
            file("c.rs", "// only a comment\n"),
        ],
    };
    let flat = FsEntry::Dir {
        readable: true,
        entries: vec![
            file("c.rs", "// only a comment\n"),
            file("a.rs", "fn a() {}\n"),
            file("b.txt", "x\n"),
        ],
    };
    let rn = scan_dir_recursive(&nested, &Vec::new());
    let rf = scan_dir_recursive(&flat, &Vec::new());
    for cat in &rn.cats {
        let other = find(&rf, &cat.lang).expect("category present in both");
        assert_eq!(cat.files, other.files);
        assert_eq!(cat.blank, other.blank);
        assert_eq!(cat.comment, other.comment);
        assert_eq!(cat.code, other.code);
    }
    assert_eq!(rn.cats.len(), rf.cats.len());
}

#[test]
fn line_sums_match_totals() {
    // blank + comment + code over all categories equals the lines scanned
    let tree = FsEntry::Dir {
        readable: true,
        entries: vec![
            file("a.rs", "fn a() {}\n\n// end\n"),
            file("b.py", "# py\nprint(1)\n"),
            file("c", "top\n"),
        ],
    };
    let r = scan_dir_recursive(&tree, &Vec::new());
    let t = r.totals();
    assert_eq!(t.lang, "SUM");
    assert_eq!(t.files, 3);
    assert_eq!(t.blank + t.comment + t.code, 6);
    let unknown = find(&r, "unknown").expect("unknown category");
    assert_eq!(unknown.files, 1);
}

#[test]
fn executable_and_unreadable_are_skipped() {
    let tree = FsEntry::Dir {
        readable: true,
        entries: vec![
            FsEntry::File {
                name: "tool.sh".to_string(),
                executable: true,
                content: Some("echo hi\n".to_string()),
            },
            FsEntry::File { name: "data.bin".to_string(), executable: false, content: None },
            FsEntry::Dir { readable: false, entries: Vec::new() },
            file("ok.txt", "fine\n"),
        ],
    };
    let r = scan_dir_recursive(&tree, &Vec::new());
    assert_eq!(r.cats.len(), 1);
    let txt = find(&r, "txt").expect("txt category");
    assert_eq!(txt.files, 1);
    assert_eq!(txt.code, 1);
}

#[test]
fn single_file_root() {
    let r = scan_dir_recursive(&file("lone.md", "# title\n\nbody\n"), &Vec::new());
    let md = find(&r, "md").expect("md category");
    assert_eq!(md.files, 1);
    assert_eq!(md.comment, 1);
    assert_eq!(md.blank, 1);
    assert_eq!(md.code, 1);
}

#[test]
fn process_file_outcomes() {
    let mut r = Report::new();
    let content = "x\n".to_string();
    assert!(process_file("a.txt", Some(&content), &mut r, &Vec::new()));
    assert!(!process_file("a.txt", Some(&content), &mut r, &vec!["txt".to_string()]));
    assert!(!process_file("a.txt", None, &mut r, &Vec::new()));
    let txt = find(&r, "txt").expect("txt category");
    assert_eq!(txt.files, 1);
    assert_eq!(txt.code, 1);
}

#[test]
fn loc_data_starts_at_zero() {
    let d = LocData::of("rs".to_string());
    assert_eq!(d.lang, "rs");
    assert_eq!((d.files, d.blank, d.comment, d.code), (0, 0, 0, 0));
}

#[test]
fn permille_is_rounded_ratio() {
    assert_eq!(permille(1, 3), 333);
    assert_eq!(permille(2, 3), 667);
    assert_eq!(permille(1, 2), 500);
    assert_eq!(permille(0, 5), 0);
    assert_eq!(permille(5, 5), 1000);
    assert_eq!(permille(1, 8), 125);
    // each row is rounded on its own, so the shares only approximate 100%
    assert_eq!(permille(1, 3) + permille(1, 3) + permille(1, 3), 999);
}
