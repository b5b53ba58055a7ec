use mytree::{
    build_tree_node_from_entry_meta, create_print_options_from_args,
    entry_style, format_entry_details, format_long_fields, format_size, metadata_error_note,
    render_tree, summary_line, Args, BuildStep, EntryMeta, EntryStyle, FileTime, Stats,
    TreeBuilder, TreeNode, TreeParseError, TreeParseType,
};

fn meta(name: &str, path: &str, size: u64, is_dir: bool) -> EntryMeta {
    EntryMeta {
        name: name.to_string(),
        path: path.to_string(),
        size,
        mtime: FileTime { secs: 0, nanos: 0 },
        is_dir,
    }
}

fn file(name: &str, size: u64) -> TreeNode {
    build_tree_node_from_entry_meta(meta(name, &format!("r/{name}"), size, false), None)
}

fn dir(name: &str, kids: Vec<TreeNode>) -> TreeNode {
    build_tree_node_from_entry_meta(meta(name, &format!("r/{name}"), 0, true), Some(kids))
}

fn root(kids: Vec<TreeNode>) -> TreeNode {
    build_tree_node_from_entry_meta(meta("r", "r", 0, true), Some(kids))
}

#[test]
fn format_size_zero() {
    assert_eq!(format_size(0), "0.0 B");
}

#[test]
fn format_size_one_kilobyte() {
    assert_eq!(format_size(1024), "1.0 KB");
}

#[test]
fn format_size_one_megabyte() {
    assert_eq!(format_size(1048576), "1.0 MB");
}

#[test]
fn format_size_other_values() {
    assert_eq!(format_size(1023), "1023.0 B");
    assert_eq!(format_size(1536), "1.5 KB");
    assert_eq!(format_size(1280), "1.2 KB");
    assert_eq!(format_size(1331), "1.3 KB");
    assert_eq!(format_size(1048575), "1024.0 KB");
    assert_eq!(format_size(1073741824), "1.0 GB");
    assert_eq!(format_size(1099511627776), "1.0 TB");
    assert_eq!(format_size(1125899906842624), "1024.0 TB");
    assert_eq!(format_size(u64::MAX), "16777216.0 TB");
}

#[test]
fn summary_of_two_files() {
    let tree = root(vec![file("a.txt", 3), file("b.txt", 5)]);
    let (lines, stats) = render_tree(&tree);
    assert_eq!(lines.len(), 2);
    assert_eq!(stats, Stats { dirs: 0, files: 2, size: 8 });
    let s = summary_line(&stats);
    assert!(s.starts_with("0 directories, 2 files"));
    assert_eq!(s, "0 directories, 2 files, 8.0 B bytes total");
}

#[test]
fn nested_tree_lines_and_guides() {
    let tree = root(vec![
        dir("src", vec![file("lib.rs", 10), dir("empty", vec![])]),
        file("README.md", 20),
    ]);
    let (lines, stats) = render_tree(&tree);
    let shown: Vec<String> = lines.iter().map(|l| format!("{}{}", l.lead, l.name)).collect();
    assert_eq!(
        shown,
        vec![
            "├── src",
            "│   ├── lib.rs",
            "│   └── empty",
            "└── README.md",
        ]
    );
    assert_eq!(stats, Stats { dirs: 2, files: 2, size: 30 });
    assert_eq!(lines[1].style, EntryStyle::Rust);
    assert_eq!(lines[3].style, EntryStyle::Markdown);
    assert_eq!(lines[0].style, EntryStyle::Directory);
    assert_eq!(lines[1].path, "r/lib.rs");
}

#[test]
fn last_directory_continues_with_blank_guide() {
    let tree = root(vec![file("a", 1), dir("z", vec![file("y", 1)])]);
    let (lines, _) = render_tree(&tree);
    let shown: Vec<String> = lines.iter().map(|l| format!("{}{}", l.lead, l.name)).collect();
    assert_eq!(shown, vec!["├── a", "└── z", "    └── y"]);
}

#[test]
fn empty_root_renders_nothing() {
    let (lines, stats) = render_tree(&root(vec![]));
    assert!(lines.is_empty());
    assert_eq!(summary_line(&stats), "0 directories, 0 files, 0.0 B bytes total");
}

#[test]
fn styles_by_kind_and_extension() {
    assert_eq!(entry_style(".git", true), EntryStyle::HiddenDirectory);
    assert_eq!(entry_style("src", true), EntryStyle::Directory);
    assert_eq!(entry_style(".env", false), EntryStyle::Hidden);
    assert_eq!(entry_style("x.PY", false), EntryStyle::Python);
    assert_eq!(entry_style("x.hpp", false), EntryStyle::CFamily);
    assert_eq!(entry_style("x.cs", false), EntryStyle::CSharp);
    assert_eq!(entry_style("x.mli", false), EntryStyle::OCaml);
    assert_eq!(entry_style("x.txt", false), EntryStyle::Text);
    assert_eq!(entry_style("x.Json", false), EntryStyle::Json);
    assert_eq!(entry_style("Makefile", false), EntryStyle::Plain);
}

#[test]
fn long_fields_layout() {
    assert_eq!(
        format_long_fields("1.0 KB", "-", "-"),
        "\n      Size:      1.0 KB       Modified:  -                    Created:   -                   "
    );
    assert_eq!(format_entry_details(1024, None, None), format_long_fields("1.0 KB", "-", "-"));
}

#[test]
fn long_fields_with_a_time() {
    let t = FileTime { secs: 1_000_000_000, nanos: 0 };
    let s = format_entry_details(0, Some(t), None);
    let modified = &s[s.find("Modified:").unwrap() + 11..];
    let stamp: String = modified.chars().take(19).collect();
    assert_eq!(stamp.len(), 19);
    assert_eq!(&stamp[4..5], "-");
    assert_eq!(&stamp[13..14], ":");
    assert!(stamp.starts_with("2001-09-0"));
}

#[test]
fn metadata_error_note_text() {
    assert_eq!(metadata_error_note("denied"), " (Error reading metadata: denied)");
}

#[test]
fn tree_error_messages() {
    let e = TreeParseError { details: TreeParseType::Io("boom".to_string()) };
    assert_eq!(e.message(), "IO error -> boom");
    let f = TreeParseError { details: TreeParseType::InvalidInput("bad".to_string()) };
    assert_eq!(f.message(), "bad");
}

fn run_builder(
    listings: &dyn Fn(&str) -> Vec<EntryMeta>,
    a: Args,
) -> TreeNode {
    let opts = create_print_options_from_args(a).unwrap();
    let mut b = TreeBuilder::new(
        "root".to_string(),
        "root".to_string(),
        0,
        FileTime { secs: 0, nanos: 0 },
        &opts,
    );
    loop {
        match b.next_step() {
            BuildStep::List(p) => b.supply(listings(&p), &opts),
            BuildStep::Done => break,
        }
    }
    b.finish()
}

fn flatten(n: &TreeNode, out: &mut Vec<(String, bool)>) {
    out.push((n.path.clone(), n.is_dir));
    if let Some(cs) = &n.children {
        for c in cs {
            flatten(c, out);
        }
    }
}

#[test]
fn builder_filters_and_orders_each_level() {
    let listings = |p: &str| -> Vec<EntryMeta> {
        match p {
            "root" => vec![
                meta("a.txt", "root/a.txt", 1, false),
                meta(".hidden", "root/.hidden", 1, false),
                meta("sub", "root/sub", 0, true),
            ],
            "root/sub" => vec![meta("b.rs", "root/sub/b.rs", 1, false)],
            _ => panic!("unexpected listing {p}"),
        }
    };
    let a = Args {
        path: "root".to_string(),
        sort_by: None,
        extension_filters: Some(vec!["txt".to_string()]),
        show_hidden: false,
        regex: None,
        long_format: false,
        write_json: None,
    };
    let tree = run_builder(&listings, a);
    assert!(tree.is_dir);
    assert_eq!(tree.name, "root");
    assert_eq!(tree.path, "root");
    let mut all = Vec::new();
    flatten(&tree, &mut all);
    assert_eq!(
        all,
        vec![
            ("root".to_string(), true),
            ("root/a.txt".to_string(), false),
            ("root/sub".to_string(), true),
        ]
    );
    let (lines, stats) = render_tree(&tree);
    let files: Vec<&str> = lines.iter().filter(|l| !l.is_dir).map(|l| l.name.as_str()).collect();
    assert_eq!(files, vec!["a.txt"]);
    assert_eq!(stats.files, 1);
}

#[test]
fn builder_keeps_every_visible_path() {
    let listings = |p: &str| -> Vec<EntryMeta> {
        match p {
            "root" => vec![
                meta("z", "root/z", 0, true),
                meta("m.rs", "root/m.rs", 4, false),
                meta("a", "root/a", 0, true),
            ],
            "root/z" => vec![meta("q", "root/z/q", 2, false)],
            "root/a" => vec![meta("deep", "root/a/deep", 0, true)],
            "root/a/deep" => vec![],
            _ => panic!("unexpected listing {p}"),
        }
    };
    let a = Args {
        path: "root".to_string(),
        sort_by: None,
        extension_filters: None,
        show_hidden: false,
        regex: None,
        long_format: false,
        write_json: None,
    };
    let tree = run_builder(&listings, a);
    let mut all = Vec::new();
    flatten(&tree, &mut all);
    assert_eq!(
        all,
        vec![
            ("root".to_string(), true),
            ("root/a".to_string(), true),
            ("root/a/deep".to_string(), true),
            ("root/m.rs".to_string(), false),
            ("root/z".to_string(), true),
            ("root/z/q".to_string(), false),
        ]
    );
    let (_, stats) = render_tree(&tree);
    assert_eq!(summary_line(&stats), "3 directories, 2 files, 6.0 B bytes total");
}
