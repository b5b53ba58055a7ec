use mytree::{
    create_ordered_row_level_entries, create_print_options_from_args, entry_extension, is_visible,
    sort_meta_entries, ArgParseErrorType, Args, EntryMeta, FileTime, ParseError, PrintOptions,
    SortBy,
};

fn args() -> Args {
    Args {
        path: ".".to_string(),
        sort_by: None,
        extension_filters: None,
        show_hidden: false,
        regex: None,
        long_format: false,
        write_json: None,
    }
}

fn options(a: Args) -> PrintOptions {
    match create_print_options_from_args(a) {
        Ok(o) => o,
        Err(e) => panic!("unexpected error: {:?}", e),
    }
}

fn entry(name: &str, size: u64, secs: i64, is_dir: bool) -> EntryMeta {
    EntryMeta {
        name: name.to_string(),
        path: format!("root/{name}"),
        size,
        mtime: FileTime { secs, nanos: 0 },
        is_dir,
    }
}

fn names(v: &[EntryMeta]) -> Vec<String> {
    v.iter().map(|e| e.name.clone()).collect()
}

#[test]
fn hidden_entries_dropped_without_show_hidden() {
    let opts = options(args());
    let listing = vec![
        entry(".hidden", 1, 0, false),
        entry("a.txt", 2, 0, false),
        entry(".git", 0, 0, true),
    ];
    let r = create_ordered_row_level_entries(listing, &opts);
    assert_eq!(names(&r), vec!["a.txt"]);
    assert!(r.iter().all(|e| !e.name.starts_with('.')));
}

#[test]
fn hidden_entries_kept_with_show_hidden() {
    let mut a = args();
    a.show_hidden = true;
    let opts = options(a);
    let listing = vec![
        entry(".hidden", 1, 0, false),
        entry("a.txt", 2, 0, false),
        entry(".git", 0, 0, true),
    ];
    let r = create_ordered_row_level_entries(listing, &opts);
    assert_eq!(names(&r), vec![".git", ".hidden", "a.txt"]);
}

#[test]
fn extension_filter_applies_to_files_only() {
    let mut a = args();
    a.extension_filters = Some(vec!["TXT".to_string(), ".md".to_string()]);
    let opts = options(a);
    let listing = vec![
        entry("b.rs", 1, 0, false),
        entry("a.txt", 1, 0, false),
        entry("notes.MD", 1, 0, false),
        entry("src", 0, 0, true),
        entry("noext", 1, 0, false),
    ];
    let r = create_ordered_row_level_entries(listing, &opts);
    assert_eq!(names(&r), vec!["a.txt", "notes.MD", "src"]);
}

#[test]
fn regex_filter_applies_to_files_only() {
    let mut a = args();
    a.regex = Some("^ma".to_string());
    let opts = options(a);
    let listing = vec![
        entry("main.rs", 1, 0, false),
        entry("lib.rs", 1, 0, false),
        entry("docs", 0, 0, true),
        entry("map.txt", 1, 0, false),
    ];
    let r = create_ordered_row_level_entries(listing, &opts);
    assert_eq!(names(&r), vec!["docs", "main.rs", "map.txt"]);
}

#[test]
fn visibility_of_single_names() {
    let mut a = args();
    a.extension_filters = Some(vec!["rs".to_string()]);
    a.regex = Some("lib".to_string());
    let opts = options(a);
    assert!(is_visible("lib.rs", false, &opts));
    assert!(!is_visible("main.rs", false, &opts));
    assert!(!is_visible("lib.txt", false, &opts));
    assert!(is_visible("target", true, &opts));
    assert!(!is_visible(".cache", true, &opts));
}

#[test]
fn alphabetical_sort_ignores_case() {
    let listing = vec![entry("b", 0, 0, false), entry("a", 0, 0, false), entry("B", 0, 0, false), entry("C", 0, 0, false)];
    let r = sort_meta_entries(listing, &SortBy::Alphabetical);
    assert_eq!(names(&r), vec!["a", "b", "B", "C"]);
}

#[test]
fn alphabetical_sort_lowercases_before_comparing() {
    let listing = vec![entry("a", 0, 0, false), entry("B", 0, 0, false)];
    let r = sort_meta_entries(listing, &SortBy::Alphabetical);
    assert_eq!(names(&r), vec!["a", "B"]);
}

#[test]
fn size_sort_is_stable() {
    let listing = vec![
        entry("x", 5, 0, false),
        entry("y", 1, 0, false),
        entry("z", 5, 0, false),
        entry("w", 1, 0, true),
    ];
    let r = sort_meta_entries(listing, &SortBy::FileSize);
    assert_eq!(names(&r), vec!["y", "w", "x", "z"]);
}

#[test]
fn time_sort_orders_by_seconds_then_nanos() {
    let mut late = entry("late", 0, 10, false);
    late.mtime.nanos = 5;
    let listing = vec![late, entry("early", 0, -3, false), entry("mid", 0, 10, false)];
    let r = sort_meta_entries(listing, &SortBy::LastUpdatedTimestamp);
    assert_eq!(names(&r), vec!["early", "mid", "late"]);
}

#[test]
fn sorting_twice_keeps_the_order() {
    let make = || {
        vec![
            entry("Delta", 3, 4, false),
            entry("alpha", 3, 1, false),
            entry("charlie", 1, 1, true),
            entry("Bravo", 2, 9, false),
            entry("ALPHA", 1, 2, false),
        ]
    };
    for by in [SortBy::Alphabetical, SortBy::FileSize, SortBy::LastUpdatedTimestamp] {
        let once = sort_meta_entries(make(), &by);
        let once_names = names(&once);
        let twice = sort_meta_entries(once, &by);
        assert_eq!(names(&twice), once_names);
        assert_eq!(names(&sort_meta_entries(make(), &by)), once_names);
    }
}

#[test]
fn options_from_valid_args() {
    let mut a = args();
    a.sort_by = Some("fs".to_string());
    a.extension_filters = Some(vec!["..RS".to_string(), "toml".to_string()]);
    a.show_hidden = true;
    a.long_format = true;
    a.write_json = Some("out.json".to_string());
    let o = options(a);
    assert_eq!(o.sort_by, SortBy::FileSize);
    assert_eq!(o.extension_filters, Some(vec!["rs".to_string(), "toml".to_string()]));
    assert!(o.show_hidden);
    assert!(o.long_format);
    assert!(o.regex_filter.is_none());
    assert_eq!(o.write_json, Some("out.json".to_string()));
    let mut b = args();
    b.sort_by = Some("ts".to_string());
    assert_eq!(options(b).sort_by, SortBy::LastUpdatedTimestamp);
    assert_eq!(options(args()).sort_by, SortBy::Alphabetical);
}

#[test]
fn bad_sort_flag_is_rejected() {
    let mut a = args();
    a.sort_by = Some("size".to_string());
    match create_print_options_from_args(a) {
        Err(ParseError::Args(e)) => match &e.details {
            ArgParseErrorType::SortFlag(f) => {
                assert_eq!(f, "size");
                assert_eq!(
                    e.message(),
                    "argument error -> invalid sort flag \"size\" (expected \"fs\" or \"ts\")"
                );
            }
            other => panic!("wrong error {:?}", other),
        },
        other => panic!("wrong result {:?}", other),
    }
}

#[test]
fn bad_extension_is_rejected() {
    let mut a = args();
    a.extension_filters = Some(vec!["rs".to_string(), "..".to_string(), ".".to_string()]);
    match create_print_options_from_args(a) {
        Err(ParseError::Args(e)) => match &e.details {
            ArgParseErrorType::BadExtension(x) => {
                assert_eq!(x, "..");
                assert_eq!(e.details.message(), "invalid extension \"..\"");
            }
            other => panic!("wrong error {:?}", other),
        },
        other => panic!("wrong result {:?}", other),
    }
}

#[test]
fn bad_regex_is_rejected() {
    let mut a = args();
    a.regex = Some("(".to_string());
    match create_print_options_from_args(a) {
        Err(ParseError::Args(e)) => match &e.details {
            ArgParseErrorType::BadRegex(msg) => {
                assert!(msg.starts_with("invalid regex \"(\": "));
                assert!(msg.len() > "invalid regex \"(\": ".len());
            }
            other => panic!("wrong error {:?}", other),
        },
        other => panic!("wrong result {:?}", other),
    }
}

#[test]
fn sort_flag_checked_before_extensions() {
    let mut a = args();
    a.sort_by = Some("zz".to_string());
    a.extension_filters = Some(vec![".".to_string()]);
    a.regex = Some("(".to_string());
    assert!(matches!(
        create_print_options_from_args(a),
        Err(ParseError::Args(mytree::ArgParseError { details: ArgParseErrorType::SortFlag(_) }))
    ));
}

#[test]
fn extensions_of_names() {
    assert_eq!(entry_extension("a.tar.GZ"), "gz");
    assert_eq!(entry_extension(".hidden"), "");
    assert_eq!(entry_extension("noext"), "");
    assert_eq!(entry_extension("a."), "");
    assert_eq!(entry_extension(".."), "");
    assert_eq!(entry_extension(".config.TOML"), "toml");
}

#[test]
fn errors_convert_into_parse_error() {
    let a: ParseError = mytree::ArgParseError {
        details: ArgParseErrorType::BadRegex("x".to_string()),
    }
    .into();
    match a {
        ParseError::Args(e) => assert_eq!(e.details.message(), "invalid regex -> x"),
        other => panic!("wrong variant {:?}", other),
    }
    let t: ParseError = mytree::TreeParseError {
        details: mytree::TreeParseType::Io("gone".to_string()),
    }
    .into();
    match t {
        ParseError::Tree(e) => assert_eq!(e.message(), "IO error -> gone"),
        other => panic!("wrong variant {:?}", other),
    }
}

#[test]
fn extension_set_holds_each_extension_once() {
    let mut a = args();
    a.extension_filters = Some(vec![
        "RS".to_string(),
        ".rs".to_string(),
        "toml".to_string(),
        "..Toml".to_string(),
    ]);
    let o = options(a);
    assert_eq!(o.extension_filters, Some(vec!["rs".to_string(), "toml".to_string()]));
}
