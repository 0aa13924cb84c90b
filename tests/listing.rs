use lsx::args_parser::{Args, Config, ConfigError};
use lsx::display::{display_long, display_short, display_tree, long_line, DisplayMode};
use lsx::entry::{Entry, EntryKind, Meta};
use lsx::filters::{filter_entries, FilterType, NamePattern};
use lsx::sort::SortArgument;
use lsx::walker::{non_recursive, process_dir, TreeStep, TreeWalker};
use std::path::PathBuf;

fn meta(kind: EntryKind, size: u64, secs: i64) -> Meta {
    Meta { kind, size, modified_secs: secs, modified_nanos: 0, mode: 0o100644 }
}

fn entry(id: usize, name: &str, m: Option<Meta>) -> Entry {
    Entry { id, name: Some(name.to_string()), name_bytes: name.as_bytes().to_vec(), meta: m, link_meta: m }
}

fn file(id: usize, name: &str, size: u64) -> Entry {
    entry(id, name, Some(meta(EntryKind::File, size, 0)))
}

fn dir(id: usize, name: &str) -> Entry {
    entry(id, name, Some(meta(EntryKind::Dir, 4096, 0)))
}

fn name_of(e: &Entry) -> String {
    e.name.clone().unwrap_or_else(|| "?".to_string())
}

fn names(entries: &[Entry]) -> Vec<String> {
    entries.iter().map(name_of).collect()
}

fn args() -> Args {
    Args {
        path: PathBuf::from("."),
        min: None,
        max: None,
        reg: None,
        no_hidden: false,
        long: false,
        files: false,
        directories: false,
        depth: None,
        sort: SortArgument::Name,
    }
}

fn sample_dir() -> Vec<Entry> {
    vec![
        file(0, "small.bin", 50),
        file(1, "medium.txt", 150),
        dir(2, "subdir1"),
        file(3, ".hidden", 200),
        entry(4, "broken", None),
    ]
}

#[test]
fn test_from_str_valid() {
    assert_eq!(SortArgument::from_str("date"), Ok(SortArgument::Date));
    assert_eq!(SortArgument::from_str("size"), Ok(SortArgument::Size));
    assert_eq!(SortArgument::from_str("name"), Ok(SortArgument::Name));
}

#[test]
fn test_from_str_invalid() {
    assert!(SortArgument::from_str("unknown").is_err());
}

#[test]
fn from_str_ignores_case_and_names_the_input() {
    assert_eq!(SortArgument::from_str("SiZe"), Ok(SortArgument::Size));
    assert_eq!(
        SortArgument::from_str("Bogus"),
        Err("'Bogus' is not a valid value for SortArgument".to_string())
    );
    assert_eq!(SortArgument::Date.name(), "Date");
}

#[test]
fn test_sort_entries_by_name() {
    let entries = vec![file(0, "b.txt", 100), file(1, "a.txt", 200), file(2, "c.txt", 300)];
    let sorted = SortArgument::Name.sort_entries(entries);
    assert_eq!(name_of(&sorted[0]), "a.txt");
    assert_eq!(name_of(&sorted[1]), "b.txt");
    assert_eq!(name_of(&sorted[2]), "c.txt");
}

#[test]
fn test_sort_entries_by_size() {
    let entries = vec![file(0, "file1.txt", 300), file(1, "file2.txt", 100), file(2, "file3.txt", 200)];
    let sorted = SortArgument::Size.sort_entries(entries);
    assert_eq!(name_of(&sorted[0]), "file2.txt");
    assert_eq!(name_of(&sorted[1]), "file3.txt");
    assert_eq!(name_of(&sorted[2]), "file1.txt");
}

#[test]
fn sort_by_date_orders_by_seconds_then_nanoseconds() {
    let mut a = file(0, "a", 1);
    let mut b = file(1, "b", 1);
    let mut c = file(2, "c", 1);
    a.meta.as_mut().unwrap().modified_secs = 20;
    b.meta.as_mut().unwrap().modified_secs = 10;
    b.meta.as_mut().unwrap().modified_nanos = 5;
    c.meta.as_mut().unwrap().modified_secs = 10;
    let sorted = SortArgument::Date.sort_entries(vec![a, b, c]);
    assert_eq!(names(&sorted), vec!["c", "b", "a"]);
}

#[test]
fn sort_is_stable_and_drops_unreadable() {
    let entries = vec![
        file(0, "x", 10),
        entry(1, "gone", None),
        file(2, "y", 5),
        file(3, "z", 10),
        file(4, "w", 5),
    ];
    let once = SortArgument::Size.sort_entries(entries);
    assert_eq!(names(&once), vec!["y", "w", "x", "z"]);
    let twice = SortArgument::Size.sort_entries(once.clone());
    assert_eq!(names(&twice), names(&once));
    let ids: Vec<usize> = twice.iter().map(|e| e.id).collect();
    assert_eq!(ids, vec![2, 4, 0, 3]);
}

#[test]
fn sort_by_name_is_case_sensitive() {
    let sorted = SortArgument::Name.sort_entries(vec![file(0, "b", 1), file(1, "B", 1), file(2, "a", 1), file(3, "ab", 1)]);
    assert_eq!(names(&sorted), vec!["B", "a", "ab", "b"]);
}

#[test]
fn test_filter_type_min_size() {
    let entries = filter_entries(sample_dir(), &vec![FilterType::MinSize(101)]);
    assert_eq!(entries.len(), 3);
    let sized = vec![file(0, "a", 50), file(1, "b", 150), file(2, "c", 200)];
    assert_eq!(filter_entries(sized, &vec![FilterType::MinSize(101)]).len(), 2);
}

#[test]
fn test_filter_type_max_size() {
    let entries = vec![file(0, "empty", 0), file(1, "big.txt", 20)];
    let kept = filter_entries(entries, &vec![FilterType::MaxSize(1)]);
    assert_eq!(kept.len(), 1);
    assert_eq!(name_of(&kept[0]), "empty");
}

#[test]
fn test_filter_type_is_file() {
    let kept = filter_entries(sample_dir(), &vec![FilterType::IsFile]);
    assert!(kept.iter().all(|e| e.meta.unwrap().kind == EntryKind::File));
    assert_eq!(kept.len(), 3);
}

#[test]
fn test_filter_type_is_dir() {
    let kept = filter_entries(sample_dir(), &vec![FilterType::IsDir]);
    assert!(kept.iter().all(|e| e.meta.unwrap().kind == EntryKind::Dir));
    assert_eq!(names(&kept), vec!["subdir1"]);
}

#[test]
fn test_filter_type_no_hidden() {
    let kept = filter_entries(sample_dir(), &vec![FilterType::NoHidden]);
    assert!(kept.iter().all(|e| !name_of(e).starts_with('.')));
    assert_eq!(names(&kept), vec!["small.bin", "medium.txt", "subdir1", "broken"]);
}

#[test]
fn test_filter_type_matches_regex() {
    let entries = vec![file(0, "a.txt", 1), file(1, "b.txt", 2), file(2, "c.rs", 3), file(3, "txt", 4), dir(4, "d.txt.d")];
    let pattern = NamePattern::new(r"\.txt$").unwrap();
    let kept = filter_entries(entries, &vec![FilterType::MatchesRegex(pattern)]);
    assert_eq!(kept.len(), 2);
    assert_eq!(names(&kept), vec!["a.txt", "b.txt"]);
}

#[test]
fn invalid_pattern_is_rejected() {
    assert!(NamePattern::new("(unclosed").is_none());
    assert_eq!(NamePattern::new("ab+").unwrap().as_str(), "ab+");
}

#[test]
fn test_regex_argument() {
    let pattern = NamePattern::new(r"test").unwrap();
    assert!(pattern.is_match("this is a test"));
    assert!(!pattern.is_match("nothing here"));
}

#[test]
fn filter_chain_is_a_conjunction() {
    let chain = vec![FilterType::IsFile, FilterType::MinSize(100), FilterType::NoHidden];
    let kept = process_dir(sample_dir(), &chain, SortArgument::Name);
    assert_eq!(names(&kept), vec!["medium.txt"]);
    let reversed = vec![FilterType::NoHidden, FilterType::MinSize(100), FilterType::IsFile];
    assert_eq!(names(&process_dir(sample_dir(), &reversed, SortArgument::Name)), vec!["medium.txt"]);
}

#[test]
fn process_dir_drops_unreadable_and_sorts() {
    let kept = process_dir(sample_dir(), &vec![], SortArgument::Size);
    assert_eq!(names(&kept), vec!["small.bin", "medium.txt", ".hidden", "subdir1"]);
}

#[test]
fn test_config_initialization() {
    let mut a = args();
    a.sort = SortArgument::Size;
    let config = Config::new_from_args(a).unwrap();
    assert_eq!(config.sort_by, SortArgument::Size);
    assert_eq!(config.display, DisplayMode::Short);
}

#[test]
fn test_display_mode_with_depth() {
    let mut a = args();
    a.depth = Some(2);
    let config = Config::new_from_args(a).unwrap();
    assert_eq!(config.display, DisplayMode::Tree(2));
}

#[test]
fn test_no_hidden_with_depth() {
    let mut a = args();
    a.no_hidden = true;
    a.depth = Some(5);
    let config = Config::new_from_args(a).unwrap();
    assert_eq!(config.display, DisplayMode::Tree(5));
    assert!(matches!(config.filters[0], FilterType::NoHidden));
}

#[test]
fn test_conflicting_args() {
    let mut a = args();
    a.files = true;
    a.directories = true;
    assert_eq!(Config::new_from_args(a).unwrap_err(), ConfigError::FilesAndDirectories);
}

#[test]
fn test_conflict_files_and_directories() {
    let mut a = args();
    a.files = true;
    a.directories = true;
    assert!(Config::new_from_args(a).is_err(), "Parsing should fail when conflicting arguments are provided");
}

#[test]
fn long_and_depth_conflict() {
    let mut a = args();
    a.long = true;
    a.depth = Some(1);
    assert_eq!(Config::new_from_args(a).unwrap_err(), ConfigError::LongAndDepth);
    let mut b = args();
    b.long = true;
    assert_eq!(Config::new_from_args(b).unwrap().display, DisplayMode::Long);
}

#[test]
fn config_builds_the_filter_chain_in_order() {
    let mut a = args();
    a.no_hidden = true;
    a.min = Some(100);
    a.max = Some(200);
    a.files = true;
    a.reg = NamePattern::new("x");
    let config = Config::new_from_args(a).unwrap();
    assert_eq!(config.filters.len(), 5);
    assert!(matches!(config.filters[0], FilterType::NoHidden));
    assert!(matches!(config.filters[1], FilterType::MaxSize(200)));
    assert!(matches!(config.filters[2], FilterType::MinSize(100)));
    assert!(matches!(config.filters[3], FilterType::IsFile));
    assert!(matches!(config.filters[4], FilterType::MatchesRegex(_)));
}

#[test]
fn non_recursive_file_root_bypasses_filters() {
    let mut a = args();
    a.directories = true;
    a.no_hidden = true;
    let config = Config::new_from_args(a).unwrap();
    let shown = non_recursive(&config, file(9, ".secret", 3), sample_dir());
    assert_eq!(names(&shown), vec![".secret"]);
    let listed = non_recursive(&config, dir(9, "root"), sample_dir());
    assert_eq!(names(&listed), vec!["subdir1"]);
}

#[test]
fn short_and_tree_lines() {
    let m = meta(EntryKind::File, 12, 0);
    assert_eq!(display_short("a.txt", &m), "📄 a.txt  ");
    assert_eq!(display_tree("a.txt", &m, 0), "├──📄 a.txt");
    let d = meta(EntryKind::Dir, 12, 0);
    assert_eq!(display_tree("sub", &d, 2), "├──────📁 sub");
    assert_eq!(display_short("l", &meta(EntryKind::Symlink, 0, 0)), "🔗 l  ");
    assert_eq!(display_short("o", &meta(EntryKind::Other, 0, 0)), "❓ o  ");
}

#[test]
fn long_line_fields() {
    let m = meta(EntryKind::File, 100, 0);
    assert_eq!(
        long_line("a.txt", &m, "2024-01-01 00:00:00"),
        "📄 |  644 |        100  | 2024-01-01 00:00:00 | a.txt               "
    );
    let mut wide = meta(EntryKind::Dir, 12345678901, 0);
    wide.mode = 0o40755;
    assert_eq!(
        long_line("a_very_long_directory_name", &wide, "T"),
        "📁 |  755 | 12345678901  | T | a_very_long_directory_name"
    );
    let line = display_long("a.txt", &m).unwrap();
    assert!(line.starts_with("📄 |  644 |        100  | "));
    assert!(line.ends_with(" | a.txt               "));
    assert_eq!(line.chars().count(), long_line("a.txt", &m, "2024-01-01 00:00:00").chars().count());
}

fn drain(walker: &mut TreeWalker, below: &dyn Fn(&Entry) -> Vec<Entry>) -> Vec<(String, usize)> {
    let mut shown = Vec::new();
    loop {
        match walker.step() {
            TreeStep::Done => return shown,
            TreeStep::Show { entry, depth, expand } => {
                shown.push((name_of(&entry), depth));
                if expand {
                    walker.enter(below(&entry));
                }
            }
        }
    }
}

fn nested(e: &Entry) -> Vec<Entry> {
    vec![dir(e.id + 1, &format!("{}_sub", name_of(e))), file(e.id + 100, &format!("{}_f", name_of(e)), 1)]
}

#[test]
fn tree_depth_zero_shows_only_the_root_level() {
    let mut walker = TreeWalker::new(0, vec![dir(0, "a"), file(1, "b", 1)]);
    assert_eq!(drain(&mut walker, &nested), vec![("a".to_string(), 0), ("b".to_string(), 0)]);
}

#[test]
fn tree_depth_two_stops_below_the_limit() {
    let mut walker = TreeWalker::new(2, vec![dir(0, "a")]);
    let shown = drain(&mut walker, &nested);
    let expected: Vec<(String, usize)> = vec![
        ("a".to_string(), 0),
        ("a_sub".to_string(), 1),
        ("a_sub_sub".to_string(), 2),
        ("a_sub_f".to_string(), 2),
        ("a_f".to_string(), 1),
    ];
    assert_eq!(shown, expected);
}

#[test]
fn tree_file_root_is_shown_alone() {
    let mut walker = TreeWalker::new(3, vec![file(0, "only.txt", 1)]);
    assert_eq!(drain(&mut walker, &nested), vec![("only.txt".to_string(), 0)]);
}

#[test]
fn names_that_are_not_text() {
    let raw = Entry { id: 7, name: None, name_bytes: vec![0xff, b'x'], meta: Some(meta(EntryKind::File, 1, 0)), link_meta: Some(meta(EntryKind::File, 1, 0)) };
    let mut dot = file(8, ".a", 1);
    dot.id = 8;
    let raw_hidden = Entry { id: 9, name: None, name_bytes: vec![b'.', 0xff], meta: None, link_meta: None };
    let kept = filter_entries(vec![raw.clone(), dot, raw_hidden], &vec![FilterType::NoHidden]);
    assert_eq!(kept.len(), 1);
    assert_eq!(kept[0].id, 7);
    let pattern = NamePattern::new(".*").unwrap();
    assert!(filter_entries(vec![raw.clone()], &vec![FilterType::MatchesRegex(pattern)]).is_empty());
    let sorted = SortArgument::Name.sort_entries(vec![raw, file(1, "z", 1), file(2, "é", 1)]);
    let ids: Vec<usize> = sorted.iter().map(|e| e.id).collect();
    assert_eq!(ids, vec![1, 2, 7]);
}

#[test]
fn type_filters_read_the_link_itself() {
    let mut link = dir(3, "link_to_dir");
    link.link_meta = Some(meta(EntryKind::Symlink, 10, 0));
    assert!(filter_entries(vec![link.clone()], &vec![FilterType::IsDir]).is_empty());
    assert_eq!(filter_entries(vec![link.clone()], &vec![FilterType::MaxSize(10)]).len(), 1);
    assert_eq!(SortArgument::Size.sort_entries(vec![link])[0].meta.unwrap().size, 4096);
}

#[test]
fn long_display_succeeds_within_the_calendar() {
    let mut m = meta(EntryKind::File, 5, 1_700_000_000);
    m.modified_nanos = 999_999_999;
    let line = display_long("f", &m).unwrap();
    let time: Vec<char> = line.split(" | ").nth(3).unwrap().chars().collect();
    assert_eq!(time.len(), 19);
    for (i, c) in time.iter().enumerate() {
        match i {
            4 | 7 => assert_eq!(*c, '-'),
            10 => assert_eq!(*c, ' '),
            13 | 16 => assert_eq!(*c, ':'),
            _ => assert!(c.is_ascii_digit()),
        }
    }
    m.modified_secs = -8_000_000_000_000;
    assert!(display_long("f", &m).is_some());
    m.modified_secs = i64::MAX;
    assert!(display_long("f", &m).is_none());
}

#[test]
fn tree_from_root_filters_a_directory_but_not_a_file() {
    let mut a = args();
    a.files = true;
    let config = Config::new_from_args(a).unwrap();
    let mut walker = TreeWalker::from_root(1, &config, dir(0, "root"), sample_dir());
    assert_eq!(
        drain(&mut walker, &nested),
        vec![(".hidden".to_string(), 0), ("medium.txt".to_string(), 0), ("small.bin".to_string(), 0)]
    );
    let mut single = TreeWalker::from_root(1, &config, dir(0, "root"), vec![]);
    assert!(drain(&mut single, &nested).is_empty());
    let mut lone = TreeWalker::from_root(1, &config, entry(0, "x", Some(meta(EntryKind::Other, 0, 0))), sample_dir());
    assert_eq!(drain(&mut lone, &nested), vec![("x".to_string(), 0)]);
}

#[test]
fn large_sort_matches_a_stable_reference() {
    let entries: Vec<Entry> = (0..500).map(|i| file(i, &format!("n{}", (i * 37) % 101), ((i * 7919) % 13) as u64)).collect();
    let mut expected: Vec<(u64, usize)> = entries.iter().map(|e| (e.meta.unwrap().size, e.id)).collect();
    expected.sort_by_key(|p| p.0);
    let sorted = SortArgument::Size.sort_entries(entries.clone());
    let got: Vec<(u64, usize)> = sorted.iter().map(|e| (e.meta.unwrap().size, e.id)).collect();
    assert_eq!(got, expected);
    let mut by_name: Vec<(String, usize)> = entries.iter().map(|e| (name_of(e), e.id)).collect();
    by_name.sort_by(|a, b| a.0.as_bytes().cmp(b.0.as_bytes()));
    let named: Vec<(String, usize)> = SortArgument::Name.sort_entries(entries).iter().map(|e| (name_of(e), e.id)).collect();
    assert_eq!(named, by_name);
}
