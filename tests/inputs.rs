use rwc::batch::{resolve_options, select_inputs, sort_by_path, stdin_label, totals, Entry, Inputs};
use rwc::cli::{Cli, Options};
use rwc::count::{count_readable, Count, Counts};
use rwc::error::Error;
use rwc::format::{parse_format, Format};
use rwc::paths::read_paths0_from;

fn default_opts() -> Options {
    Options {
        bytes: true,
        chars: false,
        words: true,
        lines: true,
        show_totals: false,
    }
}

fn counts(b: usize, c: usize, w: usize, l: usize) -> Counts {
    Counts {
        bytes: Count { val: Some(b) },
        chars: Count { val: Some(c) },
        words: Count { val: Some(w) },
        lines: Count { val: Some(l) },
    }
}

#[test]
fn test_run_default_arguments() {
    let cli = Cli {
        bytes: false,
        chars: false,
        words: false,
        lines: false,
        show_totals: false,
        format: Format::Table,
        files0_from: None,
        files: Vec::new(),
    };
    let opts = Options::from(&cli);
    assert!(opts.bytes);
    assert!(!opts.chars);
    assert!(opts.words);
    assert!(opts.lines);
    assert!(!opts.show_totals);
}

#[test]
fn explicit_metrics_are_kept() {
    let cli = Cli {
        bytes: false,
        chars: true,
        words: false,
        lines: false,
        show_totals: true,
        format: Format::CSV,
        files0_from: None,
        files: Vec::new(),
    };
    let opts = Options::from(&cli);
    assert!(!opts.bytes && opts.chars && !opts.words && !opts.lines && opts.show_totals);
}

#[test]
#[should_panic]
fn test_run_cannot_combine_files0_from_and_files() {
    select_inputs(Some(String::new()), vec![String::new()]).unwrap();
}

#[test]
fn combining_path_list_and_paths_is_a_configuration_error() {
    let r = select_inputs(Some(String::new()), vec![String::new()]);
    assert!(matches!(r, Err(Error::CUSTOM(_))));
}

#[test]
fn test_run_stdin() {
    let stdin = b"this is some text\nthis is another line";
    let inputs = select_inputs(None, Vec::new()).unwrap();
    let opts = resolve_options(default_opts(), &inputs);
    let chunks = vec![stdin.to_vec()];
    let c = count_readable(&chunks, opts.bytes, opts.chars, opts.words, opts.lines);
    let entries: Vec<Entry> = sort_by_path(vec![(c, stdin_label())]);
    assert_eq!(entries[0].1, "Stdin");
    let c = entries[0].0.as_ref().unwrap();
    assert_eq!((c.bytes.val, c.words.val, c.lines.val), (Some(38), Some(8), Some(1)));
    assert!(opts.show_totals);
    let t = totals(&entries, &opts);
    assert_eq!((t.bytes.val, t.chars.val, t.words.val, t.lines.val), (Some(38), None, Some(8), Some(1)));
}

#[test]
fn files0_from_dash_reads_standard_input() {
    assert!(matches!(select_inputs(Some("-".to_string()), Vec::new()), Ok(Inputs::ListFromStdin)));
    match select_inputs(Some("list.txt".to_string()), Vec::new()) {
        Ok(Inputs::ListFromFile(f)) => assert_eq!(f, "list.txt"),
        _ => panic!("expected a path-list file"),
    }
    match select_inputs(None, vec!["a".to_string(), "b".to_string()]) {
        Ok(Inputs::Paths(p)) => assert_eq!(p, vec!["a".to_string(), "b".to_string()]),
        _ => panic!("expected paths"),
    }
}

#[test]
fn stdin_mode_forces_totals() {
    let inputs = select_inputs(None, Vec::new()).unwrap();
    assert!(matches!(inputs, Inputs::Stdin));
    let opts = resolve_options(default_opts(), &inputs);
    assert!(opts.show_totals);
    assert_eq!(stdin_label(), "Stdin");
    let opts = resolve_options(default_opts(), &Inputs::Paths(vec!["a".to_string()]));
    assert!(!opts.show_totals);
}

#[test]
fn test_run_files0_from_stdin() {
    let paths = read_paths0_from(b"test_data/default.txt\0test_data/ten_mb.txt").unwrap();
    assert_eq!(paths, vec!["test_data/default.txt", "test_data/ten_mb.txt"]);
}

#[test]
fn path_list_splits_on_nul() {
    assert_eq!(read_paths0_from(b"a\0b").unwrap(), vec!["a", "b"]);
    assert_eq!(read_paths0_from(b"a\0").unwrap(), vec!["a"]);
    assert_eq!(read_paths0_from(b"").unwrap(), Vec::<String>::new());
    assert_eq!(read_paths0_from(b"\0").unwrap(), vec![""]);
    assert_eq!(read_paths0_from(b"a\0\0b").unwrap(), vec!["a", "", "b"]);
}

#[test]
fn path_list_reports_every_invalid_segment() {
    match read_paths0_from(b"ok\0\xff\0fine\0\xc3") {
        Err(Error::MANY(errs)) => {
            assert_eq!(errs.len(), 2);
            assert!(matches!(&errs[0], Error::PATH(b) if b == &vec![0xffu8]));
            assert!(matches!(&errs[1], Error::PATH(b) if b == &vec![0xc3u8]));
        }
        _ => panic!("expected the invalid segments"),
    }
}

#[test]
fn batch_keeps_failures_and_sorts_by_path() {
    let missing = std::io::Error::new(std::io::ErrorKind::NotFound, "missing");
    let entries: Vec<Entry> = vec![
        (Ok(counts(6, 7, 8, 9)), "z_exists".to_string()),
        (Err(Error::IO(missing)), "a_missing".to_string()),
    ];
    let sorted = sort_by_path(entries);
    assert_eq!(sorted.len(), 2);
    assert_eq!(sorted[0].1, "a_missing");
    assert!(sorted[0].0.is_err());
    assert_eq!(sorted[1].1, "z_exists");
    assert!(sorted[1].0.is_ok());
}

#[test]
fn sort_is_stable_and_ordered() {
    let entries: Vec<Entry> = vec![
        (Ok(counts(1, 0, 0, 0)), "b".to_string()),
        (Ok(counts(2, 0, 0, 0)), "a".to_string()),
        (Ok(counts(3, 0, 0, 0)), "b".to_string()),
        (Ok(counts(4, 0, 0, 0)), "ab".to_string()),
        (Ok(counts(5, 0, 0, 0)), "".to_string()),
    ];
    let sorted = sort_by_path(entries);
    let labels: Vec<&str> = sorted.iter().map(|e| e.1.as_str()).collect();
    assert_eq!(labels, vec!["", "a", "ab", "b", "b"]);
    let bytes: Vec<Option<usize>> = sorted
        .iter()
        .map(|e| e.0.as_ref().unwrap().bytes.val)
        .collect();
    assert_eq!(bytes, vec![Some(5), Some(2), Some(4), Some(1), Some(3)]);
}

#[test]
fn totals_skip_failed_entries() {
    let entries: Vec<Entry> = vec![
        (Ok(counts(6, 7, 8, 9)), "foobar".to_string()),
        (Err(Error::UTF8()), "broken".to_string()),
        (Ok(counts(2, 3, 4, 5)), "baz".to_string()),
    ];
    let t = totals(&entries, &default_opts());
    assert_eq!(t.bytes.val, Some(8));
    assert_eq!(t.chars.val, None);
    assert_eq!(t.words.val, Some(12));
    assert_eq!(t.lines.val, Some(14));
}

#[test]
fn totals_treat_absent_metrics_as_zero() {
    let partial = Counts {
        bytes: Count { val: Some(10) },
        chars: Count { val: None },
        words: Count { val: None },
        lines: Count { val: Some(3) },
    };
    let entries: Vec<Entry> = vec![
        (Ok(partial), "x".to_string()),
        (Ok(counts(1, 1, 1, 1)), "y".to_string()),
    ];
    let all = Options { bytes: true, chars: true, words: true, lines: true, show_totals: true };
    let t = totals(&entries, &all);
    assert_eq!(t.bytes.val, Some(11));
    assert_eq!(t.chars.val, Some(1));
    assert_eq!(t.words.val, Some(1));
    assert_eq!(t.lines.val, Some(4));
}

#[test]
fn format_names() {
    assert!(matches!(parse_format("table"), Ok(Format::Table)));
    assert!(matches!(parse_format("csv"), Ok(Format::CSV)));
    match parse_format("xml") {
        Err(Error::PARSEFORMAT(s)) => assert_eq!(s, "xml"),
        _ => panic!("expected a format error"),
    }
    assert!(parse_format("").is_err());
    assert!(parse_format("tables").is_err());
}
