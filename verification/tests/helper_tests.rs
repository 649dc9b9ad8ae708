//! The helpers around a listing of torrents.

use torrentinfo::{
    decode, digit_count, format_creation_date, get_relative_path_or_filename,
    get_shell_completion_dir, order_by_size, path_to_string, strip_replacement, total_of,
    DecodeError, DecodeErrorKind, Field, File, FingerprintError, Place, SchemaError, Shell, Step,
    Torrent, TorrentError,
};

#[test]
fn counts_digits() {
    assert_eq!(digit_count(0), 1);
    assert_eq!(digit_count(9), 1);
    assert_eq!(digit_count(10), 2);
    assert_eq!(digit_count(99), 2);
    assert_eq!(digit_count(100), 3);
    assert_eq!(digit_count(999), 3);
    assert_eq!(digit_count(1000), 4);
    assert_eq!(digit_count(123_456_789), 9);
    assert_eq!(digit_count(usize::MAX), usize::MAX.to_string().len());
}

#[test]
fn counts_the_digits_of_large_numbers_exactly() {
    assert_eq!(digit_count(999_999_999_999_999_999), 18);
    assert_eq!(digit_count(1_000_000_000_000_000_000), 19);
}

#[test]
fn formats_a_creation_date() {
    assert_eq!(format_creation_date(0), "1970-01-01 00:00:00 UTC");
    assert_eq!(format_creation_date(1_431_648_000), "2015-05-15 00:00:00 UTC");
    assert_eq!(format_creation_date(1_704_067_201), "2024-01-01 00:00:01 UTC");
    assert_eq!(format_creation_date(-1), "1969-12-31 23:59:59 UTC");
}

#[test]
fn formats_no_date_out_of_range() {
    assert_eq!(format_creation_date(i64::MAX), "");
    assert_eq!(format_creation_date(i64::MIN), "");
}

#[test]
fn strips_replacement_characters() {
    assert_eq!(strip_replacement("plain"), "plain");
    assert_eq!(strip_replacement("a\u{fffd}b\u{fffd}"), "ab");
    assert_eq!(strip_replacement("\u{fffd}"), "");
    assert_eq!(strip_replacement(""), "");
    assert_eq!(strip_replacement("\u{e9}t\u{e9}"), "\u{e9}t\u{e9}");
}

#[test]
fn converts_a_path_to_a_string() {
    assert_eq!(path_to_string(Some("dir/file".to_string()), "dir/file".to_string()), "dir/file");
    assert_eq!(path_to_string(None, "dir/fi\u{fffd}le".to_string()), "dir/file");
    // A path that is text is kept as it is.
    assert_eq!(path_to_string(Some("a\u{fffd}".to_string()), "a\u{fffd}".to_string()), "a\u{fffd}");
}

#[test]
fn shows_a_path_relative_to_its_root() {
    let name = get_relative_path_or_filename(
        false,
        Some("subdir/file.txt".to_string()),
        Some("file.txt".to_string()),
        "/root/dir/subdir/file.txt".to_string(),
    );
    assert_eq!(name, "subdir/file.txt");
}

#[test]
fn shows_the_file_name_of_a_path_outside_the_root() {
    let name = get_relative_path_or_filename(
        false,
        None,
        Some("an\u{fffd}other.txt".to_string()),
        "/else/another.txt".to_string(),
    );
    assert_eq!(name, "another.txt");
}

#[test]
fn shows_the_whole_path_where_it_has_no_file_name() {
    let name = get_relative_path_or_filename(false, None, None, "/".to_string());
    assert_eq!(name, "/");
}

#[test]
fn shows_the_name_of_the_root_itself() {
    let name = get_relative_path_or_filename(
        true,
        Some(String::new()),
        Some("dir".to_string()),
        "/root/dir".to_string(),
    );
    assert_eq!(name, "dir");
    assert_eq!(get_relative_path_or_filename(true, Some(String::new()), None, "/".to_string()), "");
}

#[test]
fn joins_the_segments_of_a_path() {
    let file = File::new(1, vec!["path".to_string(), "to".to_string(), "file.txt".to_string()]);
    assert_eq!(file.display_path(), "path/to/file.txt");
    assert_eq!(File::new(1, vec!["file.txt".to_string()]).display_path(), "file.txt");
    assert_eq!(File::new(1, Vec::new()).display_path(), "");
    assert_eq!(File::new(1, vec![String::new(), "x".to_string()]).display_path(), "/x");
}

#[test]
fn lists_the_files_of_a_multi_file_torrent() {
    let mut torrent = Torrent::default();
    torrent.info.name = Some("top".to_string());
    torrent.info.files = Some(vec![
        File::new(1000, vec!["dir".to_string(), "a.txt".to_string()]),
        File::new(2000, vec!["b.txt".to_string()]),
    ]);
    let lines = torrent.file_listing();
    assert_eq!(lines.len(), 2);
    assert_eq!((lines[0].size, lines[0].path.as_str()), (1000, "dir/a.txt"));
    assert_eq!((lines[1].size, lines[1].path.as_str()), (2000, "b.txt"));
}

#[test]
fn lists_a_single_file_torrent_under_its_name() {
    let mut torrent = Torrent::default();
    torrent.info.name = Some("image.iso".to_string());
    torrent.info.length = Some(6000);
    let lines = torrent.file_listing();
    assert_eq!(lines.len(), 1);
    assert_eq!((lines[0].size, lines[0].path.as_str()), (6000, "image.iso"));
    let lines = Torrent::default().file_listing();
    assert_eq!(lines.len(), 1);
    assert_eq!((lines[0].size, lines[0].path.as_str()), (0, ""));
}

#[test]
fn orders_by_size_and_keeps_equal_sizes_in_place() {
    assert_eq!(order_by_size(&[30, 10, 20]), vec![1, 2, 0]);
    assert_eq!(order_by_size(&[5, 1, 5, 1, 5]), vec![1, 3, 0, 2, 4]);
    assert_eq!(order_by_size(&[-1, i64::MIN, i64::MAX, 0]), vec![1, 0, 3, 2]);
    assert_eq!(order_by_size(&[]), Vec::<usize>::new());
    assert_eq!(order_by_size(&[7]), vec![0]);
}

#[test]
fn sums_sizes_without_overflow() {
    assert_eq!(total_of(&[1000, 2000, 3000]), 6000);
    assert_eq!(total_of(&[]), 0);
    assert_eq!(total_of(&[i64::MAX, i64::MAX]), 2 * (i64::MAX as i128));
    assert_eq!(total_of(&[i64::MIN, -1]), (i64::MIN as i128) - 1);
}

fn settle(shell: Shell, exists: &dyn Fn(Place) -> bool) -> (Step, Vec<Place>) {
    let mut answers = Vec::new();
    let mut probed = Vec::new();
    loop {
        match get_shell_completion_dir(shell, &answers) {
            Step::Probe(place) => {
                probed.push(place);
                answers.push(exists(place));
            }
            step => return (step, probed),
        }
    }
}

#[test]
fn zsh_prefers_a_plugin_of_its_own() {
    let (step, probed) = settle(Shell::Zsh, &|place| place == Place::Plugins);
    assert_eq!(step, Step::Create(Place::Plugin));
    assert_eq!(probed, vec![Place::Plugins]);
}

#[test]
fn the_user_directory_is_used_where_it_exists() {
    let (step, probed) = settle(Shell::Bash, &|place| place == Place::User(Shell::Bash));
    assert_eq!(step, Step::Use(Place::User(Shell::Bash)));
    assert_eq!(probed, vec![Place::User(Shell::Bash)]);
    let (step, probed) = settle(Shell::Zsh, &|place| place == Place::User(Shell::Zsh));
    assert_eq!(step, Step::Use(Place::User(Shell::Zsh)));
    assert_eq!(probed, vec![Place::Plugins, Place::User(Shell::Zsh)]);
}

#[test]
fn the_global_directory_is_used_where_only_it_exists() {
    let (step, probed) = settle(Shell::Fish, &|place| place == Place::Global(Shell::Fish));
    assert_eq!(step, Step::Use(Place::Global(Shell::Fish)));
    assert_eq!(probed, vec![Place::User(Shell::Fish), Place::Global(Shell::Fish)]);
}

#[test]
fn the_user_directory_is_created_where_nothing_exists() {
    let (step, _) = settle(Shell::Bash, &|_| false);
    assert_eq!(step, Step::Create(Place::User(Shell::Bash)));
    let (step, probed) = settle(Shell::Zsh, &|_| false);
    assert_eq!(step, Step::Create(Place::User(Shell::Zsh)));
    assert_eq!(probed, vec![Place::Plugins, Place::User(Shell::Zsh), Place::Global(Shell::Zsh)]);
    let (step, _) = settle(Shell::PowerShell, &|_| false);
    assert_eq!(step, Step::Create(Place::User(Shell::PowerShell)));
}

#[test]
fn elvish_has_no_global_directory() {
    let (step, probed) = settle(Shell::Elvish, &|_| false);
    assert_eq!(step, Step::Unsupported);
    assert_eq!(probed, vec![Place::User(Shell::Elvish)]);
    let (step, _) = settle(Shell::Elvish, &|_| true);
    assert_eq!(step, Step::Use(Place::User(Shell::Elvish)));
}

#[test]
fn other_shells_are_unsupported() {
    let (step, probed) = settle(Shell::Other, &|_| true);
    assert_eq!(step, Step::Unsupported);
    assert!(probed.is_empty());
}

#[test]
fn places_have_paths() {
    assert_eq!(Place::Plugins.path(false), ".oh-my-zsh/custom/plugins");
    assert!(Place::Plugins.in_home());
    assert!(Place::Plugin.takes_command_name());
    assert!(!Place::Plugins.takes_command_name());
    assert_eq!(Place::User(Shell::Bash).path(false), ".bash_completion.d");
    assert_eq!(Place::User(Shell::Elvish).path(false), ".elvish");
    assert_eq!(Place::User(Shell::Fish).path(false), ".config/fish/completions");
    assert_eq!(Place::User(Shell::Zsh).path(false), ".zsh/completions");
    assert_eq!(Place::User(Shell::PowerShell).path(false), ".config/powershell/completions");
    assert_eq!(Place::User(Shell::PowerShell).path(true), "Documents\\PowerShell\\completions");
    assert_eq!(Place::Global(Shell::PowerShell).path(true), "Documents\\PowerShell\\completions");
    assert!(Place::Global(Shell::PowerShell).in_home());
    assert_eq!(Place::Global(Shell::Bash).path(false), "/etc/bash_completion.d");
    assert!(!Place::Global(Shell::Bash).in_home());
    assert_eq!(Place::Global(Shell::Fish).path(false), "/usr/share/fish/completions");
    assert_eq!(Place::Global(Shell::Zsh).path(false), "/usr/share/zsh/site-functions");
}

#[test]
fn describes_decode_errors() {
    let error = DecodeError { kind: DecodeErrorKind::UnexpectedEnd, offset: 12 };
    assert_eq!(error.message(), "expected more input: a value is cut short at offset 12");
    let error = DecodeError { kind: DecodeErrorKind::TrailingBytes, offset: 0 };
    assert_eq!(error.message(), "expected the end of the input after the document at offset 0");
    let error = decode(b"i01e").unwrap_err();
    assert_eq!(error.message(), "expected a minimal decimal integer closed by `e` at offset 1");
    let error = decode(b"4x").unwrap_err();
    assert_eq!(error.message(), "expected `:` after the length of a byte string at offset 1");
    let error = decode(b"?").unwrap_err();
    assert_eq!(error.message(), "expected a value: `i`, `l`, `d` or a digit at offset 0");
}

#[test]
fn describes_schema_errors() {
    assert_eq!(
        SchemaError::NotADictionary.message(),
        "expected a dictionary at the top of the descriptor"
    );
    assert_eq!(SchemaError::MissingField(Field::PieceLength).message(), "missing key `piece length`");
    assert_eq!(
        SchemaError::InvalidField(Field::AnnounceList).message(),
        "key `announce-list` holds a value of another kind than a descriptor gives it"
    );
    assert_eq!(SchemaError::MissingLayout.message(), "`info` holds neither `length` nor `files`");
    assert_eq!(SchemaError::ConflictingLayout.message(), "`info` holds both `length` and `files`");
}

#[test]
fn describes_the_other_errors() {
    assert_eq!(
        FingerprintError::TooLong.message(),
        "the encoded `info` dictionary is too long to hash"
    );
    let error = Torrent::from_buf(b"le").unwrap_err();
    assert_eq!(
        error.message(),
        "not a torrent descriptor: expected a dictionary at the top of the descriptor"
    );
    let error = Torrent::from_buf(b"").unwrap_err();
    assert_eq!(
        error.message(),
        "not a bencoded document: expected more input: a value is cut short at offset 0"
    );
    assert_eq!(
        error,
        TorrentError::Decode(DecodeError { kind: DecodeErrorKind::UnexpectedEnd, offset: 0 })
    );
}

fn shown_lines(lines: &[torrentinfo::InfoLine]) -> Vec<(String, String)> {
    lines.iter().map(|line| (line.label.to_string(), format!("{:?}", line.value))).collect()
}

fn pair(label: &str, value: &str) -> (String, String) {
    (label.to_string(), value.to_string())
}

#[test]
fn summarizes_a_descriptor() {
    let torrent = Torrent::from_buf(
        b"d8:announce3:url7:comment2:hi10:created by4:tool13:creation datei0e8:encoding5:UTF-84:infod6:lengthi6000e4:name8:file.bin12:piece lengthi16384e6:pieces0:ee",
    )
    .unwrap();
    assert_eq!(
        shown_lines(&torrent.info_lines()),
        vec![
            pair("name", "Text(\"file.bin\")"),
            pair("comment", "Text(\"hi\")"),
            pair("announce url", "Text(\"url\")"),
            pair("created by", "Text(\"tool\")"),
            pair("created on", "Text(\"1970-01-01 00:00:00 UTC\")"),
            pair("encoding", "Text(\"UTF-8\")"),
            pair("num files", "Count(1)"),
            pair("total size", "Size(6000)"),
            pair("info hash", "Text(\"e08f35736343d215f45fd3b5b7af6ddaa923c954\")"),
        ]
    );
}

#[test]
fn summarizes_a_descriptor_built_by_hand() {
    assert_eq!(
        shown_lines(&Torrent::default().info_lines()),
        vec![
            pair("num files", "Count(0)"),
            pair("total size", "Size(0)"),
            pair("info hash", "Text(\"d6f02c1849b7cf99404e557fa70f3b4a7f1d6805\")"),
        ]
    );
    assert_eq!(Torrent::default().info_hash_text(), "d6f02c1849b7cf99404e557fa70f3b4a7f1d6805");
}

#[test]
fn shows_the_details_of_a_descriptor() {
    let torrent = Torrent::from_buf(
        b"d4:infod6:lengthi1e4:pathl1:a1:be12:piece lengthi1e6:pieces20:aaaaaaaaaaaaaaaaaaaa7:privatei1eee",
    )
    .unwrap();
    assert_eq!(
        shown_lines(&torrent.extra_lines()),
        vec![
            pair("piece length", "Bytes(20)"),
            pair("path", "List([\"a\", \"b\"])"),
            pair("private", "Flag(true)"),
        ]
    );
    let torrent =
        Torrent::from_buf(b"d4:infod6:lengthi1e12:piece lengthi1e6:pieces0:7:privatei0eee").unwrap();
    assert_eq!(
        shown_lines(&torrent.extra_lines()),
        vec![pair("piece length", "Bytes(0)"), pair("private", "Flag(false)")]
    );
    assert_eq!(shown_lines(&Torrent::default().extra_lines()), vec![pair("piece length", "Bytes(0)")]);
}

#[test]
fn pads_labels_to_the_column() {
    assert_eq!(torrentinfo::padding("name"), 15);
    assert_eq!(torrentinfo::padding(""), 19);
    assert_eq!(torrentinfo::padding("announce url"), 7);
    assert_eq!(torrentinfo::padding("a label of nineteen"), 0);
    assert_eq!(torrentinfo::padding("a label that is longer than the column"), 0);
}
