use gitfugue::{
    log_args, parse_log, read_batch, read_count, read_listing, read_log, read_root, read_text,
    BlobEntry, ExtractError,
};

fn blob(oid: &str, path: &str) -> BlobEntry {
    BlobEntry { oid: oid.to_string(), path: path.to_string() }
}

#[test]
fn a_listing_gives_blobs_by_path() {
    let listing = b"100644 blob bbbb\tsrc/z.rs\x00160000 commit cccc\tvendor/lib\x00\
100755 blob aaaa\tsrc/a b.rs\x00no tab here\x00100644 blob dddd\tREADME\x00";
    let blobs = read_listing(listing).unwrap();
    let seen: Vec<(&str, &str)> = blobs.iter().map(|b| (b.oid.as_str(), b.path.as_str())).collect();
    assert_eq!(seen, [("dddd", "README"), ("aaaa", "src/a b.rs"), ("bbbb", "src/z.rs")]);
}

#[test]
fn an_empty_listing_gives_nothing() {
    assert!(read_listing(b"").unwrap().is_empty());
}

#[test]
fn a_listing_that_is_not_utf8_is_refused() {
    let e = read_listing(b"100644 bl\xffob aaaa\ta\x00").unwrap_err();
    assert_eq!(e, ExtractError::NotUtf8);
    // In a path the broken bytes are replaced.
    let blobs = read_listing(b"100644 blob aaaa\ta\xff\x00").unwrap();
    assert_eq!(blobs[0].path, "a\u{fffd}");
}

#[test]
fn a_batch_gives_the_contents() {
    let out = b"aaaa blob 5\nhello\nbbbb blob 0\n\ncccc blob 3\n\n\n\n\n";
    let entries = [blob("aaaa", "x"), blob("bbbb", "y"), blob("cccc", "z")];
    let files = read_batch(out, &entries).unwrap();
    let seen: Vec<(&str, &[u8])> = files.iter().map(|f| (f.path.as_str(), &f.content[..])).collect();
    assert_eq!(seen, [("x", &b"hello"[..]), ("y", &b""[..]), ("z", &b"\n\n\n"[..])]);
}

#[test]
fn a_batch_can_fail() {
    let entries = [blob("aaaa", "x")];
    assert_eq!(read_batch(b"", &entries).unwrap_err(), ExtractError::Truncated);
    assert_eq!(read_batch(b"aaaa blob 5\nhel", &entries).unwrap_err(), ExtractError::Truncated);
    assert_eq!(read_batch(b"aa\xffaa blob 5\nhello\n", &entries).unwrap_err(), ExtractError::NotUtf8);
    assert_eq!(
        read_batch(b"bbbb blob 5\nhello\n", &entries).unwrap_err(),
        ExtractError::OidMismatch { wanted: "aaaa".to_string(), got: "bbbb".to_string() }
    );
}

#[test]
fn an_abbreviated_id_is_accepted() {
    let files = read_batch(b"aaaa1234 blob 2\nhi\n", &[blob("aaaa", "x")]).unwrap();
    assert_eq!(files[0].content, b"hi");
}

#[test]
fn a_log_is_read_oldest_first() {
    let text = "\u{1}h2\u{1f}p1 p2\u{1f}Bob \u{1f} BOB@Example.com\u{1f}1700000000\n\n3\t4\ta.rs\n-\t-\tb.png\n\
\u{1}h1\u{1f}\u{1f}Alice\u{1f}alice@example.com\u{1f}-5\n10\t0\tc.rs\n";
    let log = parse_log(text);
    assert_eq!(log.len(), 2);
    assert_eq!(log[0].hash, "h1");
    assert_eq!(log[0].timestamp, -5);
    assert_eq!(log[0].diff_magnitude, 10);
    assert!(!log[0].is_merge);
    assert_eq!(log[1].hash, "h2");
    assert_eq!(log[1].author_name, "Bob");
    assert_eq!(log[1].author_email, "bob@example.com");
    assert_eq!(log[1].diff_magnitude, 3 + 4 + 8 + 8);
    assert!(log[1].is_merge);
}

#[test]
fn broken_records_of_a_log_are_left_out() {
    assert!(parse_log("").is_empty());
    assert!(parse_log("\u{1}only\u{1f}three\u{1f}fields\n").is_empty());
    let log = parse_log("noise\u{1}h\u{1f}\u{1f}n\u{1f}e\u{1f}when\nx\ty\tz\n");
    assert_eq!((log[0].timestamp, log[0].diff_magnitude), (0, 0));
}

#[test]
fn a_huge_diff_is_capped() {
    let log = parse_log("\u{1}h\u{1f}\u{1f}n\u{1f}e\u{1f}1\n4294967295\t1\tx\n");
    assert_eq!(log[0].diff_magnitude, u32::MAX);
}

#[test]
fn a_log_in_bytes_may_be_broken() {
    let log = read_log(b"\x01h\x1f\x1fn\xff\x1fe\x1f1\n1\t1\tx\n");
    assert_eq!(log[0].author_name, "n\u{fffd}");
    assert_eq!(log[0].diff_magnitude, 2);
}

#[test]
fn the_log_is_asked_for() {
    let format = "--format=%x01%H%x1f%P%x1f%an%x1f%ae%x1f%at";
    assert_eq!(
        log_args(None, Some(300)),
        ["log", "--first-parent", "--numstat", format, "-n", "300", "HEAD"]
    );
    assert_eq!(log_args(Some("A..B"), None), ["log", "--first-parent", "--numstat", format, "A..B"]);
}

#[test]
fn the_root_is_the_last_line() {
    assert_eq!(read_root("aaaa\nbbbb\n").as_deref(), Some("bbbb"));
    assert_eq!(read_root("aaaa\n  \n"), None);
    assert_eq!(read_root(""), None);
}

#[test]
fn the_count_is_a_number_or_zero() {
    assert_eq!(read_count("700\n"), 700);
    assert_eq!(read_count("many"), 0);
    assert_eq!(read_count("4294967296"), 0);
}

#[test]
fn a_line_is_trimmed() {
    assert_eq!(read_text(b" main\n").unwrap(), "main");
    assert_eq!(read_text(b"\xff\n").unwrap_err(), ExtractError::NotUtf8);
}

#[test]
fn faults_are_told() {
    assert_eq!(ExtractError::NotUtf8.message(), "git output is not UTF-8");
    assert_eq!(ExtractError::Truncated.message(), "truncated cat-file output");
    let e = ExtractError::OidMismatch { wanted: "a".to_string(), got: "b".to_string() };
    assert_eq!(e.message(), "cat-file oid mismatch: wanted a, got b");
}
