use qrctrl::file_transfer::{
    alive_at, content_disposition, is_contained_name, percent_encode_filename, resolve_conflict, sanitize_filename, upload_step,
    DownloadMeta, TransferRegistry, UploadMeta, UploadStep, ENTRY_TTL_MS,
};

#[test]
fn sanitize_strips_path() {
    assert_eq!(sanitize_filename("/etc/passwd").as_deref(), Some("passwd"));
    assert_eq!(sanitize_filename("a/b/c.txt").as_deref(), Some("c.txt"));
    assert_eq!(sanitize_filename(r"D:\dir\movie.mkv").as_deref(), Some("movie.mkv"));
}

#[test]
fn sanitize_rejects_traversal() {
    assert_eq!(sanitize_filename("../etc/passwd"), None);
    assert_eq!(sanitize_filename(".."), None);
    assert_eq!(sanitize_filename("."), None);
}

#[test]
fn sanitize_rejects_empty() {
    assert_eq!(sanitize_filename(""), None);
}

#[test]
fn sanitize_keeps_plain_name() {
    assert_eq!(sanitize_filename("movie.mkv").as_deref(), Some("movie.mkv"));
    assert_eq!(sanitize_filename("文档.pdf").as_deref(), Some("文档.pdf"));
}

#[test]
fn sanitize_edge_cases() {
    assert_eq!(sanitize_filename("dir/"), Some("dir".to_string()));
    assert_eq!(sanitize_filename("a/./b.txt").as_deref(), Some("b.txt"));
    assert_eq!(sanitize_filename("a/../b.txt"), None);
    assert_eq!(sanitize_filename("/"), None);
    assert_eq!(sanitize_filename("x/.."), None);
}

#[test]
fn resolve_conflict_no_existing() {
    let got = resolve_conflict("free.txt", false);
    assert_eq!(got, "free.txt");
}

#[test]
fn resolve_conflict_adds_suffix() {
    let name = resolve_conflict("dup.txt", true);
    assert!(name.starts_with("dup_"));
    assert!(name.ends_with(".txt"));
    assert_ne!(name, "dup.txt");
}

#[test]
fn resolve_conflict_no_extension() {
    let name = resolve_conflict("README", true);
    assert!(name.starts_with("README_"));
    assert!(!name.contains('.'));
}

#[test]
fn resolve_conflict_suffix_is_eight_hex_digits() {
    let name = resolve_conflict("movie.mkv", true);
    assert_eq!(name.len(), "movie_".len() + 8 + ".mkv".len());
    let suffix = &name["movie_".len().."movie_".len() + 8];
    assert!(suffix.chars().all(|c| c.is_ascii_digit() || ('a'..='f').contains(&c)));
    // a leading dot is no extension
    let hidden = resolve_conflict(".bashrc", true);
    assert!(hidden.starts_with(".bashrc_"));
    assert_eq!(hidden.len(), ".bashrc_".len() + 8);
}

#[test]
fn percent_encode_keeps_ascii() {
    assert_eq!(percent_encode_filename("movie.mkv"), "movie.mkv");
}

#[test]
fn percent_encode_escapes_non_ascii() {
    let got = percent_encode_filename("文档.pdf");
    assert!(got.starts_with("%E6%96%87"));
    assert!(got.ends_with(".pdf"));
}

#[test]
fn percent_encode_escapes_spaces() {
    assert_eq!(percent_encode_filename("a b.txt"), "a%20b.txt");
}

#[test]
fn percent_encode_keeps_unreserved_marks() {
    assert_eq!(percent_encode_filename("A-z_0.~"), "A-z_0.~");
    assert_eq!(percent_encode_filename("a+b/c"), "a%2Bb%2Fc");
}

#[test]
fn content_disposition_uses_rfc5987() {
    assert_eq!(content_disposition("a b.txt"), "attachment; filename*=UTF-8''a%20b.txt");
}

#[test]
fn registered_upload_is_taken_once() {
    let mut reg = TransferRegistry::new();
    let id = reg.register_upload(UploadMeta { name: "a.txt".into(), size: 3, created_at: 10 });
    assert_eq!(id.len(), 36);
    let first = reg.take_upload(&id).expect("registered");
    assert_eq!(first.name, "a.txt");
    assert_eq!(first.size, 3);
    assert!(reg.take_upload(&id).is_none());
    assert!(reg.take_upload("unknown").is_none());
}

#[test]
fn registered_download_is_taken_once() {
    let mut reg = TransferRegistry::new();
    let meta = DownloadMeta {
        path: "/tmp/x".into(),
        name: "x".into(),
        size: 1,
        mime: "text/plain".into(),
        created_at: 0,
    };
    let id = reg.register_download(meta);
    assert!(reg.take_upload(&id).is_none());
    assert_eq!(reg.take_download(&id).map(|m| m.path), Some("/tmp/x".to_string()));
    assert!(reg.take_download(&id).is_none());
}

#[test]
fn ids_are_distinct_uuids() {
    let mut reg = TransferRegistry::new();
    let a = reg.register_upload(UploadMeta { name: "a".into(), size: 0, created_at: 0 });
    let b = reg.register_upload(UploadMeta { name: "b".into(), size: 0, created_at: 0 });
    assert_ne!(a, b);
    for id in [&a, &b] {
        let dashes: Vec<usize> = id.char_indices().filter(|(_, c)| *c == '-').map(|(i, _)| i).collect();
        assert_eq!(dashes, vec![8, 13, 18, 23]);
    }
}

#[test]
fn cleanup_drops_only_expired_entries() {
    let mut reg = TransferRegistry::new();
    let old = reg.register_upload(UploadMeta { name: "old".into(), size: 0, created_at: 0 });
    let fresh = reg.register_upload(UploadMeta { name: "fresh".into(), size: 0, created_at: 1_000 });
    reg.cleanup_expired(ENTRY_TTL_MS + 500);
    assert!(reg.take_upload(&old).is_none());
    assert!(reg.take_upload(&fresh).is_some());
}

#[test]
fn entries_live_five_minutes() {
    assert_eq!(ENTRY_TTL_MS, 300_000);
    assert!(alive_at(0, 299_999));
    assert!(!alive_at(0, 300_000));
    assert!(alive_at(100, 50));
}

#[test]
fn upload_stops_past_the_limit() {
    assert!(matches!(upload_step(0, 10, 10), UploadStep::Continue(10)));
    assert!(matches!(upload_step(5, 6, 10), UploadStep::TooLarge));
    assert!(matches!(upload_step(u64::MAX, 1, u64::MAX), UploadStep::TooLarge));
}

#[test]
fn sanitizing_a_kept_name_keeps_it() {
    for raw in ["/etc/passwd", r"C:\a\b.txt", "x/./y/", "文档.pdf", "a b"] {
        let once = sanitize_filename(raw).expect("kept");
        assert_eq!(sanitize_filename(&once), Some(once.clone()));
        assert!(!once.contains('/') && !once.contains('\\'));
    }
}

#[test]
fn encoded_names_hold_only_header_safe_characters() {
    for name in ["文档 (1).pdf", "a\"b;c\r\n.txt", "ü/ß\\é", ""] {
        let enc = percent_encode_filename(name);
        assert!(enc.chars().all(|c| c.is_ascii_alphanumeric() || "%-_.~".contains(c)));
    }
    assert_eq!(percent_encode_filename("\r\n"), "%0D%0A");
}

#[test]
fn names_that_stay_inside_a_directory() {
    for ok in ["a.txt", "d/x", "d\\x", "...", "..a", "a..", "", "./a"] {
        assert!(is_contained_name(ok), "{}", ok);
    }
    for bad in ["/etc/x", "\\srv\\x", "C:\\x", "c:x", "..", "../x", "a/..", "a\\..\\b"] {
        assert!(!is_contained_name(bad), "{}", bad);
    }
}

#[test]
fn parent_components_are_refused_anywhere() {
    assert_eq!(sanitize_filename("a/../b"), None);
    assert_eq!(sanitize_filename("a\\..\\b"), None);
    assert_eq!(sanitize_filename("x/.."), None);
    assert_eq!(sanitize_filename("..x/y").as_deref(), Some("y"));
}

#[test]
fn percent_encoding_length_and_decoding() {
    let name = "文档 a.pdf";
    let enc = percent_encode_filename(name);
    let escaped = name.bytes().filter(|b| !(b.is_ascii_alphanumeric() || b"-_.~".contains(b))).count();
    assert_eq!(enc.len(), name.len() + 2 * escaped);
    let mut bytes = Vec::new();
    let cs: Vec<char> = enc.chars().collect();
    let mut i = 0;
    while i < cs.len() {
        if cs[i] == '%' {
            bytes.push(u8::from_str_radix(&cs[i + 1..i + 3].iter().collect::<String>(), 16).unwrap());
            i += 3;
        } else {
            bytes.push(cs[i] as u8);
            i += 1;
        }
    }
    assert_eq!(bytes, name.as_bytes());
}
