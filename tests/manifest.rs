use lac::log::{parent_dir, write_manifest};
use lac::{File, Lac, Log, ManifestError};

fn rec(path: &str, hash: &str, result: Lac) -> File {
    File {
        path: path.to_string(),
        hash: hash.to_string(),
        result: Ok(result),
    }
}

fn triples(log: &Log) -> Vec<(String, String, Result<Lac, String>)> {
    let mut v: Vec<(String, String, Result<Lac, String>)> = log
        .vectorize()
        .into_iter()
        .map(|f| (f.path, f.hash, f.result))
        .collect();
    v.sort_by(|a, b| (a.0.clone(), a.1.clone()).cmp(&(b.0.clone(), b.1.clone())));
    v
}

fn dirs(log: &Log) -> Vec<String> {
    let mut d: Vec<String> = log.data.iter().map(|e| e.0.clone()).collect();
    d.sort();
    d
}

#[test]
fn parent_dir_of_paths() {
    assert_eq!(parent_dir("/music/a.wav"), "/music");
    assert_eq!(parent_dir("/music/sub/b.flac"), "/music/sub");
    assert_eq!(parent_dir("/a.wav"), "/");
    assert_eq!(parent_dir("a.wav"), "");
    assert_eq!(parent_dir(""), "");
}

#[test]
fn insert_groups_by_directory_and_appends() {
    let mut log = Log::new();
    log.insert(rec("/music/a.wav", "h1", Lac::Clean));
    log.insert(rec("/music/sub/c.wav", "h3", Lac::Upscaled));
    log.insert(rec("/music/b.flac", "h2", Lac::Transcoded));
    assert_eq!(log.data.len(), 2);
    assert_eq!(log.data[0].0, "/music");
    let names: Vec<&str> = log.data[0].1.iter().map(|f| f.path.as_str()).collect();
    assert_eq!(names, vec!["/music/a.wav", "/music/b.flac"]);
    assert_eq!(log.data[1].0, "/music/sub");
}

#[test]
fn append_concatenates_shared_directories() {
    let mut a = Log::new();
    a.insert(rec("/m/a.wav", "h1", Lac::Clean));
    let mut b = Log::new();
    b.insert(rec("/m/b.wav", "h2", Lac::Clean));
    b.insert(rec("/n/c.wav", "h3", Lac::Upsampled));
    a.append(b);
    assert_eq!(a.data.len(), 2);
    let m = a.data.iter().find(|e| e.0 == "/m").unwrap();
    let names: Vec<&str> = m.1.iter().map(|f| f.path.as_str()).collect();
    assert_eq!(names, vec!["/m/a.wav", "/m/b.wav"]);
}

#[test]
fn merge_of_disjoint_subtrees_in_either_order() {
    let make = |p: &str, h: &str| {
        let mut l = Log::new();
        l.insert(rec(p, h, Lac::Clean));
        l
    };
    let mut x = make("/m/a.wav", "h1");
    x.append(make("/m/s1/b.wav", "h2"));
    x.append(make("/m/s2/c.wav", "h3"));
    let mut y = make("/m/a.wav", "h1");
    y.append(make("/m/s2/c.wav", "h3"));
    y.append(make("/m/s1/b.wav", "h2"));
    let mut z = make("/m/a.wav", "h1");
    let mut inner = make("/m/s1/b.wav", "h2");
    inner.append(make("/m/s2/c.wav", "h3"));
    z.append(inner);
    assert_eq!(triples(&x), triples(&y));
    assert_eq!(triples(&x), triples(&z));
    assert_eq!(dirs(&x), dirs(&y));
}

#[test]
fn relevant_keeps_the_subtree() {
    let mut log = Log::new();
    log.insert(rec("/music/a.wav", "h1", Lac::Clean));
    log.insert(rec("/music/sub/b.wav", "h2", Lac::Clean));
    log.insert(rec("/musicx/c.wav", "h3", Lac::Clean));
    log.insert(rec("/other/d.wav", "h4", Lac::Clean));
    let r = log.relevant("/music");
    assert_eq!(dirs(&r), vec!["/music".to_string(), "/music/sub".to_string()]);
    let root = log.relevant("/");
    assert_eq!(root.data.len(), 4);
    assert_eq!(log.relevant("/none").data.len(), 0);
}

#[test]
fn manifest_text_layout() {
    let mut log = Log::new();
    log.insert(rec("/music/a.wav", "h1", Lac::Clean));
    log.insert(rec("/music/b.flac", "h2", Lac::Transcoded));
    let text = log.to_text("LAC 2.0");
    assert_eq!(
        text,
        "LAC 2.0\n\nFile:   /music/a.wav\nHash:   h1\nResult: Clean\n\nFile:   /music/b.flac\nHash:   h2\nResult: Transcoded\n\n"
    );
    let files = log.vectorize();
    assert_eq!(write_manifest("LAC 2.0", &files), text);
    assert_eq!(Log::new().to_text("H"), "H\n\n");
}

#[test]
fn manifest_round_trip() {
    let mut log = Log::new();
    log.insert(rec("/music/a.wav", "h1", Lac::Clean));
    log.insert(rec("/music/sub/x.wav", "h9", Lac::Upsampled));
    log.insert(rec("/music/b.flac", "h2", Lac::Transcoded));
    log.insert(rec("/music/sub/y.flac", "h8", Lac::Upscaled));
    let text = log.to_text("lossless audio checker 2.0.5");
    let back = Log::from(text.as_bytes()).unwrap();
    assert_eq!(triples(&back), triples(&log));
    assert_eq!(dirs(&back), dirs(&log));
    let again = Log::from_text(&back.to_text("lossless audio checker 2.0.5")).unwrap();
    assert_eq!(triples(&again), triples(&log));
}

#[test]
fn manifest_with_two_data_lines_fails() {
    let text = "LAC\n\nFile:   /music/a.wav\nHash:   h1\n";
    assert!(matches!(Log::from_text(text), Err(ManifestError::LineCount)));
    assert!(matches!(Log::from(text.as_bytes()), Err(ManifestError::LineCount)));
}

#[test]
fn manifest_errors() {
    assert!(matches!(Log::from_text(""), Err(ManifestError::MissingHeader)));
    assert!(matches!(Log::from_text("\n\n\r\n"), Err(ManifestError::MissingHeader)));
    let bad_result = "H\nFile:   /m/a.wav\nHash:   h\nResult: Lossy\n";
    assert!(matches!(Log::from_text(bad_result), Err(ManifestError::BadRecord)));
    let no_sep = "H\nFile /m/a.wav\nHash:   h\nResult: Clean\n";
    assert!(matches!(Log::from_text(no_sep), Err(ManifestError::BadRecord)));
    let only_header = Log::from_text("H\n\n").unwrap();
    assert_eq!(only_header.data.len(), 0);
}

#[test]
fn manifest_reads_crlf_and_blank_lines() {
    let text = "H\r\n\r\nFile:   /m/a.wav\r\nHash:   h1\r\n\r\nResult: Clean\r\n";
    let log = Log::from_text(text).unwrap();
    let files = log.vectorize();
    assert_eq!(files.len(), 1);
    assert_eq!(files[0].path, "/m/a.wav");
    assert_eq!(files[0].hash, "h1");
    assert_eq!(files[0].result, Ok(Lac::Clean));
    assert_eq!(log.data[0].0, "/m");
}

#[test]
fn manifest_field_stops_at_next_separator() {
    let text = "H\nFile:   /m/a.wav: extra\nHash:  h1 \nResult:  clean \n";
    let files = Log::from_text(text).unwrap().vectorize();
    assert_eq!(files[0].path, "/m/a.wav");
    assert_eq!(files[0].hash, "h1");
    assert_eq!(files[0].result, Ok(Lac::Clean));
}
