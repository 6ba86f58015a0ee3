use lac::log::parent_dir;
use lac::processor::judge;
use lac::scan::{entry_kind, fan_in, notable_records, report};
use lac::{hash, EntryKind, File, FnF, Lac, Log, ManifestError, Processor, Step};

fn sorted_paths(log: &Log) -> Vec<String> {
    let mut v: Vec<String> = log.vectorize().into_iter().map(|f| f.path).collect();
    v.sort();
    v
}

fn evaluate(step: Step, stdout: &[u8]) -> File {
    match step {
        Step::Evaluate { path, hash, .. } => File {
            path,
            hash,
            result: judge(stdout, "raw".to_string()),
        },
        Step::Reuse(_) => panic!("expected an evaluation"),
    }
}

#[test]
fn entry_kinds() {
    assert_eq!(entry_kind("/m/a.wav", true, false), EntryKind::Wav);
    assert_eq!(entry_kind("/m/a.WAV", true, false), EntryKind::Wav);
    assert_eq!(entry_kind("/m/b.Flac", true, false), EntryKind::Flac);
    assert_eq!(entry_kind("/m/c.mp3", true, false), EntryKind::Other);
    assert_eq!(entry_kind("/m/.flac", true, false), EntryKind::Other);
    assert_eq!(entry_kind("/m/flac", true, false), EntryKind::Other);
    assert_eq!(entry_kind("/m/d.flacc", true, false), EntryKind::Other);
    assert_eq!(entry_kind("/m/sub.wav", false, true), EntryKind::Folder);
    assert_eq!(entry_kind("/m/link", false, false), EntryKind::Other);
}

#[test]
fn report_annotates_failure_with_path() {
    match report(Err("boom".to_string()), "/m/a.wav") {
        Err(m) => assert_eq!(m, "On file /m/a.wav ERROR: boom"),
        Ok(_) => panic!("expected a failure"),
    }
    let f = File {
        path: "/m/a.wav".to_string(),
        hash: "h".to_string(),
        result: Ok(Lac::Clean),
    };
    match report(Ok(f), "/m/a.wav") {
        Ok(FnF::File(g)) => assert_eq!(g.path, "/m/a.wav"),
        _ => panic!("expected a record"),
    }
}

#[test]
fn wav_path_of_compressed_file() {
    assert_eq!(lac::processor::wav_path("/music/b.flac"), "/music/b.wav");
    assert_eq!(lac::processor::wav_path("/music/b.x.FLAC"), "/music/b.x.wav");
    assert_eq!(lac::processor::wav_path("/music/.flac"), "/music/.flac.wav");
    assert_eq!(lac::processor::wav_path("/mu.sic/b"), "/mu.sic/b.wav");
}

#[test]
fn first_run_then_second_run_reuses_records() {
    let a_bytes = b"RIFF a".to_vec();
    let b_bytes = b"fLaC b".to_vec();
    let p = Processor::new("/tmp/LAC".to_string(), "LAC 2.0".to_string());
    let a = p.process_wav("/music/a.wav".to_string(), &a_bytes);
    let b = p.process_flac("/music/b.flac".to_string(), &b_bytes);
    match &b {
        Step::Evaluate { candidate, decode, .. } => {
            assert_eq!(candidate, "/music/b.wav");
            assert!(*decode);
        }
        Step::Reuse(_) => panic!("nothing to reuse yet"),
    }
    let fa = evaluate(a, b"This track appears Clean");
    let fb = evaluate(b, b"Transcoded from lossy source");
    assert_eq!(fa.hash, hash(&a_bytes));
    assert_eq!(fa.result, Ok(Lac::Clean));
    assert_eq!(fb.result, Ok(Lac::Transcoded));
    let done = fan_in(
        "LAC 2.0",
        vec![report(Ok(fa), "/music/a.wav"), report(Ok(fb), "/music/b.flac")],
    );
    assert_eq!(
        done.text,
        format!(
            "LAC 2.0\n\nFile:   /music/a.wav\nHash:   {}\nResult: Clean\n\nFile:   /music/b.flac\nHash:   {}\nResult: Transcoded\n\n",
            hash(&a_bytes),
            hash(&b_bytes)
        )
    );
    let mut second = Processor::new("/tmp/LAC".to_string(), "LAC 2.0".to_string());
    assert_eq!(second.load_previous(false, Some(done.text.into_bytes())), None);
    match second.process_wav("/music/a.wav".to_string(), &a_bytes) {
        Step::Reuse(f) => {
            assert_eq!(f.path, "/music/a.wav");
            assert_eq!(f.hash, hash(&a_bytes));
            assert_eq!(f.result, Ok(Lac::Clean));
        }
        _ => panic!("unchanged file must be reused"),
    }
    match second.process_flac("/music/b.flac".to_string(), &b_bytes) {
        Step::Reuse(f) => assert_eq!(f.result, Ok(Lac::Transcoded)),
        _ => panic!("unchanged file must be reused"),
    }
}

#[test]
fn changed_file_is_evaluated_again() {
    let mut log = Log::new();
    log.insert(File {
        path: "/music/a.wav".to_string(),
        hash: hash(b"old"),
        result: Ok(Lac::Clean),
    });
    let mut p = Processor::new("/tmp/LAC".to_string(), "H".to_string());
    p.append_old(log);
    match p.process_wav("/music/a.wav".to_string(), b"new") {
        Step::Evaluate { path, hash: h, .. } => {
            assert_eq!(path, "/music/a.wav");
            assert_eq!(h, hash(b"new"));
        }
        _ => panic!("changed file must be evaluated"),
    }
    assert!(p.get_dupe("/music/a.wav", &hash(b"old")).is_some());
    assert!(p.get_dupe("/music/b.wav", &hash(b"old")).is_none());
}

#[test]
fn force_mode_ignores_the_manifest() {
    let text = format!(
        "H\n\nFile:   /music/a.wav\nHash:   {}\nResult: Clean\n\n",
        hash(b"same")
    );
    let mut p = Processor::new("/tmp/LAC".to_string(), "H".to_string());
    assert_eq!(p.load_previous(true, Some(text.clone().into_bytes())), None);
    assert!(matches!(
        p.process_wav("/music/a.wav".to_string(), b"same"),
        Step::Evaluate { .. }
    ));
    let mut q = Processor::new("/tmp/LAC".to_string(), "H".to_string());
    q.load_previous(false, Some(text.into_bytes()));
    assert!(matches!(
        q.process_wav("/music/a.wav".to_string(), b"same"),
        Step::Reuse(_)
    ));
}

#[test]
fn bad_manifest_leaves_the_cache_empty() {
    let text = "H\n\nFile:   /music/a.wav\nHash:   h1\n".to_string();
    let mut p = Processor::new("/tmp/LAC".to_string(), "H".to_string());
    assert_eq!(
        p.load_previous(false, Some(text.into_bytes())),
        Some(ManifestError::LineCount)
    );
    assert!(p.old_log.is_none());
    assert!(p.get_dupe("/music/a.wav", "h1").is_none());
    assert_eq!(p.load_previous(false, None), None);
}

#[test]
fn subdirectory_records_return_but_are_not_persisted_above() {
    let sub = fan_in(
        "H",
        vec![Ok(FnF::File(File {
            path: "/music/sub/c.wav".to_string(),
            hash: "h3".to_string(),
            result: Ok(Lac::Upscaled),
        }))],
    );
    assert_eq!(
        sub.text,
        "H\n\nFile:   /music/sub/c.wav\nHash:   h3\nResult: Upscaled\n\n"
    );
    let top = fan_in(
        "H",
        vec![
            Ok(FnF::Folder(sub.log)),
            Ok(FnF::File(File {
                path: "/music/a.wav".to_string(),
                hash: "h1".to_string(),
                result: Ok(Lac::Clean),
            })),
            Ok(FnF::Skipped),
        ],
    );
    assert_eq!(
        top.text,
        "H\n\nFile:   /music/a.wav\nHash:   h1\nResult: Clean\n\n"
    );
    assert_eq!(
        sorted_paths(&top.log),
        vec!["/music/a.wav".to_string(), "/music/sub/c.wav".to_string()]
    );
    assert_eq!(parent_dir("/music/sub/c.wav"), "/music/sub");
    assert!(top.errors.is_empty());
}

#[test]
fn failure_does_not_stop_siblings() {
    let sub = fan_in(
        "H",
        vec![Ok(FnF::File(File {
            path: "/m/s/x.wav".to_string(),
            hash: "h9".to_string(),
            result: Ok(Lac::Clean),
        }))],
    );
    let done = fan_in(
        "H",
        vec![
            Ok(FnF::File(File {
                path: "/m/a.wav".to_string(),
                hash: "h1".to_string(),
                result: Ok(Lac::Clean),
            })),
            report(Err("decode failed".to_string()), "/m/b.flac"),
            Ok(FnF::Folder(sub.log)),
            Ok(FnF::File(File {
                path: "/m/c.wav".to_string(),
                hash: "h2".to_string(),
                result: Err("odd output".to_string()),
            })),
        ],
    );
    assert_eq!(done.errors, vec!["On file /m/b.flac ERROR: decode failed".to_string()]);
    assert_eq!(
        sorted_paths(&done.log),
        vec!["/m/a.wav".to_string(), "/m/c.wav".to_string(), "/m/s/x.wav".to_string()]
    );
    assert_eq!(
        done.text,
        "H\n\nFile:   /m/a.wav\nHash:   h1\nResult: Clean\n\nFile:   /m/c.wav\nHash:   h2\nResult: odd output\n\n"
    );
}

#[test]
fn only_unclean_records_are_reported() {
    let mut log = Log::new();
    let add = |log: &mut Log, p: &str, r: Result<Lac, String>| {
        log.insert(File {
            path: p.to_string(),
            hash: "h".to_string(),
            result: r,
        })
    };
    add(&mut log, "/m/a.wav", Ok(Lac::Clean));
    add(&mut log, "/m/b.wav", Ok(Lac::Transcoded));
    add(&mut log, "/m/s/c.wav", Err("odd".to_string()));
    add(&mut log, "/m/d.wav", Ok(Lac::Upsampled));
    add(&mut log, "/m/e.wav", Ok(Lac::Clean));
    let shown: Vec<String> = notable_records(&log).into_iter().map(|f| f.path).collect();
    assert_eq!(
        shown,
        vec!["/m/b.wav".to_string(), "/m/d.wav".to_string(), "/m/s/c.wav".to_string()]
    );
    assert!(notable_records(&Log::new()).is_empty());
}
