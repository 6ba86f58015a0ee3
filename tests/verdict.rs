use lac::processor::judge;
use lac::{hash, Lac};

#[test]
fn verdict_read_from_classifier_line() {
    assert_eq!(Lac::from_str("This track appears Clean"), Ok(Lac::Clean));
    assert_eq!(Lac::from_str("Transcoded from lossy source"), Ok(Lac::Transcoded));
    assert_eq!(Lac::from_str("RESULT: UPSCALED"), Ok(Lac::Upscaled));
    assert_eq!(Lac::from_str("upsampled"), Ok(Lac::Upsampled));
    assert_eq!(Lac::from_str("no verdict here"), Err(()));
    assert_eq!(Lac::from_str(""), Err(()));
}

#[test]
fn verdict_first_keyword_wins() {
    assert_eq!(Lac::from_str("clean, not transcoded"), Ok(Lac::Clean));
    assert_eq!(Lac::from_str("upsampled and transcoded"), Ok(Lac::Transcoded));
    assert_eq!(Lac::from_str("upsampled, upscaled"), Ok(Lac::Upscaled));
}

#[test]
fn verdict_through_from_str_trait() {
    assert_eq!("Clean".parse::<Lac>(), Ok(Lac::Clean));
    assert_eq!("cl ean".parse::<Lac>(), Err(()));
}

#[test]
fn verdict_names() {
    assert_eq!(Lac::Clean.to_string(), "Clean");
    assert_eq!(Lac::Transcoded.to_string(), "Transcoded");
    assert_eq!(Lac::Upscaled.to_string(), "Upscaled");
    assert_eq!(Lac::Upsampled.to_string(), "Upsampled");
    for l in [Lac::Clean, Lac::Transcoded, Lac::Upscaled, Lac::Upsampled] {
        assert_eq!(Lac::from_str(&l.to_string()), Ok(l));
    }
}

#[test]
fn judge_names_verdict_or_keeps_raw_output() {
    assert_eq!(judge(b"This track appears Clean\n", "raw".to_string()), Ok(Lac::Clean));
    assert_eq!(
        judge(b"Transcoded from lossy source", "raw".to_string()),
        Ok(Lac::Transcoded)
    );
    assert_eq!(
        judge(b"error: cannot open", "Output { status: 1 }".to_string()),
        Err("Output { status: 1 }".to_string())
    );
    assert_eq!(judge(&[0xff, 0xfe], "bad".to_string()), Err("bad".to_string()));
}

#[test]
fn digest_is_sha256_in_lower_hex() {
    assert_eq!(
        hash(b""),
        "e3b0c44298fc1c149afbf4c8996fb92427ae41e4649b934ca495991b7852b855"
    );
    assert_eq!(
        hash(b"abc"),
        "ba7816bf8f01cfea414140de5dae2223b00361a396177a9cb410ff61f20015ad"
    );
    assert_eq!(hash(b"abc").len(), 64);
    assert_ne!(hash(b"abc"), hash(b"abd"));
}
