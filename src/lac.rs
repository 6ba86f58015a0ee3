//! The four verdicts the classifier can give, and how they are read from text.
use vstd::prelude::*;
use vstd::string::StringExecFns;
use crate::text::{chars_of, contains_ci, contains_ignoring_case};

verus! {

/// Verdict on one audio file.
#[derive(Clone, Copy, PartialEq, Eq, Structural, Debug, Hash)]
pub enum Lac {
    Clean,
    Transcoded,
    Upscaled,
    Upsampled,
}

/// The keyword, in lower case, that names a verdict in classifier output.
pub open spec fn keyword(l: Lac) -> Seq<char> {
    match l {
        Lac::Clean => seq!['c', 'l', 'e', 'a', 'n'],
        Lac::Transcoded => seq!['t', 'r', 'a', 'n', 's', 'c', 'o', 'd', 'e', 'd'],
        Lac::Upscaled => seq!['u', 'p', 's', 'c', 'a', 'l', 'e', 'd'],
        Lac::Upsampled => seq!['u', 'p', 's', 'a', 'm', 'p', 'l', 'e', 'd'],
    }
}

/// The verdict named in `s`: the first keyword, in the order clean,
/// transcoded, upscaled, upsampled, that the ASCII-lower-cased `s` contains.
pub open spec fn lac_of(s: Seq<char>) -> Option<Lac> {
    if contains_ci(s, keyword(Lac::Clean)) {
        Some(Lac::Clean)
    } else if contains_ci(s, keyword(Lac::Transcoded)) {
        Some(Lac::Transcoded)
    } else if contains_ci(s, keyword(Lac::Upscaled)) {
        Some(Lac::Upscaled)
    } else if contains_ci(s, keyword(Lac::Upsampled)) {
        Some(Lac::Upsampled)
    } else {
        None
    }
}

/// The name under which a verdict is written.
pub open spec fn name_of(l: Lac) -> Seq<char> {
    match l {
        Lac::Clean => seq!['C', 'l', 'e', 'a', 'n'],
        Lac::Transcoded => seq!['T', 'r', 'a', 'n', 's', 'c', 'o', 'd', 'e', 'd'],
        Lac::Upscaled => seq!['U', 'p', 's', 'c', 'a', 'l', 'e', 'd'],
        Lac::Upsampled => seq!['U', 'p', 's', 'a', 'm', 'p', 'l', 'e', 'd'],
    }
}

impl Lac {
    /// The name of the verdict, as written in manifests and reports.
    pub fn to_string(&self) -> (r: String)
        ensures
            r@ == name_of(*self),
    {
        match self {
            Lac::Clean => {
                proof { reveal_strlit("Clean"); }
                String::from_str("Clean")
            },
            Lac::Transcoded => {
                proof { reveal_strlit("Transcoded"); }
                String::from_str("Transcoded")
            },
            Lac::Upscaled => {
                proof { reveal_strlit("Upscaled"); }
                String::from_str("Upscaled")
            },
            Lac::Upsampled => {
                proof { reveal_strlit("Upsampled"); }
                String::from_str("Upsampled")
            },
        }
    }

    /// Reads a verdict from text by keyword, ignoring ASCII case.
    pub fn from_str(s: &str) -> (r: Result<Lac, ()>)
        ensures
            r == (match lac_of(s@) {
                Some(l) => Ok(l),
                None => Err(()),
            }),
    {
        let t = chars_of(s);
        let clean = vec!['c', 'l', 'e', 'a', 'n'];
        let transcoded = vec!['t', 'r', 'a', 'n', 's', 'c', 'o', 'd', 'e', 'd'];
        let upscaled = vec!['u', 'p', 's', 'c', 'a', 'l', 'e', 'd'];
        let upsampled = vec!['u', 'p', 's', 'a', 'm', 'p', 'l', 'e', 'd'];
        assert(clean@ == keyword(Lac::Clean));
        assert(transcoded@ == keyword(Lac::Transcoded));
        assert(upscaled@ == keyword(Lac::Upscaled));
        assert(upsampled@ == keyword(Lac::Upsampled));
        if contains_ignoring_case(&t, &clean) {
            Ok(Lac::Clean)
        } else if contains_ignoring_case(&t, &transcoded) {
            Ok(Lac::Transcoded)
        } else if contains_ignoring_case(&t, &upscaled) {
            Ok(Lac::Upscaled)
        } else if contains_ignoring_case(&t, &upsampled) {
            Ok(Lac::Upsampled)
        } else {
            Err(())
        }
    }
}

impl core::str::FromStr for Lac {
    type Err = ();

    fn from_str(s: &str) -> Result<Lac, ()> {
        Lac::from_str(s)
    }
}

} // verus!
