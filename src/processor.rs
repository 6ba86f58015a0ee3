//! The cache of earlier runs and the per-file decisions made against it.
use vstd::prelude::*;
use crate::digest::{hash, hex_of, sha256_of};
use crate::lac::{Lac, lac_of};
use crate::log::{
    File, FileView, Log, ManifestError, decode_lossy, dir_of, merge, parse_manifest, parent_dir, records_in,
    utf8_lossy,
};
use crate::text::{chars_of, last_index, last_index_of, prefix, string_of};

verus! {

/// The first record of `fs` with this path and digest.
pub open spec fn first_match(fs: Seq<FileView>, path: Seq<char>, hash: Seq<char>) -> Option<FileView>
    decreases fs.len(),
{
    if fs.len() == 0 {
        None
    } else if fs[0].path == path && fs[0].hash == hash {
        Some(fs[0])
    } else {
        first_match(fs.drop_first(), path, hash)
    }
}

/// The record of an earlier run for the file at `path` with digest `hash`:
/// the first one with both in the list of the directory that holds the file.
pub open spec fn lookup(cache: Map<Seq<char>, Seq<FileView>>, path: Seq<char>, hash: Seq<char>) -> Option<FileView> {
    first_match(records_in(cache, dir_of(path)), path, hash)
}

/// The cache after reading a directory's previous manifest: unchanged in
/// force mode, when there is no manifest, or when it does not parse;
/// otherwise merged with what it holds.
pub open spec fn loaded_cache(
    cache: Map<Seq<char>, Seq<FileView>>,
    force: bool,
    manifest: Option<Seq<u8>>,
) -> Map<Seq<char>, Seq<FileView>> {
    if force {
        cache
    } else {
        match manifest {
            Some(bytes) => match parse_manifest(utf8_lossy(bytes)) {
                Ok(m) => merge(cache, m),
                Err(_) => cache,
            },
            None => cache,
        }
    }
}

/// Path of the decoded copy of the compressed file at `p`: the same path with
/// its extension (if the file name has one) replaced by `wav`.
pub open spec fn wav_sibling(p: Seq<char>) -> Seq<char> {
    let d = last_index_of(p, '.');
    if d > last_index_of(p, '/') + 1 {
        p.take(d) + seq!['.', 'w', 'a', 'v']
    } else {
        p + seq!['.', 'w', 'a', 'v']
    }
}

/// Path of the decoded copy of the compressed file at `path`.
pub fn wav_path(path: &str) -> (r: String)
    ensures
        r@ == wav_sibling(path@),
{
    let v = chars_of(path);
    let slash = last_index(&v, '/');
    let mut out = match last_index(&v, '.') {
        Some(d) => {
            let after_slash = match slash {
                Some(s) => d > s && d - s > 1,
                None => d > 0,
            };
            if after_slash {
                prefix(&v, d)
            } else {
                v
            }
        },
        None => v,
    };
    out.push('.');
    out.push('w');
    out.push('a');
    out.push('v');
    string_of(out.as_slice())
}

/// What to do with one audio file once its digest is known.
pub enum Step {
    /// An earlier run evaluated these very bytes at this path: reuse its record.
    Reuse(File),
    /// Run the classifier on `candidate` (the file itself, or for a compressed
    /// file its decoded copy, which `decode` asks for), then record the outcome
    /// under `path` and `hash`.
    Evaluate { path: String, hash: String, candidate: String, decode: bool },
}

/// Evaluates audio files against the records of earlier runs.
#[derive(Debug)]
pub struct Processor {
    /// Records of earlier runs, if any were read.
    pub old_log: Option<Log>,
    /// Path of the classifier.
    pub bin: String,
    /// Banner of the classifier, written as the first line of each manifest.
    pub header: String,
}

impl Processor {
    /// The records of earlier runs, by directory.
    pub open spec fn cache(&self) -> Map<Seq<char>, Seq<FileView>> {
        match self.old_log {
            Some(l) => l@,
            None => Map::empty(),
        }
    }

    pub open spec fn wf(&self) -> bool {
        match self.old_log {
            Some(l) => l.wf(),
            None => true,
        }
    }

    /// A processor for classifier `bin`, with banner `header` and no earlier records.
    pub fn new(bin: String, header: String) -> (r: Processor)
        ensures
            r.wf(),
            r.cache() == Map::<Seq<char>, Seq<FileView>>::empty(),
            r.bin@ == bin@,
            r.header@ == header@,
    {
        Processor { old_log: None, bin, header }
    }

    /// Adds the records of `log` to those of earlier runs.
    pub fn append_old(&mut self, log: Log)
        requires
            old(self).wf(),
            log.wf(),
        ensures
            final(self).wf(),
            final(self).cache() == merge(old(self).cache(), log@),
            final(self).bin == old(self).bin,
            final(self).header == old(self).header,
    {
        let taken = self.old_log.take();
        match taken {
            Some(mut old_log) => {
                old_log.append(log);
                self.old_log = Some(old_log);
            },
            None => {
                let ghost m = log@;
                self.old_log = Some(log);
                assert(merge(Map::<Seq<char>, Seq<FileView>>::empty(), m) =~= m) by {
                    assert forall|k: Seq<char>| #[trigger] m.contains_key(k) implies
                        records_in(Map::<Seq<char>, Seq<FileView>>::empty(), k) + records_in(m, k) == m[k] by {
                        assert(Seq::<FileView>::empty() + m[k] =~= m[k]);
                    }
                }
            },
        }
    }

    /// Takes in a directory's previous manifest, unless in force mode. A
    /// manifest that does not parse is left out and its error returned.
    pub fn load_previous(&mut self, force: bool, manifest: Option<Vec<u8>>) -> (r: Option<ManifestError>)
        requires
            old(self).wf(),
        ensures
            final(self).wf(),
            final(self).cache() == loaded_cache(
                old(self).cache(),
                force,
                match manifest {
                    Some(b) => Some(b@),
                    None => None,
                },
            ),
            final(self).bin == old(self).bin,
            final(self).header == old(self).header,
            r == (if force {
                None
            } else {
                match manifest {
                    Some(b) => match parse_manifest(utf8_lossy(b@)) {
                        Ok(_) => None,
                        Err(e) => Some(e),
                    },
                    None => None,
                }
            }),
    {
        if force {
            return None;
        }
        match manifest {
            None => None,
            Some(bytes) => match Log::from(bytes.as_slice()) {
                Ok(log) => {
                    self.append_old(log);
                    None
                },
                Err(e) => Some(e),
            },
        }
    }

    /// The record of an earlier run for these bytes at this path, if any.
    pub fn get_dupe(&self, path: &str, hash: &str) -> (r: Option<File>)
        requires
            self.wf(),
        ensures
            match r {
                Some(f) => lookup(self.cache(), path@, hash@) == Some(f@),
                None => lookup(self.cache(), path@, hash@) is None,
            },
    {
        match &self.old_log {
            None => None,
            Some(old) => {
                assert(old.wf());
                let dir = parent_dir(path);
                let ghost es = old.entries();
                let mut i: usize = 0;
                while i < old.data.len()
                    invariant
                        es == old.entries(),
                        old.wf(),
                        self.cache() == old@,
                        dir@ == dir_of(path@),
                        i <= es.len(),
                        forall|j: int| 0 <= j < i ==> (#[trigger] es[j]).0 != dir@,
                    decreases es.len() - i,
                {
                    if old.data[i].0 == dir {
                        proof {
                            crate::log::lemma_as_map_index(es, i as int);
                            assert(es[i as int].1 == crate::log::files_view(old.data@[i as int].1@));
                            assert(self.cache() == old@);
                            assert(es[i as int].0 == dir@);
                            assert(records_in(self.cache(), dir_of(path@)) == es[i as int].1);
                        }
                        let r = first_in(&old.data[i].1, path, hash);
                        return r;
                    }
                    i = i + 1;
                }
                proof {
                    if old@.contains_key(dir@) {
                        let j = choose|j: int| 0 <= j < es.len() && es[j].0 == dir@;
                        assert(es[j].0 != dir@);
                    }
                }
                None
            },
        }
    }

    /// Decides what to do with the file at `path`, whose digest is `hash`:
    /// reuse the matching record of an earlier run, or evaluate the file
    /// (through a decoded copy if it is `compressed`).
    pub fn plan(&self, path: String, hash: String, compressed: bool) -> (r: Step)
        requires
            self.wf(),
        ensures
            match lookup(self.cache(), path@, hash@) {
                Some(f) => r matches Step::Reuse(g) && g@ == f,
                None => r matches Step::Evaluate { path: p, hash: h, candidate: c, decode: d } && p@ == path@
                    && h@ == hash@ && d == compressed && c@ == (if compressed {
                    wav_sibling(path@)
                } else {
                    path@
                }),
            },
    {
        match self.get_dupe(path.as_str(), hash.as_str()) {
            Some(f) => Step::Reuse(f),
            None => {
                let candidate = if compressed {
                    wav_path(path.as_str())
                } else {
                    path.clone()
                };
                Step::Evaluate { path, hash, candidate, decode: compressed }
            },
        }
    }

    /// The step for an uncompressed file whose bytes are `content`.
    pub fn process_wav(&self, path: String, content: &[u8]) -> (r: Step)
        requires
            self.wf(),
        ensures
            match lookup(self.cache(), path@, hex_of(sha256_of(content@))) {
                Some(f) => r matches Step::Reuse(g) && g@ == f,
                None => r matches Step::Evaluate { path: p, hash: h, candidate: c, decode: d } && p@ == path@
                    && h@ == hex_of(sha256_of(content@)) && !d && c@ == path@,
            },
    {
        let h = hash(content);
        self.plan(path, h, false)
    }

    /// The step for a compressed file whose bytes are `content`.
    pub fn process_flac(&self, path: String, content: &[u8]) -> (r: Step)
        requires
            self.wf(),
        ensures
            match lookup(self.cache(), path@, hex_of(sha256_of(content@))) {
                Some(f) => r matches Step::Reuse(g) && g@ == f,
                None => r matches Step::Evaluate { path: p, hash: h, candidate: c, decode: d } && p@ == path@
                    && h@ == hex_of(sha256_of(content@)) && d && c@ == wav_sibling(path@),
            },
    {
        let h = hash(content);
        self.plan(path, h, true)
    }
}

/// The first record of `files` with this path and digest.
fn first_in(files: &Vec<File>, path: &str, hash: &str) -> (r: Option<File>)
    ensures
        match r {
            Some(f) => first_match(crate::log::files_view(files@), path@, hash@) == Some(f@),
            None => first_match(crate::log::files_view(files@), path@, hash@) is None,
        },
{
    let ghost fs = crate::log::files_view(files@);
    let p = path.to_owned();
    let h = hash.to_owned();
    let mut i: usize = 0;
    assert(fs.skip(0) == fs);
    while i < files.len()
        invariant
            fs == crate::log::files_view(files@),
            p@ == path@,
            h@ == hash@,
            i <= files@.len(),
            first_match(fs, path@, hash@) == first_match(fs.skip(i as int), path@, hash@),
        decreases files@.len() - i,
    {
        assert(fs.skip(i as int)[0] == files@[i as int]@);
        assert(fs.skip(i as int).drop_first() =~= fs.skip(i + 1));
        if files[i].path == p && files[i].hash == h {
            return Some(files[i].copy());
        }
        i = i + 1;
    }
    None
}

/// The outcome of one classifier run: the verdict its standard output
/// `stdout` names, or, if it names none, `raw`, a description of the run.
pub fn judge(stdout: &[u8], raw: String) -> (r: Result<Lac, String>)
    ensures
        r == (match lac_of(utf8_lossy(stdout@)) {
            Some(l) => Ok::<Lac, String>(l),
            None => Err(raw),
        }),
{
    let text = decode_lossy(stdout);
    match Lac::from_str(text.as_str()) {
        Ok(l) => Ok(l),
        Err(_) => Err(raw),
    }
}

proof fn lemma_first_match_at(fs: Seq<FileView>, i: int, path: Seq<char>, hash: Seq<char>)
    requires
        0 <= i < fs.len(),
        fs[i].path == path && fs[i].hash == hash,
        forall|j: int| 0 <= j < i ==> (#[trigger] fs[j]).path != path,
    ensures
        first_match(fs, path, hash) == Some(fs[i]),
    decreases i,
{
    if i > 0 {
        assert forall|j: int| 0 <= j < i - 1 implies (#[trigger] fs.drop_first()[j]).path != path by {
            assert(fs.drop_first()[j] == fs[j + 1]);
        }
        lemma_first_match_at(fs.drop_first(), i - 1, path, hash);
    }
}

proof fn lemma_first_match_none(fs: Seq<FileView>, path: Seq<char>, hash: Seq<char>)
    requires
        forall|j: int| 0 <= j < fs.len() && (#[trigger] fs[j]).path == path ==> fs[j].hash != hash,
    ensures
        first_match(fs, path, hash) is None,
    decreases fs.len(),
{
    if fs.len() > 0 {
        assert forall|j: int| 0 <= j < fs.drop_first().len() && (#[trigger] fs.drop_first()[j]).path == path implies fs.drop_first()[j].hash != hash by {
            assert(fs.drop_first()[j] == fs[j + 1]);
        }
        lemma_first_match_none(fs.drop_first(), path, hash);
    }
}

/// A file whose bytes are unchanged since the run that recorded it gets that
/// very record back, outcome included, so it is not classified again. This
/// holds when the list of its directory holds its record and no other record
/// for its path.
pub proof fn lemma_unchanged_file_reused(cache: Map<Seq<char>, Seq<FileView>>, f: FileView, i: int)
    requires
        0 <= i < records_in(cache, dir_of(f.path)).len(),
        records_in(cache, dir_of(f.path))[i] == f,
        forall|j: int|
            0 <= j < records_in(cache, dir_of(f.path)).len() && j != i ==> (#[trigger] records_in(
                cache,
                dir_of(f.path),
            )[j]).path != f.path,
    ensures
        lookup(cache, f.path, f.hash) == Some(f),
{
    lemma_first_match_at(records_in(cache, dir_of(f.path)), i, f.path, f.hash);
}

/// A file whose digest differs from that of every earlier record for its
/// path finds no record to reuse, whatever those records say: it is
/// classified again.
pub proof fn lemma_changed_file_reevaluated(cache: Map<Seq<char>, Seq<FileView>>, path: Seq<char>, hash: Seq<char>)
    requires
        forall|j: int|
            0 <= j < records_in(cache, dir_of(path)).len() && (#[trigger] records_in(cache, dir_of(path))[j]).path
                == path ==> records_in(cache, dir_of(path))[j].hash != hash,
    ensures
        lookup(cache, path, hash) is None,
{
    lemma_first_match_none(records_in(cache, dir_of(path)), path, hash);
}

/// In force mode no manifest is taken in, so a scan that starts with no
/// earlier records reuses none: every file is classified again, even one
/// whose digest matches a record in the manifest on disk.
pub proof fn lemma_force_reevaluates(manifest: Option<Seq<u8>>, path: Seq<char>, hash: Seq<char>)
    ensures
        loaded_cache(Map::empty(), true, manifest) == Map::<Seq<char>, Seq<FileView>>::empty(),
        lookup(loaded_cache(Map::empty(), true, manifest), path, hash) is None,
{
}

} // verus!
