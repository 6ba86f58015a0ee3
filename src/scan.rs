//! The decisions of a scan, one directory at a time: which entries to
//! evaluate, how results and failures are combined, and what is persisted.
use vstd::prelude::*;
use vstd::string::StringExecFns;
use crate::lac::Lac;
use crate::log::{File, FileView, Log, build, files_view, flatten, manifest_text, merge, write_manifest};
use crate::text::{chars_of, last_index, last_index_of, matches_at, matches_at_exec};

verus! {

/// What one entry of a directory gave.
pub enum FnF {
    /// An audio file, evaluated or reused.
    File(File),
    /// A subdirectory, with the manifest of its whole subtree.
    Folder(Log),
    /// An entry that is neither.
    Skipped,
}

/// How a directory entry is handled.
#[derive(Clone, Copy, PartialEq, Eq, Structural, Debug)]
pub enum EntryKind {
    /// A compressed audio file: decoded, then classified.
    Flac,
    /// An uncompressed audio file: classified as it is.
    Wav,
    /// A subdirectory: scanned in turn.
    Folder,
    /// Anything else: ignored.
    Other,
}

/// The file name in `p` has an extension equal to `ext`, ignoring ASCII case.
pub open spec fn has_extension(p: Seq<char>, ext: Seq<char>) -> bool {
    let d = last_index_of(p, '.');
    &&& d > last_index_of(p, '/') + 1
    &&& p.len() - (d + 1) == ext.len()
    &&& matches_at(p, ext, d + 1)
}

/// How the entry at `p` is handled, given whether it is a file or a directory.
pub open spec fn kind_of(p: Seq<char>, is_file: bool, is_dir: bool) -> EntryKind {
    if is_file {
        if has_extension(p, seq!['f', 'l', 'a', 'c']) {
            EntryKind::Flac
        } else if has_extension(p, seq!['w', 'a', 'v']) {
            EntryKind::Wav
        } else {
            EntryKind::Other
        }
    } else if is_dir {
        EntryKind::Folder
    } else {
        EntryKind::Other
    }
}

fn extension_is(v: &Vec<char>, ext: &Vec<char>) -> (r: bool)
    ensures
        r == has_extension(v@, ext@),
{
    proof {
        crate::text::lemma_last_index_bounds(v@, '.');
        crate::text::lemma_last_index_bounds(v@, '/');
    }
    let d = match last_index(v, '.') {
        Some(d) => d,
        None => return false,
    };
    let after_slash = match last_index(v, '/') {
        Some(s) => d > s && d - s > 1,
        None => d > 0,
    };
    if !after_slash || v.len() - (d + 1) != ext.len() {
        return false;
    }
    matches_at_exec(v, ext, d + 1)
}

/// How the entry at `path` is handled: audio files by their extension,
/// ignoring case; directories are scanned; the rest is ignored.
pub fn entry_kind(path: &str, is_file: bool, is_dir: bool) -> (r: EntryKind)
    ensures
        r == kind_of(path@, is_file, is_dir),
{
    if is_file {
        let v = chars_of(path);
        let flac = vec!['f', 'l', 'a', 'c'];
        let wav = vec!['w', 'a', 'v'];
        assert(flac@ == seq!['f', 'l', 'a', 'c']);
        assert(wav@ == seq!['w', 'a', 'v']);
        if extension_is(&v, &flac) {
            EntryKind::Flac
        } else if extension_is(&v, &wav) {
            EntryKind::Wav
        } else {
            EntryKind::Other
        }
    } else if is_dir {
        EntryKind::Folder
    } else {
        EntryKind::Other
    }
}

/// The message for a failure `e` on the file at `path`.
pub open spec fn failure_text(path: Seq<char>, e: Seq<char>) -> Seq<char> {
    seq!['O', 'n', ' ', 'f', 'i', 'l', 'e', ' '] + path + seq![' ', 'E', 'R', 'R', 'O', 'R', ':', ' '] + e
}

/// The result of one file entry: its record, or its failure annotated with its path.
pub fn report(res: Result<File, String>, path: &str) -> (r: Result<FnF, String>)
    ensures
        match res {
            Ok(f) => r matches Ok(FnF::File(g)) && g@ == f@,
            Err(e) => r matches Err(m) && m@ == failure_text(path@, e@),
        },
{
    match res {
        Ok(f) => Ok(FnF::File(f)),
        Err(e) => {
            proof {
                reveal_strlit("On file ");
                reveal_strlit(" ERROR: ");
            }
            let mut m = String::from_str("On file ");
            m.append(path);
            m.append(" ERROR: ");
            m.append(e.as_str());
            Err(m)
        },
    }
}

/// The records of the file entries among `rs`, in order.
pub open spec fn own_records(rs: Seq<Result<FnF, String>>) -> Seq<FileView>
    decreases rs.len(),
{
    if rs.len() == 0 {
        Seq::empty()
    } else {
        own_records(rs.drop_last()) + match rs.last() {
            Ok(FnF::File(f)) => seq![f@],
            _ => Seq::empty(),
        }
    }
}

/// The manifests of the subdirectory entries among `rs`, in order.
pub open spec fn sub_manifests(rs: Seq<Result<FnF, String>>) -> Seq<Map<Seq<char>, Seq<FileView>>>
    decreases rs.len(),
{
    if rs.len() == 0 {
        Seq::empty()
    } else {
        sub_manifests(rs.drop_last()) + match rs.last() {
            Ok(FnF::Folder(l)) => seq![l@],
            _ => Seq::empty(),
        }
    }
}

/// The failures among `rs`, in order.
pub open spec fn failures(rs: Seq<Result<FnF, String>>) -> Seq<Seq<char>>
    decreases rs.len(),
{
    if rs.len() == 0 {
        Seq::empty()
    } else {
        failures(rs.drop_last()) + match rs.last() {
            Err(e) => seq![e@],
            _ => Seq::empty(),
        }
    }
}

/// `m` with each of `ms` merged in, in order.
pub open spec fn merge_all(m: Map<Seq<char>, Seq<FileView>>, ms: Seq<Map<Seq<char>, Seq<FileView>>>) -> Map<
    Seq<char>,
    Seq<FileView>,
>
    decreases ms.len(),
{
    if ms.len() == 0 {
        m
    } else {
        merge(merge_all(m, ms.drop_last()), ms.last())
    }
}

/// Every subdirectory manifest among `rs` is well formed.
pub open spec fn folders_wf(rs: Seq<Result<FnF, String>>) -> bool {
    forall|i: int| 0 <= i < rs.len() ==> match #[trigger] rs[i] {
        Ok(FnF::Folder(l)) => l.wf(),
        _ => true,
    }
}

/// What a directory's scan ends with.
pub struct DirResult {
    /// The manifest of the whole subtree.
    pub log: Log,
    /// The text to persist in the directory's manifest file: the records of
    /// the files directly in it.
    pub text: String,
    /// The failures met on its entries.
    pub errors: Vec<String>,
}

/// Combines the results of a directory's entries, once all are in: the
/// records of its files, in order, form its manifest text; that manifest with
/// each subdirectory's merged in is the subtree's; failures are collected
/// without stopping anything.
pub fn fan_in(header: &str, results: Vec<Result<FnF, String>>) -> (r: DirResult)
    requires
        folders_wf(results@),
    ensures
        r.log.wf(),
        r.log@ == merge_all(build(own_records(results@)), sub_manifests(results@)),
        r.text@ == manifest_text(header@, own_records(results@)),
        r.errors@.map_values(|e: String| e@) == failures(results@),
{
    let ghost rs = results@;
    let mut rest = results;
    let total = rest.len();
    let mut files: Vec<File> = Vec::new();
    let mut folders: Vec<Log> = Vec::new();
    let mut errors: Vec<String> = Vec::new();
    let mut k: usize = 0;
    assert(rs.take(0) =~= Seq::<Result<FnF, String>>::empty());
    assert(rs.skip(0) == rs);
    while rest.len() > 0
        invariant
            k <= rs.len(),
            total == rs.len(),
            rest@ == rs.skip(k as int),
            folders_wf(rs),
            files_view(files@) == own_records(rs.take(k as int)),
            folders@.map_values(|l: Log| l@) == sub_manifests(rs.take(k as int)),
            forall|i: int| 0 <= i < folders@.len() ==> (#[trigger] folders@[i]).wf(),
            errors@.map_values(|e: String| e@) == failures(rs.take(k as int)),
        decreases rest@.len(),
    {
        let item = rest.remove(0);
        let ghost t = rs.take(k + 1);
        assert(t.drop_last() =~= rs.take(k as int));
        assert(item == rs[k as int]);
        assert(t.last() == rs[k as int]);
        assert(rest@ =~= rs.skip(k + 1));
        match item {
            Ok(FnF::File(f)) => {
                files.push(f);
                assert(files_view(files@) =~= own_records(t));
                assert(folders@.map_values(|l: Log| l@) =~= sub_manifests(t));
                assert(errors@.map_values(|e: String| e@) =~= failures(t));
            },
            Ok(FnF::Folder(l)) => {
                assert(l.wf());
                folders.push(l);
                assert(files_view(files@) =~= own_records(t));
                assert(folders@.map_values(|l: Log| l@) =~= sub_manifests(t));
                assert(errors@.map_values(|e: String| e@) =~= failures(t));
            },
            Ok(FnF::Skipped) => {
                assert(files_view(files@) =~= own_records(t));
                assert(folders@.map_values(|l: Log| l@) =~= sub_manifests(t));
                assert(errors@.map_values(|e: String| e@) =~= failures(t));
            },
            Err(e) => {
                errors.push(e);
                assert(files_view(files@) =~= own_records(t));
                assert(folders@.map_values(|l: Log| l@) =~= sub_manifests(t));
                assert(errors@.map_values(|e: String| e@) =~= failures(t));
            },
        }
        k = k + 1;
    }
    assert(rs.take(k as int) == rs);
    let text = write_manifest(header, &files);
    let mut log = Log::new();
    let mut i: usize = 0;
    let ghost fv = files_view(files@);
    assert(fv.take(0) =~= Seq::<FileView>::empty());
    while i < files.len()
        invariant
            fv == files_view(files@),
            i <= files@.len(),
            log.wf(),
            log@ == build(fv.take(i as int)),
        decreases files@.len() - i,
    {
        log.insert(files[i].copy());
        assert(fv.take(i + 1).drop_last() =~= fv.take(i as int));
        i = i + 1;
    }
    assert(fv.take(fv.len() as int) == fv);
    let ghost base = log@;
    let ghost ms = folders@.map_values(|l: Log| l@);
    let mut j: usize = 0;
    let count = folders.len();
    assert(ms.take(0) =~= Seq::<Map<Seq<char>, Seq<FileView>>>::empty());
    while folders.len() > 0
        invariant
            j <= ms.len(),
            count == ms.len(),
            folders@.len() == ms.len() - j,
            forall|a: int| 0 <= a < folders@.len() ==> (#[trigger] folders@[a]).wf() && folders@[a]@ == ms[a + j],
            log.wf(),
            log@ == merge_all(base, ms.take(j as int)),
        decreases folders@.len(),
    {
        let ghost before = folders@;
        let sub = folders.remove(0);
        assert(sub@ == ms[j as int]);
        assert forall|a: int| 0 <= a < folders@.len() implies (#[trigger] folders@[a]).wf() && folders@[a]@ == ms[a + j + 1] by {
            assert(folders@[a] == before[a + 1]);
        }
        log.append(sub);
        assert(ms.take(j + 1).drop_last() =~= ms.take(j as int));
        j = j + 1;
    }
    assert(ms.take(j as int) == ms);
    DirResult { log, text, errors }
}

/// The records worth reporting to the user, in order: those whose outcome is
/// not `Clean`, failed classifications included.
pub open spec fn notable(fs: Seq<FileView>) -> Seq<FileView>
    decreases fs.len(),
{
    if fs.len() == 0 {
        Seq::empty()
    } else {
        notable(fs.drop_last()) + if fs.last().result == Ok::<Lac, Seq<char>>(Lac::Clean) {
            Seq::empty()
        } else {
            seq![fs.last()]
        }
    }
}

/// The records of `log` to report to the user: all but the clean ones.
pub fn notable_records(log: &Log) -> (r: Vec<File>)
    ensures
        files_view(r@) == notable(flatten(log.entries())),
{
    let all = log.vectorize();
    let ghost fv = files_view(all@);
    let mut r: Vec<File> = Vec::new();
    let mut i: usize = 0;
    assert(fv.take(0) =~= Seq::<FileView>::empty());
    assert(files_view(r@) =~= Seq::<FileView>::empty());
    while i < all.len()
        invariant
            fv == files_view(all@),
            i <= all@.len(),
            files_view(r@) == notable(fv.take(i as int)),
        decreases all@.len() - i,
    {
        let clean = match &all[i].result {
            Ok(Lac::Clean) => true,
            _ => false,
        };
        let ghost before = r@;
        assert(fv.take(i + 1).drop_last() =~= fv.take(i as int));
        assert(fv.take(i + 1).last() == all@[i as int]@);
        if !clean {
            r.push(all[i].copy());
            assert(files_view(r@) =~= files_view(before).push(all@[i as int]@));
        }
        assert(files_view(r@) =~= notable(fv.take(i + 1)));
        i = i + 1;
    }
    assert(fv.take(fv.len() as int) == fv);
    r
}

/// A failure on one entry takes nothing away from its siblings: with a
/// failed entry added anywhere among the results of a directory, its files'
/// records and its subdirectories' manifests (and so what is persisted and
/// returned) are the same.
pub proof fn lemma_failure_isolated(rs: Seq<Result<FnF, String>>, i: int, e: String)
    requires
        0 <= i <= rs.len(),
    ensures
        own_records(rs.insert(i, Err(e))) == own_records(rs),
        sub_manifests(rs.insert(i, Err(e))) == sub_manifests(rs),
        failures(rs.insert(i, Err(e))) == failures(rs.take(i)) + seq![e@] + failures(rs.skip(i)),
    decreases rs.len(),
{
    let n = rs.insert(i, Err(e));
    if i == rs.len() {
        assert(n.drop_last() =~= rs);
        assert(rs.take(i) == rs);
        assert(rs.skip(i) =~= Seq::<Result<FnF, String>>::empty());
        assert(own_records(n) =~= own_records(rs));
        assert(sub_manifests(n) =~= sub_manifests(rs));
        assert(failures(n) =~= failures(rs.take(i)) + seq![e@] + failures(rs.skip(i)));
    } else {
        assert(n.drop_last() =~= rs.drop_last().insert(i, Err(e)));
        assert(n.last() == rs.last());
        lemma_failure_isolated(rs.drop_last(), i, e);
        assert(rs.drop_last().take(i) =~= rs.take(i));
        assert(rs.skip(i).drop_last() =~= rs.drop_last().skip(i));
        assert(rs.skip(i).last() == rs.last());
        assert(failures(n) =~= failures(rs.take(i)) + seq![e@] + failures(rs.skip(i)));
    }
}

} // verus!
