//! The manifest: evaluated files grouped by the directory that holds them,
//! with merging, filtering, and the text form written to each directory.
use vstd::prelude::*;
use crate::lac::{Lac, lac_of, name_of};
use crate::text::{chars_of, push_chars, last_index, last_index_of, line_views, lines, lines_of, prefix, string_of, trim, trimmed_range};

verus! {

/// One evaluated file.
#[derive(Debug)]
pub struct File {
    /// Path to the file.
    pub path: String,
    /// Digest of the file's bytes.
    pub hash: String,
    /// The verdict, or the classifier's output when it named none.
    pub result: Result<Lac, String>,
}

/// What a `File` holds, as plain values.
pub struct FileView {
    pub path: Seq<char>,
    pub hash: Seq<char>,
    pub result: Result<Lac, Seq<char>>,
}

pub open spec fn outcome_view(r: Result<Lac, String>) -> Result<Lac, Seq<char>> {
    match r {
        Ok(l) => Ok(l),
        Err(s) => Err(s@),
    }
}

impl View for File {
    type V = FileView;

    open spec fn view(&self) -> FileView {
        FileView { path: self.path@, hash: self.hash@, result: outcome_view(self.result) }
    }
}

impl File {
    /// A copy of this record.
    pub fn copy(&self) -> (r: File)
        ensures
            r@ == self@,
    {
        let result = match &self.result {
            Ok(l) => Ok(*l),
            Err(s) => Err(s.clone()),
        };
        File { path: self.path.clone(), hash: self.hash.clone(), result }
    }
}

/// The directory that holds the file at path `p`: what comes before the last
/// `/` (`/` itself for a file at the root), or the empty path when `p` has no `/`.
pub open spec fn dir_of(p: Seq<char>) -> Seq<char> {
    let i = last_index_of(p, '/');
    if i < 0 {
        Seq::empty()
    } else if i == 0 {
        seq!['/']
    } else {
        p.take(i)
    }
}

/// The directory that holds the file at `path`.
pub fn parent_dir(path: &str) -> (r: String)
    ensures
        r@ == dir_of(path@),
{
    let v = chars_of(path);
    match last_index(&v, '/') {
        None => String::new(),
        Some(0) => string_of(&['/']),
        Some(i) => string_of(prefix(&v, i).as_slice()),
    }
}

/// Directory entries: a directory's path with the records found directly in it.
pub type Entries = Seq<(Seq<char>, Seq<FileView>)>;

pub open spec fn files_view(v: Seq<File>) -> Seq<FileView> {
    v.map_values(|f: File| f@)
}

/// Each directory occurs once.
pub open spec fn distinct_keys(es: Entries) -> bool {
    forall|i: int, j: int| 0 <= i < j < es.len() ==> (#[trigger] es[i]).0 != (#[trigger] es[j]).0
}

/// Entries form a manifest: each directory once, each with at least one
/// record, and each record under the directory that holds it.
pub open spec fn entries_wf(es: Entries) -> bool {
    &&& distinct_keys(es)
    &&& forall|i: int| 0 <= i < es.len() ==> (#[trigger] es[i]).1.len() > 0
    &&& forall|i: int, j: int|
        0 <= i < es.len() && 0 <= j < es[i].1.len() ==> dir_of((#[trigger] es[i].1[j]).path) == es[i].0
}

/// The directory-to-records map that entries stand for.
pub open spec fn as_map(es: Entries) -> Map<Seq<char>, Seq<FileView>> {
    Map::new(
        |k: Seq<char>| exists|i: int| 0 <= i < es.len() && es[i].0 == k,
        |k: Seq<char>| es[choose|i: int| 0 <= i < es.len() && es[i].0 == k].1,
    )
}

/// The records held for directory `k`, none if it is absent.
pub open spec fn records_in(m: Map<Seq<char>, Seq<FileView>>, k: Seq<char>) -> Seq<FileView> {
    if m.contains_key(k) {
        m[k]
    } else {
        Seq::empty()
    }
}

/// `m` with record `f` added at the end of its directory's list.
pub open spec fn add_record(m: Map<Seq<char>, Seq<FileView>>, f: FileView) -> Map<Seq<char>, Seq<FileView>> {
    m.insert(dir_of(f.path), records_in(m, dir_of(f.path)).push(f))
}

/// Key-wise union: where both hold a directory, its lists are concatenated.
pub open spec fn merge(
    a: Map<Seq<char>, Seq<FileView>>,
    b: Map<Seq<char>, Seq<FileView>>,
) -> Map<Seq<char>, Seq<FileView>> {
    Map::new(
        |k: Seq<char>| a.contains_key(k) || b.contains_key(k),
        |k: Seq<char>| records_in(a, k) + records_in(b, k),
    )
}

pub proof fn lemma_as_map_index(es: Entries, i: int)
    requires
        distinct_keys(es),
        0 <= i < es.len(),
    ensures
        as_map(es).contains_key(es[i].0),
        as_map(es)[es[i].0] == es[i].1,
{
    let k = es[i].0;
    assert(exists|j: int| 0 <= j < es.len() && es[j].0 == k);
    let c = choose|j: int| 0 <= j < es.len() && es[j].0 == k;
    if c != i {
        if c < i {
            assert(es[c].0 != es[i].0);
        } else {
            assert(es[i].0 != es[c].0);
        }
    }
}

pub proof fn lemma_as_map_push(es: Entries, e: (Seq<char>, Seq<FileView>))
    requires
        distinct_keys(es),
        !as_map(es).contains_key(e.0),
    ensures
        distinct_keys(es.push(e)),
        as_map(es.push(e)) == as_map(es).insert(e.0, e.1),
{
    let n = es.push(e);
    assert forall|i: int, j: int| 0 <= i < j < n.len() implies (#[trigger] n[i]).0 != (#[trigger] n[j]).0 by {
        if j == es.len() {
            assert(n[i] == es[i]);
        } else {
            assert(n[i] == es[i] && n[j] == es[j]);
        }
    }
    assert forall|k: Seq<char>| #[trigger] as_map(n).contains_key(k) == as_map(es).insert(e.0, e.1).contains_key(k) by {
        if as_map(es).contains_key(k) {
            let i = choose|i: int| 0 <= i < es.len() && es[i].0 == k;
            assert(n[i] == es[i]);
        }
        if k == e.0 {
            assert(n[es.len() as int] == e);
        }
        if as_map(n).contains_key(k) {
            let i = choose|i: int| 0 <= i < n.len() && n[i].0 == k;
            if i < es.len() {
                assert(n[i] == es[i]);
            }
        }
    }
    assert forall|k: Seq<char>| #[trigger] as_map(n).contains_key(k) implies as_map(n)[k] == as_map(es).insert(e.0, e.1)[k] by {
        if k == e.0 {
            lemma_as_map_index(n, es.len() as int);
        } else {
            let i = choose|i: int| 0 <= i < es.len() && es[i].0 == k;
            assert(n[i] == es[i]);
            lemma_as_map_index(n, i);
            lemma_as_map_index(es, i);
        }
    }
    assert(as_map(n) =~= as_map(es).insert(e.0, e.1));
}

pub proof fn lemma_as_map_update(es: Entries, i: int, v: Seq<FileView>)
    requires
        distinct_keys(es),
        0 <= i < es.len(),
    ensures
        distinct_keys(es.update(i, (es[i].0, v))),
        as_map(es.update(i, (es[i].0, v))) == as_map(es).insert(es[i].0, v),
{
    let n = es.update(i, (es[i].0, v));
    assert forall|a: int, b: int| 0 <= a < b < n.len() implies (#[trigger] n[a]).0 != (#[trigger] n[b]).0 by {
        assert(n[a].0 == es[a].0 && n[b].0 == es[b].0);
    }
    lemma_as_map_index(es, i);
    assert forall|k: Seq<char>| #[trigger] as_map(n).contains_key(k) == as_map(es).insert(es[i].0, v).contains_key(k) by {
        if as_map(es).contains_key(k) {
            let j = choose|j: int| 0 <= j < es.len() && es[j].0 == k;
            assert(n[j].0 == es[j].0);
        }
        if as_map(n).contains_key(k) {
            let j = choose|j: int| 0 <= j < n.len() && n[j].0 == k;
            assert(n[j].0 == es[j].0);
        }
    }
    assert forall|k: Seq<char>| #[trigger] as_map(n).contains_key(k) implies as_map(n)[k] == as_map(es).insert(es[i].0, v)[k] by {
        let j = choose|j: int| 0 <= j < n.len() && n[j].0 == k;
        assert(n[j].0 == es[j].0);
        lemma_as_map_index(n, j);
        lemma_as_map_index(es, j);
    }
    assert(as_map(n) =~= as_map(es).insert(es[i].0, v));
}

/// Directory `k` is `dir` or lies below it.
pub open spec fn within(k: Seq<char>, dir: Seq<char>) -> bool {
    k == dir || (dir.len() < k.len() && k.take(dir.len() as int) == dir && (k[dir.len() as int] == '/'
        || (dir.len() > 0 && dir.last() == '/')))
}

/// The directories of `m` that lie in the subtree rooted at `dir`.
pub open spec fn subtree(m: Map<Seq<char>, Seq<FileView>>, dir: Seq<char>) -> Map<Seq<char>, Seq<FileView>> {
    Map::new(|k: Seq<char>| m.contains_key(k) && within(k, dir), |k: Seq<char>| m[k])
}

/// All records of the entries, entry after entry.
pub open spec fn flatten(es: Entries) -> Seq<FileView>
    decreases es.len(),
{
    if es.len() == 0 {
        Seq::empty()
    } else {
        flatten(es.drop_last()) + es.last().1
    }
}

pub open spec fn file_tag() -> Seq<char> {
    seq!['F', 'i', 'l', 'e', ':', ' ', ' ', ' ']
}

pub open spec fn hash_tag() -> Seq<char> {
    seq!['H', 'a', 's', 'h', ':', ' ', ' ', ' ']
}

pub open spec fn result_tag() -> Seq<char> {
    seq!['R', 'e', 's', 'u', 'l', 't', ':', ' ']
}

/// How an outcome is written: the verdict's name, or the classifier output.
pub open spec fn outcome_text(r: Result<Lac, Seq<char>>) -> Seq<char> {
    match r {
        Ok(l) => name_of(l),
        Err(s) => s,
    }
}

/// One record in manifest form: three tagged lines and a blank line.
pub open spec fn record_text(f: FileView) -> Seq<char> {
    file_tag() + f.path + seq!['\n'] + hash_tag() + f.hash + seq!['\n'] + result_tag() + outcome_text(f.result)
        + seq!['\n', '\n']
}

pub open spec fn records_text(fs: Seq<FileView>) -> Seq<char>
    decreases fs.len(),
{
    if fs.len() == 0 {
        Seq::empty()
    } else {
        records_text(fs.drop_last()) + record_text(fs.last())
    }
}

/// A manifest file: the header line, a blank line, then each record.
pub open spec fn manifest_text(header: Seq<char>, fs: Seq<FileView>) -> Seq<char> {
    header + seq!['\n', '\n'] + records_text(fs)
}

proof fn lemma_merge_step(a: Map<Seq<char>, Seq<FileView>>, es: Entries, n: int)
    requires
        distinct_keys(es),
        0 <= n < es.len(),
    ensures
        ({
            let m = merge(a, as_map(es.subrange(n + 1, es.len() as int)));
            merge(a, as_map(es.subrange(n, es.len() as int))) == m.insert(
                es[n].0,
                records_in(m, es[n].0) + es[n].1,
            )
        }),
{
    let p = es.subrange(n + 1, es.len() as int);
    let q = es.subrange(n, es.len() as int);
    let m = merge(a, as_map(p));
    let k0 = es[n].0;
    assert(distinct_keys(p)) by {
        assert forall|i: int, j: int| 0 <= i < j < p.len() implies (#[trigger] p[i]).0 != (#[trigger] p[j]).0 by {
            assert(p[i] == es[i + n + 1] && p[j] == es[j + n + 1]);
        }
    }
    assert(distinct_keys(q)) by {
        assert forall|i: int, j: int| 0 <= i < j < q.len() implies (#[trigger] q[i]).0 != (#[trigger] q[j]).0 by {
            assert(q[i] == es[i + n] && q[j] == es[j + n]);
        }
    }
    assert(q[0] == es[n]);
    lemma_as_map_index(q, 0);
    assert(!as_map(p).contains_key(k0)) by {
        if as_map(p).contains_key(k0) {
            let j = choose|j: int| 0 <= j < p.len() && p[j].0 == k0;
            assert(p[j] == es[j + n + 1]);
        }
    }
    let lhs = merge(a, as_map(q));
    let rhs = m.insert(k0, records_in(m, k0) + es[n].1);
    assert forall|k: Seq<char>| #[trigger] lhs.contains_key(k) == rhs.contains_key(k) by {
        if as_map(q).contains_key(k) && k != k0 {
            let j = choose|j: int| 0 <= j < q.len() && q[j].0 == k;
            assert(j != 0);
            assert(p[j - 1] == q[j]);
        }
        if as_map(p).contains_key(k) {
            let j = choose|j: int| 0 <= j < p.len() && p[j].0 == k;
            assert(q[j + 1] == p[j]);
        }
    }
    assert forall|k: Seq<char>| #[trigger] lhs.contains_key(k) implies lhs[k] == rhs[k] by {
        if k == k0 {
            assert(records_in(a, k) + Seq::<FileView>::empty() =~= records_in(a, k));
        } else if as_map(q).contains_key(k) {
            let j = choose|j: int| 0 <= j < q.len() && q[j].0 == k;
            assert(j != 0);
            assert(p[j - 1] == q[j]);
            lemma_as_map_index(q, j);
            lemma_as_map_index(p, j - 1);
        } else {
            if as_map(p).contains_key(k) {
                let j = choose|j: int| 0 <= j < p.len() && p[j].0 == k;
                assert(q[j + 1] == p[j]);
            }
        }
    }
    assert(lhs =~= rhs);
}

fn starts_with(k: &Vec<char>, d: &Vec<char>) -> (r: bool)
    ensures
        r == (d@.len() <= k@.len() && k@.take(d@.len() as int) == d@),
{
    if d.len() > k.len() {
        return false;
    }
    let mut i: usize = 0;
    while i < d.len()
        invariant
            d@.len() <= k@.len(),
            i <= d@.len(),
            forall|j: int| 0 <= j < i ==> k@[j] == d@[j],
        decreases d@.len() - i,
    {
        if k[i] != d[i] {
            assert(k@.take(d@.len() as int)[i as int] != d@[i as int]);
            return false;
        }
        i = i + 1;
    }
    assert(k@.take(d@.len() as int) =~= d@);
    true
}

fn is_within(k: &Vec<char>, d: &Vec<char>) -> (r: bool)
    ensures
        r == within(k@, d@),
{
    if k.len() < d.len() {
        return false;
    }
    let prefix = starts_with(k, d);
    if k.len() == d.len() {
        assert(k@.take(d@.len() as int) =~= k@);
        return prefix;
    }
    prefix && (k[d.len()] == '/' || (d.len() > 0 && d[d.len() - 1] == '/'))
}

fn copy_files(v: &Vec<File>) -> (r: Vec<File>)
    ensures
        files_view(r@) == files_view(v@),
{
    let mut r: Vec<File> = Vec::new();
    let mut i: usize = 0;
    while i < v.len()
        invariant
            i <= v@.len(),
            r@.len() == i,
            files_view(r@) == files_view(v@.take(i as int)),
        decreases v@.len() - i,
    {
        let ghost before = r@;
        let c = v[i].copy();
        r.push(c);
        proof {
            assert forall|j: int| 0 <= j < i implies (#[trigger] files_view(r@)[j]) == files_view(v@.take(i + 1))[j] by {
                assert(r@[j] == before[j]);
                assert(files_view(before)[j] == files_view(v@.take(i as int))[j]);
            }
            assert(files_view(r@)[i as int] == files_view(v@.take(i + 1))[i as int]);
            assert(files_view(r@) =~= files_view(v@.take(i + 1)));
        }
        i = i + 1;
    }
    assert(v@.take(v@.len() as int) == v@);
    r
}

pub(crate) fn push_record(out: &mut Vec<char>, f: &File)
    ensures
        final(out)@ == old(out)@ + record_text(f@),
{
    let ghost start = out@;
    push_chars(out, &vec!['F', 'i', 'l', 'e', ':', ' ', ' ', ' ']);
    push_chars(out, &chars_of(f.path.as_str()));
    out.push('\n');
    push_chars(out, &vec!['H', 'a', 's', 'h', ':', ' ', ' ', ' ']);
    push_chars(out, &chars_of(f.hash.as_str()));
    out.push('\n');
    push_chars(out, &vec!['R', 'e', 's', 'u', 'l', 't', ':', ' ']);
    match &f.result {
        Ok(l) => {
            let name = l.to_string();
            push_chars(out, &chars_of(name.as_str()));
        },
        Err(s) => {
            push_chars(out, &chars_of(s.as_str()));
        },
    }
    out.push('\n');
    out.push('\n');
    assert(out@ =~= start + record_text(f@));
}

/// The manifest file's text for `files`: `header`, a blank line, then each record.
pub fn write_manifest(header: &str, files: &Vec<File>) -> (r: String)
    ensures
        r@ == manifest_text(header@, files_view(files@)),
{
    let ghost fv = files_view(files@);
    let mut out = chars_of(header);
    out.push('\n');
    out.push('\n');
    let mut j: usize = 0;
    assert(out@ =~= manifest_text(header@, fv.take(0)));
    while j < files.len()
        invariant
            fv == files_view(files@),
            j <= files@.len(),
            out@ == manifest_text(header@, fv.take(j as int)),
        decreases files@.len() - j,
    {
        push_record(&mut out, &files[j]);
        proof {
            assert(fv.take(j + 1).drop_last() =~= fv.take(j as int));
        }
        j = j + 1;
    }
    assert(fv.take(fv.len() as int) =~= fv);
    string_of(out.as_slice())
}

/// Why a manifest file could not be read.
#[derive(Clone, Copy, PartialEq, Eq, Structural, Debug)]
pub enum ManifestError {
    /// The text has no line at all, so not even the header.
    MissingHeader,
    /// The lines after the header are not a whole number of records.
    LineCount,
    /// A record's line lacks its `": "` separator, or its result names no verdict.
    BadRecord,
}

/// Index of the first `": "` in `l` at or after `from`, or -1.
pub open spec fn sep_from(l: Seq<char>, from: int) -> int
    decreases l.len() - from,
{
    if from < 0 || from + 1 >= l.len() {
        -1
    } else if l[from] == ':' && l[from + 1] == ' ' {
        from
    } else {
        sep_from(l, from + 1)
    }
}

/// The value of a tagged line: the text after its first `": "` up to the next
/// one (or the end), trimmed; none if the line has no `": "`.
pub open spec fn field_of(l: Seq<char>) -> Option<Seq<char>> {
    let a = sep_from(l, 0);
    if a < 0 {
        None
    } else {
        let b = sep_from(l, a + 2);
        Some(trim(l.subrange(a + 2, if b < 0 { l.len() as int } else { b })))
    }
}

/// The record that three consecutive manifest lines describe.
pub open spec fn record_of(l1: Seq<char>, l2: Seq<char>, l3: Seq<char>) -> Option<FileView> {
    match (field_of(l1), field_of(l2), field_of(l3)) {
        (Some(p), Some(h), Some(r)) => match lac_of(r) {
            Some(lac) => Some(FileView { path: p, hash: h, result: Ok(lac) }),
            None => None,
        },
        _ => None,
    }
}

/// The records of the first `n` line triples of `body`, if all of them are well formed.
pub open spec fn records_of(body: Seq<Seq<char>>, n: nat) -> Option<Seq<FileView>>
    decreases n,
{
    if n == 0 {
        Some(Seq::empty())
    } else {
        match records_of(body, (n - 1) as nat) {
            Some(rs) => match record_of(body[3 * n - 3], body[3 * n - 2], body[3 * n - 1]) {
                Some(f) => Some(rs.push(f)),
                None => None,
            },
            None => None,
        }
    }
}

/// The manifest that inserting `recs` one by one into an empty one gives.
pub open spec fn build(recs: Seq<FileView>) -> Map<Seq<char>, Seq<FileView>>
    decreases recs.len(),
{
    if recs.len() == 0 {
        Map::empty()
    } else {
        add_record(build(recs.drop_last()), recs.last())
    }
}

/// What the text of a manifest file reads as: its non-empty lines after the
/// first (the header) taken three at a time as records.
pub open spec fn parse_manifest(t: Seq<char>) -> Result<Map<Seq<char>, Seq<FileView>>, ManifestError> {
    let ls = lines_of(t);
    if ls.len() == 0 {
        Err(ManifestError::MissingHeader)
    } else if (ls.len() - 1) % 3 != 0 {
        Err(ManifestError::LineCount)
    } else {
        match records_of(ls.drop_first(), ((ls.len() - 1) / 3) as nat) {
            Some(rs) => Ok(build(rs)),
            None => Err(ManifestError::BadRecord),
        }
    }
}

proof fn lemma_records_of_stays_none(body: Seq<Seq<char>>, n: nat, m: nat)
    requires
        n <= m,
        records_of(body, n) is None,
    ensures
        records_of(body, m) is None,
    decreases m - n,
{
    if n < m {
        lemma_records_of_stays_none(body, n, (m - 1) as nat);
    }
}

/// Text decoded from bytes as UTF-8, each invalid sequence replaced by U+FFFD.
pub uninterp spec fn utf8_lossy(bytes: Seq<u8>) -> Seq<char>;

/// Relies on `String::from_utf8_lossy`: decodes the bytes, replacing invalid
/// UTF-8 sequences; the result depends on the bytes alone.
#[verifier::external_body]
pub(crate) fn decode_lossy(v: &[u8]) -> (r: String)
    ensures
        r@ == utf8_lossy(v@),
{
    String::from_utf8_lossy(v).into_owned()
}

fn find_sep(l: &Vec<char>, from: usize) -> (r: Option<usize>)
    requires
        from <= l@.len(),
    ensures
        match r {
            Some(i) => i as int == sep_from(l@, from as int) && i + 2 <= l@.len(),
            None => sep_from(l@, from as int) == -1,
        },
{
    let mut i: usize = from;
    while l.len() - i > 1
        invariant
            from <= i <= l@.len(),
            sep_from(l@, from as int) == sep_from(l@, i as int),
        decreases l@.len() - i,
    {
        if l[i] == ':' && l[i + 1] == ' ' {
            return Some(i);
        }
        i = i + 1;
    }
    None
}

fn field(l: &Vec<char>) -> (r: Option<Vec<char>>)
    ensures
        match r {
            Some(v) => field_of(l@) == Some(v@),
            None => field_of(l@) is None,
        },
{
    let len = l.len();
    match find_sep(l, 0) {
        None => None,
        Some(a) => {
            let end = match find_sep(l, a + 2) {
                Some(b) => b,
                None => l.len(),
            };
            proof {
                let b = sep_from(l@, a + 2);
                if b >= 0 {
                    assert(b >= a + 2) by {
                        lemma_sep_from_at_least(l@, a + 2);
                    }
                }
            }
            Some(trimmed_range(l, a + 2, end))
        },
    }
}

proof fn lemma_sep_from_at_least(l: Seq<char>, from: int)
    ensures
        sep_from(l, from) == -1 || from <= sep_from(l, from) < l.len() - 1,
    decreases l.len() - from,
{
    if !(from < 0 || from + 1 >= l.len()) && !(l[from] == ':' && l[from + 1] == ' ') {
        lemma_sep_from_at_least(l, from + 1);
    }
}

fn record_from(l1: &Vec<char>, l2: &Vec<char>, l3: &Vec<char>) -> (r: Option<File>)
    ensures
        match r {
            Some(f) => record_of(l1@, l2@, l3@) == Some(f@),
            None => record_of(l1@, l2@, l3@) is None,
        },
{
    let p = match field(l1) {
        Some(v) => v,
        None => return None,
    };
    let h = match field(l2) {
        Some(v) => v,
        None => return None,
    };
    let v = match field(l3) {
        Some(v) => v,
        None => return None,
    };
    let verdict = string_of(v.as_slice());
    match Lac::from_str(verdict.as_str()) {
        Ok(lac) => Some(File { path: string_of(p.as_slice()), hash: string_of(h.as_slice()), result: Ok(lac) }),
        Err(_) => None,
    }
}

/// Evaluated files, grouped by the directory that holds them.
#[derive(Debug)]
pub struct Log {
    /// Each directory with its records, in order of first insertion.
    pub data: Vec<(String, Vec<File>)>,
}

impl View for Log {
    type V = Map<Seq<char>, Seq<FileView>>;

    open spec fn view(&self) -> Map<Seq<char>, Seq<FileView>> {
        as_map(self.entries())
    }
}

impl Log {
    pub open spec fn entries(&self) -> Entries {
        self.data@.map_values(|e: (String, Vec<File>)| (e.0@, files_view(e.1@)))
    }

    pub open spec fn wf(&self) -> bool {
        entries_wf(self.entries())
    }

    /// An empty manifest.
    pub fn new() -> (r: Log)
        ensures
            r.wf(),
            r@ == Map::<Seq<char>, Seq<FileView>>::empty(),
    {
        let r = Log { data: Vec::new() };
        assert(r@ =~= Map::<Seq<char>, Seq<FileView>>::empty());
        r
    }

    /// Index of the entry for directory `k`, if there is one.
    fn find(&self, k: &String) -> (r: Option<usize>)
        requires
            self.wf(),
        ensures
            match r {
                Some(i) => i < self.entries().len() && self.entries()[i as int].0 == k@,
                None => !self@.contains_key(k@),
            },
    {
        let mut i: usize = 0;
        while i < self.data.len()
            invariant
                i <= self.data@.len(),
                forall|j: int| 0 <= j < i ==> (#[trigger] self.entries()[j]).0 != k@,
            decreases self.data@.len() - i,
        {
            if self.data[i].0 == *k {
                return Some(i);
            }
            i = i + 1;
        }
        proof {
            if self@.contains_key(k@) {
                let j = choose|j: int| 0 <= j < self.entries().len() && self.entries()[j].0 == k@;
                assert(self.entries()[j].0 != k@);
            }
        }
        None
    }

    /// Adds `fs`, all held by directory `k`, after the records already there.
    fn add_entry(&mut self, k: String, fs: Vec<File>)
        requires
            old(self).wf(),
            fs@.len() > 0,
            forall|j: int| 0 <= j < fs@.len() ==> dir_of((#[trigger] fs@[j])@.path) == k@,
        ensures
            final(self).wf(),
            final(self)@ == old(self)@.insert(k@, records_in(old(self)@, k@) + files_view(fs@)),
    {
        let ghost es = self.entries();
        match self.find(&k) {
            Some(i) => {
                let (key, mut files) = self.data.remove(i);
                let ghost old_files = files@;
                let mut more = fs;
                files.append(&mut more);
                self.data.insert(i, (key, files));
                proof {
                    let v = files_view(old_files) + files_view(fs@);
                    assert(files_view(files@) =~= v);
                    assert(self.entries() =~= es.update(i as int, (es[i as int].0, v)));
                    lemma_as_map_update(es, i as int, v);
                    lemma_as_map_index(es, i as int);
                    let n = self.entries();
                    assert forall|a: int, b: int|
                        0 <= a < n.len() && 0 <= b < n[a].1.len() implies dir_of((#[trigger] n[a].1[b]).path) == n[a].0 by {
                        if a == i {
                            if b < old_files.len() {
                                assert(n[a].1[b] == es[a].1[b]);
                            } else {
                                assert(n[a].1[b] == fs@[b - old_files.len()]@);
                            }
                        } else {
                            assert(n[a] == es[a]);
                        }
                    }
                    assert forall|a: int| 0 <= a < n.len() implies (#[trigger] n[a]).1.len() > 0 by {
                        if a != i {
                            assert(n[a] == es[a]);
                        }
                    }
                }
            },
            None => {
                self.data.push((k, fs));
                proof {
                    let e = (k@, files_view(fs@));
                    assert(self.entries() =~= es.push(e));
                    lemma_as_map_push(es, e);
                    assert(records_in(as_map(es), k@) + files_view(fs@) =~= files_view(fs@));
                    let n = self.entries();
                    assert forall|a: int, b: int|
                        0 <= a < n.len() && 0 <= b < n[a].1.len() implies dir_of((#[trigger] n[a].1[b]).path) == n[a].0 by {
                        if a < es.len() {
                            assert(n[a] == es[a]);
                        } else {
                            assert(n[a].1[b] == fs@[b]@);
                        }
                    }
                    assert forall|a: int| 0 <= a < n.len() implies (#[trigger] n[a]).1.len() > 0 by {
                        if a < es.len() {
                            assert(n[a] == es[a]);
                        }
                    }
                }
            },
        }
    }

    /// Merges `log` into this manifest: directories of either are kept, and
    /// where both hold a directory its lists are concatenated.
    pub fn append(&mut self, log: Log)
        requires
            old(self).wf(),
            log.wf(),
        ensures
            final(self).wf(),
            final(self)@ == merge(old(self)@, log@),
    {
        let ghost oes = log.entries();
        let ghost start = self@;
        let mut rest = log.data;
        assert(oes.subrange(oes.len() as int, oes.len() as int) =~= Seq::<(Seq<char>, Seq<FileView>)>::empty());
        assert(merge(start, as_map(Seq::<(Seq<char>, Seq<FileView>)>::empty())) =~= start);
        while rest.len() > 0
            invariant
                self.wf(),
                entries_wf(oes),
                rest@.len() <= oes.len(),
                forall|j: int| 0 <= j < rest@.len() ==> (#[trigger] rest@[j]).0@ == oes[j].0 && files_view(rest@[j].1@) == oes[j].1,
                self@ == merge(start, as_map(oes.subrange(rest@.len() as int, oes.len() as int))),
            decreases rest@.len(),
        {
            let ghost n = rest@.len() - 1;
            let last = rest.pop();
            match last {
                Some(entry) => {
                    let (k, fs) = entry;
                    assert(k@ == oes[n].0 && files_view(fs@) == oes[n].1);
                    assert forall|j: int| 0 <= j < fs@.len() implies dir_of((#[trigger] fs@[j])@.path) == k@ by {
                        assert(oes[n].1[j] == fs@[j]@);
                    }
                    assert(fs@.len() == oes[n].1.len());
                    self.add_entry(k, fs);
                    proof {
                        lemma_merge_step(start, oes, n);
                    }
                },
                None => {},
            }
        }
        assert(oes.subrange(0, oes.len() as int) == oes);
    }

    /// The part of this manifest whose directories lie in the subtree rooted at `dir`.
    pub fn relevant(&self, dir: &str) -> (r: Log)
        requires
            self.wf(),
        ensures
            r.wf(),
            r@ == subtree(self@, dir@),
    {
        let ghost es = self.entries();
        let d = chars_of(dir);
        let mut r = Log::new();
        let mut i: usize = 0;
        assert(r@ =~= Map::new(
            |k: Seq<char>| exists|j: int| 0 <= j < 0 && es[j].0 == k && within(k, dir@),
            |k: Seq<char>| as_map(es)[k],
        ));
        while i < self.data.len()
            invariant
                es == self.entries(),
                entries_wf(es),
                i <= es.len(),
                d@ == dir@,
                r.wf(),
                r@ == Map::new(
                    |k: Seq<char>| exists|j: int| 0 <= j < i && es[j].0 == k && within(k, dir@),
                    |k: Seq<char>| as_map(es)[k],
                ),
            decreases es.len() - i,
        {
            let kc = chars_of(self.data[i].0.as_str());
            if is_within(&kc, &d) {
                let ghost before = r.entries();
                let ghost e = es[i as int];
                assert(!as_map(before).contains_key(e.0)) by {
                    if as_map(before).contains_key(e.0) {
                        let j = choose|j: int| 0 <= j < i && es[j].0 == e.0 && within(e.0, dir@);
                        assert(es[j].0 != es[i as int].0);
                    }
                }
                let files = copy_files(&self.data[i].1);
                r.data.push((self.data[i].0.clone(), files));
                proof {
                    assert(r.entries() =~= before.push(e));
                    lemma_as_map_push(before, e);
                    lemma_as_map_index(es, i as int);
                    let n = r.entries();
                    assert forall|a: int, b: int|
                        0 <= a < n.len() && 0 <= b < n[a].1.len() implies dir_of((#[trigger] n[a].1[b]).path) == n[a].0 by {
                        if a < before.len() {
                            assert(n[a] == before[a]);
                        }
                    }
                    assert forall|a: int| 0 <= a < n.len() implies (#[trigger] n[a]).1.len() > 0 by {
                        if a < before.len() {
                            assert(n[a] == before[a]);
                        }
                    }
                    assert(r@ =~= Map::new(
                        |k: Seq<char>| exists|j: int| 0 <= j < i + 1 && es[j].0 == k && within(k, dir@),
                        |k: Seq<char>| as_map(es)[k],
                    ));
                }
            } else {
                assert(r@ =~= Map::new(
                    |k: Seq<char>| exists|j: int| 0 <= j < i + 1 && es[j].0 == k && within(k, dir@),
                    |k: Seq<char>| as_map(es)[k],
                ));
            }
            i = i + 1;
        }
        assert(r@ =~= subtree(self@, dir@));
        r
    }

    /// All records, directory after directory.
    pub fn vectorize(&self) -> (r: Vec<File>)
        ensures
            files_view(r@) == flatten(self.entries()),
    {
        let ghost es = self.entries();
        let mut r: Vec<File> = Vec::new();
        let mut i: usize = 0;
        while i < self.data.len()
            invariant
                es == self.entries(),
                i <= es.len(),
                files_view(r@) == flatten(es.take(i as int)),
            decreases es.len() - i,
        {
            let more = copy_files(&self.data[i].1);
            let ghost before = r@;
            let mut m = more;
            r.append(&mut m);
            assert(es.take(i + 1).drop_last() =~= es.take(i as int));
            assert(files_view(r@) =~= files_view(before) + es[i as int].1);
            i = i + 1;
        }
        assert(es.take(es.len() as int) == es);
        r
    }

    /// The manifest file's text: `header`, a blank line, then every record.
    pub fn to_text(&self, header: &str) -> (r: String)
        ensures
            r@ == manifest_text(header@, flatten(self.entries())),
    {
        let ghost es = self.entries();
        let mut out = chars_of(header);
        out.push('\n');
        out.push('\n');
        let mut i: usize = 0;
        assert(out@ =~= manifest_text(header@, flatten(es.take(0))));
        while i < self.data.len()
            invariant
                es == self.entries(),
                i <= es.len(),
                out@ == manifest_text(header@, flatten(es.take(i as int))),
            decreases es.len() - i,
        {
            let files = &self.data[i].1;
            let ghost x = flatten(es.take(i as int));
            let ghost fv = files_view(files@);
            let mut j: usize = 0;
            assert(x + fv.take(0) =~= x);
            while j < files.len()
                invariant
                    i < es.len(),
                    files == &self.data@[i as int].1,
                    fv == files_view(files@),
                    j <= files@.len(),
                    out@ == manifest_text(header@, x + fv.take(j as int)),
                decreases files@.len() - j,
            {
                push_record(&mut out, &files[j]);
                proof {
                    let y = x + fv.take(j + 1);
                    assert(y.drop_last() =~= x + fv.take(j as int));
                    assert(y.last() == files@[j as int]@);
                }
                j = j + 1;
            }
            proof {
                assert(es.take(i + 1).drop_last() =~= es.take(i as int));
                assert(x + fv.take(fv.len() as int) =~= flatten(es.take(i + 1)));
            }
            i = i + 1;
        }
        assert(es.take(es.len() as int) == es);
        string_of(out.as_slice())
    }

    /// Reads the text of a manifest file.
    pub fn from_text(text: &str) -> (r: Result<Log, ManifestError>)
        ensures
            match r {
                Ok(log) => log.wf() && parse_manifest(text@) == Ok::<_, ManifestError>(log@),
                Err(e) => parse_manifest(text@) == Err::<Map<Seq<char>, Seq<FileView>>, _>(e),
            },
    {
        let t = chars_of(text);
        let ls = lines(&t);
        let ghost lv = line_views(ls@);
        if ls.len() == 0 {
            return Err(ManifestError::MissingHeader);
        }
        let body_len = ls.len() - 1;
        if body_len % 3 != 0 {
            return Err(ManifestError::LineCount);
        }
        let ghost body = lv.drop_first();
        let count = body_len / 3;
        assert(lv.len() == ls@.len());
        assert(count * 3 + 1 == ls@.len());
        assert((lv.len() - 1) / 3 == count);
        let mut log = Log::new();
        let mut n: usize = 0;
        let ghost mut rs: Seq<FileView> = Seq::empty();
        assert(log@ =~= build(rs));
        while n < count
            invariant
                lv == line_views(ls@),
                body == lv.drop_first(),
                count * 3 + 1 == ls@.len(),
                body_len == count * 3,
                lv == lines_of(text@),
                (lv.len() - 1) / 3 == count,
                n <= count,
                log.wf(),
                records_of(body, n as nat) == Some(rs),
                log@ == build(rs),
            decreases count - n,
        {
            assert(3 * n + 3 <= 3 * count) by (nonlinear_arith)
                requires
                    n < count,
            ;
            assert(ls@[3 * n + 1]@ == body[3 * n as int]);
            assert(ls@[3 * n + 2]@ == body[3 * n + 1]);
            assert(ls@[3 * n + 3]@ == body[3 * n + 2]);
            match record_from(&ls[3 * n + 1], &ls[3 * n + 2], &ls[3 * n + 3]) {
                Some(f) => {
                    proof {
                        assert(rs.push(f@).drop_last() =~= rs);
                        rs = rs.push(f@);
                    }
                    log.insert(f);
                },
                None => {
                    proof {
                        assert(3 * (n + 1) - 3 == 3 * n);
                        assert(records_of(body, (n + 1) as nat) is None);
                        lemma_records_of_stays_none(body, (n + 1) as nat, count as nat);
                        assert(records_of(lv.drop_first(), ((lv.len() - 1) / 3) as nat) is None);
                        assert(parse_manifest(text@) == Err::<Map<Seq<char>, Seq<FileView>>, _>(ManifestError::BadRecord));
                    }
                    return Err(ManifestError::BadRecord);
                },
            }
            n = n + 1;
        }
        Ok(log)
    }

    /// Reads a manifest file's bytes, decoded as UTF-8 with invalid
    /// sequences replaced.
    pub fn from(v: &[u8]) -> (r: Result<Log, ManifestError>)
        ensures
            match r {
                Ok(log) => log.wf() && parse_manifest(utf8_lossy(v@)) == Ok::<_, ManifestError>(log@),
                Err(e) => parse_manifest(utf8_lossy(v@)) == Err::<Map<Seq<char>, Seq<FileView>>, _>(e),
            },
    {
        let text = decode_lossy(v);
        Log::from_text(text.as_str())
    }

    /// Adds record `f` at the end of the list of the directory that holds it.
    pub fn insert(&mut self, f: File)
        requires
            old(self).wf(),
        ensures
            final(self).wf(),
            final(self)@ == add_record(old(self)@, f@),
    {
        let k = parent_dir(f.path.as_str());
        let ghost fv = f@;
        let fs = vec![f];
        assert(files_view(fs@) =~= seq![fv]);
        self.add_entry(k, fs);
        assert(records_in(old(self)@, k@) + seq![fv] =~= records_in(old(self)@, k@).push(fv));
    }
}

/// Merging is associative: grouping the merges of several manifests
/// differently gives the same directory-to-records map.
pub proof fn lemma_merge_associative(
    a: Map<Seq<char>, Seq<FileView>>,
    b: Map<Seq<char>, Seq<FileView>>,
    c: Map<Seq<char>, Seq<FileView>>,
)
    ensures
        merge(merge(a, b), c) == merge(a, merge(b, c)),
{
    assert forall|k: Seq<char>| #[trigger] merge(merge(a, b), c).contains_key(k) implies merge(merge(a, b), c)[k]
        == merge(a, merge(b, c))[k] by {
        assert(records_in(a, k) + records_in(b, k) + records_in(c, k) =~= records_in(a, k) + (records_in(b, k)
            + records_in(c, k)));
    }
    assert(merge(merge(a, b), c) =~= merge(a, merge(b, c)));
}

/// Manifests of disjoint sets of directories, such as those of sibling
/// subtrees, merge to the same map in either order.
pub proof fn lemma_merge_disjoint_commutes(a: Map<Seq<char>, Seq<FileView>>, b: Map<Seq<char>, Seq<FileView>>)
    requires
        a.dom().disjoint(b.dom()),
    ensures
        merge(a, b) == merge(b, a),
{
    assert forall|k: Seq<char>| #[trigger] merge(a, b).contains_key(k) implies merge(a, b)[k] == merge(b, a)[k] by {
        if a.contains_key(k) {
            assert(!b.dom().contains(k));
            assert(records_in(a, k) + Seq::<FileView>::empty() =~= Seq::<FileView>::empty() + records_in(a, k));
        } else {
            assert(Seq::<FileView>::empty() + records_in(b, k) =~= records_in(b, k) + Seq::<FileView>::empty());
        }
    }
    assert(merge(a, b) =~= merge(b, a));
}

/// Manifests of two sibling subtrees, which share no directory, can be merged
/// into a directory's manifest in either order with the same result.
pub proof fn lemma_merge_siblings_any_order(
    m: Map<Seq<char>, Seq<FileView>>,
    a: Map<Seq<char>, Seq<FileView>>,
    b: Map<Seq<char>, Seq<FileView>>,
)
    requires
        a.dom().disjoint(b.dom()),
    ensures
        merge(merge(m, a), b) == merge(merge(m, b), a),
{
    lemma_merge_associative(m, a, b);
    lemma_merge_associative(m, b, a);
    lemma_merge_disjoint_commutes(a, b);
}

} // verus!
