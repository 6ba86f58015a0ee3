//! Reading back a manifest file gives the manifest that was written.
use vstd::prelude::*;
use crate::lac::{Lac, keyword, lac_of, name_of};
use crate::processor::{first_match, lookup};
use crate::log::{
    Entries, FileView, as_map, build, dir_of, entries_wf, field_of, file_tag, flatten, hash_tag, lemma_as_map_push,
    manifest_text, merge, parse_manifest, record_of, record_text, records_in, records_of, records_text, result_tag,
    sep_from,
};
use crate::text::{
    contains_ci, is_space, is_trimmed, lines_of, lower_is, matches_at, nonempty_lines, split_lines, strip_cr, trim, trim_end,
    trim_start,
};

verus! {

/// `s` can stand as one value of a manifest line: no whitespace at its ends,
/// no line feed, and no `": "` inside.
pub open spec fn plain_field(s: Seq<char>) -> bool {
    &&& is_trimmed(s)
    &&& forall|i: int| 0 <= i < s.len() ==> s[i] != '\n'
    &&& forall|i: int| 0 <= i < s.len() - 1 ==> !(#[trigger] s[i] == ':' && s[i + 1] == ' ')
}

/// `h` can stand as the header line: not empty, one line, no trailing carriage return.
pub open spec fn plain_header(h: Seq<char>) -> bool {
    &&& h.len() > 0
    &&& h.last() != '\r'
    &&& forall|i: int| 0 <= i < h.len() ==> h[i] != '\n'
}

/// A record that its manifest text reads back as: an outcome that is a
/// verdict, and a path and digest that are plain values.
pub open spec fn writable(f: FileView) -> bool {
    &&& f.result is Ok
    &&& plain_field(f.path)
    &&& plain_field(f.hash)
}

/// The three lines of each record, record after record.
pub open spec fn record_lines(recs: Seq<FileView>) -> Seq<Seq<char>>
    decreases recs.len(),
{
    if recs.len() == 0 {
        Seq::empty()
    } else {
        record_lines(recs.drop_last()) + seq![
            file_tag() + recs.last().path,
            hash_tag() + recs.last().hash,
            result_tag() + name_of(recs.last().result->Ok_0),
        ]
    }
}

proof fn lemma_split_concat(x: Seq<char>, y: Seq<char>)
    requires
        x.len() > 0,
        x.last() == '\n',
    ensures
        split_lines(x + y) == split_lines(x).drop_last() + split_lines(y),
    decreases y.len(),
{
    crate::text::lemma_split_lines_len(x.drop_last());
    if y.len() == 0 {
        assert(x + y == x);
        assert(split_lines(x).drop_last() + split_lines(y) =~= split_lines(x));
    } else {
        assert((x + y).drop_last() =~= x + y.drop_last());
        lemma_split_concat(x, y.drop_last());
        crate::text::lemma_split_lines_len(y.drop_last());
        assert((x + y).last() == y.last());
        let q = split_lines(y.drop_last());
        let a = split_lines(x).drop_last();
        if y.last() == '\n' {
            assert(split_lines(x + y) =~= a + q.push(Seq::empty()));
        } else {
            assert((a + q).last() == q.last());
            assert(split_lines(x + y) =~= a + q.update(q.len() - 1, q.last().push(y.last())));
        }
    }
}

proof fn lemma_nonempty_concat(a: Seq<Seq<char>>, b: Seq<Seq<char>>)
    ensures
        nonempty_lines(a + b) == nonempty_lines(a) + nonempty_lines(b),
    decreases b.len(),
{
    if b.len() == 0 {
        assert(a + b =~= a);
        assert(nonempty_lines(a) + nonempty_lines(b) =~= nonempty_lines(a));
    } else {
        assert((a + b).drop_last() =~= a + b.drop_last());
        lemma_nonempty_concat(a, b.drop_last());
        assert((a + b).last() == b.last());
        let l = strip_cr(b.last());
        if l.len() > 0 {
            assert(nonempty_lines(a + b) =~= nonempty_lines(a) + nonempty_lines(b.drop_last()).push(l));
        }
    }
}

proof fn lemma_lines_concat(x: Seq<char>, y: Seq<char>)
    requires
        x.len() == 0 || x.last() == '\n',
    ensures
        lines_of(x + y) == lines_of(x) + lines_of(y),
{
    if x.len() == 0 {
        assert(x + y =~= y);
        assert(lines_of(x) =~= Seq::<Seq<char>>::empty()) by {
            lemma_lines_empty_start(x);
        }
        assert(lines_of(x) + lines_of(y) =~= lines_of(y));
    } else {
        lemma_split_concat(x, y);
        crate::text::lemma_split_lines_len(x.drop_last());
        lemma_nonempty_concat(split_lines(x).drop_last(), split_lines(y));
        assert(split_lines(x).last() == Seq::<char>::empty());
        assert(split_lines(x).drop_last() == split_lines(x.drop_last()));
    }
}

proof fn lemma_split_one_line(l: Seq<char>)
    requires
        forall|i: int| 0 <= i < l.len() ==> l[i] != '\n',
    ensures
        split_lines(l) == seq![l],
    decreases l.len(),
{
    if l.len() > 0 {
        assert forall|i: int| 0 <= i < l.drop_last().len() implies l.drop_last()[i] != '\n' by {
            assert(l.drop_last()[i] == l[i]);
        }
        lemma_split_one_line(l.drop_last());
        assert(l.last() != '\n');
        assert(l.drop_last().push(l.last()) =~= l);
        assert(seq![l.drop_last()].update(0, l.drop_last().push(l.last())) =~= seq![l]);
    } else {
        assert(l =~= Seq::<char>::empty());
    }
}

proof fn lemma_lines_one(l: Seq<char>)
    requires
        l.len() > 0,
        l.last() != '\r',
        forall|i: int| 0 <= i < l.len() ==> l[i] != '\n',
    ensures
        lines_of(l + seq!['\n']) == seq![l],
{
    lemma_split_one_line(l);
    let t = l + seq!['\n'];
    assert(t.drop_last() =~= l);
    assert(split_lines(t) =~= seq![l, Seq::<char>::empty()]);
    let two = seq![l, Seq::<char>::empty()];
    assert(two.drop_last() =~= seq![l]);
    assert(two.last() == Seq::<char>::empty());
    assert(strip_cr(two.last()).len() == 0);
    assert(nonempty_lines(two) == nonempty_lines(seq![l]));
    assert(seq![l].drop_last() =~= Seq::<Seq<char>>::empty());
    assert(seq![l].last() == l);
    assert(strip_cr(l) == l);
    assert(nonempty_lines(seq![l].drop_last()) == Seq::<Seq<char>>::empty());
    assert(Seq::<Seq<char>>::empty().push(l) =~= seq![l]);
    assert(nonempty_lines(seq![l]) =~= seq![l]);
}

proof fn lemma_lines_empty_start(x: Seq<char>)
    requires
        x.len() == 0,
    ensures
        lines_of(x) == Seq::<Seq<char>>::empty(),
{
    let s0 = seq![Seq::<char>::empty()];
    assert(split_lines(x) == s0);
    assert(s0.drop_last() =~= Seq::<Seq<char>>::empty());
    assert(s0.last() == Seq::<char>::empty());
    assert(strip_cr(s0.last()).len() == 0);
    assert(nonempty_lines(s0) == nonempty_lines(s0.drop_last()));
}

proof fn lemma_lines_blank()
    ensures
        lines_of(seq!['\n']) == Seq::<Seq<char>>::empty(),
{
    let t = seq!['\n'];
    let e = Seq::<char>::empty();
    assert(t.drop_last() =~= e);
    lemma_lines_empty_start(e);
    assert(split_lines(e) == seq![e]);
    assert(t.last() == '\n');
    assert(split_lines(t) =~= seq![e, e]);
    assert(seq![e, e].drop_last() =~= seq![e]);
    assert(seq![e, e].last() == e);
    assert(strip_cr(e).len() == 0);
    assert(nonempty_lines(seq![e, e]) == nonempty_lines(seq![e]));
    assert(nonempty_lines(seq![e]) == lines_of(e));
}

proof fn lemma_name_plain(l: Lac)
    ensures
        name_of(l).len() > 0,
        !is_space(name_of(l)[0]),
        !is_space(name_of(l).last()),
        forall|i: int| 0 <= i < name_of(l).len() ==> name_of(l)[i] != '\n' && name_of(l)[i] != ':',
{
    let n = name_of(l);
    assert forall|i: int| 0 <= i < n.len() implies n[i] != '\n' && n[i] != ':' by {
        match l {
            Lac::Clean => { assert(i == 0 || i == 1 || i == 2 || i == 3 || i == 4); },
            Lac::Transcoded => {
                assert(i == 0 || i == 1 || i == 2 || i == 3 || i == 4 || i == 5 || i == 6 || i == 7 || i == 8 || i == 9);
            },
            Lac::Upscaled => {
                assert(i == 0 || i == 1 || i == 2 || i == 3 || i == 4 || i == 5 || i == 6 || i == 7);
            },
            Lac::Upsampled => {
                assert(i == 0 || i == 1 || i == 2 || i == 3 || i == 4 || i == 5 || i == 6 || i == 7 || i == 8);
            },
        }
    }
}

proof fn lemma_tagged_line(tag: Seq<char>, v: Seq<char>)
    requires
        tag.len() == 8,
        tag.last() == ' ',
        forall|i: int| 0 <= i < 8 ==> tag[i] != '\n',
        forall|i: int| 0 <= i < v.len() ==> v[i] != '\n',
        v.len() == 0 || !is_space(v.last()),
    ensures
        (tag + v).len() > 0,
        (tag + v).last() != '\r',
        forall|i: int| 0 <= i < (tag + v).len() ==> (tag + v)[i] != '\n',
{
    assert forall|i: int| 0 <= i < (tag + v).len() implies (tag + v)[i] != '\n' by {
        if i >= 8 {
            assert((tag + v)[i] == v[i - 8]);
        }
    }
}

proof fn lemma_record_lines_text(f: FileView)
    requires
        writable(f),
    ensures
        lines_of(record_text(f)) == seq![
            file_tag() + f.path,
            hash_tag() + f.hash,
            result_tag() + name_of(f.result->Ok_0),
        ],
{
    let l1 = file_tag() + f.path;
    let l2 = hash_tag() + f.hash;
    let name = name_of(f.result->Ok_0);
    let l3 = result_tag() + name;
    lemma_name_plain(f.result->Ok_0);
    assert(f.result matches Ok(x) && crate::log::outcome_text(f.result) == name_of(x));
    lemma_tagged_line(file_tag(), f.path);
    lemma_tagged_line(hash_tag(), f.hash);
    lemma_tagged_line(result_tag(), name);
    let a = l1 + seq!['\n'];
    let b = l2 + seq!['\n'];
    let c = l3 + seq!['\n'];
    let d = seq!['\n'];
    assert(record_text(f) =~= a + (b + (c + d)));
    lemma_lines_one(l1);
    lemma_lines_one(l2);
    lemma_lines_one(l3);
    lemma_lines_blank();
    lemma_lines_concat(c, d);
    lemma_lines_concat(b, c + d);
    lemma_lines_concat(a, b + (c + d));
    assert(seq![l3] + Seq::<Seq<char>>::empty() =~= seq![l3]);
    assert(seq![l1] + (seq![l2] + seq![l3]) =~= seq![l1, l2, l3]);
}

proof fn lemma_records_text_lines(recs: Seq<FileView>)
    requires
        forall|i: int| 0 <= i < recs.len() ==> writable(#[trigger] recs[i]),
    ensures
        lines_of(records_text(recs)) == record_lines(recs),
        records_text(recs).len() == 0 || records_text(recs).last() == '\n',
    decreases recs.len(),
{
    if recs.len() > 0 {
        let p = recs.drop_last();
        assert forall|i: int| 0 <= i < p.len() implies writable(#[trigger] p[i]) by {
            assert(p[i] == recs[i]);
        }
        lemma_records_text_lines(p);
        assert(writable(recs.last()));
        lemma_record_lines_text(recs.last());
        lemma_lines_concat(records_text(p), record_text(recs.last()));
        let rt = record_text(recs.last());
        assert(records_text(recs) == records_text(p) + rt);
        assert(rt.last() == '\n');
        assert((records_text(p) + rt).last() == '\n');
        assert(record_lines(recs) == record_lines(p) + lines_of(rt));
    } else {
        lemma_lines_empty_start(records_text(recs));
        assert(record_lines(recs) == Seq::<Seq<char>>::empty());
    }
}

proof fn lemma_sep_none(l: Seq<char>, from: int)
    requires
        0 <= from,
        forall|j: int| from <= j < l.len() - 1 ==> !(#[trigger] l[j] == ':' && l[j + 1] == ' '),
    ensures
        sep_from(l, from) == -1,
    decreases l.len() - from,
{
    if from + 1 < l.len() {
        lemma_sep_none(l, from + 1);
    }
}

proof fn lemma_trim_padded(v: Seq<char>, n: int)
    requires
        0 <= n,
        is_trimmed(v),
    ensures
        trim(Seq::new(n as nat, |i: int| ' ') + v) == v,
    decreases n,
{
    let s = Seq::new(n as nat, |i: int| ' ') + v;
    if n > 0 {
        assert(s[0] == ' ');
        assert(s.drop_first() =~= Seq::new((n - 1) as nat, |i: int| ' ') + v);
        lemma_trim_padded(v, n - 1);
    } else {
        assert(s =~= v);
        if v.len() > 0 {
            assert(trim_start(v) == v);
            assert(trim_end(v) == v);
        } else {
            assert(trim_start(v) == v);
        }
    }
}

/// A line made of `tag` (a word, `": "`, then `pad` spaces) and a plain value reads as that value.
proof fn lemma_field_tagged(tag: Seq<char>, v: Seq<char>, s: int, pad: int)
    requires
        0 < s,
        0 <= pad,
        tag.len() == s + 2 + pad,
        forall|j: int| 0 <= j < s ==> tag[j] != ':',
        tag[s] == ':' && tag[s + 1] == ' ',
        forall|j: int| s + 2 <= j < tag.len() ==> tag[j] == ' ',
        is_trimmed(v),
        forall|i: int| 0 <= i < v.len() - 1 ==> !(#[trigger] v[i] == ':' && v[i + 1] == ' '),
    ensures
        field_of(tag + v) == Some(v),
{
    let l = tag + v;
    assert forall|j: int| 0 <= j < s implies #[trigger] sep_from(l, j) == sep_from(l, j + 1) by {
        assert(l[j] == tag[j]);
    }
    assert forall|j: int| 0 <= j <= s implies sep_from(l, 0) == #[trigger] sep_from(l, j) by {
        lemma_sep_chain(l, j, s);
    }
    assert(l[s] == ':' && l[s + 1] == ' ');
    assert(sep_from(l, s) == s);
    assert(sep_from(l, 0) == s);
    assert forall|j: int| s + 2 <= j < l.len() - 1 implies !(#[trigger] l[j] == ':' && l[j + 1] == ' ') by {
        if j < tag.len() {
            assert(l[j] == tag[j]);
        } else {
            assert(l[j] == v[j - tag.len()]);
            assert(l[j + 1] == v[j + 1 - tag.len()]);
        }
    }
    lemma_sep_none(l, s + 2);
    assert(l.subrange(s + 2, l.len() as int) =~= Seq::new(pad as nat, |i: int| ' ') + v);
    lemma_trim_padded(v, pad);
}

proof fn lemma_sep_chain(l: Seq<char>, j: int, s: int)
    requires
        0 <= j <= s,
        forall|k: int| 0 <= k < s ==> #[trigger] sep_from(l, k) == sep_from(l, k + 1),
    ensures
        sep_from(l, 0) == sep_from(l, j),
    decreases j,
{
    if j > 0 {
        lemma_sep_chain(l, j - 1, s);
    }
}

proof fn lemma_keyword_at(name: Seq<char>, kw: Seq<char>)
    requires
        kw.len() == name.len(),
        forall|j: int| 0 <= j < kw.len() ==> lower_is(#[trigger] name[j], kw[j]),
    ensures
        contains_ci(name, kw),
{
    assert(matches_at(name, kw, 0)) by {
        assert forall|j: int| 0 <= j < kw.len() implies lower_is(#[trigger] name[0 + j], kw[j]) by {
            assert(0 + j == j);
        }
    }
}

proof fn lemma_verdict_names()
    ensures
        forall|l: Lac| lac_of(#[trigger] name_of(l)) == Some(l),
{
    let c = name_of(Lac::Clean);
    let t = name_of(Lac::Transcoded);
    let u = name_of(Lac::Upscaled);
    let m = name_of(Lac::Upsampled);
    let kc = keyword(Lac::Clean);
    let kt = keyword(Lac::Transcoded);
    let ku = keyword(Lac::Upscaled);
    let km = keyword(Lac::Upsampled);
    assert forall|j: int| 0 <= j < kc.len() implies lower_is(#[trigger] c[j], kc[j]) by {
        assert(j == 0 || j == 1 || j == 2 || j == 3 || j == 4);
    }
    lemma_keyword_at(c, kc);
    assert forall|j: int| 0 <= j < kt.len() implies lower_is(#[trigger] t[j], kt[j]) by {
        assert(j == 0 || j == 1 || j == 2 || j == 3 || j == 4 || j == 5 || j == 6 || j == 7 || j == 8 || j == 9);
    }
    lemma_keyword_at(t, kt);
    assert forall|j: int| 0 <= j < ku.len() implies lower_is(#[trigger] u[j], ku[j]) by {
        assert(j == 0 || j == 1 || j == 2 || j == 3 || j == 4 || j == 5 || j == 6 || j == 7);
    }
    lemma_keyword_at(u, ku);
    assert forall|j: int| 0 <= j < km.len() implies lower_is(#[trigger] m[j], km[j]) by {
        assert(j == 0 || j == 1 || j == 2 || j == 3 || j == 4 || j == 5 || j == 6 || j == 7 || j == 8);
    }
    lemma_keyword_at(m, km);
    assert forall|i: int| !matches_at(t, kc, i) by {
        if matches_at(t, kc, i) {
            assert(lower_is(t[i + 0], kc[0]));
            assert(lower_is(t[i + 1], kc[1]));
            assert(i == 0 || i == 1 || i == 2 || i == 3 || i == 4 || i == 5);
        }
    }
    assert forall|i: int| !matches_at(u, kc, i) by {
        if matches_at(u, kc, i) {
            assert(lower_is(u[i + 0], kc[0]));
            assert(lower_is(u[i + 1], kc[1]));
            assert(i == 0 || i == 1 || i == 2 || i == 3);
        }
    }
    assert forall|i: int| !matches_at(m, kc, i) by {
        if matches_at(m, kc, i) {
            assert(lower_is(m[i + 0], kc[0]));
            assert(i == 0 || i == 1 || i == 2 || i == 3 || i == 4);
        }
    }
    assert forall|i: int| !matches_at(u, kt, i) by {}
    assert forall|i: int| !matches_at(m, kt, i) by {}
    assert forall|i: int| !matches_at(m, ku, i) by {
        if matches_at(m, ku, i) {
            assert(lower_is(m[i + 0], ku[0]));
            assert(lower_is(m[i + 3], ku[3]));
            assert(i == 0 || i == 1);
        }
    }
    assert forall|l: Lac| lac_of(#[trigger] name_of(l)) == Some(l) by {
        match l {
            Lac::Clean => {},
            Lac::Transcoded => {},
            Lac::Upscaled => {},
            Lac::Upsampled => {},
        }
    }
}

proof fn lemma_record_of_lines(f: FileView)
    requires
        writable(f),
    ensures
        record_of(file_tag() + f.path, hash_tag() + f.hash, result_tag() + name_of(f.result->Ok_0)) == Some(f),
{
    let l = f.result->Ok_0;
    let name = name_of(l);
    lemma_name_plain(l);
    lemma_verdict_names();
    let ft = file_tag();
    let ht = hash_tag();
    let rt = result_tag();
    assert forall|j: int| 0 <= j < 4 implies ft[j] != ':' && ht[j] != ':' by {
        assert(j == 0 || j == 1 || j == 2 || j == 3);
    }
    assert forall|j: int| 6 <= j < 8 implies ft[j] == ' ' && ht[j] == ' ' by {
        assert(j == 6 || j == 7);
    }
    assert forall|j: int| 0 <= j < 6 implies rt[j] != ':' by {
        assert(j == 0 || j == 1 || j == 2 || j == 3 || j == 4 || j == 5);
    }
    lemma_field_tagged(ft, f.path, 4, 2);
    lemma_field_tagged(ht, f.hash, 4, 2);
    assert forall|i: int| 0 <= i < name.len() - 1 implies !(#[trigger] name[i] == ':' && name[i + 1] == ' ') by {}
    lemma_field_tagged(rt, name, 6, 0);
    assert(lac_of(name) == Some(l));
}

proof fn lemma_records_of_prefix(b1: Seq<Seq<char>>, b2: Seq<Seq<char>>, n: nat)
    requires
        3 * n <= b1.len(),
    ensures
        records_of(b1 + b2, n) == records_of(b1, n),
    decreases n,
{
    if n > 0 {
        lemma_records_of_prefix(b1, b2, (n - 1) as nat);
        assert((b1 + b2)[3 * n - 3] == b1[3 * n - 3]);
        assert((b1 + b2)[3 * n - 2] == b1[3 * n - 2]);
        assert((b1 + b2)[3 * n - 1] == b1[3 * n - 1]);
    }
}

proof fn lemma_records_of_lines(recs: Seq<FileView>)
    requires
        forall|i: int| 0 <= i < recs.len() ==> writable(#[trigger] recs[i]),
    ensures
        record_lines(recs).len() == 3 * recs.len(),
        records_of(record_lines(recs), recs.len()) == Some(recs),
    decreases recs.len(),
{
    if recs.len() > 0 {
        let p = recs.drop_last();
        assert forall|i: int| 0 <= i < p.len() implies writable(#[trigger] p[i]) by {
            assert(p[i] == recs[i]);
        }
        lemma_records_of_lines(p);
        let f = recs.last();
        assert(writable(recs[recs.len() - 1]));
        let three = seq![file_tag() + f.path, hash_tag() + f.hash, result_tag() + name_of(f.result->Ok_0)];
        let rl = record_lines(recs);
        assert(rl == record_lines(p) + three);
        lemma_records_of_prefix(record_lines(p), three, p.len());
        let n = recs.len();
        assert(rl[3 * n - 3] == three[0]);
        assert(rl[3 * n - 2] == three[1]);
        assert(rl[3 * n - 1] == three[2]);
        lemma_record_of_lines(f);
        assert(p.push(f) =~= recs);
    }
}

/// Records written into a manifest file are read back, whatever the
/// header: parsing the text gives the manifest that inserting the records
/// one by one gives. This holds of records with a verdict and with a path and
/// digest that are plain values, under a header that is one non-empty line.
pub proof fn lemma_written_records_read_back(header: Seq<char>, recs: Seq<FileView>)
    requires
        plain_header(header),
        forall|i: int| 0 <= i < recs.len() ==> writable(#[trigger] recs[i]),
    ensures
        parse_manifest(manifest_text(header, recs)) == Ok::<_, crate::log::ManifestError>(build(recs)),
{
    let a = header + seq!['\n'];
    let b = seq!['\n'];
    let c = records_text(recs);
    assert(manifest_text(header, recs) =~= a + (b + c));
    lemma_lines_one(header);
    lemma_lines_blank();
    lemma_lines_concat(b, c);
    lemma_lines_concat(a, b + c);
    lemma_records_text_lines(recs);
    lemma_records_of_lines(recs);
    let ls = lines_of(manifest_text(header, recs));
    assert(ls =~= seq![header] + record_lines(recs));
    assert(ls.drop_first() =~= record_lines(recs));
    let n = recs.len();
    assert(ls.len() - 1 == 3 * n);
    assert((3 * n) % 3 == 0 && (3 * n) / 3 == n) by (nonlinear_arith);
}

proof fn lemma_build_same_dir(xs: Seq<FileView>, ys: Seq<FileView>, k: Seq<char>)
    requires
        ys.len() > 0,
        forall|i: int| 0 <= i < ys.len() ==> dir_of((#[trigger] ys[i]).path) == k,
        !build(xs).contains_key(k),
    ensures
        build(xs + ys) == build(xs).insert(k, ys),
    decreases ys.len(),
{
    let all = xs + ys;
    assert(all.last() == ys.last());
    if ys.len() == 1 {
        assert(all.drop_last() =~= xs);
        assert(Seq::<FileView>::empty().push(ys.last()) =~= ys);
    } else {
        assert(all.drop_last() =~= xs + ys.drop_last());
        assert forall|i: int| 0 <= i < ys.drop_last().len() implies dir_of((#[trigger] ys.drop_last()[i]).path) == k by {
            assert(ys.drop_last()[i] == ys[i]);
        }
        lemma_build_same_dir(xs, ys.drop_last(), k);
        assert(dir_of(ys.last().path) == k);
        assert(ys.drop_last().push(ys.last()) =~= ys);
        assert(build(xs).insert(k, ys.drop_last()).insert(k, ys) =~= build(xs).insert(k, ys));
    }
}

proof fn lemma_build_flatten(es: Entries)
    requires
        entries_wf(es),
    ensures
        build(flatten(es)) == as_map(es),
    decreases es.len(),
{
    if es.len() == 0 {
        assert(as_map(es) =~= Map::<Seq<char>, Seq<FileView>>::empty());
    } else {
        let p = es.drop_last();
        let e = es.last();
        assert(entries_wf(p)) by {
            assert forall|i: int, j: int| 0 <= i < j < p.len() implies (#[trigger] p[i]).0 != (#[trigger] p[j]).0 by {
                assert(p[i] == es[i] && p[j] == es[j]);
            }
            assert forall|i: int| 0 <= i < p.len() implies (#[trigger] p[i]).1.len() > 0 by {
                assert(p[i] == es[i]);
            }
            assert forall|i: int, j: int| 0 <= i < p.len() && 0 <= j < p[i].1.len() implies dir_of((#[trigger] p[i].1[j]).path) == p[i].0 by {
                assert(p[i] == es[i]);
                assert(es[i].1[j] == p[i].1[j]);
            }
        }
        lemma_build_flatten(p);
        assert(!as_map(p).contains_key(e.0)) by {
            if as_map(p).contains_key(e.0) {
                let i = choose|i: int| 0 <= i < p.len() && p[i].0 == e.0;
                assert(p[i] == es[i]);
                assert(es[i].0 != es[es.len() - 1].0);
            }
        }
        assert(es[es.len() - 1] == e);
        assert forall|j: int| 0 <= j < e.1.len() implies dir_of((#[trigger] e.1[j]).path) == e.0 by {
            assert(es[es.len() - 1].1[j] == e.1[j]);
        }
        lemma_build_same_dir(flatten(p), e.1, e.0);
        lemma_as_map_push(p, e);
        assert(p.push(e) =~= es);
    }
}

proof fn lemma_flatten_writable(es: Entries)
    requires
        forall|i: int, j: int| 0 <= i < es.len() && 0 <= j < es[i].1.len() ==> writable(#[trigger] es[i].1[j]),
    ensures
        forall|i: int| 0 <= i < flatten(es).len() ==> writable(#[trigger] flatten(es)[i]),
    decreases es.len(),
{
    if es.len() > 0 {
        let p = es.drop_last();
        assert forall|i: int, j: int| 0 <= i < p.len() && 0 <= j < p[i].1.len() implies writable(#[trigger] p[i].1[j]) by {
            assert(p[i] == es[i]);
            assert(es[i].1[j] == p[i].1[j]);
        }
        lemma_flatten_writable(p);
        let f = flatten(es);
        let fp = flatten(p);
        assert forall|i: int| 0 <= i < f.len() implies writable(#[trigger] f[i]) by {
            if i < fp.len() {
                assert(f[i] == fp[i]);
            } else {
                assert(f[i] == es[es.len() - 1].1[i - fp.len()]);
            }
        }
    }
}

/// A manifest written to text and parsed back is the same manifest: every
/// directory with the same records, in the same order. This holds of
/// records with a verdict and with a path and digest that are plain values,
/// under a header that is one non-empty line.
pub proof fn lemma_manifest_round_trip(header: Seq<char>, es: Entries)
    requires
        entries_wf(es),
        plain_header(header),
        forall|i: int, j: int| 0 <= i < es.len() && 0 <= j < es[i].1.len() ==> writable(#[trigger] es[i].1[j]),
    ensures
        parse_manifest(manifest_text(header, flatten(es))) == Ok::<_, crate::log::ManifestError>(as_map(es)),
{
    lemma_flatten_writable(es);
    lemma_written_records_read_back(header, flatten(es));
    lemma_build_flatten(es);
}

/// The records of `recs` held by directory `k`, in order.
pub open spec fn in_dir(recs: Seq<FileView>, k: Seq<char>) -> Seq<FileView>
    decreases recs.len(),
{
    if recs.len() == 0 {
        Seq::empty()
    } else {
        in_dir(recs.drop_last(), k) + if dir_of(recs.last().path) == k {
            seq![recs.last()]
        } else {
            Seq::empty()
        }
    }
}

proof fn lemma_build_in_dir(recs: Seq<FileView>, k: Seq<char>)
    ensures
        records_in(build(recs), k) == in_dir(recs, k),
    decreases recs.len(),
{
    if recs.len() > 0 {
        lemma_build_in_dir(recs.drop_last(), k);
        if dir_of(recs.last().path) != k {
            assert(in_dir(recs, k) =~= in_dir(recs.drop_last(), k));
        } else {
            assert(in_dir(recs, k) =~= in_dir(recs.drop_last(), k).push(recs.last()));
        }
    }
}

proof fn lemma_in_dir_other_paths(recs: Seq<FileView>, k: Seq<char>, path: Seq<char>)
    requires
        forall|j: int| 0 <= j < recs.len() ==> (#[trigger] recs[j]).path != path,
    ensures
        forall|j: int| 0 <= j < in_dir(recs, k).len() ==> (#[trigger] in_dir(recs, k)[j]).path != path,
    decreases recs.len(),
{
    if recs.len() > 0 {
        let p = recs.drop_last();
        assert forall|j: int| 0 <= j < p.len() implies (#[trigger] p[j]).path != path by {
            assert(p[j] == recs[j]);
        }
        lemma_in_dir_other_paths(p, k, path);
        let a = in_dir(p, k);
        let r = in_dir(recs, k);
        assert forall|j: int| 0 <= j < r.len() implies (#[trigger] r[j]).path != path by {
            if j < a.len() {
                assert(r[j] == a[j]);
            } else {
                assert(r[j] == recs[recs.len() - 1]);
            }
        }
    }
}

proof fn lemma_first_match_prefix(a: Seq<FileView>, b: Seq<FileView>, path: Seq<char>, hash: Seq<char>)
    requires
        first_match(a, path, hash) is Some,
    ensures
        first_match(a + b, path, hash) == first_match(a, path, hash),
    decreases a.len(),
{
    assert((a + b)[0] == a[0]);
    if !(a[0].path == path && a[0].hash == hash) {
        assert((a + b).drop_first() =~= a.drop_first() + b);
        lemma_first_match_prefix(a.drop_first(), b, path, hash);
    }
}

proof fn lemma_first_match_after(a: Seq<FileView>, f: FileView)
    requires
        forall|j: int| 0 <= j < a.len() ==> (#[trigger] a[j]).path != f.path,
    ensures
        first_match(a.push(f), f.path, f.hash) == Some(f),
    decreases a.len(),
{
    if a.len() > 0 {
        assert(a.push(f).drop_first() =~= a.drop_first().push(f));
        assert forall|j: int| 0 <= j < a.drop_first().len() implies (#[trigger] a.drop_first()[j]).path != f.path by {
            assert(a.drop_first()[j] == a[j + 1]);
        }
        assert(a.push(f)[0] == a[0]);
        lemma_first_match_after(a.drop_first(), f);
    } else {
        assert(a.push(f)[0] == f);
    }
}

proof fn lemma_in_dir_finds(recs: Seq<FileView>, i: int)
    requires
        0 <= i < recs.len(),
        forall|a: int, b: int| 0 <= a < b < recs.len() ==> (#[trigger] recs[a]).path != (#[trigger] recs[b]).path,
    ensures
        first_match(in_dir(recs, dir_of(recs[i].path)), recs[i].path, recs[i].hash) == Some(recs[i]),
    decreases recs.len(),
{
    let k = dir_of(recs[i].path);
    let p = recs.drop_last();
    let f = recs[i];
    if i == recs.len() - 1 {
        assert forall|j: int| 0 <= j < p.len() implies (#[trigger] p[j]).path != f.path by {
            assert(p[j] == recs[j]);
        }
        lemma_in_dir_other_paths(p, k, f.path);
        assert(in_dir(recs, k) == in_dir(p, k).push(f));
        lemma_first_match_after(in_dir(p, k), f);
    } else {
        assert forall|a: int, b: int| 0 <= a < b < p.len() implies (#[trigger] p[a]).path != (#[trigger] p[b]).path by {
            assert(p[a] == recs[a] && p[b] == recs[b]);
        }
        assert(p[i] == f);
        lemma_in_dir_finds(p, i);
        let tail = if dir_of(recs.last().path) == k {
            seq![recs.last()]
        } else {
            Seq::<FileView>::empty()
        };
        assert(in_dir(recs, k) == in_dir(p, k) + tail);
        lemma_first_match_prefix(in_dir(p, k), tail, f.path, f.hash);
    }
}

/// A second run reuses, unchanged, the record that the first run wrote for a
/// file whose bytes did not change: taking the first run's manifest text into
/// an empty cache and looking up the file's path and digest gives that very
/// record, outcome included, so the classifier is not run again. This holds
/// of records with a verdict and with a path and digest that are plain
/// values, each path written once, under a header that is one non-empty line.
pub proof fn lemma_second_run_reuses(header: Seq<char>, recs: Seq<FileView>, i: int)
    requires
        plain_header(header),
        forall|j: int| 0 <= j < recs.len() ==> writable(#[trigger] recs[j]),
        forall|a: int, b: int| 0 <= a < b < recs.len() ==> (#[trigger] recs[a]).path != (#[trigger] recs[b]).path,
        0 <= i < recs.len(),
    ensures
        parse_manifest(manifest_text(header, recs)) matches Ok(m) && lookup(
            merge(Map::empty(), m),
            recs[i].path,
            recs[i].hash,
        ) == Some(recs[i]),
{
    lemma_written_records_read_back(header, recs);
    let m = build(recs);
    let k = dir_of(recs[i].path);
    assert(merge(Map::empty(), m) =~= m) by {
        assert forall|key: Seq<char>| #[trigger] m.contains_key(key) implies records_in(
            Map::<Seq<char>, Seq<FileView>>::empty(),
            key,
        ) + records_in(m, key) == m[key] by {
            assert(Seq::<FileView>::empty() + m[key] =~= m[key]);
        }
    }
    lemma_build_in_dir(recs, k);
    lemma_in_dir_finds(recs, i);
}

} // verus!
