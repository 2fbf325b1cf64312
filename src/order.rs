//! Canonical ordering of record files and the byte stream that is hashed to
//! name a record.

use vstd::prelude::*;
use vstd::utf8::encode_utf8;

verus! {

/// A file of a record: its name relative to the record and its contents.
#[derive(Debug, Clone)]
pub struct RecordFile {
    pub name: String,
    pub content: Vec<u8>,
}

/// What a record file is, mathematically.
pub struct FileView {
    pub name: Seq<char>,
    pub content: Seq<u8>,
}

impl View for RecordFile {
    type V = FileView;

    open spec fn view(&self) -> FileView {
        FileView { name: self.name@, content: self.content@ }
    }
}

pub open spec fn files_view(files: Seq<RecordFile>) -> Seq<FileView> {
    files.map_values(|f: RecordFile| f@)
}

/// Canonical form of a name's bytes: `\` is read as `/`.
pub open spec fn canonical(b: Seq<u8>) -> Seq<u8> {
    b.map_values(|c: u8| if c == 92u8 { 47u8 } else { c })
}

/// The bytes under which a file is ordered and hashed.
pub open spec fn canonical_key(name: Seq<char>) -> Seq<u8> {
    canonical(encode_utf8(name))
}

/// Strict byte-lexicographic order.
pub open spec fn lex_lt(a: Seq<u8>, b: Seq<u8>) -> bool
    decreases a.len(),
{
    if a.len() == 0 {
        b.len() > 0
    } else if b.len() == 0 {
        false
    } else if a[0] != b[0] {
        a[0] < b[0]
    } else {
        lex_lt(a.drop_first(), b.drop_first())
    }
}

/// Inserts `f` after every file whose key is not greater than its own.
pub open spec fn insert_ordered(s: Seq<FileView>, f: FileView) -> Seq<FileView>
    decreases s.len(),
{
    if s.len() == 0 {
        seq![f]
    } else if lex_lt(canonical_key(f.name), canonical_key(s[0].name)) {
        seq![f] + s
    } else {
        seq![s[0]] + insert_ordered(s.drop_first(), f)
    }
}

/// The files in canonical order: ascending by canonical key, files with equal
/// keys in the order given.
pub open spec fn canonical_order(s: Seq<FileView>) -> Seq<FileView>
    decreases s.len(),
{
    if s.len() == 0 {
        Seq::empty()
    } else {
        insert_ordered(canonical_order(s.drop_last()), s.last())
    }
}

/// A 64-bit length, most significant byte first.
pub open spec fn be_u64(n: u64) -> Seq<u8> {
    seq![
        (n >> 56u64) as u8,
        (n >> 48u64) as u8,
        (n >> 40u64) as u8,
        (n >> 32u64) as u8,
        (n >> 24u64) as u8,
        (n >> 16u64) as u8,
        (n >> 8u64) as u8,
        n as u8,
    ]
}

/// The bytes one file contributes to the hashed stream: its canonical name,
/// a NUL byte, the content length and the content.
pub open spec fn frame(f: FileView) -> Seq<u8> {
    canonical_key(f.name) + seq![0u8] + be_u64(f.content.len() as u64) + f.content
}

/// The frames of the files, one after the other.
pub open spec fn frames(s: Seq<FileView>) -> Seq<u8>
    decreases s.len(),
{
    if s.len() == 0 {
        Seq::empty()
    } else {
        frames(s.drop_last()) + frame(s.last())
    }
}

/// The byte stream hashed for a set of files.
pub open spec fn hashed_stream(s: Seq<FileView>) -> Seq<u8> {
    frames(canonical_order(s))
}

/// The canonical key of a file name.
pub fn canonical_name(name: &str) -> (r: Vec<u8>)
    ensures
        r@ == canonical_key(name@),
{
    let b = name.as_bytes();
    let mut r: Vec<u8> = Vec::new();
    let mut i: usize = 0;
    while i < b.len()
        invariant
            b@ == encode_utf8(name@),
            0 <= i <= b@.len(),
            r@ == canonical(b@.subrange(0, i as int)),
        decreases b@.len() - i,
    {
        let c = b[i];
        if c == 92u8 {
            r.push(47u8);
        } else {
            r.push(c);
        }
        assert(b@.subrange(0, i + 1) == b@.subrange(0, i as int).push(c));
        i = i + 1;
    }
    assert(b@.subrange(0, b@.len() as int) == b@);
    r
}

/// Compares two byte strings in lexicographic order.
pub fn lex_less(a: &Vec<u8>, b: &Vec<u8>) -> (r: bool)
    ensures
        r == lex_lt(a@, b@),
{
    let mut i: usize = 0;
    assert(a@.subrange(0, a@.len() as int) == a@);
    assert(b@.subrange(0, b@.len() as int) == b@);
    while i < a.len() && i < b.len() && a[i] == b[i]
        invariant
            0 <= i <= a@.len(),
            i <= b@.len(),
            lex_lt(a@, b@) == lex_lt(a@.subrange(i as int, a@.len() as int), b@.subrange(i as int, b@.len() as int)),
        decreases a@.len() - i,
    {
        proof {
            let sa = a@.subrange(i as int, a@.len() as int);
            let sb = b@.subrange(i as int, b@.len() as int);
            assert(sa.drop_first() == a@.subrange(i + 1, a@.len() as int));
            assert(sb.drop_first() == b@.subrange(i + 1, b@.len() as int));
        }
        i = i + 1;
    }
    if i == a.len() {
        i < b.len()
    } else if i == b.len() {
        false
    } else {
        a[i] < b[i]
    }
}

struct Keyed {
    key: Vec<u8>,
    file: RecordFile,
}

spec fn keyed_files(s: Seq<Keyed>) -> Seq<FileView> {
    s.map_values(|k: Keyed| k.file@)
}

spec fn keys_match(s: Seq<Keyed>) -> bool {
    forall|i: int| 0 <= i < s.len() ==> (#[trigger] s[i]).key@ == canonical_key(s[i].file.name@)
}

proof fn lemma_insert_at(s: Seq<FileView>, f: FileView, j: int)
    requires
        0 <= j <= s.len(),
        forall|k: int| 0 <= k < j ==> !lex_lt(canonical_key(f.name), canonical_key(#[trigger] s[k].name)),
        j < s.len() ==> lex_lt(canonical_key(f.name), canonical_key(s[j].name)),
    ensures
        insert_ordered(s, f) == s.subrange(0, j).push(f) + s.subrange(j, s.len() as int),
    decreases s.len(),
{
    if s.len() == 0 {
        assert(s.subrange(0, j).push(f) + s.subrange(j, s.len() as int) =~= seq![f]);
    } else if j == 0 {
        assert(s.subrange(0, j).push(f) + s.subrange(j, s.len() as int) =~= seq![f] + s);
    } else {
        let t = s.drop_first();
        assert forall|k: int| 0 <= k < j - 1 implies !lex_lt(canonical_key(f.name), canonical_key(#[trigger] t[k].name)) by {
            assert(t[k] == s[k + 1]);
        }
        if j - 1 < t.len() {
            assert(t[j - 1] == s[j]);
        }
        lemma_insert_at(t, f, j - 1);
        assert(seq![s[0]] + (t.subrange(0, j - 1).push(f) + t.subrange(j - 1, t.len() as int))
            =~= s.subrange(0, j).push(f) + s.subrange(j, s.len() as int));
    }
}

/// Puts the files in canonical order (see `canonical_order`).
pub fn order_files(files: Vec<RecordFile>) -> (r: Vec<RecordFile>)
    ensures
        files_view(r@) == canonical_order(files_view(files@)),
{
    let ghost orig = files_view(files@);
    let n = files.len();
    let mut rest = files;
    let mut sorted: Vec<Keyed> = Vec::new();
    let mut i: usize = 0;
    while rest.len() > 0
        invariant
            n == orig.len(),
            i <= n,
            rest@.len() == n - i,
            files_view(rest@) == orig.subrange(i as int, n as int),
            keys_match(sorted@),
            keyed_files(sorted@) == canonical_order(orig.subrange(0, i as int)),
        decreases rest@.len(),
    {
        let ghost old_rest = rest@;
        assert(files_view(rest@)[0] == orig[i as int]);
        let f = rest.remove(0);
        let ghost before = keyed_files(sorted@);
        proof {
            assert forall|k: int| 0 <= k < rest@.len() implies files_view(rest@)[k] == orig.subrange(i + 1, n as int)[k] by {
                assert(rest@[k] == old_rest[k + 1]);
                assert(files_view(old_rest)[k + 1] == orig.subrange(i as int, n as int)[k + 1]);
            }
            assert(files_view(rest@) =~= orig.subrange(i + 1, n as int));
            assert(orig.subrange(0, i + 1).drop_last() =~= orig.subrange(0, i as int));
            assert(orig.subrange(0, i + 1).last() == f@);
        }
        let key = canonical_name(f.name.as_str());
        let mut j: usize = 0;
        while j < sorted.len() && !lex_less(&key, &sorted[j].key)
            invariant
                0 <= j <= sorted@.len(),
                keys_match(sorted@),
                before == keyed_files(sorted@),
                key@ == canonical_key(f.name@),
                forall|k: int| 0 <= k < j ==> !lex_lt(canonical_key(f@.name), canonical_key(#[trigger] before[k].name)),
            decreases sorted@.len() - j,
        {
            j = j + 1;
        }
        proof {
            lemma_insert_at(before, f@, j as int);
        }
        sorted.insert(j, Keyed { key, file: f });
        proof {
            assert(keyed_files(sorted@) =~= before.subrange(0, j as int).push(f@) + before.subrange(j as int, before.len() as int));
        }
        i = i + 1;
    }
    assert(orig.subrange(0, n as int) =~= orig);
    let ghost total = keyed_files(sorted@);
    let mut out: Vec<RecordFile> = Vec::new();
    while sorted.len() > 0
        invariant
            files_view(out@) + keyed_files(sorted@) =~= total,
        decreases sorted@.len(),
    {
        let k = sorted.remove(0);
        proof {
            assert(files_view(out@.push(k.file)) =~= files_view(out@).push(k.file@));
        }
        out.push(k.file);
    }
    out
}

/// What of a file goes into the hashed stream: its canonical key and contents.
pub open spec fn keyed(s: Seq<FileView>) -> Seq<(Seq<u8>, Seq<u8>)> {
    s.map_values(|f: FileView| (canonical_key(f.name), f.content))
}

/// No two files share a canonical name.
pub open spec fn distinct_keys(s: Seq<FileView>) -> bool {
    forall|i: int, j: int|
        0 <= i < s.len() && 0 <= j < s.len() && i != j
            ==> canonical_key(#[trigger] s[i].name) != canonical_key(#[trigger] s[j].name)
}

pub open spec fn sorted_keys(s: Seq<FileView>) -> bool {
    forall|i: int, j: int|
        0 <= i < j < s.len() ==> !lex_lt(canonical_key(#[trigger] s[j].name), canonical_key(#[trigger] s[i].name))
}

pub open spec fn strictly_increasing(s: Seq<(Seq<u8>, Seq<u8>)>) -> bool {
    forall|i: int, j: int| 0 <= i < j < s.len() ==> lex_lt(#[trigger] s[i].0, #[trigger] s[j].0)
}

proof fn lemma_lex_irreflexive(a: Seq<u8>)
    ensures
        !lex_lt(a, a),
    decreases a.len(),
{
    if a.len() > 0 {
        lemma_lex_irreflexive(a.drop_first());
    }
}

proof fn lemma_lex_total(a: Seq<u8>, b: Seq<u8>)
    ensures
        a != b ==> lex_lt(a, b) || lex_lt(b, a),
    decreases a.len(),
{
    if a.len() > 0 && b.len() > 0 && a[0] == b[0] {
        lemma_lex_total(a.drop_first(), b.drop_first());
        if a.drop_first() == b.drop_first() {
            assert(a =~= seq![a[0]] + a.drop_first());
            assert(b =~= seq![b[0]] + b.drop_first());
        }
    } else if a.len() == 0 && b.len() == 0 {
        assert(a =~= b);
    }
}

proof fn lemma_lex_asymmetric(a: Seq<u8>, b: Seq<u8>)
    ensures
        lex_lt(a, b) ==> !lex_lt(b, a),
    decreases a.len(),
{
    if a.len() > 0 && b.len() > 0 && a[0] == b[0] {
        lemma_lex_asymmetric(a.drop_first(), b.drop_first());
    }
}

proof fn lemma_lex_transitive(a: Seq<u8>, b: Seq<u8>, c: Seq<u8>)
    requires
        lex_lt(a, b),
        lex_lt(b, c),
    ensures
        lex_lt(a, c),
    decreases a.len(),
{
    if a.len() > 0 && a[0] == b[0] && b[0] == c[0] {
        lemma_lex_transitive(a.drop_first(), b.drop_first(), c.drop_first());
    }
}

/// `insert_ordered` puts the file right after the files whose keys are not
/// greater than its own.
proof fn lemma_insert_shape(s: Seq<FileView>, f: FileView) -> (j: int)
    ensures
        0 <= j <= s.len(),
        insert_ordered(s, f) == s.subrange(0, j).push(f) + s.subrange(j, s.len() as int),
        forall|k: int| 0 <= k < j ==> !lex_lt(canonical_key(f.name), canonical_key(#[trigger] s[k].name)),
        j < s.len() ==> lex_lt(canonical_key(f.name), canonical_key(s[j].name)),
    decreases s.len(),
{
    if s.len() == 0 {
        assert(insert_ordered(s, f) =~= s.subrange(0, 0).push(f) + s.subrange(0, 0));
        0
    } else if lex_lt(canonical_key(f.name), canonical_key(s[0].name)) {
        assert(insert_ordered(s, f) =~= s.subrange(0, 0).push(f) + s.subrange(0, s.len() as int));
        0
    } else {
        let r = s.drop_first();
        let j1 = lemma_insert_shape(r, f);
        assert(insert_ordered(s, f) =~= s.subrange(0, j1 + 1).push(f) + s.subrange(j1 + 1, s.len() as int));
        assert forall|k: int| 0 <= k < j1 + 1 implies !lex_lt(canonical_key(f.name), canonical_key(#[trigger] s[k].name)) by {
            if k > 0 {
                assert(s[k] == r[k - 1]);
            }
        }
        if j1 + 1 < s.len() {
            assert(s[j1 + 1] == r[j1]);
        }
        j1 + 1
    }
}

proof fn lemma_insert_sorted(s: Seq<FileView>, f: FileView)
    requires
        sorted_keys(s),
    ensures
        sorted_keys(insert_ordered(s, f)),
{
    let j = lemma_insert_shape(s, f);
    let t = insert_ordered(s, f);
    let kf = canonical_key(f.name);
    assert forall|i: int, l: int| 0 <= i < l < t.len()
        implies !lex_lt(canonical_key(#[trigger] t[l].name), canonical_key(#[trigger] t[i].name)) by {
        let si = if i < j { i } else { i - 1 };
        let sl = if l < j { l } else { l - 1 };
        if i != j && l != j {
            assert(t[i] == s[si]);
            assert(t[l] == s[sl]);
            if si < sl {
                assert(!lex_lt(canonical_key(s[sl].name), canonical_key(s[si].name)));
            } else {
                lemma_lex_irreflexive(canonical_key(s[si].name));
            }
        } else if i == j {
            assert(t[i] == f);
            assert(t[l] == s[l - 1]);
            let kl = canonical_key(s[l - 1].name);
            let kj = canonical_key(s[j].name);
            assert(lex_lt(kf, kj));
            if l - 1 > j {
                assert(!lex_lt(kl, kj));
                lemma_lex_total(kl, kj);
                if kl != kj {
                    lemma_lex_transitive(kf, kj, kl);
                }
            }
            lemma_lex_asymmetric(kf, kl);
        } else {
            assert(t[l] == f);
            assert(t[i] == s[i]);
        }
    }
}

/// Canonical ordering of files with distinct keys is a sorted rearrangement
/// of them.
proof fn lemma_canonical_order_props(s: Seq<FileView>)
    requires
        distinct_keys(s),
    ensures
        sorted_keys(canonical_order(s)),
        distinct_keys(canonical_order(s)),
        canonical_order(s).len() == s.len(),
        forall|x: (Seq<u8>, Seq<u8>)| keyed(canonical_order(s)).contains(x) <==> keyed(s).contains(x),
    decreases s.len(),
{
    if s.len() > 0 {
        let p = s.drop_last();
        let f = s.last();
        let kf = canonical_key(f.name);
        assert(distinct_keys(p)) by {
            assert forall|i: int, j: int| 0 <= i < p.len() && 0 <= j < p.len() && i != j
                implies canonical_key(#[trigger] p[i].name) != canonical_key(#[trigger] p[j].name) by {
                assert(p[i] == s[i] && p[j] == s[j]);
            }
        }
        lemma_canonical_order_props(p);
        let c = canonical_order(p);
        let t = canonical_order(s);
        assert(t == insert_ordered(c, f));
        let j = lemma_insert_shape(c, f);
        lemma_insert_sorted(c, f);
        // no file of `p` shares the key of `f`
        assert forall|k: int| 0 <= k < c.len() implies canonical_key(#[trigger] c[k].name) != kf by {
            assert(keyed(c)[k] == (canonical_key(c[k].name), c[k].content));
            assert(keyed(c).contains(keyed(c)[k]));
            assert(keyed(p).contains(keyed(c)[k]));
            let m = choose|m: int| 0 <= m < keyed(p).len() && keyed(p)[m] == keyed(c)[k];
            assert(keyed(p).len() == p.len());
            assert(p[m] == s[m]);
            assert(keyed(p)[m] == (canonical_key(p[m].name), p[m].content));
            assert(m != s.len() - 1);
            assert(canonical_key(s[m].name) != canonical_key(s[s.len() - 1].name));
        }
        assert forall|a: int, b: int| 0 <= a < t.len() && 0 <= b < t.len() && a != b
            implies canonical_key(#[trigger] t[a].name) != canonical_key(#[trigger] t[b].name) by {
            let ca = if a < j { a } else { a - 1 };
            let cb = if b < j { b } else { b - 1 };
            if a != j {
                assert(t[a] == c[ca]);
            }
            if b != j {
                assert(t[b] == c[cb]);
            }
        }
        assert forall|x: (Seq<u8>, Seq<u8>)| keyed(t).contains(x) <==> keyed(s).contains(x) by {
            if keyed(t).contains(x) {
                let k = choose|k: int| 0 <= k < keyed(t).len() && keyed(t)[k] == x;
                if k == j {
                    assert(keyed(s)[s.len() - 1] == x);
                } else {
                    let ck = if k < j { k } else { k - 1 };
                    assert(t[k] == c[ck]);
                    assert(keyed(c)[ck] == x);
                    assert(keyed(c).contains(x));
                    assert(keyed(p).contains(x));
                    let m = choose|m: int| 0 <= m < keyed(p).len() && keyed(p)[m] == x;
                    assert(keyed(p).len() == p.len());
                    assert(p[m] == s[m]);
                    assert(keyed(p)[m] == (canonical_key(p[m].name), p[m].content));
                    assert(keyed(s)[m] == x);
                }
            }
            if keyed(s).contains(x) {
                let m = choose|m: int| 0 <= m < keyed(s).len() && keyed(s)[m] == x;
                if m == s.len() - 1 {
                    assert(keyed(t)[j] == x);
                } else {
                    assert(keyed(p)[m] == x);
                    assert(keyed(p).contains(x));
                    let k = choose|k: int| 0 <= k < keyed(c).len() && keyed(c)[k] == x;
                    let tk = if k < j { k } else { k + 1 };
                    assert(t[tk] == c[k]);
                    assert(keyed(t)[tk] == x);
                }
            }
        }
    } else {
        assert(keyed(canonical_order(s)) =~= keyed(s));
    }
}

proof fn lemma_strictly_increasing(s: Seq<FileView>)
    requires
        sorted_keys(s),
        distinct_keys(s),
    ensures
        strictly_increasing(keyed(s)),
{
    assert forall|i: int, j: int| 0 <= i < j < keyed(s).len()
        implies lex_lt(#[trigger] keyed(s)[i].0, #[trigger] keyed(s)[j].0) by {
        lemma_lex_total(canonical_key(s[i].name), canonical_key(s[j].name));
    }
}

proof fn lemma_increasing_unique(x: Seq<(Seq<u8>, Seq<u8>)>, y: Seq<(Seq<u8>, Seq<u8>)>)
    requires
        strictly_increasing(x),
        strictly_increasing(y),
        forall|e: (Seq<u8>, Seq<u8>)| x.contains(e) <==> y.contains(e),
    ensures
        x == y,
    decreases x.len(),
{
    if x.len() == 0 {
        if y.len() > 0 {
            assert(y.contains(y[0]));
        }
        assert(x =~= y);
    } else {
        assert(x.contains(x[0]));
        let k = choose|k: int| 0 <= k < y.len() && y[k] == x[0];
        assert(y.contains(y[0]));
        let m = choose|m: int| 0 <= m < x.len() && x[m] == y[0];
        if k > 0 {
            assert(lex_lt(y[0].0, y[k].0));
            if m > 0 {
                assert(lex_lt(x[0].0, x[m].0));
                lemma_lex_asymmetric(x[0].0, x[m].0);
            } else {
                lemma_lex_irreflexive(x[0].0);
            }
        }
        let x1 = x.drop_first();
        let y1 = y.drop_first();
        assert forall|e: (Seq<u8>, Seq<u8>)| x1.contains(e) <==> y1.contains(e) by {
            if x1.contains(e) {
                let a = choose|a: int| 0 <= a < x1.len() && x1[a] == e;
                assert(x[a + 1] == e);
                assert(x.contains(e));
                let b = choose|b: int| 0 <= b < y.len() && y[b] == e;
                if b == 0 {
                    assert(lex_lt(x[0].0, x[a + 1].0));
                    lemma_lex_irreflexive(x[0].0);
                }
                assert(y1[b - 1] == e);
            }
            if y1.contains(e) {
                let b = choose|b: int| 0 <= b < y1.len() && y1[b] == e;
                assert(y[b + 1] == e);
                assert(y.contains(e));
                let a = choose|a: int| 0 <= a < x.len() && x[a] == e;
                if a == 0 {
                    assert(lex_lt(y[0].0, y[b + 1].0));
                    lemma_lex_irreflexive(y[0].0);
                }
                assert(x1[a - 1] == e);
            }
        }
        lemma_increasing_unique(x1, y1);
        assert(x =~= seq![x[0]] + x1);
        assert(y =~= seq![y[0]] + y1);
    }
}

proof fn lemma_frames_of_keyed(s1: Seq<FileView>, s2: Seq<FileView>)
    requires
        keyed(s1) == keyed(s2),
    ensures
        frames(s1) == frames(s2),
    decreases s1.len(),
{
    assert(keyed(s1).len() == s1.len());
    assert(keyed(s2).len() == s2.len());
    if s1.len() > 0 {
        assert forall|i: int| 0 <= i < s1.len() - 1 implies keyed(s1.drop_last())[i] == keyed(s2.drop_last())[i] by {
            assert(keyed(s1)[i] == keyed(s2)[i]);
        }
        assert(keyed(s1.drop_last()) =~= keyed(s2.drop_last()));
        lemma_frames_of_keyed(s1.drop_last(), s2.drop_last());
        assert(keyed(s1)[s1.len() - 1] == keyed(s2)[s2.len() - 1]);
        assert(canonical_key(s1.last().name) == canonical_key(s2.last().name));
        assert(s1.last().content == s2.last().content);
        assert(frame(s1.last()) == frame(s2.last()));
    }
}

/// Two lists of files that hold the same files, in any order and with `\`
/// written for `/` anywhere in names, are hashed from the same stream, and
/// so get the same hash. (Files within one list have distinct names once
/// `\` is read as `/`.)
pub proof fn lemma_hash_ignores_order_and_separators(a: Seq<FileView>, b: Seq<FileView>)
    requires
        distinct_keys(a),
        distinct_keys(b),
        forall|x: (Seq<u8>, Seq<u8>)| keyed(a).contains(x) <==> keyed(b).contains(x),
    ensures
        hashed_stream(a) == hashed_stream(b),
        forall|h: crate::codec::HashingAlgorithm| h.spec_hash(hashed_stream(a)) == h.spec_hash(hashed_stream(b)),
{
    lemma_canonical_order_props(a);
    lemma_canonical_order_props(b);
    let ca = canonical_order(a);
    let cb = canonical_order(b);
    lemma_strictly_increasing(ca);
    lemma_strictly_increasing(cb);
    assert forall|x: (Seq<u8>, Seq<u8>)| keyed(ca).contains(x) <==> keyed(cb).contains(x) by {
        assert(keyed(ca).contains(x) <==> keyed(a).contains(x));
        assert(keyed(cb).contains(x) <==> keyed(b).contains(x));
    }
    lemma_increasing_unique(keyed(ca), keyed(cb));
    lemma_frames_of_keyed(ca, cb);
}

} // verus!
