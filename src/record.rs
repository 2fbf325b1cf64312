//! Building a record: parent links, path sanitization, hashing and naming.

use vstd::prelude::*;
use vstd::string::StringExecFns;

use crate::codec::{Encoding, HashingAlgorithm};
use crate::error::RepositoryError;
use crate::order::{
    be_u64, canonical_key, insert_ordered, lex_lt, canonical_name, canonical_order, files_view, frame, frames,
    hashed_stream, order_files, FileView, RecordFile,
};
use crate::pathguard::{normalized, sanitize, stays_inside};

verus! {

/// Name of the directory, inside a record, that holds links to its parents.
pub open spec fn prev_prefix() -> Seq<char> {
    seq!['.', 'p', 'r', 'e', 'v', '/']
}

/// The zero-byte file that links a record to the parent named `tip`.
pub open spec fn parent_link_view(tip: Seq<char>) -> FileView {
    FileView { name: prev_prefix() + tip, content: Seq::empty() }
}

pub open spec fn parent_links_view(tips: Seq<Seq<char>>) -> Seq<FileView> {
    tips.map_values(|t: Seq<char>| parent_link_view(t))
}

/// All files that make up a record: the given ones, followed by one link per
/// parent when parents are linked.
pub open spec fn record_files(files: Seq<FileView>, tips: Seq<Seq<char>>, link_parents: bool) -> Seq<FileView> {
    if link_parents {
        files + parent_links_view(tips)
    } else {
        files
    }
}

/// A file to be written into a record directory, at the given path components.
#[derive(Debug)]
pub struct PlannedFile {
    pub parts: Vec<String>,
    pub content: Vec<u8>,
}

/// Everything needed to publish a record: its hash, its name, and its files in
/// canonical order.
#[derive(Debug)]
pub struct RecordPlan {
    pub hash: Vec<u8>,
    pub encoded_hash: String,
    pub files: Vec<PlannedFile>,
}

/// The link file pointing at the parent record named `tip`.
pub fn parent_link(tip: &String) -> (r: RecordFile)
    ensures
        r@ == parent_link_view(tip@),
{
    proof {
        reveal_strlit(".prev/");
    }
    let name = String::from_str(".prev/").concat(tip.as_str());
    let r = RecordFile { name, content: Vec::new() };
    assert(".prev/"@ =~= prev_prefix());
    assert(r@.name =~= parent_link_view(tip@).name);
    assert(r@.content =~= parent_link_view(tip@).content);
    r
}

/// The big-endian bytes of a 64-bit length.
pub fn be_bytes(n: u64) -> (r: Vec<u8>)
    ensures
        r@ == be_u64(n),
{
    let r = vec![
        (n >> 56u64) as u8,
        (n >> 48u64) as u8,
        (n >> 40u64) as u8,
        (n >> 32u64) as u8,
        (n >> 24u64) as u8,
        (n >> 16u64) as u8,
        (n >> 8u64) as u8,
        n as u8,
    ];
    assert(r@ =~= be_u64(n));
    r
}

fn append_bytes(out: &mut Vec<u8>, b: &Vec<u8>)
    ensures
        final(out)@ == old(out)@ + b@,
{
    let mut i: usize = 0;
    while i < b.len()
        invariant
            0 <= i <= b@.len(),
            out@ == old(out)@ + b@.subrange(0, i as int),
        decreases b@.len() - i,
    {
        out.push(b[i]);
        assert(b@.subrange(0, i + 1) == b@.subrange(0, i as int).push(b@[i as int]));
        i = i + 1;
    }
    assert(b@.subrange(0, b@.len() as int) == b@);
}

/// The frames of the files, in the order given (see `frames`).
pub fn encode_frames(files: &Vec<RecordFile>) -> (r: Vec<u8>)
    ensures
        r@ == frames(files_view(files@)),
{
    let mut out: Vec<u8> = Vec::new();
    let mut i: usize = 0;
    while i < files.len()
        invariant
            0 <= i <= files@.len(),
            out@ == frames(files_view(files@).subrange(0, i as int)),
        decreases files@.len() - i,
    {
        let f = &files[i];
        let key = canonical_name(f.name.as_str());
        append_bytes(&mut out, &key);
        out.push(0u8);
        let len = be_bytes(f.content.len() as u64);
        append_bytes(&mut out, &len);
        append_bytes(&mut out, &f.content);
        proof {
            let s = files_view(files@).subrange(0, i + 1);
            assert(s.drop_last() =~= files_view(files@).subrange(0, i as int));
            assert(s.last() == f@);
            assert(out@ =~= frames(s.drop_last()) + frame(s.last()));
        }
        i = i + 1;
    }
    assert(files_view(files@).subrange(0, files@.len() as int) =~= files_view(files@));
    out
}

/// Computes the record that `files` (with links to `tips` when `link_parents`
/// holds) make. The record's hash is the hash of the files' frames in
/// canonical order, and its name is the encoded hash. Fails with
/// `PathPrefixError` exactly when a file name would escape the record.
pub fn plan_record(
    algorithm: HashingAlgorithm,
    encoding: Encoding,
    files: Vec<RecordFile>,
    tips: &Vec<String>,
    link_parents: bool,
) -> (r: Result<RecordPlan, RepositoryError>)
    ensures
        ({
            let all = record_files(files_view(files@), tips@.map_values(|t: String| t@), link_parents);
            &&& r is Ok <==> (forall|i: int| 0 <= i < all.len() ==> stays_inside(#[trigger] all[i].name))
            &&& r is Err ==> r->Err_0 is PathPrefixError
            &&& r is Ok ==> {
                let p = r->Ok_0;
                &&& p.hash@ == algorithm.spec_hash(hashed_stream(all))
                &&& p.encoded_hash@ == encoding.spec_encode(p.hash@)
                &&& p.files@.len() == all.len()
                &&& forall|i: int| 0 <= i < all.len() ==> {
                    &&& (#[trigger] p.files@[i]).content@ == canonical_order(all)[i].content
                    &&& p.files@[i].parts@.map_values(|s: String| s@) == normalized(canonical_order(all)[i].name)
                }
            }
        }),
{
    let ghost tips_v = tips@.map_values(|t: String| t@);
    let mut all = files;
    let ghost given = files_view(all@);
    if link_parents {
        let mut k: usize = 0;
        while k < tips.len()
            invariant
                0 <= k <= tips@.len(),
                tips_v == tips@.map_values(|t: String| t@),
                given == files_view(files@),
                files_view(all@) =~= given + parent_links_view(tips_v.subrange(0, k as int)),
            decreases tips@.len() - k,
        {
            let link = parent_link(&tips[k]);
            proof {
                assert(parent_links_view(tips_v.subrange(0, k + 1)) =~= parent_links_view(tips_v.subrange(0, k as int)).push(link@));
                assert(files_view(all@.push(link)) =~= files_view(all@).push(link@));
            }
            all.push(link);
            k = k + 1;
        }
        assert(tips_v.subrange(0, tips@.len() as int) =~= tips_v);
    }
    let ghost all_v = files_view(all@);
    assert(all_v == record_files(given, tips_v, link_parents));
    let ordered = order_files(all);
    let ghost ord_v = files_view(ordered@);
    proof {
        lemma_order_keeps_names(all_v);
    }
    let mut planned: Vec<PlannedFile> = Vec::new();
    let mut i: usize = 0;
    while i < ordered.len()
        invariant
            0 <= i <= ordered@.len(),
            ord_v == files_view(ordered@),
            ord_v == canonical_order(all_v),
            all_v == record_files(files_view(files@), tips@.map_values(|t: String| t@), link_parents),
            planned@.len() == i,
            forall|j: int| 0 <= j < i ==> {
                &&& (#[trigger] planned@[j]).content@ == ord_v[j].content
                &&& planned@[j].parts@.map_values(|s: String| s@) == normalized(ord_v[j].name)
            },
            forall|j: int| 0 <= j < i ==> stays_inside(#[trigger] ord_v[j].name),
        decreases ordered@.len() - i,
    {
        let f = &ordered[i];
        match sanitize(f.name.as_str()) {
            Ok(parts) => {
                planned.push(PlannedFile { parts, content: f.content.clone() });
            },
            Err(e) => {
                proof {
                    lemma_order_keeps_names(all_v);
                    assert(!stays_inside(ord_v[i as int].name));
                    assert(canonical_order(all_v)[i as int].name == ord_v[i as int].name);
                    assert(names(all_v).contains(ord_v[i as int].name));
                    let j = choose|j: int| 0 <= j < names(all_v).len() && names(all_v)[j] == ord_v[i as int].name;
                    assert(!stays_inside(all_v[j].name));
                }
                return Err(e);
            },
        }
        i = i + 1;
    }
    proof {
        lemma_order_keeps_names(all_v);
        assert forall|j: int| 0 <= j < all_v.len() implies stays_inside(#[trigger] all_v[j].name) by {
            assert(names(ord_v).contains(all_v[j].name));
            let k = choose|k: int| 0 <= k < names(ord_v).len() && names(ord_v)[k] == all_v[j].name;
            assert(stays_inside(ord_v[k].name));
        }
    }
    let stream = encode_frames(&ordered);
    let hash = algorithm.hash(stream.as_slice());
    assert(hash@.len() <= usize::MAX / 512);
    let encoded_hash = encoding.encode(hash.as_slice());
    Ok(RecordPlan { hash, encoded_hash, files: planned })
}

pub open spec fn names(s: Seq<FileView>) -> Seq<Seq<char>> {
    s.map_values(|f: FileView| f.name)
}

/// Inserting a file keeps every name present and adds only the new one.
proof fn lemma_insert_names(s: Seq<FileView>, f: FileView)
    ensures
        insert_ordered(s, f).len() == s.len() + 1,
        forall|j: int| 0 <= j < s.len() ==> names(insert_ordered(s, f)).contains(#[trigger] s[j].name),
        names(insert_ordered(s, f)).contains(f.name),
        forall|k: int| 0 <= k < insert_ordered(s, f).len() ==> (
            #[trigger] insert_ordered(s, f)[k].name == f.name
            || names(s).contains(insert_ordered(s, f)[k].name)),
    decreases s.len(),
{
    let t = insert_ordered(s, f);
    if s.len() == 0 {
        assert(names(t)[0] == f.name);
    } else if lex_lt(canonical_key(f.name), canonical_key(s[0].name)) {
        assert(t =~= seq![f] + s);
        assert(names(t)[0] == f.name);
        assert forall|j: int| 0 <= j < s.len() implies names(t).contains(#[trigger] s[j].name) by {
            assert(names(t)[j + 1] == s[j].name);
        }
        assert forall|k: int| 0 <= k < t.len() implies (#[trigger] t[k].name == f.name
            || names(s).contains(t[k].name)) by {
            if k > 0 {
                assert(names(s)[k - 1] == t[k].name);
            }
        }
    } else {
        let r = s.drop_first();
        lemma_insert_names(r, f);
        let u = insert_ordered(r, f);
        assert(t =~= seq![s[0]] + u);
        assert forall|j: int| 0 <= j < s.len() implies names(t).contains(#[trigger] s[j].name) by {
            if j == 0 {
                assert(names(t)[0] == s[0].name);
            } else {
                assert(s[j] == r[j - 1]);
                assert(names(u).contains(r[j - 1].name));
                let k = choose|k: int| 0 <= k < names(u).len() && names(u)[k] == r[j - 1].name;
                assert(names(t)[k + 1] == names(u)[k]);
            }
        }
        let k0 = choose|k: int| 0 <= k < names(u).len() && names(u)[k] == f.name;
        assert(names(t)[k0 + 1] == names(u)[k0]);
        assert forall|k: int| 0 <= k < t.len() implies (#[trigger] t[k].name == f.name
            || names(s).contains(t[k].name)) by {
            if k == 0 {
                assert(names(s)[0] == t[0].name);
            } else {
                assert(t[k] == u[k - 1]);
                if u[k - 1].name != f.name {
                    assert(names(r).contains(u[k - 1].name));
                    let j = choose|j: int| 0 <= j < names(r).len() && names(r)[j] == u[k - 1].name;
                    assert(names(s)[j + 1] == names(r)[j]);
                }
            }
        }
    }
}

/// Canonical ordering neither loses nor invents file names.
proof fn lemma_order_keeps_names(s: Seq<FileView>)
    ensures
        canonical_order(s).len() == s.len(),
        forall|j: int| 0 <= j < s.len() ==> names(canonical_order(s)).contains(#[trigger] s[j].name),
        forall|k: int| 0 <= k < canonical_order(s).len() ==> names(s).contains(#[trigger] canonical_order(s)[k].name),
    decreases s.len(),
{
    if s.len() > 0 {
        let p = s.drop_last();
        lemma_order_keeps_names(p);
        let c = canonical_order(p);
        lemma_insert_names(c, s.last());
        let t = canonical_order(s);
        assert(t == insert_ordered(c, s.last()));
        assert forall|j: int| 0 <= j < s.len() implies names(t).contains(#[trigger] s[j].name) by {
            if j < s.len() - 1 {
                assert(s[j] == p[j]);
                assert(names(c).contains(p[j].name));
                let k1 = choose|k: int| 0 <= k < names(c).len() && names(c)[k] == p[j].name;
                assert(c[k1].name == p[j].name);
            }
        }
        assert forall|k: int| 0 <= k < t.len() implies names(s).contains(#[trigger] t[k].name) by {
            if t[k].name == s.last().name {
                assert(names(s)[s.len() - 1] == s.last().name);
            } else {
                assert(names(c).contains(t[k].name));
                let k1 = choose|j: int| 0 <= j < names(c).len() && names(c)[j] == t[k].name;
                assert(c[k1].name == t[k].name);
                assert(names(p).contains(c[k1].name));
                let j1 = choose|j: int| 0 <= j < names(p).len() && names(p)[j] == c[k1].name;
                assert(names(s)[j1] == names(p)[j1]);
            }
        }
    }
}

} // verus!
