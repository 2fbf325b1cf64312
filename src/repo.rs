//! Repository configuration, version validation and schema upgrades.

use vstd::prelude::*;
use vstd::string::StringExecFns;
use std::collections::HashMap;
use vstd::utf8::encode_utf8;

use crate::codec::{Encoding, HashingAlgorithm, IdGenerator};
use crate::error::{RepositoryError, Upgrade};
use crate::pathguard::{segments, split_acc};

verus! {

/// The repository format version this library reads and writes.
pub open spec fn supported_version() -> Seq<char> {
    seq!['1']
}

/// Repository configuration.
#[derive(Debug, Clone)]
pub struct Config {
    /// Hashing algorithm used
    pub hashing_algorithm: HashingAlgorithm,
    /// Encoding used
    pub encoding: Encoding,
    /// ID generator
    pub id_generator: IdGenerator,
    /// Repository version
    pub version: String,
    /// Keys this library does not know, kept as they were read
    pub extra: HashMap<String, serde_json::Value>,
}

/// The supported version, as a string.
pub fn current_version() -> (r: String)
    ensures
        r@ == supported_version(),
{
    proof {
        reveal_strlit("1");
    }
    String::from_str("1")
}

impl Config {
    /// A configuration of the current version with the given choices and no
    /// extra keys.
    pub fn new(hashing_algorithm: HashingAlgorithm, encoding: Encoding, id_generator: IdGenerator) -> (r: Self)
        ensures
            r.hashing_algorithm == hashing_algorithm,
            r.encoding == encoding,
            r.id_generator == id_generator,
            r.version@ == supported_version(),
            r.extra@.len() == 0,
    {
        Config {
            hashing_algorithm,
            encoding,
            id_generator,
            version: current_version(),
            extra: HashMap::new(),
        }
    }

    /// Returns hashing algorithm
    pub fn hashing_algorithm(&self) -> (r: &HashingAlgorithm)
        ensures
            *r == self.hashing_algorithm,
    {
        &self.hashing_algorithm
    }

    /// Returns encoding
    pub fn encoding(&self) -> (r: &Encoding)
        ensures
            *r == self.encoding,
    {
        &self.encoding
    }

    /// Accepts the configuration only if it is of the supported version.
    pub fn check_version(&self) -> (r: Result<(), RepositoryError>)
        ensures
            r is Ok <==> self.version@ == supported_version(),
            r is Err ==> (r->Err_0 matches RepositoryError::InvalidVersion { expected, got }
                && expected@ == supported_version() && got@ == self.version@),
    {
        let expected = current_version();
        if self.version == expected {
            Ok(())
        } else {
            Err(RepositoryError::InvalidVersion { expected, got: self.version.clone() })
        }
    }
}

impl Default for Config {
    fn default() -> (r: Self)
        ensures
            r.hashing_algorithm == HashingAlgorithm::Blake2b,
            r.encoding == Encoding::Base32,
            r.id_generator == IdGenerator::Uuid,
            r.version@ == supported_version(),
            r.extra@.len() == 0,
    {
        Config::new(HashingAlgorithm::Blake2b, Encoding::Base32, IdGenerator::Uuid)
    }
}

/// What has to be done to the directories of a repository before it opens.
#[derive(PartialEq, Eq, Debug, Clone, Copy, Structural)]
pub enum UpgradeStep {
    /// The layout is current.
    Nothing,
    /// Rename the legacy `issues/` directory to `items/`.
    RenameIssues,
    /// Move every entry of `issues/` into `items/`, then remove `issues/`.
    MergeIssues,
}

/// `u` is among the permitted upgrades.
pub fn permits(upgrades: &[Upgrade], u: Upgrade) -> (r: bool)
    ensures
        r == upgrades@.contains(u),
{
    let mut i: usize = 0;
    while i < upgrades.len()
        invariant
            0 <= i <= upgrades@.len(),
            forall|j: int| 0 <= j < i ==> upgrades@[j] != u,
        decreases upgrades@.len() - i,
    {
        if upgrades[i] == u {
            assert(upgrades@[i as int] == u);
            return true;
        }
        i = i + 1;
    }
    false
}

/// Decides how a repository with the given directories is brought to the
/// current layout. Where a legacy `issues/` directory exists, that takes the
/// `IssuesToItems` permission; without it the repository does not open.
pub fn plan_upgrade(issues_is_dir: bool, items_is_dir: bool, upgrades: &[Upgrade]) -> (r: Result<UpgradeStep, RepositoryError>)
    ensures
        !issues_is_dir ==> r == Ok::<UpgradeStep, RepositoryError>(UpgradeStep::Nothing),
        issues_is_dir && !upgrades@.contains(Upgrade::IssuesToItems) ==> (r is Err
            && r->Err_0 == RepositoryError::UpgradeRequired(Upgrade::IssuesToItems)),
        issues_is_dir && upgrades@.contains(Upgrade::IssuesToItems) && !items_is_dir
            ==> r == Ok::<UpgradeStep, RepositoryError>(UpgradeStep::RenameIssues),
        issues_is_dir && upgrades@.contains(Upgrade::IssuesToItems) && items_is_dir
            ==> r == Ok::<UpgradeStep, RepositoryError>(UpgradeStep::MergeIssues),
{
    if !issues_is_dir {
        Ok(UpgradeStep::Nothing)
    } else if !permits(upgrades, Upgrade::IssuesToItems) {
        Err(RepositoryError::UpgradeRequired(Upgrade::IssuesToItems))
    } else if items_is_dir {
        Ok(UpgradeStep::MergeIssues)
    } else {
        Ok(UpgradeStep::RenameIssues)
    }
}

/// The pieces of a `/`-separated path with the `.` pieces left out.
pub open spec fn drop_cur_dirs(segs: Seq<Seq<u8>>) -> Seq<Seq<u8>>
    decreases segs.len(),
{
    if segs.len() == 0 {
        Seq::empty()
    } else if segs.last() == seq![46u8] {
        drop_cur_dirs(segs.drop_last())
    } else {
        drop_cur_dirs(segs.drop_last()).push(segs.last())
    }
}

/// `name` (as bytes) designates an entry directly inside the items directory:
/// it is relative, and after dropping empty and `.` pieces it is a single
/// piece other than `..`.
pub open spec fn is_item_name_bytes(b: Seq<u8>) -> bool {
    let p = drop_cur_dirs(segments(b, 47u8));
    &&& (b.len() == 0 || b[0] != 47u8)
    &&& p.len() == 1
    &&& p[0] != seq![46u8, 46u8]
}

pub open spec fn byte_strings(v: Seq<Vec<u8>>) -> Seq<Seq<u8>> {
    v.map_values(|x: Vec<u8>| x@)
}

fn is_cur_dir(s: &Vec<u8>) -> (r: bool)
    ensures
        r == (s@ == seq![46u8]),
{
    if s.len() == 1 && s[0] == 46u8 {
        assert(s@ =~= seq![46u8]);
        true
    } else {
        false
    }
}

fn is_parent_dir(s: &Vec<u8>) -> (r: bool)
    ensures
        r == (s@ == seq![46u8, 46u8]),
{
    if s.len() == 2 && s[0] == 46u8 && s[1] == 46u8 {
        assert(s@ =~= seq![46u8, 46u8]);
        true
    } else {
        false
    }
}

/// Whether `name` designates an item: an entry directly inside the items
/// directory, so that neither nested paths (`one/it`) nor traversal
/// (`one/..`, `/`) are taken for one.
pub fn is_item_name(name: &str) -> (r: bool)
    ensures
        r == is_item_name_bytes(encode_utf8(name@)),
{
    let b = name.as_bytes();
    let ghost bv = b@;
    let mut done: Vec<Vec<u8>> = Vec::new();
    let mut cur: Vec<u8> = Vec::new();
    let mut i: usize = 0;
    while i < b.len()
        invariant
            bv == b@,
            0 <= i <= b@.len(),
            (byte_strings(done@), cur@) == split_acc(bv.subrange(0, i as int), 47u8),
        decreases b@.len() - i,
    {
        let c = b[i];
        proof {
            let p = bv.subrange(0, i + 1);
            assert(p.drop_last() =~= bv.subrange(0, i as int));
            assert(p.last() == c);
        }
        if c == 47u8 {
            if cur.len() > 0 {
                proof {
                    assert(byte_strings(done@.push(cur)) =~= byte_strings(done@).push(cur@));
                }
                done.push(cur);
                cur = Vec::new();
                assert(cur@ =~= Seq::<u8>::empty());
            } else {
                cur = Vec::new();
                assert(cur@ =~= Seq::<u8>::empty());
            }
        } else {
            cur.push(c);
        }
        i = i + 1;
    }
    assert(bv.subrange(0, bv.len() as int) =~= bv);
    if cur.len() > 0 {
        proof {
            assert(byte_strings(done@.push(cur)) =~= byte_strings(done@).push(cur@));
        }
        done.push(cur);
    }
    let ghost segs = byte_strings(done@);
    assert(segs == segments(bv, 47u8));
    let mut plain: Vec<Vec<u8>> = Vec::new();
    let mut k: usize = 0;
    while k < done.len()
        invariant
            segs == byte_strings(done@),
            0 <= k <= done@.len(),
            byte_strings(plain@) == drop_cur_dirs(segs.subrange(0, k as int)),
        decreases done@.len() - k,
    {
        proof {
            let p = segs.subrange(0, k + 1);
            assert(p.drop_last() =~= segs.subrange(0, k as int));
            assert(p.last() == done@[k as int]@);
        }
        if !is_cur_dir(&done[k]) {
            let s = done[k].clone();
            proof {
                assert(byte_strings(plain@.push(s)) =~= byte_strings(plain@).push(s@));
            }
            plain.push(s);
        }
        k = k + 1;
    }
    assert(segs.subrange(0, done@.len() as int) =~= segs);
    if b.len() > 0 && b[0] == 47u8 {
        return false;
    }
    if plain.len() != 1 {
        return false;
    }
    assert(byte_strings(plain@)[0] == plain@[0]@);
    !is_parent_dir(&plain[0])
}

} // verus!
