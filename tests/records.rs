use sit_core::codec::{Encoding, HashingAlgorithm};
use sit_core::dag::{last_generation_names, record_generations, ItemRecordIter, RecordEntry};
use sit_core::order::{canonical_name, order_files, RecordFile};
use sit_core::pathguard::sanitize;
use sit_core::record::{be_bytes, encode_frames, parent_link, plan_record, RecordPlan};
use sit_core::RepositoryError;

fn file(name: &str, content: &[u8]) -> RecordFile {
    RecordFile { name: name.to_string(), content: content.to_vec() }
}

fn plan(files: Vec<RecordFile>, tips: &Vec<String>, link: bool) -> Result<RecordPlan, RepositoryError> {
    plan_record(HashingAlgorithm::Blake2b, Encoding::Base32, files, tips, link)
}

/// An item held in memory: records by name with their parent links.
struct Item {
    records: Vec<RecordPlan>,
}

impl Item {
    fn new() -> Item {
        Item { records: vec![] }
    }

    fn entries(&self) -> Vec<RecordEntry> {
        let names: Vec<String> = self.records.iter().map(|r| r.encoded_hash.clone()).collect();
        self.records
            .iter()
            .map(|r| RecordEntry {
                name: r.encoded_hash.clone(),
                parents: r
                    .files
                    .iter()
                    .filter(|f| f.parts.len() == 2 && f.parts[0] == ".prev")
                    .map(|f| f.parts[1].clone())
                    .filter(|p| names.contains(p))
                    .collect(),
            })
            .collect()
    }

    fn generations(&self) -> Vec<Vec<String>> {
        record_generations(self.entries())
            .into_iter()
            .map(|g| g.into_iter().map(|e| e.name).collect())
            .collect()
    }

    fn new_record(&mut self, files: Vec<RecordFile>, link_parents: bool) -> String {
        let tips = last_generation_names(&record_generations(self.entries()));
        let p = plan(files, &tips, link_parents).unwrap();
        let name = p.encoded_hash.clone();
        self.records.push(p);
        name
    }

    fn files_of(&self, name: &str) -> Vec<RecordFile> {
        let r = self.records.iter().find(|r| r.encoded_hash == name).unwrap();
        r.files.iter().map(|f| RecordFile { name: f.parts.join("/"), content: f.content.clone() }).collect()
    }
}

#[test]
fn new_record() {
    let p = plan(vec![file("test", b"hello")], &vec![], true).unwrap();
    assert_eq!(p.files.len(), 1);
    assert_eq!(p.files[0].parts, vec!["test".to_string()]);
    assert_eq!(p.files[0].content, b"hello".to_vec());
    assert_eq!(p.hash.len(), 20);
    assert_eq!(Encoding::Base32.decode(&p.encoded_hash).unwrap(), p.hash);
}

#[test]
fn record_files_path() {
    // "." normalizes to nothing: creating a file there is what fails
    let p = plan(vec![file(".", b"hello")], &vec![], false).unwrap();
    assert!(p.files[0].parts.is_empty());
    assert!(matches!(plan(vec![file("../test", b"hello")], &vec![], false), Err(RepositoryError::PathPrefixError)));
    assert!(matches!(
        plan(vec![file("something/../../test", b"hello")], &vec![], false),
        Err(RepositoryError::PathPrefixError)
    ));
    assert!(plan(vec![file("something/../test", b"hello")], &vec![], false).is_ok());
    assert!(plan(vec![file("./test1", b"hello")], &vec![], false).is_ok());
    let p = plan(vec![file("/test2", b"hello")], &vec![], false).unwrap();
    assert_eq!(p.files[0].parts, vec!["test2".to_string()]);
}

#[test]
fn new_record_parents_linking() {
    let mut item = Item::new();
    let r1 = item.new_record(vec![file("test", &[1])], false);
    let r2 = item.new_record(vec![file("test", &[2])], false);
    let r3 = item.new_record(vec![file("test", &[3])], true);
    let names: Vec<String> = item.files_of(&r3).into_iter().map(|f| f.name).collect();
    assert!(names.iter().any(|n| *n == format!(".prev/{}", r1)));
    assert!(names.iter().any(|n| *n == format!(".prev/{}", r2)));
}

#[test]
fn record_ordering() {
    let mut item = Item::new();
    let r1 = item.new_record(vec![file("test", &[1])], false);
    let r2 = item.new_record(vec![file("test", &[2])], false);
    let r3 = item.new_record(vec![file("test", &[3])], true);
    let r4 = item.new_record(vec![file("test", &[4])], false);
    let r5 = item.new_record(vec![file("test", &[5])], true);
    let mut rows = item.generations();
    let row_3 = rows.pop().unwrap();
    let row_2 = rows.pop().unwrap();
    let row_1 = rows.pop().unwrap();
    assert_eq!(rows.len(), 0);
    assert_eq!(row_1.len(), 3);
    assert!(row_1.contains(&r1));
    assert!(row_1.contains(&r2));
    assert!(row_1.contains(&r4));
    assert_eq!(row_2, vec![r3]);
    assert_eq!(row_3, vec![r5]);
}

#[test]
fn multilevel_parents() {
    let mut item = Item::new();
    let r1 = item.new_record(vec![file("test", &[1])], false);
    let r2 = item.new_record(vec![file("test", &[2])], true);
    let r3 = item.new_record(
        vec![
            file("test", &[3]),
            file(&format!(".prev/{}", r1), &[]),
            file(&format!(".prev/{}", r2), &[]),
        ],
        false,
    );
    let rows = item.generations();
    assert_eq!(rows, vec![vec![r1], vec![r2], vec![r3]]);
}

#[test]
fn partial_ordering() {
    let mut item1 = Item::new();
    let _r0 = item1.new_record(vec![file("test", &[2])], false);
    let r1 = item1.new_record(vec![file("test", &[3])], true);
    let r2 = item1.new_record(vec![file("test", &[1])], false);
    let r3 = item1.new_record(vec![file("test", &[3])], true);

    let mut item2 = Item::new();
    let r2_2 = item2.new_record(item1.files_of(&r2), false);
    let r3_2 = item2.new_record(item1.files_of(&r3), false);
    assert_eq!(r3_2, r3);
    let r1_2 = item2.new_record(item1.files_of(&r1), false);
    assert_eq!(r1_2, r1);

    let mut rows = item2.generations();
    let row_2 = rows.pop().unwrap();
    let row_1 = rows.pop().unwrap();
    assert_eq!(rows.len(), 0);
    assert_eq!(row_2, vec![r3_2]);
    assert_eq!(row_1.len(), 2);
    assert!(row_1.contains(&r2_2));
    assert!(row_1.contains(&r1_2));
}

#[test]
fn record_deterministic_hashing() {
    let a = plan(vec![file("z/a", &[2]), file("test", &[1])], &vec![], false).unwrap();
    let b = plan(vec![file("test", &[1]), file("z/a", &[2])], &vec![], false).unwrap();
    assert_eq!(a.hash, b.hash);
    let c = plan(vec![file("test", &[1]), file("z\\a", &[2])], &vec![], false).unwrap();
    assert_eq!(c.hash, b.hash);
}

#[test]
fn different_contents_hash_differently() {
    let a = plan(vec![file("test", &[1])], &vec![], false).unwrap();
    let b = plan(vec![file("test", &[2])], &vec![], false).unwrap();
    assert_ne!(a.hash, b.hash);
    assert_ne!(a.encoded_hash, b.encoded_hash);
}

#[test]
fn encoding_round_trip() {
    for bytes in [vec![], vec![0u8], vec![1, 2, 3, 4, 5], (0..=255u8).collect::<Vec<u8>>()] {
        let s = Encoding::Base32.encode(&bytes);
        assert_eq!(Encoding::Base32.decode(&s).unwrap(), bytes);
    }
    assert_eq!(Encoding::Base32.encode(b"f"), "MY======");
    assert!(matches!(Encoding::Base32.decode("not base32!"), Err(RepositoryError::BaseDecodeError(_))));
}

#[test]
fn canonical_order_and_framing() {
    assert_eq!(canonical_name("z\\a"), b"z/a".to_vec());
    let ordered = order_files(vec![file("b", &[]), file("a\\c", &[7]), file("a", &[1])]);
    let names: Vec<&str> = ordered.iter().map(|f| f.name.as_str()).collect();
    assert_eq!(names, vec!["a", "a\\c", "b"]);
    assert_eq!(be_bytes(258), vec![0, 0, 0, 0, 0, 0, 1, 2]);
    let stream = encode_frames(&vec![file("a\\b", &[9, 8])]);
    assert_eq!(stream, vec![b'a', b'/', b'b', 0, 0, 0, 0, 0, 0, 0, 0, 2, 9, 8]);
}

#[test]
fn parent_link_name() {
    let l = parent_link(&"ABC".to_string());
    assert_eq!(l.name, ".prev/ABC");
    assert!(l.content.is_empty());
}

#[test]
fn sanitize_paths() {
    assert_eq!(sanitize("a/./b//c").unwrap(), vec!["a", "b", "c"]);
    assert_eq!(sanitize("a/../b").unwrap(), vec!["b"]);
    assert!(sanitize(".").unwrap().is_empty());
    assert!(matches!(sanitize(".."), Err(RepositoryError::PathPrefixError)));
    assert!(matches!(sanitize("a/../../b"), Err(RepositoryError::PathPrefixError)));
}

#[test]
fn iterator_steps_and_blocking() {
    let e = |n: &str, ps: &[&str]| RecordEntry { name: n.to_string(), parents: ps.iter().map(|p| p.to_string()).collect() };
    let mut it = ItemRecordIter::new(vec![e("B", &["A"]), e("A", &[]), e("C", &["D"]), e("D", &["C"])]);
    let g1: Vec<String> = it.next().unwrap().into_iter().map(|e| e.name).collect();
    assert_eq!(g1, vec!["A"]);
    let g2: Vec<String> = it.next().unwrap().into_iter().map(|e| e.name).collect();
    assert_eq!(g2, vec!["B"]);
    // a cycle never becomes ready
    assert!(it.next().is_none());
    assert!(it.next().is_none());
}

#[test]
fn empty_item_has_no_generations() {
    assert!(record_generations(vec![]).is_empty());
    assert!(last_generation_names(&vec![]).is_empty());
}

#[test]
fn equal_canonical_names_are_both_kept() {
    let p = plan(vec![file("z\\a", &[1]), file("z/a", &[2])], &vec![], false).unwrap();
    assert_eq!(p.files.len(), 2);
    // equal keys keep the order they were given in
    assert_eq!(p.files[0].content, vec![1]);
    assert_eq!(p.files[1].content, vec![2]);
}

#[test]
fn linking_without_tips_changes_nothing() {
    let a = plan(vec![file("test", &[1])], &vec![], true).unwrap();
    let b = plan(vec![file("test", &[1])], &vec![], false).unwrap();
    assert_eq!(a.hash, b.hash);
    let c = plan(vec![file("test", &[1])], &vec!["ABC".to_string()], false).unwrap();
    assert_eq!(c.hash, b.hash);
    let d = plan(vec![file("test", &[1])], &vec!["ABC".to_string()], true).unwrap();
    assert_ne!(d.hash, b.hash);
    assert_eq!(d.files.len(), 2);
    assert_eq!(d.files[0].parts, vec![".prev".to_string(), "ABC".to_string()]);
}
