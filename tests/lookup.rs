use git_odb::discovery::{from, pack_backend_for, pack_name_for};
use git_odb::loose::{bucket_name, parse_loose, presence_filter, LooseError, LooseStore};
use git_odb::objects::{DecodeError, Object, Type};
use git_odb::oid::{hex_decode, hex_encode, ObjectId};
use git_odb::pack::{read_entry, PackError, PackIndex, PackStore};
use git_odb::store::{Backend, Step, StorageSet, StoreError};

fn id_with(first: u8, fill: u8) -> ObjectId {
    let mut b = vec![fill; 20];
    b[0] = first;
    ObjectId::from_bytes(&b).unwrap()
}

fn names(list: &[&str]) -> Vec<Vec<u8>> {
    list.iter().map(|s| s.as_bytes().to_vec()).collect()
}

fn be32(v: u32) -> [u8; 4] {
    v.to_be_bytes()
}

/// An index file listing `ids` at `offsets`, with no large offsets.
fn index_file(ids: &[&ObjectId], offsets: &[u32]) -> Vec<u8> {
    let mut b = vec![0xff, 0x74, 0x4f, 0x63, 0, 0, 0, 2];
    for _ in 0..256 {
        b.extend_from_slice(&be32(ids.len() as u32));
    }
    for id in ids {
        b.extend_from_slice(id.as_bytes());
    }
    for _ in ids {
        b.extend_from_slice(&be32(0));
    }
    for o in offsets {
        b.extend_from_slice(&be32(*o));
    }
    b.extend_from_slice(&[0u8; 40]);
    b
}

/// A pack file of `count` objects whose entries are `entries`, starting at 12.
fn pack_file(count: u32, entries: &[u8]) -> Vec<u8> {
    let mut b = b"PACK".to_vec();
    b.extend_from_slice(&be32(2));
    b.extend_from_slice(&be32(count));
    b.extend_from_slice(entries);
    b.extend_from_slice(&[0u8; 20]);
    b
}

fn done(step: Step) -> Result<Option<(Type, Vec<u8>)>, StoreError> {
    match step {
        Step::Done(r) => r,
        Step::Open { .. } => panic!("expected the lookup to be over"),
    }
}

#[test]
fn hex_round_trip_of_id() {
    let bytes: Vec<u8> = (0u8..20).map(|i| i * 13).collect();
    let id = ObjectId::from_bytes(&bytes).unwrap();
    let hex = String::from_utf8(id.to_hex()).unwrap();
    assert_eq!(hex, "000d1a2734414e5b6875828f9ca9b6c3d0ddeaf7");
    let back = ObjectId::from_hex(&hex).unwrap();
    assert_eq!(back.as_bytes(), &bytes[..]);
    assert!(back.same(&id));
}

#[test]
fn hex_round_trip_of_text() {
    let text = "ffee00112233445566778899aabbccddeeff0102";
    let id = ObjectId::from_hex(text).unwrap();
    assert_eq!(String::from_utf8(id.to_hex()).unwrap(), text);
    let upper = ObjectId::from_hex("FFEE00112233445566778899AABBCCDDEEFF0102").unwrap();
    assert!(upper.same(&id));
}

#[test]
fn hex_rejects_bad_text() {
    assert!(ObjectId::from_hex("abc").is_none());
    assert!(ObjectId::from_hex("zzee00112233445566778899aabbccddeeff0102").is_none());
    assert!(ObjectId::from_bytes(&[1, 2, 3]).is_none());
    assert_eq!(hex_decode(b"0a1").is_none(), true);
    assert_eq!(hex_decode(b"0aF1").unwrap(), vec![0x0a, 0xf1]);
    assert_eq!(hex_encode(&[0xab, 0x01]), b"ab01".to_vec());
}

#[test]
fn filter_marks_bucket_directories() {
    let f = presence_filter(&names(&["ab", "0f", "FF", "info", "pack"]));
    assert_eq!(f.len(), 256);
    assert!(f[0xab] && f[0x0f] && f[0xff]);
    assert_eq!(f.iter().filter(|x| **x).count(), 3);
}

#[test]
fn malformed_bucket_names_are_ignored() {
    let f = presence_filter(&names(&["a", "abc", "zz", "+a", "g0", ""]));
    assert!(f.iter().all(|x| !*x));
    assert_eq!(bucket_name(b"+a"), None);
    assert_eq!(bucket_name(b"7e"), Some(0x7e));
}

#[test]
fn loose_hit() {
    let loose = LooseStore::new("objects".to_string(), &names(&["ab"]));
    let set = from(loose, vec![]);
    let id = id_with(0xab, 0xcd);
    match set.find(&id) {
        Step::Open { backend, dir, file } => {
            assert_eq!(backend, 0);
            assert_eq!(dir, b"ab".to_vec());
            assert_eq!(file, b"cdcdcdcdcdcdcdcdcdcdcdcdcdcdcdcdcdcdcd".to_vec());
        },
        Step::Done(_) => panic!("expected a file to open"),
    }
    let (t, body) = done(set.resume(&id, 0, Some(b"blob 5\0hello".to_vec()))).unwrap().unwrap();
    assert_eq!(t, Type::Blob);
    match t.load(&body).unwrap() {
        Object::Blob(b) => assert_eq!(b.data.len(), 5),
        _ => panic!("expected a blob"),
    }
}

#[test]
fn loose_filter_miss_is_not_found() {
    let loose = LooseStore::new("objects".to_string(), &names(&["ab"]));
    assert!(!loose.has_bucket(0x12));
    assert!(loose.find(&id_with(0x12, 0)).is_none());
    let set = from(loose, vec![]);
    assert_eq!(done(set.find(&id_with(0x12, 0))), Ok(None));
}

#[test]
fn missing_loose_file_goes_on() {
    let loose = LooseStore::new("objects".to_string(), &names(&["ab"]));
    let set = from(loose, vec![]);
    assert_eq!(done(set.resume(&id_with(0xab, 1), 0, None)), Ok(None));
}

#[test]
fn bad_loose_file_is_an_error() {
    let loose = LooseStore::new("objects".to_string(), &names(&["ab"]));
    let set = from(loose, vec![]);
    let r = done(set.resume(&id_with(0xab, 1), 0, Some(b"blob 6\0hello".to_vec())));
    assert_eq!(r, Err(StoreError::Loose(LooseError::BadHeader)));
}

#[test]
fn loose_headers() {
    assert_eq!(parse_loose(b"commit 3\0abc"), Ok((Type::Commit, b"abc".to_vec())));
    assert_eq!(parse_loose(b"tree 0\0"), Ok((Type::Tree, vec![])));
    assert_eq!(parse_loose(b"tag 2\0xy"), Ok((Type::Tag, b"xy".to_vec())));
    assert_eq!(parse_loose(b"blob 12\0hello world!"), Ok((Type::Blob, b"hello world!".to_vec())));
    assert_eq!(parse_loose(b"blob 05\0hello"), Ok((Type::Blob, b"hello".to_vec())));
    assert_eq!(parse_loose(b"blob \0"), Err(LooseError::BadHeader));
    assert_eq!(parse_loose(b"blob 1x\0a"), Err(LooseError::BadHeader));
    assert_eq!(parse_loose(b"note 1\0a"), Err(LooseError::BadHeader));
    assert_eq!(parse_loose(b"blob 99999999999999999999999\0"), Err(LooseError::BadHeader));
    assert_eq!(parse_loose(b"blob 1"), Err(LooseError::BadHeader));
}

#[test]
fn pack_hit_and_miss() {
    let x = id_with(0x11, 0x22);
    let y = id_with(0x33, 0x44);
    let entries = [0x35, b'h', b'e', b'l', b'l', b'o'];
    let idx = index_file(&[&x], &[12]);
    let pack = pack_file(1, &entries);
    let store = PackStore::new(&pack, PackIndex::parse(&idx).unwrap()).unwrap();
    assert_eq!(store.find(&x), Ok(Some((Type::Blob, b"hello".to_vec()))));
    assert_eq!(store.find(&y), Ok(None));
    assert_eq!(PackIndex::parse(&idx).unwrap().lookup(&x), Ok(Some(12)));
}

#[test]
fn pack_entry_sizes_and_kinds() {
    let mut long = vec![0xb4, 0x01];
    long.extend_from_slice(&[7u8; 20]);
    assert_eq!(read_entry(&long, 0), Ok((Type::Blob, vec![7u8; 20])));
    assert_eq!(read_entry(&[0x12, b'a', b'b'], 0), Ok((Type::Commit, b"ab".to_vec())));
    assert_eq!(read_entry(&[0x21, b'a'], 0), Ok((Type::Tree, b"a".to_vec())));
    assert_eq!(read_entry(&[0x41, b'a'], 0), Ok((Type::Tag, b"a".to_vec())));
    assert_eq!(read_entry(&[0x61, b'a'], 0), Err(PackError::Delta));
    assert_eq!(read_entry(&[0x71, b'a'], 0), Err(PackError::Delta));
    assert_eq!(read_entry(&[0x51, b'a'], 0), Err(PackError::BadEntry));
    assert_eq!(read_entry(&[0x35, b'a'], 0), Err(PackError::BadEntry));
    assert_eq!(read_entry(&[0x35, b'a'], 9), Err(PackError::BadEntry));
    assert_eq!(read_entry(&[0xb5], 0), Err(PackError::BadEntry));
}

#[test]
fn pack_corrupt_entry_is_an_error() {
    let x = id_with(0x11, 0x22);
    let idx = index_file(&[&x], &[12]);
    let pack = pack_file(1, &[0xbf, 0x7f, b'a']);
    let store = PackStore::new(&pack, PackIndex::parse(&idx).unwrap()).unwrap();
    assert_eq!(store.find(&x), Err(PackError::BadEntry));
    let set = StorageSet::new(vec![Backend::Pack(store)]);
    assert_eq!(done(set.find(&x)), Err(StoreError::Pack(PackError::BadEntry)));
}

#[test]
fn large_offset_slot_past_table_is_an_error() {
    let x = id_with(0x11, 0x22);
    let idx = index_file(&[&x], &[0x8000_0000]);
    let ix = PackIndex::parse(&idx).unwrap();
    assert_eq!(ix.lookup(&x), Err(PackError::BadIndex));
}

#[test]
fn bad_index_and_pack_files() {
    let x = id_with(0x11, 0x22);
    let mut idx = index_file(&[&x], &[12]);
    assert!(PackIndex::parse(&idx[..1000]).is_err());
    let ix = PackIndex::parse(&idx).unwrap();
    assert_eq!(PackStore::new(b"PACK", ix).err(), Some(PackError::BadPack));
    let ix = PackIndex::parse(&idx).unwrap();
    assert_eq!(PackStore::new(&pack_file(2, &[0x35]), ix).err(), Some(PackError::BadPack));
    idx[7] = 3;
    assert_eq!(PackIndex::parse(&idx).err(), Some(PackError::BadIndex));
}

#[test]
fn discovery_skips_missing_pack_and_fails_on_bad_index() {
    let x = id_with(0x11, 0x22);
    let idx = index_file(&[&x], &[12]);
    let pack = pack_file(1, &[0x35, b'h', b'e', b'l', b'l', b'o']);
    assert!(matches!(pack_backend_for(&idx, None), Ok(None)));
    assert!(matches!(pack_backend_for(&idx, Some(b"not a pack")), Ok(None)));
    assert!(matches!(pack_backend_for(&idx, Some(&pack)), Ok(Some(_))));
    assert!(matches!(pack_backend_for(b"garbage", Some(&pack)), Err(PackError::BadIndex)));
}

#[test]
fn pack_names() {
    assert_eq!(pack_name_for(b"pack-1a2b.idx"), Some(b"pack-1a2b.pack".to_vec()));
    assert_eq!(pack_name_for(b"pack-1a2b.pack"), None);
    assert_eq!(pack_name_for(b"idx"), None);
}

#[test]
fn first_match_wins() {
    let x = id_with(0x11, 0x22);
    let idx = index_file(&[&x], &[12]);
    let a = PackStore::new(&pack_file(1, &[0x31, b'a']), PackIndex::parse(&idx).unwrap()).unwrap();
    let b = PackStore::new(&pack_file(1, &[0x31, b'b']), PackIndex::parse(&idx).unwrap()).unwrap();
    let set = StorageSet::new(vec![Backend::Pack(a), Backend::Pack(b)]);
    for _ in 0..3 {
        assert_eq!(done(set.find(&x)), Ok(Some((Type::Blob, b"a".to_vec()))));
    }
}

#[test]
fn loose_before_pack() {
    let x = id_with(0x11, 0x22);
    let idx = index_file(&[&x], &[12]);
    let p = PackStore::new(&pack_file(1, &[0x31, b'p']), PackIndex::parse(&idx).unwrap()).unwrap();
    let loose = LooseStore::new("objects".to_string(), &names(&["11"]));
    let set = from(loose, vec![p]);
    assert_eq!(set.len(), 2);
    assert!(matches!(set.find(&x), Step::Open { backend: 0, .. }));
    assert_eq!(done(set.resume(&x, 0, None)), Ok(Some((Type::Blob, b"p".to_vec()))));
    assert_eq!(done(set.resume(&x, 0, Some(b"blob 1\0l".to_vec()))), Ok(Some((Type::Blob, b"l".to_vec()))));
}

#[test]
fn empty_set_finds_nothing() {
    let set = StorageSet::new(vec![]);
    assert_eq!(done(set.find(&id_with(0xab, 0xcd))), Ok(None));
}

#[test]
fn load_dispatches_on_kind() {
    assert!(matches!(Type::Commit.load(b"tree 1234\nauthor x"), Ok(Object::Commit(_))));
    assert!(matches!(Type::Commit.load(b"parent 1"), Err(DecodeError::Malformed(Type::Commit))));
    assert!(matches!(Type::Tag.load(b"object 1234\ntype blob"), Ok(Object::Tag(_))));
    assert!(matches!(Type::Tag.load(b"obj"), Err(DecodeError::Malformed(Type::Tag))));
    assert!(matches!(Type::Tree.load(b""), Ok(Object::Tree(_))));
    let o = Type::Blob.load(b"xyz").unwrap();
    assert_eq!(o.len(), 3);
    assert_eq!(o.to_bytes(), b"xyz".to_vec());
    let c = Type::Commit.load(b"tree 1234\nauthor x").unwrap();
    assert_eq!(c.to_bytes(), b"tree 1234\nauthor x".to_vec());
}
