use rygit::blob::Blob;
use rygit::store::ObjectStore;

#[test]
fn sha1_matches_the_published_digest() {
    // A classical SHA-1 test vector.
    let h = rygit::hash::Hash::of(&b"abc".to_vec());
    assert_eq!(b"a9993e364706816aba3e25717850c26c9cd0d89d".to_vec(), h.to_hex());
}

#[test]
fn hex_round_trips() {
    let h = rygit::hash::Hash::of(&b"anything".to_vec());
    let hex = h.to_hex();
    let back = rygit::hash::Hash::from_hex(&hex).unwrap();
    assert_eq!(h.to_hex(), back.to_hex());
    assert_eq!(*h.as_bytes(), *back.as_bytes());
}

#[test]
fn bad_hex_is_invalid_hash() {
    assert!(matches!(
        rygit::hash::Hash::from_hex(&b"abcd".to_vec()),
        Err(rygit::errors::RepoError::InvalidHash)
    ));
    let forty_bad = b"zz93e364706816aba3e25717850c26c9cd0d89d1".to_vec();
    assert!(matches!(
        rygit::hash::Hash::from_hex(&forty_bad),
        Err(rygit::errors::RepoError::InvalidHash)
    ));
}

#[test]
fn object_path_has_the_two_level_layout() {
    let h = rygit::hash::Hash::of(&b"abc".to_vec());
    let p = h.object_path();
    assert_eq!(
        b".rygit/objects/a9/993e364706816aba3e25717850c26c9cd0d89d".to_vec(),
        p
    );
    let back = rygit::hash::Hash::from_object_path(&p).unwrap();
    assert_eq!(h.to_hex(), back.to_hex());
}

#[test]
fn blob_round_trips_through_the_store() {
    let mut store = ObjectStore::new();
    let blob = Blob::create(&b"hello world".to_vec(), &mut store);
    let body = blob.body(&store).unwrap();
    assert_eq!(b"hello world".to_vec(), body);

    let empty = Blob::create(&Vec::new(), &mut store);
    assert_eq!(Vec::<u8>::new(), empty.body(&store).unwrap());
}

#[test]
fn equal_contents_are_stored_once() {
    let mut store = ObjectStore::new();
    let b1 = Blob::create(&b"same".to_vec(), &mut store);
    assert_eq!(1, store.object_count());
    let b2 = Blob::create(&b"same".to_vec(), &mut store);
    assert_eq!(1, store.object_count());
    assert_eq!(b1.hash().to_hex(), b2.hash().to_hex());
    let b3 = Blob::create(&b"other".to_vec(), &mut store);
    assert_eq!(2, store.object_count());
    assert_ne!(b1.hash().to_hex(), b3.hash().to_hex());
}

#[test]
fn hash_for_matches_create() {
    let mut store = ObjectStore::new();
    let h = Blob::hash_for(&b"contents".to_vec());
    let b = Blob::create(&b"contents".to_vec(), &mut store);
    assert_eq!(h.to_hex(), b.hash().to_hex());
}

#[test]
fn missing_object_is_reported() {
    let store = ObjectStore::new();
    let blob = Blob::of_hash(rygit::hash::Hash::of(&b"never stored".to_vec()));
    assert!(matches!(
        blob.body(&store),
        Err(rygit::errors::RepoError::IOFailure)
    ));
}

#[test]
fn upper_case_hex_digits_are_accepted() {
    let upper = b"A9993E364706816ABA3E25717850C26C9CD0D89D".to_vec();
    let lower = b"a9993e364706816aba3e25717850c26c9cd0d89d".to_vec();
    let h1 = rygit::hash::Hash::from_hex(&upper).unwrap();
    let h2 = rygit::hash::Hash::from_hex(&lower).unwrap();
    assert_eq!(*h1.as_bytes(), *h2.as_bytes());
}
