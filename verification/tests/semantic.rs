use semantica::byte_conversion::{ByteConversion, FormatError};
use semantica::{SemanticVec, DIMENSION, EMBEDDING_SCALE};

// A deterministic stand-in for the embedding provider: a vector with one hot
// coordinate, at full scale unless a magnitude is given.
fn em(hot: usize, mag: i32) -> Vec<i32> {
    let mut v = vec![0i32; DIMENSION];
    v[hot] = mag;
    v
}

fn stub_db() -> SemanticVec<i32> {
    let mut db: SemanticVec<i32> = SemanticVec::new();
    db.add(em(0, EMBEDDING_SCALE), 1);
    db.add(em(1, EMBEDDING_SCALE), 2);
    db.add(em(2, EMBEDDING_SCALE), 3);
    db.add(em(3, EMBEDDING_SCALE), 4);
    db.add(em(4, EMBEDDING_SCALE), 5);
    db.add(em(10, EMBEDDING_SCALE), 808);
    db.add(em(11, EMBEDDING_SCALE), 247);
    db
}

#[test]
fn quick_search_internal() {
    let db = SemanticVec::<i32> {
        contents: vec![],
        ldts: vec![(0, 12), (0, 20), (0, 36), (0, 122), (0, 193)],
        ldt: (0..DIMENSION).map(|v| v as i32).collect(),
    };

    assert_eq!(db.quick_search(122), 3);
    assert_eq!(db.quick_search(36), 2);
}

#[test]
fn quick_search_boundary() {
    let empty = SemanticVec::<i32> {
        contents: vec![],
        ldts: vec![],
        ldt: (0..DIMENSION).map(|v| v as i32).collect(),
    };
    assert_eq!(empty.quick_search(7), 0);

    let single = SemanticVec::<i32> {
        contents: vec![],
        ldts: vec![(0, 50)],
        ldt: (0..DIMENSION).map(|v| v as i32).collect(),
    };
    assert_eq!(single.quick_search(10), 0);
    assert_eq!(single.quick_search(99), 0);
}

#[test]
fn semantic_search() {
    let db = stub_db();

    assert_eq!(db.search(&em(0, EMBEDDING_SCALE)).unwrap().clone(), 1);
    assert_eq!(db.search(&em(1, EMBEDDING_SCALE)).unwrap().clone(), 2);
    assert_eq!(db.search(&em(2, EMBEDDING_SCALE)).unwrap().clone(), 3);
    assert_eq!(db.search(&em(3, EMBEDDING_SCALE)).unwrap().clone(), 4);
    assert_eq!(db.search(&em(4, EMBEDDING_SCALE)).unwrap().clone(), 5);

    // a query near the "Cat" embedding but not equal to it
    assert_eq!(db.search(&em(11, 922)).unwrap().clone(), 247);

    // a query unlike every stored embedding
    assert_eq!(db.search(&em(50, 300)), None);
}

#[test]
fn byte_conversion() {
    let original = stub_db();
    let queries: Vec<Vec<i32>> = vec![
        em(0, EMBEDDING_SCALE),
        em(1, EMBEDDING_SCALE),
        em(2, EMBEDDING_SCALE),
        em(3, EMBEDDING_SCALE),
        em(4, EMBEDDING_SCALE),
        em(11, 922),
    ];
    let expected: Vec<i32> = vec![1, 2, 3, 4, 5, 247];

    let bytes = original.to_bytes();
    let db = SemanticVec::<i32>::from_bytes(bytes);

    for (q, want) in queries.iter().zip(expected.iter()) {
        assert_eq!(db.search(q).unwrap(), want);
    }
    assert_eq!(db.search(&em(50, 300)), None);
}

#[test]
fn round_trip_preserves_order_index() {
    let bytes = stub_db().to_bytes();
    let db = SemanticVec::<i32>::from_bytes(bytes);
    let original = stub_db();
    assert_eq!(db.ldts, original.ldts);
    assert_eq!(db.ldt, original.ldt);
    for (a, b) in db.contents.iter().zip(original.contents.iter()) {
        assert_eq!(a, b);
    }
}

#[test]
fn sort_invariant() {
    let mut db: SemanticVec<i32> = SemanticVec::new();
    // projections arrive out of order, including the one-record boundary
    let hots = [5usize, 300, 0, 120, 120, 7];
    for (i, h) in hots.iter().enumerate() {
        db.add(em(*h, EMBEDDING_SCALE), i as i32);
        for w in db.ldts.windows(2) {
            assert!(w[0].1 <= w[1].1);
        }
    }
    assert_eq!(db.contents.len(), hots.len());
    assert_eq!(db.ldts.len(), hots.len());
}

#[test]
fn threshold_behavior() {
    let mut db: SemanticVec<i32> = SemanticVec::new();
    db.add(em(3, EMBEDDING_SCALE), 42);

    // similarity 512 * 1024 is exactly half of full scale: a match
    assert_eq!(db.search(&em(3, 512)).unwrap().clone(), 42);
    // one step below the threshold: no match
    assert_eq!(db.search(&em(3, 511)), None);
}

#[test]
fn removal_consistency() {
    let mut db = stub_db();
    let n: usize = db.contents.len();

    assert!(db.remove(2).is_ok());
    assert_eq!(db.contents.len(), n - 1);
    assert_eq!(db.ldts.len(), n - 1);
    for rec in db.ldts.iter() {
        assert!(rec.0 < db.contents.len());
        // each record still addresses the slot its projection was computed from
        let mut p: i128 = 0;
        for (j, c) in db.contents[rec.0].0.iter().enumerate() {
            p += (*c as i128) * (db.ldt[j] as i128);
        }
        assert_eq!(rec.1, p);
    }

    // the surviving entries still answer
    assert_eq!(db.search(&em(0, EMBEDDING_SCALE)).unwrap().clone(), 1);
    assert_eq!(db.search(&em(11, EMBEDDING_SCALE)).unwrap().clone(), 247);

    // an out-of-range removal reports and changes nothing
    let before_len: usize = db.contents.len();
    assert!(db.remove(99).is_err());
    assert_eq!(db.contents.len(), before_len);
}

#[test]
fn malformed_blobs_are_refused() {
    // too short for a header
    assert!(matches!(SemanticVec::<i32>::try_from_bytes(vec![1, 2, 3]), Err(FormatError)));

    // header points past the end of the input
    let mut blob = vec![0u8; 16];
    blob[7] = 200;
    assert!(matches!(SemanticVec::<i32>::try_from_bytes(blob), Err(FormatError)));

    // embedding region not a whole number of blocks
    let mut blob = vec![0u8; 32];
    blob[7] = 9;
    assert!(matches!(SemanticVec::<i32>::try_from_bytes(blob), Err(FormatError)));

    // a declared value length that runs past the end of the input
    let good = stub_db().to_bytes();
    let mut bad = good.clone();
    let cut: usize = bad.len() - 2;
    bad.truncate(cut);
    assert!(matches!(SemanticVec::<i32>::try_from_bytes(bad), Err(FormatError)));

    // the untouched blob still reads back
    assert!(SemanticVec::<i32>::try_from_bytes(good).is_ok());
}

#[test]
fn empty_index() {
    let db: SemanticVec<i32> = SemanticVec::new();
    assert_eq!(db.search(&em(0, EMBEDDING_SCALE)), None);

    let bytes = db.to_bytes();
    assert_eq!(bytes.len(), 8);
    let back = SemanticVec::<i32>::from_bytes(bytes);
    assert_eq!(back.contents.len(), 0);
}
