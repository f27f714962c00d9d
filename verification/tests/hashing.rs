use bita::chunk_index::ChunkIndex;
use bita::digest_table::{fingerprint_of, DigestTable};
use bita::hashsum::{bytes_equal, HashSum, DIGEST_SIZE};

fn hex(bytes: &[u8]) -> String {
    let mut s = String::new();
    for b in bytes {
        s.push_str(&format!("{:02x}", b));
    }
    s
}

fn colliding_pair(hash_length: usize) -> (Vec<u8>, Vec<u8>) {
    let mut seen: Vec<(HashSum, Vec<u8>)> = Vec::new();
    for i in 0u32..100_000 {
        let data = i.to_le_bytes().to_vec();
        let h = HashSum::b2_digest(&data, hash_length);
        for (g, d) in seen.iter() {
            if *g == h {
                return (d.clone(), data);
            }
        }
        seen.push((h, data));
    }
    panic!("no collision found");
}

#[test]
fn digest_of_abc_is_the_known_one() {
    let h = HashSum::b2_digest(b"abc", 64);
    assert_eq!(
        hex(h.as_slice()),
        "ba80a53f981c4d0d6a2797b69f12f6e94c212f14685ac4b74b12bb6fdbffa2d17d87c5392aab792dc252d5de4533cc9518d38aa8dbf1925ab92386edd4009923"
    );
}

#[test]
fn digest_of_nothing_is_the_known_one() {
    let h = HashSum::b2_digest(b"", DIGEST_SIZE);
    assert_eq!(
        hex(h.as_slice()),
        "786a02f742015903c6c6fd852552d272912f4740e15847618a86e217f71f5419d25e1031afee585313896444934eb04b903a685b1448b755d56f701afe9be2ce"
    );
}

#[test]
fn digest_is_cut_to_the_length_asked_for() {
    let h = HashSum::b2_digest(b"abc", 8);
    assert_eq!(h.len(), 8);
    assert_eq!(h.to_vec(), vec![186, 128, 165, 63, 152, 28, 77, 13]);
    assert_eq!(HashSum::b2_digest(b"abc", 0).len(), 0);
    assert_eq!(HashSum::b2_digest(b"abc", 1000).len(), 64);
}

#[test]
fn from_digest_cuts_or_keeps() {
    assert_eq!(HashSum::from_digest(vec![1, 2, 3, 4], 2).to_vec(), vec![1, 2]);
    assert_eq!(HashSum::from_digest(vec![1, 2, 3, 4], 4).to_vec(), vec![1, 2, 3, 4]);
    assert_eq!(HashSum::from_digest(vec![1, 2, 3, 4], 9).to_vec(), vec![1, 2, 3, 4]);
}

#[test]
fn hash_sums_are_equal_when_their_bytes_are() {
    let a = HashSum::from_slice(&[1, 2, 3]);
    let b = HashSum::from_vec(vec![1, 2, 3]);
    let c = HashSum::from_slice(&[1, 2, 4]);
    let d = HashSum::from_slice(&[1, 2]);
    assert!(a == b);
    assert!(a != c);
    assert!(a != d);
    assert!(a.clone() == a);
    assert!(bytes_equal(&[], &[]));
    assert!(!bytes_equal(&[1], &[]));
}

#[test]
fn truncation_and_prefix_comparison() {
    let a = HashSum::from_slice(&[1, 2, 3, 4]);
    let b = HashSum::from_slice(&[1, 2, 9, 9, 9]);
    assert_eq!(a.truncated(2).to_vec(), vec![1, 2]);
    assert_eq!(a.truncated(10).to_vec(), vec![1, 2, 3, 4]);
    assert!(a.same_prefix(&b, 2));
    assert!(a.same_prefix(&b, 0));
    assert!(!a.same_prefix(&b, 3));
    assert!(!a.same_prefix(&b, 5));
    assert!(a.truncated(2) == b.truncated(2));
}

#[test]
fn order_is_byte_wise() {
    let h = |b: &[u8]| HashSum::from_slice(b);
    assert!(h(&[1, 2]).precedes(&h(&[1, 3])));
    assert!(!h(&[1, 3]).precedes(&h(&[1, 2])));
    assert!(h(&[1]).precedes(&h(&[1, 0])));
    assert!(!h(&[1, 0]).precedes(&h(&[1])));
    assert!(!h(&[5, 5]).precedes(&h(&[5, 5])));
    assert!(h(&[]).precedes(&h(&[0])));
    assert!(!h(&[]).precedes(&h(&[])));
    assert!(h(&[0, 255]).precedes(&h(&[1])));
}

#[test]
fn table_finds_what_was_entered() {
    let mut table = DigestTable::new();
    assert_eq!(table.len(), 0);
    assert_eq!(table.find(&HashSum::from_slice(&[1])), None);
    table.push(HashSum::from_slice(&[1]));
    table.push(HashSum::from_slice(&[2]));
    table.push(HashSum::from_slice(&[1, 0, 0, 0, 0, 0, 0, 0, 7]));
    table.push(HashSum::from_slice(&[1, 0, 0, 0, 0, 0, 0, 0, 8]));
    table.push(HashSum::from_slice(&[]));
    assert_eq!(table.len(), 5);
    assert_eq!(table.find(&HashSum::from_slice(&[1])), Some(0));
    assert_eq!(table.find(&HashSum::from_slice(&[2])), Some(1));
    assert_eq!(table.find(&HashSum::from_slice(&[1, 0, 0, 0, 0, 0, 0, 0, 7])), Some(2));
    assert_eq!(table.find(&HashSum::from_slice(&[1, 0, 0, 0, 0, 0, 0, 0, 8])), Some(3));
    assert_eq!(table.find(&HashSum::from_slice(&[])), Some(4));
    assert_eq!(table.find(&HashSum::from_slice(&[3])), None);
    assert_eq!(table.find(&HashSum::from_slice(&[1, 0, 0, 0, 0, 0, 0, 0, 9])), None);
    assert_eq!(table.find(&HashSum::from_slice(&[0, 1])), None);
    assert!(*table.key(3) == HashSum::from_slice(&[1, 0, 0, 0, 0, 0, 0, 0, 8]));
}

#[test]
fn fingerprint_folds_the_first_eight_bytes() {
    assert_eq!(fingerprint_of(&[]), 0);
    assert_eq!(fingerprint_of(&[1]), 1);
    assert_eq!(fingerprint_of(&[1, 2]), 258);
    assert_eq!(fingerprint_of(&[1, 0, 0, 0, 0, 0, 0, 0]), 1u64 << 56);
    assert_eq!(fingerprint_of(&[1, 0, 0, 0, 0, 0, 0, 0, 7]), 1u64 << 56);
    assert_eq!(fingerprint_of(&[255; 9]), u64::MAX);
}

#[test]
fn index_with_many_hashes() {
    let mut index = ChunkIndex::new();
    for i in 0u64..2000 {
        index.insert(HashSum::b2_digest(&i.to_le_bytes(), 8), i);
        index.insert(HashSum::b2_digest(&(i / 2).to_le_bytes(), 8), 10_000 + i);
    }
    assert_eq!(index.len(), 2000);
    for i in (0u64..2000).rev() {
        let got = index.remove(&HashSum::b2_digest(&i.to_le_bytes(), 8)).unwrap();
        assert!(got.contains(&i));
        assert_eq!(got.len(), if i < 1000 { 3 } else { 1 });
        assert_eq!(index.len() as u64, i);
    }
    assert!(index.is_empty());
}

#[test]
fn index_records_offsets_in_order() {
    let a = HashSum::from_slice(&[1, 1]);
    let b = HashSum::from_slice(&[2, 2]);
    let mut index = ChunkIndex::new();
    assert!(index.is_empty());
    assert_eq!(index.len(), 0);
    index.insert(a.clone(), 100);
    index.insert(b.clone(), 0);
    index.insert(a.clone(), 50);
    index.insert(a.clone(), 300);
    assert!(!index.is_empty());
    assert_eq!(index.len(), 2);
    assert!(index.contains(&a));
    assert!(index.contains(&b));
    assert!(!index.contains(&HashSum::from_slice(&[1])));
    assert_eq!(index.offsets(&a), Some(vec![100, 50, 300]));
    assert_eq!(index.offsets(&b), Some(vec![0]));
    assert_eq!(index.offsets(&HashSum::from_slice(&[3])), None);
}

#[test]
fn index_hands_out_a_hash_once() {
    let a = HashSum::from_slice(&[1]);
    let b = HashSum::from_slice(&[2]);
    let c = HashSum::from_slice(&[3]);
    let mut index = ChunkIndex::new();
    index.insert(a.clone(), 1);
    index.insert(b.clone(), 2);
    index.insert(c.clone(), 3);
    index.insert(a.clone(), 4);
    assert_eq!(index.remove(&a), Some(vec![1, 4]));
    assert_eq!(index.remove(&a), None);
    assert!(!index.contains(&a));
    assert_eq!(index.len(), 2);
    assert_eq!(index.offsets(&b), Some(vec![2]));
    assert_eq!(index.offsets(&c), Some(vec![3]));
    assert_eq!(index.remove(&HashSum::from_slice(&[9])), None);
    assert_eq!(index.remove(&c), Some(vec![3]));
    assert_eq!(index.remove(&b), Some(vec![2]));
    assert!(index.is_empty());
    index.insert(a.clone(), 7);
    assert_eq!(index.offsets(&a), Some(vec![7]));
}

#[test]
fn colliding_truncated_hashes_share_one_entry() {
    let (x, y) = colliding_pair(1);
    assert_ne!(x, y);
    let hx = HashSum::b2_digest(&x, 1);
    let hy = HashSum::b2_digest(&y, 1);
    assert!(hx == hy);
    assert!(HashSum::b2_digest(&x, 64) != HashSum::b2_digest(&y, 64));
    let other = HashSum::from_slice(&[hx.as_slice()[0].wrapping_add(1)]);
    let mut index = ChunkIndex::new();
    index.insert(other.clone(), 1000);
    index.insert(hx.clone(), 0);
    index.insert(hy.clone(), 4);
    assert_eq!(index.len(), 2);
    assert_eq!(index.offsets(&hx), Some(vec![0, 4]));
    assert_eq!(index.offsets(&other), Some(vec![1000]));
    assert_eq!(index.remove(&hy), Some(vec![0, 4]));
    assert_eq!(index.remove(&hx), None);
    assert_eq!(index.offsets(&other), Some(vec![1000]));
}
