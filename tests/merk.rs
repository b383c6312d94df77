use themelio_core::hash::HashVal;
use themelio_core::merk::{
    data_hashes, datablock, key_to_path, node, CompressedProof, FullProof, ProofChainCache,
};

fn key_with(first: u8, last: u8) -> HashVal {
    let mut b = [0u8; 32];
    b[0] = first;
    b[31] = last;
    HashVal(b)
}

fn filled(v: u8) -> HashVal {
    HashVal([v; 32])
}

fn sample_proof() -> FullProof {
    let mut p = vec![HashVal::zero(); 256];
    p[0] = filled(1);
    p[9] = filled(2);
    p[255] = filled(3);
    FullProof(p)
}

#[test]
fn path_bits_are_msb_first() {
    let path = key_to_path(key_with(0b1010_0000, 0b0000_0001));
    assert!(path[0]);
    assert!(!path[1]);
    assert!(path[2]);
    assert!(!path[3]);
    assert!(path[255]);
    assert_eq!(path.iter().filter(|b| **b).count(), 3);
}

#[test]
fn distinct_keys_have_distinct_paths() {
    let keys = [key_with(0, 0), key_with(0, 1), key_with(1, 0), key_with(128, 0), filled(255)];
    for (i, a) in keys.iter().enumerate() {
        for (j, b) in keys.iter().enumerate() {
            assert_eq!(i == j, key_to_path(*a) == key_to_path(*b));
        }
    }
}

#[test]
fn empty_data_hashes_to_the_sentinel() {
    assert_eq!(datablock(&[]), HashVal::zero());
    assert_eq!(node(&HashVal::zero(), &HashVal::zero()), HashVal::zero());
    let d = datablock(b"abc");
    assert_ne!(d, HashVal::zero());
    assert_ne!(&d.0[..3], b"abc");
    assert_ne!(node(&d, &HashVal::zero()), node(&HashVal::zero(), &d));
}

#[test]
fn chain_runs_from_root_to_leaf() {
    let key = key_with(0x80, 7);
    let c = data_hashes(key, b"hello");
    assert_eq!(c.len(), 257);
    assert_eq!(c[256], datablock(b"hello"));
    // the last bit of the key is 1: the leaf is a right child
    assert_eq!(c[255], node(&HashVal::zero(), &c[256]));
    // the first bit of the key is 1 too
    assert_eq!(c[0], node(&HashVal::zero(), &c[1]));
    // the second bit is 0: a left child
    assert_eq!(c[1], node(&c[2], &HashVal::zero()));
}

#[test]
fn compress_bitmap_and_tail() {
    let c = sample_proof().compress();
    assert_eq!(c.0.len(), 32 + 3 * 32);
    // levels 0, 9 and 255 are stored: their bits are clear
    assert_eq!(c.0[0], 0x7f);
    assert_eq!(c.0[1], 0xbf);
    for b in 2..31 {
        assert_eq!(c.0[b], 0xff);
    }
    assert_eq!(c.0[31], 0xfe);
    assert_eq!(&c.0[32..64], &[1u8; 32]);
    assert_eq!(&c.0[64..96], &[2u8; 32]);
    assert_eq!(&c.0[96..128], &[3u8; 32]);
}

#[test]
fn compress_then_decompress_is_identity() {
    let p = sample_proof();
    assert_eq!(p.compress().decompress(), Some(p));
    let all_zero = FullProof(vec![HashVal::zero(); 256]);
    let c = all_zero.compress();
    assert_eq!(c.0, vec![0xff; 32]);
    assert_eq!(c.decompress(), Some(all_zero));
    let full = FullProof((0..256).map(|i| filled((i % 255) as u8 + 1)).collect());
    let c = full.compress();
    assert_eq!(c.0.len(), 32 + 256 * 32);
    assert_eq!(c.decompress(), Some(full));
}

#[test]
fn malformed_compressed_proofs_are_rejected() {
    assert_eq!(CompressedProof(vec![]).decompress(), None);
    assert_eq!(CompressedProof(vec![0xff; 31]).decompress(), None);
    assert_eq!(CompressedProof(vec![0xff; 33]).decompress(), None);
    // the bitmap asks for one stored sibling, and none follows
    let mut b = vec![0xff; 32];
    b[0] = 0x7f;
    assert_eq!(CompressedProof(b.clone()).decompress(), None);
    b.extend_from_slice(&[9u8; 32]);
    let p = CompressedProof(b).decompress().unwrap();
    assert_eq!(p.0[0], filled(9));
    assert_eq!(p.0[1], HashVal::zero());
}

#[test]
fn single_entry_tree_proves_inclusion() {
    let key = key_with(0x42, 0x17);
    let root = data_hashes(key, b"value")[0];
    let proof = FullProof(vec![HashVal::zero(); 256]);
    assert_eq!(proof.verify(root, key, b"value"), Some(true));
    assert_eq!(proof.verify(root, key, b"other"), None);
}

#[test]
fn other_key_in_single_entry_tree_is_excluded() {
    let key = key_with(0x00, 0x17);
    let other = key_with(0x80, 0x17);
    let chain = data_hashes(key, b"value");
    let root = chain[0];
    // the paths part at level 0: the sibling there is the subtree of `key`
    let mut siblings = vec![HashVal::zero(); 256];
    siblings[0] = chain[1];
    let proof = FullProof(siblings);
    assert_eq!(proof.verify(root, other, b"anything"), Some(false));
    assert_eq!(proof.verify(root, other, b""), Some(true));
}

#[test]
fn empty_tree_excludes_every_key() {
    let proof = FullProof(vec![HashVal::zero(); 256]);
    assert_eq!(proof.verify(HashVal::zero(), key_with(3, 4), b"v"), Some(false));
}

#[test]
fn tampered_proof_is_invalid() {
    let key = key_with(0x42, 0x17);
    let root = data_hashes(key, b"value")[0];
    for level in [0usize, 100, 255] {
        let mut siblings = vec![HashVal::zero(); 256];
        siblings[level] = filled(1);
        assert_eq!(FullProof(siblings).verify(root, key, b"value"), None);
    }
    let mut bad_root = root;
    bad_root.0[0] ^= 1;
    let proof = FullProof(vec![HashVal::zero(); 256]);
    assert_eq!(proof.verify(bad_root, key, b"value"), None);
}

#[test]
fn cache_gives_the_same_chains() {
    let mut cache = ProofChainCache::new();
    let key = key_with(1, 2);
    let a = cache.data_hashes(key, b"x");
    assert_eq!(cache.len(), 1);
    let b = cache.data_hashes(key, b"x");
    assert_eq!(cache.len(), 1);
    assert_eq!(a, b);
    assert_eq!(a, data_hashes(key, b"x"));
    let c = cache.data_hashes(key, b"y");
    assert_eq!(cache.len(), 2);
    assert_ne!(a, c);
}

#[test]
fn two_key_tree_proves_inclusion_and_exclusion() {
    // k1 starts with bit 0, k2 with bit 1; k3 shares k1's first bit only
    let k1 = key_with(0x00, 1);
    let k2 = key_with(0x80, 2);
    let k3 = key_with(0x40, 3);
    let c1 = data_hashes(k1, b"one");
    let c2 = data_hashes(k2, b"two");
    let root = node(&c1[1], &c2[1]);

    let mut s1 = vec![HashVal::zero(); 256];
    s1[0] = c2[1];
    assert_eq!(FullProof(s1).verify(root, k1, b"one"), Some(true));

    let mut s2 = vec![HashVal::zero(); 256];
    s2[0] = c1[1];
    assert_eq!(FullProof(s2.clone()).verify(root, k2, b"two"), Some(true));
    assert_eq!(FullProof(s2).verify(root, k2, b"one"), None);

    let mut s3 = vec![HashVal::zero(); 256];
    s3[0] = c2[1];
    s3[1] = c1[2];
    let p3 = FullProof(s3);
    assert_eq!(p3.verify(root, k3, b"three"), Some(false));
    assert_eq!(p3.compress().decompress(), Some(p3));
}
