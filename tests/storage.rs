use themelio_core::block::{Block, BlockHeader};
use themelio_core::hash::HashVal;
use themelio_core::storage::{
    cproof_key_bytes, metadata_namespace, last_confirmed_key_bytes, state_key_bytes, stored_last_confirmed, Metadata,
    NodeStorage, SealedState, StorageError, TrustedHeight,
};

fn state(height: u64, tag: u8) -> SealedState {
    SealedState {
        height,
        root: HashVal([tag; 32]),
        partial_encoding: vec![tag, height as u8],
    }
}

fn blk(height: u64) -> Block {
    Block {
        header: BlockHeader {
            height,
            encoding: vec![height as u8],
        },
        transactions: vec![vec![1, 2], vec![3]],
        proposer_action: vec![],
    }
}

fn genesis_store() -> NodeStorage {
    NodeStorage::new(Metadata::new(), None, state(0, 0))
}

#[test]
fn metadata_keys_are_decimal() {
    assert_eq!(state_key_bytes(0), b"state-0".to_vec());
    assert_eq!(state_key_bytes(12), b"state-12".to_vec());
    assert_eq!(cproof_key_bytes(1907), b"cproof-1907".to_vec());
    assert_eq!(
        state_key_bytes(u64::MAX),
        b"state-18446744073709551615".to_vec()
    );
    assert_eq!(last_confirmed_key_bytes(), b"last_confirmed".to_vec());
}

#[test]
fn metadata_insert_overrides() {
    let mut m = Metadata::new();
    assert_eq!(m.get(b"a"), None);
    m.insert(b"a".to_vec(), b"1".to_vec());
    m.insert(b"b".to_vec(), b"2".to_vec());
    m.insert(b"a".to_vec(), b"3".to_vec());
    assert_eq!(m.get(b"a"), Some(b"3".to_vec()));
    assert_eq!(m.get(b"b"), Some(b"2".to_vec()));
    assert_eq!(m.entries().len(), 2);
    let m = Metadata::from_entries(vec![
        (b"k".to_vec(), b"old".to_vec()),
        (b"k".to_vec(), b"new".to_vec()),
    ]);
    assert_eq!(m.get(b"k"), Some(b"new".to_vec()));
}

#[test]
fn apply_one_block_from_genesis() {
    let mut s = genesis_store();
    assert_eq!(s.highest_height(), 0);
    let cproof = vec![7u8, 7, 7];
    assert_eq!(s.apply_block(&blk(1), state(1, 1), cproof.clone()), Ok(()));
    assert_eq!(s.highest_height(), 1);
    let h = s.highest_state();
    assert_eq!(h.root, HashVal([1; 32]));
    assert_eq!(s.get_state(1), Some(h.partial_encoding.clone()));
    assert_eq!(s.get_state(2), None);
    assert_eq!(s.get_consensus(1), Some(cproof));
    assert_eq!(s.get_consensus(2), None);
    assert_eq!(
        s.apply_block(&blk(1), state(1, 9), vec![]),
        Err(StorageError::SequenceViolation)
    );
    assert_eq!(s.highest_height(), 1);
    assert_eq!(s.highest_state().root, HashVal([1; 32]));
}

#[test]
fn out_of_sequence_heights_change_nothing() {
    let mut s = genesis_store();
    for h in [0u64, 2, 5, u64::MAX] {
        assert_eq!(
            s.apply_block(&blk(h), state(h, 3), vec![1]),
            Err(StorageError::SequenceViolation)
        );
        assert_eq!(s.highest_height(), 0);
        assert_eq!(s.highest_state().root, HashVal([0; 32]));
        assert_eq!(s.get_state(h), None);
    }
    assert_eq!(
        s.apply_block(&blk(1), state(2, 3), vec![1]),
        Err(StorageError::HeightMismatch)
    );
    assert_eq!(s.highest_height(), 0);
}

#[test]
fn mempool_moves_onto_the_new_state() {
    let mut s = genesis_store();
    assert_eq!(s.mempool().base().parent_height, 0);
    s.add_transaction(vec![1, 2, 3]);
    assert_eq!(s.mempool().len(), 1);
    s.apply_block(&blk(1), state(1, 5), vec![]).unwrap();
    let base = s.mempool().base();
    assert_eq!(base.parent_height, 1);
    assert_eq!(base.parent_root, HashVal([5; 32]));
    assert_eq!(s.mempool().len(), 0);
}

#[test]
fn restored_state_takes_precedence_over_genesis() {
    let mut s = genesis_store();
    s.apply_block(&blk(1), state(1, 1), vec![]).unwrap();
    s.record_last_confirmed();
    let stored = stored_last_confirmed(s.metadata());
    assert_eq!(stored, Some(vec![1u8, 1]));
    assert_eq!(stored_last_confirmed(&Metadata::new()), None);
    let r = NodeStorage::new(Metadata::new(), Some(state(1, 1)), state(0, 0));
    assert_eq!(r.highest_height(), 1);
    assert_eq!(r.mempool().base().parent_height, 1);
}

#[test]
fn trust_checkpoints_round_trip() {
    let mut s = genesis_store();
    assert_eq!(s.get_trusted(b"testnet"), Ok(None));
    let t = TrustedHeight {
        height: 77,
        header_hash: HashVal([4; 32]),
    };
    s.set_trusted(b"testnet", t);
    let got = s.get_trusted(b"testnet").unwrap().unwrap();
    assert_eq!(got.height, 77);
    assert_eq!(got.header_hash, HashVal([4; 32]));
    assert_eq!(s.get_trusted(b"mainnet"), Ok(None));
    let stored = s.metadata().get(b"testnet").unwrap();
    assert_ne!(stored.len(), 0);
    assert_ne!(stored, b"testnet".to_vec());
}

#[test]
fn corrupt_trust_checkpoint_is_a_decode_failure() {
    let mut m = Metadata::new();
    m.insert(b"net".to_vec(), vec![]);
    let s = NodeStorage::new(m, None, state(0, 0));
    assert_eq!(s.get_trusted(b"net"), Err(StorageError::DecodeFailure));
}

#[test]
fn metadata_namespace_is_scoped_by_genesis() {
    let a = metadata_namespace(b"genesis one");
    let expected = format!("meta_genesis{}", tmelcrypt::hash_single(b"genesis one"));
    assert_eq!(String::from_utf8(a.clone()).unwrap(), expected);
    assert_eq!(a.len(), 12 + 64);
    assert!(a[12..].iter().all(|c| c.is_ascii_digit() || (b'a'..=b'f').contains(c)));
    assert_ne!(a, metadata_namespace(b"genesis two"));
}

#[test]
fn trust_checkpoint_bytes_follow_the_varint_layout() {
    let hash = HashVal([4; 32]);
    let cases: Vec<(u64, Vec<u8>)> = vec![
        (0, vec![0]),
        (250, vec![250]),
        (251, vec![251, 251, 0]),
        (300, vec![251, 44, 1]),
        (70000, vec![252, 0x70, 0x11, 0x01, 0x00]),
        (1u64 << 32, vec![253, 0, 0, 0, 0, 1, 0, 0, 0]),
        (u64::MAX, vec![253, 255, 255, 255, 255, 255, 255, 255, 255]),
    ];
    for (height, prefix) in cases {
        let mut s = genesis_store();
        s.set_trusted(b"net", TrustedHeight { height, header_hash: hash });
        let mut expected = prefix.clone();
        expected.extend_from_slice(&[4u8; 32]);
        assert_eq!(s.metadata().get(b"net"), Some(expected));
        assert_eq!(
            s.get_trusted(b"net"),
            Ok(Some(TrustedHeight { height, header_hash: hash }))
        );
    }
}

#[test]
fn malformed_trust_checkpoints_are_refused() {
    let mut bad = vec![vec![254u8], vec![255u8], vec![5u8], vec![251u8, 1]];
    let mut long = vec![7u8];
    long.extend_from_slice(&[1u8; 33]);
    bad.push(long);
    let mut tagged = vec![254u8];
    tagged.extend_from_slice(&[1u8; 48]);
    bad.push(tagged);
    for b in bad {
        let mut m = Metadata::new();
        m.insert(b"net".to_vec(), b);
        let s = NodeStorage::new(m, None, state(0, 0));
        assert_eq!(s.get_trusted(b"net"), Err(StorageError::DecodeFailure));
    }
}
