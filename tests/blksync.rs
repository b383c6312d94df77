use themelio_core::blksync::{branch_key, BlockFetch, SyncError, TX_FETCH_LIMIT};
use themelio_core::block::{AbbreviatedBlock, BlockHeader};
use themelio_core::hash::HashVal;

fn abbr(height: u64, n: usize) -> AbbreviatedBlock {
    AbbreviatedBlock {
        header: BlockHeader {
            height,
            encoding: vec![height as u8],
        },
        txhashes: (0..n).map(|i| HashVal([i as u8; 32])).collect(),
        proposer_action: vec![42],
    }
}

fn tx(i: usize) -> Vec<u8> {
    vec![i as u8, 0xee]
}

#[test]
fn wrong_height_is_a_protocol_violation() {
    let r = BlockFetch::start(10, abbr(11, 2), vec![1]);
    assert!(matches!(r, Err(SyncError::ProtocolViolation)));
}

#[test]
fn fully_cached_block_needs_no_fetch() {
    let cached = (0..3).map(|i| Some(tx(i))).collect();
    let mut f = BlockFetch::start(5, abbr(5, 3), vec![9]).unwrap();
    f.fill_cached(cached);
    assert_eq!(f.next_request(), None);
    let (b, p) = f.finish().ok().unwrap();
    assert_eq!(p, vec![9]);
    assert_eq!(b.header.height, 5);
    assert_eq!(b.transactions, vec![tx(0), tx(1), tx(2)]);
    assert_eq!(b.proposer_action, vec![42]);
}

#[test]
fn at_most_twenty_fetches_in_flight() {
    let n = 25;
    let mut f = BlockFetch::start(1, abbr(1, n), vec![]).unwrap();
    f.fill_cached(vec![None; n]);
    let mut launched = Vec::new();
    while let Some((i, h)) = f.next_request() {
        assert_eq!(h, HashVal([i as u8; 32]));
        launched.push(i);
    }
    assert_eq!(launched.len(), TX_FETCH_LIMIT);
    assert_eq!(launched, (0..20).collect::<Vec<_>>());
    assert_eq!(f.complete(3, tx(3)), Ok(()));
    assert_eq!(f.next_request().map(|r| r.0), Some(20));
    assert_eq!(f.next_request(), None);
}

#[test]
fn block_keeps_hash_order_whatever_the_arrival_order() {
    let cached = vec![None, Some(tx(1)), None, None, Some(tx(4))];
    let mut f = BlockFetch::start(3, abbr(3, 5), vec![]).unwrap();
    assert_eq!(f.txhashes().len(), 5);
    f.fill_cached(cached);
    let mut asked = Vec::new();
    while let Some((i, _)) = f.next_request() {
        asked.push(i);
    }
    assert_eq!(asked, vec![0, 2, 3]);
    for i in [3usize, 0, 2] {
        assert_eq!(f.complete(i, tx(i)), Ok(()));
    }
    let (b, _) = f.finish().ok().unwrap();
    assert_eq!(b.transactions, (0..5).map(tx).collect::<Vec<_>>());
}

#[test]
fn unrequested_answers_and_early_finish_are_refused() {
    let cached = vec![None, Some(tx(1))];
    let mut f = BlockFetch::start(3, abbr(3, 2), vec![]).unwrap();
    f.fill_cached(cached);
    assert_eq!(f.complete(0, tx(0)), Err(SyncError::UnexpectedResponse));
    assert_eq!(f.complete(1, tx(1)), Err(SyncError::UnexpectedResponse));
    assert_eq!(f.complete(7, tx(7)), Err(SyncError::UnexpectedResponse));
    assert_eq!(f.next_request().map(|r| r.0), Some(0));
    let f = match f.finish() {
        Err((f, e)) => {
            assert_eq!(e, SyncError::Incomplete);
            f
        }
        Ok(_) => panic!("finished with a transaction in flight"),
    };
    let mut f = f;
    assert_eq!(f.complete(0, tx(0)), Ok(()));
    assert_eq!(f.complete(0, tx(0)), Err(SyncError::UnexpectedResponse));
    assert!(f.finish().is_ok());
}

#[test]
fn branch_key_hashes_the_encoded_hash() {
    let h = HashVal([3; 32]);
    let k = branch_key(&h);
    assert_ne!(k, h);
    let encoded = stdcode::serialize(&tmelcrypt::HashVal([3; 32])).unwrap();
    assert_eq!(encoded, vec![3u8; 32]);
    assert_eq!(k.0, tmelcrypt::hash_single(&encoded).0);
    assert_ne!(branch_key(&HashVal([4; 32])), k);
}

#[test]
fn cache_fills_only_missing_slots() {
    let mut f = BlockFetch::start(2, abbr(2, 3), vec![]).unwrap();
    assert_eq!(f.next_request().map(|r| r.0), Some(0));
    f.fill_cached(vec![Some(tx(0)), None, Some(tx(2))]);
    assert_eq!(f.next_request().map(|r| r.0), Some(1));
    assert_eq!(f.next_request(), None);
    assert_eq!(f.complete(0, vec![0xaa]), Ok(()));
    assert_eq!(f.complete(1, tx(1)), Ok(()));
    let (b, _) = f.finish().ok().unwrap();
    assert_eq!(b.transactions, vec![vec![0xaa], tx(1), tx(2)]);
}
