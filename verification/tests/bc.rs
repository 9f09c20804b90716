use simnet::bc::{BCBlock, BCContext, BCError, BCTransaction};
use simnet::utils::IdSource;

#[test]
fn test_basic() {
    let mut source = IdSource::new();
    let mut ctx = BCContext::new();

    // Genesis block
    let coinbase_tx0 =
        BCTransaction::new(vec![], vec![10], vec![], vec![], 0, None, 10, &mut source).unwrap();
    assert!(ctx.add_if_valid(coinbase_tx0.clone()));
    let genesis = BCBlock::new(None, 1, vec![coinbase_tx0.clone()], false, &mut source).unwrap();
    assert_eq!(genesis.score, 1);
    assert_eq!(ctx.total_issuance, 10);
}

#[test]
fn test_transaction_spend_flow() {
    let mut source = IdSource::new();
    let mut ctx = BCContext::new();

    // a coinbase issuing one transparent output and one shielded note
    let coinbase =
        BCTransaction::new(vec![], vec![7], vec![], vec![3], 0, None, 10, &mut source).unwrap();
    let txo = coinbase.transparent_outputs[0];
    let note = coinbase.shielded_outputs[0];
    assert!(coinbase.is_coinbase());
    assert!(ctx.add_if_valid(coinbase));

    // spend both; pay a fee of 1
    let spend = BCTransaction::new(
        vec![txo],
        vec![5],
        vec![note],
        vec![4],
        1,
        None,
        0,
        &mut source,
    )
    .unwrap();
    assert!(!spend.is_coinbase());
    assert!(ctx.is_valid(&spend));
    assert!(ctx.add_if_valid(spend.clone()));

    // the same inputs cannot be spent twice
    let double = BCTransaction::new(
        vec![txo],
        vec![5],
        vec![note],
        vec![4],
        1,
        None,
        0,
        &mut source,
    )
    .unwrap();
    assert!(!ctx.is_valid(&double));
    assert!(!ctx.add_if_valid(double));

    assert_eq!(ctx.total_issuance, 10);
}

#[test]
fn test_transaction_rejections() {
    let mut source = IdSource::new();
    let note = simnet::bc::Note::new(5, &mut source);

    // a negative fee outside a coinbase
    let r = BCTransaction::new(vec![], vec![], vec![note], vec![4], -1, None, 0, &mut source);
    assert_eq!(r.unwrap_err(), BCError::NegativeFee);

    // issuance outside a coinbase
    let r = BCTransaction::new(vec![], vec![5], vec![note], vec![9], 1, None, 2, &mut source);
    assert_eq!(r.unwrap_err(), BCError::UnexpectedIssuance);

    // unbalanced totals
    let r = BCTransaction::new(vec![], vec![4], vec![], vec![], 0, None, 10, &mut source);
    assert_eq!(r.unwrap_err(), BCError::Unbalanced);

    // a value total beyond 64 bits
    let r = BCTransaction::new(
        vec![],
        vec![u64::MAX, u64::MAX],
        vec![],
        vec![],
        0,
        None,
        1,
        &mut source,
    );
    assert_eq!(r.unwrap_err(), BCError::ValueOverflow);
}

#[test]
fn test_block_rejections() {
    let mut source = IdSource::new();

    let r = BCBlock::new(None, 1, vec![], false, &mut source);
    assert_eq!(r.unwrap_err(), BCError::EmptyBlock);

    let coinbase =
        BCTransaction::new(vec![], vec![10], vec![], vec![], 0, None, 10, &mut source).unwrap();
    let txo = coinbase.transparent_outputs[0];
    let spend =
        BCTransaction::new(vec![txo], vec![10], vec![], vec![], 0, None, 0, &mut source).unwrap();
    let second_coinbase =
        BCTransaction::new(vec![], vec![2], vec![], vec![], 0, None, 2, &mut source).unwrap();

    let r = BCBlock::new(None, 1, vec![spend.clone()], false, &mut source);
    assert_eq!(r.unwrap_err(), BCError::MissingCoinbase);

    let r = BCBlock::new(
        None,
        1,
        vec![coinbase.clone(), second_coinbase],
        false,
        &mut source,
    );
    assert_eq!(r.unwrap_err(), BCError::ExtraCoinbase);

    let fee_spend =
        BCTransaction::new(vec![txo], vec![9], vec![], vec![], 1, None, 0, &mut source).unwrap();
    let r = BCBlock::new(None, 1, vec![coinbase.clone(), fee_spend], false, &mut source);
    assert_eq!(r.unwrap_err(), BCError::UnbalancedFees);

    // allow_invalid skips the checks entirely
    let b = BCBlock::new(None, 3, vec![], true, &mut source).unwrap();
    assert_eq!(b.score, 3);
    assert!(b.assert_noncontextually_valid().is_err());

    // a chained block accumulates score
    let parent = BCBlock::new(None, 2, vec![coinbase.clone()], false, &mut source).unwrap();
    let child_coinbase =
        BCTransaction::new(vec![], vec![1], vec![], vec![], 0, None, 1, &mut source).unwrap();
    let child = BCBlock::new(Some(parent), 4, vec![child_coinbase], false, &mut source).unwrap();
    assert_eq!(child.score, 6);
}
