use simnet::bft::{
    two_thirds_threshold, Genesis, PermissionedBFTBase, PermissionedBFTBlock,
    PermissionedBFTProposal,
};

#[test]
fn lib_test_basic() {
    // Construct the genesis block
    let genesis = Genesis::new(5, 2);
    let current = PermissionedBFTBase::Genesis(genesis);
    assert_eq!(current.last_final().n(), genesis.n());

    for _ in 0..2 {
        let mut proposal = PermissionedBFTProposal::new(current.clone());
        assert!(proposal.is_valid());
        assert!(!proposal.is_notarized());

        // Not enough signatures
        proposal.add_signature(0).unwrap();
        assert!(!proposal.is_notarized());

        // Same index, so we still only have one signature
        proposal.add_signature(0).unwrap();
        assert!(!proposal.is_notarized());

        // Different index, now we have two signatures as required
        proposal.add_signature(1).unwrap();
        assert!(proposal.is_notarized());

        let block = PermissionedBFTBlock::new(proposal).unwrap();
        assert_eq!(block.last_final().n(), genesis.n());
    }
}

#[test]
fn test_assertions() {
    let genesis = Genesis::new(5, 2);
    let mut proposal = PermissionedBFTProposal::new(PermissionedBFTBase::Genesis(genesis));
    assert!(PermissionedBFTBlock::new(proposal.clone()).is_err());

    proposal.add_signature(0).unwrap();
    assert!(PermissionedBFTBlock::new(proposal.clone()).is_err());

    proposal.add_signature(1).unwrap();
    assert!(PermissionedBFTBlock::new(proposal).is_ok());
}

#[test]
fn test_two_thirds_threshold_values() {
    assert_eq!(two_thirds_threshold(0), 0);
    assert_eq!(two_thirds_threshold(1), 1);
    assert_eq!(two_thirds_threshold(2), 2);
    assert_eq!(two_thirds_threshold(3), 2);
    assert_eq!(two_thirds_threshold(4), 3);
    assert_eq!(two_thirds_threshold(5), 4);
    assert_eq!(two_thirds_threshold(6), 4);
}

#[test]
fn test_too_many_signatures() {
    let genesis = Genesis::new(2, 1);
    let mut proposal = PermissionedBFTProposal::new(PermissionedBFTBase::Genesis(genesis));
    proposal.add_signature(0).unwrap();
    proposal.add_signature(1).unwrap();
    assert!(proposal.is_valid());
    assert!(proposal.add_signature(2).is_err());
    assert!(!proposal.is_valid());
}

#[test]
fn test_chain_to_genesis() {
    let genesis = Genesis::new(3, 2);
    let mut proposal = PermissionedBFTProposal::new(PermissionedBFTBase::Genesis(genesis));
    proposal.add_signature(0).unwrap();
    proposal.add_signature(2).unwrap();
    let block = PermissionedBFTBlock::new(proposal).unwrap();

    // extend the chain by one more block; last_final still reaches genesis
    let mut next = PermissionedBFTProposal::new(PermissionedBFTBase::Block(Box::new(block)));
    next.add_signature(1).unwrap();
    next.add_signature(2).unwrap();
    let block2 = PermissionedBFTBlock::new(next).unwrap();
    assert_eq!(*block2.last_final(), genesis);
    assert_eq!(block2.n(), 3);
    assert_eq!(block2.t(), 2);
}
