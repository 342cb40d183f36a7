use merkle_tree::{
    handle_set_clawback_start_ts, plan_file, read_blob, ui_amount_to_token_amount, verify,
    AirdropMerkleTree, CsvEntry, ErrorCode, MerkleDistributor, MerkleTreeError, TreeNode,
    UiAmount,
};

fn csv_bytes(text: &str) -> Vec<u8> {
    text.as_bytes().to_vec()
}

fn node(tag: u8, unlocked: u64, locked: u64) -> TreeNode {
    TreeNode { claimant: [tag; 32], amount_unlocked: unlocked, amount_locked: locked, proof: None }
}

fn sample_records() -> Vec<TreeNode> {
    vec![node(1, 10, 0), node(2, 20, 5), node(3, 30, 7), node(4, 40, 0), node(5, 50, 3)]
}

#[test]
fn test_csv_parsing() {
    let data = csv_bytes(
        "pubkey,amount\n\
         4SX6nqv5VRLMoNfYM5phvHgcBNcBEwUEES4qPPjf1EqS,1000\n\
         So11111111111111111111111111111111111111112,500\n\
         11111111111111111111111111111111,42\n",
    );
    let entries = CsvEntry::new_from_bytes(&data).expect("Failed to parse CSV");

    assert_eq!(entries.len(), 3);

    assert_eq!(
        entries[0].pubkey,
        b"4SX6nqv5VRLMoNfYM5phvHgcBNcBEwUEES4qPPjf1EqS".to_vec()
    );
    // This will work with legacy format where amount becomes amount_unlocked
    let unlocked = entries[0].unlocked_amount();
    assert_eq!(unlocked.int_part, 1000);
    assert!(unlocked.frac.is_empty());
}

#[test]
fn legacy_amount_normalizes_to_unlocked_base_units() {
    let data = csv_bytes(
        "pubkey,amount,amount_unlocked,amount_locked\n\
         11111111111111111111111111111111,1000,0,0\n",
    );
    let entries = CsvEntry::new_from_bytes(&data).unwrap();
    assert_eq!(entries.len(), 1);
    let node = TreeNode::from_csv(entries.into_iter().next().unwrap(), 6).unwrap();
    assert_eq!(node.amount_unlocked, 1_000_000_000);
    assert_eq!(node.amount_locked, 0);
}

#[test]
fn normalized_claimant_matches_base58_decoding() {
    let data = csv_bytes(
        "pubkey,amount_unlocked,amount_locked\n\
         So11111111111111111111111111111111111111112,1.5,0.25\n",
    );
    let entries = CsvEntry::new_from_bytes(&data).unwrap();
    let node = TreeNode::from_csv(entries.into_iter().next().unwrap(), 2).unwrap();
    let expected = <solana_program::pubkey::Pubkey as std::str::FromStr>::from_str(
        "So11111111111111111111111111111111111111112",
    )
    .unwrap()
    .to_bytes();
    assert_eq!(node.claimant, expected);
    assert_eq!(node.amount_unlocked, 150);
    assert_eq!(node.amount_locked, 25);
}

#[test]
fn invalid_claimant_key_is_rejected() {
    let data = csv_bytes("pubkey,amount_unlocked\nnot-a-key,1\n");
    let entries = CsvEntry::new_from_bytes(&data).unwrap();
    let err = TreeNode::from_csv(entries.into_iter().next().unwrap(), 6).unwrap_err();
    assert_eq!(err, MerkleTreeError::InvalidClaimantKeyError);
}

#[test]
fn oversized_decimals_is_an_arithmetic_error() {
    let amount = UiAmount { int_part: 1, frac: vec![] };
    let err = ui_amount_to_token_amount(&amount, 20).unwrap_err();
    assert_eq!(err, MerkleTreeError::ArithmeticError);
}

#[test]
fn conversion_overflow_is_an_arithmetic_error() {
    let amount = UiAmount { int_part: u64::MAX, frac: vec![] };
    let err = ui_amount_to_token_amount(&amount, 1).unwrap_err();
    assert_eq!(err, MerkleTreeError::ArithmeticError);
}

#[test]
fn conversion_truncates_extra_fraction_digits() {
    let amount = UiAmount { int_part: 1, frac: vec![2, 3, 4, 5] };
    // floor(1.2345 * 10^2) = 123
    assert_eq!(ui_amount_to_token_amount(&amount, 2).unwrap(), 123);
    // floor(1.2345 * 10^6) = 1_234_500
    assert_eq!(ui_amount_to_token_amount(&amount, 6).unwrap(), 1_234_500);
}

#[test]
fn leaf_hash_matches_direct_sha256() {
    let n = node(9, 2, 3);
    let expected = solana_program::hash::hashv(&[
        &[9u8; 32],
        &2u64.to_le_bytes(),
        &3u64.to_le_bytes(),
    ])
    .to_bytes();
    assert_eq!(n.hash(), expected);
}

#[test]
fn every_leaf_proof_verifies_against_the_root() {
    let tree = AirdropMerkleTree::new(sample_records()).unwrap();
    assert_eq!(tree.tree_nodes.len(), 5);
    assert_eq!(tree.merkle_root.len(), merkle_tree::HASH_LEN);
    for record in tree.tree_nodes.iter() {
        let proof = record.proof.as_ref().unwrap();
        assert!(verify(&tree.merkle_root, record, proof));
    }
}

#[test]
fn tampering_with_a_leaf_fails_verification() {
    let tree = AirdropMerkleTree::new(sample_records()).unwrap();
    let record = &tree.tree_nodes[2];
    let proof = record.proof.as_ref().unwrap();

    // flip each byte of the claimant key in turn
    for i in 0..32 {
        let mut claimant = record.claimant;
        claimant[i] ^= 0x01;
        let tampered = TreeNode {
            claimant,
            amount_unlocked: record.amount_unlocked,
            amount_locked: record.amount_locked,
            proof: None,
        };
        assert!(!verify(&tree.merkle_root, &tampered, proof));
    }
    // tamper with one byte of each amount
    let more = TreeNode {
        claimant: record.claimant,
        amount_unlocked: record.amount_unlocked ^ 0x0100,
        amount_locked: record.amount_locked,
        proof: None,
    };
    assert!(!verify(&tree.merkle_root, &more, proof));
    let less = TreeNode {
        claimant: record.claimant,
        amount_unlocked: record.amount_unlocked,
        amount_locked: record.amount_locked ^ 0x01,
        proof: None,
    };
    assert!(!verify(&tree.merkle_root, &less, proof));
}

#[test]
fn duplicate_claimants_fail_the_build() {
    let records = vec![node(1, 10, 0), node(2, 5, 5), node(1, 7, 0)];
    let err = AirdropMerkleTree::new(records).unwrap_err();
    assert_eq!(err, MerkleTreeError::DuplicateClaimantError);
}

#[test]
fn duplicate_pubkeys_in_a_csv_fail_the_build() {
    let data = csv_bytes(
        "pubkey,amount_unlocked\n\
         11111111111111111111111111111111,1\n\
         11111111111111111111111111111111,2\n",
    );
    let entries = CsvEntry::new_from_bytes(&data).unwrap();
    let mut records = Vec::new();
    for e in entries {
        records.push(TreeNode::from_csv(e, 6).unwrap());
    }
    let err = AirdropMerkleTree::new(records).unwrap_err();
    assert_eq!(err, MerkleTreeError::DuplicateClaimantError);
}

#[test]
fn zero_records_fail_the_build() {
    let data = csv_bytes("pubkey,amount_unlocked\n");
    let entries = CsvEntry::new_from_bytes(&data).unwrap();
    assert!(entries.is_empty());
    let err = AirdropMerkleTree::new(Vec::new()).unwrap_err();
    assert_eq!(err, MerkleTreeError::EmptyTreeError);
}

#[test]
fn the_root_is_independent_of_record_order() {
    let forward = AirdropMerkleTree::new(sample_records()).unwrap();
    let mut shuffled = sample_records();
    shuffled.reverse();
    shuffled.swap(0, 2);
    let other = AirdropMerkleTree::new(shuffled).unwrap();
    assert_eq!(forward.merkle_root, other.merkle_root);
}

#[test]
fn blob_round_trip_preserves_the_tree() {
    let tree = AirdropMerkleTree::new(sample_records()).unwrap();
    let blob = tree.write_blob();
    let decoded = read_blob(&blob).unwrap();
    assert_eq!(decoded.merkle_root, tree.merkle_root);
    assert_eq!(decoded.tree_nodes.len(), tree.tree_nodes.len());
    for (a, b) in decoded.tree_nodes.iter().zip(tree.tree_nodes.iter()) {
        assert_eq!(a.claimant, b.claimant);
        assert_eq!(a.amount_unlocked, b.amount_unlocked);
        assert_eq!(a.amount_locked, b.amount_locked);
        assert_eq!(a.proof, b.proof);
    }
    // and the reconstructed tree still verifies
    for record in decoded.tree_nodes.iter() {
        assert!(verify(&decoded.merkle_root, record, record.proof.as_ref().unwrap()));
    }
}

#[test]
fn corrupt_blobs_are_rejected() {
    let tree = AirdropMerkleTree::new(sample_records()).unwrap();
    let blob = tree.write_blob();

    let mut truncated = blob.clone();
    truncated.pop();
    assert_eq!(read_blob(&truncated).unwrap_err(), MerkleTreeError::CorruptBlobError);

    let mut bad_version = blob.clone();
    bad_version[0] = 9;
    assert_eq!(read_blob(&bad_version).unwrap_err(), MerkleTreeError::CorruptBlobError);

    let mut trailing = blob.clone();
    trailing.push(0);
    assert_eq!(read_blob(&trailing).unwrap_err(), MerkleTreeError::CorruptBlobError);

    assert_eq!(read_blob(&Vec::new()).unwrap_err(), MerkleTreeError::CorruptBlobError);
}

#[test]
fn malformed_csv_is_rejected() {
    // a row with the wrong number of fields
    let wrong_arity = csv_bytes("pubkey,amount_unlocked\nabc,1,2\n");
    assert_eq!(
        CsvEntry::new_from_bytes(&wrong_arity).unwrap_err(),
        MerkleTreeError::MalformedInputError
    );
    // a non-numeric amount
    let bad_number = csv_bytes("pubkey,amount_unlocked\nabc,12x\n");
    assert_eq!(
        CsvEntry::new_from_bytes(&bad_number).unwrap_err(),
        MerkleTreeError::MalformedInputError
    );
    // an empty pubkey field
    let empty_key = csv_bytes("pubkey,amount_unlocked\n,1\n");
    assert_eq!(
        CsvEntry::new_from_bytes(&empty_key).unwrap_err(),
        MerkleTreeError::MalformedInputError
    );
    // an unknown column
    let unknown_col = csv_bytes("pubkey,owner\nabc,1\n");
    assert_eq!(
        CsvEntry::new_from_bytes(&unknown_col).unwrap_err(),
        MerkleTreeError::MalformedInputError
    );
    // a repeated column
    let repeated_col = csv_bytes("pubkey,pubkey\nabc,abc\n");
    assert_eq!(
        CsvEntry::new_from_bytes(&repeated_col).unwrap_err(),
        MerkleTreeError::MalformedInputError
    );
}

#[test]
fn missing_amount_columns_default_to_zero() {
    let data = csv_bytes("pubkey\n11111111111111111111111111111111\n");
    let entries = CsvEntry::new_from_bytes(&data).unwrap();
    assert_eq!(entries.len(), 1);
    assert_eq!(entries[0].unlocked_amount().int_part, 0);
    assert_eq!(entries[0].locked_amount().int_part, 0);
    assert!(entries[0].amount.is_none());
}

#[test]
fn crlf_lines_and_fractions_parse() {
    let data = csv_bytes(
        "pubkey,amount_unlocked,amount_locked\r\n\
         11111111111111111111111111111111,0.5,.25\r\n",
    );
    let entries = CsvEntry::new_from_bytes(&data).unwrap();
    assert_eq!(entries.len(), 1);
    let n = TreeNode::from_csv(entries.into_iter().next().unwrap(), 3).unwrap();
    assert_eq!(n.amount_unlocked, 500);
    assert_eq!(n.amount_locked, 250);
}

#[test]
fn batch_plan_skips_existing_blobs() {
    let existing = plan_file(&b"airdrop.bin".to_vec());
    let fresh = plan_file(&b"airdrop2.csv".to_vec());
    let no_extension = plan_file(&b"README".to_vec());
    let hidden = plan_file(&b".gitignore".to_vec());
    assert!(existing.is_none());
    assert_eq!(fresh.unwrap(), b"airdrop2.bin".to_vec());
    assert!(no_extension.is_none());
    assert!(hidden.is_none());
}

#[test]
fn clawback_start_ts_rules() {
    let mut d = MerkleDistributor { end_ts: 1_000_000, clawback_start_ts: 0 };

    // not in the future
    assert_eq!(
        handle_set_clawback_start_ts(&mut d, 2_000_000, 1_500_000).unwrap_err(),
        ErrorCode::TimestampsNotInFuture
    );
    assert_eq!(d.clawback_start_ts, 0);

    // less than one day after the end of vesting
    assert_eq!(
        handle_set_clawback_start_ts(&mut d, 1_000_000, 1_050_000).unwrap_err(),
        ErrorCode::InsufficientClawbackDelay
    );
    assert_eq!(d.clawback_start_ts, 0);

    // overflow of end_ts + one day
    let mut far = MerkleDistributor { end_ts: i64::MAX - 10, clawback_start_ts: 0 };
    assert_eq!(
        handle_set_clawback_start_ts(&mut far, 0, i64::MAX).unwrap_err(),
        ErrorCode::ArithmeticError
    );

    // accepted
    handle_set_clawback_start_ts(&mut d, 1_000_000, 1_086_400).unwrap();
    assert_eq!(d.clawback_start_ts, 1_086_400);
    assert_eq!(d.end_ts, 1_000_000);
}

#[test]
fn full_pipeline_from_csv_to_blob() {
    let data = csv_bytes(
        "pubkey,amount_unlocked,amount_locked\n\
         11111111111111111111111111111111,10,0\n\
         So11111111111111111111111111111111111111112,20,5\n\
         Vote111111111111111111111111111111111111111,30,7\n",
    );
    let entries = CsvEntry::new_from_bytes(&data).unwrap();
    let mut records = Vec::new();
    for e in entries {
        records.push(TreeNode::from_csv(e, 9).unwrap());
    }
    assert_eq!(records[0].amount_unlocked, 10_000_000_000);
    let tree = AirdropMerkleTree::new(records).unwrap();
    let blob = tree.write_blob();
    let decoded = read_blob(&blob).unwrap();
    assert_eq!(decoded.merkle_root, tree.merkle_root);
    for record in decoded.tree_nodes.iter() {
        assert!(verify(&tree.merkle_root, record, record.proof.as_ref().unwrap()));
    }
}
