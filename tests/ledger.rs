use vote_server::catalog::Election;
use vote_server::error::VoteError;
use vote_server::ledger::{create_db, decode_candidate, get_ballot_bytes, get_results, store_ballot, Ledger, NfRecord, ValidationResult, VoteRecord};

fn h(b: u8) -> [u8; 32] {
    [b; 32]
}

fn election(id: u32) -> Election {
    Election { id, name: String::from("test"), definition: String::from("{}") }
}

fn ballot(sig: u8, amount: u64, candidate: [u8; 4], nfs: Vec<[u8; 32]>) -> ValidationResult {
    ValidationResult { sig_hash: h(sig), amount, candidate: candidate.to_vec(), nfs }
}

#[test]
fn replayed_nullifier_rolls_back_whole_ballot() {
    let mut ledger = create_db();
    let e = election(1);
    let a = ballot(0xa0, 500, [2, 0, 0, 0], vec![h(1), h(2)]);
    let b = ballot(0xb0, 700, [3, 0, 0, 0], vec![h(2), h(3)]);
    let sa = store_ballot(&mut ledger, &e, &a, b"ballot A").unwrap();
    assert_eq!(sa, h(0xa0));
    assert_eq!(store_ballot(&mut ledger, &e, &b, b"ballot B"), Err(VoteError::DuplicateVote));
    assert_eq!(ledger.vote_count(), 1);
    assert_eq!(ledger.nf_count(), 2);
    assert_eq!(ledger.nf_at(0).hash, h(1));
    assert_eq!(ledger.nf_at(1).hash, h(2));
    assert_eq!(get_ballot_bytes(&sa, &ledger), Ok(b"ballot A".to_vec()));
    assert_eq!(get_ballot_bytes(&h(0xb0), &ledger), Err(VoteError::NotFound));
    assert_eq!(get_results(&ledger), vec![(2u32, 500u64)]);
}

#[test]
fn disjoint_ballots_all_stored_and_retrievable() {
    let mut ledger = create_db();
    let e = election(7);
    let items: Vec<(ValidationResult, Vec<u8>)> = (0u8..5)
        .map(|i| (ballot(100 + i, i as u64 * 10, [i, 0, 0, 0], vec![h(2 * i + 1), h(2 * i + 2)]), vec![i; i as usize + 1]))
        .collect();
    for (b, data) in items.iter() {
        assert_eq!(store_ballot(&mut ledger, &e, b, data), Ok(b.sig_hash));
    }
    for (b, data) in items.iter() {
        assert_eq!(get_ballot_bytes(&b.sig_hash, &ledger), Ok(data.clone()));
    }
    assert_eq!(ledger.vote_count(), 5);
    assert_eq!(ledger.nf_count(), 10);
    let row = ledger.vote_at(3);
    assert_eq!(row.id_vote, 4);
    assert_eq!(row.id_election, 7);
    assert_eq!(ledger.nf_at(9).id_nf, 10);
    assert_eq!(ledger.nf_at(9).vote, 5);
}

#[test]
fn replay_leaves_row_counts_unchanged() {
    let mut ledger = create_db();
    let e = election(1);
    store_ballot(&mut ledger, &e, &ballot(1, 1, [0, 0, 0, 0], vec![h(9)]), b"x").unwrap();
    let again = ballot(2, 2, [0, 0, 0, 0], vec![h(8), h(7), h(9)]);
    assert_eq!(store_ballot(&mut ledger, &e, &again, b"y"), Err(VoteError::DuplicateVote));
    assert_eq!(ledger.vote_count(), 1);
    assert_eq!(ledger.nf_count(), 1);
}

#[test]
fn identical_resubmission_is_duplicate() {
    let mut ledger = create_db();
    let e = election(1);
    let a = ballot(1, 1, [0, 0, 0, 0], vec![h(5)]);
    assert!(store_ballot(&mut ledger, &e, &a, b"same").is_ok());
    assert_eq!(store_ballot(&mut ledger, &e, &a, b"same"), Err(VoteError::DuplicateVote));
    assert_eq!(ledger.vote_count(), 1);
}

#[test]
fn nullifier_repeated_within_ballot_is_duplicate() {
    let mut ledger = create_db();
    let e = election(1);
    let a = ballot(1, 1, [0, 0, 0, 0], vec![h(4), h(6), h(4)]);
    assert_eq!(store_ballot(&mut ledger, &e, &a, b"z"), Err(VoteError::DuplicateVote));
    assert_eq!(ledger.vote_count(), 0);
    assert_eq!(ledger.nf_count(), 0);
}

#[test]
fn ballot_without_nullifiers_is_stored() {
    let mut ledger = create_db();
    let e = election(1);
    assert_eq!(store_ballot(&mut ledger, &e, &ballot(3, 9, [0, 0, 0, 0], vec![]), b""), Ok(h(3)));
    assert_eq!(get_ballot_bytes(&h(3), &ledger), Ok(vec![]));
    assert_eq!(ledger.nf_count(), 0);
}

#[test]
fn shared_nullifier_exactly_one_wins_either_order() {
    let e = election(1);
    let a = ballot(1, 10, [1, 0, 0, 0], vec![h(1), h(2)]);
    let b = ballot(2, 20, [2, 0, 0, 0], vec![h(3), h(2)]);
    let mut first = create_db();
    assert!(store_ballot(&mut first, &e, &a, b"a").is_ok());
    assert_eq!(store_ballot(&mut first, &e, &b, b"b"), Err(VoteError::DuplicateVote));
    assert_eq!(get_results(&first), vec![(1, 10)]);
    let mut second = create_db();
    assert!(store_ballot(&mut second, &e, &b, b"b").is_ok());
    assert_eq!(store_ballot(&mut second, &e, &a, b"a"), Err(VoteError::DuplicateVote));
    assert_eq!(get_results(&second), vec![(2, 20)]);
}

#[test]
fn tally_has_one_entry_per_stored_ballot() {
    let mut ledger = create_db();
    let e = election(1);
    assert_eq!(get_results(&ledger), vec![]);
    store_ballot(&mut ledger, &e, &ballot(1, 100, [1, 0, 0, 0], vec![h(1)]), b"1").unwrap();
    store_ballot(&mut ledger, &e, &ballot(2, 200, [2, 0, 0, 0], vec![h(2)]), b"2").unwrap();
    store_ballot(&mut ledger, &e, &ballot(3, 300, [1, 0, 0, 0], vec![h(3)]), b"3").unwrap();
    let mut r = get_results(&ledger);
    r.sort();
    assert_eq!(r, vec![(1, 100), (1, 300), (2, 200)]);
}

#[test]
fn candidate_is_little_endian() {
    let mut ledger = create_db();
    let e = election(1);
    store_ballot(&mut ledger, &e, &ballot(1, u64::MAX, [1, 2, 3, 4], vec![h(1)]), b"1").unwrap();
    store_ballot(&mut ledger, &e, &ballot(2, 0, [0xff, 0xff, 0xff, 0xff], vec![h(2)]), b"2").unwrap();
    assert_eq!(get_results(&ledger), vec![(0x04030201, u64::MAX), (u32::MAX, 0)]);
    assert_eq!(ledger.vote_at(0).candidate, 0x04030201);
}

#[test]
fn retrieval_returns_first_ballot_with_hash() {
    let mut ledger = create_db();
    let e = election(1);
    store_ballot(&mut ledger, &e, &ballot(1, 1, [0, 0, 0, 0], vec![h(1)]), b"first").unwrap();
    store_ballot(&mut ledger, &e, &ballot(1, 1, [0, 0, 0, 0], vec![h(2)]), b"second").unwrap();
    assert_eq!(get_ballot_bytes(&h(1), &ledger), Ok(b"first".to_vec()));
    assert_eq!(get_ballot_bytes(&[1u8; 31], &ledger), Err(VoteError::NotFound));
}

fn vote_row(id: u64, sig: u8) -> VoteRecord {
    VoteRecord { id_vote: id, id_election: 1, sig_hash: h(sig), amount: 5, candidate: 2, data: vec![sig] }
}

fn nf_row(id: u64, vote: u64, hash: u8) -> NfRecord {
    NfRecord { id_nf: id, vote, hash: h(hash) }
}

#[test]
fn restore_accepts_consistent_rows() {
    let mut ledger = Ledger::restore(vec![vote_row(1, 10), vote_row(2, 20)], vec![nf_row(1, 1, 1), nf_row(2, 2, 2)]).unwrap();
    assert_eq!(ledger.vote_count(), 2);
    assert_eq!(get_ballot_bytes(&h(20), &ledger), Ok(vec![20]));
    let e = election(1);
    assert_eq!(store_ballot(&mut ledger, &e, &ballot(3, 1, [0, 0, 0, 0], vec![h(2)]), b"r"), Err(VoteError::DuplicateVote));
    assert_eq!(store_ballot(&mut ledger, &e, &ballot(3, 1, [0, 0, 0, 0], vec![h(3)]), b"r"), Ok(h(3)));
    assert_eq!(ledger.vote_at(2).id_vote, 3);
    assert_eq!(ledger.nf_at(2).id_nf, 3);
}

#[test]
fn restore_rejects_inconsistent_rows() {
    assert!(Ledger::restore(vec![vote_row(2, 10)], vec![]).is_err());
    assert!(Ledger::restore(vec![vote_row(1, 10)], vec![nf_row(1, 2, 1)]).is_err());
    assert!(Ledger::restore(vec![vote_row(1, 10)], vec![nf_row(1, 1, 1), nf_row(2, 1, 1)]).is_err());
    assert_eq!(Ledger::restore(vec![vote_row(1, 10)], vec![nf_row(2, 1, 1)]).err(), Some(VoteError::StorageFailure));
}

#[test]
fn decode_candidate_reads_four_little_endian_bytes() {
    assert_eq!(decode_candidate(&[1, 2, 3, 4]), 0x04030201);
    assert_eq!(decode_candidate(&[0, 0, 0, 0x80]), 0x80000000);
}
