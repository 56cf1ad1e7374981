use vstd::prelude::*;

use crate::catalog::Election;
use crate::encoding::{decode_hex, hex_decode, hex_encode, hex_of, is_hex_text};
use crate::error::VoteError;
use crate::ledger::{get_ballot_bytes, store_ballot, Ledger, ValidationResult};

verus! {

/// Stores a validated ballot for `election` and answers with its signature
/// hash in hexadecimal, or with the reason it was refused.
pub fn submit_ballot(
    ledger: &mut Ledger,
    election: &Election,
    ballot: &ValidationResult,
    ballot_bytes: &[u8],
) -> (r: Result<String, VoteError>)
    requires
        ballot.candidate@.len() == 4,
    ensures
        final(ledger)@.well_formed(),
        final(ledger)@ == old(ledger)@.store(election.id, ballot@, ballot_bytes@).0,
        match r {
            Ok(t) => old(ledger)@.store(election.id, ballot@, ballot_bytes@).1 is Ok && t@ == hex_of(
                ballot.sig_hash@,
            ),
            Err(e) => old(ledger)@.store(election.id, ballot@, ballot_bytes@).1 == Err::<
                Seq<u8>,
                VoteError,
            >(e),
        },
{
    match store_ballot(ledger, election, ballot, ballot_bytes) {
        Ok(h) => Ok(hex_encode(&h)),
        Err(e) => Err(e),
    }
}

/// The raw bytes, in hexadecimal, of the ballot whose signature hash is
/// spelled by `hash`; `NotFound` when the text is not hexadecimal or no
/// ballot has that hash.
pub fn fetch_ballot(hash: &str, ledger: &Ledger) -> (r: Result<String, VoteError>)
    ensures
        match r {
            Ok(t) => is_hex_text(hash@) && (ledger@.ballot_bytes(decode_hex(hash@)) matches Some(d)
                && t@ == hex_of(d)),
            Err(e) => e == VoteError::NotFound && (!is_hex_text(hash@) || ledger@.ballot_bytes(
                decode_hex(hash@),
            ) is None),
        },
{
    match hex_decode(hash) {
        None => Err(VoteError::NotFound),
        Some(h) => match get_ballot_bytes(&h, ledger) {
            Ok(d) => Ok(hex_encode(&d)),
            Err(e) => Err(e),
        },
    }
}

} // verus!
