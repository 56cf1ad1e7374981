use vstd::prelude::*;

use crate::bytes::{bytes_eq, hash_eq};
use crate::catalog::Election;
use crate::error::VoteError;

verus! {

/// What the proof validator extracts from a ballot whose proof verified.
pub struct ValidationResult {
    /// The ballot's public identifier.
    pub sig_hash: [u8; 32],
    pub amount: u64,
    /// The candidate, as four little-endian bytes.
    pub candidate: Vec<u8>,
    /// The nullifiers that the ballot spends, in the validator's order.
    pub nfs: Vec<[u8; 32]>,
}

pub struct BallotView {
    pub sig_hash: Seq<u8>,
    pub amount: u64,
    pub candidate: Seq<u8>,
    pub nfs: Seq<Seq<u8>>,
}

impl View for ValidationResult {
    type V = BallotView;

    open spec fn view(&self) -> BallotView {
        BallotView {
            sig_hash: self.sig_hash@,
            amount: self.amount,
            candidate: self.candidate@,
            nfs: self.nfs@.map_values(|h: [u8; 32]| h@),
        }
    }
}

/// A row of the ballot table.
pub struct VoteRecord {
    pub id_vote: u64,
    pub id_election: u32,
    pub sig_hash: [u8; 32],
    pub amount: u64,
    pub candidate: u32,
    pub data: Vec<u8>,
}

pub struct VoteView {
    pub id_vote: u64,
    pub id_election: u32,
    pub sig_hash: Seq<u8>,
    pub amount: u64,
    pub candidate: u32,
    pub data: Seq<u8>,
}

impl View for VoteRecord {
    type V = VoteView;

    open spec fn view(&self) -> VoteView {
        VoteView {
            id_vote: self.id_vote,
            id_election: self.id_election,
            sig_hash: self.sig_hash@,
            amount: self.amount,
            candidate: self.candidate,
            data: self.data@,
        }
    }
}

/// A row of the nullifier table.
pub struct NfRecord {
    pub id_nf: u64,
    pub vote: u64,
    pub hash: [u8; 32],
}

pub struct NfView {
    pub id_nf: u64,
    pub vote: u64,
    pub hash: Seq<u8>,
}

impl View for NfRecord {
    type V = NfView;

    open spec fn view(&self) -> NfView {
        NfView { id_nf: self.id_nf, vote: self.vote, hash: self.hash@ }
    }
}

/// The ballot ledger: the ballot table and the nullifier table.
pub struct Ledger {
    votes: Vec<VoteRecord>,
    nfs: Vec<NfRecord>,
}

pub struct LedgerView {
    pub votes: Seq<VoteView>,
    pub nfs: Seq<NfView>,
}

impl Ledger {
    #[verifier::type_invariant]
    spec fn inv(&self) -> bool {
        self@.well_formed()
    }
}

impl View for Ledger {
    type V = LedgerView;

    closed spec fn view(&self) -> LedgerView {
        LedgerView {
            votes: self.votes@.map_values(|v: VoteRecord| v@),
            nfs: self.nfs@.map_values(|n: NfRecord| n@),
        }
    }
}

/// The candidate number encoded by four little-endian bytes.
pub open spec fn candidate_value(c: Seq<u8>) -> u32 {
    (c[0] as int + 256 * c[1] as int + 65536 * c[2] as int + 16777216 * c[3] as int) as u32
}

/// The candidate number encoded by four little-endian bytes.
pub fn decode_candidate(c: &[u8]) -> (r: u32)
    requires
        c@.len() == 4,
    ensures
        r == candidate_value(c@),
{
    c[0] as u32 + (c[1] as u32) * 256 + (c[2] as u32) * 65536 + (c[3] as u32) * 16777216
}

impl LedgerView {
    /// Whether a nullifier with hash `h` is recorded.
    pub open spec fn spent(self, h: Seq<u8>) -> bool {
        exists|j: int| 0 <= j < self.nfs.len() && #[trigger] self.nfs[j].hash == h
    }

    /// Identifiers are consecutive from one, every nullifier belongs to a
    /// stored ballot, and no two nullifiers share a hash.
    pub open spec fn well_formed(self) -> bool {
        &&& self.votes.len() <= u64::MAX
        &&& self.nfs.len() <= u64::MAX
        &&& forall|i: int| 0 <= i < self.votes.len() ==> (#[trigger] self.votes[i]).id_vote == i + 1
        &&& forall|j: int|
            0 <= j < self.nfs.len() ==> (#[trigger] self.nfs[j]).id_nf == j + 1 && 1
                <= self.nfs[j].vote <= self.votes.len()
        &&& forall|j: int, k: int|
            0 <= j < k < self.nfs.len() ==> #[trigger] self.nfs[j].hash != #[trigger] self.nfs[k].hash
    }

    /// Whether the identifiers of the ballot's rows still fit in 64 bits.
    pub open spec fn has_room(self, b: BallotView) -> bool {
        self.votes.len() < u64::MAX && self.nfs.len() + b.nfs.len() <= u64::MAX
    }

    /// Whether the ballot spends a nullifier twice, or one already spent.
    pub open spec fn is_replay(self, b: BallotView) -> bool {
        ||| !b.nfs.no_duplicates()
        ||| exists|i: int| 0 <= i < b.nfs.len() && self.spent(#[trigger] b.nfs[i])
    }

    /// The ballot row that storing `b` for election `eid` adds.
    pub open spec fn new_vote(self, eid: u32, b: BallotView, data: Seq<u8>) -> VoteView {
        VoteView {
            id_vote: (self.votes.len() + 1) as u64,
            id_election: eid,
            sig_hash: b.sig_hash,
            amount: b.amount,
            candidate: candidate_value(b.candidate),
            data,
        }
    }

    /// The nullifier row for the `k`-th nullifier of the ballot being stored.
    pub open spec fn new_nf(self, b: BallotView, k: int) -> NfView {
        NfView {
            id_nf: (self.nfs.len() + 1 + k) as u64,
            vote: (self.votes.len() + 1) as u64,
            hash: b.nfs[k],
        }
    }

    /// The ledger after the ballot and all its nullifiers were committed.
    pub open spec fn commit(self, eid: u32, b: BallotView, data: Seq<u8>) -> LedgerView {
        LedgerView {
            votes: self.votes.push(self.new_vote(eid, b, data)),
            nfs: self.nfs + Seq::new(b.nfs.len(), |k: int| self.new_nf(b, k)),
        }
    }

    /// The outcome of submitting a ballot: the ledger afterwards and the result.
    pub open spec fn store(self, eid: u32, b: BallotView, data: Seq<u8>) -> (LedgerView, Result<Seq<u8>, VoteError>) {
        if self.is_replay(b) {
            (self, Err(VoteError::DuplicateVote))
        } else if !self.has_room(b) {
            (self, Err(VoteError::StorageFailure))
        } else {
            (self.commit(eid, b, data), Ok(b.sig_hash))
        }
    }

    /// Whether the `i`-th ballot is the first one with signature hash `h`.
    pub open spec fn first_with_sig(self, h: Seq<u8>, i: int) -> bool {
        &&& 0 <= i < self.votes.len()
        &&& self.votes[i].sig_hash == h
        &&& forall|k: int| 0 <= k < i ==> #[trigger] self.votes[k].sig_hash != h
    }

    /// The raw bytes of the first ballot whose signature hash is `h`.
    pub open spec fn ballot_bytes(self, h: Seq<u8>) -> Option<Seq<u8>> {
        if exists|i: int| self.first_with_sig(h, i) {
            Some(self.votes[choose|i: int| self.first_with_sig(h, i)].data)
        } else {
            None
        }
    }

    /// One (candidate, amount) pair per stored ballot.
    pub open spec fn tally(self) -> Seq<(u32, u64)> {
        self.votes.map_values(|v: VoteView| (v.candidate, v.amount))
    }
}

/// A ledger with no ballot and no nullifier.
pub fn create_db() -> (r: Ledger)
    ensures
        r@.votes.len() == 0,
        r@.nfs.len() == 0,
        r@.well_formed(),
{
    let r = Ledger { votes: Vec::new(), nfs: Vec::new() };
    assert(r@.votes =~= Seq::<VoteView>::empty());
    assert(r@.nfs =~= Seq::<NfView>::empty());
    r
}

/// Committing a ballot that fits and replays nothing keeps the ledger well formed.
pub proof fn lemma_commit_well_formed(l: LedgerView, eid: u32, b: BallotView, data: Seq<u8>)
    requires
        l.well_formed(),
        l.has_room(b),
        !l.is_replay(b),
    ensures
        l.commit(eid, b, data).well_formed(),
{
    let c = l.commit(eid, b, data);
    let n = l.nfs.len();
    assert forall|j: int, k: int| 0 <= j < k < c.nfs.len() implies #[trigger] c.nfs[j].hash
        != #[trigger] c.nfs[k].hash by {
        if k >= n {
            if j >= n {
                assert(b.nfs[j - n] != b.nfs[k - n]);
            } else {
                assert(!l.spent(b.nfs[k - n]));
                assert(l.nfs[j].hash == c.nfs[j].hash);
            }
        }
    }
    assert forall|i: int| 0 <= i < c.votes.len() implies (#[trigger] c.votes[i]).id_vote == i + 1 by {
        if i < l.votes.len() {
            assert(c.votes[i] == l.votes[i]);
        }
    }
    assert forall|j: int| 0 <= j < c.nfs.len() implies (#[trigger] c.nfs[j]).id_nf == j + 1 && 1
        <= c.nfs[j].vote <= c.votes.len() by {
        if j < n {
            assert(c.nfs[j] == l.nfs[j]);
        }
    }
}

/// Checks that no nullifier of the ballot is spent, in the ledger or earlier
/// in the ballot itself.
fn find_replay(ledger: &Ledger, ballot: &ValidationResult) -> (r: bool)
    ensures
        r == ledger@.is_replay(ballot@),
{
    let ghost b = ballot@;
    let ghost l = ledger@;
    let mut i: usize = 0;
    while i < ballot.nfs.len()
        invariant
            b == ballot@,
            l == ledger@,
            i <= ballot.nfs@.len(),
            forall|k: int| 0 <= k < i ==> !l.spent(#[trigger] b.nfs[k]),
            forall|j: int, k: int| 0 <= j < k < i ==> b.nfs[j] != b.nfs[k],
        decreases ballot.nfs@.len() - i,
    {
        let h = &ballot.nfs[i];
        let mut j: usize = 0;
        while j < ledger.nfs.len()
            invariant
                b == ballot@,
                l == ledger@,
                i < ballot.nfs@.len(),
                *h == ballot.nfs@[i as int],
                j <= ledger.nfs@.len(),
                forall|q: int| 0 <= q < j ==> (#[trigger] l.nfs[q]).hash != b.nfs[i as int],
            decreases ledger.nfs@.len() - j,
        {
            if hash_eq(&ledger.nfs[j].hash, h) {
                assert(l.nfs[j as int].hash == b.nfs[i as int]);
                assert(l.spent(b.nfs[i as int]));
                return true;
            }
            j = j + 1;
        }
        let mut k: usize = 0;
        while k < i
            invariant
                b == ballot@,
                i < ballot.nfs@.len(),
                *h == ballot.nfs@[i as int],
                k <= i,
                forall|q: int| 0 <= q < k ==> #[trigger] b.nfs[q] != b.nfs[i as int],
            decreases i - k,
        {
            if hash_eq(&ballot.nfs[k], h) {
                assert(b.nfs[k as int] == b.nfs[i as int]);
                assert(!b.nfs.no_duplicates());
                return true;
            }
            k = k + 1;
        }
        assert(!l.spent(b.nfs[i as int]));
        i = i + 1;
    }
    assert(b.nfs.no_duplicates());
    false
}

/// Stores a validated ballot and its nullifiers as one atomic unit of work.
/// If any nullifier is already spent (in the ledger, or earlier in the same
/// ballot) nothing is stored and the result is `DuplicateVote`; if the new
/// rows' identifiers would not fit in 64 bits nothing is stored and the
/// result is `StorageFailure`; otherwise the ballot row and one nullifier row
/// per nullifier are added and the ballot's signature hash is returned.
pub fn store_ballot(
    ledger: &mut Ledger,
    election: &Election,
    ballot: &ValidationResult,
    ballot_bytes: &[u8],
) -> (r: Result<[u8; 32], VoteError>)
    requires
        ballot.candidate@.len() == 4,
    ensures
        old(ledger)@.well_formed(),
        final(ledger)@.well_formed(),
        final(ledger)@ == old(ledger)@.store(election.id, ballot@, ballot_bytes@).0,
        match r {
            Ok(h) => old(ledger)@.store(election.id, ballot@, ballot_bytes@).1 == Ok::<Seq<u8>, VoteError>(h@),
            Err(e) => old(ledger)@.store(election.id, ballot@, ballot_bytes@).1 == Err::<Seq<u8>, VoteError>(e),
        },
{
    proof {
        use_type_invariant(&*ledger);
    }
    let ghost l0 = ledger@;
    let ghost b = ballot@;
    if find_replay(ledger, ballot) {
        return Err(VoteError::DuplicateVote);
    }
    if !((ledger.votes.len() as u128) < (u64::MAX as u128) && (ledger.nfs.len() as u128)
        + (ballot.nfs.len() as u128) <= (u64::MAX as u128)) {
        return Err(VoteError::StorageFailure);
    }
    let candidate = decode_candidate(ballot.candidate.as_slice());
    let id_vote: u64 = ledger.votes.len() as u64 + 1;
    let mut data: Vec<u8> = Vec::new();
    let mut p: usize = 0;
    while p < ballot_bytes.len()
        invariant
            p <= ballot_bytes@.len(),
            data@ == ballot_bytes@.subrange(0, p as int),
        decreases ballot_bytes@.len() - p,
    {
        data.push(ballot_bytes[p]);
        p = p + 1;
    }
    assert(data@ =~= ballot_bytes@);
    let mut taken = create_db();
    std::mem::swap(ledger, &mut taken);
    let Ledger { mut votes, mut nfs } = taken;
    votes.push(VoteRecord {
        id_vote,
        id_election: election.id,
        sig_hash: ballot.sig_hash,
        amount: ballot.amount,
        candidate,
        data,
    });
    assert(votes@.map_values(|v: VoteRecord| v@) =~= l0.votes.push(l0.new_vote(election.id, b, ballot_bytes@)));
    let base: u64 = nfs.len() as u64;
    let mut i: usize = 0;
    while i < ballot.nfs.len()
        invariant
            b == ballot@,
            l0.has_room(b),
            base == l0.nfs.len(),
            id_vote == l0.votes.len() + 1,
            i <= ballot.nfs@.len(),
            votes@.map_values(|v: VoteRecord| v@) == l0.votes.push(l0.new_vote(election.id, b, ballot_bytes@)),
            nfs@.map_values(|n: NfRecord| n@) =~= l0.nfs + Seq::new(i as nat, |k: int| l0.new_nf(b, k)),
        decreases ballot.nfs@.len() - i,
    {
        let ghost before = nfs@.map_values(|n: NfRecord| n@);
        nfs.push(NfRecord { id_nf: base + i as u64 + 1, vote: id_vote, hash: ballot.nfs[i] });
        assert(nfs@.map_values(|n: NfRecord| n@) =~= before.push(l0.new_nf(b, i as int)));
        i = i + 1;
    }
    proof {
        assert(nfs@.map_values(|n: NfRecord| n@) =~= l0.nfs + Seq::new(b.nfs.len(), |k: int| l0.new_nf(b, k)));
        lemma_commit_well_formed(l0, election.id, b, ballot_bytes@);
    }
    *ledger = Ledger { votes, nfs };
    Ok(ballot.sig_hash)
}

/// The raw bytes of the first stored ballot whose signature hash is `hash`,
/// or `NotFound`.
pub fn get_ballot_bytes(hash: &[u8], ledger: &Ledger) -> (r: Result<Vec<u8>, VoteError>)
    ensures
        match r {
            Ok(d) => ledger@.ballot_bytes(hash@) == Some(d@),
            Err(e) => e == VoteError::NotFound && ledger@.ballot_bytes(hash@) is None,
        },
{
    let ghost l = ledger@;
    let mut i: usize = 0;
    while i < ledger.votes.len()
        invariant
            l == ledger@,
            i <= ledger.votes@.len(),
            forall|k: int| 0 <= k < i ==> #[trigger] l.votes[k].sig_hash != hash@,
        decreases ledger.votes@.len() - i,
    {
        if bytes_eq(&ledger.votes[i].sig_hash, hash) {
            assert(l.first_with_sig(hash@, i as int));
            proof {
                let c = choose|c: int| l.first_with_sig(hash@, c);
                if c < i {
                    assert(l.votes[c].sig_hash != hash@);
                } else if c > i {
                    assert(l.votes[i as int].sig_hash != hash@);
                }
            }
            return Ok(ledger.votes[i].data.clone());
        }
        i = i + 1;
    }
    assert(!exists|i: int| l.first_with_sig(hash@, i));
    Err(VoteError::NotFound)
}

/// One (candidate, amount) pair per stored ballot, in storage order.
pub fn get_results(ledger: &Ledger) -> (r: Vec<(u32, u64)>)
    ensures
        r@ == ledger@.tally(),
{
    let mut r: Vec<(u32, u64)> = Vec::new();
    let mut i: usize = 0;
    while i < ledger.votes.len()
        invariant
            i <= ledger.votes@.len(),
            r@ =~= ledger@.tally().subrange(0, i as int),
        decreases ledger.votes@.len() - i,
    {
        r.push((ledger.votes[i].candidate, ledger.votes[i].amount));
        i = i + 1;
    }
    assert(r@ =~= ledger@.tally());
    r
}

/// The view of a ledger holding the given rows.
pub open spec fn rows_view(votes: Seq<VoteRecord>, nfs: Seq<NfRecord>) -> LedgerView {
    LedgerView {
        votes: votes.map_values(|v: VoteRecord| v@),
        nfs: nfs.map_values(|n: NfRecord| n@),
    }
}

impl Ledger {
    /// Rebuilds a ledger from persisted rows; fails with `StorageFailure`
    /// unless the rows form a well-formed ledger.
    pub fn restore(votes: Vec<VoteRecord>, nfs: Vec<NfRecord>) -> (r: Result<Ledger, VoteError>)
        ensures
            match r {
                Ok(l) => rows_view(votes@, nfs@).well_formed() && l@ == rows_view(votes@, nfs@),
                Err(e) => e == VoteError::StorageFailure && !rows_view(votes@, nfs@).well_formed(),
            },
    {
        let ghost v = rows_view(votes@, nfs@);
        if !((votes.len() as u128) <= (u64::MAX as u128) && (nfs.len() as u128) <= (u64::MAX as u128)) {
            return Err(VoteError::StorageFailure);
        }
        let mut i: usize = 0;
        while i < votes.len()
            invariant
                v == rows_view(votes@, nfs@),
                i <= votes@.len(),
                votes@.len() <= u64::MAX,
                forall|k: int| 0 <= k < i ==> (#[trigger] v.votes[k]).id_vote == k + 1,
            decreases votes@.len() - i,
        {
            if votes[i].id_vote != i as u64 + 1 {
                assert(v.votes[i as int].id_vote != i + 1);
                return Err(VoteError::StorageFailure);
            }
            i = i + 1;
        }
        let mut j: usize = 0;
        while j < nfs.len()
            invariant
                v == rows_view(votes@, nfs@),
                j <= nfs@.len(),
                votes@.len() <= u64::MAX,
                nfs@.len() <= u64::MAX,
                forall|q: int|
                    0 <= q < j ==> (#[trigger] v.nfs[q]).id_nf == q + 1 && 1 <= v.nfs[q].vote
                        <= v.votes.len(),
                forall|p: int, q: int| 0 <= p < q < j ==> #[trigger] v.nfs[p].hash != #[trigger] v.nfs[q].hash,
            decreases nfs@.len() - j,
        {
            assert(v.nfs[j as int] == nfs@[j as int]@);
            assert(v.votes.len() == votes@.len());
            if nfs[j].id_nf != j as u64 + 1 || nfs[j].vote < 1 || nfs[j].vote > votes.len() as u64 {
                assert(!(v.nfs[j as int].id_nf == j + 1 && 1 <= v.nfs[j as int].vote <= v.votes.len()));
                return Err(VoteError::StorageFailure);
            }
            let mut p: usize = 0;
            while p < j
                invariant
                    v == rows_view(votes@, nfs@),
                    j < nfs@.len(),
                    p <= j,
                    v.nfs[j as int].id_nf == j + 1 && 1 <= v.nfs[j as int].vote <= v.votes.len(),
                    forall|q: int| 0 <= q < p ==> #[trigger] v.nfs[q].hash != v.nfs[j as int].hash,
                decreases j - p,
            {
                if hash_eq(&nfs[p].hash, &nfs[j].hash) {
                    assert(v.nfs[p as int].hash == v.nfs[j as int].hash);
                    return Err(VoteError::StorageFailure);
                }
                p = p + 1;
            }
            j = j + 1;
        }
        Ok(Ledger { votes, nfs })
    }


    /// Number of stored ballots.
    pub fn vote_count(&self) -> (r: usize)
        ensures
            r == self@.votes.len(),
    {
        self.votes.len()
    }

    /// Number of stored nullifiers.
    pub fn nf_count(&self) -> (r: usize)
        ensures
            r == self@.nfs.len(),
    {
        self.nfs.len()
    }

    /// The `i`-th ballot row.
    pub fn vote_at(&self, i: usize) -> (r: &VoteRecord)
        requires
            i < self@.votes.len(),
        ensures
            r@ == self@.votes[i as int],
    {
        &self.votes[i]
    }

    /// The `i`-th nullifier row.
    pub fn nf_at(&self, i: usize) -> (r: &NfRecord)
        requires
            i < self@.nfs.len(),
        ensures
            r@ == self@.nfs[i as int],
    {
        &self.nfs[i]
    }
}

/// A ballot that spends a nullifier already recorded in the ledger is
/// refused with `DuplicateVote`, and the ledger, both of its tables included,
/// stays as it was.
pub proof fn lemma_replay_rejected(l: LedgerView, eid: u32, b: BallotView, data: Seq<u8>, i: int)
    requires
        0 <= i < b.nfs.len(),
        l.spent(b.nfs[i]),
    ensures
        l.store(eid, b, data).1 == Err::<Seq<u8>, VoteError>(VoteError::DuplicateVote),
        l.store(eid, b, data).0 == l,
        l.store(eid, b, data).0.votes.len() == l.votes.len(),
        l.store(eid, b, data).0.nfs.len() == l.nfs.len(),
{
    assert(l.is_replay(b));
}

/// Of two ballots that share a nullifier and are each acceptable on their
/// own, whichever is stored first succeeds and the other is then refused
/// with `DuplicateVote`, leaving exactly the first one committed.
pub proof fn lemma_shared_nullifier_one_wins(
    l: LedgerView,
    e1: u32,
    b1: BallotView,
    d1: Seq<u8>,
    e2: u32,
    b2: BallotView,
    d2: Seq<u8>,
    i: int,
    j: int,
)
    requires
        l.well_formed(),
        !l.is_replay(b1),
        !l.is_replay(b2),
        l.has_room(b1),
        l.has_room(b2),
        0 <= i < b1.nfs.len(),
        0 <= j < b2.nfs.len(),
        b1.nfs[i] == b2.nfs[j],
    ensures
        l.store(e1, b1, d1).1 == Ok::<Seq<u8>, VoteError>(b1.sig_hash),
        l.store(e1, b1, d1).0.store(e2, b2, d2).1 == Err::<Seq<u8>, VoteError>(VoteError::DuplicateVote),
        l.store(e1, b1, d1).0.store(e2, b2, d2).0 == l.commit(e1, b1, d1),
        l.store(e2, b2, d2).1 == Ok::<Seq<u8>, VoteError>(b2.sig_hash),
        l.store(e2, b2, d2).0.store(e1, b1, d1).1 == Err::<Seq<u8>, VoteError>(VoteError::DuplicateVote),
        l.store(e2, b2, d2).0.store(e1, b1, d1).0 == l.commit(e2, b2, d2),
{
    let c1 = l.commit(e1, b1, d1);
    assert(c1.nfs[l.nfs.len() + i].hash == b2.nfs[j]);
    assert(c1.spent(b2.nfs[j]));
    lemma_replay_rejected(c1, e2, b2, d2, j);
    let c2 = l.commit(e2, b2, d2);
    assert(c2.nfs[l.nfs.len() + j].hash == b1.nfs[i]);
    assert(c2.spent(b1.nfs[i]));
    lemma_replay_rejected(c2, e1, b1, d1, i);
}

/// One submission: the election, the validated ballot and its raw bytes.
pub struct Submission {
    pub election: u32,
    pub ballot: BallotView,
    pub data: Seq<u8>,
}

/// The ledger that `create_db` returns.
pub open spec fn empty_ledger() -> LedgerView {
    LedgerView { votes: Seq::empty(), nfs: Seq::empty() }
}

/// The ledger after the submissions were stored one after another.
pub open spec fn submit_all(l: LedgerView, subs: Seq<Submission>) -> LedgerView
    decreases subs.len(),
{
    if subs.len() == 0 {
        l
    } else {
        let s = subs.last();
        submit_all(l, subs.drop_last()).store(s.election, s.ballot, s.data).0
    }
}

/// What the `k`-th of the submissions returned.
pub open spec fn outcome(l: LedgerView, subs: Seq<Submission>, k: int) -> Result<Seq<u8>, VoteError> {
    let s = subs[k];
    submit_all(l, subs.subrange(0, k)).store(s.election, s.ballot, s.data).1
}

/// How many nullifiers the submissions carry together.
pub open spec fn nf_total(subs: Seq<Submission>) -> nat
    decreases subs.len(),
{
    if subs.len() == 0 {
        0
    } else {
        nf_total(subs.drop_last()) + subs.last().ballot.nfs.len()
    }
}

/// Every ballot's nullifiers are distinct, and no two ballots share one.
pub open spec fn pairwise_disjoint(subs: Seq<Submission>) -> bool {
    &&& forall|k: int| 0 <= k < subs.len() ==> (#[trigger] subs[k]).ballot.nfs.no_duplicates()
    &&& forall|k1: int, k2: int, p: int, q: int|
        0 <= k1 < k2 < subs.len() && 0 <= p < subs[k1].ballot.nfs.len() && 0 <= q
            < subs[k2].ballot.nfs.len() ==> #[trigger] subs[k1].ballot.nfs[p]
            != #[trigger] subs[k2].ballot.nfs[q]
}

/// The outcome of a submission depends only on the submissions before it.
proof fn lemma_outcome_prefix(l: LedgerView, subs: Seq<Submission>, k: int)
    requires
        0 <= k < subs.len() - 1,
    ensures
        outcome(l, subs.drop_last(), k) == outcome(l, subs, k),
{
    assert(subs.drop_last().subrange(0, k) =~= subs.subrange(0, k));
}

proof fn lemma_submit_all_last(l: LedgerView, subs: Seq<Submission>)
    requires
        subs.len() > 0,
    ensures
        outcome(l, subs, subs.len() - 1) == submit_all(l, subs.drop_last()).store(
            subs.last().election,
            subs.last().ballot,
            subs.last().data,
        ).1,
{
    assert(subs.subrange(0, subs.len() - 1) =~= subs.drop_last());
}

/// What storing disjoint ballots one after another leaves in the ledger.
proof fn lemma_disjoint_facts(subs: Seq<Submission>)
    requires
        pairwise_disjoint(subs),
        subs.len() < u64::MAX,
        nf_total(subs) <= u64::MAX,
    ensures
        submit_all(empty_ledger(), subs).well_formed(),
        submit_all(empty_ledger(), subs).votes.len() == subs.len(),
        submit_all(empty_ledger(), subs).nfs.len() == nf_total(subs),
        forall|k: int|
            0 <= k < subs.len() ==> (#[trigger] submit_all(empty_ledger(), subs).votes[k]).sig_hash
                == subs[k].ballot.sig_hash && submit_all(empty_ledger(), subs).votes[k].data
                == subs[k].data,
        forall|j: int|
            0 <= j < submit_all(empty_ledger(), subs).nfs.len() ==> subs[(#[trigger] submit_all(
                empty_ledger(),
                subs,
            ).nfs[j]).vote - 1].ballot.nfs.contains(submit_all(empty_ledger(), subs).nfs[j].hash),
        forall|k: int|
            0 <= k < subs.len() ==> #[trigger] outcome(empty_ledger(), subs, k) == Ok::<
                Seq<u8>,
                VoteError,
            >(subs[k].ballot.sig_hash),
    decreases subs.len(),
{
    let e = empty_ledger();
    if subs.len() == 0 {
        return;
    }
    let p = subs.drop_last();
    let n = p.len() as int;
    assert forall|k1: int, k2: int, a: int, b: int|
        0 <= k1 < k2 < p.len() && 0 <= a < p[k1].ballot.nfs.len() && 0 <= b
            < p[k2].ballot.nfs.len() implies #[trigger] p[k1].ballot.nfs[a]
        != #[trigger] p[k2].ballot.nfs[b] by {
        assert(p[k1] == subs[k1] && p[k2] == subs[k2]);
    }
    assert forall|k: int| 0 <= k < p.len() implies (#[trigger] p[k]).ballot.nfs.no_duplicates() by {
        assert(p[k] == subs[k]);
    }
    lemma_disjoint_facts(p);
    let l = submit_all(e, p);
    let s = subs.last();
    let b = s.ballot;
    assert(s == subs[n]);
    assert(subs[n].ballot.nfs.no_duplicates());
    assert forall|t: int| 0 <= t < b.nfs.len() implies !l.spent(#[trigger] b.nfs[t]) by {
        if l.spent(b.nfs[t]) {
            let j = choose|j: int| 0 <= j < l.nfs.len() && #[trigger] l.nfs[j].hash == b.nfs[t];
            let v = l.nfs[j].vote - 1;
            assert(p[v].ballot.nfs.contains(l.nfs[j].hash));
            let q = choose|q: int| 0 <= q < p[v].ballot.nfs.len() && p[v].ballot.nfs[q] == l.nfs[j].hash;
            assert(p[v] == subs[v]);
            assert(subs[v].ballot.nfs[q] != subs[n].ballot.nfs[t]);
        }
    }
    assert(!l.is_replay(b));
    assert(l.has_room(b));
    lemma_commit_well_formed(l, s.election, b, s.data);
    lemma_submit_all_last(e, subs);
    let c = l.commit(s.election, b, s.data);
    assert forall|k: int| 0 <= k < subs.len() implies (#[trigger] c.votes[k]).sig_hash
        == subs[k].ballot.sig_hash && c.votes[k].data == subs[k].data by {
        if k < n {
            assert(c.votes[k] == l.votes[k]);
            assert(p[k] == subs[k]);
        }
    }
    assert forall|j: int| 0 <= j < c.nfs.len() implies subs[(#[trigger] c.nfs[j]).vote
        - 1].ballot.nfs.contains(c.nfs[j].hash) by {
        if j < l.nfs.len() {
            assert(c.nfs[j] == l.nfs[j]);
            assert(p[l.nfs[j].vote - 1] == subs[l.nfs[j].vote - 1]);
        } else {
            assert(c.nfs[j].hash == b.nfs[j - l.nfs.len()]);
        }
    }
    assert forall|k: int| 0 <= k < subs.len() implies #[trigger] outcome(e, subs, k) == Ok::<
        Seq<u8>,
        VoteError,
    >(subs[k].ballot.sig_hash) by {
        if k < n {
            lemma_outcome_prefix(e, subs, k);
            assert(p[k] == subs[k]);
        }
    }
}

/// Ballots whose nullifier sets are pairwise disjoint, stored one after
/// another into an empty ledger, are all accepted, and each one's signature
/// hash then retrieves exactly its raw bytes (signature hashes being
/// distinct, so that each names one ballot).
pub proof fn lemma_disjoint_ballots_all_stored(subs: Seq<Submission>)
    requires
        pairwise_disjoint(subs),
        subs.len() < u64::MAX,
        nf_total(subs) <= u64::MAX,
        forall|k1: int, k2: int|
            0 <= k1 < k2 < subs.len() ==> (#[trigger] subs[k1]).ballot.sig_hash
                != (#[trigger] subs[k2]).ballot.sig_hash,
    ensures
        forall|k: int|
            0 <= k < subs.len() ==> #[trigger] outcome(empty_ledger(), subs, k) == Ok::<
                Seq<u8>,
                VoteError,
            >(subs[k].ballot.sig_hash),
        forall|k: int|
            0 <= k < subs.len() ==> #[trigger] submit_all(empty_ledger(), subs).ballot_bytes(
                subs[k].ballot.sig_hash,
            ) == Some(subs[k].data),
{
    lemma_disjoint_facts(subs);
    let l = submit_all(empty_ledger(), subs);
    assert forall|k: int| 0 <= k < subs.len() implies #[trigger] l.ballot_bytes(
        subs[k].ballot.sig_hash,
    ) == Some(subs[k].data) by {
        let h = subs[k].ballot.sig_hash;
        assert(l.votes[k].sig_hash == h);
        assert forall|i: int| 0 <= i < k implies #[trigger] l.votes[i].sig_hash != h by {
            assert(l.votes[i].sig_hash == subs[i].ballot.sig_hash);
        }
        assert(l.first_with_sig(h, k));
        let c = choose|c: int| l.first_with_sig(h, c);
        if c < k {
            assert(l.votes[c].sig_hash == subs[c].ballot.sig_hash);
        } else if c > k {
            assert(l.votes[k].sig_hash != h);
        }
    }
}

/// After submissions into an empty ledger that all succeeded, the tally has
/// one entry per submission, holding that ballot's candidate and amount.
pub proof fn lemma_tally_after_successes(subs: Seq<Submission>)
    requires
        forall|k: int| 0 <= k < subs.len() ==> #[trigger] outcome(empty_ledger(), subs, k) is Ok,
    ensures
        submit_all(empty_ledger(), subs).tally() == Seq::new(
            subs.len(),
            |k: int| (candidate_value(subs[k].ballot.candidate), subs[k].ballot.amount),
        ),
    decreases subs.len(),
{
    let e = empty_ledger();
    let want = Seq::new(
        subs.len(),
        |k: int| (candidate_value(subs[k].ballot.candidate), subs[k].ballot.amount),
    );
    if subs.len() == 0 {
        assert(submit_all(e, subs).tally() =~= want);
        return;
    }
    let p = subs.drop_last();
    assert forall|k: int| 0 <= k < p.len() implies #[trigger] outcome(e, p, k) is Ok by {
        lemma_outcome_prefix(e, subs, k);
        assert(outcome(e, subs, k) is Ok);
    }
    lemma_tally_after_successes(p);
    lemma_submit_all_last(e, subs);
    assert(outcome(e, subs, subs.len() - 1) is Ok);
    let l = submit_all(e, p);
    let s = subs.last();
    let c = l.commit(s.election, s.ballot, s.data);
    assert(submit_all(e, subs) == c);
    assert(c.tally() =~= l.tally().push((candidate_value(s.ballot.candidate), s.ballot.amount)));
    assert(c.tally() =~= want);
}

} // verus!
