use vstd::prelude::*;
use crate::codec::{build_message, canonical_message, ed25519_accepts, outcome_candidate, sha256_of, verify_signature};
use crate::payout::{compute_payout, payout_result};
use crate::types::{same_bytes, Address, Error};

verus! {

/// A decided market: the reported outcome code (1 UP, 2 DOWN), the final
/// price and the time of the oracle observation.
#[derive(Clone, Copy, Debug, PartialEq, Eq, Structural)]
pub struct Outcome {
    pub call_id: u64,
    pub outcome: u32,
    pub price: i128,
    pub timestamp: u64,
}

/// One oracle's signed report on a market.
#[derive(Clone, Copy, Debug)]
pub struct SignedOutcome {
    pub call_id: u64,
    pub outcome: u32,
    pub price: i128,
    pub timestamp: u64,
    /// The oracle's raw Ed25519 public key.
    pub oracle_pubkey: [u8; 32],
    /// The Ed25519 signature of the canonical message of this report.
    pub signature: [u8; 64],
}

/// The outcome record a report stands for.
pub open spec fn outcome_of(s: SignedOutcome) -> Outcome {
    Outcome { call_id: s.call_id, outcome: s.outcome, price: s.price, timestamp: s.timestamp }
}

/// The canonical message of a report.
pub open spec fn report_message(s: SignedOutcome) -> Seq<u8> {
    canonical_message(s.call_id, s.outcome, s.price, s.timestamp)
}

/// The outcome candidate a report votes for: the digest of its canonical message.
/// Reports count toward the same tally only when they agree on outcome, price
/// and timestamp.
pub open spec fn candidate_of(s: SignedOutcome) -> Seq<u8> {
    sha256_of(report_message(s))
}

/// The record that an oracle voted on a market, and for which candidate.
#[derive(Clone, Copy)]
struct Ballot {
    oracle: [u8; 32],
    call_id: u64,
    candidate: [u8; 32],
}

/// The running count of votes for one candidate on one market.
#[derive(Clone, Copy)]
struct Tally {
    candidate: [u8; 32],
    call_id: u64,
    votes: u32,
}

/// The marker that a staker has claimed the payout of a market.
struct ClaimRecord {
    call_id: u64,
    staker: Address,
}

/// The finalized outcome recorded last for `id` in `s`.
spec fn outcome_in(s: Seq<Outcome>, id: u64) -> Option<Outcome>
    decreases s.len(),
{
    if s.len() == 0 {
        None
    } else if s.last().call_id == id {
        Some(s.last())
    } else {
        outcome_in(s.drop_last(), id)
    }
}

spec fn tally_matches(t: Tally, candidate: Seq<u8>, id: u64) -> bool {
    t.candidate@ == candidate && t.call_id == id
}

/// The count held by the last tally for (`candidate`, `id`) in `s`, or 0.
spec fn tally_in(s: Seq<Tally>, candidate: Seq<u8>, id: u64) -> nat
    decreases s.len(),
{
    if s.len() == 0 {
        0
    } else if tally_matches(s.last(), candidate, id) {
        s.last().votes as nat
    } else {
        tally_in(s.drop_last(), candidate, id)
    }
}

/// The number of ballots in `s` cast for `candidate` on market `id`.
spec fn ballots_for(s: Seq<Ballot>, candidate: Seq<u8>, id: u64) -> nat
    decreases s.len(),
{
    if s.len() == 0 {
        0
    } else {
        ballots_for(s.drop_last(), candidate, id) + if s.last().candidate@ == candidate && s.last().call_id == id {
            1nat
        } else {
            0nat
        }
    }
}

proof fn lemma_tally_last_match(s: Seq<Tally>, j: int, candidate: Seq<u8>, id: u64)
    requires
        0 <= j < s.len(),
        tally_matches(s[j], candidate, id),
        forall|k: int| j < k < s.len() ==> !tally_matches(#[trigger] s[k], candidate, id),
    ensures
        tally_in(s, candidate, id) == s[j].votes as nat,
    decreases s.len(),
{
    if j < s.len() - 1 {
        assert(!tally_matches(s[s.len() - 1], candidate, id));
        lemma_tally_last_match(s.drop_last(), j, candidate, id);
    }
}

proof fn lemma_tally_absent(s: Seq<Tally>, candidate: Seq<u8>, id: u64)
    requires
        forall|k: int| 0 <= k < s.len() ==> !tally_matches(#[trigger] s[k], candidate, id),
    ensures
        tally_in(s, candidate, id) == 0,
    decreases s.len(),
{
    if s.len() > 0 {
        assert(!tally_matches(s[s.len() - 1], candidate, id));
        lemma_tally_absent(s.drop_last(), candidate, id);
    }
}

proof fn lemma_tally_push(s: Seq<Tally>, t: Tally, candidate: Seq<u8>, id: u64)
    ensures
        tally_in(s.push(t), candidate, id) == if tally_matches(t, candidate, id) {
            t.votes as nat
        } else {
            tally_in(s, candidate, id)
        },
{
    assert(s.push(t).drop_last() == s);
}

proof fn lemma_tally_update(s: Seq<Tally>, j: int, t: Tally, candidate: Seq<u8>, id: u64)
    requires
        0 <= j < s.len(),
        t.candidate@ == s[j].candidate@,
        t.call_id == s[j].call_id,
        forall|k: int| j < k < s.len() ==> !tally_matches(#[trigger] s[k], s[j].candidate@, s[j].call_id),
    ensures
        tally_in(s.update(j, t), candidate, id) == if tally_matches(t, candidate, id) {
            t.votes as nat
        } else {
            tally_in(s, candidate, id)
        },
    decreases s.len(),
{
    let u = s.update(j, t);
    if j == s.len() - 1 {
        assert(u.drop_last() == s.drop_last());
    } else {
        assert(u.drop_last() == s.drop_last().update(j, t));
        assert(!tally_matches(s[s.len() - 1], s[j].candidate@, s[j].call_id));
        lemma_tally_update(s.drop_last(), j, t, candidate, id);
    }
}

/// The oracle registry and consensus tally, together with the claim markers
/// of the settlement engine.
///
/// A market is Open until a finalized outcome is recorded for it, and
/// Finalized from then on; the finalized outcome of a market is written once
/// and never changes.
pub struct OutcomeManager {
    admin: Option<Address>,
    oracles: Vec<[u8; 32]>,
    quorum: u32,
    outcomes: Vec<Outcome>,
    ballots: Vec<Ballot>,
    tallies: Vec<Tally>,
    claims: Vec<ClaimRecord>,
}

impl OutcomeManager {
    /// The trusted oracle keys are held once each, and the tally of every
    /// candidate on every market is the number of ballots cast for it there.
    pub closed spec fn wf(self) -> bool {
        &&& forall|i: int, j: int|
            0 <= i < j < self.oracles@.len() ==> #[trigger] self.oracles@[i]@ != #[trigger] self.oracles@[j]@
        &&& forall|c: Seq<u8>, id: u64| #[trigger] tally_in(self.tallies@, c, id) == ballots_for(self.ballots@, c, id)
    }

    /// The number of accepted reports for `candidate` on market `id`.
    pub closed spec fn ballot_count(self, candidate: Seq<u8>, id: u64) -> nat {
        ballots_for(self.ballots@, candidate, id)
    }

    pub closed spec fn is_initialized(self) -> bool {
        self.admin is Some
    }

    /// The admin's address, once initialized.
    pub closed spec fn admin_view(self) -> Option<Seq<u8>> {
        match self.admin {
            Some(a) => Some(a@),
            None => None,
        }
    }

    /// True when `key` is a trusted oracle key.
    pub closed spec fn is_oracle_key(self, key: Seq<u8>) -> bool {
        exists|i: int| 0 <= i < self.oracles@.len() && #[trigger] self.oracles@[i]@ == key
    }

    /// The number of trusted oracle keys.
    pub closed spec fn oracle_count(self) -> nat {
        self.oracles@.len()
    }

    /// The number of matching votes that finalizes a market.
    pub closed spec fn quorum_value(self) -> u32 {
        self.quorum
    }

    /// The finalized outcome of market `id`, if it is decided.
    pub closed spec fn final_outcome(self, id: u64) -> Option<Outcome> {
        outcome_in(self.outcomes@, id)
    }

    /// True when oracle `key` has voted on market `id`.
    pub closed spec fn has_voted(self, key: Seq<u8>, id: u64) -> bool {
        exists|i: int|
            0 <= i < self.ballots@.len() && (#[trigger] self.ballots@[i]).oracle@ == key
                && self.ballots@[i].call_id == id
    }

    /// The number of votes counted for `candidate` on market `id`.
    pub closed spec fn votes_for(self, candidate: Seq<u8>, id: u64) -> nat {
        tally_in(self.tallies@, candidate, id)
    }

    /// True when `staker` has claimed the payout of market `id`.
    pub closed spec fn is_claimed(self, id: u64, staker: Seq<u8>) -> bool {
        exists|i: int|
            0 <= i < self.claims@.len() && (#[trigger] self.claims@[i]).call_id == id
                && self.claims@[i].staker@ == staker
    }

    /// The admin, the oracle set and the quorum agree in both states.
    pub closed spec fn same_config(self, other: OutcomeManager) -> bool {
        &&& self.admin == other.admin
        &&& self.oracles == other.oracles
        &&& self.quorum == other.quorum
    }

    /// The trusted oracle keys agree in both states.
    pub closed spec fn same_oracles(self, other: OutcomeManager) -> bool {
        self.oracles == other.oracles
    }

    /// The finalized outcomes, ballots, tallies and claims agree in both states.
    pub closed spec fn same_markets(self, other: OutcomeManager) -> bool {
        &&& self.outcomes == other.outcomes
        &&& self.ballots == other.ballots
        &&& self.tallies == other.tallies
        &&& self.claims == other.claims
    }

    /// What an admin-gated operation answers before it looks at its arguments.
    pub open spec fn admin_check(self, caller: Seq<u8>) -> Option<Error> {
        if !self.is_initialized() {
            Some(Error::NotInitialized)
        } else if self.admin_view() != Some(caller) {
            Some(Error::Unauthorized)
        } else {
            None
        }
    }

    /// The answer to a report.
    pub open spec fn submit_result(self, s: SignedOutcome) -> Result<Option<Outcome>, Error> {
        if !self.is_initialized() {
            Err(Error::NotInitialized)
        } else if !self.is_oracle_key(s.oracle_pubkey@) {
            Err(Error::UnauthorizedOracle)
        } else if self.final_outcome(s.call_id) is Some {
            Err(Error::AlreadySettled)
        } else if self.has_voted(s.oracle_pubkey@, s.call_id) {
            Err(Error::DuplicateSubmission)
        } else if s.outcome != 1 && s.outcome != 2 {
            Err(Error::InvalidOutcome)
        } else if !ed25519_accepts(s.oracle_pubkey@, report_message(s), s.signature@) {
            Err(Error::InvalidSignature)
        } else if self.votes_for(candidate_of(s), s.call_id) >= u32::MAX {
            Err(Error::ArithmeticError)
        } else if self.votes_for(candidate_of(s), s.call_id) + 1 >= self.quorum_value() {
            Ok(Some(outcome_of(s)))
        } else {
            Ok(None)
        }
    }

    /// The answer to a payout claim.
    pub open spec fn claim_result(
        self,
        call_id: u64,
        staker: Seq<u8>,
        staker_winning_stake: i128,
        total_winning_stake: i128,
        total_losing_stake: i128,
    ) -> Result<i128, Error> {
        if self.final_outcome(call_id) is None {
            Err(Error::CallNotSettled)
        } else if self.is_claimed(call_id, staker) {
            Err(Error::AlreadyClaimed)
        } else {
            payout_result(staker_winning_stake, total_winning_stake, total_losing_stake)
        }
    }
}

/// `after` is `before` with the vote of report `s` counted: the oracle is
/// marked as having voted on the market, the report's candidate gains one
/// vote, and the market is finalized with the report's outcome exactly when
/// that count reaches the quorum. Nothing else changes.
pub open spec fn vote_recorded(before: OutcomeManager, after: OutcomeManager, s: SignedOutcome) -> bool {
    let cand = candidate_of(s);
    &&& after.same_config(before)
    &&& forall|id: u64, st: Seq<u8>| #[trigger] after.is_claimed(id, st) == before.is_claimed(id, st)
    &&& forall|k: Seq<u8>, id: u64|
        #[trigger] after.has_voted(k, id) == (before.has_voted(k, id) || (k == s.oracle_pubkey@
            && id == s.call_id))
    &&& forall|c: Seq<u8>, id: u64|
        #[trigger] after.votes_for(c, id) == if c == cand && id == s.call_id {
            before.votes_for(c, id) + 1
        } else {
            before.votes_for(c, id)
        }
    &&& forall|id: u64|
        #[trigger] after.final_outcome(id) == if id == s.call_id && after.votes_for(cand, id)
            >= before.quorum_value() {
            Some(outcome_of(s))
        } else {
            before.final_outcome(id)
        }
}

/// `after` is `before` with the claim of `staker` on market `call_id` marked.
/// Nothing else changes.
pub open spec fn claim_recorded(before: OutcomeManager, after: OutcomeManager, call_id: u64, staker: Seq<u8>) -> bool {
    &&& after.same_config(before)
    &&& forall|id: u64| #[trigger] after.final_outcome(id) == before.final_outcome(id)
    &&& forall|k: Seq<u8>, id: u64| #[trigger] after.has_voted(k, id) == before.has_voted(k, id)
    &&& forall|c: Seq<u8>, id: u64| #[trigger] after.votes_for(c, id) == before.votes_for(c, id)
    &&& forall|id: u64, st: Seq<u8>|
        #[trigger] after.is_claimed(id, st) == (before.is_claimed(id, st) || (id == call_id && st
            == staker))
}


impl OutcomeManager {
    /// A manager that is not initialized yet.
    pub fn new() -> (r: OutcomeManager)
        ensures
            r.wf(),
            !r.is_initialized(),
            r.oracle_count() == 0,
            forall|id: u64| #[trigger] r.final_outcome(id) is None,
            forall|k: Seq<u8>, id: u64| !#[trigger] r.has_voted(k, id),
            forall|c: Seq<u8>, id: u64| #[trigger] r.votes_for(c, id) == 0,
            forall|id: u64, st: Seq<u8>| !#[trigger] r.is_claimed(id, st),
    {
        let r = OutcomeManager {
            admin: None,
            oracles: Vec::new(),
            quorum: 0,
            outcomes: Vec::new(),
            ballots: Vec::new(),
            tallies: Vec::new(),
            claims: Vec::new(),
        };
        proof {
            assert forall|c: Seq<u8>, id: u64| #[trigger] tally_in(r.tallies@, c, id) == ballots_for(r.ballots@, c, id) by {
                assert(r.tallies@.len() == 0 && r.ballots@.len() == 0);
            }
        }
        r
    }

    fn find_oracle(&self, key: &[u8; 32]) -> (r: Option<usize>)
        ensures
            match r {
                Some(i) => i < self.oracles@.len() && self.oracles@[i as int]@ == key@,
                None => !self.is_oracle_key(key@),
            },
    {
        let mut i: usize = 0;
        while i < self.oracles.len()
            invariant
                i <= self.oracles@.len(),
                forall|j: int| 0 <= j < i ==> #[trigger] self.oracles@[j]@ != key@,
            decreases self.oracles@.len() - i,
        {
            if same_bytes(self.oracles[i].as_slice(), key.as_slice()) {
                return Some(i);
            }
            i = i + 1;
        }
        None
    }

    fn find_outcome(&self, id: u64) -> (r: Option<Outcome>)
        ensures
            r == self.final_outcome(id),
    {
        let mut i: usize = self.outcomes.len();
        assert(self.outcomes@.subrange(0, i as int) == self.outcomes@);
        while i > 0
            invariant
                i <= self.outcomes@.len(),
                outcome_in(self.outcomes@, id) == outcome_in(self.outcomes@.subrange(0, i as int), id),
            decreases i,
        {
            let ghost pre = self.outcomes@.subrange(0, i as int);
            assert(pre.drop_last() == self.outcomes@.subrange(0, i - 1));
            if self.outcomes[i - 1].call_id == id {
                return Some(self.outcomes[i - 1]);
            }
            i = i - 1;
        }
        None
    }

    fn find_ballot(&self, key: &[u8; 32], id: u64) -> (r: bool)
        ensures
            r == self.has_voted(key@, id),
    {
        let mut i: usize = 0;
        while i < self.ballots.len()
            invariant
                i <= self.ballots@.len(),
                forall|j: int|
                    0 <= j < i ==> !((#[trigger] self.ballots@[j]).oracle@ == key@ && self.ballots@[j].call_id
                        == id),
            decreases self.ballots@.len() - i,
        {
            if self.ballots[i].call_id == id && same_bytes(self.ballots[i].oracle.as_slice(), key.as_slice()) {
                return true;
            }
            i = i + 1;
        }
        false
    }

    fn find_tally(&self, candidate: &[u8; 32], id: u64) -> (r: Option<usize>)
        ensures
            match r {
                Some(j) => {
                    &&& j < self.tallies@.len()
                    &&& tally_matches(self.tallies@[j as int], candidate@, id)
                    &&& forall|k: int|
                        j < k < self.tallies@.len() ==> !tally_matches(#[trigger] self.tallies@[k], candidate@, id)
                },
                None => forall|k: int|
                    0 <= k < self.tallies@.len() ==> !tally_matches(#[trigger] self.tallies@[k], candidate@, id),
            },
    {
        let mut i: usize = self.tallies.len();
        while i > 0
            invariant
                i <= self.tallies@.len(),
                forall|k: int|
                    i <= k < self.tallies@.len() ==> !tally_matches(#[trigger] self.tallies@[k], candidate@, id),
            decreases i,
        {
            if self.tallies[i - 1].call_id == id && same_bytes(self.tallies[i - 1].candidate.as_slice(), candidate.as_slice()) {
                return Some(i - 1);
            }
            i = i - 1;
        }
        None
    }

    fn find_claim(&self, id: u64, staker: &Address) -> (r: bool)
        ensures
            r == self.is_claimed(id, staker@),
    {
        let mut i: usize = 0;
        while i < self.claims.len()
            invariant
                i <= self.claims@.len(),
                forall|j: int|
                    0 <= j < i ==> !((#[trigger] self.claims@[j]).call_id == id && self.claims@[j].staker@
                        == staker@),
            decreases self.claims@.len() - i,
        {
            if self.claims[i].call_id == id && self.claims[i].staker.same_as(staker) {
                return true;
            }
            i = i + 1;
        }
        false
    }

    /// Checks that `caller` is the admin: `NotInitialized` before
    /// `initialize`, `Unauthorized` for anyone else.
    pub fn require_admin(&self, caller: &Address) -> (r: Option<Error>)
        ensures
            r == self.admin_check(caller@),
    {
        match &self.admin {
            None => Some(Error::NotInitialized),
            Some(a) => if a.same_as(caller) {
                None
            } else {
                Some(Error::Unauthorized)
            },
        }
    }
}

impl OutcomeManager {
    /// Accepts one oracle's signed report on a market.
    ///
    /// The report is checked in order: the manager is initialized, the key is
    /// a trusted oracle, the market is not finalized, the oracle has not voted
    /// on it yet, the outcome code is 1 or 2, and the signature verifies over
    /// the canonical message. Then the vote is counted for the report's
    /// candidate, and when that count reaches the quorum the market is
    /// finalized with the report's outcome, which is returned so that the
    /// staking ledger can be resolved. A rejected report changes nothing.
    pub fn submit_outcome(&mut self, signed: &SignedOutcome) -> (r: Result<Option<Outcome>, Error>)
        requires
            old(self).wf(),
        ensures
            final(self).wf(),
            r == old(self).submit_result(*signed),
            r is Err ==> *final(self) == *old(self),
            r is Ok ==> vote_recorded(*old(self), *final(self), *signed),
    {
        let ghost before = *self;
        if self.admin.is_none() {
            return Err(Error::NotInitialized);
        }
        if self.find_oracle(&signed.oracle_pubkey).is_none() {
            return Err(Error::UnauthorizedOracle);
        }
        if self.find_outcome(signed.call_id).is_some() {
            return Err(Error::AlreadySettled);
        }
        if self.find_ballot(&signed.oracle_pubkey, signed.call_id) {
            return Err(Error::DuplicateSubmission);
        }
        if signed.outcome != 1 && signed.outcome != 2 {
            return Err(Error::InvalidOutcome);
        }
        let message = build_message(signed.call_id, signed.outcome, signed.price, signed.timestamp);
        if !verify_signature(&signed.oracle_pubkey, &signed.signature, &message) {
            return Err(Error::InvalidSignature);
        }
        let candidate = outcome_candidate(signed.call_id, signed.outcome, signed.price, signed.timestamp);
        let ghost cand = candidate_of(*signed);
        let ghost id = signed.call_id;
        assert(candidate@ == cand);
        let found = self.find_tally(&candidate, signed.call_id);
        let votes: u32 = match found {
            Some(j) => {
                proof {
                    lemma_tally_last_match(self.tallies@, j as int, cand, id);
                }
                self.tallies[j].votes
            },
            None => {
                proof {
                    lemma_tally_absent(self.tallies@, cand, id);
                }
                0
            },
        };
        if votes == u32::MAX {
            return Err(Error::ArithmeticError);
        }
        let votes = votes + 1;
        let tally = Tally { candidate, call_id: signed.call_id, votes };
        match found {
            Some(j) => self.tallies.set(j, tally),
            None => self.tallies.push(tally),
        }
        let ballot = Ballot { oracle: signed.oracle_pubkey, call_id: signed.call_id, candidate };
        self.ballots.push(ballot);
        let finalize = votes >= self.quorum;
        let outcome = Outcome {
            call_id: signed.call_id,
            outcome: signed.outcome,
            price: signed.price,
            timestamp: signed.timestamp,
        };
        if finalize {
            self.outcomes.push(outcome);
        }
        proof {
            assert forall|c: Seq<u8>, d: u64| #[trigger] self.votes_for(c, d) == if c == cand && d == id {
                before.votes_for(c, d) + 1
            } else {
                before.votes_for(c, d)
            } by {
                match found {
                    Some(j) => lemma_tally_update(before.tallies@, j as int, tally, c, d),
                    None => lemma_tally_push(before.tallies@, tally, c, d),
                }
            }
            assert forall|k: Seq<u8>, d: u64| #[trigger] self.has_voted(k, d) == (before.has_voted(k, d) || (k
                == signed.oracle_pubkey@ && d == id)) by {
                if before.has_voted(k, d) {
                    let i = choose|i: int|
                        0 <= i < before.ballots@.len() && (#[trigger] before.ballots@[i]).oracle@ == k
                            && before.ballots@[i].call_id == d;
                    assert(self.ballots@[i] == before.ballots@[i]);
                }
                if k == signed.oracle_pubkey@ && d == id {
                    assert(self.ballots@[before.ballots@.len() as int] == ballot);
                }
                if self.has_voted(k, d) {
                    let i = choose|i: int|
                        0 <= i < self.ballots@.len() && (#[trigger] self.ballots@[i]).oracle@ == k
                            && self.ballots@[i].call_id == d;
                    if i < before.ballots@.len() {
                        assert(before.ballots@[i] == self.ballots@[i]);
                    }
                }
            }
            assert(self.votes_for(cand, id) == votes);
            assert(self.ballots@.drop_last() == before.ballots@);
            assert forall|c: Seq<u8>, d: u64| #[trigger] tally_in(self.tallies@, c, d) == ballots_for(self.ballots@, c, d) by {
                assert(tally_in(before.tallies@, c, d) == ballots_for(before.ballots@, c, d));
                assert(self.votes_for(c, d) == tally_in(self.tallies@, c, d));
            }
            assert forall|d: u64| #[trigger] self.final_outcome(d) == if d == id && self.votes_for(cand, d)
                >= before.quorum_value() {
                Some(outcome_of(*signed))
            } else {
                before.final_outcome(d)
            } by {
                if finalize {
                    assert(self.outcomes@.drop_last() == before.outcomes@);
                }
            }
            assert(self.same_config(before));
            assert forall|d: u64, st: Seq<u8>| #[trigger] self.is_claimed(d, st) == before.is_claimed(d, st) by {
                assert(self.claims == before.claims);
            }
            assert(vote_recorded(before, *self, *signed));
        }
        if finalize {
            Ok(Some(outcome))
        } else {
            Ok(None)
        }
    }
}

/// The result an admin-gated operation gives once the admin check passed.
pub open spec fn gated(check: Option<Error>, then: Result<(), Error>) -> Result<(), Error> {
    match check {
        Some(e) => Err(e),
        None => then,
    }
}

impl OutcomeManager {
    fn insert_oracle(&mut self, key: [u8; 32])
        requires
            old(self).wf(),
        ensures
            final(self).wf(),
            final(self).same_markets(*old(self)),
            final(self).admin == old(self).admin,
            final(self).quorum == old(self).quorum,
            forall|k: Seq<u8>| #[trigger] final(self).is_oracle_key(k) == (old(self).is_oracle_key(k) || k == key@),
    {
        let ghost before = *self;
        if self.find_oracle(&key).is_none() {
            self.oracles.push(key);
            proof {
                assert forall|k: Seq<u8>| #[trigger] self.is_oracle_key(k) == (before.is_oracle_key(k) || k == key@) by {
                    if before.is_oracle_key(k) {
                        let i = choose|i: int| 0 <= i < before.oracles@.len() && #[trigger] before.oracles@[i]@ == k;
                        assert(self.oracles@[i] == before.oracles@[i]);
                    }
                    if k == key@ {
                        assert(self.oracles@[before.oracles@.len() as int] == key);
                    }
                    if self.is_oracle_key(k) {
                        let i = choose|i: int| 0 <= i < self.oracles@.len() && #[trigger] self.oracles@[i]@ == k;
                        if i < before.oracles@.len() {
                            assert(before.oracles@[i] == self.oracles@[i]);
                        }
                    }
                }
                assert forall|i: int, j: int|
                    0 <= i < j < self.oracles@.len() implies #[trigger] self.oracles@[i]@ != #[trigger] self.oracles@[j]@ by {
                    if j == before.oracles@.len() {
                        assert(self.oracles@[i] == before.oracles@[i]);
                        assert(!(before.oracles@[i]@ == key@));
                    } else {
                        assert(self.oracles@[i] == before.oracles@[i]);
                        assert(self.oracles@[j] == before.oracles@[j]);
                    }
                }
            }
        }
    }

    /// Sets up the admin, the trusted oracle keys and the quorum, once.
    ///
    /// Fails with `AlreadyInitialized` on a second call and with
    /// `InvalidQuorum` when `quorum` is 0 or exceeds the number of keys given.
    pub fn initialize(&mut self, admin: Address, oracles: &Vec<[u8; 32]>, quorum: u32) -> (r: Result<(), Error>)
        requires
            old(self).wf(),
        ensures
            final(self).wf(),
            r == (if old(self).is_initialized() {
                Err(Error::AlreadyInitialized)
            } else if quorum == 0 || quorum > oracles@.len() {
                Err(Error::InvalidQuorum)
            } else {
                Ok(())
            }),
            r is Err ==> *final(self) == *old(self),
            r is Ok ==> {
                &&& final(self).same_markets(*old(self))
                &&& final(self).admin_view() == Some(admin@)
                &&& final(self).quorum_value() == quorum
                &&& forall|k: Seq<u8>|
                    #[trigger] final(self).is_oracle_key(k) == exists|i: int|
                        0 <= i < oracles@.len() && #[trigger] oracles@[i]@ == k
            },
    {
        if self.admin.is_some() {
            return Err(Error::AlreadyInitialized);
        }
        if quorum == 0 || quorum as usize > oracles.len() {
            return Err(Error::InvalidQuorum);
        }
        let ghost before = *self;
        self.oracles = Vec::new();
        let mut i: usize = 0;
        while i < oracles.len()
            invariant
                self.wf(),
                self.same_markets(before),
                self.admin == before.admin,
                self.quorum == before.quorum,
                i <= oracles@.len(),
                forall|k: Seq<u8>|
                    #[trigger] self.is_oracle_key(k) == exists|j: int| 0 <= j < i && #[trigger] oracles@[j]@ == k,
            decreases oracles@.len() - i,
        {
            let ghost mid = *self;
            self.insert_oracle(oracles[i]);
            proof {
                assert forall|k: Seq<u8>|
                    #[trigger] self.is_oracle_key(k) == exists|j: int| 0 <= j < i + 1 && #[trigger] oracles@[j]@ == k by {
                    if mid.is_oracle_key(k) {
                        let j = choose|j: int| 0 <= j < i && #[trigger] oracles@[j]@ == k;
                        assert(0 <= j < i + 1 && oracles@[j]@ == k);
                    }
                    if exists|j: int| 0 <= j < i + 1 && #[trigger] oracles@[j]@ == k {
                        let j = choose|j: int| 0 <= j < i + 1 && #[trigger] oracles@[j]@ == k;
                        if j < i {
                            assert(mid.is_oracle_key(k));
                        }
                    }
                }
            }
            i = i + 1;
        }
        let ghost filled = *self;
        self.admin = Some(admin);
        self.quorum = quorum;
        proof {
            assert forall|k: Seq<u8>| #[trigger] self.is_oracle_key(k) == filled.is_oracle_key(k) by {
                assert(self.oracles == filled.oracles);
            }
        }
        Ok(())
    }

    /// Trusts one more oracle key (admin only).
    pub fn add_oracle(&mut self, caller: &Address, oracle: [u8; 32]) -> (r: Result<(), Error>)
        requires
            old(self).wf(),
        ensures
            final(self).wf(),
            r == gated(old(self).admin_check(caller@), Ok(())),
            r is Err ==> *final(self) == *old(self),
            r is Ok ==> {
                &&& final(self).same_markets(*old(self))
                &&& final(self).admin_view() == old(self).admin_view()
                &&& final(self).quorum_value() == old(self).quorum_value()
                &&& forall|k: Seq<u8>|
                    #[trigger] final(self).is_oracle_key(k) == (old(self).is_oracle_key(k) || k == oracle@)
            },
    {
        if let Some(e) = self.require_admin(caller) {
            return Err(e);
        }
        self.insert_oracle(oracle);
        Ok(())
    }

    /// Stops trusting an oracle key (admin only). The quorum is left as it is.
    pub fn remove_oracle(&mut self, caller: &Address, oracle: [u8; 32]) -> (r: Result<(), Error>)
        requires
            old(self).wf(),
        ensures
            final(self).wf(),
            r == gated(old(self).admin_check(caller@), Ok(())),
            r is Err ==> *final(self) == *old(self),
            r is Ok ==> {
                &&& final(self).same_markets(*old(self))
                &&& final(self).admin_view() == old(self).admin_view()
                &&& final(self).quorum_value() == old(self).quorum_value()
                &&& forall|k: Seq<u8>|
                    #[trigger] final(self).is_oracle_key(k) == (old(self).is_oracle_key(k) && k != oracle@)
            },
    {
        if let Some(e) = self.require_admin(caller) {
            return Err(e);
        }
        let ghost before = *self;
        match self.find_oracle(&oracle) {
            None => {},
            Some(j) => {
                self.oracles.remove(j);
                proof {
                    let old_s = before.oracles@;
                    let new_s = self.oracles@;
                    assert forall|k: Seq<u8>| #[trigger] self.is_oracle_key(k) == (before.is_oracle_key(k) && k != oracle@) by {
                        if self.is_oracle_key(k) {
                            let i = choose|i: int| 0 <= i < new_s.len() && #[trigger] new_s[i]@ == k;
                            if i < j {
                                assert(new_s[i] == old_s[i]);
                                assert(old_s[i]@ != old_s[j as int]@);
                            } else {
                                assert(new_s[i] == old_s[i + 1]);
                                assert(old_s[j as int]@ != old_s[i + 1]@);
                            }
                        }
                        if before.is_oracle_key(k) && k != oracle@ {
                            let i = choose|i: int| 0 <= i < old_s.len() && #[trigger] old_s[i]@ == k;
                            if i < j {
                                assert(new_s[i] == old_s[i]);
                            } else {
                                assert(i != j);
                                assert(new_s[i - 1] == old_s[i]);
                            }
                        }
                    }
                    assert forall|a: int, b: int|
                        0 <= a < b < new_s.len() implies #[trigger] new_s[a]@ != #[trigger] new_s[b]@ by {
                        let a2 = if a < j { a } else { a + 1 };
                        let b2 = if b < j { b } else { b + 1 };
                        assert(new_s[a] == old_s[a2]);
                        assert(new_s[b] == old_s[b2]);
                        assert(old_s[a2]@ != old_s[b2]@);
                    }
                }
            },
        }
        Ok(())
    }

    /// Changes the quorum (admin only). Fails with `InvalidQuorum` when it is
    /// 0 or exceeds the number of trusted oracle keys.
    pub fn set_quorum(&mut self, caller: &Address, quorum: u32) -> (r: Result<(), Error>)
        requires
            old(self).wf(),
        ensures
            final(self).wf(),
            r == gated(
                old(self).admin_check(caller@),
                if quorum == 0 || quorum > old(self).oracle_count() {
                    Err(Error::InvalidQuorum)
                } else {
                    Ok(())
                },
            ),
            r is Err ==> *final(self) == *old(self),
            r is Ok ==> {
                &&& final(self).same_markets(*old(self))
                &&& final(self).admin_view() == old(self).admin_view()
                &&& final(self).same_oracles(*old(self))
                &&& final(self).quorum_value() == quorum
            },
    {
        if let Some(e) = self.require_admin(caller) {
            return Err(e);
        }
        if quorum == 0 || quorum as usize > self.oracles.len() {
            return Err(Error::InvalidQuorum);
        }
        self.quorum = quorum;
        Ok(())
    }

    /// Hands the admin role to `new_admin` (admin only).
    pub fn set_admin(&mut self, caller: &Address, new_admin: Address) -> (r: Result<(), Error>)
        requires
            old(self).wf(),
        ensures
            final(self).wf(),
            r == gated(old(self).admin_check(caller@), Ok(())),
            r is Err ==> *final(self) == *old(self),
            r is Ok ==> {
                &&& final(self).same_markets(*old(self))
                &&& final(self).admin_view() == Some(new_admin@)
                &&& final(self).same_oracles(*old(self))
                &&& final(self).quorum_value() == old(self).quorum_value()
            },
    {
        if let Some(e) = self.require_admin(caller) {
            return Err(e);
        }
        self.admin = Some(new_admin);
        Ok(())
    }

    /// Claims a winner's pro-rata payout on a finalized market.
    ///
    /// Fails with `CallNotSettled` before finalization, with `AlreadyClaimed`
    /// on a second claim, and otherwise as `compute_payout` does. On success
    /// the claim marker is set in the returned state before the caller
    /// releases the payout, so a repeated or reentrant claim observes
    /// `AlreadyClaimed`.
    pub fn claim_payout(
        &mut self,
        call_id: u64,
        staker: &Address,
        staker_winning_stake: i128,
        total_winning_stake: i128,
        total_losing_stake: i128,
    ) -> (r: Result<i128, Error>)
        requires
            old(self).wf(),
        ensures
            final(self).wf(),
            r == old(self).claim_result(call_id, staker@, staker_winning_stake, total_winning_stake, total_losing_stake),
            r is Err ==> *final(self) == *old(self),
            r is Ok ==> claim_recorded(*old(self), *final(self), call_id, staker@),
    {
        if self.find_outcome(call_id).is_none() {
            return Err(Error::CallNotSettled);
        }
        if self.find_claim(call_id, staker) {
            return Err(Error::AlreadyClaimed);
        }
        let payout = match compute_payout(staker_winning_stake, total_winning_stake, total_losing_stake) {
            Ok(p) => p,
            Err(e) => return Err(e),
        };
        let ghost before = *self;
        let record = ClaimRecord { call_id, staker: staker.clone() };
        self.claims.push(record);
        proof {
            assert forall|d: u64, st: Seq<u8>| #[trigger] self.is_claimed(d, st) == (before.is_claimed(d, st) || (d
                == call_id && st == staker@)) by {
                if before.is_claimed(d, st) {
                    let i = choose|i: int|
                        0 <= i < before.claims@.len() && (#[trigger] before.claims@[i]).call_id == d
                            && before.claims@[i].staker@ == st;
                    assert(self.claims@[i] == before.claims@[i]);
                }
                if d == call_id && st == staker@ {
                    assert(self.claims@[before.claims@.len() as int] == record);
                }
                if self.is_claimed(d, st) {
                    let i = choose|i: int|
                        0 <= i < self.claims@.len() && (#[trigger] self.claims@[i]).call_id == d
                            && self.claims@[i].staker@ == st;
                    if i < before.claims@.len() {
                        assert(before.claims@[i] == self.claims@[i]);
                    }
                }
            }
            assert forall|d: u64| #[trigger] self.final_outcome(d) == before.final_outcome(d) by {
                assert(self.outcomes == before.outcomes);
            }
            assert forall|k: Seq<u8>, d: u64| #[trigger] self.has_voted(k, d) == before.has_voted(k, d) by {
                assert(self.ballots == before.ballots);
            }
            assert forall|c: Seq<u8>, d: u64| #[trigger] self.votes_for(c, d) == before.votes_for(c, d) by {
                assert(self.tallies == before.tallies);
            }
        }
        Ok(payout)
    }

    /// Checks that a market may be marked fully settled (admin only): it
    /// must be finalized. On success the caller signals the staking ledger.
    pub fn mark_settled(&self, caller: &Address, call_id: u64) -> (r: Result<(), Error>)
        ensures
            r == gated(
                self.admin_check(caller@),
                if self.final_outcome(call_id) is None {
                    Err(Error::CallNotFinalized)
                } else {
                    Ok(())
                },
            ),
    {
        if let Some(e) = self.require_admin(caller) {
            return Err(e);
        }
        if self.find_outcome(call_id).is_none() {
            return Err(Error::CallNotFinalized);
        }
        Ok(())
    }

    /// The finalized outcome of a market; `CallNotSettled` while it is open.
    pub fn get_outcome(&self, call_id: u64) -> (r: Result<Outcome, Error>)
        ensures
            r == match self.final_outcome(call_id) {
                Some(o) => Ok(o),
                None => Err(Error::CallNotSettled),
            },
    {
        match self.find_outcome(call_id) {
            Some(o) => Ok(o),
            None => Err(Error::CallNotSettled),
        }
    }

    /// True when `staker` has claimed the payout of market `call_id`.
    pub fn has_claimed(&self, call_id: u64, staker: &Address) -> (r: bool)
        ensures
            r == self.is_claimed(call_id, staker@),
    {
        self.find_claim(call_id, staker)
    }

    /// The current quorum.
    pub fn get_quorum(&self) -> (r: Result<u32, Error>)
        ensures
            r == if self.is_initialized() {
                Ok(self.quorum_value())
            } else {
                Err(Error::NotInitialized)
            },
    {
        if self.admin.is_none() {
            return Err(Error::NotInitialized);
        }
        Ok(self.quorum)
    }

    /// True when `oracle` is a trusted oracle key.
    pub fn is_oracle(&self, oracle: &[u8; 32]) -> (r: Result<bool, Error>)
        ensures
            r == if self.is_initialized() {
                Ok(self.is_oracle_key(oracle@))
            } else {
                Err(Error::NotInitialized)
            },
    {
        if self.admin.is_none() {
            return Err(Error::NotInitialized);
        }
        Ok(self.find_oracle(oracle).is_some())
    }

    /// The current admin, once initialized.
    pub fn get_admin(&self) -> (r: Option<Address>)
        ensures
            match r {
                Some(a) => self.admin_view() == Some(a@),
                None => !self.is_initialized(),
            },
    {
        match &self.admin {
            Some(a) => Some(a.clone()),
            None => None,
        }
    }
}

/// An accepted report finalizes its market exactly when the count of its
/// candidate, this vote included, reaches the quorum: never earlier, never
/// for another candidate, and never on a market that was already decided.
/// The report that finalizes is the one whose answer carries the outcome.
pub proof fn lemma_quorum_exactness(before: OutcomeManager, after: OutcomeManager, s: SignedOutcome)
    requires
        before.submit_result(s) is Ok,
        vote_recorded(before, after, s),
    ensures
        before.final_outcome(s.call_id) is None,
        after.votes_for(candidate_of(s), s.call_id) == before.votes_for(candidate_of(s), s.call_id) + 1,
        (after.final_outcome(s.call_id) is Some) == (after.votes_for(candidate_of(s), s.call_id)
            >= before.quorum_value()),
        after.final_outcome(s.call_id) is Some ==> after.final_outcome(s.call_id) == Some(outcome_of(s)),
        before.submit_result(s) == Ok::<Option<Outcome>, Error>(after.final_outcome(s.call_id)),
        forall|id: u64| id != s.call_id ==> #[trigger] after.final_outcome(id) == before.final_outcome(id),
{
    assert(after.votes_for(candidate_of(s), s.call_id) == before.votes_for(candidate_of(s), s.call_id) + 1);
    assert(after.final_outcome(s.call_id) == if after.votes_for(candidate_of(s), s.call_id)
        >= before.quorum_value() {
        Some(outcome_of(s))
    } else {
        before.final_outcome(s.call_id)
    });
}

/// Once an oracle's report on a market is accepted, every later report by
/// the same key on the same market is rejected, whatever it says.
pub proof fn lemma_duplicate_rejected(
    before: OutcomeManager,
    after: OutcomeManager,
    s: SignedOutcome,
    again: SignedOutcome,
)
    requires
        before.submit_result(s) is Ok,
        vote_recorded(before, after, s),
        again.oracle_pubkey@ == s.oracle_pubkey@,
        again.call_id == s.call_id,
    ensures
        after.submit_result(again) == if after.final_outcome(s.call_id) is Some {
            Err::<Option<Outcome>, Error>(Error::AlreadySettled)
        } else {
            Err(Error::DuplicateSubmission)
        },
{
    assert(after.has_voted(s.oracle_pubkey@, s.call_id));
    assert(after.is_oracle_key(again.oracle_pubkey@) == before.is_oracle_key(again.oracle_pubkey@));
}

/// A report that passes every other check but whose signature does not
/// verify over its canonical message is rejected with `InvalidSignature`.
pub proof fn lemma_bad_signature_rejected(m: OutcomeManager, s: SignedOutcome)
    requires
        m.is_initialized(),
        m.is_oracle_key(s.oracle_pubkey@),
        m.final_outcome(s.call_id) is None,
        !m.has_voted(s.oracle_pubkey@, s.call_id),
        s.outcome == 1 || s.outcome == 2,
        !ed25519_accepts(s.oracle_pubkey@, report_message(s), s.signature@),
    ensures
        m.submit_result(s) == Err::<Option<Outcome>, Error>(Error::InvalidSignature),
{
}

/// A finalized market rejects every report from a trusted oracle with
/// `AlreadySettled`, whatever candidate it stands for.
pub proof fn lemma_finalized_rejects(m: OutcomeManager, s: SignedOutcome)
    requires
        m.is_initialized(),
        m.is_oracle_key(s.oracle_pubkey@),
        m.final_outcome(s.call_id) is Some,
    ensures
        m.submit_result(s) == Err::<Option<Outcome>, Error>(Error::AlreadySettled),
{
}

/// A finalized outcome survives every accepted report and every claim.
pub proof fn lemma_finalized_is_kept(
    before: OutcomeManager,
    after_vote: OutcomeManager,
    after_claim: OutcomeManager,
    s: SignedOutcome,
    call_id: u64,
    staker: Seq<u8>,
    id: u64,
)
    requires
        before.final_outcome(id) is Some,
        before.submit_result(s) is Ok,
        vote_recorded(before, after_vote, s),
        claim_recorded(before, after_claim, call_id, staker),
    ensures
        after_vote.final_outcome(id) == before.final_outcome(id),
        after_claim.final_outcome(id) == before.final_outcome(id),
{
    assert(after_vote.final_outcome(id) == if id == s.call_id && after_vote.votes_for(candidate_of(s), id)
        >= before.quorum_value() {
        Some(outcome_of(s))
    } else {
        before.final_outcome(id)
    });
}

/// After a successful claim, every further claim by the same staker on the
/// same market fails with `AlreadyClaimed`, whatever pool sizes it gives.
pub proof fn lemma_claim_idempotent(
    before: OutcomeManager,
    after: OutcomeManager,
    call_id: u64,
    staker: Seq<u8>,
    stake: i128,
    winning: i128,
    losing: i128,
    stake2: i128,
    winning2: i128,
    losing2: i128,
)
    requires
        before.claim_result(call_id, staker, stake, winning, losing) is Ok,
        claim_recorded(before, after, call_id, staker),
    ensures
        after.claim_result(call_id, staker, stake2, winning2, losing2) == Err::<i128, Error>(Error::AlreadyClaimed),
{
    assert(after.final_outcome(call_id) == before.final_outcome(call_id));
    assert(after.is_claimed(call_id, staker));
}

/// In every well-formed state, the vote count of each candidate on each
/// market is the number of accepted reports for it there.
pub proof fn lemma_tally_counts_ballots(m: OutcomeManager)
    requires
        m.wf(),
    ensures
        forall|c: Seq<u8>, id: u64| #[trigger] m.votes_for(c, id) == m.ballot_count(c, id),
{
    assert forall|c: Seq<u8>, id: u64| #[trigger] m.votes_for(c, id) == m.ballot_count(c, id) by {
        assert(tally_in(m.tallies@, c, id) == ballots_for(m.ballots@, c, id));
    }
}

} // verus!
