use vstd::prelude::*;
use crate::ledger::{
    credit, entries_view, find_staker, lemma_stake_absent, lemma_stake_present, side_wf, stake_of, stake_total,
    CallOutcome, StakeEntry,
};
use crate::types::{Address, Error, StakePosition};

verus! {

/// One prediction market.
#[derive(Debug)]
pub struct Call {
    /// Sequential identifier, starting at 1.
    pub id: u64,
    pub creator: Address,
    /// The token stakes are paid in.
    pub stake_token: Address,
    /// The minimum stake unit.
    pub stake_amount: i128,
    /// The deadline: staking is open strictly before it, resolution at or after it.
    pub end_ts: u64,
    /// The asset being predicted.
    pub token_address: Address,
    /// The identifier of the price pair.
    pub pair_id: Vec<u8>,
    /// A pointer to off-ledger metadata.
    pub ipfs_cid: Vec<u8>,
    pub total_up_stake: i128,
    pub total_down_stake: i128,
    pub up_stakes: Vec<StakeEntry>,
    pub down_stakes: Vec<StakeEntry>,
    pub outcome: CallOutcome,
    pub start_price: i128,
    pub end_price: i128,
    pub settled: bool,
    pub created_at: u64,
}

/// The mathematical content of a `Call`.
pub struct CallView {
    pub id: u64,
    pub creator: Seq<u8>,
    pub stake_token: Seq<u8>,
    pub stake_amount: i128,
    pub end_ts: u64,
    pub token_address: Seq<u8>,
    pub pair_id: Seq<u8>,
    pub ipfs_cid: Seq<u8>,
    pub total_up_stake: i128,
    pub total_down_stake: i128,
    pub up_stakes: Seq<(Seq<u8>, i128)>,
    pub down_stakes: Seq<(Seq<u8>, i128)>,
    pub outcome: CallOutcome,
    pub start_price: i128,
    pub end_price: i128,
    pub settled: bool,
    pub created_at: u64,
}

impl View for Call {
    type V = CallView;

    open spec fn view(&self) -> CallView {
        CallView {
            id: self.id,
            creator: self.creator@,
            stake_token: self.stake_token@,
            stake_amount: self.stake_amount,
            end_ts: self.end_ts,
            token_address: self.token_address@,
            pair_id: self.pair_id@,
            ipfs_cid: self.ipfs_cid@,
            total_up_stake: self.total_up_stake,
            total_down_stake: self.total_down_stake,
            up_stakes: entries_view(self.up_stakes@),
            down_stakes: entries_view(self.down_stakes@),
            outcome: self.outcome,
            start_price: self.start_price,
            end_price: self.end_price,
            settled: self.settled,
            created_at: self.created_at,
        }
    }
}

/// The ledger invariant of a call: each side's running total is the sum of
/// that side's individual balances, each staker appears once per side with a
/// positive balance, and the number of entries fits the statistics counters.
pub open spec fn call_wf(c: CallView) -> bool {
    &&& side_wf(c.up_stakes, c.total_up_stake)
    &&& side_wf(c.down_stakes, c.total_down_stake)
    &&& c.up_stakes.len() + c.down_stakes.len() <= u32::MAX
}

/// The side of a call that a position names.
pub open spec fn side_of(c: CallView, position: StakePosition) -> Seq<(Seq<u8>, i128)> {
    match position {
        StakePosition::Up => c.up_stakes,
        StakePosition::Down => c.down_stakes,
    }
}

/// The running total of the side of a call that a position names.
pub open spec fn total_of(c: CallView, position: StakePosition) -> i128 {
    match position {
        StakePosition::Up => c.total_up_stake,
        StakePosition::Down => c.total_down_stake,
    }
}

fn clone_bytes(v: &Vec<u8>) -> (r: Vec<u8>)
    ensures
        r@ == v@,
{
    let r = v.clone();
    assert(r@ =~= v@);
    r
}

fn clone_entries(v: &Vec<StakeEntry>) -> (r: Vec<StakeEntry>)
    ensures
        entries_view(r@) == entries_view(v@),
{
    let mut r: Vec<StakeEntry> = Vec::new();
    let mut i: usize = 0;
    while i < v.len()
        invariant
            i <= v@.len(),
            r@.len() == i,
            forall|k: int| 0 <= k < i ==> (#[trigger] r@[k])@ == v@[k]@,
        decreases v@.len() - i,
    {
        r.push(v[i].clone());
        i = i + 1;
    }
    assert(entries_view(r@) =~= entries_view(v@));
    r
}

impl Clone for Call {
    fn clone(&self) -> (r: Self)
        ensures
            r@ == self@,
    {
        Call {
            id: self.id,
            creator: self.creator.clone(),
            stake_token: self.stake_token.clone(),
            stake_amount: self.stake_amount,
            end_ts: self.end_ts,
            token_address: self.token_address.clone(),
            pair_id: clone_bytes(&self.pair_id),
            ipfs_cid: clone_bytes(&self.ipfs_cid),
            total_up_stake: self.total_up_stake,
            total_down_stake: self.total_down_stake,
            up_stakes: clone_entries(&self.up_stakes),
            down_stakes: clone_entries(&self.down_stakes),
            outcome: self.outcome,
            start_price: self.start_price,
            end_price: self.end_price,
            settled: self.settled,
            created_at: self.created_at,
        }
    }
}

/// Who administers the ledger, and who may resolve its calls.
#[derive(Debug)]
pub struct ContractConfig {
    pub admin: Address,
    pub outcome_manager: Address,
}

impl Clone for ContractConfig {
    fn clone(&self) -> (r: Self)
        ensures
            r.admin@ == self.admin@,
            r.outcome_manager@ == self.outcome_manager@,
    {
        ContractConfig { admin: self.admin.clone(), outcome_manager: self.outcome_manager.clone() }
    }
}

/// Aggregate figures of one call.
#[derive(Clone, Copy, Debug, PartialEq, Eq, Structural)]
pub struct CallStats {
    pub total_up_stake: i128,
    pub total_down_stake: i128,
    pub total_stakes: u32,
    pub up_stake_count: u32,
    pub down_stake_count: u32,
}

/// The record that a staker has staked on a call.
struct Participation {
    staker: Address,
    call_id: u64,
}

/// The ids of the calls `who` has staked on, in the order of their first
/// stake, according to the participation records `s`.
pub open spec fn ids_of(s: Seq<(Seq<u8>, u64)>, who: Seq<u8>) -> Seq<u64>
    decreases s.len(),
{
    if s.len() == 0 {
        Seq::empty()
    } else if s.last().0 == who {
        ids_of(s.drop_last(), who).push(s.last().1)
    } else {
        ids_of(s.drop_last(), who)
    }
}

/// The calls of `s` created by `creator`, in id order.
pub open spec fn created_by(s: Seq<CallView>, creator: Seq<u8>) -> Seq<CallView>
    decreases s.len(),
{
    if s.len() == 0 {
        Seq::empty()
    } else if s.last().creator == creator {
        created_by(s.drop_last(), creator).push(s.last())
    } else {
        created_by(s.drop_last(), creator)
    }
}

/// The views of a sequence of calls.
pub open spec fn views(s: Seq<Call>) -> Seq<CallView> {
    Seq::new(s.len(), |i: int| s[i]@)
}

/// A call as `create_call` opens it.
pub open spec fn fresh_call(
    id: u64,
    creator: Seq<u8>,
    stake_token: Seq<u8>,
    stake_amount: i128,
    end_ts: u64,
    token_address: Seq<u8>,
    pair_id: Seq<u8>,
    ipfs_cid: Seq<u8>,
    now: u64,
) -> CallView {
    CallView {
        id,
        creator,
        stake_token,
        stake_amount,
        end_ts,
        token_address,
        pair_id,
        ipfs_cid,
        total_up_stake: 0,
        total_down_stake: 0,
        up_stakes: Seq::empty(),
        down_stakes: Seq::empty(),
        outcome: CallOutcome::Unresolved,
        start_price: 0,
        end_price: 0,
        settled: false,
        created_at: now,
    }
}

/// `after` is `before` with `amount` added to the balance of `staker` on the
/// side `position` and to that side's total; nothing else changes.
pub open spec fn stake_added(before: CallView, after: CallView, staker: Seq<u8>, amount: i128, position: StakePosition) -> bool {
    &&& total_of(after, position) == total_of(before, position) + amount
    &&& forall|who: Seq<u8>|
        #[trigger] stake_of(side_of(after, position), who) == stake_of(side_of(before, position), who) + if who
            == staker {
            amount as int
        } else {
            0int
        }
    &&& side_of(after, position).len() == side_of(before, position).len() + if stake_of(
        side_of(before, position),
        staker,
    ) == 0 {
        1int
    } else {
        0int
    }
    &&& after == (match position {
        StakePosition::Up => CallView {
            total_up_stake: after.total_up_stake,
            up_stakes: after.up_stakes,
            ..before
        },
        StakePosition::Down => CallView {
            total_down_stake: after.total_down_stake,
            down_stakes: after.down_stakes,
            ..before
        },
    })
}

/// The staking ledger: calls and the stakes placed on them.
pub struct CallRegistry {
    config: Option<ContractConfig>,
    calls: Vec<Call>,
    participations: Vec<Participation>,
}

impl CallRegistry {
    /// Call `i + 1` sits at index `i` and keeps the ledger invariant; every
    /// participation record names an existing call, and none is repeated.
    pub closed spec fn wf(self) -> bool {
        &&& forall|i: int| 0 <= i < self.calls@.len() ==> (#[trigger] self.calls@[i]).id == i + 1
        &&& forall|i: int| 0 <= i < self.calls@.len() ==> call_wf(#[trigger] self.calls@[i]@)
        &&& forall|i: int|
            0 <= i < self.participations@.len() ==> 1 <= (#[trigger] self.participations@[i]).call_id
                <= self.calls@.len()
        &&& forall|i: int, j: int|
            0 <= i < j < self.participations@.len() ==> #[trigger] self.participation_view()[i]
                != #[trigger] self.participation_view()[j]
    }

    closed spec fn participation_view(self) -> Seq<(Seq<u8>, u64)> {
        Seq::new(self.participations@.len(), |i: int| (self.participations@[i].staker@, self.participations@[i].call_id))
    }

    /// The admin and the outcome manager, once initialized.
    pub closed spec fn config_view(self) -> Option<(Seq<u8>, Seq<u8>)> {
        match self.config {
            Some(c) => Some((c.admin@, c.outcome_manager@)),
            None => None,
        }
    }

    /// The number of calls created so far.
    pub closed spec fn call_count(self) -> nat {
        self.calls@.len()
    }

    /// All calls, in id order.
    pub closed spec fn all_calls(self) -> Seq<CallView> {
        views(self.calls@)
    }

    /// The call with id `id`, if it exists.
    pub closed spec fn call_view(self, id: u64) -> Option<CallView> {
        if 1 <= id <= self.calls@.len() {
            Some(self.calls@[id - 1]@)
        } else {
            None
        }
    }

    /// The ids of the calls `who` has staked on, in the order of first stake.
    pub closed spec fn staker_call_ids(self, who: Seq<u8>) -> Seq<u64> {
        ids_of(self.participation_view(), who)
    }

    /// What an operation reserved to the role picked by `role` answers
    /// before it looks at its arguments.
    pub open spec fn role_check(self, caller: Seq<u8>, admin_role: bool) -> Option<Error> {
        match self.config_view() {
            None => Some(Error::NotInitialized),
            Some(c) => if (if admin_role {
                c.0
            } else {
                c.1
            }) == caller {
                None
            } else {
                Some(Error::Unauthorized)
            },
        }
    }

    /// The failure, if any, of opening a call.
    pub open spec fn create_check(self, stake_amount: i128, end_ts: u64, now: u64) -> Option<Error> {
        if stake_amount <= 0 {
            Some(Error::InvalidAmount)
        } else if end_ts <= now {
            Some(Error::InvalidDeadline)
        } else if self.call_count() >= u64::MAX {
            Some(Error::ArithmeticError)
        } else {
            None
        }
    }

    /// The calls agree in both states.
    pub closed spec fn same_calls(self, other: CallRegistry) -> bool {
        self.calls == other.calls
    }

    /// The participation records agree in both states.
    pub closed spec fn same_participations(self, other: CallRegistry) -> bool {
        self.participations == other.participations
    }

    /// The failure, if any, of a stake of `amount` by `staker` on `call_id`.
    pub open spec fn stake_check(self, staker: Seq<u8>, call_id: u64, amount: i128, position: u32, now: u64) -> Option<Error> {
        if amount <= 0 {
            Some(Error::InvalidAmount)
        } else if self.call_view(call_id) is None {
            Some(Error::CallNotFound)
        } else if now >= self.call_view(call_id)->Some_0.end_ts {
            Some(Error::CallEnded)
        } else if self.call_view(call_id)->Some_0.settled {
            Some(Error::CallSettled)
        } else if position != 1 && position != 2 {
            Some(Error::InvalidSide)
        } else {
            let c = self.call_view(call_id)->Some_0;
            let side = if position == 1 { StakePosition::Up } else { StakePosition::Down };
            if total_of(c, side) + amount > i128::MAX {
                Some(Error::ArithmeticError)
            } else if stake_of(side_of(c, side), staker) == 0 && c.up_stakes.len() + c.down_stakes.len() >= u32::MAX {
                Some(Error::ArithmeticError)
            } else {
                None
            }
        }
    }
}

proof fn lemma_ids_of_push(s: Seq<(Seq<u8>, u64)>, e: (Seq<u8>, u64), who: Seq<u8>)
    ensures
        ids_of(s.push(e), who) == if e.0 == who {
            ids_of(s, who).push(e.1)
        } else {
            ids_of(s, who)
        },
{
    assert(s.push(e).drop_last() == s);
}

proof fn lemma_ids_of_contains(s: Seq<(Seq<u8>, u64)>, who: Seq<u8>, id: u64)
    ensures
        ids_of(s, who).contains(id) == exists|i: int| 0 <= i < s.len() && #[trigger] s[i] == (who, id),
    decreases s.len(),
{
    if s.len() > 0 {
        let p = s.drop_last();
        lemma_ids_of_contains(p, who, id);
        if exists|i: int| 0 <= i < s.len() && #[trigger] s[i] == (who, id) {
            let i = choose|i: int| 0 <= i < s.len() && #[trigger] s[i] == (who, id);
            if i < s.len() - 1 {
                assert(p[i] == s[i]);
                let k = choose|k: int| 0 <= k < ids_of(p, who).len() && ids_of(p, who)[k] == id;
                if s.last().0 == who {
                    assert(ids_of(s, who)[k] == id);
                }
            } else {
                assert(ids_of(s, who) == ids_of(p, who).push(id));
                assert(ids_of(s, who)[ids_of(s, who).len() - 1] == id);
            }
        }
        if ids_of(s, who).contains(id) {
            if s.last().0 == who && s.last().1 == id {
                assert(s[s.len() - 1] == (who, id));
            } else {
                if s.last().0 == who {
                    let k = choose|k: int| 0 <= k < ids_of(s, who).len() && ids_of(s, who)[k] == id;
                    assert(k < ids_of(p, who).len());
                    assert(ids_of(p, who).contains(id));
                } else {
                    assert(ids_of(p, who).contains(id));
                }
                let i = choose|i: int| 0 <= i < p.len() && #[trigger] p[i] == (who, id);
                assert(s[i] == p[i]);
            }
        }
    }
}

proof fn lemma_created_by_push(s: Seq<CallView>, c: CallView, creator: Seq<u8>)
    ensures
        created_by(s.push(c), creator) == if c.creator == creator {
            created_by(s, creator).push(c)
        } else {
            created_by(s, creator)
        },
{
    assert(s.push(c).drop_last() == s);
}

impl CallRegistry {
    /// A ledger with no configuration and no calls.
    pub fn new() -> (r: CallRegistry)
        ensures
            r.wf(),
            r.config_view() is None,
            r.call_count() == 0,
            forall|who: Seq<u8>| #[trigger] r.staker_call_ids(who) == Seq::<u64>::empty(),
    {
        let r = CallRegistry { config: None, calls: Vec::new(), participations: Vec::new() };
        proof {
            assert forall|who: Seq<u8>| #[trigger] r.staker_call_ids(who) == Seq::<u64>::empty() by {
                assert(r.participation_view().len() == 0);
            }
        }
        r
    }

    fn check_role(&self, caller: &Address, admin_role: bool) -> (r: Option<Error>)
        ensures
            r == self.role_check(caller@, admin_role),
    {
        match &self.config {
            None => Some(Error::NotInitialized),
            Some(c) => {
                let holder = if admin_role {
                    &c.admin
                } else {
                    &c.outcome_manager
                };
                if holder.same_as(caller) {
                    None
                } else {
                    Some(Error::Unauthorized)
                }
            },
        }
    }

    /// Sets the admin and the outcome manager, once; `AlreadyInitialized` after.
    pub fn initialize(&mut self, admin: Address, outcome_manager: Address) -> (r: Result<(), Error>)
        requires
            old(self).wf(),
        ensures
            final(self).wf(),
            r == if old(self).config_view() is Some {
                Err(Error::AlreadyInitialized)
            } else {
                Ok(())
            },
            r is Err ==> *final(self) == *old(self),
            r is Ok ==> final(self).config_view() == Some((admin@, outcome_manager@)),
            final(self).same_calls(*old(self)),
            final(self).same_participations(*old(self)),
    {
        if self.config.is_some() {
            return Err(Error::AlreadyInitialized);
        }
        let ghost before = *self;
        self.config = Some(ContractConfig { admin, outcome_manager });
        assert(self.participation_view() =~= before.participation_view());
        Ok(())
    }

    /// Opens a new call with the next sequential id.
    ///
    /// Fails with `InvalidAmount` when `stake_amount <= 0` and with
    /// `InvalidDeadline` when `end_ts <= now`; ids are never reused.
    pub fn create_call(
        &mut self,
        creator: &Address,
        stake_token: &Address,
        stake_amount: i128,
        end_ts: u64,
        token_address: &Address,
        pair_id: &Vec<u8>,
        ipfs_cid: &Vec<u8>,
        now: u64,
    ) -> (r: Result<Call, Error>)
        requires
            old(self).wf(),
        ensures
            final(self).wf(),
            match old(self).create_check(stake_amount, end_ts, now) {
                Some(e) => r == Err::<Call, Error>(e),
                None => r is Ok,
            },
            r is Err ==> *final(self) == *old(self),
            r matches Ok(c) ==> {
                &&& c@ == fresh_call(
                    (old(self).call_count() + 1) as u64,
                    creator@,
                    stake_token@,
                    stake_amount,
                    end_ts,
                    token_address@,
                    pair_id@,
                    ipfs_cid@,
                    now,
                )
                &&& final(self).call_count() == old(self).call_count() + 1
                &&& final(self).all_calls() == old(self).all_calls().push(c@)
                &&& forall|id: u64| #[trigger] final(self).call_view(id) == if id == c.id {
                    Some(c@)
                } else {
                    old(self).call_view(id)
                }
                &&& final(self).config_view() == old(self).config_view()
                &&& final(self).same_participations(*old(self))
            },
    {
        if stake_amount <= 0 {
            return Err(Error::InvalidAmount);
        }
        if end_ts <= now {
            return Err(Error::InvalidDeadline);
        }
        let count = self.calls.len() as u64;
        if count == u64::MAX {
            return Err(Error::ArithmeticError);
        }
        let ghost before = *self;
        let call = Call {
            id: count + 1,
            creator: creator.clone(),
            stake_token: stake_token.clone(),
            stake_amount,
            end_ts,
            token_address: token_address.clone(),
            pair_id: clone_bytes(pair_id),
            ipfs_cid: clone_bytes(ipfs_cid),
            total_up_stake: 0,
            total_down_stake: 0,
            up_stakes: Vec::new(),
            down_stakes: Vec::new(),
            outcome: CallOutcome::Unresolved,
            start_price: 0,
            end_price: 0,
            settled: false,
            created_at: now,
        };
        proof {
            assert(entries_view(call.up_stakes@) =~= Seq::<(Seq<u8>, i128)>::empty());
            assert(entries_view(call.down_stakes@) =~= Seq::<(Seq<u8>, i128)>::empty());
        }
        let result = call.clone();
        self.calls.push(call);
        proof {
            assert(self.all_calls() =~= before.all_calls().push(result@));
            assert(self.participation_view() =~= before.participation_view());
        }
        Ok(result)
    }

    fn add_staker_call(&mut self, staker: &Address, call_id: u64)
        requires
            old(self).wf(),
            1 <= call_id <= old(self).calls@.len(),
        ensures
            final(self).wf(),
            final(self).calls == old(self).calls,
            final(self).config == old(self).config,
            forall|who: Seq<u8>| #[trigger] final(self).staker_call_ids(who) == if who == staker@
                && !old(self).staker_call_ids(who).contains(call_id) {
                old(self).staker_call_ids(who).push(call_id)
            } else {
                old(self).staker_call_ids(who)
            },
    {
        let ghost before = *self;
        let ghost pv = self.participation_view();
        let mut i: usize = 0;
        while i < self.participations.len()
            invariant
                *self == before,
                before.wf(),
                pv == self.participation_view(),
                i <= pv.len(),
                forall|k: int| 0 <= k < i ==> #[trigger] pv[k] != (staker@, call_id),
            decreases pv.len() - i,
        {
            if self.participations[i].call_id == call_id && self.participations[i].staker.same_as(staker) {
                proof {
                    assert(pv[i as int] == (staker@, call_id));
                    lemma_ids_of_contains(pv, staker@, call_id);
                }
                return;
            }
            i = i + 1;
        }
        proof {
            lemma_ids_of_contains(pv, staker@, call_id);
        }
        let record = Participation { staker: staker.clone(), call_id };
        self.participations.push(record);
        proof {
            assert(self.participation_view() =~= pv.push((staker@, call_id)));
            assert forall|who: Seq<u8>| #[trigger] self.staker_call_ids(who) == if who == staker@
                && !before.staker_call_ids(who).contains(call_id) {
                before.staker_call_ids(who).push(call_id)
            } else {
                before.staker_call_ids(who)
            } by {
                lemma_ids_of_push(pv, (staker@, call_id), who);
            }
            let nv = self.participation_view();
            assert forall|a: int, b: int| 0 <= a < b < nv.len() implies #[trigger] nv[a] != #[trigger] nv[b] by {
                if b < pv.len() {
                    assert(nv[a] == pv[a] && nv[b] == pv[b]);
                } else {
                    assert(nv[a] == pv[a]);
                }
            }
        }
    }
}

/// The position a wire code names, for codes that pass validation.
pub open spec fn position_of(code: u32) -> StakePosition {
    if code == 1 {
        StakePosition::Up
    } else {
        StakePosition::Down
    }
}

/// The outcome a wire code names, for codes that pass validation.
pub open spec fn outcome_of_code(code: u32) -> CallOutcome {
    if code == 1 {
        CallOutcome::Up
    } else {
        CallOutcome::Down
    }
}

/// A staker is absent from a side exactly when its balance there is 0.
proof fn lemma_balance_zero_iff_absent(s: Seq<(Seq<u8>, i128)>, total: i128, who: Seq<u8>)
    requires
        side_wf(s, total),
    ensures
        (stake_of(s, who) == 0) == (forall|k: int| 0 <= k < s.len() ==> (#[trigger] s[k]).0 != who),
{
    if exists|k: int| 0 <= k < s.len() && (#[trigger] s[k]).0 == who {
        let k = choose|k: int| 0 <= k < s.len() && (#[trigger] s[k]).0 == who;
        lemma_stake_present(s, k);
    } else {
        lemma_stake_absent(s, who);
    }
}

impl CallRegistry {
    /// Adds `amount` to the balance of `staker` on side `position` (1 UP,
    /// 2 DOWN) of call `call_id`, at time `now`, and returns the updated call.
    ///
    /// Fails, in this order, with `InvalidAmount` when `amount <= 0`,
    /// `CallNotFound`, `CallEnded` when `now >= end_ts`, `CallSettled`,
    /// `InvalidSide`, and `ArithmeticError` when the side's total would
    /// overflow or the entry counters are full. The caller moves the tokens
    /// into custody; on success the staker is recorded as a participant.
    pub fn stake_on_call(&mut self, staker: &Address, call_id: u64, amount: i128, position: u32, now: u64) -> (r: Result<Call, Error>)
        requires
            old(self).wf(),
        ensures
            final(self).wf(),
            match old(self).stake_check(staker@, call_id, amount, position, now) {
                Some(e) => r == Err::<Call, Error>(e),
                None => r is Ok,
            },
            r is Err ==> *final(self) == *old(self),
            r matches Ok(c) ==> {
                &&& final(self).call_view(call_id) == Some(c@)
                &&& stake_added(old(self).call_view(call_id)->Some_0, c@, staker@, amount, position_of(position))
                &&& forall|id: u64| id != call_id ==> #[trigger] final(self).call_view(id) == old(self).call_view(id)
                &&& final(self).call_count() == old(self).call_count()
                &&& final(self).config_view() == old(self).config_view()
                &&& forall|who: Seq<u8>| #[trigger] final(self).staker_call_ids(who) == if who == staker@
                    && !old(self).staker_call_ids(who).contains(call_id) {
                    old(self).staker_call_ids(who).push(call_id)
                } else {
                    old(self).staker_call_ids(who)
                }
            },
    {
        if amount <= 0 {
            return Err(Error::InvalidAmount);
        }
        if call_id == 0 || call_id > self.calls.len() as u64 {
            return Err(Error::CallNotFound);
        }
        let idx = (call_id - 1) as usize;
        if now >= self.calls[idx].end_ts {
            return Err(Error::CallEnded);
        }
        if self.calls[idx].settled {
            return Err(Error::CallSettled);
        }
        let side = match StakePosition::from_u32(position) {
            Some(p) => p,
            None => return Err(Error::InvalidSide),
        };
        let ghost before = *self;
        let ghost old_call = self.calls@[idx as int]@;
        let mut call = self.calls[idx].clone();
        assert(call_wf(call@));
        let entries_full = call.up_stakes.len() + call.down_stakes.len() >= u32::MAX as usize;
        match side {
            StakePosition::Up => {
                if call.total_up_stake > i128::MAX - amount {
                    return Err(Error::ArithmeticError);
                }
                let absent = find_staker(&call.up_stakes, staker).is_none();
                proof {
                    lemma_balance_zero_iff_absent(call@.up_stakes, call.total_up_stake, staker@);
                    if !absent {
                        let j = choose|j: int| 0 <= j < call.up_stakes@.len() && call.up_stakes@[j].staker@ == staker@;
                        assert(call@.up_stakes[j].0 == staker@);
                    }
                }
                if absent && entries_full {
                    return Err(Error::ArithmeticError);
                }
                let total = credit(&mut call.up_stakes, call.total_up_stake, staker, amount);
                call.total_up_stake = total;
            },
            StakePosition::Down => {
                if call.total_down_stake > i128::MAX - amount {
                    return Err(Error::ArithmeticError);
                }
                let absent = find_staker(&call.down_stakes, staker).is_none();
                proof {
                    lemma_balance_zero_iff_absent(call@.down_stakes, call.total_down_stake, staker@);
                    if !absent {
                        let j = choose|j: int| 0 <= j < call.down_stakes@.len() && call.down_stakes@[j].staker@ == staker@;
                        assert(call@.down_stakes[j].0 == staker@);
                    }
                }
                if absent && entries_full {
                    return Err(Error::ArithmeticError);
                }
                let total = credit(&mut call.down_stakes, call.total_down_stake, staker, amount);
                call.total_down_stake = total;
            },
        }
        assert(stake_added(old_call, call@, staker@, amount, side));
        let result = call.clone();
        self.calls.set(idx, call);
        proof {
            assert(self.participation_view() =~= before.participation_view());
            assert forall|i: int| 0 <= i < self.calls@.len() implies call_wf(#[trigger] self.calls@[i]@) by {
                if i != idx {
                    assert(self.calls@[i] == before.calls@[i]);
                }
            }
        }
        self.add_staker_call(staker, call_id);
        Ok(result)
    }

    /// Records the outcome of an ended call (outcome manager only).
    ///
    /// Fails with `NotInitialized`, `Unauthorized` when `caller` is not the
    /// outcome manager, `CallNotFound`, `InvalidOutcome` unless `outcome` is
    /// 1 (UP) or 2 (DOWN), and `CallNotEnded` when `now < end_ts`. Sets the
    /// outcome and the end price and returns the updated call.
    pub fn resolve_call(&mut self, caller: &Address, call_id: u64, outcome: u32, end_price: i128, now: u64) -> (r: Result<Call, Error>)
        requires
            old(self).wf(),
        ensures
            final(self).wf(),
            match old(self).role_check(caller@, false) {
                Some(e) => r == Err::<Call, Error>(e),
                None => if old(self).call_view(call_id) is None {
                    r == Err::<Call, Error>(Error::CallNotFound)
                } else if outcome != 1 && outcome != 2 {
                    r == Err::<Call, Error>(Error::InvalidOutcome)
                } else if now < old(self).call_view(call_id)->Some_0.end_ts {
                    r == Err::<Call, Error>(Error::CallNotEnded)
                } else {
                    r is Ok
                },
            },
            r is Err ==> *final(self) == *old(self),
            r matches Ok(c) ==> {
                &&& c@ == (CallView {
                    outcome: outcome_of_code(outcome),
                    end_price,
                    ..old(self).call_view(call_id)->Some_0
                })
                &&& final(self).call_view(call_id) == Some(c@)
                &&& forall|id: u64| id != call_id ==> #[trigger] final(self).call_view(id) == old(self).call_view(id)
                &&& final(self).call_count() == old(self).call_count()
                &&& final(self).config_view() == old(self).config_view()
                &&& final(self).same_participations(*old(self))
            },
    {
        if let Some(e) = self.check_role(caller, false) {
            return Err(e);
        }
        if call_id == 0 || call_id > self.calls.len() as u64 {
            return Err(Error::CallNotFound);
        }
        if outcome != 1 && outcome != 2 {
            return Err(Error::InvalidOutcome);
        }
        let idx = (call_id - 1) as usize;
        if now < self.calls[idx].end_ts {
            return Err(Error::CallNotEnded);
        }
        let ghost before = *self;
        let mut call = self.calls[idx].clone();
        call.outcome = if outcome == 1 {
            CallOutcome::Up
        } else {
            CallOutcome::Down
        };
        call.end_price = end_price;
        let result = call.clone();
        self.calls.set(idx, call);
        proof {
            assert(self.participation_view() =~= before.participation_view());
            assert forall|i: int| 0 <= i < self.calls@.len() implies call_wf(#[trigger] self.calls@[i]@) by {
                if i != idx {
                    assert(self.calls@[i] == before.calls@[i]);
                } else {
                    assert(call_wf(before.calls@[i]@));
                }
            }
        }
        Ok(result)
    }

    /// Marks an existing call as fully wound down (outcome manager only);
    /// no stake is accepted on it afterwards.
    pub fn mark_settled(&mut self, caller: &Address, call_id: u64) -> (r: Result<(), Error>)
        requires
            old(self).wf(),
        ensures
            final(self).wf(),
            match old(self).role_check(caller@, false) {
                Some(e) => r == Err::<(), Error>(e),
                None => if old(self).call_view(call_id) is None {
                    r == Err::<(), Error>(Error::CallNotFound)
                } else {
                    r is Ok
                },
            },
            r is Err ==> *final(self) == *old(self),
            r is Ok ==> {
                &&& final(self).call_view(call_id) == Some(CallView { settled: true, ..old(self).call_view(call_id)->Some_0 })
                &&& forall|id: u64| id != call_id ==> #[trigger] final(self).call_view(id) == old(self).call_view(id)
                &&& final(self).call_count() == old(self).call_count()
                &&& final(self).config_view() == old(self).config_view()
                &&& final(self).same_participations(*old(self))
            },
    {
        if let Some(e) = self.check_role(caller, false) {
            return Err(e);
        }
        if call_id == 0 || call_id > self.calls.len() as u64 {
            return Err(Error::CallNotFound);
        }
        let idx = (call_id - 1) as usize;
        let ghost before = *self;
        let mut call = self.calls[idx].clone();
        call.settled = true;
        self.calls.set(idx, call);
        proof {
            assert(self.participation_view() =~= before.participation_view());
            assert forall|i: int| 0 <= i < self.calls@.len() implies call_wf(#[trigger] self.calls@[i]@) by {
                if i != idx {
                    assert(self.calls@[i] == before.calls@[i]);
                } else {
                    assert(call_wf(before.calls@[i]@));
                }
            }
        }
        Ok(())
    }

    /// Hands the admin role to `new_admin` (admin only).
    pub fn set_admin(&mut self, caller: &Address, new_admin: Address) -> (r: Result<(), Error>)
        requires
            old(self).wf(),
        ensures
            final(self).wf(),
            match old(self).role_check(caller@, true) {
                Some(e) => r == Err::<(), Error>(e),
                None => r is Ok,
            },
            r is Err ==> *final(self) == *old(self),
            r is Ok ==> final(self).config_view() == Some((new_admin@, old(self).config_view()->Some_0.1)),
            final(self).same_calls(*old(self)),
            final(self).same_participations(*old(self)),
    {
        if let Some(e) = self.check_role(caller, true) {
            return Err(e);
        }
        let ghost before = *self;
        let manager = match &self.config {
            Some(c) => c.outcome_manager.clone(),
            None => return Err(Error::NotInitialized),
        };
        self.config = Some(ContractConfig { admin: new_admin, outcome_manager: manager });
        assert(self.participation_view() =~= before.participation_view());
        Ok(())
    }

    /// Hands the resolver role to `new_manager` (admin only).
    pub fn set_outcome_manager(&mut self, caller: &Address, new_manager: Address) -> (r: Result<(), Error>)
        requires
            old(self).wf(),
        ensures
            final(self).wf(),
            match old(self).role_check(caller@, true) {
                Some(e) => r == Err::<(), Error>(e),
                None => r is Ok,
            },
            r is Err ==> *final(self) == *old(self),
            r is Ok ==> final(self).config_view() == Some((old(self).config_view()->Some_0.0, new_manager@)),
            final(self).same_calls(*old(self)),
            final(self).same_participations(*old(self)),
    {
        if let Some(e) = self.check_role(caller, true) {
            return Err(e);
        }
        let ghost before = *self;
        let admin = match &self.config {
            Some(c) => c.admin.clone(),
            None => return Err(Error::NotInitialized),
        };
        self.config = Some(ContractConfig { admin, outcome_manager: new_manager });
        assert(self.participation_view() =~= before.participation_view());
        Ok(())
    }
}

impl CallRegistry {
    /// The call with id `call_id`; `CallNotFound` when there is none.
    pub fn get_call(&self, call_id: u64) -> (r: Result<Call, Error>)
        ensures
            match self.call_view(call_id) {
                Some(v) => r matches Ok(c) && c@ == v,
                None => r == Err::<Call, Error>(Error::CallNotFound),
            },
    {
        if call_id == 0 || call_id > self.calls.len() as u64 {
            return Err(Error::CallNotFound);
        }
        Ok(self.calls[(call_id - 1) as usize].clone())
    }

    /// Every call created by `creator`, in id order.
    pub fn get_calls_by_creator(&self, creator: &Address) -> (r: Vec<Call>)
        ensures
            views(r@) == created_by(self.all_calls(), creator@),
    {
        let mut out: Vec<Call> = Vec::new();
        let mut i: usize = 0;
        while i < self.calls.len()
            invariant
                i <= self.calls@.len(),
                views(out@) == created_by(self.all_calls().subrange(0, i as int), creator@),
            decreases self.calls@.len() - i,
        {
            let ghost prefix = self.all_calls().subrange(0, i as int);
            let ghost before = out@;
            proof {
                assert(self.all_calls().subrange(0, i + 1) == prefix.push(self.calls@[i as int]@));
                lemma_created_by_push(prefix, self.calls@[i as int]@, creator@);
            }
            if self.calls[i].creator.same_as(creator) {
                let c = self.calls[i].clone();
                out.push(c);
                assert(views(out@) =~= views(before).push(c@));
            }
            i = i + 1;
        }
        assert(self.all_calls().subrange(0, self.calls@.len() as int) == self.all_calls());
        out
    }

    /// The totals and the number of distinct stakers of each side of a call.
    pub fn get_call_stats(&self, call_id: u64) -> (r: Result<CallStats, Error>)
        requires
            self.wf(),
        ensures
            match self.call_view(call_id) {
                Some(v) => r == Ok::<CallStats, Error>(
                    CallStats {
                        total_up_stake: v.total_up_stake,
                        total_down_stake: v.total_down_stake,
                        total_stakes: (v.up_stakes.len() + v.down_stakes.len()) as u32,
                        up_stake_count: v.up_stakes.len() as u32,
                        down_stake_count: v.down_stakes.len() as u32,
                    },
                ),
                None => r == Err::<CallStats, Error>(Error::CallNotFound),
            },
    {
        if call_id == 0 || call_id > self.calls.len() as u64 {
            return Err(Error::CallNotFound);
        }
        let call = &self.calls[(call_id - 1) as usize];
        assert(call_wf(call@));
        let up = call.up_stakes.len() as u32;
        let down = call.down_stakes.len() as u32;
        Ok(
            CallStats {
                total_up_stake: call.total_up_stake,
                total_down_stake: call.total_down_stake,
                total_stakes: up + down,
                up_stake_count: up,
                down_stake_count: down,
            },
        )
    }

    /// Every call `staker` has staked on, in the order of first stake.
    pub fn get_staker_calls(&self, staker: &Address) -> (r: Vec<Call>)
        requires
            self.wf(),
        ensures
            r@.len() == self.staker_call_ids(staker@).len(),
            forall|i: int|
                0 <= i < r@.len() ==> Some((#[trigger] r@[i])@) == self.call_view(self.staker_call_ids(staker@)[i]),
    {
        let ghost pv = self.participation_view();
        let mut out: Vec<Call> = Vec::new();
        let mut i: usize = 0;
        while i < self.participations.len()
            invariant
                self.wf(),
                pv == self.participation_view(),
                i <= pv.len(),
                out@.len() == ids_of(pv.subrange(0, i as int), staker@).len(),
                forall|k: int|
                    0 <= k < out@.len() ==> Some((#[trigger] out@[k])@) == self.call_view(
                        ids_of(pv.subrange(0, i as int), staker@)[k],
                    ),
            decreases pv.len() - i,
        {
            let ghost prefix = pv.subrange(0, i as int);
            proof {
                assert(pv.subrange(0, i + 1) == prefix.push(pv[i as int]));
                lemma_ids_of_push(prefix, pv[i as int], staker@);
            }
            if self.participations[i].staker.same_as(staker) {
                let id = self.participations[i].call_id;
                assert(1 <= self.participations@[i as int].call_id <= self.calls@.len());
                let count = self.calls.len();
                assert(id <= count);
                let slot = (id - 1) as usize;
                let c = self.calls[slot].clone();
                let ghost prev = out@;
                out.push(c);
                proof {
                    assert(pv[i as int].1 == id);
                    assert(self.call_view(id) == Some(c@));
                    let ids = ids_of(pv.subrange(0, i + 1), staker@);
                    assert(ids == ids_of(prefix, staker@).push(id));
                    assert forall|k: int| 0 <= k < out@.len() implies Some((#[trigger] out@[k])@) == self.call_view(ids[k]) by {
                        if k < prev.len() {
                            assert(out@[k] == prev[k]);
                        }
                    }
                }
            }
            i = i + 1;
        }
        assert(pv.subrange(0, pv.len() as int) == pv);
        out
    }

    /// The configuration; `NotInitialized` before `initialize`.
    pub fn get_config(&self) -> (r: Result<ContractConfig, Error>)
        ensures
            match self.config_view() {
                Some(c) => r matches Ok(k) && k.admin@ == c.0 && k.outcome_manager@ == c.1,
                None => r is Err && r == Err::<ContractConfig, Error>(Error::NotInitialized),
            },
    {
        match &self.config {
            Some(c) => Ok(c.clone()),
            None => Err(Error::NotInitialized),
        }
    }

    /// True when a call with id `call_id` exists.
    pub fn call_exists(&self, call_id: u64) -> (r: bool)
        ensures
            r == (self.call_view(call_id) is Some),
    {
        1 <= call_id && call_id <= self.calls.len() as u64
    }

    /// The number of calls created so far.
    pub fn get_call_count(&self) -> (r: u64)
        ensures
            r == self.call_count(),
    {
        self.calls.len() as u64
    }

    /// The balance of `staker` on side `position` (1 UP, 2 DOWN) of a call,
    /// 0 when it has not staked there.
    pub fn get_staker_stake(&self, call_id: u64, staker: &Address, position: u32) -> (r: Result<i128, Error>)
        requires
            self.wf(),
        ensures
            match self.call_view(call_id) {
                None => r == Err::<i128, Error>(Error::CallNotFound),
                Some(v) => if position != 1 && position != 2 {
                    r == Err::<i128, Error>(Error::InvalidSide)
                } else {
                    r matches Ok(a) && a as int == stake_of(side_of(v, position_of(position)), staker@)
                },
            },
    {
        if call_id == 0 || call_id > self.calls.len() as u64 {
            return Err(Error::CallNotFound);
        }
        let call = &self.calls[(call_id - 1) as usize];
        assert(call_wf(call@));
        let entries = match StakePosition::from_u32(position) {
            Some(StakePosition::Up) => &call.up_stakes,
            Some(StakePosition::Down) => &call.down_stakes,
            None => return Err(Error::InvalidSide),
        };
        let ghost side = entries_view(entries@);
        assert(side == side_of(call@, position_of(position)));
        match find_staker(entries, staker) {
            Some(j) => {
                proof {
                    assert(side[j as int].0 == staker@);
                    lemma_stake_present(side, j as int);
                }
                Ok(entries[j].amount)
            },
            None => {
                proof {
                    assert forall|k: int| 0 <= k < side.len() implies (#[trigger] side[k]).0 != staker@ by {
                        assert(side[k] == entries@[k]@);
                    }
                    lemma_stake_absent(side, staker@);
                }
                Ok(0)
            },
        }
    }
}

/// At every point, each side's running total of a call equals the sum of the
/// individual balances on that side.
pub proof fn lemma_ledger_balanced(reg: CallRegistry, id: u64)
    requires
        reg.wf(),
        reg.call_view(id) is Some,
    ensures
        reg.call_view(id)->Some_0.total_up_stake == stake_total(reg.call_view(id)->Some_0.up_stakes),
        reg.call_view(id)->Some_0.total_down_stake == stake_total(reg.call_view(id)->Some_0.down_stakes),
{
    assert(call_wf(reg.calls@[id - 1]@));
}

} // verus!
