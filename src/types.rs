use vstd::prelude::*;

verus! {

/// The kinds of failure an operation can surface. An operation that fails
/// leaves the state it was called on unchanged.
#[derive(Clone, Copy, Debug, PartialEq, Eq, Structural)]
pub enum Error {
    AlreadyInitialized,
    NotInitialized,
    Unauthorized,
    InvalidAmount,
    InvalidDeadline,
    InvalidOutcome,
    InvalidSide,
    InvalidQuorum,
    InvalidWinningPool,
    CallNotFound,
    CallEnded,
    CallNotEnded,
    CallSettled,
    CallNotSettled,
    CallNotFinalized,
    UnauthorizedOracle,
    DuplicateSubmission,
    AlreadySettled,
    InvalidSignature,
    AlreadyClaimed,
    NothingToClaim,
    ArithmeticError,
}

/// The side of a market a stake is placed on.
#[derive(Clone, Copy, Debug, PartialEq, Eq, Structural)]
pub enum StakePosition {
    Up,
    Down,
}

/// The wire code of a position: 1 for UP, 2 for DOWN.
pub open spec fn position_code(p: StakePosition) -> u32 {
    match p {
        StakePosition::Up => 1,
        StakePosition::Down => 2,
    }
}

impl StakePosition {
    /// Decodes a wire code; only 1 and 2 name a position.
    pub fn from_u32(value: u32) -> (r: Option<StakePosition>)
        ensures
            r == (if value == 1 {
                Some(StakePosition::Up)
            } else if value == 2 {
                Some(StakePosition::Down)
            } else {
                None
            }),
    {
        match value {
            1 => Some(StakePosition::Up),
            2 => Some(StakePosition::Down),
            _ => None,
        }
    }

    /// Encodes the position as its wire code.
    pub fn to_u32(&self) -> (r: u32)
        ensures
            r == position_code(*self),
    {
        match self {
            StakePosition::Up => 1,
            StakePosition::Down => 2,
        }
    }
}

} // verus!

verus! {

/// True when the two byte strings are identical; runs in time linear in their length.
pub fn same_bytes(a: &[u8], b: &[u8]) -> (r: bool)
    ensures
        r == (a@ == b@),
{
    if a.len() != b.len() {
        return false;
    }
    let mut i: usize = 0;
    while i < a.len()
        invariant
            a@.len() == b@.len(),
            i <= a@.len(),
            a@.subrange(0, i as int) == b@.subrange(0, i as int),
        decreases a@.len() - i,
    {
        if a[i] != b[i] {
            assert(a@[i as int] != b@[i as int]);
            return false;
        }
        assert(a@.subrange(0, i + 1) == a@.subrange(0, i as int).push(a@[i as int]));
        assert(b@.subrange(0, i + 1) == b@.subrange(0, i as int).push(b@[i as int]));
        i = i + 1;
    }
    assert(a@ == a@.subrange(0, a@.len() as int));
    assert(b@ == b@.subrange(0, b@.len() as int));
    true
}

/// An account or contract on the host ledger, held as its serialized bytes.
/// Two addresses are the same party exactly when their bytes agree.
#[derive(Debug)]
pub struct Address {
    pub bytes: Vec<u8>,
}

impl View for Address {
    type V = Seq<u8>;

    open spec fn view(&self) -> Seq<u8> {
        self.bytes@
    }
}

impl Address {
    pub fn new(bytes: Vec<u8>) -> (r: Address)
        ensures
            r@ == bytes@,
    {
        Address { bytes }
    }

    /// True when both values name the same party.
    pub fn same_as(&self, other: &Address) -> (r: bool)
        ensures
            r == (self@ == other@),
    {
        same_bytes(self.bytes.as_slice(), other.bytes.as_slice())
    }
}

impl Clone for Address {
    fn clone(&self) -> (r: Self)
        ensures
            r@ == self@,
    {
        let bytes = self.bytes.clone();
        assert(bytes@ =~= self.bytes@);
        Address { bytes }
    }
}

impl PartialEq for Address {
    fn eq(&self, other: &Address) -> (r: bool) {
        self.same_as(other)
    }
}

impl vstd::std_specs::cmp::PartialEqSpecImpl for Address {
    open spec fn obeys_eq_spec() -> bool {
        true
    }

    open spec fn eq_spec(&self, other: &Address) -> bool {
        self@ == other@
    }
}

} // verus!
