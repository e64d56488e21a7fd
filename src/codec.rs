use vstd::prelude::*;

verus! {

/// The ASCII text `BACKit:Outcome:` that opens every canonical message.
pub open spec fn message_prefix() -> Seq<u8> {
    seq![66u8, 65, 67, 75, 105, 116, 58, 79, 117, 116, 99, 111, 109, 101, 58]
}

/// The ASCII separator `:`.
pub open spec fn colon() -> u8 {
    58u8
}

/// The eight big-endian bytes of `v`.
pub open spec fn be_u64(v: u64) -> Seq<u8> {
    Seq::new(8, |i: int| (v >> ((56 - 8 * i) as u64)) as u8)
}

/// The sixteen big-endian bytes of `v` in two's complement.
pub open spec fn be_i128(v: i128) -> Seq<u8> {
    Seq::new(16, |i: int| (v >> ((120 - 8 * i) as u32)) as u8)
}

/// The ASCII digit that stands for an outcome code: `1` for UP, `2` otherwise.
pub open spec fn outcome_byte(outcome: u32) -> u8 {
    if outcome == 1 {
        49u8
    } else {
        50u8
    }
}

/// The canonical message an oracle signs for one report:
/// `BACKit:Outcome:` | call id | `:` | outcome digit | `:` | price | `:` | timestamp.
pub open spec fn canonical_message(call_id: u64, outcome: u32, price: i128, timestamp: u64) -> Seq<u8> {
    message_prefix() + be_u64(call_id) + seq![colon(), outcome_byte(outcome), colon()]
        + be_i128(price) + seq![colon()] + be_u64(timestamp)
}

/// Whether Ed25519 accepts `signature` over `message` under the public key `key`.
pub uninterp spec fn ed25519_accepts(key: Seq<u8>, message: Seq<u8>, signature: Seq<u8>) -> bool;

/// The SHA-256 digest of `data`.
pub uninterp spec fn sha256_of(data: Seq<u8>) -> Seq<u8>;

/// Relies on ed25519_dalek's `VerifyingKey::from_bytes` and `verify_strict`,
/// the check the ledger host itself makes: a key that does not decode, or a
/// signature that does not verify, gives `false`. The answer depends on the
/// three byte strings alone.
#[verifier::external_body]
fn ed25519_verify(key: &[u8; 32], message: &[u8], signature: &[u8; 64]) -> (r: bool)
    ensures
        r == ed25519_accepts(key@, message@, signature@),
{
    match ed25519_dalek::VerifyingKey::from_bytes(key) {
        Ok(vk) => vk.verify_strict(message, &ed25519_dalek::Signature::from_bytes(signature)).is_ok(),
        Err(_) => false,
    }
}

/// Relies on soroban_sdk's `Crypto::sha256` on a fresh host environment: the
/// SHA-256 digest of the bytes, which depends on them alone. The bound keeps the
/// call well inside the default budget of that environment.
#[verifier::external_body]
fn sha256_digest(data: &[u8]) -> (r: [u8; 32])
    requires
        data@.len() <= 1024,
    ensures
        r@ == sha256_of(data@),
{
    let env = soroban_sdk::Env::default();
    let bytes = soroban_sdk::Bytes::from_slice(&env, data);
    env.crypto().sha256(&bytes).to_array()
}

fn push_u64_be(out: &mut Vec<u8>, v: u64)
    ensures
        final(out)@ == old(out)@ + be_u64(v),
{
    let ghost start = out@;
    let mut i: u64 = 0;
    while i < 8
        invariant
            i <= 8,
            out@ == start + be_u64(v).subrange(0, i as int),
        decreases 8 - i,
    {
        let shift: u64 = 56 - 8 * i;
        out.push((v >> shift) as u8);
        assert(be_u64(v).subrange(0, i + 1) == be_u64(v).subrange(0, i as int).push(be_u64(v)[i as int]));
        i = i + 1;
    }
    assert(be_u64(v).subrange(0, 8) == be_u64(v));
}

fn push_i128_be(out: &mut Vec<u8>, v: i128)
    ensures
        final(out)@ == old(out)@ + be_i128(v),
{
    let ghost start = out@;
    let mut i: u32 = 0;
    while i < 16
        invariant
            i <= 16,
            out@ == start + be_i128(v).subrange(0, i as int),
        decreases 16 - i,
    {
        let shift: u32 = 120 - 8 * i;
        out.push((v >> shift) as u8);
        assert(be_i128(v).subrange(0, i + 1) == be_i128(v).subrange(0, i as int).push(be_i128(v)[i as int]));
        i = i + 1;
    }
    assert(be_i128(v).subrange(0, 16) == be_i128(v));
}

/// Builds the canonical message for a report. It is the same on every
/// platform: all integers are written big-endian.
pub fn build_message(call_id: u64, outcome: u32, price: i128, timestamp: u64) -> (r: Vec<u8>)
    ensures
        r@ == canonical_message(call_id, outcome, price, timestamp),
        r@.len() == 51,
{
    let prefix: [u8; 15] = [66, 65, 67, 75, 105, 116, 58, 79, 117, 116, 99, 111, 109, 101, 58];
    let mut out: Vec<u8> = Vec::new();
    let mut i: usize = 0;
    while i < 15
        invariant
            i <= 15,
            prefix@ == message_prefix(),
            out@ == message_prefix().subrange(0, i as int),
        decreases 15 - i,
    {
        out.push(prefix[i]);
        assert(message_prefix().subrange(0, i + 1) == message_prefix().subrange(0, i as int).push(message_prefix()[i as int]));
        i = i + 1;
    }
    assert(message_prefix().subrange(0, 15) == message_prefix());
    push_u64_be(&mut out, call_id);
    out.push(58u8);
    if outcome == 1 {
        out.push(49u8);
    } else {
        out.push(50u8);
    }
    out.push(58u8);
    push_i128_be(&mut out, price);
    out.push(58u8);
    push_u64_be(&mut out, timestamp);
    assert(out@ =~= canonical_message(call_id, outcome, price, timestamp));
    out
}

/// The outcome candidate of a report: the SHA-256 digest of its canonical
/// message. Reports share a tally exactly when their candidates agree.
pub fn outcome_candidate(call_id: u64, outcome: u32, price: i128, timestamp: u64) -> (r: [u8; 32])
    ensures
        r@ == sha256_of(canonical_message(call_id, outcome, price, timestamp)),
{
    let message = build_message(call_id, outcome, price, timestamp);
    sha256_digest(message.as_slice())
}

/// Checks an Ed25519 signature by `public_key` over `message`.
pub fn verify_signature(public_key: &[u8; 32], signature: &[u8; 64], message: &Vec<u8>) -> (r: bool)
    ensures
        r == ed25519_accepts(public_key@, message@, signature@),
{
    ed25519_verify(public_key, message.as_slice(), signature)
}

} // verus!
