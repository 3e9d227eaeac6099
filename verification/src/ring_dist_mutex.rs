//! The token ring that the robots pass a token around for mutual exclusion:
//! who the token goes to next, and when to acknowledge it.
use vstd::prelude::*;
use crate::constant::ADDRESS_RING;
use crate::logic::{digit_value, prefixed_id};
use crate::text::decimal;
use vstd::string::StringExecFns;

verus! {

/// The address of ring member `id`.
pub fn id_to_addr_ring(id: usize) -> (addr: String)
    ensures
        addr@ == ADDRESS_RING@ + decimal(id as nat),
{
    prefixed_id(ADDRESS_RING, id)
}

/// The member after `id` in a ring of `ring_size` members.
pub fn next_id(id: usize, ring_size: usize) -> (next: usize)
    requires
        ring_size > 0,
        id < usize::MAX,
    ensures
        next == (id + 1) % (ring_size as int),
        next < ring_size,
{
    (id + 1) % ring_size
}

/// What a member does when it has to pass the token on after `from_id`.
#[derive(Debug, Clone, Copy, PartialEq, Eq, Structural)]
pub enum TokenStep {
    /// The token came back round to the member itself: it is alone.
    Alone,
    /// Send the token to this member.
    SendTo(usize),
}

/// The next step in passing the token of member `self_id`, when it is to go
/// to the member after `from_id` (first the member itself; on a timeout, the
/// one that did not answer).
pub fn token_step(self_id: usize, from_id: usize, ring_size: usize) -> (step: TokenStep)
    requires
        ring_size > 0,
        from_id < usize::MAX,
    ensures
        step == if (from_id + 1) % (ring_size as int) == self_id {
            TokenStep::Alone
        } else {
            TokenStep::SendTo(((from_id + 1) % (ring_size as int)) as usize)
        },
{
    let next = next_id(from_id, ring_size);
    if next == self_id {
        TokenStep::Alone
    } else {
        TokenStep::SendTo(next)
    }
}

/// Going round the ring: when member `self_id` has tried the `k` members after
/// it and each timed out, it next tries member `(self_id + k + 1) % ring_size`,
/// which is another member for every `k` below `ring_size - 1`; at
/// `k == ring_size - 1` the token is back at the member itself and it is alone.
pub proof fn lemma_token_round(self_id: int, ring_size: int, k: int)
    requires
        0 <= self_id < ring_size,
        0 <= k < ring_size,
    ensures
        ((self_id + k) % ring_size + 1) % ring_size == (self_id + k + 1) % ring_size,
        ((self_id + k + 1) % ring_size == self_id) <==> (k + 1 == ring_size),
{
    let n = ring_size;
    let a = self_id + k;
    if a < n {
        assert(a % n == a) by (nonlinear_arith)
            requires
                0 <= a < n,
        ;
        if a + 1 < n {
            assert((a + 1) % n == a + 1) by (nonlinear_arith)
                requires
                    0 <= a + 1 < n,
            ;
        } else {
            assert((a + 1) % n == 0) by (nonlinear_arith)
                requires
                    a + 1 == n,
                    n > 0,
            ;
        }
    } else {
        assert(a % n == a - n) by (nonlinear_arith)
            requires
                n <= a < 2 * n,
        ;
        assert((a + 1) % n == a + 1 - n) by (nonlinear_arith)
            requires
                n < a + 1 < 2 * n,
        ;
        assert((a - n + 1) % n == a + 1 - n) by (nonlinear_arith)
            requires
                0 <= a - n + 1 < n,
        ;
    }
}

/// The value of the last character of a sender's address as a decimal digit,
/// or ten when it is not one.
pub open spec fn last_digit_or_ten(c: char) -> int {
    match digit_value(c) {
        Some(d) => d as int,
        None => 10,
    }
}

/// Whether a token received from `from` is acknowledged: when the address has
/// a last character, and that character, read as a digit (ten when it is not
/// one), is not the member's own id cut to 32 bits.
pub open spec fn acknowledges(from: Seq<char>, self_id: usize) -> bool {
    from.len() > 0 && last_digit_or_ten(from.last()) != (self_id as u32) as int
}

/// A token is acknowledged by the last character of the sender's address:
/// from an address ending in digit `d` exactly when `d` is not the member's
/// own id (cut to 32 bits); from one ending in another character exactly
/// when the id is not ten; from an empty address never.
pub proof fn lemma_ack_by_last_character(prefix: Seq<char>, d: nat, c: char, self_id: usize)
    requires
        d < 10,
        !('0' <= c <= '9'),
    ensures
        acknowledges(prefix.push((48 + d) as char), self_id) <==> d != (self_id as u32) as int,
        acknowledges(prefix.push(c), self_id) <==> (self_id as u32) != 10,
        !acknowledges(Seq::<char>::empty(), self_id),
{
    assert(prefix.push((48 + d) as char).last() == (48 + d) as char);
    assert(prefix.push(c).last() == c);
}

/// A token passed on by ring member `k` (one of the single-digit members)
/// from its ring address is acknowledged exactly when `k` is not the
/// receiving member itself.
pub proof fn lemma_ack_from_ring_member(k: usize, self_id: usize)
    requires
        k < 10,
    ensures
        acknowledges(ADDRESS_RING@ + decimal(k as nat), self_id) <==> k != (self_id as u32),
{
    crate::text::lemma_decimal_last(k as nat);
    let a = ADDRESS_RING@ + decimal(k as nat);
    assert(a.last() == decimal(k as nat).last());
    assert(decimal(k as nat).last() == (48 + k) as char);
}

/// Whether member `self_id` acknowledges a token received from `from`.
pub fn should_ack(from: &String, self_id: usize) -> (ack: bool)
    ensures
        ack == acknowledges(from@, self_id),
{
    let chars = crate::text::chars_of(from);
    if chars.len() == 0 {
        return false;
    }
    let c = chars[chars.len() - 1];
    let digit: u32 = if '0' <= c && c <= '9' {
        c as u32 - 48
    } else {
        10
    };
    digit != self_id as u32
}

/// The token passed around the ring.
pub const TOKEN_MESSAGE: &'static str = "TOKEN";
/// The answer to a token.
pub const ACK_MESSAGE: &'static str = "ACK";

/// What a member does with a message it receives from the ring.
#[derive(Debug, Clone, Copy, PartialEq, Eq, Structural)]
pub enum RingAction {
    /// The token arrived: answer the sender when `ack` holds, hold the token
    /// while the lock is needed, then pass it on.
    TakeToken { ack: bool },
    /// The member the token was passed to answered.
    AckReceived,
    /// Anything else: nothing.
    Ignore,
}

/// The action of member `self_id` on `message`, received from `from`.
pub fn on_ring_message(message: &str, from: &String, self_id: usize) -> (action: RingAction)
    ensures
        action == if message@ == TOKEN_MESSAGE@ {
            RingAction::TakeToken { ack: acknowledges(from@, self_id) }
        } else if message@ == ACK_MESSAGE@ {
            RingAction::AckReceived
        } else {
            RingAction::Ignore
        },
{
    let received = String::from_str(message);
    let token = String::from_str(TOKEN_MESSAGE);
    let ack = String::from_str(ACK_MESSAGE);
    if received == token {
        RingAction::TakeToken { ack: should_ack(from, self_id) }
    } else if received == ack {
        RingAction::AckReceived
    } else {
        RingAction::Ignore
    }
}

} // verus!
