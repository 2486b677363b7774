use vstd::prelude::*;
use vstd::arithmetic::power2::pow2;
use ethnum::U256;
use crate::simple_block::{header_id, BlockView, SimpleBlock};

verus! {

/// The unsigned number that bytes spell, most significant first.
pub open spec fn be_value(s: Seq<u8>) -> nat
    decreases s.len(),
{
    if s.len() == 0 {
        0
    } else {
        be_value(s.drop_last()) * 256 + s.last() as nat
    }
}

/// An identifier meets a difficulty when, read as a big-endian unsigned
/// number, it is below `2^difficulty`.
pub open spec fn meets_target(id: Seq<u8>, difficulty: u8) -> bool {
    be_value(id) < pow2(difficulty as nat)
}

/// Relies on ethnum::U256::from_be_bytes, `<<` on U256 by a `u8` and `<` on
/// U256: whether the 32 bytes, read as a big-endian 256-bit number, are
/// below `1 << difficulty`.
#[verifier::external_body]
fn below_target(id: &[u8], difficulty: u8) -> (r: bool)
    requires
        id@.len() == 32,
    ensures
        r == meets_target(id@, difficulty),
{
    let bytes: [u8; 32] = id.try_into().unwrap();
    U256::from_be_bytes(bytes) < (U256::ONE << difficulty)
}

/// Searches nonces upward from the block's own until its identifier meets
/// `difficulty`, trying at most `max_attempts` nonces after the first.
/// Returns whether the block was sealed; the block keeps the last nonce
/// tried. Every nonce passed over fails the target.
pub fn mine_block(block: &mut SimpleBlock, difficulty: u8, max_attempts: u64) -> (sealed: bool)
    requires
        old(block)@.id == header_id(old(block)@),
        old(block)@.id.len() == 32,
    ensures
        final(block)@ == old(block)@.with_nonce(final(block)@.nonce),
        final(block)@.id.len() == 32,
        old(block)@.nonce <= final(block)@.nonce <= old(block)@.nonce + max_attempts,
        sealed == meets_target(final(block)@.id, difficulty),
        forall|n: u64|
            old(block)@.nonce <= n < final(block)@.nonce ==> !meets_target(
                #[trigger] old(block)@.with_nonce(n).id,
                difficulty,
            ),
        !sealed ==> final(block)@.nonce == old(block)@.nonce + max_attempts || final(block)@.nonce
            == u64::MAX,
{
    let ghost start: BlockView = block@;
    let mut tries: u64 = 0;
    proof {
        assert(start.with_nonce(start.nonce) == start);
    }
    loop
        invariant
            start == old(block)@,
            block@ == start.with_nonce(block@.nonce),
            block@.id.len() == 32,
            start.nonce <= block@.nonce,
            block@.nonce - start.nonce == tries,
            tries <= max_attempts,
            forall|n: u64|
                start.nonce <= n < block@.nonce ==> !meets_target(
                    #[trigger] start.with_nonce(n).id,
                    difficulty,
                ),
        decreases max_attempts - tries,
    {
        if below_target(block.get_hash().as_slice(), difficulty) {
            return true;
        }
        if tries == max_attempts || *block.get_nonce() == u64::MAX {
            return false;
        }
        block.increment_nonce();
        tries = tries + 1;
    }
}

} // verus!
