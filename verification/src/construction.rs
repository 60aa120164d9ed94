//! ParallelHash128 as a function of the whole message.
//!
//! The message is cut into blocks of `block_size` bytes, the last of which may
//! be shorter. Each block is hashed on its own to a digest of 32 bytes. The
//! outer cSHAKE128 call, under the function name `"ParallelHash"`, takes the
//! encoded block size, the digests in the order of the blocks, the encoded
//! number of blocks and the encoded output length in bits.

use crate::cshake::cshake128;
use crate::utils::{
    lemma_be_digits_injective, lemma_be_digits_len_u64, spec_be_digits, spec_left_encode,
    spec_right_encode,
};
use vstd::arithmetic::div_mod::{
    lemma_div_is_ordered, lemma_fundamental_div_mod, lemma_fundamental_div_mod_converse,
};
use vstd::arithmetic::mul::{
    lemma_mul_inequality, lemma_mul_is_commutative, lemma_mul_is_distributive_add_other_way,
};
use vstd::prelude::*;

verus! {

/// The width of a block's digest, in bytes. It does not depend on the length
/// of the output that is asked for in the end.
pub const LEAF_DIGEST_LEN: usize = 32;

/// The bytes of `"ParallelHash"`, the function name of the outer call.
pub open spec fn spec_function_name() -> Seq<u8> {
    seq![0x50u8, 0x61, 0x72, 0x61, 0x6c, 0x6c, 0x65, 0x6c, 0x48, 0x61, 0x73, 0x68]
}

/// The digest of one block: cSHAKE128 without function name or
/// customization, 32 bytes of output.
pub open spec fn spec_leaf_digest(block: Seq<u8>) -> Seq<u8> {
    cshake128(Seq::empty(), Seq::empty(), block, LEAF_DIGEST_LEN as nat)
}

/// The number of blocks of a message of `len` bytes, a shorter last block
/// counted.
pub open spec fn spec_block_count(len: nat, block_size: nat) -> nat
    recommends
        block_size > 0,
{
    ((len + block_size - 1) / (block_size as int)) as nat
}

/// Block number `i` of the message, counted from zero.
pub open spec fn spec_block(message: Seq<u8>, block_size: nat, i: nat) -> Seq<u8>
    recommends
        block_size > 0,
        i * block_size < message.len(),
{
    message.subrange(
        (i * block_size) as int,
        if (i + 1) * block_size <= message.len() {
            ((i + 1) * block_size) as int
        } else {
            message.len() as int
        },
    )
}

/// The digests of the first `count` blocks, one behind the other.
pub open spec fn spec_leaf_digests(message: Seq<u8>, block_size: nat, count: nat) -> Seq<u8>
    recommends
        block_size > 0,
    decreases count,
{
    if count == 0 {
        Seq::empty()
    } else {
        spec_leaf_digests(message, block_size, (count - 1) as nat) + spec_leaf_digest(
            spec_block(message, block_size, (count - 1) as nat),
        )
    }
}

/// What the outer cSHAKE128 call absorbs.
pub open spec fn spec_outer_input(message: Seq<u8>, block_size: nat, output_len: nat) -> Seq<u8>
    recommends
        block_size > 0,
{
    let count = spec_block_count(message.len(), block_size);
    spec_left_encode(block_size) + spec_leaf_digests(message, block_size, count)
        + spec_right_encode(count) + spec_right_encode(output_len * 8)
}

/// ParallelHash128 of `message`, `output_len` bytes long.
pub open spec fn spec_parallel_hash128(
    customization: Seq<u8>,
    block_size: nat,
    message: Seq<u8>,
    output_len: nat,
) -> Seq<u8>
    recommends
        block_size > 0,
{
    cshake128(
        spec_function_name(),
        customization,
        spec_outer_input(message, block_size, output_len),
        output_len,
    )
}

/// One block more is `block_size` bytes more.
pub proof fn lemma_one_more_block(count: nat, block_size: nat)
    ensures
        (count + 1) * block_size == count * block_size + block_size,
{
    lemma_mul_is_distributive_add_other_way(block_size as int, count as int, 1);
}

/// A message of `full` whole blocks and `rest` further bytes, `rest` less
/// than a block, has `full` blocks, and one more if `rest` is not zero.
pub proof fn lemma_block_count(len: nat, block_size: nat, full: nat, rest: nat)
    requires
        block_size > 0,
        rest < block_size,
        len == full * block_size + rest,
    ensures
        len / block_size == full,
        len % block_size == rest,
        spec_block_count(len, block_size) == if rest == 0 {
            full
        } else {
            full + 1
        },
{
    let d = block_size as int;
    lemma_fundamental_div_mod_converse(len as int, d, full as int, rest as int);
    if rest == 0 {
        lemma_fundamental_div_mod_converse(len + d - 1, d, full as int, d - 1);
    } else {
        lemma_one_more_block(full, block_size);
        lemma_fundamental_div_mod_converse(len + d - 1, d, (full + 1) as int, rest - 1);
    }
}

/// A message of exactly `count` blocks of `block_size` bytes has `count`
/// blocks and no shorter last one.
pub proof fn lemma_block_count_of_whole_blocks(count: nat, block_size: nat)
    requires
        block_size > 0,
    ensures
        (count * block_size) / block_size == count,
        (count * block_size) % block_size == 0,
        spec_block_count(count * block_size, block_size) == count,
{
    lemma_block_count(count * block_size, block_size, count, 0);
}

/// A message without bytes has no blocks.
pub proof fn lemma_block_count_of_empty(block_size: nat)
    requires
        block_size > 0,
    ensures
        spec_block_count(0, block_size) == 0,
{
    lemma_block_count(0, block_size, 0, 0);
}

/// A longer message has at least as many blocks.
pub proof fn lemma_block_count_monotonic(shorter: nat, longer: nat, block_size: nat)
    requires
        block_size > 0,
        shorter <= longer,
    ensures
        spec_block_count(shorter, block_size) <= spec_block_count(longer, block_size),
{
    lemma_div_is_ordered(shorter + block_size - 1, longer + block_size - 1, block_size as int);
}

/// A message never has more blocks than bytes.
pub proof fn lemma_block_count_bounded(len: nat, block_size: nat)
    requires
        block_size > 0,
    ensures
        spec_block_count(len, block_size) <= len,
{
    let d = block_size as int;
    let n = len + d - 1;
    let q = n / d;
    lemma_fundamental_div_mod(n, d);
    if q > len {
        assert(d * q >= d * (len + 1)) by {
            lemma_mul_inequality((len + 1) as int, q, d);
            lemma_mul_is_commutative(d, q);
            lemma_mul_is_commutative(d, (len + 1) as int);
        }
        assert(d * (len + 1) == d * len + d) by {
            lemma_mul_is_distributive_add_other_way(d, len as int, 1);
            lemma_mul_is_commutative(d, (len + 1) as int);
            lemma_mul_is_commutative(d, len as int);
        }
        assert(d * len >= len) by {
            lemma_mul_inequality(1, d, len as int);
            lemma_mul_is_commutative(d, len as int);
        }
        assert(false);
    }
}

/// Bytes that come behind the first `count` whole blocks do not change those
/// blocks' digests.
pub proof fn lemma_leaf_digests_of_prefix(
    message: Seq<u8>,
    more: Seq<u8>,
    block_size: nat,
    count: nat,
)
    requires
        block_size > 0,
        count * block_size <= message.len(),
    ensures
        spec_leaf_digests(message + more, block_size, count) == spec_leaf_digests(
            message,
            block_size,
            count,
        ),
    decreases count,
{
    if count > 0 {
        let i = (count - 1) as nat;
        lemma_one_more_block(i, block_size);
        lemma_leaf_digests_of_prefix(message, more, block_size, i);
        assert(spec_block(message + more, block_size, i) == spec_block(message, block_size, i));
    }
}

/// The last block of a message that ends with `tail`, where `tail` begins at
/// a block boundary and is at most a block long, is `tail`.
pub proof fn lemma_last_block(message: Seq<u8>, tail: Seq<u8>, block_size: nat, full: nat)
    requires
        block_size > 0,
        message.len() == full * block_size,
        0 < tail.len() <= block_size,
    ensures
        spec_block(message + tail, block_size, full) == tail,
        spec_leaf_digests(message + tail, block_size, full + 1) == spec_leaf_digests(
            message,
            block_size,
            full,
        ) + spec_leaf_digest(tail),
{
    lemma_one_more_block(full, block_size);
    assert(spec_block(message + tail, block_size, full) == tail);
    lemma_leaf_digests_of_prefix(message, tail, block_size, full);
}

/// The digest of the message without bytes: the outer call absorbs the
/// encoded block size, a block count of zero and the encoded output length,
/// and nothing of any block.
pub proof fn lemma_empty_message(customization: Seq<u8>, block_size: nat, output_len: nat)
    requires
        block_size > 0,
    ensures
        spec_block_count(0, block_size) == 0,
        spec_parallel_hash128(customization, block_size, Seq::empty(), output_len) == cshake128(
            spec_function_name(),
            customization,
            spec_left_encode(block_size) + spec_right_encode(0) + spec_right_encode(
                output_len * 8,
            ),
            output_len,
        ),
{
    lemma_block_count_of_empty(block_size);
}

/// `left_encode` tells 64-bit numbers apart even when other bytes follow:
/// no encoding is the beginning of another number's encoding.
pub proof fn lemma_left_encode_separates(m: u64, n: u64, after_m: Seq<u8>, after_n: Seq<u8>)
    requires
        spec_left_encode(m as nat) + after_m == spec_left_encode(n as nat) + after_n,
    ensures
        m == n,
{
    let em = spec_left_encode(m as nat);
    let en = spec_left_encode(n as nat);
    let dm = if m == 0 {
        seq![0u8]
    } else {
        spec_be_digits(m as nat)
    };
    let dn = if n == 0 {
        seq![0u8]
    } else {
        spec_be_digits(n as nat)
    };
    lemma_be_digits_len_u64(m);
    lemma_be_digits_len_u64(n);
    assert((em + after_m)[0] == dm.len() as u8);
    assert((en + after_n)[0] == dn.len() as u8);
    assert(dm.len() == dn.len());
    assert((em + after_m).subrange(1, 1 + dm.len() as int) == dm);
    assert((en + after_n).subrange(1, 1 + dn.len() as int) == dn);
    assert(dm == dn);
    if m == 0 || n == 0 {
        if m != 0 {
            assert(dm.len() == 1);
            assert(spec_be_digits((m as nat) / 256).len() == 0);
            assert((m as nat) / 256 == 0);
            assert(dm[0] == ((m as nat) % 256) as u8);
            assert(dn[0] == 0u8);
        }
        if n != 0 {
            assert(dn.len() == 1);
            assert(spec_be_digits((n as nat) / 256).len() == 0);
            assert((n as nat) / 256 == 0);
            assert(dn[0] == ((n as nat) % 256) as u8);
            assert(dm[0] == 0u8);
        }
    } else {
        lemma_be_digits_injective(m as nat, n as nat);
    }
}

/// Two block sizes that differ give the outer call inputs that differ,
/// whatever the messages and output lengths are.
pub proof fn lemma_block_size_separates_inputs(
    block_size_1: u64,
    block_size_2: u64,
    message_1: Seq<u8>,
    message_2: Seq<u8>,
    output_len_1: nat,
    output_len_2: nat,
)
    requires
        block_size_1 != block_size_2,
    ensures
        spec_outer_input(message_1, block_size_1 as nat, output_len_1) != spec_outer_input(
            message_2,
            block_size_2 as nat,
            output_len_2,
        ),
{
    let in_1 = spec_outer_input(message_1, block_size_1 as nat, output_len_1);
    let in_2 = spec_outer_input(message_2, block_size_2 as nat, output_len_2);
    if in_1 == in_2 {
        let count_1 = spec_block_count(message_1.len(), block_size_1 as nat);
        let count_2 = spec_block_count(message_2.len(), block_size_2 as nat);
        let after_1 = spec_leaf_digests(message_1, block_size_1 as nat, count_1)
            + spec_right_encode(count_1) + spec_right_encode(output_len_1 * 8);
        let after_2 = spec_leaf_digests(message_2, block_size_2 as nat, count_2)
            + spec_right_encode(count_2) + spec_right_encode(output_len_2 * 8);
        assert(in_1 == spec_left_encode(block_size_1 as nat) + after_1);
        assert(in_2 == spec_left_encode(block_size_2 as nat) + after_2);
        lemma_left_encode_separates(block_size_1, block_size_2, after_1, after_2);
    }
}

} // verus!
