//! The streaming ParallelHash128 engine.

use crate::construction::{
    lemma_block_count, lemma_block_count_bounded, lemma_block_count_monotonic,
    lemma_block_count_of_empty, lemma_block_count_of_whole_blocks, lemma_last_block,
    lemma_leaf_digests_of_prefix, lemma_one_more_block, spec_block_count, spec_function_name,
    spec_leaf_digest, spec_leaf_digests, spec_parallel_hash128, LEAF_DIGEST_LEN,
};
use crate::cshake::{
    absorb, absorbed_by, customization_of, function_name_of, squeeze, start, Context,
};
use crate::utils::{left_encode, right_encode, spec_left_encode, Hasher};
use vstd::arithmetic::div_mod::{
    lemma_div_is_ordered, lemma_div_pos_is_pos, lemma_fundamental_div_mod,
    lemma_hoist_over_denominator, lemma_mod_bound,
};
use vstd::arithmetic::mul::lemma_mul_is_commutative;
use vstd::prelude::*;
use vstd::slice::slice_subrange;

verus! {

/// Why an engine could not be made.
#[derive(Clone, Copy, Debug, PartialEq, Eq)]
pub enum ConfigError {
    /// The block size was zero.
    ZeroBlockSize,
}

/// What an engine stands for: the parameters it was made with and the message
/// it has taken in.
pub struct ParallelHashView {
    pub customization: Seq<u8>,
    pub block_size: nat,
    pub message: Seq<u8>,
}

impl ParallelHashView {
    /// The view after `input` has been absorbed.
    pub open spec fn absorb(self, input: Seq<u8>) -> ParallelHashView {
        ParallelHashView { message: self.message + input, ..self }
    }

    /// The view after each piece of `pieces` has been absorbed, in order.
    pub open spec fn absorb_all(self, pieces: Seq<Seq<u8>>) -> ParallelHashView
        decreases pieces.len(),
    {
        if pieces.len() == 0 {
            self
        } else {
            self.absorb_all(pieces.drop_last()).absorb(pieces.last())
        }
    }

    /// The digest of `output_len` bytes that belongs to this view.
    pub open spec fn digest(self, output_len: nat) -> Seq<u8> {
        spec_parallel_hash128(self.customization, self.block_size, self.message, output_len)
    }

    /// The number of whole blocks in the message: the engine's block counter
    /// while it absorbs.
    pub open spec fn whole_blocks(self) -> nat
        recommends
            self.block_size > 0,
    {
        self.message.len() / self.block_size
    }

    /// The number of bytes behind the last whole block: what the engine keeps
    /// in its open block, which is less than a block.
    pub open spec fn open_len(self) -> nat
        recommends
            self.block_size > 0,
    {
        self.message.len() % self.block_size
    }

    /// The number of blocks that the digest is made of: the whole blocks, and
    /// the open block if it holds any byte.
    pub open spec fn block_count(self) -> nat
        recommends
            self.block_size > 0,
    {
        spec_block_count(self.message.len(), self.block_size)
    }
}

/// Stores a partial block whose length is less than `block_size`.
pub struct IncompleteState {
    state: Context,
    absorbed: usize,
}

/// The `ParallelHash` hash function of SP 800-185, at 128 bits of security
/// strength.
///
/// It hashes each block of the message on its own, so that long messages can
/// be hashed in parallel, and hashes the blocks' digests once more.
pub struct ParallelHash {
    state: Context,
    blocks: usize,
    block_size: usize,
    has_partial_block: Option<IncompleteState>,
    message: Ghost<Seq<u8>>,
}

/// Opens the context of a block: cSHAKE128 without function name or
/// customization.
fn open_leaf() -> (state: Context)
    ensures
        function_name_of(state) == Seq::<u8>::empty(),
        customization_of(state) == Seq::<u8>::empty(),
        absorbed_by(state) == Seq::<u8>::empty(),
{
    let nothing: [u8; 0] = [];
    assert(nothing@ == Seq::<u8>::empty());
    start(&nothing, &nothing)
}

/// The digest of one block, 32 bytes whatever the length of the engine's
/// output is to be.
pub fn leaf_digest(block: &[u8]) -> (digest: [u8; 32])
    ensures
        digest@ == spec_leaf_digest(block@),
{
    let mut state = open_leaf();
    absorb(&mut state, block);
    let mut digest = [0u8; LEAF_DIGEST_LEN];
    squeeze(state, &mut digest);
    digest
}

impl View for ParallelHash {
    type V = ParallelHashView;

    closed spec fn view(&self) -> ParallelHashView {
        ParallelHashView {
            customization: customization_of(self.state),
            block_size: self.block_size as nat,
            message: self.message@,
        }
    }
}

impl ParallelHash {
    /// The number of bytes of the message that stand in whole blocks.
    spec fn hashed_len(&self) -> nat {
        (self.blocks * self.block_size) as nat
    }

    /// The number of bytes of the message behind the last whole block.
    spec fn open_len(&self) -> nat {
        match self.has_partial_block {
            None => 0,
            Some(partial) => partial.absorbed as nat,
        }
    }

    /// The outer context has absorbed the encoded block size and the digests
    /// of the whole blocks.
    spec fn outer_wf(&self) -> bool {
        &&& self.block_size > 0
        &&& function_name_of(self.state) == spec_function_name()
        &&& absorbed_by(self.state) == spec_left_encode(self.block_size as nat)
            + spec_leaf_digests(self.message@, self.block_size as nat, self.blocks as nat)
        &&& spec_block_count(self.message@.len(), self.block_size as nat) <= usize::MAX
    }

    /// The bytes of the message behind the last whole block are those that
    /// the open block's context has absorbed.
    spec fn partial_wf(&self) -> bool {
        match self.has_partial_block {
            None => self.message@.len() == self.hashed_len(),
            Some(partial) => {
                &&& 0 < partial.absorbed < self.block_size
                &&& self.message@.len() == self.hashed_len() + partial.absorbed
                &&& function_name_of(partial.state) == Seq::<u8>::empty()
                &&& customization_of(partial.state) == Seq::<u8>::empty()
                &&& absorbed_by(partial.state) == self.message@.skip(self.hashed_len() as int)
            },
        }
    }

    /// Creates an engine without customization.
    pub fn new(block_size: usize) -> (made: Result<ParallelHash, ConfigError>)
        ensures
            made is Err <==> block_size == 0,
            made matches Ok(hasher) ==> hasher.wf() && hasher@ == (ParallelHashView {
                customization: Seq::empty(),
                block_size: block_size as nat,
                message: Seq::empty(),
            }),
            made matches Ok(hasher) ==> forall|len: nat|
                len <= usize::MAX ==> #[trigger] hasher.can_absorb(len),
            made matches Err(e) ==> e == ConfigError::ZeroBlockSize,
    {
        let no_custom_string: [u8; 0] = [];
        assert(no_custom_string@ == Seq::<u8>::empty());
        Self::new_with_custom_string(&no_custom_string, block_size)
    }

    /// Creates an engine whose digests are bound to `custom_string`.
    pub fn new_with_custom_string(custom_string: &[u8], block_size: usize) -> (made: Result<
        ParallelHash,
        ConfigError,
    >)
        requires
            custom_string@.len() * 8 <= usize::MAX,
        ensures
            made is Err <==> block_size == 0,
            made matches Ok(hasher) ==> hasher.wf() && hasher@ == (ParallelHashView {
                customization: custom_string@,
                block_size: block_size as nat,
                message: Seq::empty(),
            }),
            made matches Ok(hasher) ==> forall|len: nat|
                len <= usize::MAX ==> #[trigger] hasher.can_absorb(len),
            made matches Err(e) ==> e == ConfigError::ZeroBlockSize,
    {
        if block_size == 0 {
            return Err(ConfigError::ZeroBlockSize);
        }
        let function_name: [u8; 12] = [
            0x50, 0x61, 0x72, 0x61, 0x6c, 0x6c, 0x65, 0x6c, 0x48, 0x61, 0x73, 0x68,
        ];
        let mut state = start(&function_name, custom_string);
        let mut enc_block_size = [0u8; 9];
        absorb(&mut state, left_encode(block_size as u64, &mut enc_block_size));
        proof {
            lemma_block_count_of_empty(block_size as nat);
            assert forall|len: nat| len <= usize::MAX implies spec_block_count(
                len,
                block_size as nat,
            ) <= usize::MAX by {
                lemma_block_count_bounded(len, block_size as nat);
            }
        }
        Ok(
            ParallelHash {
                state,
                block_size,
                blocks: 0,
                has_partial_block: None,
                message: Ghost(Seq::empty()),
            },
        )
    }

    /// The number of whole blocks that have been hashed.
    pub fn blocks(&self) -> (count: usize)
        requires
            self.wf(),
        ensures
            count == self@.whole_blocks(),
    {
        proof {
            lemma_block_count(
                self.message@.len(),
                self.block_size as nat,
                self.blocks as nat,
                self.open_len(),
            );
        }
        self.blocks
    }

    /// Whether `update` can take `len` more bytes: whether the block counter
    /// has room for the blocks that they complete or begin.
    pub fn has_room(&self, len: usize) -> (ok: bool)
        requires
            self.wf(),
        ensures
            ok == self.can_absorb(len as nat),
    {
        let open: usize = match &self.has_partial_block {
            Some(partial) => partial.absorbed,
            None => 0,
        };
        let tail: u128 = open as u128 + len as u128 + (self.block_size as u128 - 1);
        let more: u128 = tail / (self.block_size as u128);
        proof {
            lemma_hoist_over_denominator(tail as int, self.blocks as int, self.block_size as nat);
        }
        self.blocks as u128 + more <= usize::MAX as u128
    }

    /// Hands the digest of the block that ends `message` to the outer
    /// context and counts the block. `message` is the engine's message, or
    /// that message with bytes added behind the last whole block.
    fn push_block(&mut self, digest: &[u8; 32], Ghost(message): Ghost<Seq<u8>>)
        requires
            old(self).outer_wf(),
            old(self).has_partial_block is None,
            old(self).hashed_len() <= old(self).message@.len(),
            old(self).hashed_len() < message.len() <= old(self).hashed_len() + old(
                self,
            ).block_size,
            message.take(old(self).hashed_len() as int) == old(self).message@.take(
                old(self).hashed_len() as int,
            ),
            digest@ == spec_leaf_digest(message.skip(old(self).hashed_len() as int)),
            spec_block_count(message.len(), old(self).block_size as nat) <= usize::MAX,
        ensures
            final(self).outer_wf(),
            final(self).has_partial_block is None,
            final(self).message@ == message,
            final(self).blocks == old(self).blocks + 1,
            final(self).blocks == spec_block_count(message.len(), old(self).block_size as nat),
            final(self).block_size == old(self).block_size,
            customization_of(final(self).state) == customization_of(old(self).state),
    {
        let ghost enc = spec_left_encode(self.block_size as nat);
        let ghost before = spec_leaf_digests(
            self.message@,
            self.block_size as nat,
            self.blocks as nat,
        );
        proof {
            let bs = self.block_size as nat;
            let full = self.blocks as nat;
            let hashed = self.hashed_len() as int;
            let whole = message.take(hashed);
            let block = message.skip(hashed);
            assert(message == whole + block);
            assert(self.message@ =~= self.message@.take(hashed) + self.message@.skip(hashed));
            lemma_leaf_digests_of_prefix(whole, self.message@.skip(hashed), bs, full);
            lemma_last_block(whole, block, bs, full);
            if block.len() == bs {
                lemma_one_more_block(full, bs);
                lemma_block_count(message.len(), bs, full + 1, 0);
            } else {
                lemma_block_count(message.len(), bs, full, block.len());
            }
        }
        absorb(&mut self.state, digest);
        self.blocks = self.blocks + 1;
        self.message = Ghost(message);
        proof {
            assert((enc + before) + digest@ == enc + (before + digest@));
        }
    }
}

impl Hasher for ParallelHash {
    closed spec fn wf(&self) -> bool {
        self.outer_wf() && self.partial_wf()
    }

    open spec fn message(&self) -> Seq<u8> {
        self@.message
    }

    /// The number of blocks must stay within `usize`.
    open spec fn can_absorb(&self, len: nat) -> bool {
        spec_block_count(self@.message.len() + len, self@.block_size) <= usize::MAX
    }

    /// The length of the output in bits must be a 64-bit number.
    open spec fn can_produce(&self, len: nat) -> bool {
        len * 8 <= u64::MAX
    }

    open spec fn output(&self, len: nat) -> Seq<u8> {
        self@.digest(len)
    }

    /// Takes in the next bytes of the message. The engine then stands for
    /// the longer message, however the message is cut into calls.
    fn update(&mut self, input: &[u8])
        ensures
            final(self)@ == old(self)@.absorb(input@),
    {
        let ghost total = self.message@ + input@;
        let mut pos: usize = 0;
        // if previous input block was incomplete, combine it with upcoming input
        // to create a complete block with length `block_size`
        if let Some(mut partial) = self.has_partial_block.take() {
            let to_absorb = self.block_size - partial.absorbed;
            if input.len() >= to_absorb {
                let ghost head = input@.take(to_absorb as int);
                absorb(&mut partial.state, slice_subrange(input, 0, to_absorb));
                pos = to_absorb;
                let mut digest = [0u8; LEAF_DIGEST_LEN];
                squeeze(partial.state, &mut digest);
                proof {
                    let hashed = self.hashed_len() as int;
                    let longer = self.message@ + head;
                    assert(longer.take(hashed) == self.message@.take(hashed));
                    assert(longer.skip(hashed) == self.message@.skip(hashed) + head);
                    lemma_block_count_monotonic(
                        longer.len(),
                        total.len(),
                        self.block_size as nat,
                    );
                }
                self.push_block(&digest, Ghost(self.message@ + head));
                proof {
                    lemma_one_more_block(old(self).blocks as nat, self.block_size as nat);
                }
            } else {
                absorb(&mut partial.state, input);
                partial.absorbed = partial.absorbed + input.len();
                self.has_partial_block = Some(partial);
                proof {
                    let hashed = self.hashed_len() as int;
                    assert(total.skip(hashed) == self.message@.skip(hashed) + input@);
                    lemma_leaf_digests_of_prefix(
                        self.message@,
                        input@,
                        self.block_size as nat,
                        self.blocks as nat,
                    );
                }
                self.message = Ghost(total);
                return ;
            }
        }
        // break the rest of the input into complete blocks and hand their
        // digests to the outer context
        while input.len() - pos >= self.block_size
            invariant
                pos <= input.len(),
                self.outer_wf(),
                self.has_partial_block is None,
                self.message@ == old(self).message@ + input@.take(pos as int),
                self.message@.len() == self.hashed_len(),
                self.block_size == old(self).block_size,
                customization_of(self.state) == customization_of(old(self).state),
                total == old(self).message@ + input@,
                spec_block_count(total.len(), self.block_size as nat) <= usize::MAX,
            decreases input.len() - pos,
        {
            let chunk = slice_subrange(input, pos, pos + self.block_size);
            let digest = leaf_digest(chunk);
            proof {
                let hashed = self.hashed_len() as int;
                let longer = self.message@ + chunk@;
                assert(longer.take(hashed) == self.message@.take(hashed));
                assert(longer.skip(hashed) == chunk@);
                assert(longer == old(self).message@ + input@.take(pos + self.block_size));
                lemma_block_count_monotonic(longer.len(), total.len(), self.block_size as nat);
            }
            self.push_block(&digest, Ghost(self.message@ + chunk@));
            pos = pos + self.block_size;
            proof {
                lemma_one_more_block((self.blocks - 1) as nat, self.block_size as nat);
            }
        }
        // if there exists a partial input block, store it in `IncompleteState`
        if pos < input.len() {
            assert(self.has_partial_block is None);
            let input_end = slice_subrange(input, pos, input.len());
            let mut state = open_leaf();
            absorb(&mut state, input_end);
            proof {
                let hashed = self.hashed_len() as int;
                assert(total == self.message@ + input_end@);
                assert(total.skip(hashed) == input_end@);
                lemma_leaf_digests_of_prefix(
                    self.message@,
                    input_end@,
                    self.block_size as nat,
                    self.blocks as nat,
                );
            }
            self.has_partial_block = Some(IncompleteState { state, absorbed: input.len() - pos });
            self.message = Ghost(total);
        } else {
            assert(input@.take(pos as int) == input@);
        }
    }

    /// Hashes the open block, if there is one, hands the number of blocks and
    /// the length of the output to the outer context, and fills `output`
    /// with the digest.
    fn finalize(self, output: &mut [u8]) {
        let mut engine = self;
        // if the engine holds a partial block, hash it
        if let Some(partial) = engine.has_partial_block.take() {
            let mut digest = [0u8; LEAF_DIGEST_LEN];
            squeeze(partial.state, &mut digest);
            engine.push_block(&digest, Ghost(engine.message@));
        } else {
            proof {
                lemma_block_count(
                    engine.message@.len(),
                    engine.block_size as nat,
                    engine.blocks as nat,
                    0,
                );
            }
        }
        let mut block_enc = [0u8; 9];
        let mut outlen_enc = [0u8; 9];
        let output_bits: u64 = (output.len() as u64) * 8;
        absorb(&mut engine.state, right_encode(engine.blocks as u64, &mut block_enc));
        absorb(&mut engine.state, right_encode(output_bits, &mut outlen_enc));
        squeeze(engine.state, output);
    }
}

/// ParallelHash128 of a message that is at hand in one piece: makes an
/// engine, hands it the message and fills `output` with the digest.
pub fn parallel_hash128(
    custom_string: &[u8],
    block_size: usize,
    message: &[u8],
    output: &mut [u8],
) -> (done: Result<(), ConfigError>)
    requires
        custom_string@.len() * 8 <= usize::MAX,
        old(output)@.len() * 8 <= u64::MAX,
    ensures
        done is Err <==> block_size == 0,
        done matches Err(e) ==> e == ConfigError::ZeroBlockSize && final(output)@ == old(
            output,
        )@,
        done is Ok ==> final(output)@ == spec_parallel_hash128(
            custom_string@,
            block_size as nat,
            message@,
            old(output)@.len(),
        ),
        final(output)@.len() == old(output)@.len(),
{
    match ParallelHash::new_with_custom_string(custom_string, block_size) {
        Err(e) => Err(e),
        Ok(hasher) => {
            let mut hasher = hasher;
            hasher.update(message);
            hasher.finalize(output);
            Ok(())
        },
    }
}

/// Absorbing a message piece by piece comes to the same as absorbing it in
/// one piece.
pub proof fn lemma_absorb_all(view: ParallelHashView, pieces: Seq<Seq<u8>>)
    ensures
        view.absorb_all(pieces) == view.absorb(pieces.flatten()),
    decreases pieces.len(),
{
    if pieces.len() > 0 {
        let front = pieces.drop_last();
        lemma_absorb_all(view, front);
        assert(pieces == front.push(pieces.last()));
        front.lemma_flatten_push(pieces.last());
        assert(view.message + (front.flatten() + pieces.last()) == (view.message
            + front.flatten()) + pieces.last());
    }
}

/// The digest does not depend on where the message is cut into calls: two
/// ways of cutting the same message into pieces leave the engine with the
/// same view, and so with the same digest of any length.
pub proof fn lemma_call_boundary_independence(
    view: ParallelHashView,
    pieces_1: Seq<Seq<u8>>,
    pieces_2: Seq<Seq<u8>>,
    output_len: nat,
)
    requires
        pieces_1.flatten() == pieces_2.flatten(),
    ensures
        view.absorb_all(pieces_1) == view.absorb_all(pieces_2),
        view.absorb_all(pieces_1).digest(output_len) == view.absorb_all(pieces_2).digest(
            output_len,
        ),
        view.absorb_all(pieces_1).digest(output_len) == spec_parallel_hash128(
            view.customization,
            view.block_size,
            view.message + pieces_1.flatten(),
            output_len,
        ),
{
    lemma_absorb_all(view, pieces_1);
    lemma_absorb_all(view, pieces_2);
}

/// The block counter never goes back: after more input there are at least as
/// many whole blocks as before.
pub proof fn lemma_whole_blocks_monotonic(view: ParallelHashView, input: Seq<u8>)
    requires
        view.block_size > 0,
    ensures
        view.whole_blocks() <= view.absorb(input).whole_blocks(),
{
    lemma_div_is_ordered(
        view.message.len() as int,
        (view.message + input).len() as int,
        view.block_size as int,
    );
}

/// A message of exactly `count` blocks, handed to a fresh engine in one
/// call, is counted as `count` blocks: no byte stays in an open block, and
/// the number of blocks that goes into the digest is `count` too.
pub proof fn lemma_whole_blocks_counted(view: ParallelHashView, input: Seq<u8>, count: nat)
    requires
        view.block_size > 0,
        view.message.len() == 0,
        input.len() == count * view.block_size,
    ensures
        view.absorb(input).whole_blocks() == count,
        view.absorb(input).open_len() == 0,
        view.absorb(input).block_count() == count,
{
    lemma_block_count_of_whole_blocks(count, view.block_size);
}

/// Whatever the message, the open block holds less than a block, and the
/// number of blocks in the digest is the number of whole blocks, and one more
/// if the open block holds any byte.
pub proof fn lemma_block_count_of_view(view: ParallelHashView)
    requires
        view.block_size > 0,
    ensures
        view.open_len() < view.block_size,
        view.message.len() == view.whole_blocks() * view.block_size + view.open_len(),
        view.block_count() == if view.open_len() == 0 {
            view.whole_blocks()
        } else {
            view.whole_blocks() + 1
        },
{
    let len = view.message.len() as int;
    let d = view.block_size as int;
    lemma_fundamental_div_mod(len, d);
    lemma_mod_bound(len, d);
    lemma_div_pos_is_pos(len, d);
    lemma_mul_is_commutative(d, len / d);
    lemma_block_count(view.message.len(), view.block_size, (len / d) as nat, (len % d) as nat);
}

} // verus!
