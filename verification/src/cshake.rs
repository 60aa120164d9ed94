//! cSHAKE128, as the `sha3` crate computes it.
//!
//! Nothing in this file is proved. The functions here call into `sha3` and
//! `digest`, and their contracts say what those calls do in terms of four
//! names: three for what a context was made with and has absorbed, and one
//! for the output of cSHAKE128 as a function of all that went in.

use digest::{ExtendableOutput, Update};
use sha3::{CShake128, CShake128Core};
use vstd::prelude::*;

verus! {

/// A cSHAKE128 context that still absorbs: `sha3::CShake128`, which is
/// `digest::core_api::CoreWrapper<sha3::CShake128Core>`. The verifier sees
/// nothing inside it.
#[verifier::external_body]
pub struct Context {
    inner: CShake128,
}

/// The function name that the context was made with.
pub uninterp spec fn function_name_of(ctx: Context) -> Seq<u8>;

/// The customization string that the context was made with.
pub uninterp spec fn customization_of(ctx: Context) -> Seq<u8>;

/// The bytes that the context has absorbed since it was made, in order.
pub uninterp spec fn absorbed_by(ctx: Context) -> Seq<u8>;

/// The first `output_len` bytes that cSHAKE128 gives for `input` under the
/// function name and customization string.
pub uninterp spec fn cshake128(
    function_name: Seq<u8>,
    customization: Seq<u8>,
    input: Seq<u8>,
    output_len: nat,
) -> Seq<u8>;

/// Calls `sha3::CShake128Core::new_with_function_name` and wraps the core with
/// `CoreWrapper::from_core`. Claims that the new context belongs to the two
/// strings and has absorbed nothing. The outside function multiplies each
/// string's length by eight in `usize`; the lengths for which that overflows
/// are left out.
#[verifier::external_body]
pub(crate) fn start(function_name: &[u8], customization: &[u8]) -> (ctx: Context)
    requires
        function_name@.len() * 8 <= usize::MAX,
        customization@.len() * 8 <= usize::MAX,
    ensures
        function_name_of(ctx) == function_name@,
        customization_of(ctx) == customization@,
        absorbed_by(ctx) == Seq::<u8>::empty(),
{
    Context {
        inner: CShake128::from_core(
            CShake128Core::new_with_function_name(function_name, customization),
        ),
    }
}

/// Calls `digest::Update::update` on the context. Claims that `data` is added
/// behind what the context had absorbed, and that the strings it was made
/// with stay.
#[verifier::external_body]
pub(crate) fn absorb(ctx: &mut Context, data: &[u8])
    ensures
        function_name_of(*final(ctx)) == function_name_of(*old(ctx)),
        customization_of(*final(ctx)) == customization_of(*old(ctx)),
        absorbed_by(*final(ctx)) == absorbed_by(*old(ctx)) + data@,
{
    ctx.inner.update(data)
}

/// Calls `digest::ExtendableOutput::finalize_xof_into`, which ends the context
/// and reads from it once. Claims that `out` keeps its length and is filled
/// with the cSHAKE128 output of that length for what the context was made
/// with and has absorbed.
#[verifier::external_body]
pub(crate) fn squeeze(ctx: Context, out: &mut [u8])
    ensures
        final(out)@.len() == old(out)@.len(),
        final(out)@ == cshake128(
            function_name_of(ctx),
            customization_of(ctx),
            absorbed_by(ctx),
            old(out)@.len(),
        ),
{
    ctx.inner.finalize_xof_into(out)
}

} // verus!
