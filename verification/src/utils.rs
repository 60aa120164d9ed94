//! Integer encodings of SP 800-185 and the interface of a streaming hasher.

use vstd::prelude::*;
use vstd::slice::slice_subrange;

verus! {

/// The base-256 digits of `n`, most significant first and without a leading
/// zero. Zero has no digits.
pub open spec fn spec_be_digits(n: nat) -> Seq<u8>
    decreases n,
{
    if n == 0 {
        Seq::empty()
    } else {
        spec_be_digits(n / 256).push((n % 256) as u8)
    }
}

/// The number that `digits` stand for in base 256, most significant first.
pub open spec fn spec_be_value(digits: Seq<u8>) -> nat
    decreases digits.len(),
{
    if digits.len() == 0 {
        0
    } else {
        spec_be_value(digits.drop_last()) * 256 + digits.last() as nat
    }
}

/// `left_encode(n)`: the digits of `n`, at least one of them, behind a byte
/// that holds their count.
pub open spec fn spec_left_encode(n: nat) -> Seq<u8> {
    let digits = if n == 0 {
        seq![0u8]
    } else {
        spec_be_digits(n)
    };
    seq![digits.len() as u8] + digits
}

/// `right_encode(n)`: the digits of `n` followed by a byte that holds their
/// count. Zero has no digits here, so its encoding is the single byte `00`,
/// one byte shorter than the `00 01` that SP 800-185 gives it.
pub open spec fn spec_right_encode(n: nat) -> Seq<u8> {
    let digits = spec_be_digits(n);
    digits.push(digits.len() as u8)
}

/// `256` to the power `k`.
pub open spec fn spec_pow256(k: nat) -> nat
    decreases k,
{
    if k == 0 {
        1
    } else {
        256 * spec_pow256((k - 1) as nat)
    }
}

/// A number below `256^k` has at most `k` digits.
pub proof fn lemma_be_digits_len(n: nat, k: nat)
    requires
        n < spec_pow256(k),
    ensures
        spec_be_digits(n).len() <= k,
    decreases k,
{
    if n != 0 {
        lemma_be_digits_len(n / 256, (k - 1) as nat);
    }
}

/// A 64-bit number has at most eight digits.
pub proof fn lemma_be_digits_len_u64(val: u64)
    ensures
        spec_be_digits(val as nat).len() <= 8,
{
    reveal_with_fuel(spec_pow256, 9);
    lemma_be_digits_len(val as nat, 8);
}

/// Both encodings of a 64-bit number fit in nine bytes: `left_encode` takes
/// two to nine, `right_encode` one to nine.
pub proof fn lemma_encode_len(val: u64)
    ensures
        2 <= spec_left_encode(val as nat).len() <= 9,
        1 <= spec_right_encode(val as nat).len() <= 9,
        spec_left_encode(val as nat).len() == if val == 0 {
            2
        } else {
            spec_right_encode(val as nat).len()
        },
{
    lemma_be_digits_len_u64(val);
}

/// The digits of a number stand for that number, and the first of them is
/// not zero: they are the fewest bytes that can hold it.
pub proof fn lemma_be_digits_value(n: nat)
    ensures
        spec_be_value(spec_be_digits(n)) == n,
        n > 0 ==> spec_be_digits(n).len() > 0 && spec_be_digits(n)[0] != 0,
    decreases n,
{
    if n != 0 {
        let high = spec_be_digits(n / 256);
        let low = (n % 256) as u8;
        lemma_be_digits_value(n / 256);
        assert(high.push(low).drop_last() == high);
        assert(high.push(low).last() == low);
    }
}

/// Two numbers with the same digits are the same number.
pub proof fn lemma_be_digits_injective(m: nat, n: nat)
    requires
        spec_be_digits(m) == spec_be_digits(n),
    ensures
        m == n,
{
    lemma_be_digits_value(m);
    lemma_be_digits_value(n);
}

/// Writes the digits of `val` into `b` so that the last of them stands just
/// before position `end`, and returns the position of the first.
fn write_digits(val: u64, b: &mut [u8; 9], end: usize) -> (start: usize)
    requires
        8 <= end <= 9,
    ensures
        start + spec_be_digits(val as nat).len() == end,
        final(b)@ == old(b)@.take(start as int) + spec_be_digits(val as nat) + old(b)@.skip(
            end as int,
        ),
{
    let mut v: u64 = val;
    let mut i: usize = end;
    proof {
        lemma_be_digits_len_u64(val);
    }
    while v > 0
        invariant
            8 <= end <= 9,
            i <= end,
            spec_be_digits(val as nat).len() <= 8,
            spec_be_digits(val as nat) == spec_be_digits(v as nat) + b@.subrange(
                i as int,
                end as int,
            ),
            b@.take(i as int) == old(b)@.take(i as int),
            b@.skip(end as int) == old(b)@.skip(end as int),
        decreases v,
    {
        i = i - 1;
        b[i] = (v % 256) as u8;
        v = v / 256;
    }
    i
}

/// Encodes `val` as `left_encode` does, in the last bytes of `b`, and returns
/// them. The bytes of `b` before the encoding keep their values.
pub fn left_encode(val: u64, b: &mut [u8; 9]) -> (encoded: &[u8])
    ensures
        encoded@ == spec_left_encode(val as nat),
        2 <= encoded@.len() <= 9,
        final(b)@ == old(b)@.take(9 - encoded@.len()) + encoded@,
{
    let mut start: usize = write_digits(val, b, 9);
    proof {
        lemma_encode_len(val);
    }
    if start == 9 {
        start = 8;
        b[start] = 0;
    }
    let count: usize = 9 - start;
    b[start - 1] = count as u8;
    slice_subrange(b, start - 1, 9)
}

/// Encodes `val` as `right_encode` does, in the last bytes of `b`, and returns
/// them. The bytes of `b` before the encoding keep their values.
pub fn right_encode(val: u64, b: &mut [u8; 9]) -> (encoded: &[u8])
    ensures
        encoded@ == spec_right_encode(val as nat),
        1 <= encoded@.len() <= 9,
        final(b)@ == old(b)@.take(9 - encoded@.len()) + encoded@,
{
    let start: usize = write_digits(val, b, 8);
    proof {
        lemma_encode_len(val);
    }
    let count: usize = 8 - start;
    b[8] = count as u8;
    slice_subrange(b, start, 9)
}

/// A hasher that takes its message piece by piece and gives its output once.
pub trait Hasher {
    /// Holds of every state that the hasher's own functions hand out.
    spec fn wf(&self) -> bool;

    /// The message so far: the bytes of all calls of `update`, in their order.
    spec fn message(&self) -> Seq<u8>;

    /// Whether the counters of this state have room for `len` more bytes.
    spec fn can_absorb(&self, len: nat) -> bool;

    /// Whether an output of `len` bytes can be asked of this state.
    spec fn can_produce(&self, len: nat) -> bool;

    /// The output of `len` bytes that belongs to this state.
    spec fn output(&self, len: nat) -> Seq<u8>;

    /// Absorb additional input. Can be called multiple times.
    fn update(&mut self, input: &[u8])
        requires
            old(self).wf(),
            old(self).can_absorb(input.len() as nat),
        ensures
            final(self).wf(),
            final(self).message() == old(self).message() + input@,
    ;

    /// Pad and squeeze the state to the output.
    fn finalize(self, output: &mut [u8])
        requires
            self.wf(),
            self.can_produce(old(output)@.len()),
        ensures
            final(output)@.len() == old(output)@.len(),
            final(output)@ == self.output(old(output)@.len()),
    ;
}

} // verus!
