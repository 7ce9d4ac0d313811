//! A cheap identity for a file: eight bytes sampled across it, packed into
//! one number, beside the file's length.
//!
//! Files with different fingerprints differ. Files with the same fingerprint
//! may or may not be equal: the fingerprint only sorts them into candidates.

use vstd::prelude::*;

verus! {

/// Files of at most this many bytes are read whole.
pub const PAGE_SIZE: usize = 4096;

/// The most bytes a fingerprint is packed from.
pub const SAMPLE_WIDTH: usize = 8;

/// The number of places at which a long file is sampled.
pub const SAMPLE_STEPS: usize = 4;

/// How the bytes for a fingerprint are to be fetched from a file.
#[derive(Clone, Copy, Debug, PartialEq, Eq, Structural)]
pub enum SamplingPlan {
    /// The file is empty: nothing is read.
    Nothing,
    /// The file is read whole, once.
    Whole,
    /// From the start of the file, `reads` times over: read exactly `chunk`
    /// bytes, then seek `skip` bytes forward from where that read ended.
    Scattered { reads: usize, chunk: usize, skip: usize },
}

/// The plan for a file of `len` bytes.
pub open spec fn plan_for(len: usize) -> SamplingPlan {
    if len == 0 {
        SamplingPlan::Nothing
    } else if len <= PAGE_SIZE {
        SamplingPlan::Whole
    } else {
        SamplingPlan::Scattered {
            reads: SAMPLE_STEPS,
            chunk: (SAMPLE_WIDTH / SAMPLE_STEPS) as usize,
            skip: (len / SAMPLE_STEPS) as usize,
        }
    }
}

/// The number of bytes that carrying out the plan for `len` yields.
pub open spec fn bytes_fetched(len: usize) -> nat {
    match plan_for(len) {
        SamplingPlan::Nothing => 0,
        SamplingPlan::Whole => len as nat,
        SamplingPlan::Scattered { reads, chunk, skip } => (reads * chunk) as nat,
    }
}

/// The distance between two sampled bytes of a file that is read whole.
pub open spec fn stride(len: usize) -> int {
    if len / SAMPLE_WIDTH >= 1 {
        (len / SAMPLE_WIDTH) as int
    } else {
        1
    }
}

/// The bytes that enter the fingerprint, in order, picked from what the plan
/// for `len` fetched.
pub open spec fn samples(len: usize, fetched: Seq<u8>) -> Seq<u8> {
    match plan_for(len) {
        SamplingPlan::Nothing => Seq::empty(),
        SamplingPlan::Whole => Seq::new(
            if len < SAMPLE_WIDTH { len as nat } else { SAMPLE_WIDTH as nat },
            |i: int| fetched[i * stride(len)],
        ),
        SamplingPlan::Scattered { reads, chunk, skip } => fetched.take(SAMPLE_WIDTH as int),
    }
}

/// The little-endian number whose byte `i` is `bytes[i]`.
pub open spec fn pack(bytes: Seq<u8>) -> nat
    decreases bytes.len(),
{
    if bytes.len() == 0 {
        0
    } else {
        bytes[0] as nat + 256 * pack(bytes.skip(1))
    }
}

/// The fingerprint of a file of `len` bytes from which the plan fetched
/// `fetched`.
pub open spec fn fingerprint(len: usize, fetched: Seq<u8>) -> (u64, usize) {
    (pack(samples(len, fetched)) as u64, len)
}

/// The place in the file of byte `i` of what scattered reads fetch: the
/// reads of `chunk` bytes follow each other at a distance of `skip` bytes.
pub open spec fn place_fetched(i: int, chunk: int, skip: int) -> int {
    i + (i / chunk) * skip
}

/// What carrying out the plan fetches from a file that holds `contents` and
/// does not change meanwhile.
pub open spec fn fetched_from(contents: Seq<u8>) -> Seq<u8> {
    match plan_for(contents.len() as usize) {
        SamplingPlan::Nothing => Seq::empty(),
        SamplingPlan::Whole => contents,
        SamplingPlan::Scattered { reads, chunk, skip } => Seq::new(
            (reads * chunk) as nat,
            |i: int| contents[place_fetched(i, chunk as int, skip as int)],
        ),
    }
}

/// The fingerprint of an unchanging file that holds `contents`.
pub open spec fn fingerprint_of(contents: Seq<u8>) -> (u64, usize) {
    fingerprint(contents.len() as usize, fetched_from(contents))
}

/// `256` to the power `n`.
pub open spec fn radix_power(n: nat) -> nat
    decreases n,
{
    if n == 0 {
        1
    } else {
        256 * radix_power((n - 1) as nat)
    }
}

/// A number packed from `n` bytes is below `256` to the `n`.
pub proof fn lemma_pack_bound(bytes: Seq<u8>)
    ensures
        pack(bytes) < radix_power(bytes.len()),
    decreases bytes.len(),
{
    if bytes.len() > 0 {
        lemma_pack_bound(bytes.skip(1));
    }
}

/// Up to eight bytes pack into a `u64`.
pub proof fn lemma_pack_fits(bytes: Seq<u8>)
    requires
        bytes.len() <= SAMPLE_WIDTH,
    ensures
        pack(bytes) <= u64::MAX,
{
    lemma_pack_bound(bytes);
    reveal_with_fuel(radix_power, 9);
}

/// Every read of a scattered plan lies inside the file it was made for.
pub proof fn lemma_scattered_reads_fit(len: usize)
    requires
        len > PAGE_SIZE,
    ensures
        plan_for(len) matches SamplingPlan::Scattered { reads, chunk, skip } && reads * chunk + (
        reads - 1) * skip <= len,
{
    let skip = len / SAMPLE_STEPS;
    assert(4 * 2 + 3 * skip <= len);
    assert((SAMPLE_STEPS - 1) * skip == 3 * skip);
}

/// From an unchanging file the plan fetches as many bytes as a fingerprint
/// takes, each of them from inside the file.
pub proof fn lemma_fetched_suffices(contents: Seq<u8>)
    requires
        contents.len() <= usize::MAX,
    ensures
        fetched_from(contents).len() == bytes_fetched(contents.len() as usize),
        plan_for(contents.len() as usize) matches SamplingPlan::Scattered { reads, chunk, skip }
            ==> forall|i: int|
            0 <= i < reads * chunk ==> 0 <= #[trigger] place_fetched(i, chunk as int, skip as int)
                < contents.len(),
{
    let len = contents.len() as usize;
    if len > PAGE_SIZE {
        lemma_scattered_reads_fit(len);
        let skip = len / SAMPLE_STEPS;
        let plan = SamplingPlan::Scattered { reads: 4, chunk: 2, skip: skip as usize };
        assert(plan_for(len) == plan);
        assert(SAMPLE_STEPS * (SAMPLE_WIDTH / SAMPLE_STEPS) == 8);
        assert forall|i: int| 0 <= i < 8 implies 0 <= #[trigger] place_fetched(i, 2, skip as int)
            < contents.len() by {
            assert(0 <= i / 2 <= 3);
            assert((i / 2) * skip <= 3 * skip) by (nonlinear_arith)
                requires
                    0 <= i / 2 <= 3,
                    0 <= skip,
            ;
            assert(0 <= (i / 2) * skip) by (nonlinear_arith)
                requires
                    0 <= i / 2,
                    0 <= skip,
            ;
        }
    }
}

/// All empty files have the fingerprint `(0, 0)`, whatever was fetched.
pub proof fn lemma_empty_fingerprint(fetched: Seq<u8>)
    ensures
        fingerprint(0, fetched) == (0u64, 0usize),
        fingerprint_of(Seq::<u8>::empty()) == (0u64, 0usize),
{
}

/// The length that a fingerprint goes by: the length that was measured, cut
/// to what a `usize` holds, or zero where the file could not be measured.
pub open spec fn length_from(measured: Option<u64>) -> usize {
    match measured {
        Some(len) => len as usize,
        None => 0,
    }
}

/// Decides which length the fingerprint of a file goes by, from what
/// measuring the file gave.
pub fn measured_length(measured: Option<u64>) -> (len: usize)
    ensures
        len == length_from(measured),
{
    match measured {
        Some(len) => #[verifier::truncate]
        (len as usize),
        None => 0,
    }
}

/// Decides how a file of `len` bytes is sampled.
pub fn sampling_plan(len: usize) -> (plan: SamplingPlan)
    ensures
        plan == plan_for(len),
{
    if len == 0 {
        SamplingPlan::Nothing
    } else if len <= PAGE_SIZE {
        SamplingPlan::Whole
    } else {
        SamplingPlan::Scattered {
            reads: SAMPLE_STEPS,
            chunk: SAMPLE_WIDTH / SAMPLE_STEPS,
            skip: len / SAMPLE_STEPS,
        }
    }
}

/// To shift a number of seven bytes up by one byte and put a byte below it
/// is to multiply it by `256` and add the byte.
proof fn lemma_shift_in(key: u64, byte: u8)
    by (bit_vector)
    requires
        key < 0x0100_0000_0000_0000u64,
    ensures
        (key << 8) | (byte as u64) == key * 256 + byte as u64,
{
}

/// Packs up to eight bytes, the first one lowest.
fn pack_bytes(bytes: &Vec<u8>) -> (key: u64)
    requires
        bytes.len() <= SAMPLE_WIDTH,
    ensures
        key == pack(bytes@),
{
    let mut key: u64 = 0;
    let mut i: usize = bytes.len();
    while i > 0
        invariant
            i <= bytes.len() <= SAMPLE_WIDTH,
            key == pack(bytes@.skip(i as int)),
        decreases i,
    {
        i -= 1;
        proof {
            let tail = bytes@.skip(i as int);
            assert(tail.skip(1) =~= bytes@.skip(i + 1));
            lemma_pack_bound(tail.skip(1));
            lemma_pack_fits(tail);
            reveal_with_fuel(radix_power, 9);
            assert(tail.skip(1).len() <= 7);
            assert(radix_power(tail.skip(1).len()) <= radix_power(7)) by {
                lemma_radix_power_grows(tail.skip(1).len(), 7);
            }
            lemma_shift_in(key, bytes[i as int]);
        }
        key = (key << 8) | (bytes[i] as u64);
    }
    proof {
        assert(bytes@.skip(0) =~= bytes@);
    }
    key
}

/// The powers of `256` grow with the exponent.
proof fn lemma_radix_power_grows(m: nat, n: nat)
    requires
        m <= n,
    ensures
        radix_power(m) <= radix_power(n),
    decreases n,
{
    if m < n {
        lemma_radix_power_grows(m, (n - 1) as nat);
    }
}

/// Computes the fingerprint of a file of `len` bytes from the bytes that its
/// sampling plan fetched.
///
/// An empty file has the fingerprint zero. From a file read whole, the bytes
/// at the multiples of an eighth of its length are packed, eight at most.
/// From a longer file, the eight bytes that the scattered reads returned are
/// packed. Where fewer bytes are handed in than the plan fetches, there is
/// no fingerprint.
pub fn get_fingerprint(len: usize, fetched: &[u8]) -> (found: Option<(u64, usize)>)
    ensures
        found == if fetched.len() >= bytes_fetched(len) {
            Some(fingerprint(len, fetched@))
        } else {
            None
        },
{
    let mut picked: Vec<u8> = Vec::new();
    match sampling_plan(len) {
        SamplingPlan::Nothing => {},
        SamplingPlan::Whole => {
            if fetched.len() < len {
                return None;
            }
            let step: usize = if len / SAMPLE_WIDTH >= 1 {
                len / SAMPLE_WIDTH
            } else {
                1
            };
            let count: usize = if len < SAMPLE_WIDTH {
                len
            } else {
                SAMPLE_WIDTH
            };
            let mut i: usize = 0;
            while i < count
                invariant
                    i <= count <= SAMPLE_WIDTH,
                    count <= len,
                    len <= fetched.len(),
                    step == stride(len),
                    len >= SAMPLE_WIDTH ==> SAMPLE_WIDTH * step <= len,
                    len < SAMPLE_WIDTH ==> step == 1,
                    picked.len() == i,
                    forall|k: int| 0 <= k < i ==> picked[k] == fetched[k * stride(len)],
                decreases count - i,
            {
                assert(i * step < len) by (nonlinear_arith)
                    requires
                        i < count <= SAMPLE_WIDTH,
                        count <= len,
                        len >= SAMPLE_WIDTH ==> SAMPLE_WIDTH * step <= len,
                        len < SAMPLE_WIDTH ==> step == 1,
                        step >= 1,
                ;
                picked.push(fetched[i * step]);
                i += 1;
            }
            assert(picked@ =~= samples(len, fetched@));
        },
        SamplingPlan::Scattered { reads, chunk, skip } => {
            if fetched.len() < SAMPLE_WIDTH {
                return None;
            }
            let mut i: usize = 0;
            while i < SAMPLE_WIDTH
                invariant
                    i <= SAMPLE_WIDTH <= fetched.len(),
                    picked.len() == i,
                    forall|k: int| 0 <= k < i ==> picked[k] == fetched[k],
                decreases SAMPLE_WIDTH - i,
            {
                picked.push(fetched[i]);
                i += 1;
            }
            assert(picked@ =~= samples(len, fetched@));
        },
    }
    proof {
        lemma_pack_fits(picked@);
    }
    Some((pack_bytes(&picked), len))
}

} // verus!
