//! Four-path partitioned block-convolution engine for binaural cross-feed.
//!
//! Each of the four source-to-ear paths holds its impulse response split
//! into `block_size`-sample partitions, a ring of the most recent input
//! blocks (one slot per partition), a cursor into that ring, and an
//! overlap tail carried between blocks. One internal block step convolves
//! every partition with the correspondingly aged input block, sums the
//! contributions, adds the tail carried from the previous step, and keeps
//! the upper half of the result as the next tail — the partitioned
//! overlap-add realization of linear convolution, computed here exactly
//! on Q16.16 samples with `i128` accumulators.
//!
//! The engine reconciles arbitrary host buffer lengths with its fixed
//! internal block size through pending input and output queues; while a
//! call has produced fewer samples than it must deliver (only possible
//! during the initial latency), the shortfall is filled with silence.

use vstd::prelude::*;
use vstd::arithmetic::div_mod::{
    lemma_fundamental_div_mod, lemma_fundamental_div_mod_converse, lemma_mod_bound,
};

use crate::fixed::{
    SAMPLE_ONE, floor_div, ints_of, lemma_ints_of_add, lemma_ints_of_skip, lemma_ints_of_take,
    lemma_mul_bound, sat_i32, sat_to_i32, div_floor_i128,
};

verus! {

/// Identifies one of the four convolution paths of a binaural setup:
/// left/right input to left/right ear.
#[derive(Debug, Clone, Copy, PartialEq, Eq, Structural)]
pub enum ConvolutionPath {
    Lsl,
    Lsr,
    Rsl,
    Rsr,
}

/// Largest accepted impulse-response length, which also bounds the
/// number of partitions.
pub const IR_LEN_MAX: usize = 1073741824;

/// Largest accepted internal block size.
pub const BLOCK_SIZE_MAX: usize = 65536;

/// Bound on one sample-by-tap product: both factors are `i32` values.
pub const PRODUCT_BOUND: i128 = 4611686018427387904;

/// Bound on any accumulated convolution sum:
/// `IR_LEN_MAX * BLOCK_SIZE_MAX * PRODUCT_BOUND` is `2^108`.
pub const ACC_BOUND: i128 = 324518553658426726783156020576256;

/// The state of one convolution path, abstracted to mathematical
/// sequences for contracts.
#[verifier::ext_equal]
pub struct PathView {
    /// Time-domain impulse-response partitions, each `block_size` long.
    pub partitions: Seq<Seq<int>>,
    /// Ring of past input blocks, one slot per partition.
    pub history: Seq<Seq<int>>,
    /// Slot that the next input block will be written to.
    pub cursor: int,
    /// Pending upper-half sums from the previous block, at product scale.
    pub tail: Seq<int>,
    /// Length of the installed impulse response before padding.
    pub ir_len: int,
}

/// Per-path state of a partitioned convolution.
pub struct ConvolutionPathData {
    pub ir_partitions: Vec<Vec<i32>>,
    pub input_history: Vec<Vec<i32>>,
    pub history_index: usize,
    pub overlap_tail: Vec<i128>,
    pub ir_len: usize,
}

/// The views of a sequence of sample blocks.
pub open spec fn blocks_of(s: Seq<Vec<i32>>) -> Seq<Seq<int>> {
    s.map(|i: int, v: Vec<i32>| ints_of(v@))
}

/// The integer values of a tail buffer.
pub open spec fn tail_of(s: Seq<i128>) -> Seq<int> {
    s.map(|i: int, v: i128| v as int)
}

impl ConvolutionPathData {
    /// The path's mathematical state.
    pub open spec fn view(&self) -> PathView {
        PathView {
            partitions: blocks_of(self.ir_partitions@),
            history: blocks_of(self.input_history@),
            cursor: self.history_index as int,
            tail: tail_of(self.overlap_tail@),
            ir_len: self.ir_len as int,
        }
    }
}

/// Well-formedness of a path for a given block size: at least one
/// partition, history of matching length, cursor in range, every block
/// the right length, and the carried tail within the accumulator bound.
pub open spec fn path_wf(p: PathView, bs: int) -> bool {
    &&& 1 <= p.partitions.len() <= IR_LEN_MAX as int
    &&& p.history.len() == p.partitions.len()
    &&& 0 <= p.cursor < p.partitions.len()
    &&& forall|i: int| 0 <= i < p.partitions.len() ==> (#[trigger] p.partitions[i]).len() == bs
    &&& forall|i: int| 0 <= i < p.history.len() ==> (#[trigger] p.history[i]).len() == bs
    &&& p.tail.len() == bs
    &&& forall|k: int| 0 <= k < bs ==> -ACC_BOUND as int <= #[trigger] p.tail[k] <= ACC_BOUND as int
}

/// A sequence whose entries all fit in `i32`.
pub open spec fn bounded32(s: Seq<int>) -> bool {
    forall|i: int| 0 <= i < s.len() ==> -0x8000_0000 <= #[trigger] s[i] < 0x8000_0000
}

/// The value of block `x` at position `n`, counting positions outside the
/// block as silence.
pub open spec fn xval(x: Seq<int>, n: int) -> int {
    if 0 <= n < x.len() {
        x[n]
    } else {
        0
    }
}

/// Partial convolution sum of taps `p` against block `x` at output
/// position `k`, over the first `j` taps.
pub open spec fn conv_sum(p: Seq<int>, x: Seq<int>, k: int, j: int) -> int
    decreases j,
{
    if j <= 0 {
        0
    } else {
        conv_sum(p, x, k, j - 1) + p[j - 1] * xval(x, k - (j - 1))
    }
}

/// Linear convolution of one tap block with one input block, evaluated at
/// position `k` of the length `2 * block_size` result.
pub open spec fn block_conv_at(p: Seq<int>, x: Seq<int>, k: int) -> int {
    conv_sum(p, x, k, p.len() as int)
}

/// The history slot holding the input block that is `age` blocks old,
/// for a ring of `np` slots most recently written at `cursor`.
pub open spec fn hist_slot(cursor: int, age: int, np: int) -> int {
    (cursor + np - age) % np
}

/// Partial sum, over the first `i` partitions, of each partition's
/// convolution with the correspondingly aged input block, at position `k`.
pub open spec fn part_sum(
    parts: Seq<Seq<int>>,
    hist: Seq<Seq<int>>,
    cursor: int,
    k: int,
    i: int,
) -> int
    decreases i,
{
    if i <= 0 {
        0
    } else {
        part_sum(parts, hist, cursor, k, i - 1) + block_conv_at(
            parts[i - 1],
            hist[hist_slot(cursor, i - 1, parts.len() as int)],
            k,
        )
    }
}

/// The full partitioned sum at position `k`.
pub open spec fn full_sum(parts: Seq<Seq<int>>, hist: Seq<Seq<int>>, cursor: int, k: int) -> int {
    part_sum(parts, hist, cursor, k, parts.len() as int)
}

/// The path state after consuming input block `x`: the block overwrites
/// the oldest history slot, the cursor advances, and the tail becomes the
/// upper half of the new partitioned sums.
pub open spec fn path_step(p: PathView, x: Seq<int>, bs: int) -> PathView {
    let hist = p.history.update(p.cursor, x);
    PathView {
        partitions: p.partitions,
        history: hist,
        cursor: (p.cursor + 1) % (p.partitions.len() as int),
        tail: Seq::new(bs as nat, |k: int| full_sum(p.partitions, hist, p.cursor, k + bs)),
        ir_len: p.ir_len,
    }
}

/// The block this path contributes while consuming `x`, at product scale:
/// the lower half of the new partitioned sums plus the carried tail.
pub open spec fn path_block_out(p: PathView, x: Seq<int>, bs: int) -> Seq<int> {
    let hist = p.history.update(p.cursor, x);
    Seq::new(bs as nat, |k: int| full_sum(p.partitions, hist, p.cursor, k) + p.tail[k])
}

/// A convolution sum over bounded blocks grows at most by the product
/// bound per tap.
pub proof fn lemma_conv_sum_bound(p: Seq<int>, x: Seq<int>, k: int, j: int)
    requires
        bounded32(p),
        bounded32(x),
        0 <= j <= p.len(),
    ensures
        -(j * PRODUCT_BOUND as int) <= conv_sum(p, x, k, j) <= j * PRODUCT_BOUND as int,
    decreases j,
{
    if j > 0 {
        lemma_conv_sum_bound(p, x, k, j - 1);
        lemma_mul_bound(p[j - 1], xval(x, k - (j - 1)), 0x8000_0000, 0x8000_0000);
        assert((j - 1) * PRODUCT_BOUND as int + PRODUCT_BOUND as int == j * PRODUCT_BOUND as int)
            by (nonlinear_arith);
    } else {
        assert(j * PRODUCT_BOUND as int == 0) by (nonlinear_arith)
            requires
                j == 0,
        ;
    }
}

/// A partitioned sum over `i` partitions of length `bs` is bounded by
/// `i * bs` products.
pub proof fn lemma_part_sum_bound(
    parts: Seq<Seq<int>>,
    hist: Seq<Seq<int>>,
    cursor: int,
    k: int,
    i: int,
    bs: int,
)
    requires
        0 <= i <= parts.len(),
        0 <= bs,
        parts.len() <= hist.len(),
        forall|n: int| 0 <= n < parts.len() ==> (#[trigger] parts[n]).len() == bs,
        forall|n: int| 0 <= n < hist.len() ==> bounded32(#[trigger] hist[n]),
        forall|n: int| 0 <= n < parts.len() ==> bounded32(#[trigger] parts[n]),
        0 <= cursor < parts.len(),
    ensures
        -(i * bs * PRODUCT_BOUND as int) <= part_sum(parts, hist, cursor, k, i) <= i * bs
            * PRODUCT_BOUND as int,
    decreases i,
{
    if i > 0 {
        lemma_part_sum_bound(parts, hist, cursor, k, i - 1, bs);
        let np = parts.len() as int;
        let slot = hist_slot(cursor, i - 1, np);
        lemma_mod_bound(cursor + np - (i - 1), np);
        lemma_conv_sum_bound(parts[i - 1], hist[slot], k, bs);
        assert((i - 1) * bs * PRODUCT_BOUND as int + bs * PRODUCT_BOUND as int == i * bs
            * PRODUCT_BOUND as int) by (nonlinear_arith);
    } else {
        assert(i * bs * PRODUCT_BOUND as int == 0) by (nonlinear_arith)
            requires
                i == 0,
        ;
    }
}

/// Sample blocks hold `i32` values, so their views are bounded.
pub proof fn lemma_ints_of_bounded(s: Seq<i32>)
    ensures
        bounded32(ints_of(s)),
{
}

/// Exact linear convolution of one tap block against one input block,
/// over the doubled output range used for overlap-add.
#[verifier::spinoff_prover]
#[verifier::rlimit(30)]
fn block_conv_full(p: &Vec<i32>, x: &Vec<i32>) -> (out: Vec<i128>)
    requires
        p@.len() == x@.len(),
        p@.len() <= BLOCK_SIZE_MAX,
    ensures
        out@.len() == 2 * p@.len(),
        forall|k: int|
            0 <= k < out@.len() ==> #[trigger] out@[k] as int == block_conv_at(
                ints_of(p@),
                ints_of(x@),
                k,
            ),
        forall|k: int|
            0 <= k < out@.len() ==> -(p@.len() as int * PRODUCT_BOUND as int)
                <= #[trigger] out@[k] as int <= p@.len() as int * PRODUCT_BOUND as int,
{
    let ghost ps = ints_of(p@);
    let ghost xs = ints_of(x@);
    let n = p.len();
    let mut out: Vec<i128> = Vec::new();
    let mut k: usize = 0;
    while k < 2 * n
        invariant
            n == p@.len() == x@.len(),
            n <= BLOCK_SIZE_MAX,
            ps == ints_of(p@),
            xs == ints_of(x@),
            k <= 2 * n,
            out@.len() == k,
            forall|m: int|
                0 <= m < k ==> #[trigger] out@[m] as int == block_conv_at(ps, xs, m),
            forall|m: int|
                0 <= m < k ==> -(n as int * PRODUCT_BOUND as int) <= #[trigger] out@[m] as int
                    <= n as int * PRODUCT_BOUND as int,
        decreases 2 * n - k,
    {
        let mut acc: i128 = 0;
        let mut j: usize = 0;
        while j < n
            invariant
                n == p@.len() == x@.len(),
                n <= BLOCK_SIZE_MAX,
                ps == ints_of(p@),
                xs == ints_of(x@),
                j <= n,
                acc as int == conv_sum(ps, xs, k as int, j as int),
                -(j as int * PRODUCT_BOUND as int) <= acc as int <= j as int * PRODUCT_BOUND as int,
            decreases n - j,
        {
            proof {
                lemma_ints_of_bounded(p@);
                lemma_ints_of_bounded(x@);
                lemma_conv_sum_bound(ps, xs, k as int, j + 1);
            }
            if j <= k && k - j < n {
                let prod: i128 = (p[j] as i128) * (x[k - j] as i128);
                proof {
                    lemma_mul_bound(p@[j as int] as int, x@[(k - j) as int] as int, 0x8000_0000, 0x8000_0000);
                    lemma_conv_sum_bound(ps, xs, k as int, j as int);
                }
                acc = acc + prod;
            }
            j = j + 1;
        }
        out.push(acc);
        k = k + 1;
    }
    out
}

/// An exact copy of a sample block.
fn copy_block(src: &Vec<i32>) -> (out: Vec<i32>)
    ensures
        out@ == src@,
{
    let mut out: Vec<i32> = Vec::new();
    let mut i: usize = 0;
    while i < src.len()
        invariant
            i <= src@.len(),
            out@ == src@.take(i as int),
        decreases src@.len() - i,
    {
        out.push(src[i]);
        proof {
            assert(out@ =~= src@.take(i + 1));
        }
        i = i + 1;
    }
    proof {
        assert(src@.take(src@.len() as int) =~= src@);
    }
    out
}

/// A silent sample block.
fn zeros_i32(n: usize) -> (out: Vec<i32>)
    ensures
        out@.len() == n,
        forall|i: int| 0 <= i < n ==> #[trigger] out@[i] == 0,
{
    let mut out: Vec<i32> = Vec::new();
    let mut i: usize = 0;
    while i < n
        invariant
            i <= n,
            out@.len() == i,
            forall|k: int| 0 <= k < i ==> #[trigger] out@[k] == 0,
        decreases n - i,
    {
        out.push(0);
        i = i + 1;
    }
    out
}

/// A zeroed accumulator buffer.
fn zeros_i128(n: usize) -> (out: Vec<i128>)
    ensures
        out@.len() == n,
        forall|i: int| 0 <= i < n ==> #[trigger] out@[i] == 0,
{
    let mut out: Vec<i128> = Vec::new();
    let mut i: usize = 0;
    while i < n
        invariant
            i <= n,
            out@.len() == i,
            forall|k: int| 0 <= k < i ==> #[trigger] out@[k] == 0,
        decreases n - i,
    {
        out.push(0);
        i = i + 1;
    }
    out
}

/// One partitioned-convolution block step for a single path: store the
/// input block in the history ring, sum every partition's convolution
/// with its aged input block, emit the lower half plus the carried tail
/// (at product scale), keep the upper half as the new tail, and advance
/// the ring cursor.
fn convolve_path_partitioned(pd: &mut ConvolutionPathData, input: &Vec<i32>, bs: usize) -> (out:
    Vec<i128>)
    requires
        path_wf(old(pd)@, bs as int),
        input@.len() == bs,
        1 <= bs <= BLOCK_SIZE_MAX,
    ensures
        path_wf(final(pd)@, bs as int),
        final(pd)@ =~= path_step(old(pd)@, ints_of(input@), bs as int),
        out@.len() == bs,
        forall|k: int|
            0 <= k < bs ==> #[trigger] out@[k] as int == path_block_out(
                old(pd)@,
                ints_of(input@),
                bs as int,
            )[k],
        forall|k: int|
            0 <= k < bs ==> -2 * ACC_BOUND as int <= #[trigger] out@[k] as int <= 2 * ACC_BOUND as int,
{
    let ghost oldv = pd@;
    let ghost xs = ints_of(input@);
    let np = pd.ir_partitions.len();
    let blk = copy_block(input);
    let cursor = pd.history_index;
    pd.input_history[cursor] = blk;
    let ghost hist2 = blocks_of(pd.input_history@);
    proof {
        assert(hist2 =~= oldv.history.update(cursor as int, xs));
    }
    let mut full = zeros_i128(2 * bs);
    let mut i: usize = 0;
    while i < np
        invariant
            path_wf(oldv, bs as int),
            np == oldv.partitions.len(),
            1 <= bs <= BLOCK_SIZE_MAX,
            i <= np,
            cursor == oldv.cursor,
            pd.ir_partitions@ == old(pd).ir_partitions@,
            pd.input_history@.len() == np,
            blocks_of(pd.input_history@) == hist2,
            hist2.len() == np,
            forall|n: int| 0 <= n < np ==> (#[trigger] hist2[n]).len() == bs,
            pd.history_index == cursor,
            pd.overlap_tail@ == old(pd).overlap_tail@,
            pd.ir_len == old(pd).ir_len,
            pd@.partitions == oldv.partitions,
            full@.len() == 2 * bs,
            forall|k: int|
                0 <= k < 2 * bs ==> #[trigger] full@[k] as int == part_sum(
                    oldv.partitions,
                    hist2,
                    cursor as int,
                    k,
                    i as int,
                ),
            forall|k: int|
                0 <= k < 2 * bs ==> -(i as int * bs as int * PRODUCT_BOUND as int)
                    <= #[trigger] full@[k] as int <= i as int * bs as int * PRODUCT_BOUND as int,
        decreases np - i,
    {
        let slot = (cursor + np - i) % np;
        proof {
            lemma_mod_bound(cursor as int + np as int - i as int, np as int);
            assert(slot as int == hist_slot(cursor as int, i as int, np as int));
            assert(blocks_of(pd.input_history@)[slot as int] == ints_of(
                pd.input_history@[slot as int]@,
            ));
            assert(blocks_of(pd.ir_partitions@)[i as int] == ints_of(pd.ir_partitions@[i as int]@));
            assert(oldv.partitions[i as int].len() == bs);
        }
        let c = block_conv_full(&pd.ir_partitions[i], &pd.input_history[slot]);
        let mut k: usize = 0;
        while k < 2 * bs
            invariant
                1 <= bs <= BLOCK_SIZE_MAX,
                i < np,
                np == oldv.partitions.len(),
                np <= IR_LEN_MAX,
                k <= 2 * bs,
                full@.len() == 2 * bs,
                c@.len() == 2 * bs,
                forall|m: int|
                    0 <= m < 2 * bs ==> #[trigger] c@[m] as int == block_conv_at(
                        oldv.partitions[i as int],
                        hist2[hist_slot(cursor as int, i as int, np as int)],
                        m,
                    ),
                forall|m: int|
                    0 <= m < 2 * bs ==> -(bs as int * PRODUCT_BOUND as int) <= #[trigger] c@[m] as int
                        <= bs as int * PRODUCT_BOUND as int,
                forall|m: int|
                    k <= m < 2 * bs ==> #[trigger] full@[m] as int == part_sum(
                        oldv.partitions,
                        hist2,
                        cursor as int,
                        m,
                        i as int,
                    ),
                forall|m: int|
                    0 <= m < k ==> #[trigger] full@[m] as int == part_sum(
                        oldv.partitions,
                        hist2,
                        cursor as int,
                        m,
                        i as int + 1,
                    ),
                forall|m: int|
                    k <= m < 2 * bs ==> -(i as int * bs as int * PRODUCT_BOUND as int)
                        <= #[trigger] full@[m] as int <= i as int * bs as int * PRODUCT_BOUND as int,
                forall|m: int|
                    0 <= m < k ==> -((i as int + 1) * bs as int * PRODUCT_BOUND as int)
                        <= #[trigger] full@[m] as int <= (i as int + 1) * bs as int
                        * PRODUCT_BOUND as int,
            decreases 2 * bs - k,
        {
            proof {
                assert((i as int + 1) * bs as int * PRODUCT_BOUND as int <= IR_LEN_MAX as int
                    * BLOCK_SIZE_MAX as int * PRODUCT_BOUND as int) by (nonlinear_arith)
                    requires
                        0 <= i as int + 1 <= IR_LEN_MAX as int,
                        1 <= bs as int <= BLOCK_SIZE_MAX as int,
                ;
                assert(i as int * bs as int * PRODUCT_BOUND as int + bs as int
                    * PRODUCT_BOUND as int == (i as int + 1) * bs as int * PRODUCT_BOUND as int)
                    by (nonlinear_arith);
            }
            full[k] = full[k] + c[k];
            k = k + 1;
        }
        i = i + 1;
    }
    proof {
        assert forall|n: int| 0 <= n < hist2.len() implies bounded32(#[trigger] hist2[n]) by {
            assert(hist2[n] == ints_of(pd.input_history@[n]@));
            lemma_ints_of_bounded(pd.input_history@[n]@);
        }
        assert forall|n: int|
            0 <= n < oldv.partitions.len() implies bounded32(#[trigger] oldv.partitions[n]) by {
            assert(oldv.partitions[n] == ints_of(old(pd).ir_partitions@[n]@));
            lemma_ints_of_bounded(old(pd).ir_partitions@[n]@);
        }
        lemma_part_sum_bound_all(oldv.partitions, hist2, cursor as int, bs as int);
        assert forall|m: int|
            0 <= m < 2 * bs implies -ACC_BOUND as int <= #[trigger] full@[m] as int
            <= ACC_BOUND as int by {
            assert(full@[m] as int == full_sum(oldv.partitions, hist2, cursor as int, m));
        }
    }
    let mut out: Vec<i128> = Vec::new();
    let mut k: usize = 0;
    while k < bs
        invariant
            1 <= bs <= BLOCK_SIZE_MAX,
            k <= bs,
            out@.len() == k,
            full@.len() == 2 * bs,
            pd.overlap_tail@ == old(pd).overlap_tail@,
            oldv.tail == tail_of(pd.overlap_tail@),
            oldv.tail.len() == bs,
            forall|m: int| 0 <= m < bs ==> -ACC_BOUND as int <= #[trigger] oldv.tail[m] <= ACC_BOUND as int,
            forall|m: int|
                0 <= m < 2 * bs ==> #[trigger] full@[m] as int == full_sum(
                    oldv.partitions,
                    hist2,
                    cursor as int,
                    m,
                ),
            forall|m: int|
                0 <= m < 2 * bs ==> -ACC_BOUND as int <= #[trigger] full@[m] as int
                    <= ACC_BOUND as int,
            forall|m: int|
                0 <= m < k ==> #[trigger] out@[m] as int == full_sum(
                    oldv.partitions,
                    hist2,
                    cursor as int,
                    m,
                ) + oldv.tail[m],
            forall|m: int|
                0 <= m < k ==> -2 * ACC_BOUND as int <= #[trigger] out@[m] as int <= 2
                    * ACC_BOUND as int,
        decreases bs - k,
    {
        proof {
            assert(pd.overlap_tail@[k as int] as int == oldv.tail[k as int]);
        }
        out.push(full[k] + pd.overlap_tail[k]);
        k = k + 1;
    }
    let mut ntail: Vec<i128> = Vec::new();
    let mut k2: usize = 0;
    while k2 < bs
        invariant
            1 <= bs <= BLOCK_SIZE_MAX,
            k2 <= bs,
            ntail@.len() == k2,
            full@.len() == 2 * bs,
            forall|m: int|
                0 <= m < 2 * bs ==> #[trigger] full@[m] as int == full_sum(
                    oldv.partitions,
                    hist2,
                    cursor as int,
                    m,
                ),
            forall|m: int|
                0 <= m < 2 * bs ==> -ACC_BOUND as int <= #[trigger] full@[m] as int
                    <= ACC_BOUND as int,
            forall|m: int|
                0 <= m < k2 ==> #[trigger] ntail@[m] as int == full_sum(
                    oldv.partitions,
                    hist2,
                    cursor as int,
                    m + bs,
                ),
            forall|m: int|
                0 <= m < k2 ==> -ACC_BOUND as int <= #[trigger] ntail@[m] as int
                    <= ACC_BOUND as int,
        decreases bs - k2,
    {
        ntail.push(full[bs + k2]);
        k2 = k2 + 1;
    }
    pd.overlap_tail = ntail;
    pd.history_index = (cursor + 1) % np;
    proof {
        lemma_mod_bound(cursor as int + 1, np as int);
        assert(pd@.history =~= path_step(oldv, xs, bs as int).history);
        assert(pd@.tail =~= path_step(oldv, xs, bs as int).tail);
        assert(pd@ =~= path_step(oldv, xs, bs as int));
        assert(forall|m: int|
            0 <= m < bs ==> #[trigger] out@[m] as int == path_block_out(oldv, xs, bs as int)[m]);
    }
    out
}

/// A block of silence.
pub open spec fn zero_seq(bs: int) -> Seq<int> {
    Seq::new(bs as nat, |k: int| 0int)
}

/// The state of a freshly constructed path: a single silent partition,
/// silent history, cursor at the start, no carried tail.
pub open spec fn silent_path_view(bs: int) -> PathView {
    PathView {
        partitions: seq![zero_seq(bs)],
        history: seq![zero_seq(bs)],
        cursor: 0,
        tail: zero_seq(bs),
        ir_len: 0,
    }
}

/// How many partitions an impulse response of `len` samples occupies:
/// one silent partition for an empty response, otherwise the length
/// divided by the block size, rounded up.
pub open spec fn num_partitions_of(len: int, bs: int) -> int {
    if len == 0 {
        1int
    } else {
        (len + bs - 1) / bs
    }
}

/// Partition `i` of an impulse response: `bs` consecutive taps starting
/// at `i * bs`, padded with silence past the end.
pub open spec fn ir_chunk(ir: Seq<int>, bs: int, i: int) -> Seq<int> {
    Seq::new(bs as nat, |j: int| if i * bs + j < ir.len() { ir[i * bs + j] } else { 0 })
}

/// The partitions an impulse response is split into.
pub open spec fn installed_partitions(ir: Seq<int>, bs: int) -> Seq<Seq<int>> {
    Seq::new(num_partitions_of(ir.len() as int, bs) as nat, |i: int| ir_chunk(ir, bs, i))
}

/// The path state right after an impulse response has been installed:
/// fresh partitions, zeroed history and tail, cursor at the start.
pub open spec fn installed_path_view(ir: Seq<int>, bs: int) -> PathView {
    PathView {
        partitions: installed_partitions(ir, bs),
        history: Seq::new(num_partitions_of(ir.len() as int, bs) as nat, |i: int| zero_seq(bs)),
        cursor: 0,
        tail: zero_seq(bs),
        ir_len: ir.len() as int,
    }
}

/// The four path states of an engine.
#[verifier::ext_equal]
pub struct QuadState {
    pub lsl: PathView,
    pub lsr: PathView,
    pub rsl: PathView,
    pub rsr: PathView,
}

/// Manages the four convolution paths for binaural processing, a fixed
/// internal block size, and the pending queues that adapt it to
/// arbitrary host buffer lengths.
pub struct ConvolutionEngine {
    pub path_lsl: ConvolutionPathData,
    pub path_lsr: ConvolutionPathData,
    pub path_rsl: ConvolutionPathData,
    pub path_rsr: ConvolutionPathData,
    pub block_size: usize,
    pub pending_input_left: Vec<i32>,
    pub pending_input_right: Vec<i32>,
    pub pending_output_left: Vec<i32>,
    pub pending_output_right: Vec<i32>,
}

/// The four path states of an engine, abstracted.
pub open spec fn quad_of(e: ConvolutionEngine) -> QuadState {
    QuadState { lsl: e.path_lsl@, lsr: e.path_lsr@, rsl: e.path_rsl@, rsr: e.path_rsr@ }
}

/// Engine well-formedness: a usable block size, four well-formed paths,
/// input queues of equal length holding less than one block, and output
/// queues of equal length.
pub open spec fn engine_wf(e: ConvolutionEngine) -> bool {
    &&& 1 <= e.block_size <= BLOCK_SIZE_MAX
    &&& path_wf(e.path_lsl@, e.block_size as int)
    &&& path_wf(e.path_lsr@, e.block_size as int)
    &&& path_wf(e.path_rsl@, e.block_size as int)
    &&& path_wf(e.path_rsr@, e.block_size as int)
    &&& e.pending_input_left@.len() == e.pending_input_right@.len() < e.block_size
    &&& e.pending_output_left@.len() == e.pending_output_right@.len()
}

/// All four paths after one internal block: the left input block feeds
/// the two left-source paths, the right input block the two right-source
/// paths.
pub open spec fn quad_step(s: QuadState, xl: Seq<int>, xr: Seq<int>, bs: int) -> QuadState {
    QuadState {
        lsl: path_step(s.lsl, xl, bs),
        lsr: path_step(s.lsr, xl, bs),
        rsl: path_step(s.rsl, xr, bs),
        rsr: path_step(s.rsr, xr, bs),
    }
}

/// The left-ear output block of one internal step: the left-source and
/// right-source contributions to the left ear are summed at product
/// scale, rescaled to Q16.16, and saturated.
pub open spec fn step_out_left(s: QuadState, xl: Seq<int>, xr: Seq<int>, bs: int) -> Seq<int> {
    Seq::new(
        bs as nat,
        |k: int|
            sat_i32(
                floor_div(
                    path_block_out(s.lsl, xl, bs)[k] + path_block_out(s.rsl, xr, bs)[k],
                    SAMPLE_ONE as int,
                ),
            ),
    )
}

/// The right-ear output block of one internal step.
pub open spec fn step_out_right(s: QuadState, xl: Seq<int>, xr: Seq<int>, bs: int) -> Seq<int> {
    Seq::new(
        bs as nat,
        |k: int|
            sat_i32(
                floor_div(
                    path_block_out(s.lsr, xl, bs)[k] + path_block_out(s.rsr, xr, bs)[k],
                    SAMPLE_ONE as int,
                ),
            ),
    )
}

/// Block `j` of a sample stream.
pub open spec fn stream_block(s: Seq<int>, bs: int, j: int) -> Seq<int> {
    s.subrange(j * bs, (j + 1) * bs)
}

/// The four path states after the first `j` blocks of the two input
/// streams have been processed.
pub open spec fn run_state(s: QuadState, sl: Seq<int>, sr: Seq<int>, bs: int, j: nat) -> QuadState
    decreases j,
{
    if j == 0 {
        s
    } else {
        quad_step(
            run_state(s, sl, sr, bs, (j - 1) as nat),
            stream_block(sl, bs, j - 1),
            stream_block(sr, bs, j - 1),
            bs,
        )
    }
}

/// The left-ear samples produced while the first `j` blocks are
/// processed.
pub open spec fn run_out_left(s: QuadState, sl: Seq<int>, sr: Seq<int>, bs: int, j: nat) -> Seq<
    int,
>
    decreases j,
{
    if j == 0 {
        Seq::empty()
    } else {
        run_out_left(s, sl, sr, bs, (j - 1) as nat) + step_out_left(
            run_state(s, sl, sr, bs, (j - 1) as nat),
            stream_block(sl, bs, j - 1),
            stream_block(sr, bs, j - 1),
            bs,
        )
    }
}

/// The right-ear samples produced while the first `j` blocks are
/// processed.
pub open spec fn run_out_right(s: QuadState, sl: Seq<int>, sr: Seq<int>, bs: int, j: nat) -> Seq<
    int,
>
    decreases j,
{
    if j == 0 {
        Seq::empty()
    } else {
        run_out_right(s, sl, sr, bs, (j - 1) as nat) + step_out_right(
            run_state(s, sl, sr, bs, (j - 1) as nat),
            stream_block(sl, bs, j - 1),
            stream_block(sr, bs, j - 1),
            bs,
        )
    }
}

/// A freshly constructed silent path for the given block size.
fn silent_path(bs: usize) -> (pd: ConvolutionPathData)
    requires
        1 <= bs <= BLOCK_SIZE_MAX,
    ensures
        path_wf(pd@, bs as int),
        pd@ =~= silent_path_view(bs as int),
{
    let mut parts: Vec<Vec<i32>> = Vec::new();
    parts.push(zeros_i32(bs));
    let mut hist: Vec<Vec<i32>> = Vec::new();
    hist.push(zeros_i32(bs));
    let pd = ConvolutionPathData {
        ir_partitions: parts,
        input_history: hist,
        history_index: 0,
        overlap_tail: zeros_i128(bs),
        ir_len: 0,
    };
    proof {
        assert(pd@.partitions[0] =~= zero_seq(bs as int));
        assert(pd@.history[0] =~= zero_seq(bs as int));
        assert(pd@.tail =~= zero_seq(bs as int));
        assert(pd@.partitions =~= silent_path_view(bs as int).partitions);
        assert(pd@.history =~= silent_path_view(bs as int).history);
    }
    pd
}

/// Every full partitioned sum over a well-formed path state stays within
/// the accumulator bound.
pub proof fn lemma_part_sum_bound_all(
    parts: Seq<Seq<int>>,
    hist: Seq<Seq<int>>,
    cursor: int,
    bs: int,
)
    requires
        1 <= parts.len() <= IR_LEN_MAX as int,
        1 <= bs <= BLOCK_SIZE_MAX as int,
        parts.len() <= hist.len(),
        forall|n: int| 0 <= n < parts.len() ==> (#[trigger] parts[n]).len() == bs,
        forall|n: int| 0 <= n < hist.len() ==> bounded32(#[trigger] hist[n]),
        forall|n: int| 0 <= n < parts.len() ==> bounded32(#[trigger] parts[n]),
        0 <= cursor < parts.len(),
    ensures
        forall|k: int|
            -ACC_BOUND as int <= #[trigger] full_sum(parts, hist, cursor, k) <= ACC_BOUND as int,
{
    assert forall|k: int|
        -ACC_BOUND as int <= #[trigger] full_sum(parts, hist, cursor, k) <= ACC_BOUND as int by {
        lemma_part_sum_bound(parts, hist, cursor, k, parts.len() as int, bs);
        assert(parts.len() as int * bs * PRODUCT_BOUND as int <= IR_LEN_MAX as int
            * BLOCK_SIZE_MAX as int * PRODUCT_BOUND as int) by (nonlinear_arith)
            requires
                0 <= parts.len() as int <= IR_LEN_MAX as int,
                1 <= bs <= BLOCK_SIZE_MAX as int,
        ;
    }
}

impl ConvolutionEngine {
    /// An engine with a chosen internal block size; every path starts
    /// silent and all queues are empty.
    pub fn with_block_size(block_size: usize) -> (e: ConvolutionEngine)
        requires
            1 <= block_size <= BLOCK_SIZE_MAX,
        ensures
            engine_wf(e),
            e.block_size == block_size,
            e.path_lsl@ =~= silent_path_view(block_size as int),
            e.path_lsr@ =~= silent_path_view(block_size as int),
            e.path_rsl@ =~= silent_path_view(block_size as int),
            e.path_rsr@ =~= silent_path_view(block_size as int),
            e.pending_input_left@.len() == 0,
            e.pending_input_right@.len() == 0,
            e.pending_output_left@.len() == 0,
            e.pending_output_right@.len() == 0,
    {
        ConvolutionEngine {
            path_lsl: silent_path(block_size),
            path_lsr: silent_path(block_size),
            path_rsl: silent_path(block_size),
            path_rsr: silent_path(block_size),
            block_size,
            pending_input_left: Vec::new(),
            pending_input_right: Vec::new(),
            pending_output_left: Vec::new(),
            pending_output_right: Vec::new(),
        }
    }

    /// An engine with the default internal block size of 512 samples.
    pub fn new() -> (e: ConvolutionEngine)
        ensures
            engine_wf(e),
            e.block_size == 512,
            e.path_lsl@ =~= silent_path_view(512),
            e.path_lsr@ =~= silent_path_view(512),
            e.path_rsl@ =~= silent_path_view(512),
            e.path_rsr@ =~= silent_path_view(512),
            e.pending_input_left@.len() == 0,
            e.pending_input_right@.len() == 0,
            e.pending_output_left@.len() == 0,
            e.pending_output_right@.len() == 0,
    {
        Self::with_block_size(512)
    }

    /// Install an impulse response for one path: the response is split
    /// into `block_size`-sample partitions (one silent partition for an
    /// empty response, muting the path), the input history and the
    /// overlap tail are cleared, and the ring cursor rewinds. The other
    /// three paths and all queues are untouched. Replacing a response
    /// discards the path's state outright, so switching introduces a
    /// bounded discontinuity rather than corrupted convolution sums; the
    /// call allocates and is not meant for the real-time thread.
    pub fn set_ir(&mut self, path: ConvolutionPath, ir_data: &Vec<i32>)
        requires
            engine_wf(*old(self)),
            ir_data@.len() <= IR_LEN_MAX,
        ensures
            engine_wf(*final(self)),
            *final(self) == (ConvolutionEngine {
                path_lsl: final(self).path_lsl,
                path_lsr: final(self).path_lsr,
                path_rsl: final(self).path_rsl,
                path_rsr: final(self).path_rsr,
                ..*old(self)
            }),
            path == ConvolutionPath::Lsl ==> final(self).path_lsl@ == installed_path_view(
                ints_of(ir_data@),
                old(self).block_size as int,
            ) && final(self).path_lsr == old(self).path_lsr && final(self).path_rsl == old(
                self,
            ).path_rsl && final(self).path_rsr == old(self).path_rsr,
            path == ConvolutionPath::Lsr ==> final(self).path_lsr@ == installed_path_view(
                ints_of(ir_data@),
                old(self).block_size as int,
            ) && final(self).path_lsl == old(self).path_lsl && final(self).path_rsl == old(
                self,
            ).path_rsl && final(self).path_rsr == old(self).path_rsr,
            path == ConvolutionPath::Rsl ==> final(self).path_rsl@ == installed_path_view(
                ints_of(ir_data@),
                old(self).block_size as int,
            ) && final(self).path_lsl == old(self).path_lsl && final(self).path_lsr == old(
                self,
            ).path_lsr && final(self).path_rsr == old(self).path_rsr,
            path == ConvolutionPath::Rsr ==> final(self).path_rsr@ == installed_path_view(
                ints_of(ir_data@),
                old(self).block_size as int,
            ) && final(self).path_lsl == old(self).path_lsl && final(self).path_lsr == old(
                self,
            ).path_lsr && final(self).path_rsl == old(self).path_rsl,
    {
        let ghost ir = ints_of(ir_data@);
        let bs = self.block_size;
        let len = ir_data.len();
        let np: usize = if len == 0 {
            1
        } else {
            (len + bs - 1) / bs
        };
        proof {
            if len > 0 {
                assert(len as int + bs as int - 1 <= len as int * bs as int) by (nonlinear_arith)
                    requires
                        1 <= len as int,
                        1 <= bs as int,
                ;
                vstd::arithmetic::div_mod::lemma_div_is_ordered(
                    len as int + bs as int - 1,
                    len as int * bs as int,
                    bs as int,
                );
                lemma_fundamental_div_mod_converse(len as int * bs as int, bs as int, len as int, 0);
                vstd::arithmetic::div_mod::lemma_div_is_ordered(
                    bs as int,
                    len as int + bs as int - 1,
                    bs as int,
                );
                lemma_fundamental_div_mod_converse(bs as int, bs as int, 1, 0);
            }
            assert(1 <= np <= IR_LEN_MAX);
        }
        let mut parts: Vec<Vec<i32>> = Vec::new();
        let mut i: usize = 0;
        while i < np
            invariant
                i <= np,
                np >= 1,
                bs >= 1,
                np <= IR_LEN_MAX,
                bs <= BLOCK_SIZE_MAX,
                len == ir_data@.len(),
                ir == ints_of(ir_data@),
                parts@.len() == i,
                forall|n: int|
                    0 <= n < i ==> ints_of((#[trigger] parts@[n])@) == ir_chunk(
                        ir,
                        bs as int,
                        n,
                    ) && parts@[n]@.len() == bs,
            decreases np - i,
        {
            let mut chunk: Vec<i32> = Vec::new();
            let mut j: usize = 0;
            while j < bs
                invariant
                    j <= bs,
                    i < np,
                    np <= IR_LEN_MAX,
                    bs <= BLOCK_SIZE_MAX,
                    len == ir_data@.len(),
                    ir == ints_of(ir_data@),
                    chunk@.len() == j,
                    forall|m: int|
                        0 <= m < j ==> #[trigger] chunk@[m] as int == ir_chunk(ir, bs as int, i as int)[m],
                decreases bs - j,
            {
                proof {
                    assert(i as int * bs as int + j < IR_LEN_MAX as int * BLOCK_SIZE_MAX as int
                        + BLOCK_SIZE_MAX as int) by (nonlinear_arith)
                        requires
                            0 <= i as int,
                            (i as int) < IR_LEN_MAX as int,
                            0 <= j,
                            j < bs as int,
                            bs as int <= BLOCK_SIZE_MAX as int,
                    ;
                }
                let pos: u64 = (i as u64) * (bs as u64) + (j as u64);
                let v: i32 = if pos < len as u64 {
                    ir_data[pos as usize]
                } else {
                    0
                };
                chunk.push(v);
                j = j + 1;
            }
            proof {
                assert(ints_of(chunk@) =~= ir_chunk(ir, bs as int, i as int));
            }
            parts.push(chunk);
            i = i + 1;
        }
        let mut hist: Vec<Vec<i32>> = Vec::new();
        let mut h: usize = 0;
        while h < np
            invariant
                h <= np,
                bs <= BLOCK_SIZE_MAX,
                hist@.len() == h,
                forall|n: int|
                    0 <= n < h ==> ints_of((#[trigger] hist@[n])@) == zero_seq(bs as int)
                        && hist@[n]@.len() == bs,
            decreases np - h,
        {
            let z = zeros_i32(bs);
            proof {
                assert(ints_of(z@) =~= zero_seq(bs as int));
            }
            hist.push(z);
            h = h + 1;
        }
        let pd = ConvolutionPathData {
            ir_partitions: parts,
            input_history: hist,
            history_index: 0,
            overlap_tail: zeros_i128(bs),
            ir_len: len,
        };
        proof {
            assert(pd@.partitions =~= installed_partitions(ir, bs as int));
            assert(pd@.history =~= installed_path_view(ir, bs as int).history);
            assert(pd@.tail =~= zero_seq(bs as int));
            assert(pd@ =~= installed_path_view(ir, bs as int));
            assert(path_wf(pd@, bs as int));
        }
        match path {
            ConvolutionPath::Lsl => {
                self.path_lsl = pd;
            },
            ConvolutionPath::Lsr => {
                self.path_lsr = pd;
            },
            ConvolutionPath::Rsl => {
                self.path_rsl = pd;
            },
            ConvolutionPath::Rsr => {
                self.path_rsr = pd;
            },
        }
    }
}

/// Append a whole block to a queue.
fn append_all(dst: &mut Vec<i32>, src: &Vec<i32>)
    ensures
        final(dst)@ == old(dst)@ + src@,
{
    let mut i: usize = 0;
    while i < src.len()
        invariant
            i <= src@.len(),
            dst@ == old(dst)@ + src@.take(i as int),
        decreases src@.len() - i,
    {
        dst.push(src[i]);
        proof {
            assert(old(dst)@ + src@.take(i as int) + seq![src@[i as int]] =~= old(dst)@ + src@.take(
                i + 1,
            ));
        }
        i = i + 1;
    }
    proof {
        assert(old(dst)@ + src@.take(src@.len() as int) =~= old(dst)@ + src@);
    }
}

/// Remove and return the first `n` samples of a queue.
fn split_off_front(v: &mut Vec<i32>, n: usize) -> (front: Vec<i32>)
    requires
        n <= old(v)@.len(),
    ensures
        front@ == old(v)@.take(n as int),
        final(v)@ == old(v)@.skip(n as int),
{
    let mut front: Vec<i32> = Vec::new();
    let mut i: usize = 0;
    while i < n
        invariant
            i <= n <= v@.len(),
            v@ == old(v)@,
            front@ == old(v)@.take(i as int),
        decreases n - i,
    {
        front.push(v[i]);
        proof {
            assert(old(v)@.take(i as int).push(old(v)@[i as int]) =~= old(v)@.take(i + 1));
        }
        i = i + 1;
    }
    let mut rest: Vec<i32> = Vec::new();
    let mut k: usize = n;
    while k < v.len()
        invariant
            n <= k <= v@.len(),
            v@ == old(v)@,
            rest@ == old(v)@.subrange(n as int, k as int),
        decreases v@.len() - k,
    {
        rest.push(v[k]);
        proof {
            assert(old(v)@.subrange(n as int, k as int).push(old(v)@[k as int]) =~= old(
                v,
            )@.subrange(n as int, k + 1));
        }
        k = k + 1;
    }
    proof {
        assert(old(v)@.subrange(n as int, old(v)@.len() as int) =~= old(v)@.skip(n as int));
    }
    *v = rest;
    front
}

/// Overwrite a buffer with a block of the same length.
fn overwrite_from(dst: &mut Vec<i32>, src: &Vec<i32>)
    requires
        old(dst)@.len() == src@.len(),
    ensures
        final(dst)@ == src@,
{
    let mut i: usize = 0;
    while i < src.len()
        invariant
            i <= src@.len(),
            dst@.len() == src@.len(),
            forall|k: int| 0 <= k < i ==> #[trigger] dst@[k] == src@[k],
        decreases src@.len() - i,
    {
        dst[i] = src[i];
        i = i + 1;
    }
    proof {
        assert(dst@ =~= src@);
    }
}

/// Overwrite a buffer with silence.
fn fill_silence(dst: &mut Vec<i32>)
    ensures
        final(dst)@.len() == old(dst)@.len(),
        forall|k: int| 0 <= k < final(dst)@.len() ==> #[trigger] final(dst)@[k] == 0,
{
    let n = dst.len();
    let mut i: usize = 0;
    while i < n
        invariant
            i <= n,
            dst@.len() == n,
            forall|k: int| 0 <= k < i ==> #[trigger] dst@[k] == 0,
        decreases n - i,
    {
        dst[i] = 0;
        i = i + 1;
    }
}

/// Everything `process_block` does, as a relation between the engine
/// state before and after the call, the input buffers, and the output
/// buffers it filled: the inputs join the pending queues, every full
/// block is run through all four paths, and exactly one output sample per
/// input sample is delivered, silence-padded while the engine is still
/// inside its startup latency.
pub open spec fn process_block_post(
    old_e: ConvolutionEngine,
    new_e: ConvolutionEngine,
    in_l: Seq<i32>,
    in_r: Seq<i32>,
    new_out_l: Seq<i32>,
    new_out_r: Seq<i32>,
) -> bool {
    let bs = old_e.block_size as int;
    let tl = ints_of(old_e.pending_input_left@) + ints_of(in_l);
    let tr = ints_of(old_e.pending_input_right@) + ints_of(in_r);
    let m = tl.len() as int / bs;
    let q0 = quad_of(old_e);
    let avail_l = ints_of(old_e.pending_output_left@) + run_out_left(q0, tl, tr, bs, m as nat);
    let avail_r = ints_of(old_e.pending_output_right@) + run_out_right(q0, tl, tr, bs, m as nat);
    let n = in_l.len() as int;
    &&& new_e.block_size == old_e.block_size
    &&& quad_of(new_e) == run_state(q0, tl, tr, bs, m as nat)
    &&& ints_of(new_e.pending_input_left@) == tl.skip(m * bs)
    &&& ints_of(new_e.pending_input_right@) == tr.skip(m * bs)
    &&& new_out_l.len() == n
    &&& new_out_r.len() == n
    &&& if avail_l.len() >= n {
        &&& ints_of(new_out_l) == avail_l.take(n)
        &&& ints_of(new_out_r) == avail_r.take(n)
        &&& ints_of(new_e.pending_output_left@) == avail_l.skip(n)
        &&& ints_of(new_e.pending_output_right@) == avail_r.skip(n)
    } else {
        &&& ints_of(new_out_l) == zero_seq(n)
        &&& ints_of(new_out_r) == zero_seq(n)
        &&& ints_of(new_e.pending_output_left@) == avail_l
        &&& ints_of(new_e.pending_output_right@) == avail_r
    }
}

impl ConvolutionEngine {
    /// Run one internal block through all four paths and combine them
    /// into one output block per ear: left ear sums the two
    /// left-destination paths, right ear the two right-destination paths.
    fn process_internal_block(&mut self, chunk_l: &Vec<i32>, chunk_r: &Vec<i32>) -> (out: (
        Vec<i32>,
        Vec<i32>,
    ))
        requires
            1 <= old(self).block_size <= BLOCK_SIZE_MAX,
            path_wf(old(self).path_lsl@, old(self).block_size as int),
            path_wf(old(self).path_lsr@, old(self).block_size as int),
            path_wf(old(self).path_rsl@, old(self).block_size as int),
            path_wf(old(self).path_rsr@, old(self).block_size as int),
            chunk_l@.len() == old(self).block_size,
            chunk_r@.len() == old(self).block_size,
        ensures
            path_wf(final(self).path_lsl@, old(self).block_size as int),
            path_wf(final(self).path_lsr@, old(self).block_size as int),
            path_wf(final(self).path_rsl@, old(self).block_size as int),
            path_wf(final(self).path_rsr@, old(self).block_size as int),
            *final(self) == (ConvolutionEngine {
                path_lsl: final(self).path_lsl,
                path_lsr: final(self).path_lsr,
                path_rsl: final(self).path_rsl,
                path_rsr: final(self).path_rsr,
                ..*old(self)
            }),
            quad_of(*final(self)) == quad_step(
                quad_of(*old(self)),
                ints_of(chunk_l@),
                ints_of(chunk_r@),
                old(self).block_size as int,
            ),
            out.0@.len() == old(self).block_size,
            out.1@.len() == old(self).block_size,
            ints_of(out.0@) == step_out_left(
                quad_of(*old(self)),
                ints_of(chunk_l@),
                ints_of(chunk_r@),
                old(self).block_size as int,
            ),
            ints_of(out.1@) == step_out_right(
                quad_of(*old(self)),
                ints_of(chunk_l@),
                ints_of(chunk_r@),
                old(self).block_size as int,
            ),
    {
        let ghost q0 = quad_of(*self);
        let ghost xl = ints_of(chunk_l@);
        let ghost xr = ints_of(chunk_r@);
        let bs = self.block_size;
        let c_lsl = convolve_path_partitioned(&mut self.path_lsl, chunk_l, bs);
        let c_lsr = convolve_path_partitioned(&mut self.path_lsr, chunk_l, bs);
        let c_rsl = convolve_path_partitioned(&mut self.path_rsl, chunk_r, bs);
        let c_rsr = convolve_path_partitioned(&mut self.path_rsr, chunk_r, bs);
        proof {
            assert(quad_of(*self) =~= quad_step(q0, xl, xr, bs as int));
        }
        let mut out_l: Vec<i32> = Vec::new();
        let mut k: usize = 0;
        while k < bs
            invariant
                bs <= BLOCK_SIZE_MAX,
                k <= bs,
                out_l@.len() == k,
                c_lsl@.len() == bs,
                c_rsl@.len() == bs,
                forall|m: int|
                    0 <= m < bs ==> #[trigger] c_lsl@[m] as int == path_block_out(
                        q0.lsl,
                        xl,
                        bs as int,
                    )[m],
                forall|m: int|
                    0 <= m < bs ==> #[trigger] c_rsl@[m] as int == path_block_out(
                        q0.rsl,
                        xr,
                        bs as int,
                    )[m],
                forall|m: int|
                    0 <= m < bs ==> -2 * ACC_BOUND as int <= #[trigger] c_lsl@[m] as int <= 2
                        * ACC_BOUND as int,
                forall|m: int|
                    0 <= m < bs ==> -2 * ACC_BOUND as int <= #[trigger] c_rsl@[m] as int <= 2
                        * ACC_BOUND as int,
                forall|m: int|
                    0 <= m < k ==> #[trigger] out_l@[m] as int == step_out_left(
                        q0,
                        xl,
                        xr,
                        bs as int,
                    )[m],
            decreases bs - k,
        {
            let sum: i128 = c_lsl[k] + c_rsl[k];
            let q = div_floor_i128(sum, SAMPLE_ONE as i128);
            out_l.push(sat_to_i32(q));
            k = k + 1;
        }
        let mut out_r: Vec<i32> = Vec::new();
        let mut k2: usize = 0;
        while k2 < bs
            invariant
                bs <= BLOCK_SIZE_MAX,
                k2 <= bs,
                out_r@.len() == k2,
                c_lsr@.len() == bs,
                c_rsr@.len() == bs,
                forall|m: int|
                    0 <= m < bs ==> #[trigger] c_lsr@[m] as int == path_block_out(
                        q0.lsr,
                        xl,
                        bs as int,
                    )[m],
                forall|m: int|
                    0 <= m < bs ==> #[trigger] c_rsr@[m] as int == path_block_out(
                        q0.rsr,
                        xr,
                        bs as int,
                    )[m],
                forall|m: int|
                    0 <= m < bs ==> -2 * ACC_BOUND as int <= #[trigger] c_lsr@[m] as int <= 2
                        * ACC_BOUND as int,
                forall|m: int|
                    0 <= m < bs ==> -2 * ACC_BOUND as int <= #[trigger] c_rsr@[m] as int <= 2
                        * ACC_BOUND as int,
                forall|m: int|
                    0 <= m < k2 ==> #[trigger] out_r@[m] as int == step_out_right(
                        q0,
                        xl,
                        xr,
                        bs as int,
                    )[m],
            decreases bs - k2,
        {
            let sum: i128 = c_lsr[k2] + c_rsr[k2];
            let q = div_floor_i128(sum, SAMPLE_ONE as i128);
            out_r.push(sat_to_i32(q));
            k2 = k2 + 1;
        }
        proof {
            assert(ints_of(out_l@) =~= step_out_left(q0, xl, xr, bs as int));
            assert(ints_of(out_r@) =~= step_out_right(q0, xl, xr, bs as int));
        }
        (out_l, out_r)
    }

    /// Accept equal-length stereo input, process every complete internal
    /// block, and deliver exactly one output sample per input sample,
    /// padding with silence while the engine is still inside its startup
    /// latency.
    pub fn process_block(
        &mut self,
        input_left: &Vec<i32>,
        input_right: &Vec<i32>,
        output_left: &mut Vec<i32>,
        output_right: &mut Vec<i32>,
    )
        requires
            engine_wf(*old(self)),
            input_left@.len() == input_right@.len(),
            old(output_left)@.len() == input_left@.len(),
            old(output_right)@.len() == input_right@.len(),
        ensures
            engine_wf(*final(self)),
            process_block_post(
                *old(self),
                *final(self),
                input_left@,
                input_right@,
                final(output_left)@,
                final(output_right)@,
            ),
    {
        let ghost q0 = quad_of(*old(self));
        let bs = self.block_size;
        let n = input_left.len();
        append_all(&mut self.pending_input_left, input_left);
        append_all(&mut self.pending_input_right, input_right);
        let ghost tl = ints_of(old(self).pending_input_left@) + ints_of(input_left@);
        let ghost tr = ints_of(old(self).pending_input_right@) + ints_of(input_right@);
        proof {
            lemma_ints_of_add(old(self).pending_input_left@, input_left@);
            lemma_ints_of_add(old(self).pending_input_right@, input_right@);
            assert(tl.skip(0) =~= tl);
            assert(tr.skip(0) =~= tr);
        }
        let ghost p0l = ints_of(old(self).pending_output_left@);
        let ghost p0r = ints_of(old(self).pending_output_right@);
        let total_len = self.pending_input_left.len();
        proof {
            assert(total_len as int == tl.len());
        }
        let mut blocks_done: usize = 0;
        while self.pending_input_left.len() >= bs
            invariant
                1 <= bs <= BLOCK_SIZE_MAX,
                self.block_size == bs,
                path_wf(self.path_lsl@, bs as int),
                path_wf(self.path_lsr@, bs as int),
                path_wf(self.path_rsl@, bs as int),
                path_wf(self.path_rsr@, bs as int),
                tl.len() == tr.len(),
                tl.len() <= usize::MAX,
                blocks_done as int * bs as int <= tl.len(),
                ints_of(self.pending_input_left@) == tl.skip(blocks_done as int * bs as int),
                ints_of(self.pending_input_right@) == tr.skip(blocks_done as int * bs as int),
                self.pending_input_left@.len() == self.pending_input_right@.len(),
                quad_of(*self) == run_state(q0, tl, tr, bs as int, blocks_done as nat),
                ints_of(self.pending_output_left@) == p0l + run_out_left(
                    q0,
                    tl,
                    tr,
                    bs as int,
                    blocks_done as nat,
                ),
                ints_of(self.pending_output_right@) == p0r + run_out_right(
                    q0,
                    tl,
                    tr,
                    bs as int,
                    blocks_done as nat,
                ),
                self.pending_output_left@.len() == self.pending_output_right@.len(),
            decreases self.pending_input_left@.len(),
        {
            let ghost j = blocks_done as int;
            let ghost pin_l = self.pending_input_left@;
            let ghost pin_r = self.pending_input_right@;
            let ghost pout_l = self.pending_output_left@;
            let ghost pout_r = self.pending_output_right@;
            let ghost qj = quad_of(*self);
            proof {
                assert(tl.skip(j * bs as int).len() == tl.len() - j * bs as int);
                assert(self.pending_input_left@.len() >= bs);
                assert(tl.len() - j * bs as int >= bs as int);
                assert(blocks_done as int + 1 <= tl.len()) by (nonlinear_arith)
                    requires
                        blocks_done as int * bs as int <= tl.len() - bs as int,
                        1 <= bs as int,
                        0 <= blocks_done as int,
                ;
                assert((j + 1) * bs as int == j * bs as int + bs as int) by (nonlinear_arith);
            }
            let chunk_l = split_off_front(&mut self.pending_input_left, bs);
            let chunk_r = split_off_front(&mut self.pending_input_right, bs);
            proof {
                lemma_ints_of_take(pin_l, bs as int);
                lemma_ints_of_take(pin_r, bs as int);
                lemma_ints_of_skip(pin_l, bs as int);
                lemma_ints_of_skip(pin_r, bs as int);
                assert(ints_of(chunk_l@) =~= stream_block(tl, bs as int, j));
                assert(ints_of(chunk_r@) =~= stream_block(tr, bs as int, j));
                assert(ints_of(self.pending_input_left@) =~= tl.skip((j + 1) * bs as int));
                assert(ints_of(self.pending_input_right@) =~= tr.skip((j + 1) * bs as int));
            }
            let (bl, br) = self.process_internal_block(&chunk_l, &chunk_r);
            append_all(&mut self.pending_output_left, &bl);
            append_all(&mut self.pending_output_right, &br);
            proof {
                lemma_ints_of_add(pout_l, bl@);
                lemma_ints_of_add(pout_r, br@);
                assert(run_state(q0, tl, tr, bs as int, (j + 1) as nat) == quad_step(
                    run_state(q0, tl, tr, bs as int, j as nat),
                    stream_block(tl, bs as int, j),
                    stream_block(tr, bs as int, j),
                    bs as int,
                ));
                assert(run_out_left(q0, tl, tr, bs as int, (j + 1) as nat) == run_out_left(
                    q0,
                    tl,
                    tr,
                    bs as int,
                    j as nat,
                ) + step_out_left(
                    run_state(q0, tl, tr, bs as int, j as nat),
                    stream_block(tl, bs as int, j),
                    stream_block(tr, bs as int, j),
                    bs as int,
                ));
                assert(ints_of(self.pending_output_left@) =~= p0l + run_out_left(
                    q0,
                    tl,
                    tr,
                    bs as int,
                    (j + 1) as nat,
                ));
                assert(run_out_right(q0, tl, tr, bs as int, (j + 1) as nat) == run_out_right(
                    q0,
                    tl,
                    tr,
                    bs as int,
                    j as nat,
                ) + step_out_right(
                    run_state(q0, tl, tr, bs as int, j as nat),
                    stream_block(tl, bs as int, j),
                    stream_block(tr, bs as int, j),
                    bs as int,
                ));
                assert(ints_of(self.pending_output_right@) =~= p0r + run_out_right(
                    q0,
                    tl,
                    tr,
                    bs as int,
                    (j + 1) as nat,
                ));
            }
            blocks_done = blocks_done + 1;
        }
        proof {
            let j = blocks_done as int;
            let r = tl.len() as int - j * bs as int;
            assert(0 <= r < bs as int);
            lemma_fundamental_div_mod_converse(tl.len() as int, bs as int, j, r);
        }
        let ghost poutl = self.pending_output_left@;
        let ghost poutr = self.pending_output_right@;
        let avail = self.pending_output_left.len();
        if avail >= n {
            let head_l = split_off_front(&mut self.pending_output_left, n);
            let head_r = split_off_front(&mut self.pending_output_right, n);
            overwrite_from(output_left, &head_l);
            overwrite_from(output_right, &head_r);
            proof {
                lemma_ints_of_take(poutl, n as int);
                lemma_ints_of_skip(poutl, n as int);
                lemma_ints_of_take(poutr, n as int);
                lemma_ints_of_skip(poutr, n as int);
            }
        } else {
            fill_silence(output_left);
            fill_silence(output_right);
            proof {
                assert(ints_of(output_left@) =~= zero_seq(n as int));
                assert(ints_of(output_right@) =~= zero_seq(n as int));
            }
        }
    }
}

impl Default for ConvolutionEngine {
    /// Same engine as [`ConvolutionEngine::new`].
    fn default() -> (e: ConvolutionEngine)
        ensures
            engine_wf(e),
            e.block_size == 512,
    {
        ConvolutionEngine::new()
    }
}

/// A single-tap impulse response partition: `1.0` (Q16.16) at offset `d`,
/// silence elsewhere.
pub open spec fn delta_seq(bs: int, d: int) -> Seq<int> {
    Seq::new(bs as nat, |j: int| if j == d { SAMPLE_ONE as int } else { 0 })
}

/// The overlap tail a pure-delay path carries after consuming `prev`:
/// the last `d` samples of `prev`, scaled to product scale, waiting to
/// cross the block boundary.
pub open spec fn delay_tail(bs: int, d: int, prev: Seq<int>) -> Seq<int> {
    Seq::new(bs as nat, |k: int| if k < d { SAMPLE_ONE as int * prev[bs - d + k] } else { 0 })
}

/// A path that delays its input by `d` samples: one single-tap partition
/// and the tail belonging to the previously consumed block `prev`.
pub open spec fn is_delay_path(p: PathView, bs: int, d: int, prev: Seq<int>) -> bool {
    &&& p.partitions =~= seq![delta_seq(bs, d)]
    &&& p.tail =~= delay_tail(bs, d, prev)
}

/// The input stream delayed by `d` samples across a block boundary: the
/// first `d` output samples finish the previous block, the rest are the
/// current block shifted.
pub open spec fn delayed_block(bs: int, d: int, prev: Seq<int>, x: Seq<int>) -> Seq<int> {
    Seq::new(bs as nat, |k: int| if k < d { prev[bs - d + k] } else { x[k - d] })
}

/// A muted path: every partition silent and no carried tail. A freshly
/// constructed path and a path given an empty impulse response both have
/// this shape.
pub open spec fn is_mute_path(p: PathView, bs: int) -> bool {
    &&& forall|i: int| 0 <= i < p.partitions.len() ==> #[trigger] p.partitions[i] =~= zero_seq(bs)
    &&& p.tail =~= zero_seq(bs)
}

/// Convolving against a single-tap partition picks out one input sample.
proof fn lemma_conv_sum_delta(bs: int, d: int, x: Seq<int>, k: int, j: int)
    requires
        0 <= d < bs,
        0 <= j <= bs,
    ensures
        conv_sum(delta_seq(bs, d), x, k, j) == if j > d {
            SAMPLE_ONE as int * xval(x, k - d)
        } else {
            0
        },
    decreases j,
{
    if j > 0 {
        lemma_conv_sum_delta(bs, d, x, k, j - 1);
    }
}

/// Convolving against a silent partition contributes nothing.
proof fn lemma_conv_sum_zero(bs: int, x: Seq<int>, k: int, j: int)
    requires
        0 <= j <= bs,
    ensures
        conv_sum(zero_seq(bs), x, k, j) == 0,
    decreases j,
{
    if j > 0 {
        lemma_conv_sum_zero(bs, x, k, j - 1);
    }
}

/// A partitioned sum over silent partitions is zero.
proof fn lemma_part_sum_mute(p: PathView, hist: Seq<Seq<int>>, bs: int, k: int, i: int)
    requires
        is_mute_path(p, bs),
        0 <= bs,
        0 <= i <= p.partitions.len(),
    ensures
        part_sum(p.partitions, hist, p.cursor, k, i) == 0,
    decreases i,
{
    if i > 0 {
        lemma_part_sum_mute(p, hist, bs, k, i - 1);
        assert(p.partitions[i - 1] =~= zero_seq(bs));
        lemma_conv_sum_zero(bs, hist[hist_slot(p.cursor, i - 1, p.partitions.len() as int)], k, bs);
        assert(conv_sum(p.partitions[i - 1], hist[hist_slot(p.cursor, i - 1, p.partitions.len() as int)], k, p.partitions[i - 1].len() as int) == 0);
    }
}

/// Mute path law: a path whose impulse response is silence contributes
/// exactly zero to every output sample, and stays mute forever.
pub proof fn lemma_mute_path_step(p: PathView, x: Seq<int>, bs: int)
    requires
        path_wf(p, bs),
        is_mute_path(p, bs),
        0 <= bs,
        x.len() == bs,
    ensures
        path_block_out(p, x, bs) =~= zero_seq(bs),
        is_mute_path(path_step(p, x, bs), bs),
        path_wf(path_step(p, x, bs), bs),
{
    let hist = p.history.update(p.cursor, x);
    assert forall|k: int| 0 <= k < bs implies #[trigger] path_block_out(p, x, bs)[k] == 0 by {
        lemma_part_sum_mute(p, hist, bs, k, p.partitions.len() as int);
    }
    assert forall|k: int| 0 <= k < bs implies #[trigger] path_step(p, x, bs).tail[k] == 0 by {
        lemma_part_sum_mute(p, hist, bs, k + bs, p.partitions.len() as int);
    }
    vstd::arithmetic::div_mod::lemma_mod_bound(p.cursor + 1, p.partitions.len() as int);
    assert(path_step(p, x, bs).tail =~= zero_seq(bs));
}

/// Pure delay law, across a block boundary: a path with a single-tap
/// impulse response at offset `d` turns the consumed blocks
/// `prev` then `x` into the exactly `d`-sample-delayed stream, and its
/// next state is the same delay path one block later.
pub proof fn lemma_delay_path_step(p: PathView, x: Seq<int>, bs: int, d: int, prev: Seq<int>)
    requires
        path_wf(p, bs),
        is_delay_path(p, bs, d, prev),
        0 <= d < bs,
        x.len() == bs,
        prev.len() == bs,
        bounded32(x),
        bounded32(prev),
    ensures
        path_block_out(p, x, bs) =~= Seq::new(
            bs as nat,
            |k: int| SAMPLE_ONE as int * delayed_block(bs, d, prev, x)[k],
        ),
        is_delay_path(path_step(p, x, bs), bs, d, x),
        path_wf(path_step(p, x, bs), bs),
{
    let np = p.partitions.len() as int;
    assert(np == 1);
    assert(p.cursor == 0);
    let hist = p.history.update(0, x);
    assert(hist_slot(0, 0, 1) == 0) by {
        vstd::arithmetic::div_mod::lemma_mod_bound(1, 1);
    }
    assert(hist[0] == x);
    assert forall|k: int| 0 <= k < 2 * bs implies full_sum(p.partitions, hist, 0, k)
        == SAMPLE_ONE as int * xval(x, k - d) by {
        assert(p.partitions[0] =~= delta_seq(bs, d));
        assert(part_sum(p.partitions, hist, 0, k, 1) == part_sum(p.partitions, hist, 0, k, 0)
            + block_conv_at(p.partitions[0], hist[hist_slot(0, 0, 1)], k));
        assert(block_conv_at(p.partitions[0], hist[0], k) == conv_sum(
            delta_seq(bs, d),
            x,
            k,
            bs,
        ));
        lemma_conv_sum_delta(bs, d, x, k, bs);
    }
    assert forall|k: int| 0 <= k < bs implies -ACC_BOUND as int
        <= #[trigger] path_step(p, x, bs).tail[k] <= ACC_BOUND as int by {
        assert(path_step(p, x, bs).tail[k] == full_sum(p.partitions, hist, 0, k + bs));
        lemma_mul_bound(SAMPLE_ONE as int, xval(x, k + bs - d), SAMPLE_ONE as int, 0x8000_0000);
    }
    assert forall|k: int| 0 <= k < bs implies #[trigger] path_block_out(p, x, bs)[k]
        == SAMPLE_ONE as int * delayed_block(bs, d, prev, x)[k] by {
        if k < d {
            assert(xval(x, k - d) == 0);
            assert(p.tail[k] == SAMPLE_ONE as int * prev[bs - d + k]);
        } else {
            assert(p.tail[k] == 0);
            assert(xval(x, k - d) == x[k - d]);
        }
    }
    assert forall|k: int| 0 <= k < bs implies #[trigger] path_step(p, x, bs).tail[k]
        == delay_tail(bs, d, x)[k] by {
        if k < d {
            assert(xval(x, k + bs - d) == x[bs - d + k]);
        } else {
            assert(xval(x, k + bs - d) == 0);
        }
    }
    assert(path_step(p, x, bs).tail =~= delay_tail(bs, d, x));
    vstd::arithmetic::div_mod::lemma_mod_bound(1, 1);
}

/// Identity law: a path whose impulse response is a unit impulse passes
/// each block through unchanged, at product scale, and stays an identity
/// path. The unit impulse is the zero-offset delay.
pub proof fn lemma_identity_path_step(p: PathView, x: Seq<int>, bs: int, prev: Seq<int>)
    requires
        path_wf(p, bs),
        is_delay_path(p, bs, 0, prev),
        1 <= bs,
        x.len() == bs,
        prev.len() == bs,
        bounded32(x),
        bounded32(prev),
    ensures
        path_block_out(p, x, bs) =~= Seq::new(bs as nat, |k: int| SAMPLE_ONE as int * x[k]),
        is_delay_path(path_step(p, x, bs), bs, 0, x),
{
    lemma_delay_path_step(p, x, bs, 0, prev);
    assert(delayed_block(bs, 0, prev, x) =~= x);
    assert(path_block_out(p, x, bs) =~= Seq::new(
        bs as nat,
        |k: int| SAMPLE_ONE as int * delayed_block(bs, 0, prev, x)[k],
    ));
    assert forall|k: int| 0 <= k < bs implies #[trigger] path_block_out(p, x, bs)[k]
        == SAMPLE_ONE as int * x[k] by {
        assert(delayed_block(bs, 0, prev, x)[k] == x[k]);
    }
}

/// Rescaling undoes the Q16.16 product scale exactly: a path-product
/// sample divided by one Q16.16 unit is the sample itself.
pub proof fn lemma_unscale_exact(v: int)
    requires
        -0x8000_0000 <= v < 0x8000_0000,
    ensures
        sat_i32(floor_div(SAMPLE_ONE as int * v, SAMPLE_ONE as int)) == v,
{
    assert(SAMPLE_ONE as int * v == v * SAMPLE_ONE as int) by (nonlinear_arith);
    lemma_fundamental_div_mod_converse(v * SAMPLE_ONE as int, SAMPLE_ONE as int, v, 0);
}

/// The combined left-ear law behind identity, delay and mute tests: when
/// the right-source path into the left ear is mute, the left ear hears
/// exactly the left-source path, rescaled; and when that path is a pure
/// delay, the left ear hears the delayed left input, sample for sample.
pub proof fn lemma_left_ear_delay_exact(
    s: QuadState,
    xl: Seq<int>,
    xr: Seq<int>,
    bs: int,
    d: int,
    prev: Seq<int>,
)
    requires
        path_wf(s.lsl, bs),
        path_wf(s.rsl, bs),
        is_delay_path(s.lsl, bs, d, prev),
        is_mute_path(s.rsl, bs),
        0 <= d < bs,
        xl.len() == bs,
        xr.len() == bs,
        prev.len() == bs,
        bounded32(xl),
        bounded32(prev),
    ensures
        step_out_left(s, xl, xr, bs) =~= delayed_block(bs, d, prev, xl),
        is_delay_path(quad_step(s, xl, xr, bs).lsl, bs, d, xl),
        is_mute_path(quad_step(s, xl, xr, bs).rsl, bs),
{
    lemma_delay_path_step(s.lsl, xl, bs, d, prev);
    lemma_mute_path_step(s.rsl, xr, bs);
    assert forall|k: int| 0 <= k < bs implies #[trigger] step_out_left(s, xl, xr, bs)[k]
        == delayed_block(bs, d, prev, xl)[k] by {
        let v = delayed_block(bs, d, prev, xl)[k];
        assert(path_block_out(s.lsl, xl, bs)[k] == SAMPLE_ONE as int * v);
        assert(path_block_out(s.rsl, xr, bs)[k] == 0);
        if k < d {
            assert(v == prev[bs - d + k]);
        } else {
            assert(v == xl[k - d]);
        }
        lemma_unscale_exact(v);
    }
}

/// A freshly constructed path, and a path given an empty impulse
/// response, are mute.
pub proof fn lemma_installed_silence_is_mute(bs: int)
    requires
        1 <= bs,
    ensures
        is_mute_path(silent_path_view(bs), bs),
        is_mute_path(installed_path_view(Seq::empty(), bs), bs),
{
    assert(num_partitions_of(0, bs) == 1);
    assert(ir_chunk(Seq::empty(), bs, 0) =~= zero_seq(bs));
}

/// Installing a single-tap impulse response `[0, ..., 0, 1.0]` with its
/// tap at offset `d` inside one block yields exactly a `d`-sample delay
/// path; with `d == 0`, the identity path.
pub proof fn lemma_installed_tap_is_delay(ir: Seq<int>, bs: int, d: int)
    requires
        1 <= bs,
        0 <= d < bs,
        d < ir.len() <= bs,
        ir[d] == SAMPLE_ONE as int,
        forall|i: int| 0 <= i < ir.len() && i != d ==> #[trigger] ir[i] == 0,
    ensures
        is_delay_path(installed_path_view(ir, bs), bs, d, zero_seq(bs)),
{
    assert(num_partitions_of(ir.len() as int, bs) == 1) by {
        assert((ir.len() + bs - 1) / bs == 1) by {
            lemma_fundamental_div_mod_converse(
                ir.len() + bs - 1,
                bs,
                1,
                ir.len() as int - 1,
            );
        }
    }
    assert(ir_chunk(ir, bs, 0) =~= delta_seq(bs, d));
    assert(installed_path_view(ir, bs).partitions =~= seq![delta_seq(bs, d)]);
    assert(installed_path_view(ir, bs).tail =~= delay_tail(bs, d, zero_seq(bs)));
}

/// The block that precedes block `j` of a stream: for the first block,
/// the block consumed just before the stream began.
pub open spec fn prev_at(prev: Seq<int>, sl: Seq<int>, bs: int, j: int) -> Seq<int> {
    if j == 0 {
        prev
    } else {
        stream_block(sl, bs, j - 1)
    }
}

/// Pure-delay law over whole streams: a left-source-to-left-ear path
/// with a single-tap impulse response at offset `d`, next to a mute
/// right-source path, turns any number of processed blocks into exactly
/// the `d`-sample-delayed input stream — the emitted samples are the
/// slice of `prev + sl` that starts `d` samples before the first block
/// boundary. With `d == 0` this is identity convolution; the delay
/// crosses every internal block boundary.
pub proof fn lemma_delay_stream(
    s: QuadState,
    sl: Seq<int>,
    sr: Seq<int>,
    bs: int,
    d: int,
    prev: Seq<int>,
    m: nat,
)
    requires
        path_wf(s.lsl, bs),
        path_wf(s.rsl, bs),
        is_delay_path(s.lsl, bs, d, prev),
        is_mute_path(s.rsl, bs),
        0 <= d < bs,
        prev.len() == bs,
        sl.len() >= m * bs,
        sr.len() >= m * bs,
        bounded32(sl),
        bounded32(prev),
    ensures
        run_out_left(s, sl, sr, bs, m) =~= (prev + sl).subrange(bs - d, bs - d + m * bs),
        is_delay_path(run_state(s, sl, sr, bs, m).lsl, bs, d, prev_at(prev, sl, bs, m as int)),
        is_mute_path(run_state(s, sl, sr, bs, m).rsl, bs),
        path_wf(run_state(s, sl, sr, bs, m).lsl, bs),
        path_wf(run_state(s, sl, sr, bs, m).rsl, bs),
        prev_at(prev, sl, bs, m as int).len() == bs,
        bounded32(prev_at(prev, sl, bs, m as int)),
    decreases m,
{
    if m == 0 {
        assert(m * bs == 0) by (nonlinear_arith)
            requires
                m == 0,
        ;
        assert(run_out_left(s, sl, sr, bs, m) =~= (prev + sl).subrange(bs - d, bs - d + m * bs));
    } else {
        let j = (m - 1) as nat;
        assert((m - 1) * bs <= m * bs && m * bs == (m - 1) * bs + bs) by (nonlinear_arith)
            requires
                bs >= 1,
                m >= 1,
        ;
        lemma_delay_stream(s, sl, sr, bs, d, prev, j);
        let sj = run_state(s, sl, sr, bs, j);
        let xl = stream_block(sl, bs, j as int);
        let xr = stream_block(sr, bs, j as int);
        assert(xl.len() == bs);
        assert(xr.len() == bs);
        assert(bounded32(xl));
        lemma_left_ear_delay_exact(sj, xl, xr, bs, d, prev_at(prev, sl, bs, j as int));
        let a = run_out_left(s, sl, sr, bs, j);
        let b = step_out_left(sj, xl, xr, bs);
        let t = (prev + sl).subrange(bs - d, bs - d + m * bs);
        assert(run_out_left(s, sl, sr, bs, m) == a + b);
        assert(a.len() == (m - 1) * bs);
        assert(b.len() == bs);
        assert forall|k: int| 0 <= k < m * bs implies (a + b)[k] == t[k] by {
            assert(t[k] == (prev + sl)[bs - d + k]);
            if k < (m - 1) * bs {
                assert((a + b)[k] == a[k]);
                assert(a[k] == (prev + sl).subrange(bs - d, bs - d + (m - 1) * bs)[k]);
            } else {
                let local = k - (m - 1) * bs;
                assert((a + b)[k] == b[local]);
                let db = delayed_block(bs, d, prev_at(prev, sl, bs, j as int), xl);
                assert(b[local] == db[local]);
                if local < d {
                    if j == 0 {
                        assert(b[local] == prev[bs - d + local]);
                    } else {
                        assert(prev_at(prev, sl, bs, j as int) == stream_block(
                            sl,
                            bs,
                            j as int - 1,
                        ));
                        assert((j as int - 1) * bs >= 0) by (nonlinear_arith)
                            requires
                                j as int >= 1,
                                bs >= 1,
                        ;
                        assert((j as int) * bs == (j as int - 1) * bs + bs) by (nonlinear_arith);
                        assert(db[local] == prev_at(prev, sl, bs, j as int)[bs - d + local]);
                        assert(b[local] == sl[(j as int - 1) * bs + (bs - d + local)]);
                        assert((j as int - 1) * bs + bs == (m - 1) * bs) by (nonlinear_arith)
                            requires
                                j as int == m - 1,
                        ;
                        assert(bs - d + k == bs + ((j as int - 1) * bs + (bs - d + local)));
                    }
                } else {
                    assert(b[local] == xl[local - d]);
                    assert(xl[local - d] == sl[(m - 1) * bs + (local - d)]);
                }
            }
        }
        assert(run_out_left(s, sl, sr, bs, m) =~= t);
        assert(run_state(s, sl, sr, bs, m).lsl =~= path_step(sj.lsl, xl, bs));
        assert(xl =~= prev_at(prev, sl, bs, m as int));
    }
}

/// Identity-convolution law over whole streams: a unit-impulse response
/// on the left-source-to-left-ear path, with the right-source path mute,
/// reproduces the left input stream sample for sample once the first
/// block boundary is reached.
pub proof fn lemma_identity_stream(
    s: QuadState,
    sl: Seq<int>,
    sr: Seq<int>,
    bs: int,
    prev: Seq<int>,
    m: nat,
)
    requires
        path_wf(s.lsl, bs),
        path_wf(s.rsl, bs),
        is_delay_path(s.lsl, bs, 0, prev),
        is_mute_path(s.rsl, bs),
        1 <= bs,
        prev.len() == bs,
        sl.len() >= m * bs,
        sr.len() >= m * bs,
        bounded32(sl),
        bounded32(prev),
    ensures
        run_out_left(s, sl, sr, bs, m) =~= sl.take(m * bs),
{
    lemma_delay_stream(s, sl, sr, bs, 0, prev, m);
    assert((prev + sl).subrange(bs - 0, bs - 0 + m * bs) =~= sl.take(m * bs));
}

/// Identity convolution at the engine interface: an engine whose
/// left-source-to-left-ear path carries a unit impulse response, whose
/// right-source-to-left-ear path is mute, and whose queues are empty,
/// answers a whole number of internal blocks with the left input itself,
/// bit for bit. Together with the silence-padding clause of
/// [`process_block_post`] this is the identity-convolution behaviour
/// after startup latency; the right ear is symmetric in the `Lsr` and
/// `Rsr` paths.
pub proof fn lemma_engine_identity_passthrough(
    old_e: ConvolutionEngine,
    new_e: ConvolutionEngine,
    in_l: Seq<i32>,
    in_r: Seq<i32>,
    out_l: Seq<i32>,
    out_r: Seq<i32>,
)
    requires
        engine_wf(old_e),
        old_e.pending_input_left@.len() == 0,
        old_e.pending_input_right@.len() == 0,
        old_e.pending_output_left@.len() == 0,
        old_e.pending_output_right@.len() == 0,
        is_delay_path(
            quad_of(old_e).lsl,
            old_e.block_size as int,
            0,
            zero_seq(old_e.block_size as int),
        ),
        is_mute_path(quad_of(old_e).rsl, old_e.block_size as int),
        in_l.len() == in_r.len(),
        in_l.len() as int % (old_e.block_size as int) == 0,
        process_block_post(old_e, new_e, in_l, in_r, out_l, out_r),
    ensures
        ints_of(out_l) == ints_of(in_l),
{
    let bs = old_e.block_size as int;
    let tl = ints_of(old_e.pending_input_left@) + ints_of(in_l);
    let tr = ints_of(old_e.pending_input_right@) + ints_of(in_r);
    assert(tl =~= ints_of(in_l));
    assert(tr =~= ints_of(in_r));
    let m = tl.len() as int / bs;
    lemma_fundamental_div_mod(tl.len() as int, bs);
    assert(m * bs == tl.len());
    assert(m >= 0) by {
        vstd::arithmetic::div_mod::lemma_div_pos_is_pos(tl.len() as int, bs);
    }
    lemma_ints_of_bounded(in_l);
    assert(bounded32(zero_seq(bs)));
    lemma_identity_stream(quad_of(old_e), tl, tr, bs, zero_seq(bs), m as nat);
    let q0 = quad_of(old_e);
    let avail_l = ints_of(old_e.pending_output_left@) + run_out_left(q0, tl, tr, bs, m as nat);
    assert(avail_l =~= run_out_left(q0, tl, tr, bs, m as nat));
    assert(run_out_left(q0, tl, tr, bs, m as nat) == tl.take(m * bs));
    assert(tl.take(m * bs) =~= tl);
    let n = in_l.len() as int;
    assert(avail_l.len() == n);
    assert(ints_of(out_l) == avail_l.take(n));
    assert(avail_l.take(n) =~= tl);
}

/// Pure delay at the engine interface: with a single-tap impulse
/// response at offset `d` on the left-source-to-left-ear path, a mute
/// right-source path and empty queues, a whole number of internal blocks
/// is answered with `d` samples of silence followed by the left input,
/// the delay crossing every internal block boundary exactly.
pub proof fn lemma_engine_delay(
    old_e: ConvolutionEngine,
    new_e: ConvolutionEngine,
    in_l: Seq<i32>,
    in_r: Seq<i32>,
    out_l: Seq<i32>,
    out_r: Seq<i32>,
    d: int,
)
    requires
        engine_wf(old_e),
        old_e.pending_input_left@.len() == 0,
        old_e.pending_input_right@.len() == 0,
        old_e.pending_output_left@.len() == 0,
        old_e.pending_output_right@.len() == 0,
        is_delay_path(
            quad_of(old_e).lsl,
            old_e.block_size as int,
            d,
            zero_seq(old_e.block_size as int),
        ),
        is_mute_path(quad_of(old_e).rsl, old_e.block_size as int),
        0 <= d < old_e.block_size,
        in_l.len() == in_r.len(),
        in_l.len() as int % (old_e.block_size as int) == 0,
        process_block_post(old_e, new_e, in_l, in_r, out_l, out_r),
    ensures
        ints_of(out_l) =~= (zero_seq(d) + ints_of(in_l)).take(in_l.len() as int),
{
    let bs = old_e.block_size as int;
    let tl = ints_of(old_e.pending_input_left@) + ints_of(in_l);
    let tr = ints_of(old_e.pending_input_right@) + ints_of(in_r);
    assert(tl =~= ints_of(in_l));
    assert(tr =~= ints_of(in_r));
    let m = tl.len() as int / bs;
    lemma_fundamental_div_mod(tl.len() as int, bs);
    assert(m * bs == tl.len());
    assert(m >= 0) by {
        vstd::arithmetic::div_mod::lemma_div_pos_is_pos(tl.len() as int, bs);
    }
    lemma_ints_of_bounded(in_l);
    assert(bounded32(zero_seq(bs)));
    lemma_delay_stream(quad_of(old_e), tl, tr, bs, d, zero_seq(bs), m as nat);
    let q0 = quad_of(old_e);
    let avail_l = ints_of(old_e.pending_output_left@) + run_out_left(q0, tl, tr, bs, m as nat);
    assert(avail_l =~= run_out_left(q0, tl, tr, bs, m as nat));
    let n = in_l.len() as int;
    assert(avail_l.len() == n);
    assert(ints_of(out_l) == avail_l.take(n));
    let target = (zero_seq(d) + ints_of(in_l)).take(n);
    assert forall|k: int| 0 <= k < n implies avail_l[k] == target[k] by {
        assert(avail_l[k] == (zero_seq(bs) + tl).subrange(bs - d, bs - d + m * bs)[k]);
        assert(avail_l[k] == (zero_seq(bs) + tl)[bs - d + k]);
        if k < d {
            assert((zero_seq(bs) + tl)[bs - d + k] == 0);
        } else {
            assert((zero_seq(bs) + tl)[bs - d + k] == tl[k - d]);
        }
    }
    assert(ints_of(out_l) =~= (zero_seq(d) + ints_of(in_l)).take(n));
}

/// Mute-path law over whole streams: a path with a silent impulse
/// response stays mute through any number of processed blocks, so by
/// [`lemma_mute_path_step`] it contributes exactly zero to every emitted
/// sample; and since every path's state evolves from its own input alone,
/// the other three paths are unaffected by its presence.
pub proof fn lemma_mute_stream(s: QuadState, sl: Seq<int>, sr: Seq<int>, bs: int, m: nat)
    requires
        path_wf(s.rsl, bs),
        is_mute_path(s.rsl, bs),
        1 <= bs,
        sr.len() >= m * bs,
    ensures
        is_mute_path(run_state(s, sl, sr, bs, m).rsl, bs),
        path_wf(run_state(s, sl, sr, bs, m).rsl, bs),
    decreases m,
{
    if m > 0 {
        let j = (m - 1) as nat;
        assert((m - 1) * bs <= m * bs && m * bs == (m - 1) * bs + bs) by (nonlinear_arith)
            requires
                bs >= 1,
                m >= 1,
        ;
        lemma_mute_stream(s, sl, sr, bs, j);
        let sj = run_state(s, sl, sr, bs, j);
        let xr = stream_block(sr, bs, j as int);
        assert(xr.len() == bs);
        lemma_mute_path_step(sj.rsl, xr, bs);
        assert(run_state(s, sl, sr, bs, m).rsl =~= path_step(sj.rsl, xr, bs));
    }
}

} // verus!
