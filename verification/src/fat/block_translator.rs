//! Translate between different hardware and software "virtual" block sizes.

use crate::fat::ages::{lemma_ranks_keep_order, lemma_used_last, rank, used_before, used_last};
use crate::fat::flash::{erased, overwritten, DeviceCall, NorFlashStorage};
use crate::fat::types::{BlockCount, BlockIndex, BlockSize};
use vstd::arithmetic::div_mod::{lemma_fundamental_div_mod, lemma_mod_mod};
use vstd::arithmetic::power2::{lemma_pow2_adds, lemma_pow2_strictly_increases, pow2};
use vstd::prelude::*;

verus! {

/// Whether `n` is a power of two.
pub open spec fn is_power_of_two(n: int) -> bool {
    exists|k: nat| pow2(k) == n
}

/// A smaller power of two divides a larger one.
pub proof fn lemma_power_of_two_divides(a: int, b: int)
    requires
        is_power_of_two(a),
        is_power_of_two(b),
        a <= b,
    ensures
        a > 0,
        b % a == 0,
{
    let ka = choose|k: nat| pow2(k) == a;
    let kb = choose|k: nat| pow2(k) == b;
    if ka > kb {
        lemma_pow2_strictly_increases(kb, ka);
    }
    let d = (kb - ka) as nat;
    lemma_pow2_adds(ka, d);
    vstd::arithmetic::power2::lemma_pow2_pos(ka);
    vstd::arithmetic::power2::lemma_pow2_pos(d);
    assert(b == pow2(d) * a) by (nonlinear_arith)
        requires
            b == pow2(ka + d),
            pow2(ka + d) == pow2(ka) * pow2(d),
            a == pow2(ka),
    ;
    vstd::arithmetic::div_mod::lemma_mod_multiples_basic(pow2(d) as int, a);
}

/// The state of a buffer.
#[derive(Debug, PartialEq, Eq, Structural)]
enum BlockTranslatorStatus {
    /// The buffer holds no block.
    Unknown,
    /// The buffer holds a block as it is on the device.
    Read,
    /// The buffer holds a block that was changed since it was read.
    Modified,
}

/// Wrapper to allow the error of a flash device as the error of the translation layer.
#[derive(Debug)]
pub struct NorFlashError<E>(pub E);

impl<E> From<E> for NorFlashError<E> {
    fn from(value: E) -> (r: Self) {
        Self(value)
    }
}

impl<E> vstd::std_specs::convert::FromSpecImpl<E> for NorFlashError<E> {
    open spec fn obeys_from_spec() -> bool {
        true
    }

    open spec fn from_spec(v: E) -> NorFlashError<E> {
        NorFlashError(v)
    }
}

impl<E> core::ops::Deref for NorFlashError<E> {
    type Target = E;

    fn deref(&self) -> (r: &E)
        ensures
            *r == self.0,
    {
        &self.0
    }
}

/// What a write of `data` at byte `start` leaves a read of the same bytes:
/// exactly `data`.
pub proof fn lemma_read_after_write(contents: Seq<u8>, start: int, data: Seq<u8>)
    requires
        0 <= start,
        start + data.len() <= contents.len(),
    ensures
        overwritten(contents, start, data).subrange(start, start + data.len()) == data,
{
    assert(overwritten(contents, start, data).subrange(start, start + data.len()) =~= data);
}

/// A write leaves every byte outside the bytes it writes as it was.
pub proof fn lemma_write_keeps_others(
    contents: Seq<u8>,
    start: int,
    data: Seq<u8>,
    from: int,
    to: int,
)
    requires
        0 <= from <= to <= contents.len(),
        to <= start || start + data.len() <= from,
    ensures
        overwritten(contents, start, data).subrange(from, to) == contents.subrange(from, to),
{
    assert(overwritten(contents, start, data).subrange(from, to) =~= contents.subrange(from, to));
}

/// Of two writes to the same bytes, the later one is what remains.
pub proof fn lemma_last_write_wins(contents: Seq<u8>, start: int, first: Seq<u8>, second: Seq<u8>)
    requires
        first.len() == second.len(),
    ensures
        overwritten(overwritten(contents, start, first), start, second) == overwritten(
            contents,
            start,
            second,
        ),
{
    assert(overwritten(overwritten(contents, start, first), start, second) =~= overwritten(
        contents,
        start,
        second,
    ));
}

/// Where the bytes of a buffer live.
#[derive(Debug)]
enum BufferLocation<'a, const BUF_SIZE: usize> {
    /// Memory that the user lent to the translator.
    Borrowed(&'a mut [u8; BUF_SIZE]),
    /// Memory that the translator allocated.
    Owned(Box<[u8; BUF_SIZE]>),
}

impl<'a, const BUF_SIZE: usize> BufferLocation<'a, BUF_SIZE> {
    spec fn bytes_view(&self) -> Seq<u8> {
        match self {
            BufferLocation::Borrowed(e) => (**e)@,
            BufferLocation::Owned(b) => (**b)@,
        }
    }

    proof fn lemma_len(&self)
        ensures
            self.bytes_view().len() == BUF_SIZE,
    {
        broadcast use vstd::array::group_array_axioms;

    }

    fn bytes(&self) -> (r: &[u8])
        ensures
            r@ == self.bytes_view(),
    {
        match self {
            BufferLocation::Borrowed(e) => e.as_slice(),
            BufferLocation::Owned(b) => b.as_slice(),
        }
    }

    /// The first `n` bytes of the buffer.
    fn head(&self, n: usize) -> (r: &[u8])
        requires
            n <= BUF_SIZE,
        ensures
            r@ == self.bytes_view().subrange(0, n as int),
    {
        proof {
            self.lemma_len();
        }
        let (first, _rest) = self.bytes().split_at(n);
        first
    }

    /// The first `n` bytes of the buffer, to be filled in; the others stay
    /// as they are.
    fn head_mut(&mut self, n: usize) -> (r: &mut [u8])
        requires
            n <= BUF_SIZE,
        ensures
            r@ == old(self).bytes_view().subrange(0, n as int),
            final(self).bytes_view().len() == BUF_SIZE,
            final(r)@.len() == n ==> final(self).bytes_view().subrange(0, n as int) == final(r)@,
    {
        proof {
            self.lemma_len();
        }
        let all = self.bytes_mut();
        let (first, rest) = all.split_at_mut(n);
        first
    }

    /// Copy `n` bytes from `src[from..]` into the buffer at `at`.
    fn copy_in(&mut self, at: usize, src: &[u8], from: usize, n: usize)
        requires
            at + n <= BUF_SIZE,
            from + n <= src.len(),
        ensures
            final(self).bytes_view().len() == BUF_SIZE,
            forall|i: int|
                0 <= i < BUF_SIZE ==> #[trigger] final(self).bytes_view()[i] == if at <= i < at + n {
                    src@[from + i - at]
                } else {
                    old(self).bytes_view()[i]
                },
    {
        proof {
            self.lemma_len();
        }
        let dst = self.bytes_mut();
        let mut k: usize = 0;
        while k < n
            invariant
                k <= n,
                at + n <= BUF_SIZE,
                from + n <= src.len(),
                dst@.len() == BUF_SIZE,
                old(self).bytes_view().len() == BUF_SIZE,
                forall|i: int|
                    0 <= i < BUF_SIZE ==> #[trigger] dst@[i] == if at <= i < at + k {
                        src@[from + i - at]
                    } else {
                        old(self).bytes_view()[i]
                    },
            decreases n - k,
        {
            dst[at + k] = src[from + k];
            k = k + 1;
        }
    }

    /// Copy `n` bytes of the buffer from `at` on into `dst[to..]`.
    fn copy_out(&self, at: usize, dst: &mut [u8], to: usize, n: usize)
        requires
            at + n <= BUF_SIZE,
            to + n <= old(dst).len(),
        ensures
            final(dst)@.len() == old(dst)@.len(),
            forall|i: int|
                0 <= i < old(dst)@.len() ==> #[trigger] final(dst)@[i] == if to <= i < to + n {
                    self.bytes_view()[at + i - to]
                } else {
                    old(dst)@[i]
                },
    {
        proof {
            self.lemma_len();
        }
        let src = self.bytes();
        let mut k: usize = 0;
        while k < n
            invariant
                k <= n,
                at + n <= BUF_SIZE,
                to + n <= old(dst).len(),
                dst.len() == old(dst).len(),
                src@ == self.bytes_view(),
                src@.len() == BUF_SIZE,
                dst@.len() == old(dst)@.len(),
                forall|i: int|
                    0 <= i < old(dst)@.len() ==> #[trigger] dst@[i] == if to <= i < to + k {
                        src@[at + i - to]
                    } else {
                        old(dst)@[i]
                    },
            decreases n - k,
        {
            dst[to + k] = src[at + k];
            k = k + 1;
        }
    }

    fn bytes_mut(&mut self) -> (r: &mut [u8])
        ensures
            r@ == old(self).bytes_view(),
            final(r)@ == final(self).bytes_view(),
    {
        match self {
            BufferLocation::Borrowed(e) => &mut **e,
            BufferLocation::Owned(b) => {
                let a: &mut [u8; BUF_SIZE] = &mut **b;
                a
            },
        }
    }
}

/// One hardware block held in memory.
#[derive(Debug)]
struct Buffer<'a, const BUF_SIZE: usize> {
    buffer: BufferLocation<'a, BUF_SIZE>,
    /// The byte offset of the hardware block on the device.
    stored_block: u32,
    status: BlockTranslatorStatus,
    /// BUFS<=2: unused
    /// BUFS>=3: "timestamp" when buffer was used last
    last_used: usize,
}

/// Whether buffer `b` holds a block that covers byte `p` of the device.
spec fn holds<'a, const BUF_SIZE: usize>(b: Buffer<'a, BUF_SIZE>, p: int, h: int) -> bool {
    &&& b.status != BlockTranslatorStatus::Unknown
    &&& b.stored_block <= p < b.stored_block + h
}

/// Byte `p` of the device as the translator presents it: from the buffer that
/// holds it, else from the device.
spec fn overlay_byte<'a, const BUF_SIZE: usize>(
    bufs: Seq<Buffer<'a, BUF_SIZE>>,
    dev: Seq<u8>,
    p: int,
    h: int,
) -> u8 {
    if exists|i: int| 0 <= i < bufs.len() && #[trigger] holds(bufs[i], p, h) {
        let i = choose|i: int| 0 <= i < bufs.len() && #[trigger] holds(bufs[i], p, h);
        bufs[i].buffer.bytes_view()[p - bufs[i].stored_block]
    } else {
        dev[p]
    }
}

/// The device `dev` as seen through the buffers `bufs`.
spec fn overlay<'a, const BUF_SIZE: usize>(bufs: Seq<Buffer<'a, BUF_SIZE>>, dev: Seq<u8>, h: int) -> Seq<u8> {
    Seq::new(dev.len(), |p: int| overlay_byte(bufs, dev, p, h))
}

/// The buffers that hold a block hold distinct, aligned hardware blocks.
spec fn disjoint<'a, const BUF_SIZE: usize>(bufs: Seq<Buffer<'a, BUF_SIZE>>, h: int) -> bool {
    &&& forall|i: int|
        0 <= i < bufs.len() && bufs[i].status != BlockTranslatorStatus::Unknown
            ==> #[trigger] (bufs[i].stored_block as int) % (h) == 0
    &&& forall|i: int, j: int|
        0 <= i < bufs.len() && 0 <= j < bufs.len() && i != j && bufs[i].status
            != BlockTranslatorStatus::Unknown && bufs[j].status != BlockTranslatorStatus::Unknown
            ==> #[trigger] bufs[i].stored_block != #[trigger] bufs[j].stored_block
}

/// Two aligned hardware blocks that share a byte are the same block.
proof fn lemma_aligned_overlap(s: int, t: int, p: int, h: int)
    requires
        h > 0,
        s >= 0,
        t >= 0,
        s % h == 0,
        t % h == 0,
        s <= p < s + h,
        t <= p < t + h,
    ensures
        s == t,
{
    lemma_fundamental_div_mod(s, h);
    lemma_fundamental_div_mod(t, h);
    let a = s / h;
    let b = t / h;
    assert(a == b) by (nonlinear_arith)
        requires
            s == h * a,
            t == h * b,
            s - t < h,
            t - s < h,
            h > 0,
    ;
}

/// In disjoint buffers, at most one buffer holds a byte, and the overlay shows
/// that buffer's copy of it.
proof fn lemma_overlay_held<'a, const BUF_SIZE: usize>(
    bufs: Seq<Buffer<'a, BUF_SIZE>>,
    dev: Seq<u8>,
    p: int,
    i: int,
    h: int,
)
    requires
        0 < h <= BUF_SIZE,
        disjoint(bufs, h),
        0 <= i < bufs.len(),
        holds(bufs[i], p, h),
    ensures
        overlay_byte(bufs, dev, p, h) == bufs[i].buffer.bytes_view()[p - bufs[i].stored_block],
{
    let j = choose|j: int| 0 <= j < bufs.len() && #[trigger] holds(bufs[j], p, h);
    assert(holds(bufs[j], p, h));
    if j != i {
        lemma_aligned_overlap(
            bufs[i].stored_block as int,
            bufs[j].stored_block as int,
            p,
            h,
        );
    }
}

/// A byte that no buffer holds is shown as the device holds it.
proof fn lemma_overlay_free<'a, const BUF_SIZE: usize>(
    bufs: Seq<Buffer<'a, BUF_SIZE>>,
    dev: Seq<u8>,
    p: int,
    h: int,
)
    requires
        forall|i: int| 0 <= i < bufs.len() ==> !#[trigger] holds(bufs[i], p, h),
    ensures
        overlay_byte(bufs, dev, p, h) == dev[p],
{
}

/// A byte of an aligned hardware block has that block's offset as the offset
/// of its hardware block.
proof fn lemma_byte_in_block(s: int, p: int, h: int)
    requires
        h > 0,
        s >= 0,
        s % h == 0,
        s <= p < s + h,
    ensures
        p - p % h == s,
{
    lemma_fundamental_div_mod(p, h);
    vstd::arithmetic::div_mod::lemma_mod_multiples_basic(p / h, h);
    assert((p / h) * h == h * (p / h)) by (nonlinear_arith);
    lemma_aligned_overlap(s, p - p % h, p, h);
}

/// A later byte lies in the same or a later hardware block.
proof fn lemma_block_monotone(a: int, b: int, h: int)
    requires
        0 <= a <= b,
        h > 0,
    ensures
        a - a % h <= b - b % h,
{
    lemma_fundamental_div_mod(a, h);
    lemma_fundamental_div_mod(b, h);
    vstd::arithmetic::div_mod::lemma_div_is_ordered(a, b, h);
    let x = a / h;
    let y = b / h;
    assert(h * x <= h * y) by (nonlinear_arith)
        requires
            x <= y,
            h > 0,
    ;
}

/// Where a virtual block lies within its hardware block, when the virtual
/// block size `v` divides the hardware block size `h`.
proof fn lemma_block_offsets(x: int, v: int, h: int)
    requires
        x >= 0,
        v > 0,
        h > 0,
        h % v == 0,
        x % v == 0,
    ensures
        (x / h) * h == x - x % h,
        ((x / h) * h) % h == 0,
        0 <= x % h < h,
        (x % h) % v == 0,
        x % h + v <= h,
{
    lemma_fundamental_div_mod(x, h);
    assert((x / h) * h == h * (x / h)) by (nonlinear_arith);
    vstd::arithmetic::div_mod::lemma_mod_multiples_basic(x / h, h);
    lemma_fundamental_div_mod(h, v);
    let m = h / v;
    assert(h == v * m);
    lemma_mod_mod(x, v, m);
    assert((x % h) % v == 0);
    let r = x % h;
    lemma_fundamental_div_mod(r, v);
    let i = r / v;
    assert(r == v * i);
    assert(r + v <= h) by (nonlinear_arith)
        requires
            r == v * i,
            h == v * m,
            r < h,
            v > 0,
    ;
}

/// Every held block lies on the device `dev`, and every buffer that was not
/// changed holds what `dev` holds there.
spec fn agrees<'a, const BUF_SIZE: usize>(bufs: Seq<Buffer<'a, BUF_SIZE>>, dev: Seq<u8>, h: int) -> bool {
    &&& forall|i: int|
        0 <= i < bufs.len() && bufs[i].status != BlockTranslatorStatus::Unknown
            ==> #[trigger] bufs[i].stored_block + h <= dev.len()
    &&& forall|i: int|
        0 <= i < bufs.len() && bufs[i].status == BlockTranslatorStatus::Read
            ==> #[trigger] bufs[i].buffer.bytes_view().subrange(0, h) == dev.subrange(
            bufs[i].stored_block as int,
            bufs[i].stored_block + h,
        )
}

/// A change of the device inside the block of a changed buffer is hidden by
/// that buffer: the overlay and the agreement stay as they were.
proof fn lemma_change_under_modified<'a, const BUF_SIZE: usize>(
    bufs: Seq<Buffer<'a, BUF_SIZE>>,
    d0: Seq<u8>,
    d1: Seq<u8>,
    idx: int,
    h: int,
)
    requires
        0 < h <= BUF_SIZE,
        disjoint(bufs, h),
        agrees(bufs, d0, h),
        0 <= idx < bufs.len(),
        bufs[idx].status == BlockTranslatorStatus::Modified,
        d1.len() == d0.len(),
        forall|p: int| 0 <= p < d0.len() && !holds(bufs[idx], p, h) ==> #[trigger] d1[p] == d0[p],
    ensures
        overlay(bufs, d1, h) == overlay(bufs, d0, h),
        agrees(bufs, d1, h),
{
    let s = bufs[idx].stored_block as int;
    assert forall|p: int| 0 <= p < d0.len() implies #[trigger] overlay(bufs, d1, h)[p] == overlay(
        bufs,
        d0, h,
    )[p] by {
        if exists|j: int| 0 <= j < bufs.len() && #[trigger] holds(bufs[j], p, h) {
            let j = choose|j: int| 0 <= j < bufs.len() && #[trigger] holds(bufs[j], p, h);
            lemma_overlay_held(bufs, d1, p, j, h);
            lemma_overlay_held(bufs, d0, p, j, h);
        } else {
            lemma_overlay_free(bufs, d1, p, h);
            lemma_overlay_free(bufs, d0, p, h);
            assert(!holds(bufs[idx], p, h));
        }
    }
    assert(overlay(bufs, d1, h) =~= overlay(bufs, d0, h));
    assert forall|j: int|
        0 <= j < bufs.len() && bufs[j].status
            == BlockTranslatorStatus::Read implies #[trigger] bufs[j].buffer.bytes_view().subrange(0, h)
        == d1.subrange(bufs[j].stored_block as int, bufs[j].stored_block + h) by {
        let sj = bufs[j].stored_block as int;
        assert(bufs[j].buffer.bytes_view().subrange(0, h) == d0.subrange(sj, sj + h));
        assert forall|p: int| sj <= p < sj + h implies #[trigger] d1[p] == d0[p] by {
            if holds(bufs[idx], p, h) {
                lemma_aligned_overlap(s, sj, p, h);
            }
        }
        assert(d1.subrange(sj, sj + h) =~= d0.subrange(sj, sj + h));
    }
}

/// A buffer that lets go of its block, once the device holds what the buffer
/// held there, leaves the overlay and the agreement as they were.
proof fn lemma_release<'a, const BUF_SIZE: usize>(
    b0: Seq<Buffer<'a, BUF_SIZE>>,
    d0: Seq<u8>,
    b1: Seq<Buffer<'a, BUF_SIZE>>,
    d1: Seq<u8>,
    idx: int,
    h: int,
)
    requires
        0 < h <= BUF_SIZE,
        disjoint(b0, h),
        disjoint(b1, h),
        agrees(b0, d0, h),
        0 <= idx < b0.len(),
        b1.len() == b0.len(),
        forall|j: int| 0 <= j < b0.len() && j != idx ==> #[trigger] b1[j] == b0[j],
        b1[idx].status == BlockTranslatorStatus::Unknown,
        d1.len() == d0.len(),
        forall|p: int| 0 <= p < d0.len() && !holds(b0[idx], p, h) ==> #[trigger] d1[p] == d0[p],
        forall|p: int|
            0 <= p < d0.len() && holds(b0[idx], p, h) ==> #[trigger] d1[p]
                == b0[idx].buffer.bytes_view()[p - b0[idx].stored_block],
    ensures
        overlay(b1, d1, h) == overlay(b0, d0, h),
        agrees(b1, d1, h),
{
    assert forall|p: int| 0 <= p < d0.len() implies #[trigger] overlay(b1, d1, h)[p] == overlay(
        b0,
        d0, h,
    )[p] by {
        if exists|j: int| 0 <= j < b1.len() && #[trigger] holds(b1[j], p, h) {
            let j = choose|j: int| 0 <= j < b1.len() && #[trigger] holds(b1[j], p, h);
            assert(j != idx);
            assert(b1[j] == b0[j]);
            lemma_overlay_held(b1, d1, p, j, h);
            lemma_overlay_held(b0, d0, p, j, h);
            if holds(b0[idx], p, h) {
                lemma_aligned_overlap(
                    b0[idx].stored_block as int,
                    b0[j].stored_block as int,
                    p,
                    h,
                );
            }
        } else {
            lemma_overlay_free(b1, d1, p, h);
            if holds(b0[idx], p, h) {
                lemma_overlay_held(b0, d0, p, idx, h);
            } else {
                assert forall|j: int| 0 <= j < b0.len() implies !#[trigger] holds(b0[j], p, h) by {
                    if j != idx {
                        assert(b1[j] == b0[j]);
                        assert(!holds(b1[j], p, h));
                    }
                }
                lemma_overlay_free(b0, d0, p, h);
            }
        }
    }
    assert(overlay(b1, d1, h) =~= overlay(b0, d0, h));
    assert forall|j: int|
        0 <= j < b1.len() && b1[j].status
            != BlockTranslatorStatus::Unknown implies #[trigger] b1[j].stored_block + h
        <= d1.len() by {
        assert(b1[j] == b0[j]);
    }
    assert forall|j: int|
        0 <= j < b1.len() && b1[j].status
            == BlockTranslatorStatus::Read implies #[trigger] b1[j].buffer.bytes_view().subrange(0, h)
        == d1.subrange(b1[j].stored_block as int, b1[j].stored_block + h) by {
        assert(b1[j] == b0[j]);
        let sj = b0[j].stored_block as int;
        assert(b0[j].buffer.bytes_view().subrange(0, h) == d0.subrange(sj, sj + h));
        assert forall|p: int| sj <= p < sj + h implies #[trigger] d1[p] == d0[p] by {
            if holds(b0[idx], p, h) {
                lemma_aligned_overlap(b0[idx].stored_block as int, sj, p, h);
            }
        }
        assert(d1.subrange(sj, sj + h) =~= d0.subrange(sj, sj + h));
    }
}

/// What buffers that hold no block contain does not matter.
proof fn lemma_unknown_ignored<'a, const BUF_SIZE: usize>(
    b0: Seq<Buffer<'a, BUF_SIZE>>,
    b1: Seq<Buffer<'a, BUF_SIZE>>,
    d: Seq<u8>,
    h: int,
)
    requires
        0 < h <= BUF_SIZE,
        disjoint(b0, h),
        disjoint(b1, h),
        b1.len() == b0.len(),
        forall|i: int|
            #![trigger b1[i]]
            0 <= i < b0.len() ==> {
                &&& b1[i].status == b0[i].status
                &&& b0[i].status != BlockTranslatorStatus::Unknown ==> {
                    &&& b1[i].stored_block == b0[i].stored_block
                    &&& b1[i].buffer.bytes_view() == b0[i].buffer.bytes_view()
                }
            },
    ensures
        overlay(b1, d, h) == overlay(b0, d, h),
        agrees(b0, d, h) ==> agrees(b1, d, h),
{
    assert forall|i: int, p: int| 0 <= i < b0.len() implies #[trigger] holds(b1[i], p, h) == holds(
        b0[i],
        p, h,
    ) by {
        assert(b1[i].status == b0[i].status);
    }
    assert forall|p: int| 0 <= p < d.len() implies #[trigger] overlay(b1, d, h)[p] == overlay(b0, d, h)[p] by {
        if exists|j: int| 0 <= j < b1.len() && #[trigger] holds(b1[j], p, h) {
            let j = choose|j: int| 0 <= j < b1.len() && #[trigger] holds(b1[j], p, h);
            assert(holds(b0[j], p, h));
            lemma_overlay_held(b1, d, p, j, h);
            lemma_overlay_held(b0, d, p, j, h);
        } else {
            assert forall|j: int| 0 <= j < b0.len() implies !#[trigger] holds(b0[j], p, h) by {
                assert(!holds(b1[j], p, h));
            }
            lemma_overlay_free(b1, d, p, h);
            lemma_overlay_free(b0, d, p, h);
        }
    }
    assert(overlay(b1, d, h) =~= overlay(b0, d, h));
    if agrees(b0, d, h) {
        assert forall|j: int|
            0 <= j < b1.len() && b1[j].status
                != BlockTranslatorStatus::Unknown implies #[trigger] b1[j].stored_block
            + h <= d.len() by {
            assert(b1[j].status == b0[j].status);
        }
        assert forall|j: int|
            0 <= j < b1.len() && b1[j].status
                == BlockTranslatorStatus::Read implies #[trigger] b1[j].buffer.bytes_view().subrange(0, h)
            == d.subrange(b1[j].stored_block as int, b1[j].stored_block + h) by {
            assert(b1[j].status == b0[j].status);
        }
    }
}

/// Loading the hardware block at `start` into buffer `idx`, after the block
/// that the buffer held has been written back to the device, leaves the
/// overlay as it was.
proof fn lemma_load_keeps_overlay<'a, const BUF_SIZE: usize>(
    old_bufs: Seq<Buffer<'a, BUF_SIZE>>,
    old_dev: Seq<u8>,
    new_bufs: Seq<Buffer<'a, BUF_SIZE>>,
    new_dev: Seq<u8>,
    idx: int,
    start: int,
    h: int,
)
    requires
        0 < h <= BUF_SIZE,
        disjoint(old_bufs, h),
        disjoint(new_bufs, h),
        0 <= idx < old_bufs.len(),
        new_bufs.len() == old_bufs.len(),
        old_dev.len() == new_dev.len(),
        forall|j: int| 0 <= j < old_bufs.len() && j != idx ==> #[trigger] new_bufs[j] == old_bufs[j],
        new_bufs[idx].status == BlockTranslatorStatus::Read,
        new_bufs[idx].stored_block == start,
        start + h <= new_dev.len(),
        new_bufs[idx].buffer.bytes_view().subrange(0, h) == new_dev.subrange(start, start + h),
        forall|j: int|
            0 <= j < old_bufs.len() && old_bufs[j].status != BlockTranslatorStatus::Unknown
                ==> #[trigger] old_bufs[j].stored_block != start,
        // the device changed only inside the block that buffer idx held, and
        // there it now holds that buffer's bytes
        forall|p: int|
            0 <= p < old_dev.len() && !holds(old_bufs[idx], p, h) ==> #[trigger] new_dev[p]
                == old_dev[p],
        forall|p: int|
            0 <= p < old_dev.len() && holds(old_bufs[idx], p, h) ==> #[trigger] new_dev[p]
                == old_bufs[idx].buffer.bytes_view()[p - old_bufs[idx].stored_block],
    ensures
        overlay(new_bufs, new_dev, h) == overlay(old_bufs, old_dev, h),
{
    assert forall|p: int| 0 <= p < old_dev.len() implies #[trigger] overlay(new_bufs, new_dev, h)[p]
        == overlay(old_bufs, old_dev, h)[p] by {
        if holds(new_bufs[idx], p, h) {
            lemma_overlay_held(new_bufs, new_dev, p, idx, h);
            new_bufs[idx].buffer.lemma_len();
            // no old buffer held the new block
            assert forall|j: int| 0 <= j < old_bufs.len() implies !#[trigger] holds(
                old_bufs[j],
                p, h,
            ) by {
                if holds(old_bufs[j], p, h) {
                    assert(old_bufs[j].stored_block as int % h == 0);
                    assert(new_bufs[idx].stored_block as int % h == 0);
                    lemma_aligned_overlap(
                        old_bufs[j].stored_block as int,
                        start,
                        p,
                        h,
                    );
                }
            }
            lemma_overlay_free(old_bufs, old_dev, p, h);
            // the loaded buffer shows what the device holds there
            assert(new_bufs[idx].buffer.bytes_view().subrange(0, h)[p - start]
                == new_bufs[idx].buffer.bytes_view()[p - start]);
            assert(new_dev.subrange(start, start + h)[p - start] == new_dev[p]);
        } else if exists|j: int| 0 <= j < new_bufs.len() && #[trigger] holds(new_bufs[j], p, h) {
            let j = choose|j: int| 0 <= j < new_bufs.len() && #[trigger] holds(new_bufs[j], p, h);
            assert(j != idx);
            lemma_overlay_held(new_bufs, new_dev, p, j, h);
            lemma_overlay_held(old_bufs, old_dev, p, j, h);
        } else {
            lemma_overlay_free(new_bufs, new_dev, p, h);
            if holds(old_bufs[idx], p, h) {
                lemma_overlay_held(old_bufs, old_dev, p, idx, h);
            } else {
                assert forall|j: int| 0 <= j < old_bufs.len() implies !#[trigger] holds(
                    old_bufs[j],
                    p, h,
                ) by {
                    if j != idx {
                        assert(new_bufs[j] == old_bufs[j]);
                    }
                }
                lemma_overlay_free(old_bufs, old_dev, p, h);
            }
        }
    }
    assert(overlay(new_bufs, new_dev, h) =~= overlay(old_bufs, old_dev, h));
}

/// Two buffers hold the same block, in the same state and memory.
spec fn same_block<'a, const BUF_SIZE: usize>(a: Buffer<'a, BUF_SIZE>, b: Buffer<'a, BUF_SIZE>) -> bool {
    &&& a.buffer == b.buffer
    &&& a.stored_block == b.stored_block
    &&& a.status == b.status
}

/// The "timestamps" of the buffers, in buffer order.
spec fn ages<'a, const BUF_SIZE: usize>(bufs: Seq<Buffer<'a, BUF_SIZE>>) -> Seq<usize> {
    bufs.map_values(|b: Buffer<'a, BUF_SIZE>| b.last_used)
}

/// Translate between different hardware and software "virtual" block sizes.
///
/// This is useful if, for example the underlying flash can only be written in
/// 64 KiB blocks, but of course 512 byte blocks are used by fat.
/// (In some cases 1, 2 or 4 KiB blocks are used by fat, depending on how
/// it's formatted but it's always ok to have a smaller block size.)
///
/// This is done by creating one or more buffer(s) in the size of a hardware
/// block and the smaller virtual blocks are read/written into the buffer.
///
/// Always use flush on the translation layer, which will save the current
/// block buffer(s) if needed.
///
/// The following must hold true:
/// * number of buffers (BUFS) must be greater than zero
/// * all block sizes (VBS, READ_SIZE, WRITE_SIZE, ERASE_SIZE) must be a power of two
/// * 0 < READ_SIZE <= VBS <= ERASE_SIZE <= BUF_SIZE
/// * READ_SIZE <= WRITE_SIZE <= ERASE_SIZE
///
/// A buffer holds one hardware block in its first ERASE_SIZE bytes; where
/// BUF_SIZE is larger, the bytes after them are not read from or written to
/// the device.
#[derive(Debug)]
pub struct NorFlashTranslator<
    'a,
    const VBS: u32,
    const BUF_SIZE: usize,
    const BUFS: usize,
    S: NorFlashStorage,
> {
    buffers: Vec<Buffer<'a, BUF_SIZE>>,
    storage: S,
    /// BUFS==1: unused
    /// BUFS==2: buffer number of the last used buffer
    /// BUFS>=3: next "timestamp" to be used
    next: usize,
}

impl<'a, const VBS: u32, const BUF_SIZE: usize, const BUFS: usize, S: NorFlashStorage>
    NorFlashTranslator<'a, VBS, BUF_SIZE, BUFS, S> {
    /// The sizes that a translator can be built with.
    pub open spec fn geometry_ok() -> bool {
        &&& 0 < BUFS < usize::MAX
        &&& is_power_of_two(VBS as int)
        &&& is_power_of_two(S::READ_SIZE as int)
        &&& is_power_of_two(S::WRITE_SIZE as int)
        &&& is_power_of_two(S::ERASE_SIZE as int)
        &&& 0 < S::READ_SIZE <= VBS <= S::ERASE_SIZE
        &&& S::ERASE_SIZE <= BUF_SIZE
        &&& S::READ_SIZE <= S::WRITE_SIZE <= S::ERASE_SIZE
        &&& S::ERASE_SIZE <= u32::MAX
    }

    /// The size of a hardware block: the erase size of the device.
    pub open spec fn hw() -> int {
        S::ERASE_SIZE as int
    }

    /// The structural invariant of the translator.
    pub closed spec fn wf(&self) -> bool {
        let bufs = self.buffers@;
        &&& Self::geometry_ok()
        &&& bufs.len() == BUFS
        &&& disjoint(bufs, Self::hw())
        &&& forall|i: int|
            0 <= i < bufs.len() && bufs[i].status == BlockTranslatorStatus::Modified
                ==> #[trigger] bufs[i].stored_block + Self::hw() <= u32::MAX
        &&& BUFS == 2 ==> self.next < 2
        &&& BUFS >= 3 ==> {
            &&& BUFS <= self.next
            &&& forall|i: int| 0 <= i < bufs.len() ==> #[trigger] bufs[i].last_used < self.next
            &&& forall|i: int, j: int|
                0 <= i < bufs.len() && 0 <= j < bufs.len() && i != j ==> #[trigger] bufs[i].last_used
                    != #[trigger] bufs[j].last_used
        }
    }

    /// The buffers agree with the device: every held block lies on the device
    /// and every buffer that was not changed holds what the device holds.
    ///
    /// This is the invariant of the translator: every constructor establishes
    /// it and every method keeps it, whether the device calls succeed or fail.
    pub closed spec fn consistent(&self) -> bool {
        &&& self.wf()
        &&& agrees(self.buffers@, self.storage.contents(), Self::hw())
    }

    /// The bytes that the underlying device holds.
    pub closed spec fn device(&self) -> Seq<u8> {
        self.storage.contents()
    }

    /// Whether some buffer holds changes that the device does not have yet.
    pub closed spec fn dirty(&self) -> bool {
        exists|i: int|
            0 <= i < self.buffers@.len() && #[trigger] self.buffers@[i].status
                == BlockTranslatorStatus::Modified
    }

    /// The byte offset of the hardware block that holds byte `x`.
    pub open spec fn hw_block_of(x: int) -> int {
        x - x % (Self::hw())
    }

    /// Whether byte `p` lies in the hardware block of one of bytes
    /// `start..end`.
    pub open spec fn in_blocks_of(p: int, start: int, end: int) -> bool {
        exists|q: int| start <= q < end && #[trigger] Self::hw_block_of(q) == Self::hw_block_of(p)
    }

    /// The first byte of virtual block `block`.
    pub open spec fn byte_start(block: BlockIndex) -> int {
        block.0 * VBS
    }

    /// Whether `len` bytes from virtual block `block` on can be transferred:
    /// whole virtual blocks whose hardware blocks have byte offsets that fit
    /// in a `u32` together with their size.
    pub open spec fn transfer_ok(block: BlockIndex, len: int) -> bool {
        &&& len % (VBS as int) == 0
        &&& len == 0 || Self::byte_start(block) + len + Self::hw() <= u32::MAX + 1
    }

    /// Whether a buffer holds the hardware block that starts at byte `start`.
    spec fn is_cached(&self, start: int) -> bool {
        exists|i: int|
            0 <= i < self.buffers@.len() && #[trigger] self.buffers@[i].status
                != BlockTranslatorStatus::Unknown && self.buffers@[i].stored_block == start
    }

    /// Whether the buffers hold every hardware block that bytes `start..end`
    /// of the device lie in.
    pub closed spec fn caches(&self, start: int, end: int) -> bool {
        forall|p: int| start <= p < end ==> #[trigger] self.is_cached(Self::hw_block_of(p))
    }

    /// Create a new BlockTranslator, with buffers that the caller lends it.
    ///
    /// Example:
    /// Create a BlockTranslator with 1 buffer of 65536 bytes and 512 bytes of virtual block size.
    /// ```no_compile
    /// let mut buffer = [0u8; 65536];
    /// let mut translated = BlockTranslator::<512, _, _, _>::new_with_buffer(&mut storage, [&mut buffer])?;
    /// ```
    pub fn new_with_buffer(storage: S, buffer: [&'a mut [u8; BUF_SIZE]; BUFS]) -> (r: Self)
        requires
            Self::geometry_ok(),
        ensures
            r.wf(),
            r.consistent(),
            r.device() == storage.contents(),
            r@ == storage.contents(),
            !r.dirty(),
            r.recency() == Self::first_recency(),
            forall|j: int| 0 <= j < BUFS ==> !#[trigger] r.holding(j),
            forall|j: int| 0 <= j < BUFS ==> #[trigger] r.bytes_of(j) == (*buffer@[j])@,
    {
        let mut lent = array_into_vec(buffer);
        let ghost given = lent@;
        let mut buffers: Vec<BufferLocation<'a, BUF_SIZE>> = Vec::new();
        let ghost n = lent@.len();
        proof {
            broadcast use vstd::array::group_array_axioms;

            assert(n == BUFS);
        }
        while lent.len() > 0
            invariant
                buffers@.len() + lent@.len() == n,
                n == BUFS,
                given.len() == n,
                forall|j: int|
                    0 <= j < lent@.len() ==> #[trigger] lent@[j] == given[buffers@.len() + j],
                forall|j: int|
                    0 <= j < buffers@.len() ==> #[trigger] buffers@[j].bytes_view() == (*given[j])@,
            decreases lent@.len(),
        {
            let ghost k = buffers@.len();
            assert(lent@[0] == given[k as int]);
            let b = lent.remove(0);
            buffers.push(BufferLocation::Borrowed(b));
            proof {
                assert(buffers@[k as int].bytes_view() == (*given[k as int])@);
            }
        }
        let r = Self::new_internal(storage, buffers);
        proof {
            assert forall|j: int| 0 <= j < BUFS implies #[trigger] r.bytes_of(j)
                == (*buffer@[j])@ by {
                assert(!r.holding(j));
                assert(r.buffers@[j].buffer == buffers@[j]);
                assert(given[j] == buffer@[j]);
            }
        }
        r
    }

    /// The bookkeeping of use of a new translator: every buffer counts as
    /// used before the next, in buffer order.
    pub open spec fn first_recency() -> (usize, Seq<usize>) {
        (
            if BUFS >= 3 {
                BUFS
            } else {
                0
            },
            Seq::new(BUFS as nat, |j: int| j as usize),
        )
    }

    /// Create a new BlockTranslator from the memory of its buffers.
    fn new_internal(storage: S, mut buffers: Vec<BufferLocation<'a, BUF_SIZE>>) -> (r: Self)
        requires
            Self::geometry_ok(),
            buffers@.len() == BUFS,
        ensures
            r.wf(),
            r.consistent(),
            r.device() == storage.contents(),
            r@ == storage.contents(),
            !r.dirty(),
            r.recency() == Self::first_recency(),
            forall|j: int|
                0 <= j < BUFS ==> !#[trigger] r.holding(j) && r.buffers@[j].buffer == buffers@[j],
    {
        let ghost given = buffers@;
        let mut bufs: Vec<Buffer<'a, BUF_SIZE>> = Vec::new();
        let mut i: usize = 0;
        let ghost n = buffers@.len();
        while buffers.len() > 0
            invariant
                i + buffers@.len() == n,
                n == BUFS,
                Self::geometry_ok(),
                bufs@.len() == i,
                given.len() == n,
                forall|j: int|
                    #![trigger bufs@[j]]
                    0 <= j < i ==> bufs@[j].status == BlockTranslatorStatus::Unknown
                        && bufs@[j].last_used == j && bufs@[j].buffer == given[j],
                forall|j: int|
                    0 <= j < buffers@.len() ==> #[trigger] buffers@[j] == given[i + j],
            decreases buffers@.len(),
        {
            let location = buffers.remove(0);
            bufs.push(
                Buffer {
                    buffer: location,
                    stored_block: 0,
                    status: BlockTranslatorStatus::Unknown,
                    last_used: i,
                },
            );
            i = i + 1;
        }
        let r = Self { storage, buffers: bufs, next: if BUFS >= 3 { BUFS } else { 0 } };
        assert forall|p: int| 0 <= p < r.storage.contents().len() implies #[trigger] r@[p]
            == r.storage.contents()[p] by {
            lemma_overlay_free(r.buffers@, r.storage.contents(), p, Self::hw());
        }
        assert(r@ =~= r.storage.contents());
        assert(ages(r.buffers@) =~= Seq::new(BUFS as nat, |j: int| j as usize));
        r
    }

    /// The size of a virtual block in bytes.
    #[inline]
    pub fn block_size(&self) -> (r: BlockSize)
        ensures
            r == VBS,
    {
        VBS
    }

    /// The number of whole virtual blocks that the device holds.
    #[inline]
    pub fn block_count(&self) -> (r: BlockCount)
        requires
            self.consistent(),
            self.device().len() / (VBS as nat) <= u32::MAX,
        ensures
            r.0 == self.device().len() / (VBS as nat),
    {
        proof {
            lemma_power_of_two_divides(VBS as int, VBS as int);
        }
        let capacity = self.storage.capacity();
        let count = capacity / (VBS as usize);
        BlockIndex(count as u32)
    }

    /// Whether `len` bytes from virtual block `block` on can be read: whole
    /// virtual blocks, at byte offsets and block indices that fit in a `u32`.
    pub open spec fn read_ok(block: BlockIndex, len: int) -> bool {
        &&& len % (VBS as int) == 0
        &&& len == 0 || {
            &&& Self::byte_start(block) + len <= u32::MAX + 1
            &&& block.0 + len / (VBS as int) <= u32::MAX
        }
    }

    /// Read `buf.len()` bytes from virtual block `block_in_vbs` on.
    ///
    /// The bytes the translator presents stay as they were, whatever the
    /// device answers, and no buffer becomes changed. On an error, the virtual
    /// blocks before the one that failed have been copied into `buf` and the
    /// rest of `buf` is as it was.
    pub fn read(&mut self, block_in_vbs: BlockIndex, buf: &mut [u8]) -> (r: Result<
        (),
        NorFlashError<S::Error>,
    >)
        requires
            old(self).consistent(),
            Self::read_ok(block_in_vbs, old(buf)@.len() as int),
        ensures
            final(self).consistent(),
            final(self)@ == old(self)@,
            final(self).device().len() == old(self).device().len(),
            forall|p: int|
                0 <= p < old(self).device().len() && !old(self).in_changed_block(p)
                    ==> #[trigger] final(self).device()[p] == old(self).device()[p],
            final(self).dirty() ==> old(self).dirty(),
            final(self).same_answers(old(self)),
            // an error comes from loading a block of the range or from saving
            // a changed buffer
            r is Err ==> (exists|q: int|
                Self::byte_start(block_in_vbs) <= q < Self::byte_start(block_in_vbs) + old(buf)@.len()
                    && old(self).may_fail_load(#[trigger] Self::hw_block_of(q))) || (exists|j: int|
                0 <= j < BUFS && #[trigger] old(self).changed(j) && old(self).may_fail_save(
                    old(self).block_of(j),
                )),
            final(buf)@.len() == old(buf)@.len(),
            r is Ok ==> {
                let start = Self::byte_start(block_in_vbs);
                old(buf)@.len() > 0 ==> start + old(buf)@.len() <= old(self)@.len()
                    && final(buf)@ == old(self)@.subrange(start, start + old(buf)@.len())
            },
            r is Err ==> exists|done: int|
                #![trigger done % (VBS as int)]
                {
                    let start = Self::byte_start(block_in_vbs);
                    &&& 0 <= done < old(buf)@.len()
                    &&& done % (VBS as int) == 0
                    &&& done == 0 || start + done <= old(self)@.len()
                    &&& forall|q: int|
                        0 <= q < done ==> #[trigger] final(buf)@[q] == old(self)@[start + q]
                    &&& forall|q: int|
                        done <= q < old(buf)@.len() ==> #[trigger] final(buf)@[q]
                            == old(buf)@[q]
                },
            old(buf)@.len() == 0 ==> r is Ok && *final(self) == *old(self),
            r is Ok && old(buf)@.len() > 0 ==> final(self).caches(
                Self::byte_start(block_in_vbs) + old(buf)@.len() - VBS,
                Self::byte_start(block_in_vbs) + old(buf)@.len(),
            ),
            old(self).caches(
                Self::byte_start(block_in_vbs),
                Self::byte_start(block_in_vbs) + old(buf)@.len(),
            ) ==> r is Ok && final(self).device() == old(self).device(),
    {
        let v = VBS as usize;
        let ghost start = Self::byte_start(block_in_vbs);
        let ghost len = buf@.len() as int;
        let ghost n = len / (v as int);
        let ghost mut k: int = 0;
        let mut block = block_in_vbs;
        let mut pos: usize = 0;
        proof {
            lemma_power_of_two_divides(VBS as int, S::ERASE_SIZE as int);
            vstd::arithmetic::div_mod::lemma_fundamental_div_mod(len, v as int);
        }
        while pos < buf.len()
            invariant
                self.consistent(),
                old(self).buffers@.len() == BUFS,
                self@ == old(self)@,
                self.storage.contents().len() == old(self).storage.contents().len(),
                self.same_answers(old(self)),
                forall|j: int|
                    0 <= j < BUFS && #[trigger] self.changed(j) ==> old(self).changed(j)
                        && self.block_of(j) == old(self).block_of(j),
                forall|p: int|
                    0 <= p < old(self).device().len() && !old(self).in_changed_block(p)
                        ==> #[trigger] self.device()[p] == old(self).device()[p],
                forall|p: int| #[trigger] self.in_changed_block(p) ==> old(self).in_changed_block(p),
                forall|j: int|
                    0 <= j < BUFS && #[trigger] self.buffers@[j].status
                        == BlockTranslatorStatus::Modified ==> old(self).buffers@[j].status
                        == BlockTranslatorStatus::Modified,
                v == VBS,
                v > 0,
                buf@.len() == len,
                len == old(buf)@.len(),
                len == v * n,
                Self::read_ok(block_in_vbs, len),
                pos <= len,
                pos == k * v,
                0 <= k,
                block.0 == block_in_vbs.0 + k,
                block.0 * VBS == start + pos,
                start == Self::byte_start(block_in_vbs),
                self.storage.contents() == old(self).storage.contents() || !old(self).caches(
                    start,
                    start + len,
                ),
                old(self).caches(start, start + len) ==> self.caches(start, start + len),
                len == 0 ==> *self == *old(self),
                pos > 0 ==> self.caches(start + pos - v, start + pos),
                n == len / (VBS as int),
                pos == 0 || start + pos <= old(self)@.len(),
                forall|q: int| 0 <= q < pos ==> #[trigger] buf@[q] == old(self)@[start + q],
                forall|q: int| pos <= q < len ==> #[trigger] buf@[q] == old(buf)@[q],
            decreases len - pos,
        {
            proof {
                assert(k < n && pos + v <= len) by (nonlinear_arith)
                    requires
                        pos == k * v,
                        len == v * n,
                        pos < len,
                        v > 0,
                ;
                assert(k * v + v == (k + 1) * v) by (nonlinear_arith);
            }
            let ghost pre = *self;
            let ghost pre_buf = buf@;
            let found = self.go_to_block(block);
            proof {
                Self::lemma_changed_blocks_shrink(&pre, self);
                Self::lemma_confined_steps(old(self), &pre, self);
            }
            let (idx, offset) = match found {
                Ok(found) => found,
                Err(e) => {
                    proof {
                        let q = block.0 * VBS;
                        if pre.may_fail_load(Self::hw_block_of(q)) {
                            assert(old(self).may_fail_load(Self::hw_block_of(q)));
                        } else {
                            let j = choose|j: int|
                                0 <= j < BUFS && #[trigger] pre.changed(j) && pre.may_fail_save(
                                    pre.block_of(j),
                                );
                            assert(old(self).changed(j));
                            assert(old(self).may_fail_save(old(self).block_of(j)));
                        }
                        assert(pos % v == 0) by (nonlinear_arith)
                            requires
                                pos == k * v,
                                v > 0,
                        ;
                        Self::lemma_dirty_monotone(old(self), self);
                    }
                    return Err(e);
                },
            };
            proof {
                if old(self).caches(start, start + len) {
                    assert(pre.is_cached(Self::hw_block_of(block.0 * VBS)));
                    Self::lemma_caches_kept(&pre, self, start, start + len);
                }
            }
            self.buffers[idx].buffer.copy_out(offset, buf, pos, v);
            proof {
                Self::lemma_held_caches(self, idx as int, start + pos);
                let bufs = self.buffers@;
                let dev = self.storage.contents();
                let stored = bufs[idx as int].stored_block as int;
                assert(stored + Self::hw() <= dev.len());
                assert forall|q: int| 0 <= q < pos + v implies #[trigger] buf@[q] == old(self)@[start
                    + q] by {
                    if q >= pos {
                        let p = stored + offset + (q - pos);
                        assert(holds(bufs[idx as int], p, Self::hw()));
                        lemma_overlay_held(bufs, dev, p, idx as int, Self::hw());
                        assert(p == start + q);
                    } else {
                        assert(buf@[q] == pre_buf[q]);
                    }
                }
                assert forall|q: int| pos + v <= q < len implies #[trigger] buf@[q] == old(buf)@[q] by {
                    assert(buf@[q] == pre_buf[q]);
                }
                assert(len > 0);
                assert(block_in_vbs.0 + n <= u32::MAX);
                assert(block.0 + 1 <= u32::MAX) by (nonlinear_arith)
                    requires
                        block.0 == block_in_vbs.0 + k,
                        k < n,
                        block_in_vbs.0 + n <= u32::MAX,
                ;
                vstd::arithmetic::mul::lemma_mul_is_distributive_add_other_way(
                    VBS as int,
                    block.0 as int,
                    1,
                );
                k = k + 1;
            }
            pos = pos + v;
            block = BlockIndex(block.0 + 1);
        }
        proof {
            if len > 0 {
                assert(buf@ =~= old(self)@.subrange(start, start + len));
            }
            Self::lemma_dirty_monotone(old(self), self);
        }
        Ok(())
    }

    /// A buffer that is changed now was changed before: no change appeared.
    /// One step of a write: `pre` finds the block of byte `q` held in buffer
    /// `idx` of `mid`, and `post` marks that buffer changed. Bytes that the
    /// device changed since `start` stay outside the blocks that hold changes
    /// made since `start`.
    proof fn lemma_write_step_keeps_device(
        start: &Self,
        pre: &Self,
        mid: &Self,
        post: &Self,
        idx: int,
        q: int,
        started: bool,
    )
        requires
            pre.consistent(),
            mid.consistent(),
            post.wf(),
            0 <= idx < BUFS,
            q >= 0,
            q % (VBS as int) == 0,
            (S::ERASE_SIZE as int) % (VBS as int) == 0,
            VBS > 0,
            pre.device().len() == start.device().len(),
            mid.device().len() == pre.device().len(),
            post.device() == mid.device(),
            post.buffers@.len() == BUFS,
            mid.buffers@.len() == BUFS,
            forall|j: int| 0 <= j < BUFS && j != idx ==> #[trigger] post.buffers@[j] == mid.buffers@[j],
            post.buffers@[idx].status == BlockTranslatorStatus::Modified,
            post.buffers@[idx].stored_block == mid.buffers@[idx].stored_block,
            mid.buffers@[idx].stored_block == Self::hw_block_of(q),
            // what the loop knew before the step
            forall|p: int|
                #[trigger] pre.in_changed_block(p) && !start.in_changed_block(p) ==> started
                    && Self::hw_block_of(p) <= Self::hw_block_of(q - 1),
            forall|p: int|
                0 <= p < start.device().len() && #[trigger] pre.device()[p]
                    != start.device()[p] && !start.in_changed_block(p) ==> {
                    &&& !pre.in_changed_block(p)
                    &&& started
                    &&& Self::hw_block_of(p) <= Self::hw_block_of(q - 1)
                },
            started ==> pre.in_changed_block(q - 1),
            // what the step to mid did
            forall|p: int| #[trigger] mid.in_changed_block(p) ==> pre.in_changed_block(p),
            forall|p: int|
                0 <= p < pre.device().len() && !pre.in_changed_block(p)
                    ==> #[trigger] mid.device()[p] == pre.device()[p],
            forall|p: int|
                0 <= p < pre.device().len() && #[trigger] mid.in_changed_block(p)
                    ==> mid.device()[p] == pre.device()[p],
            pre.is_cached(Self::hw_block_of(q)) ==> {
                &&& mid.storage == pre.storage
                &&& forall|i: int|
                    0 <= i < BUFS ==> same_block(#[trigger] mid.buffers@[i], pre.buffers@[i])
            },
        ensures
            forall|p: int|
                #[trigger] post.in_changed_block(p) && !start.in_changed_block(p)
                    ==> Self::hw_block_of(p) <= Self::hw_block_of(q + VBS - 1),
            forall|p: int|
                0 <= p < start.device().len() && #[trigger] post.device()[p]
                    != start.device()[p] && !start.in_changed_block(p) ==> {
                    &&& !post.in_changed_block(p)
                    &&& Self::hw_block_of(p) <= Self::hw_block_of(q + VBS - 1)
                },
            post.in_changed_block(q + VBS - 1),
    {
        let h = Self::hw();
        let zq = Self::hw_block_of(q);
        lemma_block_offsets(q, VBS as int, h);
        lemma_byte_in_block(zq, q + VBS - 1, h);
        if started {
            lemma_block_monotone(q - 1, q, h);
        }
        let same = started && Self::hw_block_of(q - 1) == zq;
        if same {
            // the block of `q` was held changed already, so the step was a hit
            let j0 = choose|j: int|
                0 <= j < BUFS && #[trigger] pre.changed(j) && pre.block_of(j) <= q - 1
                    < pre.block_of(j) + h;
            assert(pre.buffers@[j0].status != BlockTranslatorStatus::Unknown);
            lemma_byte_in_block(pre.block_of(j0), q - 1, h);
            assert(pre.is_cached(zq));
            assert forall|p: int| zq <= p < zq + h implies #[trigger] mid.in_changed_block(p) by {
                assert(same_block(mid.buffers@[j0], pre.buffers@[j0]));
                assert(mid.changed(j0));
            }
        }
        assert forall|p: int| #[trigger] post.in_changed_block(p) implies mid.in_changed_block(p)
            || (p >= 0 ==> Self::hw_block_of(p) == zq) by {
            let j = choose|j: int|
                0 <= j < BUFS && #[trigger] post.changed(j) && post.block_of(j) <= p
                    < post.block_of(j) + h;
            if j == idx {
                lemma_byte_in_block(zq, p, h);
            } else {
                assert(post.buffers@[j] == mid.buffers@[j]);
                assert(mid.changed(j));
            }
        }
        assert forall|p: int|
            #[trigger] post.in_changed_block(p) && !start.in_changed_block(p) implies Self::hw_block_of(
            p,
        ) <= Self::hw_block_of(q + VBS - 1) by {
            if mid.in_changed_block(p) {
                assert(pre.in_changed_block(p));
            } else {
                let j = choose|j: int|
                    0 <= j < BUFS && #[trigger] post.changed(j) && post.block_of(j) <= p
                        < post.block_of(j) + h;
            }
        }
        assert forall|p: int|
            0 <= p < start.device().len() && #[trigger] post.device()[p] != start.device()[p]
                && !start.in_changed_block(p) implies !post.in_changed_block(p)
            && Self::hw_block_of(p) <= Self::hw_block_of(q + VBS - 1) by {
            if mid.device()[p] == pre.device()[p] {
                assert(pre.device()[p] != start.device()[p]);
                assert(!pre.in_changed_block(p));
            } else {
                assert(pre.in_changed_block(p));
            }
            assert(!mid.in_changed_block(p));
            assert(started && Self::hw_block_of(p) <= Self::hw_block_of(q - 1));
            if post.in_changed_block(p) {
                assert(Self::hw_block_of(p) == zq);
                if same {
                    assert(p - p % h == zq);
                    assert(mid.in_changed_block(p));
                }
            }
        }
        assert(post.changed(idx));
    }

    /// A buffer that holds the hardware block of bytes `q..q + VBS` caches
    /// them.
    proof fn lemma_held_caches(t: &Self, idx: int, q: int)
        requires
            t.wf(),
            0 <= idx < BUFS,
            t.buffers@[idx].status != BlockTranslatorStatus::Unknown,
            t.buffers@[idx].stored_block <= q,
            q + VBS <= t.buffers@[idx].stored_block + Self::hw(),
        ensures
            t.caches(q, q + VBS),
    {
        let s0 = t.buffers@[idx].stored_block as int;
        assert(s0 % Self::hw() == 0);
        assert forall|p: int| q <= p < q + VBS implies #[trigger] t.is_cached(Self::hw_block_of(p)) by {
            lemma_byte_in_block(s0, p, Self::hw());
            assert(t.buffers@[idx].stored_block == Self::hw_block_of(p));
        }
    }

    proof fn lemma_dirty_monotone(old_t: &Self, new_t: &Self)
        requires
            old_t.buffers@.len() == BUFS,
            new_t.buffers@.len() == BUFS,
            forall|j: int|
                0 <= j < BUFS && #[trigger] new_t.buffers@[j].status
                    == BlockTranslatorStatus::Modified ==> old_t.buffers@[j].status
                    == BlockTranslatorStatus::Modified,
        ensures
            new_t.dirty() ==> old_t.dirty(),
    {
        if new_t.dirty() {
            let j = choose|j: int|
                0 <= j < new_t.buffers@.len() && #[trigger] new_t.buffers@[j].status
                    == BlockTranslatorStatus::Modified;
            assert(old_t.buffers@[j].status == BlockTranslatorStatus::Modified);
        }
    }

    /// Write `buf` from virtual block `block_in_vbs` on.
    ///
    /// On an error, the virtual blocks before the one that failed have been
    /// written and the rest have not.
    pub fn write(&mut self, block_in_vbs: BlockIndex, buf: &[u8]) -> (r: Result<
        (),
        NorFlashError<S::Error>,
    >)
        requires
            old(self).consistent(),
            Self::transfer_ok(block_in_vbs, buf@.len() as int),
        ensures
            final(self).consistent(),
            final(self).device().len() == old(self).device().len(),
            final(self).same_answers(old(self)),
            // an error comes from loading or saving a block of the range, or
            // from saving a buffer that was changed before
            r is Err ==> (exists|q: int|
                Self::byte_start(block_in_vbs) <= q < Self::byte_start(block_in_vbs) + buf@.len() && (
                old(self).may_fail_load(#[trigger] Self::hw_block_of(q)) || old(self).may_fail_save(
                    Self::hw_block_of(q),
                ))) || (exists|j: int|
                0 <= j < BUFS && #[trigger] old(self).changed(j) && old(self).may_fail_save(
                    old(self).block_of(j),
                )),
            r is Ok ==> forall|p: int|
                0 <= p < old(self).device().len() && #[trigger] final(self).in_changed_block(p)
                    && !old(self).in_changed_block(p) ==> final(self).device()[p]
                    == old(self).device()[p],
            forall|p: int|
                0 <= p < old(self).device().len() && !old(self).in_changed_block(p)
                    && !Self::in_blocks_of(
                    p,
                    Self::byte_start(block_in_vbs),
                    Self::byte_start(block_in_vbs) + buf@.len(),
                ) ==> #[trigger] final(self).device()[p] == old(self).device()[p],
            r is Ok ==> {
                let start = Self::byte_start(block_in_vbs);
                &&& buf@.len() > 0 ==> start + buf@.len() <= old(self)@.len()
                &&& final(self)@ == overwritten(old(self)@, start, buf@)
            },
            r is Err ==> exists|done: int|
                #![trigger buf@.subrange(0, done)]
                {
                    let start = Self::byte_start(block_in_vbs);
                    &&& 0 <= done < buf@.len()
                    &&& done % (VBS as int) == 0
                    &&& done == 0 || start + done <= old(self)@.len()
                    &&& final(self)@ == overwritten(old(self)@, start, buf@.subrange(0, done))
                },
            buf@.len() == 0 ==> r is Ok && *final(self) == *old(self),
            r is Ok && buf@.len() > 0 ==> final(self).caches(
                Self::byte_start(block_in_vbs) + buf@.len() - VBS,
                Self::byte_start(block_in_vbs) + buf@.len(),
            ),
            old(self).caches(
                Self::byte_start(block_in_vbs),
                Self::byte_start(block_in_vbs) + buf@.len(),
            ) ==> r is Ok && final(self).device() == old(self).device(),
    {
        let v = VBS as usize;
        let ghost start = Self::byte_start(block_in_vbs);
        let ghost len = buf@.len() as int;
        let mut block = block_in_vbs;
        let mut pos: usize = 0;
        proof {
            lemma_power_of_two_divides(VBS as int, S::ERASE_SIZE as int);
        }
        while pos < buf.len()
            invariant
                self.consistent(),
                v == VBS,
                v > 0,
                buf@.len() == len,
                Self::transfer_ok(block_in_vbs, len),
                pos <= len,
                pos as int % v as int == 0,
                block.0 * VBS == start + pos,
                start == Self::byte_start(block_in_vbs),
                self.storage.contents() == old(self).storage.contents() || !old(self).caches(
                    start,
                    start + len,
                ),
                self.storage.contents().len() == old(self).storage.contents().len(),
                self.same_answers(old(self)),
                forall|j: int|
                    0 <= j < BUFS && #[trigger] self.changed(j) ==> (old(self).changed(j)
                        && self.block_of(j) == old(self).block_of(j)) || exists|q: int|
                        start <= q < start + len && self.block_of(j) == #[trigger] Self::hw_block_of(
                            q,
                        ),
                forall|p: int|
                    0 <= p < old(self).device().len() && !old(self).in_changed_block(p)
                        && !Self::in_blocks_of(p, start, start + len) ==> #[trigger] self.device()[p]
                        == old(self).device()[p],
                forall|p: int|
                    #[trigger] self.in_changed_block(p) ==> old(self).in_changed_block(p)
                        || Self::in_blocks_of(p, start, start + len),
                // a block that holds changes from this call got none to the
                // device: bytes changed so far lie in blocks left behind
                forall|p: int|
                    #[trigger] self.in_changed_block(p) && !old(self).in_changed_block(p) ==> pos > 0
                        && Self::hw_block_of(p) <= Self::hw_block_of(start + pos - 1),
                forall|p: int|
                    0 <= p < old(self).device().len() && #[trigger] self.device()[p]
                        != old(self).device()[p] && !old(self).in_changed_block(p) ==> {
                        &&& !self.in_changed_block(p)
                        &&& pos > 0
                        &&& Self::hw_block_of(p) <= Self::hw_block_of(start + pos - 1)
                    },
                pos > 0 ==> self.in_changed_block(start + pos - 1),
                old(self).caches(start, start + len) ==> self.caches(start, start + len),
                len == 0 ==> *self == *old(self),
                pos > 0 ==> self.caches(start + pos - v, start + pos),
                self@.len() == old(self)@.len(),
                pos == 0 || start + pos <= old(self)@.len(),
                forall|p: int|
                    0 <= p < self@.len() ==> #[trigger] self@[p] == if start <= p < start + pos {
                        buf@[p - start]
                    } else {
                        old(self)@[p]
                    },
            decreases len - pos,
        {
            proof {
                vstd::arithmetic::div_mod::lemma_fundamental_div_mod(pos as int, v as int);
                vstd::arithmetic::div_mod::lemma_fundamental_div_mod(len, v as int);
                let a = pos as int / v as int;
                let c = len / v as int;
                assert(pos + v <= len) by (nonlinear_arith)
                    requires
                        pos == v * a,
                        len == v * c,
                        pos < len,
                        v > 0,
                ;
            }
            let ghost pre = *self;
            let found = self.go_to_block(block);
            proof {
                Self::lemma_changed_blocks_shrink(&pre, self);
                assert forall|p: int|
                    0 <= p < old(self).device().len() && !old(self).in_changed_block(p)
                        && !Self::in_blocks_of(p, start, start + len) implies #[trigger] self.device()[p]
                    == old(self).device()[p] by {
                    assert(!pre.in_changed_block(p));
                    assert(pre.device()[p] == old(self).device()[p]);
                }
            }
            let (idx, offset) = match found {
                Ok(found) => found,
                Err(e) => {
                    proof {
                        let q0 = block.0 * VBS;
                        if pre.may_fail_load(Self::hw_block_of(q0)) {
                            assert(old(self).may_fail_load(Self::hw_block_of(q0)));
                        } else {
                            let j = choose|j: int|
                                0 <= j < BUFS && #[trigger] pre.changed(j) && pre.may_fail_save(
                                    pre.block_of(j),
                                );
                            if old(self).changed(j) && pre.block_of(j) == old(self).block_of(j) {
                                assert(old(self).may_fail_save(old(self).block_of(j)));
                            } else {
                                let q1 = choose|q: int|
                                    start <= q < start + len && pre.block_of(j)
                                        == #[trigger] Self::hw_block_of(q);
                                assert(old(self).may_fail_save(Self::hw_block_of(q1)));
                            }
                        }
                        assert(self@ =~= overwritten(
                            old(self)@,
                            start,
                            buf@.subrange(0, pos as int),
                        ));
                    }
                    return Err(e);
                },
            };
            let ghost mid = *self;
            self.buffers[idx].buffer.copy_in(offset, buf, pos, v);
            self.buffers[idx].status = BlockTranslatorStatus::Modified;
            proof {
                let mb = mid.buffers@;
                let nb = self.buffers@;
                let dev = self.storage.contents();
                let stored = mb[idx as int].stored_block as int;
                assert forall|j: int| 0 <= j < BUFS && j != idx implies #[trigger] nb[j] == mb[j] by {}
                assert forall|i: int|
                    #![trigger self.buffers@[i]]
                    0 <= i < BUFS implies {
                    &&& self.buffers@[i].stored_block == mid.buffers@[i].stored_block
                    &&& (self.buffers@[i].status != BlockTranslatorStatus::Unknown) == (
                    mid.buffers@[i].status != BlockTranslatorStatus::Unknown)
                } by {
                    if i != idx {
                        assert(nb[i] == mb[i]);
                    }
                }
                if old(self).caches(start, start + len) {
                    assert(pre.is_cached(Self::hw_block_of(block.0 * VBS)));
                    Self::lemma_caches_kept(&pre, &mid, start, start + len);
                    Self::lemma_caches_kept(&mid, self, start, start + len);
                }
                {
                    assert(stored + Self::hw() <= dev.len());
                    assert forall|p: int| 0 <= p < dev.len() implies #[trigger] overlay(nb, dev, Self::hw())[p]
                        == if stored + offset <= p < stored + offset + v {
                        buf@[pos + p - stored - offset]
                    } else {
                        overlay(mb, dev, Self::hw())[p]
                    } by {
                        if holds(nb[idx as int], p, Self::hw()) {
                            lemma_overlay_held(nb, dev, p, idx as int, Self::hw());
                            lemma_overlay_held(mb, dev, p, idx as int, Self::hw());
                        } else if exists|j: int| 0 <= j < nb.len() && #[trigger] holds(nb[j], p, Self::hw()) {
                            let j = choose|j: int| 0 <= j < nb.len() && #[trigger] holds(nb[j], p, Self::hw());
                            lemma_overlay_held(nb, dev, p, j, Self::hw());
                            lemma_overlay_held(mb, dev, p, j, Self::hw());
                        } else {
                            lemma_overlay_free(nb, dev, p, Self::hw());
                            assert forall|j: int| 0 <= j < mb.len() implies !#[trigger] holds(
                                mb[j],
                                p, Self::hw(),
                            ) by {
                                assert(!holds(nb[j], p, Self::hw()));
                            }
                            lemma_overlay_free(mb, dev, p, Self::hw());
                        }
                    }
                }
            }
            proof {
                Self::lemma_held_caches(self, idx as int, start + pos);
                let q = start + pos;
                assert forall|j: int|
                    0 <= j < BUFS && #[trigger] self.changed(j) implies (old(self).changed(j)
                    && self.block_of(j) == old(self).block_of(j)) || exists|q2: int|
                    start <= q2 < start + len && self.block_of(j) == #[trigger] Self::hw_block_of(
                        q2,
                    ) by {
                    if j == idx {
                        assert(self.block_of(j) == Self::hw_block_of(q));
                    } else {
                        assert(self.buffers@[j] == mid.buffers@[j]);
                        assert(mid.changed(j));
                        assert(pre.changed(j));
                    }
                }
                vstd::arithmetic::div_mod::lemma_mod_multiples_basic(block.0 as int, VBS as int);
                lemma_power_of_two_divides(VBS as int, S::ERASE_SIZE as int);
                Self::lemma_write_step_keeps_device(
                    old(self),
                    &pre,
                    &mid,
                    self,
                    idx as int,
                    q,
                    pos > 0,
                );
                assert forall|p: int| #[trigger] self.in_changed_block(p) implies old(
                    self,
                ).in_changed_block(p) || Self::in_blocks_of(p, start, start + len) by {
                    let j = choose|j: int|
                        0 <= j < BUFS && #[trigger] self.changed(j) && self.block_of(j) <= p
                            < self.block_of(j) + Self::hw();
                    if j == idx {
                        let s0 = self.block_of(j);
                        assert(mid.buffers@[j].status != BlockTranslatorStatus::Unknown);
                        assert(s0 % Self::hw() == 0);
                        lemma_byte_in_block(s0, p, Self::hw());
                        assert(Self::hw_block_of(q) == Self::hw_block_of(p));
                    } else {
                        assert(self.buffers@[j] == mid.buffers@[j]);
                        assert(mid.changed(j));
                        assert(mid.in_changed_block(p));
                    }
                }
            }
            proof {
                vstd::arithmetic::div_mod::lemma_mod_multiples_vanish(1, pos as int, v as int);
                vstd::arithmetic::mul::lemma_mul_is_distributive_add_other_way(
                    VBS as int,
                    block.0 as int,
                    1,
                );
                let b1 = block.0 + 1;
                assert(b1 <= u32::MAX) by (nonlinear_arith)
                    requires
                        b1 * VBS <= u32::MAX,
                        VBS >= 1,
                        b1 >= 0,
                ;
            }
            pos = pos + v;
            block = BlockIndex(block.0 + 1);
        }
        proof {
            assert(self@ =~= overwritten(old(self)@, start, buf@));
        }
        Ok(())
    }

    /// Whether buffer `j` holds a hardware block.
    pub closed spec fn holding(&self, j: int) -> bool {
        self.buffers@[j].status != BlockTranslatorStatus::Unknown
    }

    /// Whether buffer `j` holds changes that the device does not have yet.
    pub closed spec fn changed(&self, j: int) -> bool {
        self.buffers@[j].status == BlockTranslatorStatus::Modified
    }

    /// The byte offset of the hardware block that buffer `j` holds.
    pub closed spec fn block_of(&self, j: int) -> int {
        self.buffers@[j].stored_block as int
    }

    /// The bytes of buffer `j`.
    pub closed spec fn bytes_of(&self, j: int) -> Seq<u8> {
        self.buffers@[j].buffer.bytes_view()
    }

    /// The bookkeeping of use: the next "timestamp" and the timestamp of each
    /// buffer.
    pub closed spec fn recency(&self) -> (usize, Seq<usize>) {
        (self.next, ages(self.buffers@))
    }

    /// Whether byte `p` of the device lies in the hardware block of a buffer
    /// that holds changes.
    pub open spec fn in_changed_block(&self, p: int) -> bool {
        exists|j: int|
            0 <= j < BUFS && #[trigger] self.changed(j) && self.block_of(j) <= p < self.block_of(j)
                + Self::hw()
    }

    /// A change of the device inside the block of buffer `i`, which held
    /// changes in `start`, keeps every byte outside the changed blocks of
    /// `start` as `start`'s device had it.
    proof fn lemma_change_in_changed_block(start: &Self, i: int, d0: Seq<u8>, d1: Seq<u8>)
        requires
            0 <= i < BUFS,
            start.changed(i),
            d1.len() == d0.len(),
            d0.len() == start.device().len(),
            forall|p: int|
                0 <= p < d0.len() && !start.in_changed_block(p) ==> #[trigger] d0[p]
                    == start.device()[p],
            forall|p: int|
                0 <= p < d0.len() && !(start.block_of(i) <= p < start.block_of(i) + Self::hw())
                    ==> #[trigger] d1[p] == d0[p],
        ensures
            forall|p: int|
                0 <= p < d0.len() && !start.in_changed_block(p) ==> #[trigger] d1[p]
                    == start.device()[p],
    {
        assert forall|p: int|
            0 <= p < d0.len() && !start.in_changed_block(p) implies #[trigger] d1[p]
            == start.device()[p] by {
            if start.block_of(i) <= p < start.block_of(i) + Self::hw() {
                assert(start.changed(i));
            }
            assert(d0[p] == start.device()[p]);
        }
    }

    /// Whether the device may refuse to load the hardware block at byte `b`:
    /// to read its `ERASE_SIZE` bytes.
    pub closed spec fn may_fail_load(&self, b: int) -> bool {
        self.storage.may_fail(DeviceCall::Read(b as u32, S::ERASE_SIZE))
    }

    /// Whether the device may refuse to take back the hardware block at byte
    /// `b`: to erase it or to write its `ERASE_SIZE` bytes.
    pub closed spec fn may_fail_save(&self, b: int) -> bool {
        ||| self.storage.may_fail(DeviceCall::Erase(b as u32, (b + Self::hw()) as u32))
        ||| self.storage.may_fail(DeviceCall::Write(b as u32, S::ERASE_SIZE))
    }

    /// The device answers as the device of `other` does.
    pub closed spec fn same_answers(&self, other: &Self) -> bool {
        forall|c: DeviceCall| #[trigger] self.storage.may_fail(c) == other.storage.may_fail(c)
    }

    /// When every buffer changed in `b` was changed in `a` and holds the same
    /// block, the changed blocks of `b` lie among those of `a`.
    proof fn lemma_changed_blocks_shrink(a: &Self, b: &Self)
        requires
            forall|j: int|
                0 <= j < BUFS && #[trigger] b.changed(j) ==> a.changed(j) && b.block_of(j)
                    == a.block_of(j),
        ensures
            forall|p: int| #[trigger] b.in_changed_block(p) ==> a.in_changed_block(p),
    {
        assert forall|p: int| #[trigger] b.in_changed_block(p) implies a.in_changed_block(p) by {
            let j = choose|j: int|
                0 <= j < BUFS && #[trigger] b.changed(j) && b.block_of(j) <= p < b.block_of(j)
                    + Self::hw();
            assert(a.changed(j));
        }
    }

    /// Device changes confined to changed blocks add up along steps whose
    /// changed blocks only shrink.
    proof fn lemma_confined_steps(start: &Self, cur: &Self, next: &Self)
        requires
            cur.device().len() == start.device().len(),
            next.device().len() == cur.device().len(),
            forall|p: int|
                0 <= p < start.device().len() && !start.in_changed_block(p)
                    ==> #[trigger] cur.device()[p] == start.device()[p],
            forall|p: int| #[trigger] cur.in_changed_block(p) ==> start.in_changed_block(p),
            forall|p: int|
                0 <= p < cur.device().len() && !cur.in_changed_block(p) ==> #[trigger] next.device()[p]
                    == cur.device()[p],
            forall|p: int| #[trigger] next.in_changed_block(p) ==> cur.in_changed_block(p),
        ensures
            forall|p: int|
                0 <= p < start.device().len() && !start.in_changed_block(p)
                    ==> #[trigger] next.device()[p] == start.device()[p],
            forall|p: int| #[trigger] next.in_changed_block(p) ==> start.in_changed_block(p),
    {
        assert forall|p: int|
            0 <= p < start.device().len() && !start.in_changed_block(p) implies #[trigger] next.device()[p]
            == start.device()[p] by {
            assert(!cur.in_changed_block(p));
            assert(cur.device()[p] == start.device()[p]);
        }
    }

    /// Save every changed buffer to the device, in buffer order: each is
    /// erased and written back, and then counts as unchanged.
    ///
    /// The bytes the translator presents stay as they were, whatever the
    /// device answers. On an error, the buffers before the one whose
    /// write-back failed are saved, and that one and the later ones keep
    /// their changes.
    pub fn flush(&mut self) -> (r: Result<(), NorFlashError<S::Error>>)
        requires
            old(self).consistent(),
        ensures
            final(self).consistent(),
            final(self)@ == old(self)@,
            final(self).device().len() == old(self).device().len(),
            final(self).recency() == old(self).recency(),
            final(self).same_answers(old(self)),
            // an error comes from saving a changed buffer
            r is Err ==> exists|j: int|
                0 <= j < BUFS && #[trigger] old(self).changed(j) && old(self).may_fail_save(
                    old(self).block_of(j),
                ),
            forall|p: int|
                0 <= p < old(self).device().len() && !old(self).in_changed_block(p)
                    ==> #[trigger] final(self).device()[p] == old(self).device()[p],
            forall|j: int|
                0 <= j < BUFS ==> {
                    &&& #[trigger] final(self).holding(j) == old(self).holding(j)
                    &&& final(self).block_of(j) == old(self).block_of(j)
                    &&& final(self).bytes_of(j) == old(self).bytes_of(j)
                },
            r is Ok ==> {
                &&& final(self).device() == old(self)@
                &&& !final(self).dirty()
                &&& forall|j: int| 0 <= j < BUFS ==> !#[trigger] final(self).changed(j)
            },
            r is Err ==> exists|k: int|
                0 <= k < BUFS && #[trigger] old(self).changed(k) && (forall|j: int|
                    0 <= j < k ==> !#[trigger] final(self).changed(j)) && (forall|j: int|
                    k <= j < BUFS ==> #[trigger] final(self).changed(j) == old(self).changed(j)),
            !old(self).dirty() ==> r is Ok && *final(self) == *old(self),
    {
        let hw: u32 = S::ERASE_SIZE as u32;
        let mut i: usize = 0;
        while i < BUFS
            invariant
                self.consistent(),
                self@ == old(self)@,
                self.same_answers(old(self)),
                self.storage.contents().len() == old(self).storage.contents().len(),
                forall|p: int|
                    0 <= p < old(self).device().len() && !old(self).in_changed_block(p)
                        ==> #[trigger] self.storage.contents()[p] == old(self).device()[p],
                old(self).buffers@.len() == BUFS,
                hw == Self::hw(),
                i <= BUFS,
                self.buffers@.len() == BUFS,
                self.next == old(self).next,
                forall|j: int|
                    #![trigger self.buffers@[j]]
                    0 <= j < BUFS ==> {
                        &&& self.buffers@[j].buffer == old(self).buffers@[j].buffer
                        &&& self.buffers@[j].stored_block == old(self).buffers@[j].stored_block
                        &&& self.buffers@[j].last_used == old(self).buffers@[j].last_used
                        &&& self.buffers@[j].status == if j < i && old(self).buffers@[j].status
                            == BlockTranslatorStatus::Modified {
                            BlockTranslatorStatus::Read
                        } else {
                            old(self).buffers@[j].status
                        }
                    },
                !old(self).dirty() ==> *self == *old(self),
            decreases BUFS - i,
        {
            if self.buffers[i].status == BlockTranslatorStatus::Modified {
                let ghost pre = *self;
                let ghost b0 = self.buffers@;
                let ghost d0 = self.storage.contents();
                proof {
                    self.buffers@[i as int].buffer.lemma_len();
                    assert(old(self).buffers@[i as int].status == BlockTranslatorStatus::Modified);
                }
                let stored = self.buffers[i].stored_block;
                match self.storage.erase(stored, stored + hw) {
                    Ok(()) => {},
                    Err(e) => {
                        proof {
                            lemma_change_under_modified(b0, d0, self.storage.contents(), i as int, Self::hw());
                            Self::lemma_flush_stopped_at(old(self), self, i as int);
                            Self::lemma_change_in_changed_block(old(self), i as int, d0, self.storage.contents());
                            assert(old(self).changed(i as int));
                            assert(old(self).may_fail_save(old(self).block_of(i as int)));
                        }
                        return Err(NorFlashError(e));
                    },
                }
                let ghost d_erased = self.storage.contents();
                proof {
                    Self::lemma_change_in_changed_block(old(self), i as int, d0, d_erased);
                }
                match self.storage.write(stored, self.buffers[i].buffer.head(S::ERASE_SIZE)) {
                    Ok(()) => {},
                    Err(e) => {
                        proof {
                            assert forall|p: int|
                                0 <= p < d0.len() && !holds(b0[i as int], p, Self::hw())
                                implies #[trigger] self.storage.contents()[p]
                                == d0[p] by {
                                assert(self.storage.contents()[p] == d_erased[p]);
                            }
                            lemma_change_under_modified(b0, d0, self.storage.contents(), i as int, Self::hw());
                            Self::lemma_flush_stopped_at(old(self), self, i as int);
                            Self::lemma_change_in_changed_block(old(self), i as int, d_erased, self.storage.contents());
                            assert(old(self).changed(i as int));
                            assert(old(self).may_fail_save(old(self).block_of(i as int)));
                        }
                        return Err(NorFlashError(e));
                    },
                }
                proof {
                    Self::lemma_change_in_changed_block(old(self), i as int, d_erased, self.storage.contents());
                }
                self.buffers[i].status = BlockTranslatorStatus::Read;
                proof {
                    Self::lemma_write_back_keeps_view(&pre, self, i as int);
                }
            }
            i = i + 1;
        }
        proof {
            Self::lemma_clean_view_is_device(self);
        }
        Ok(())
    }

    /// A flush that stopped at buffer `i` saved the buffers before it and left
    /// the others as they were.
    proof fn lemma_flush_stopped_at(old_t: &Self, new_t: &Self, i: int)
        requires
            0 <= i < BUFS,
            old_t.buffers@.len() == BUFS,
            new_t.buffers@.len() == BUFS,
            old_t.buffers@[i].status == BlockTranslatorStatus::Modified,
            forall|j: int|
                #![trigger new_t.buffers@[j]]
                0 <= j < BUFS ==> new_t.buffers@[j].status == if j < i && old_t.buffers@[j].status
                    == BlockTranslatorStatus::Modified {
                    BlockTranslatorStatus::Read
                } else {
                    old_t.buffers@[j].status
                },
        ensures
            exists|k: int|
                0 <= k < BUFS && #[trigger] old_t.changed(k) && (forall|j: int|
                    0 <= j < k ==> !#[trigger] new_t.changed(j)) && (forall|j: int|
                    k <= j < BUFS ==> #[trigger] new_t.changed(j) == old_t.changed(j)),
    {
        assert(old_t.changed(i));
        assert forall|j: int| 0 <= j < i implies !#[trigger] new_t.changed(j) by {
            assert(new_t.buffers@[j].status != BlockTranslatorStatus::Modified);
        }
        assert forall|j: int| i <= j < BUFS implies #[trigger] new_t.changed(j) == old_t.changed(
            j,
        ) by {
            assert(new_t.buffers@[j].status == old_t.buffers@[j].status);
        }
    }

    /// Make the buffers hold the hardware block of virtual block `block_in_vbs`;
    /// returns the buffer and the offset of the virtual block within it.
    ///
    /// A block that a buffer holds is served from it. Otherwise the buffer
    /// used longest ago is written back if it was changed and then loaded;
    /// whatever the device answers, the bytes the translator presents stay
    /// as they were.
    #[verifier::spinoff_prover]
    #[verifier::rlimit(30)]
    fn go_to_block(&mut self, block_in_vbs: BlockIndex) -> (r: Result<
        (usize, usize),
        NorFlashError<S::Error>,
    >)
        requires
            old(self).consistent(),
            block_in_vbs.0 * VBS + VBS <= u32::MAX + 1,
        ensures
            final(self).consistent(),
            final(self)@ == old(self)@,
            final(self).device().len() == old(self).device().len(),
            final(self).buffers@.len() == BUFS,
            forall|j: int|
                0 <= j < BUFS && #[trigger] final(self).buffers@[j].status
                    == BlockTranslatorStatus::Modified ==> old(self).buffers@[j].status
                    == BlockTranslatorStatus::Modified,
            forall|j: int|
                0 <= j < BUFS && #[trigger] final(self).changed(j) ==> old(self).changed(j)
                    && final(self).block_of(j) == old(self).block_of(j),
            forall|p: int|
                0 <= p < old(self).device().len() && !old(self).in_changed_block(p)
                    ==> #[trigger] final(self).device()[p] == old(self).device()[p],
            r is Ok ==> forall|p: int|
                0 <= p < old(self).device().len() && #[trigger] final(self).in_changed_block(p)
                    ==> final(self).device()[p] == old(self).device()[p],
            final(self).same_answers(old(self)),
            // an error comes from loading the block or from saving a changed one
            r is Err ==> old(self).may_fail_load(Self::hw_block_of(block_in_vbs.0 * VBS)) || exists|j: int|
                0 <= j < BUFS && #[trigger] old(self).changed(j) && old(self).may_fail_save(
                    old(self).block_of(j),
                ),
            match r {
                Ok((idx, offset)) => {
                    let byte_offset = block_in_vbs.0 * VBS;
                    &&& idx < BUFS
                    &&& offset == byte_offset % (Self::hw())
                    &&& offset + VBS <= Self::hw()
                    &&& final(self).buffers@[idx as int].status != BlockTranslatorStatus::Unknown
                    &&& final(self).buffers@[idx as int].stored_block == byte_offset - offset
                    &&& forall|j: int|
                        0 <= j < BUFS && j != idx ==> same_block(
                            #[trigger] final(self).buffers@[j],
                            old(self).buffers@[j],
                        )
                    // the buffer replaced is the one used longest ago
                    &&& !old(self).is_cached(Self::hw_block_of(byte_offset)) ==> {
                        &&& BUFS == 1 ==> idx == 0
                        &&& BUFS == 2 ==> idx == 1 - old(self).next
                        &&& BUFS >= 3 ==> forall|j: int|
                            0 <= j < BUFS && j != idx ==> #[trigger] used_before(
                                ages(old(self).buffers@),
                                idx as int,
                                j,
                            )
                    }
                    // the buffer returned is the one used last
                    &&& BUFS == 2 ==> final(self).next == idx
                    &&& BUFS >= 3 ==> final(self).buffers@[idx as int].last_used + 1
                        == final(self).next
                    &&& BUFS >= 3 ==> used_last(
                        ages(old(self).buffers@),
                        ages(final(self).buffers@),
                        idx as int,
                    )
                },
                // the buffer chosen to be replaced either keeps its block, its
                // changes and its bytes, or holds no block, its changes (if it
                // had any) being on the device
                Err(_) => exists|v: int|
                    #![trigger final(self).buffers@[v]]
                    {
                        &&& 0 <= v < BUFS
                        &&& forall|j: int|
                            0 <= j < BUFS && j != v ==> same_block(
                                #[trigger] final(self).buffers@[j],
                                old(self).buffers@[j],
                            )
                        &&& same_block(final(self).buffers@[v], old(self).buffers@[v]) || {
                            &&& final(self).buffers@[v].status == BlockTranslatorStatus::Unknown
                            &&& old(self).changed(v) ==> final(self).device().subrange(
                                old(self).block_of(v),
                                old(self).block_of(v) + Self::hw(),
                            ) == old(self).bytes_of(v).subrange(0, Self::hw())
                        }
                        &&& BUFS == 1 ==> v == 0
                        &&& BUFS == 2 ==> final(self).next == v && v == 1 - old(self).next
                        &&& BUFS >= 3 ==> used_last(
                            ages(old(self).buffers@),
                            ages(final(self).buffers@),
                            v,
                        )
                        &&& BUFS >= 3 ==> forall|j: int|
                            0 <= j < BUFS && j != v ==> #[trigger] used_before(
                                ages(old(self).buffers@),
                                v,
                                j,
                            )
                    },
            },
            old(self).is_cached(Self::hw_block_of(block_in_vbs.0 * VBS)) ==> {
                &&& r is Ok
                &&& final(self).storage == old(self).storage
                &&& forall|i: int|
                    0 <= i < BUFS ==> same_block(
                        #[trigger] final(self).buffers@[i],
                        old(self).buffers@[i],
                    )
            },
    {
        let hw: u32 = S::ERASE_SIZE as u32;
        proof {
            lemma_power_of_two_divides(VBS as int, S::ERASE_SIZE as int);
            vstd::arithmetic::mul::lemma_mul_inequality(
                block_in_vbs.0 as int,
                block_in_vbs.0 as int,
                VBS as int,
            );
            vstd::arithmetic::div_mod::lemma_mod_multiples_basic(block_in_vbs.0 as int, VBS as int);
            lemma_block_offsets(block_in_vbs.0 * VBS, VBS as int, Self::hw());
        }
        let byte_offset: u32 = block_in_vbs.0 * VBS;
        // the byte offset of the hardware block
        let real_block: u32 = (byte_offset / hw) * hw;
        let offset: usize = (byte_offset % hw) as usize;
        let ghost before = *self;
        let (idx, hit) = self.select_buffer(real_block);
        proof {
            Self::lemma_bookkeeping_keeps_view(&before, self);
            if hit {
                assert(before.buffers@[idx as int].status != BlockTranslatorStatus::Unknown);
                assert(before.is_cached(real_block as int));
            }
            assert(forall|j: int|
                0 <= j < BUFS ==> same_block(#[trigger] self.buffers@[j], before.buffers@[j]));
        }
        proof {
            assert forall|j: int|
                0 <= j < BUFS && #[trigger] self.changed(j) implies before.changed(j)
                && self.block_of(j) == before.block_of(j) by {
                assert(same_block(self.buffers@[j], before.buffers@[j]));
            }
            Self::lemma_changed_blocks_shrink(&before, self);
        }
        if hit {
            return Ok((idx, offset));
        }
        let ghost mid = *self;
        let loaded = self.load_block(idx, real_block);
        proof {
            assert forall|j: int|
                0 <= j < BUFS && #[trigger] self.changed(j) implies before.changed(j)
                && self.block_of(j) == before.block_of(j) by {
                assert(self.buffers@[j] == mid.buffers@[j]);
                assert(mid.changed(j));
            }
            assert(ages(self.buffers@) =~= ages(mid.buffers@));
            assert(same_block(mid.buffers@[idx as int], before.buffers@[idx as int]));
            assert(mid.changed(idx as int) == before.changed(idx as int));
            assert(mid.block_of(idx as int) == before.block_of(idx as int));
            assert(mid.bytes_of(idx as int) == before.bytes_of(idx as int));
        }
        match loaded {
            Ok(()) => Ok((idx, offset)),
            Err(e) => {
                proof {
                    assert(real_block == Self::hw_block_of(block_in_vbs.0 * VBS));
                    if mid.changed(idx as int) && mid.may_fail_save(mid.block_of(idx as int)) {
                        assert(before.changed(idx as int));
                    }
                    assert(forall|j: int|
                        0 <= j < BUFS && j != idx ==> same_block(
                            #[trigger] self.buffers@[j],
                            before.buffers@[j],
                        ));
                    if self.buffers@[idx as int] == mid.buffers@[idx as int] {
                        assert(same_block(self.buffers@[idx as int], before.buffers@[idx as int]));
                    }
                }
                Err(e)
            },
        }
    }

    /// Pick the buffer for the hardware block at byte offset `real_block`: the
    /// buffer that holds it already (`r.1`), else the buffer used longest ago.
    /// Only the bookkeeping of use changes.
    fn select_buffer(&mut self, real_block: u32) -> (r: (usize, bool))
        requires
            old(self).wf(),
        ensures
            final(self).wf(),
            r.0 < BUFS,
            final(self).storage == old(self).storage,
            final(self).buffers@.len() == BUFS,
            forall|i: int|
                #![trigger final(self).buffers@[i]]
                0 <= i < BUFS ==> {
                    &&& final(self).buffers@[i].buffer == old(self).buffers@[i].buffer
                    &&& final(self).buffers@[i].stored_block == old(self).buffers@[i].stored_block
                    &&& final(self).buffers@[i].status == old(self).buffers@[i].status
                },
            r.1 ==> final(self).buffers@[r.0 as int].status != BlockTranslatorStatus::Unknown
                && final(self).buffers@[r.0 as int].stored_block == real_block,
            !r.1 ==> forall|i: int|
                0 <= i < BUFS && #[trigger] old(self).buffers@[i].status
                    != BlockTranslatorStatus::Unknown ==> old(self).buffers@[i].stored_block
                    != real_block,
            BUFS == 1 ==> r.0 == 0,
            BUFS == 2 ==> final(self).next == r.0 && (!r.1 ==> r.0 == 1 - old(self).next),
            BUFS >= 3 ==> final(self).buffers@[r.0 as int].last_used + 1 == final(self).next,
            BUFS >= 3 ==> used_last(ages(old(self).buffers@), ages(final(self).buffers@), r.0 as int),
            BUFS >= 3 && !r.1 ==> forall|j: int|
                0 <= j < BUFS && j != r.0 ==> #[trigger] used_before(
                    ages(old(self).buffers@),
                    r.0 as int,
                    j,
                ),
    {
        if BUFS == 1 {
            let hit = self.buffers[0].stored_block == real_block && self.buffers[0].status
                != BlockTranslatorStatus::Unknown;
            assert(forall|i: int|
                0 <= i < BUFS ==> i == 0 || !(#[trigger] old(self).buffers@[i].status
                    != BlockTranslatorStatus::Unknown));
            (0, hit)
        } else if BUFS == 2 {
            // check newest buffer
            let n = self.next;
            if self.buffers[n].stored_block == real_block && self.buffers[n].status
                != BlockTranslatorStatus::Unknown {
                return (n, true);
            }
            // switch to older buffer

            assert(n ^ 1 == 1 - n) by (bit_vector)
                requires
                    n < 2,
            ;
            self.next = n ^ 1;
            let o = self.next;
            // check older buffer
            let hit = self.buffers[o].status != BlockTranslatorStatus::Unknown
                && self.buffers[o].stored_block == real_block;
            assert(forall|i: int|
                0 <= i < BUFS ==> i == n || i == o || !(#[trigger] old(self).buffers@[i].status
                    != BlockTranslatorStatus::Unknown));
            (o, hit)
        } else {
            let ghost old_ages = ages(self.buffers@);
            if self.next == usize::MAX {
                // reset all ages because an overflow would happen otherwise
                self.reset_ages();
                assert forall|i: int, k: int|
                    0 <= i < BUFS && 0 <= k < BUFS && i != k implies (used_before(
                    old_ages,
                    i,
                    k,
                ) <==> #[trigger] used_before(ages(self.buffers@), i, k)) by {
                    lemma_ranks_keep_order(old_ages, i, k);
                    lemma_ranks_keep_order(old_ages, k, i);
                }
            }
            let ghost cur_ages = ages(self.buffers@);
            let mut oldest: usize = 0;
            let mut i: usize = 0;
            // check if the block is already buffered
            while i < BUFS
                invariant
                    self.wf(),
                    BUFS >= 3,
                    self.next < usize::MAX,
                    i <= BUFS,
                    oldest < BUFS,
                    i > 0 ==> oldest < i,
                    cur_ages == ages(self.buffers@),
                    old_ages == ages(old(self).buffers@),
                    old(self).buffers@.len() == BUFS,
                    self.storage == old(self).storage,
                    self.buffers@.len() == BUFS,
                    forall|k: int|
                        #![trigger self.buffers@[k]]
                        0 <= k < BUFS ==> {
                            &&& self.buffers@[k].buffer == old(self).buffers@[k].buffer
                            &&& self.buffers@[k].stored_block == old(self).buffers@[k].stored_block
                            &&& self.buffers@[k].status == old(self).buffers@[k].status
                        },
                    old(self).next < usize::MAX ==> cur_ages == old_ages,
                    old(self).next == usize::MAX ==> forall|a: int, b: int|
                        0 <= a < BUFS && 0 <= b < BUFS && a != b ==> (used_before(old_ages, a, b)
                            <==> #[trigger] used_before(cur_ages, a, b)),
                    forall|k: int|
                        0 <= k < i && #[trigger] self.buffers@[k].status
                            != BlockTranslatorStatus::Unknown ==> self.buffers@[k].stored_block
                            != real_block,
                    forall|k: int|
                        0 <= k < i && k != oldest ==> #[trigger] used_before(
                            cur_ages,
                            oldest as int,
                            k,
                        ),
                decreases BUFS - i,
            {
                if self.buffers[i].stored_block == real_block && self.buffers[i].status
                    != BlockTranslatorStatus::Unknown {
                    // update last_used, unless it already was the last used
                    let ghost before_stamp = self.buffers@;
                    if self.buffers[i].last_used != self.next - 1 {
                        self.buffers[i].last_used = self.next;
                        self.next = self.next + 1;
                    }
                    proof {
                        assert forall|j: int| 0 <= j < BUFS && j != i implies #[trigger] ages(
                            self.buffers@,
                        )[j] == cur_ages[j] && ages(self.buffers@)[j] < ages(self.buffers@)[i as int] by {
                            assert(self.buffers@[j] == before_stamp[j]);
                            assert(before_stamp[j].last_used != before_stamp[i as int].last_used);
                        }
                        assert forall|a: int, b: int|
                            0 <= a < BUFS && 0 <= b < BUFS && a != b implies (used_before(old_ages, a, b)
                            <==> #[trigger] used_before(cur_ages, a, b)) by {
                            if old(self).next == usize::MAX {
                                assert(used_before(old_ages, a, b) <==> used_before(cur_ages, a, b));
                            }
                        }
                        lemma_used_last(old_ages, cur_ages, ages(self.buffers@), i as int);
                    }
                    return (i, true);
                }
                let ghost prev = oldest;
                if i == 0 || self.buffers[i].last_used < self.buffers[oldest].last_used {
                    oldest = i;
                }
                proof {
                    assert(cur_ages[i as int] == self.buffers@[i as int].last_used);
                    assert(cur_ages[prev as int] == self.buffers@[prev as int].last_used);
                    assert forall|k: int| 0 <= k < i + 1 && k != oldest implies #[trigger] used_before(
                        cur_ages,
                        oldest as int,
                        k,
                    ) by {
                        if k != prev && k < i {
                            assert(used_before(cur_ages, prev as int, k));
                        }
                    }
                }
                i = i + 1;
            }
            proof {
                assert forall|k: int|
                    0 <= k < BUFS && #[trigger] old(self).buffers@[k].status
                        != BlockTranslatorStatus::Unknown implies old(self).buffers@[k].stored_block
                    != real_block by {
                    assert(self.buffers@[k].status == old(self).buffers@[k].status);
                }
                assert forall|j: int| 0 <= j < BUFS && j != oldest implies #[trigger] used_before(
                    old_ages,
                    oldest as int,
                    j,
                ) by {
                    assert(used_before(cur_ages, oldest as int, j));
                }
            }
            // get oldest buffer
            let ghost before_stamp = self.buffers@;
            self.buffers[oldest].last_used = self.next;
            self.next = self.next + 1;
            proof {
                assert forall|j: int| 0 <= j < BUFS && j != oldest implies #[trigger] ages(
                    self.buffers@,
                )[j] == cur_ages[j] && ages(self.buffers@)[j] < ages(self.buffers@)[oldest as int] by {
                    assert(self.buffers@[j] == before_stamp[j]);
                }
                assert forall|a: int, b: int|
                    0 <= a < BUFS && 0 <= b < BUFS && a != b implies (used_before(old_ages, a, b)
                    <==> #[trigger] used_before(cur_ages, a, b)) by {
                    if old(self).next == usize::MAX {
                        assert(used_before(old_ages, a, b) <==> used_before(cur_ages, a, b));
                    }
                }
                lemma_used_last(old_ages, cur_ages, ages(self.buffers@), oldest as int);
            }
            (oldest, false)
        }
    }

    /// Renumber the timestamps 0, 1, ... in the order in which the buffers were
    /// used, so that counting can go on without an overflow.
    fn reset_ages(&mut self)
        requires
            old(self).wf(),
            BUFS >= 3,
        ensures
            final(self).wf(),
            final(self).next == BUFS,
            final(self).storage == old(self).storage,
            final(self).buffers@.len() == BUFS,
            forall|i: int|
                #![trigger final(self).buffers@[i]]
                0 <= i < BUFS ==> {
                    &&& final(self).buffers@[i].buffer == old(self).buffers@[i].buffer
                    &&& final(self).buffers@[i].stored_block == old(self).buffers@[i].stored_block
                    &&& final(self).buffers@[i].status == old(self).buffers@[i].status
                    &&& final(self).buffers@[i].last_used == rank(
                        ages(old(self).buffers@),
                        i,
                        BUFS as int,
                    )
                },
    {
        let ghost old_ages = ages(self.buffers@);
        let mut ranks: Vec<usize> = Vec::new();
        let mut i: usize = 0;
        while i < BUFS
            invariant
                i <= BUFS,
                self.buffers@.len() == BUFS,
                old_ages == ages(self.buffers@),
                old_ages.len() == BUFS,
                ranks@.len() == i,
                forall|k: int| 0 <= k < i ==> #[trigger] ranks@[k] == rank(old_ages, k, BUFS as int),
            decreases BUFS - i,
        {
            let mut r: usize = 0;
            let mut j: usize = 0;
            while j < BUFS
                invariant
                    i < BUFS,
                    j <= BUFS,
                    self.buffers@.len() == BUFS,
                    old_ages == ages(self.buffers@),
                    old_ages.len() == BUFS,
                    r == rank(old_ages, i as int, j as int),
                    r <= j,
                decreases BUFS - j,
            {
                let aj = self.buffers[j].last_used;
                let ai = self.buffers[i].last_used;
                assert(aj == old_ages[j as int] && ai == old_ages[i as int]);
                if aj < ai || (aj == ai && j < i) {
                    r = r + 1;
                }
                j = j + 1;
            }
            ranks.push(r);
            i = i + 1;
        }
        let mut i: usize = 0;
        while i < BUFS
            invariant
                i <= BUFS,
                self.buffers@.len() == BUFS,
                ranks@.len() == BUFS,
                old_ages.len() == BUFS,
                forall|k: int|
                    0 <= k < BUFS ==> #[trigger] ranks@[k] == rank(old_ages, k, BUFS as int),
                forall|k: int|
                    #![trigger self.buffers@[k]]
                    0 <= k < BUFS ==> {
                        &&& self.buffers@[k].buffer == old(self).buffers@[k].buffer
                        &&& self.buffers@[k].stored_block == old(self).buffers@[k].stored_block
                        &&& self.buffers@[k].status == old(self).buffers@[k].status
                        &&& self.buffers@[k].last_used == if k < i {
                            ranks@[k]
                        } else {
                            old(self).buffers@[k].last_used
                        }
                    },
                self.storage == old(self).storage,
                self.next == old(self).next,
            decreases BUFS - i,
        {
            self.buffers[i].last_used = ranks[i];
            i = i + 1;
        }
        self.next = BUFS;
        proof {
            assert forall|k: int| 0 <= k < BUFS implies #[trigger] self.buffers@[k].last_used
                < self.next by {
                let other = if k == 0 {
                    1int
                } else {
                    0int
                };
                lemma_ranks_keep_order(old_ages, k, other);
            }
            assert forall|a: int, b: int|
                0 <= a < BUFS && 0 <= b < BUFS && a != b implies #[trigger] self.buffers@[a].last_used
                != #[trigger] self.buffers@[b].last_used by {
                lemma_ranks_keep_order(old_ages, a, b);
                lemma_ranks_keep_order(old_ages, b, a);
            }
            assert(disjoint(self.buffers@, Self::hw()));
        }
    }

    /// Bring the hardware block at byte offset `real_block` into buffer `idx`:
    /// write back what the buffer holds if it was changed, let go of it, then
    /// read the block. A failed write-back leaves the buffer as it was; a
    /// failed read leaves it holding no block.
    fn load_block(&mut self, idx: usize, real_block: u32) -> (r: Result<
        (),
        NorFlashError<S::Error>,
    >)
        requires
            old(self).consistent(),
            idx < BUFS,
            real_block as int % Self::hw() == 0,
            forall|j: int|
                0 <= j < BUFS && #[trigger] old(self).buffers@[j].status
                    != BlockTranslatorStatus::Unknown ==> old(self).buffers@[j].stored_block
                    != real_block,
        ensures
            final(self).consistent(),
            final(self)@ == old(self)@,
            final(self).device().len() == old(self).device().len(),
            final(self).next == old(self).next,
            final(self).same_answers(old(self)),
            r is Err ==> old(self).may_fail_load(real_block as int) || (old(self).changed(idx as int)
                && old(self).may_fail_save(old(self).block_of(idx as int))),
            final(self).buffers@.len() == BUFS,
            forall|j: int|
                0 <= j < BUFS && j != idx ==> #[trigger] final(self).buffers@[j]
                    == old(self).buffers@[j],
            final(self).buffers@[idx as int].last_used == old(self).buffers@[idx as int].last_used,
            forall|p: int|
                0 <= p < old(self).device().len() && !old(self).in_changed_block(p)
                    ==> #[trigger] final(self).device()[p] == old(self).device()[p],
            r is Ok ==> forall|p: int|
                0 <= p < old(self).device().len() && #[trigger] final(self).in_changed_block(p)
                    ==> final(self).device()[p] == old(self).device()[p],
            r is Ok ==> final(self).buffers@[idx as int].status == BlockTranslatorStatus::Read
                && final(self).buffers@[idx as int].stored_block == real_block,
            r is Err ==> final(self).buffers@[idx as int] == old(self).buffers@[idx as int] || {
                &&& final(self).buffers@[idx as int].status == BlockTranslatorStatus::Unknown
                &&& old(self).changed(idx as int) ==> final(self).device().subrange(
                    old(self).block_of(idx as int),
                    old(self).block_of(idx as int) + Self::hw(),
                ) == old(self).bytes_of(idx as int).subrange(0, Self::hw())
            },
    {
        let hw: u32 = S::ERASE_SIZE as u32;
        let ghost b0 = self.buffers@;
        let ghost d0 = self.storage.contents();
        proof {
            self.buffers@[idx as int].buffer.lemma_len();
        }
        // store block, if required
        if self.buffers[idx].status == BlockTranslatorStatus::Modified {
            let stored = self.buffers[idx].stored_block;
            match self.storage.erase(stored, stored + hw) {
                Ok(()) => {},
                Err(e) => {
                    proof {
                        lemma_change_under_modified(b0, d0, self.storage.contents(), idx as int, Self::hw());
                        Self::lemma_change_in_changed_block(old(self), idx as int, d0, self.storage.contents());
                    }
                    return Err(NorFlashError(e));
                },
            }
            let ghost d_erased = self.storage.contents();
            proof {
                Self::lemma_change_in_changed_block(old(self), idx as int, d0, d_erased);
            }
            match self.storage.write(stored, self.buffers[idx].buffer.head(S::ERASE_SIZE)) {
                Ok(()) => {},
                Err(e) => {
                    proof {
                        assert forall|p: int|
                            0 <= p < d0.len() && !holds(b0[idx as int], p, Self::hw())
                            implies #[trigger] self.storage.contents()[p]
                            == d0[p] by {
                            assert(self.storage.contents()[p] == d_erased[p]);
                        }
                        lemma_change_under_modified(b0, d0, self.storage.contents(), idx as int, Self::hw());
                        Self::lemma_change_in_changed_block(old(self), idx as int, d_erased, self.storage.contents());
                    }
                    return Err(NorFlashError(e));
                },
            }
            proof {
                Self::lemma_change_in_changed_block(old(self), idx as int, d_erased, self.storage.contents());
            }
        }
        let ghost d1 = self.storage.contents();
        proof {
            let b = b0[idx as int];
            let s = b.stored_block as int;
            assert forall|p: int| 0 <= p < d0.len() && !holds(b, p, Self::hw()) implies #[trigger] d1[p]
                == d0[p] by {}
            assert forall|p: int| 0 <= p < d0.len() && holds(b, p, Self::hw()) implies #[trigger] d1[p]
                == b.buffer.bytes_view()[p - s] by {
                if b.status == BlockTranslatorStatus::Read {
                    assert(b.buffer.bytes_view().subrange(0, Self::hw()) == d0.subrange(s, s + Self::hw()));
                    assert(b.buffer.bytes_view().subrange(0, Self::hw())[p - s] == d0.subrange(
                        s,
                        s + Self::hw(),
                    )[p - s]);
                }
            }
        }
        // the buffer holds no block until the read succeeds
        self.buffers[idx].status = BlockTranslatorStatus::Unknown;
        self.buffers[idx].stored_block = real_block;
        let ghost b1 = self.buffers@;
        proof {
            lemma_release(b0, d0, b1, d1, idx as int, Self::hw());
        }
        // read block
        match self.storage.read(real_block, self.buffers[idx].buffer.head_mut(S::ERASE_SIZE)) {
            Ok(()) => {
                proof {
                    self.buffers@[idx as int].buffer.lemma_len();
                    assert(self.buffers@[idx as int].buffer.bytes_view().subrange(0, Self::hw()) =~= d1.subrange(
                        real_block as int,
                        real_block + Self::hw(),
                    ));
                }
            },
            Err(e) => {
                proof {
                    lemma_unknown_ignored(b1, self.buffers@, d1, Self::hw());
                }
                return Err(NorFlashError(e));
            },
        }
        self.buffers[idx].status = BlockTranslatorStatus::Read;
        proof {
            let b2 = self.buffers@;
            lemma_load_keeps_overlay(b1, d1, b2, d1, idx as int, real_block as int, Self::hw());
            assert forall|j: int|
                0 <= j < BUFS && b2[j].status == BlockTranslatorStatus::Read
                implies #[trigger] b2[j].buffer.bytes_view().subrange(0, Self::hw())
                == d1.subrange(b2[j].stored_block as int, b2[j].stored_block + Self::hw()) by {
                if j != idx {
                    assert(b2[j] == b1[j]);
                    assert(b1[j].status == BlockTranslatorStatus::Read);
                    assert(b1[j].buffer.bytes_view().subrange(0, Self::hw()) == d1.subrange(
                        b1[j].stored_block as int,
                        b1[j].stored_block + Self::hw(),
                    ));
                } else {
                    assert(b2[j].buffer.bytes_view().subrange(0, Self::hw()) =~= d1.subrange(
                        real_block as int,
                        real_block + Self::hw(),
                    ));
                }
            }
            assert forall|j: int|
                0 <= j < BUFS && b2[j].status
                    != BlockTranslatorStatus::Unknown implies #[trigger] b2[j].stored_block
                + Self::hw() <= d1.len() by {
                if j != idx {
                    assert(b2[j] == b1[j]);
                }
            }
        }
        proof {
            // the device changed only in the block written back, which no
            // buffer holds with changes any more
            assert forall|p: int|
                0 <= p < d0.len() && #[trigger] self.in_changed_block(p) implies self.storage.contents()[p]
                == d0[p] by {
                let j = choose|j: int|
                    0 <= j < BUFS && #[trigger] self.changed(j) && self.block_of(j) <= p
                        < self.block_of(j) + Self::hw();
                assert(j != idx);
                assert(self.buffers@[j] == b0[j]);
                if d1[p] != d0[p] {
                    assert(holds(b0[idx as int], p, Self::hw()));
                    lemma_aligned_overlap(
                        b0[j].stored_block as int,
                        b0[idx as int].stored_block as int,
                        p,
                        Self::hw(),
                    );
                }
            }
        }
        Ok(())
    }

    /// Changing only the bookkeeping of use leaves the presented bytes and the
    /// agreement with the device as they were.
    proof fn lemma_bookkeeping_keeps_view(old_t: &Self, new_t: &Self)
        requires
            old_t.wf(),
            new_t.wf(),
            new_t.storage == old_t.storage,
            forall|i: int|
                #![trigger new_t.buffers@[i]]
                0 <= i < BUFS ==> {
                    &&& new_t.buffers@[i].buffer == old_t.buffers@[i].buffer
                    &&& new_t.buffers@[i].stored_block == old_t.buffers@[i].stored_block
                    &&& new_t.buffers@[i].status == old_t.buffers@[i].status
                },
        ensures
            new_t@ == old_t@,
            old_t.consistent() ==> new_t.consistent(),
    {
        let ob = old_t.buffers@;
        let nb = new_t.buffers@;
        let dev = old_t.storage.contents();
        assert forall|i: int, p: int| 0 <= i < BUFS implies #[trigger] holds(nb[i], p, Self::hw()) == holds(
            ob[i],
            p, Self::hw(),
        ) by {
            assert(nb[i].status == ob[i].status);
        }
        assert forall|p: int| 0 <= p < dev.len() implies #[trigger] overlay(nb, dev, Self::hw())[p] == overlay(
            ob,
            dev, Self::hw(),
        )[p] by {
            if exists|i: int| 0 <= i < nb.len() && #[trigger] holds(nb[i], p, Self::hw()) {
                let i = choose|i: int| 0 <= i < nb.len() && #[trigger] holds(nb[i], p, Self::hw());
                assert(holds(ob[i], p, Self::hw()));
                lemma_overlay_held(nb, dev, p, i, Self::hw());
                lemma_overlay_held(ob, dev, p, i, Self::hw());
            } else {
                assert forall|i: int| 0 <= i < ob.len() implies !#[trigger] holds(ob[i], p, Self::hw()) by {
                    assert(!holds(nb[i], p, Self::hw()));
                }
                lemma_overlay_free(nb, dev, p, Self::hw());
                lemma_overlay_free(ob, dev, p, Self::hw());
            }
        }
        assert(overlay(nb, dev, Self::hw()) =~= overlay(ob, dev, Self::hw()));
        if old_t.consistent() {
            assert forall|i: int|
                0 <= i < nb.len() && nb[i].status
                    != BlockTranslatorStatus::Unknown implies #[trigger] nb[i].stored_block
                + Self::hw() <= dev.len() by {
                assert(ob[i].stored_block + Self::hw() <= dev.len());
            }
            assert forall|i: int|
                0 <= i < nb.len() && nb[i].status
                    == BlockTranslatorStatus::Read implies #[trigger] nb[i].buffer.bytes_view().subrange(0, Self::hw())
                == dev.subrange(nb[i].stored_block as int, nb[i].stored_block + Self::hw()) by {
                assert(ob[i].buffer.bytes_view().subrange(0, Self::hw()) == dev.subrange(
                    ob[i].stored_block as int,
                    ob[i].stored_block + Self::hw(),
                ));
            }
        }
    }

    /// Changing only the bookkeeping of use keeps the blocks that are cached.
    proof fn lemma_caches_kept(old_t: &Self, new_t: &Self, start: int, end: int)
        requires
            old_t.caches(start, end),
            new_t.buffers@.len() == old_t.buffers@.len(),
            forall|i: int|
                #![trigger new_t.buffers@[i]]
                0 <= i < old_t.buffers@.len() ==> {
                    &&& new_t.buffers@[i].stored_block == old_t.buffers@[i].stored_block
                    &&& (new_t.buffers@[i].status != BlockTranslatorStatus::Unknown) == (
                    old_t.buffers@[i].status != BlockTranslatorStatus::Unknown)
                },
        ensures
            new_t.caches(start, end),
    {
        assert forall|p: int| start <= p < end implies #[trigger] new_t.is_cached(
            Self::hw_block_of(p),
        ) by {
            assert(old_t.is_cached(Self::hw_block_of(p)));
            let i = choose|i: int|
                0 <= i < old_t.buffers@.len() && #[trigger] old_t.buffers@[i].status
                    != BlockTranslatorStatus::Unknown && old_t.buffers@[i].stored_block
                    == Self::hw_block_of(p);
            assert(new_t.buffers@[i].status != BlockTranslatorStatus::Unknown);
        }
    }

    /// Writing buffer `i` back to the device and marking it unchanged keeps
    /// the presented bytes and the agreement with the device.
    proof fn lemma_write_back_keeps_view(old_t: &Self, new_t: &Self, i: int)
        requires
            old_t.consistent(),
            new_t.wf(),
            0 <= i < BUFS,
            old_t.buffers@[i].status == BlockTranslatorStatus::Modified,
            new_t.buffers@.len() == BUFS,
            forall|j: int| 0 <= j < BUFS && j != i ==> #[trigger] new_t.buffers@[j] == old_t.buffers@[j],
            new_t.buffers@[i].buffer == old_t.buffers@[i].buffer,
            new_t.buffers@[i].stored_block == old_t.buffers@[i].stored_block,
            new_t.buffers@[i].status == BlockTranslatorStatus::Read,
            new_t.storage.contents() == overwritten(
                erased(
                    old_t.storage.contents(),
                    old_t.buffers@[i].stored_block as int,
                    old_t.buffers@[i].stored_block + Self::hw(),
                ),
                old_t.buffers@[i].stored_block as int,
                old_t.buffers@[i].buffer.bytes_view().subrange(0, Self::hw()),
            ),
        ensures
            new_t.consistent(),
            new_t@ == old_t@,
    {
        let ob = old_t.buffers@;
        let nb = new_t.buffers@;
        let od = old_t.storage.contents();
        let nd = new_t.storage.contents();
        let s = ob[i].stored_block as int;
        ob[i].buffer.lemma_len();
        assert(ob[i].buffer.bytes_view().subrange(0, Self::hw()).len() == Self::hw());
        assert(s + Self::hw() <= od.len());
        assert forall|p: int| 0 <= p < od.len() implies #[trigger] overlay(nb, nd, Self::hw())[p] == overlay(
            ob,
            od, Self::hw(),
        )[p] by {
            if exists|j: int| 0 <= j < nb.len() && #[trigger] holds(nb[j], p, Self::hw()) {
                let j = choose|j: int| 0 <= j < nb.len() && #[trigger] holds(nb[j], p, Self::hw());
                assert(holds(ob[j], p, Self::hw()));
                lemma_overlay_held(nb, nd, p, j, Self::hw());
                lemma_overlay_held(ob, od, p, j, Self::hw());
            } else {
                assert forall|j: int| 0 <= j < ob.len() implies !#[trigger] holds(ob[j], p, Self::hw()) by {
                    assert(!holds(nb[j], p, Self::hw()));
                    if j != i {
                        assert(nb[j] == ob[j]);
                    }
                }
                lemma_overlay_free(nb, nd, p, Self::hw());
                lemma_overlay_free(ob, od, p, Self::hw());
                assert(!(s <= p < s + Self::hw())) by {
                    assert(!holds(nb[i], p, Self::hw()));
                }
                assert(erased(od, s, s + Self::hw())[p] == od[p]);
                assert(nd[p] == od[p]);
            }
        }
        assert(overlay(nb, nd, Self::hw()) =~= overlay(ob, od, Self::hw()));
        assert forall|j: int|
            0 <= j < BUFS && nb[j].status
                == BlockTranslatorStatus::Read implies #[trigger] nb[j].buffer.bytes_view().subrange(0, Self::hw())
            == nd.subrange(nb[j].stored_block as int, nb[j].stored_block + Self::hw()) by {
            let sj = nb[j].stored_block as int;
            if j == i {
                assert(nb[j].buffer.bytes_view().subrange(0, Self::hw()) =~= nd.subrange(sj, sj + Self::hw()));
            } else {
                assert(ob[j].buffer.bytes_view().subrange(0, Self::hw()) == od.subrange(sj, sj + Self::hw()));
                assert forall|p: int| sj <= p < sj + Self::hw() implies #[trigger] nd[p] == od[p] by {
                    if s <= p < s + Self::hw() {
                        lemma_aligned_overlap(s, sj, p, Self::hw());
                    }
                }
                assert(nd.subrange(sj, sj + Self::hw()) =~= od.subrange(sj, sj + Self::hw()));
            }
        }
        assert forall|j: int|
            0 <= j < nb.len() && nb[j].status
                != BlockTranslatorStatus::Unknown implies #[trigger] nb[j].stored_block + Self::hw()
            <= nd.len() by {
            assert(ob[j].stored_block + Self::hw() <= od.len());
        }
    }

    /// When no buffer holds changes, the translator presents exactly the
    /// bytes of the device.
    proof fn lemma_clean_view_is_device(t: &Self)
        requires
            t.consistent(),
            forall|k: int|
                0 <= k < BUFS ==> #[trigger] t.buffers@[k].status != BlockTranslatorStatus::Modified,
        ensures
            t@ == t.device(),
            !t.dirty(),
    {
        let b = t.buffers@;
        let d = t.storage.contents();
        assert forall|p: int| 0 <= p < d.len() implies #[trigger] overlay(b, d, Self::hw())[p] == d[p] by {
            if exists|j: int| 0 <= j < b.len() && #[trigger] holds(b[j], p, Self::hw()) {
                let j = choose|j: int| 0 <= j < b.len() && #[trigger] holds(b[j], p, Self::hw());
                lemma_overlay_held(b, d, p, j, Self::hw());
                assert(b[j].status == BlockTranslatorStatus::Read);
                let sj = b[j].stored_block as int;
                assert(b[j].buffer.bytes_view().subrange(0, Self::hw()) == d.subrange(sj, sj + Self::hw()));
                assert(b[j].buffer.bytes_view().subrange(0, Self::hw())[p - sj] == d.subrange(
                    sj,
                    sj + Self::hw(),
                )[p - sj]);
            } else {
                lemma_overlay_free(b, d, p, Self::hw());
            }
        }
        assert(overlay(b, d, Self::hw()) =~= d);
    }
}

/// `n` zero bytes.
pub open spec fn zero_bytes(n: nat) -> Seq<u8> {
    Seq::new(n, |i: int| 0u8)
}

/// `array` as a vector, in the same order.
///
/// Trusted: calls `<Vec<T> as From<[T; N]>>::from`, which std documents as
/// allocating a vector and moving the array's items into it.
#[verifier::external_body]
fn array_into_vec<T, const N: usize>(array: [T; N]) -> (v: Vec<T>)
    ensures
        v@ == array@,
{
    Vec::from(array)
}

impl<const VBS: u32, const BUF_SIZE: usize, const BUFS: usize, S: NorFlashStorage> NorFlashTranslator<
    'static,
    VBS,
    BUF_SIZE,
    BUFS,
    S,
> {
    /// Create a new BlockTranslator, with buffers that it allocates itself.
    ///
    /// Example:
    /// Create a BlockTranslator with 1 buffer of 65536 bytes and 512 bytes of virtual block size.
    /// ```no_compile
    /// let mut translated = BlockTranslator::<512, 65536, 1, _>::new(&mut storage)?;
    /// ```
    pub fn new(storage: S) -> (r: Self)
        requires
            Self::geometry_ok(),
        ensures
            r.wf(),
            r.consistent(),
            r.device() == storage.contents(),
            r@ == storage.contents(),
            !r.dirty(),
            r.recency() == Self::first_recency(),
            forall|j: int| 0 <= j < BUFS ==> !#[trigger] r.holding(j),
            forall|j: int| 0 <= j < BUFS ==> #[trigger] r.bytes_of(j) == zero_bytes(BUF_SIZE as nat),
    {
        let mut buffers: Vec<BufferLocation<'static, BUF_SIZE>> = Vec::new();
        let mut i: usize = 0;
        while i < BUFS
            invariant
                i <= BUFS,
                buffers@.len() == i,
                forall|j: int|
                    0 <= j < i ==> #[trigger] buffers@[j].bytes_view() == zero_bytes(BUF_SIZE as nat),
            decreases BUFS - i,
        {
            let zeros: [u8; BUF_SIZE] = [0u8; BUF_SIZE];
            proof {
                broadcast use vstd::array::group_array_axioms;

                assert(zeros@ =~= zero_bytes(BUF_SIZE as nat));
            }
            buffers.push(BufferLocation::Owned(Box::new(zeros)));
            i = i + 1;
        }
        let r = Self::new_internal(storage, buffers);
        proof {
            assert forall|j: int| 0 <= j < BUFS implies #[trigger] r.bytes_of(j)
                == zero_bytes(BUF_SIZE as nat) by {
                assert(!r.holding(j));
                assert(r.buffers@[j].buffer == buffers@[j]);
            }
        }
        r
    }
}

impl<'a, const VBS: u32, const BUF_SIZE: usize, const BUFS: usize, S: NorFlashStorage> View for NorFlashTranslator<
    'a,
    VBS,
    BUF_SIZE,
    BUFS,
    S,
> {
    type V = Seq<u8>;

    /// The bytes of the device as the translator presents them.
    closed spec fn view(&self) -> Seq<u8> {
        overlay(self.buffers@, self.storage.contents(), S::ERASE_SIZE as int)
    }
}

} // verus!
