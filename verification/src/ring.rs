//! Single-producer single-consumer byte ring: a fixed power-of-two data
//! region with two wrapping 32-bit cursors. A frame on the ring is a 4-byte
//! little-endian length prefix followed by that many payload bytes, written
//! contiguously in logical positions (physically it may wrap once around
//! the region's end). Frames come out in exactly the order they went in.
//!
//! Cursors increase monotonically and wrap modulo 2^32 at the type level;
//! a cursor's logical position in the region is its value modulo the
//! capacity, which is sound because the capacity divides 2^32.

use vstd::prelude::*;
use vstd::bytes::spec_u32_to_le_bytes;
use vstd::bytes::u32_to_le_bytes;
use vstd::bytes::u32_from_le_bytes;
use vstd::arithmetic::div_mod::lemma_fundamental_div_mod;
use vstd::arithmetic::div_mod::lemma_mod_mod;
use vstd::arithmetic::div_mod::lemma_mod_twice;
use vstd::arithmetic::div_mod::lemma_mod_self_0;
use vstd::arithmetic::div_mod::lemma_small_mod;
use vstd::arithmetic::div_mod::lemma_add_mod_noop;
use vstd::arithmetic::div_mod::lemma_sub_mod_noop;
use vstd::arithmetic::div_mod::lemma_sub_mod_noop_right;
use vstd::arithmetic::div_mod::lemma_mod_multiples_vanish;

verus! {

/// Everything that can go wrong at the ring.
#[derive(Clone, Copy, Debug, PartialEq, Eq, Structural)]
pub enum RingError {
    /// The frame does not fit in the free space; the ring is unchanged and
    /// the caller may retry after a pop.
    QueueFull,
    /// The requested capacity is zero or not a power of two.
    InvalidCapacity,
}

/// One frame's wire image: the 4-byte little-endian length, then the
/// payload.
pub open spec fn frame_bytes_one(f: Seq<u8>) -> Seq<u8> {
    spec_u32_to_le_bytes(f.len() as u32) + f
}

/// The wire image of a queue of frames, oldest first.
pub open spec fn frames_bytes(frames: Seq<Seq<u8>>) -> Seq<u8>
    decreases frames.len(),
{
    if frames.len() == 0 {
        Seq::empty()
    } else {
        frame_bytes_one(frames[0]) + frames_bytes(frames.skip(1))
    }
}

/// The single-producer single-consumer ring over an owned byte region.
pub struct RingQueue {
    buf: Vec<u8>,
    capacity: u32,
    head: u32,
    tail: u32,
    frames: Ghost<Seq<Seq<u8>>>,
}

impl RingQueue {
    /// The frames in flight, oldest first: what was pushed and not yet
    /// popped.
    pub closed spec fn frames(self) -> Seq<Seq<u8>> {
        self.frames@
    }

    /// The data region's size in bytes.
    pub closed spec fn cap(self) -> int {
        self.capacity as int
    }

    /// The bytes in flight: each frame costs its length plus the 4-byte
    /// prefix.
    pub open spec fn used_space(self) -> int {
        frames_bytes(self.frames()).len() as int
    }

    /// The bytes still free; a push of `l` payload bytes needs `l + 4` of
    /// them.
    pub open spec fn free_space(self) -> int {
        self.cap() - self.used_space()
    }

    /// The ring's invariant: the region matches the capacity, the capacity
    /// is a nonzero divisor of 2^32 (hence a power of two), the cursor gap
    /// equals the bytes in flight, and the region holds the frames' wire
    /// image starting at the head cursor's position.
    pub closed spec fn wf(self) -> bool {
        &&& self.buf@.len() == self.capacity as int
        &&& self.capacity >= 1
        &&& 0x1_0000_0000int % (self.capacity as int) == 0
        &&& self.used_space() <= self.capacity as int
        &&& (self.tail as int - self.head as int) % 0x1_0000_0000int == self.used_space()
        &&& forall|i: int|
            0 <= i < self.used_space() ==> self.buf@[(self.head as int + i) % (
            self.capacity as int)] == #[trigger] frames_bytes(self.frames())[i]
        &&& forall|k: int|
            0 <= k < self.frames().len() ==> (#[trigger] self.frames()[k]).len() + 4
                <= self.capacity as int
    }

    /// A fresh ring of the given capacity, which must be a nonzero power of
    /// two (equivalently: a divisor of 2^32).
    pub fn create(capacity: u32) -> (r: Result<RingQueue, RingError>)
        ensures
            match r {
                Ok(q) => {
                    &&& capacity >= 1
                    &&& 0x1_0000_0000int % (capacity as int) == 0
                    &&& q.wf()
                    &&& q.cap() == capacity
                    &&& q.frames() == Seq::<Seq<u8>>::empty()
                },
                Err(RingError::InvalidCapacity) => capacity == 0 || 0x1_0000_0000int % (
                capacity as int) != 0,
                Err(_) => false,
            },
    {
        if capacity == 0 || 0x1_0000_0000u64 % (capacity as u64) != 0 {
            return Err(RingError::InvalidCapacity);
        }
        let buf = vec![0u8; capacity as usize];
        Ok(RingQueue { buf, capacity, head: 0, tail: 0, frames: Ghost(Seq::empty()) })
    }
}

/// Shifting the left operand of a subtraction by the modulus leaves the
/// remainder unchanged.
proof fn lemma_mod_sub_shift(x: int, y: int, m: int)
    requires
        m >= 1,
    ensures
        ((x % m) - y) % m == (x - y) % m,
{
    lemma_sub_mod_noop(x % m, y, m);
    lemma_mod_twice(x, m);
    lemma_sub_mod_noop(x, y, m);
}

/// Shifting the left operand of an addition by the modulus leaves the
/// remainder unchanged.
proof fn lemma_mod_add_shift(x: int, y: int, m: int)
    requires
        m >= 1,
    ensures
        ((x % m) + y) % m == (x + y) % m,
{
    lemma_add_mod_noop(x % m, y, m);
    lemma_mod_twice(x, m);
    lemma_add_mod_noop(x, y, m);
}

/// A cursor reduced modulo 2^32 has the same position in the region as the
/// unreduced cursor, because the capacity divides 2^32.
proof fn lemma_mod_of_wrap(x: int, cap: int)
    requires
        cap >= 1,
        0x1_0000_0000int % cap == 0,
    ensures
        (x % 0x1_0000_0000int) % cap == x % cap,
{
    lemma_fundamental_div_mod(0x1_0000_0000int, cap);
    let b = 0x1_0000_0000int / cap;
    assert(cap * b == 0x1_0000_0000int);
    lemma_mod_mod(x, cap, b);
}

/// Stepping one byte forward: the next logical position either increments
/// or wraps to zero at the region's end.
proof fn lemma_ring_step(x: int, cap: int)
    requires
        cap >= 1,
    ensures
        (x + 1) % cap == if (x % cap) + 1 == cap {
            0int
        } else {
            (x % cap) + 1
        },
{
    lemma_mod_add_shift(x, 1, cap);
    let t = x % cap;
    if t + 1 == cap {
        lemma_mod_self_0(cap);
    } else {
        lemma_small_mod((t + 1) as nat, cap as nat);
    }
}

/// Writes `bytes` into the region at the cursor position `offset`,
/// wrapping at the region's end: byte `i` lands at position
/// `(offset + i) % len`. Positions whose backward distance from `offset`
/// is at least `bytes.len()` are untouched.
fn ring_write(buf: &mut Vec<u8>, offset: u32, bytes: &[u8])
    requires
        old(buf)@.len() >= 1,
        bytes@.len() <= old(buf)@.len(),
    ensures
        final(buf)@.len() == old(buf)@.len(),
        forall|q: int|
            0 <= q < old(buf)@.len() ==> #[trigger] final(buf)@[q] == {
                let k = (q - offset as int) % (old(buf)@.len() as int);
                if k < bytes@.len() {
                    bytes@[k]
                } else {
                    old(buf)@[q]
                }
            },
{
    let cap = buf.len();
    let mut p: usize = (offset as usize) % cap;
    let mut i: usize = 0;
    proof {
        lemma_small_mod(0nat, cap as nat);
        assert(p as int == (offset as int + 0) % (cap as int));
    }
    while i < bytes.len()
        invariant
            cap == buf@.len(),
            cap == old(buf)@.len(),
            cap >= 1,
            bytes@.len() <= cap,
            i <= bytes@.len(),
            p < cap,
            p as int == (offset as int + i) % (cap as int),
            forall|q: int|
                0 <= q < cap ==> #[trigger] buf@[q] == {
                    let k = (q - offset as int) % (cap as int);
                    if k < i {
                        bytes@[k]
                    } else {
                        old(buf)@[q]
                    }
                },
        decreases bytes@.len() - i,
    {
        let b = *vstd::slice::slice_index_get(bytes, i);
        let ghost prev = buf@;
        buf[p] = b;
        proof {
            let capi = cap as int;
            let off = offset as int;
            // the written position's backward distance from the offset is i
            lemma_mod_sub_shift(off + i, off, capi);
            lemma_small_mod(i as nat, cap as nat);
            assert((p as int - off) % capi == i);
            // every other position keeps its distance and value
            assert forall|q: int| 0 <= q < capi implies #[trigger] buf@[q] == ({
                let k = (q - off) % capi;
                if k < i + 1 {
                    bytes@[k]
                } else {
                    old(buf)@[q]
                }
            }) by {
                let k = (q - off) % capi;
                if q != p as int && k == i {
                    lemma_mod_add_shift(q - off, off, capi);
                    lemma_small_mod(q as nat, cap as nat);
                    assert(q == (off + i) % capi);
                    assert(false);
                }
            }
        }
        i = i + 1;
        p = p + 1;
        if p == cap {
            p = 0;
        }
        proof {
            lemma_ring_step(offset as int + i - 1, cap as int);
        }
    }
}

/// Reads `len` bytes from the region starting at the cursor position
/// `offset`, wrapping at the region's end.
fn ring_read(buf: &Vec<u8>, offset: u32, len: usize) -> (out: Vec<u8>)
    requires
        buf@.len() >= 1,
        len <= buf@.len(),
    ensures
        out@.len() == len,
        forall|i: int|
            0 <= i < len ==> #[trigger] out@[i] == buf@[(offset as int + i) % (buf@.len() as int)],
{
    let cap = buf.len();
    let mut out: Vec<u8> = Vec::new();
    let mut p: usize = (offset as usize) % cap;
    let mut i: usize = 0;
    proof {
        lemma_small_mod(0nat, cap as nat);
    }
    while i < len
        invariant
            cap == buf@.len(),
            cap >= 1,
            len <= cap,
            i <= len,
            out@.len() == i,
            p < cap,
            p as int == (offset as int + i) % (cap as int),
            forall|x: int|
                0 <= x < i ==> #[trigger] out@[x] == buf@[(offset as int + x) % (cap as int)],
        decreases len - i,
    {
        out.push(buf[p]);
        i = i + 1;
        p = p + 1;
        if p == cap {
            p = 0;
        }
        proof {
            lemma_ring_step(offset as int + i - 1, cap as int);
        }
    }
    out
}


/// Wire image of a queue with one more frame at the back: the old image
/// followed by the new frame's image.
proof fn lemma_frames_bytes_push(frames: Seq<Seq<u8>>, f: Seq<u8>)
    ensures
        frames_bytes(frames.push(f)) == frames_bytes(frames) + frame_bytes_one(f),
    decreases frames.len(),
{
    if frames.len() == 0 {
        assert(frames.push(f)[0] == f);
        assert(frames.push(f).skip(1) =~= Seq::<Seq<u8>>::empty());
        assert(frames_bytes(Seq::<Seq<u8>>::empty()) == Seq::<u8>::empty());
        assert(frame_bytes_one(f) + Seq::<u8>::empty() =~= frame_bytes_one(f));
        assert(frames_bytes(frames.push(f)) =~= frame_bytes_one(f));
        assert(frames_bytes(frames) + frame_bytes_one(f) =~= frame_bytes_one(f));
    } else {
        lemma_frames_bytes_push(frames.skip(1), f);
        assert(frames.push(f)[0] == frames[0]);
        assert(frames.push(f).skip(1) =~= frames.skip(1).push(f));
        assert(frames_bytes(frames.push(f)) == frame_bytes_one(frames[0]) + (frames_bytes(
            frames.skip(1),
        ) + frame_bytes_one(f)));
        assert(frame_bytes_one(frames[0]) + (frames_bytes(frames.skip(1)) + frame_bytes_one(f))
            =~= (frame_bytes_one(frames[0]) + frames_bytes(frames.skip(1))) + frame_bytes_one(f));
    }
}

/// The wrapping 32-bit difference of two cursors, as Euclidean remainder.
proof fn lemma_wrap_diff(t: int, h: int)
    requires
        0 <= t < 0x1_0000_0000,
        0 <= h < 0x1_0000_0000,
    ensures
        (t - h) % 0x1_0000_0000int == if t >= h {
            t - h
        } else {
            t - h + 0x1_0000_0000
        },
{
    if t >= h {
        lemma_small_mod((t - h) as nat, 0x1_0000_0000nat);
    } else {
        lemma_mod_multiples_vanish(1, t - h, 0x1_0000_0000int);
        lemma_small_mod((t - h + 0x1_0000_0000) as nat, 0x1_0000_0000nat);
    }
}

/// Adding a full turn of the cursor space does not move a position.
proof fn lemma_mod_full_turn(x: int, cap: int)
    requires
        cap >= 1,
        0x1_0000_0000int % cap == 0,
    ensures
        (x + 0x1_0000_0000) % cap == x % cap,
        (x + 0x1_0000_0000) % 0x1_0000_0000int == x % 0x1_0000_0000int,
{
    lemma_fundamental_div_mod(0x1_0000_0000int, cap);
    let b = 0x1_0000_0000int / cap;
    assert(0x1_0000_0000int == cap * b);
    lemma_mod_multiples_vanish(b, x, cap);
    assert(cap * b + x == x + 0x1_0000_0000);
    lemma_mod_multiples_vanish(1, x, 0x1_0000_0000int);
}

impl RingQueue {
    /// Appends one frame: the 4-byte little-endian length, then the
    /// payload, at the tail cursor, which then advances past it. Fails with
    /// `QueueFull`, changing nothing, exactly when the free space is
    /// smaller than the frame's wire size.
    pub fn push(&mut self, data: &Vec<u8>) -> (r: Result<(), RingError>)
        requires
            old(self).wf(),
            data@.len() + 4 <= u32::MAX,
        ensures
            final(self).cap() == old(self).cap(),
            match r {
                Ok(()) => {
                    &&& old(self).free_space() >= data@.len() + 4
                    &&& final(self).frames() == old(self).frames().push(data@)
                    &&& final(self).wf()
                },
                Err(RingError::QueueFull) => {
                    &&& old(self).free_space() < data@.len() + 4
                    &&& *final(self) == *old(self)
                },
                Err(_) => false,
            },
    {
        proof {
            vstd::bytes::lemma_auto_spec_u32_to_from_le_bytes();
            lemma_wrap_diff(self.tail as int, self.head as int);
        }
        let len32 = data.len() as u32;
        let needed = len32 + 4;
        let inflight = self.tail.wrapping_sub(self.head);
        let free = self.capacity - inflight;
        if needed > free {
            return Err(RingError::QueueFull);
        }
        let len_bytes = u32_to_le_bytes(len32);
        let ghost frames0 = self.frames@;
        let ghost fb = frames_bytes(frames0);
        let ghost used = fb.len() as int;
        let ghost capi = self.capacity as int;
        let ghost headi = self.head as int;
        let ghost taili = self.tail as int;
        let ghost ll = data@.len() as int;
        ring_write(&mut self.buf, self.tail, len_bytes.as_slice());
        let off2 = self.tail.wrapping_add(4);
        ring_write(&mut self.buf, off2, data.as_slice());
        self.tail = self.tail.wrapping_add(needed);
        self.frames = Ghost(frames0.push(data@));
        proof {
            let m = 0x1_0000_0000int;
            lemma_frames_bytes_push(frames0, data@);
            let fb2 = frames_bytes(self.frames@);
            let used2 = used + 4 + ll;
            assert(fb2.len() == used2);
            // the second write's offset addresses positions tail + 4 onward
            assert(off2 as int % m == (taili + 4) % m) by {
                if taili + 4 > u32::MAX {
                    lemma_mod_full_turn(off2 as int, capi);
                    lemma_small_mod(off2 as int as nat, m as nat);
                } else {
                    lemma_small_mod((taili + 4) as nat, m as nat);
                }
            }
            // the new tail keeps the cursor/space relation
            assert((self.tail as int - headi) % m == used2) by {
                let t2 = self.tail as int;
                if taili + needed > u32::MAX {
                    assert(t2 == taili + needed - m);
                    lemma_mod_full_turn(t2 - headi, capi);
                    assert((t2 - headi) + m == (taili + needed) - headi);
                } else {
                    assert(t2 == taili + needed);
                }
                lemma_mod_sub_shift(taili - headi + needed, 0, m);
                assert(((taili + needed) - headi) % m == ((taili - headi) + needed) % m);
                lemma_mod_add_shift(taili - headi, needed as int, m);
                assert(((taili - headi) % m + needed) % m == ((taili - headi) + needed) % m);
                assert((taili - headi) % m == used);
                lemma_small_mod((used + needed) as nat, m as nat);
            }
            // the region now holds the longer wire image at the head
            assert forall|i: int| 0 <= i < used2 implies self.buf@[(headi + i) % capi]
                == #[trigger] fb2[i] by {
                let q = (headi + i) % capi;
                // distances of q from the two write offsets
                lemma_mod_sub_shift(headi + i, taili, capi);
                lemma_mod_sub_shift(headi + i, taili + 4, capi);
                lemma_mod_of_wrap(taili - headi, capi);
                lemma_small_mod(used as nat, capi as nat);
                assert((taili - headi) % capi == used);
                lemma_sub_mod_noop_right(i, taili - headi, capi);
                assert((q - taili) % capi == (i - used) % capi);
                lemma_sub_mod_noop_right(i - 4, taili - headi, capi);
                assert(((headi + i) - (taili + 4)) % capi == (i - 4 - (taili - headi)) % capi);
                assert((q - (taili + 4)) % capi == (i - used - 4) % capi);
                // the second write's distance, through its wrapped offset
                lemma_mod_sub_shift(headi + i, off2 as int, capi);
                assert((q - off2 as int) % capi == ((headi + i) - off2 as int) % capi);
                assert((q - off2 as int) % capi == (i - used - 4) % capi) by {
                    if off2 as int == taili + 4 {
                    } else {
                        assert(off2 as int == taili + 4 - m);
                        lemma_mod_full_turn((headi + i) - (taili + 4), capi);
                        assert(((headi + i) - (off2 as int)) % capi == ((headi + i) - (taili + 4))
                            % capi);
                    }
                    lemma_mod_sub_shift(headi + i, taili + 4, capi);
                }
                if i < used {
                    // old bytes: both writes land at least `free` away
                    lemma_mod_multiples_vanish(1, i - used, capi);
                    lemma_small_mod((capi + i - used) as nat, capi as nat);
                    assert((i - used) % capi == capi - used + i);
                    lemma_mod_multiples_vanish(1, i - used - 4, capi);
                    lemma_small_mod((capi + i - used - 4) as nat, capi as nat);
                    assert((i - used - 4) % capi == capi - used - 4 + i);
                    assert(fb2[i] == fb[i]);
                } else {
                    let j = i - used;
                    // new bytes: position (tail + j) mod capacity
                    if j < 4 {
                        lemma_small_mod(j as nat, capi as nat);
                        assert((i - used) % capi == j);
                        lemma_mod_multiples_vanish(1, j - 4, capi);
                        lemma_small_mod((capi + j - 4) as nat, capi as nat);
                        assert((i - used - 4) % capi == capi + j - 4);
                        assert(fb2[i] == len_bytes@[j]);
                    } else {
                        lemma_small_mod(j as nat, capi as nat);
                        assert((i - used) % capi == j);
                        lemma_small_mod((j - 4) as nat, capi as nat);
                        assert((i - used - 4) % capi == j - 4);
                        assert(fb2[i] == data@[j - 4]);
                    }
                }
            }
        }
        Ok(())
    }

    /// Removes and returns the oldest frame's payload, or `None` when the
    /// ring is empty. The head cursor advances past the frame.
    pub fn pop(&mut self) -> (r: Option<Vec<u8>>)
        requires
            old(self).wf(),
        ensures
            final(self).cap() == old(self).cap(),
            match r {
                None => {
                    &&& old(self).frames().len() == 0
                    &&& *final(self) == *old(self)
                },
                Some(d) => {
                    &&& old(self).frames().len() > 0
                    &&& d@ == old(self).frames()[0]
                    &&& final(self).frames() == old(self).frames().skip(1)
                    &&& final(self).wf()
                },
            },
    {
        proof {
            vstd::bytes::lemma_auto_spec_u32_to_from_le_bytes();
            lemma_wrap_diff(self.tail as int, self.head as int);
        }
        let ghost frames0 = self.frames@;
        let ghost fb = frames_bytes(frames0);
        let ghost used = fb.len() as int;
        let ghost capi = self.capacity as int;
        let ghost headi = self.head as int;
        let ghost taili = self.tail as int;
        if self.head == self.tail {
            proof {
                if frames0.len() > 0 {
                    assert(fb == frame_bytes_one(frames0[0]) + frames_bytes(frames0.skip(1)));
                    assert(fb.len() >= 4);
                }
            }
            return None;
        }
        proof {
            assert(used != 0);
            assert(frames0.len() > 0);
            assert(fb == frame_bytes_one(frames0[0]) + frames_bytes(frames0.skip(1)));
            assert(used >= 4 + frames0[0].len());
        }
        let len_buf = ring_read(&self.buf, self.head, 4);
        proof {
            assert forall|i: int| 0 <= i < 4 implies #[trigger] len_buf@[i]
                == spec_u32_to_le_bytes(frames0[0].len() as u32)[i] by {
                assert(len_buf@[i] == self.buf@[(headi + i) % capi]);
                assert(fb[i] == frame_bytes_one(frames0[0])[i]);
            }
            assert(len_buf@ =~= spec_u32_to_le_bytes(frames0[0].len() as u32));
        }
        let len32 = u32_from_le_bytes(len_buf.as_slice());
        proof {
            assert(len32 as int == frames0[0].len());
        }
        let len = len32 as usize;
        let off2 = self.head.wrapping_add(4);
        let data = ring_read(&self.buf, off2, len);
        self.head = self.head.wrapping_add(4 + len32);
        self.frames = Ghost(frames0.skip(1));
        proof {
            let m = 0x1_0000_0000int;
            let ll = frames0[0].len() as int;
            let fb2 = frames_bytes(self.frames@);
            let used2 = used - 4 - ll;
            assert(fb.len() == 4 + ll + fb2.len());
            // the payload read back is exactly the oldest frame
            assert forall|i: int| 0 <= i < ll implies #[trigger] data@[i] == frames0[0][i] by {
                assert(data@[i] == self.buf@[(off2 as int + i) % capi]);
                assert((off2 as int + i) % capi == (headi + 4 + i) % capi) by {
                    if off2 as int == headi + 4 {
                    } else {
                        assert(off2 as int == headi + 4 - m);
                        lemma_mod_full_turn(off2 as int + i, capi);
                    }
                }
                assert(fb[4 + i] == frames0[0][i]);
            }
            assert(data@ =~= frames0[0]);
            // the new head keeps the cursor/space relation
            let h2 = self.head as int;
            assert((taili - h2) % m == used2) by {
                if headi + 4 + ll > u32::MAX {
                    assert(h2 == headi + 4 + ll - m);
                    assert((taili - h2) - m == taili - (headi + 4 + ll));
                    lemma_mod_multiples_vanish(1, taili - (headi + 4 + ll), m);
                } else {
                    assert(h2 == headi + 4 + ll);
                }
                lemma_sub_mod_noop_right(taili - headi, 4 + ll, m);
                assert((taili - headi - (4 + ll)) % m == ((taili - headi) - (4 + ll)) % m);
                lemma_mod_sub_shift(taili - headi, 4 + ll, m);
                assert(((taili - headi) % m - (4 + ll)) % m == ((taili - headi) - (4 + ll)) % m);
                assert((taili - headi) % m == used);
                lemma_small_mod(used2 as nat, m as nat);
            }
            // the region holds the remaining wire image at the new head
            assert forall|i: int| 0 <= i < used2 implies self.buf@[(h2 + i) % capi]
                == #[trigger] fb2[i] by {
                assert((h2 + i) % capi == (headi + 4 + ll + i) % capi) by {
                    if h2 == headi + 4 + ll {
                    } else {
                        assert(h2 == headi + 4 + ll - m);
                        lemma_mod_full_turn(h2 + i, capi);
                    }
                }
                assert(self.buf@[(headi + (4 + ll + i)) % capi] == fb[4 + ll + i]);
                assert(fb[4 + ll + i] == fb2[i]);
            }
        }
        Some(data)
    }
}

} // verus!
