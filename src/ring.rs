use vstd::prelude::*;
use crate::command::{decode_prefix, le_u32_at, le_bytes, parse_end, parse_spec, views, Command};

verus! {

/// Size of the region's header, in bytes: write head, read head, capacity,
/// a reserved word, two heartbeats, supervisor flags and an overflow counter.
pub const HEADER_SIZE: usize = 32;

/// Bytes the producer has written and the consumer has not yet read, for a
/// data region of `cap` bytes.
pub open spec fn available_spec(write_head: u32, read_head: u32, cap: nat) -> nat {
    if cap == 0 {
        0
    } else {
        (((write_head as int) % (cap as int) + cap - (read_head as int) % (cap as int)) % (
        cap as int)) as nat
    }
}

/// The `n` bytes of the circular data region that start at `start`.
pub open spec fn unrolled(region: Seq<u8>, start: nat, n: nat, cap: nat) -> Seq<u8> {
    Seq::new(n, |k: int| region[HEADER_SIZE + (start + k) % (cap as int)])
}

/// The consumer side of a single-producer single-consumer command ring. The
/// region it reads holds a 32-byte header followed by a circular data region
/// of `capacity` bytes.
pub struct RingBufferConsumer {
    region: Vec<u8>,
    capacity: usize,
}

impl RingBufferConsumer {
    /// The bytes of the region, header included.
    pub closed spec fn region_view(&self) -> Seq<u8> {
        self.region@
    }

    /// Size of the circular data region.
    pub closed spec fn cap(&self) -> nat {
        self.capacity as nat
    }

    /// The region is a header followed by the whole data region.
    pub open spec fn wf(&self) -> bool {
        &&& self.region_view().len() == HEADER_SIZE + self.cap()
        &&& self.cap() <= u32::MAX
        &&& HEADER_SIZE + self.cap() <= usize::MAX
    }

    /// The write head stored in the header.
    pub open spec fn write_head_spec(&self) -> u32 {
        le_u32_at(self.region_view(), 0)
    }

    /// The read head stored in the header.
    pub open spec fn read_head_spec(&self) -> u32 {
        le_u32_at(self.region_view(), 4)
    }

    /// A consumer of `region`, whose data region holds `capacity` bytes.
    pub fn new(region: Vec<u8>, capacity: usize) -> (r: RingBufferConsumer)
        requires
            region@.len() == HEADER_SIZE + capacity,
            capacity <= u32::MAX,
        ensures
            r.wf(),
            r.region_view() == region@,
            r.cap() == capacity,
    {
        let _ = region.len();
        RingBufferConsumer { region, capacity }
    }

    /// The bytes of the region, header included.
    pub fn region(&self) -> (r: &Vec<u8>)
        ensures
            r@ == self.region_view(),
    {
        &self.region
    }

    /// The write head, as the producer last stored it.
    pub fn write_head(&self) -> (r: u32)
        requires
            self.wf(),
        ensures
            r == self.write_head_spec(),
    {
        crate::command::read_u32_le(self.region.as_slice(), 0)
    }

    /// The read head, as the consumer last stored it.
    pub fn read_head(&self) -> (r: u32)
        requires
            self.wf(),
        ensures
            r == self.read_head_spec(),
    {
        crate::command::read_u32_le(self.region.as_slice(), 4)
    }

    fn set_read_head(&mut self, value: u32)
        requires
            old(self).wf(),
        ensures
            final(self).wf(),
            final(self).cap() == old(self).cap(),
            final(self).region_view() == old(self).region_view().subrange(0, 4) + le_bytes(value)
                + old(self).region_view().subrange(8, old(self).region_view().len() as int),
    {
        self.region.set(4, (value & 0xffu32) as u8);
        self.region.set(5, ((value >> 8u32) & 0xffu32) as u8);
        self.region.set(6, ((value >> 16u32) & 0xffu32) as u8);
        self.region.set(7, ((value >> 24u32) & 0xffu32) as u8);
        proof {
            assert(self.region@ =~= old(self).region_view().subrange(0, 4) + le_bytes(value)
                + old(self).region_view().subrange(8, old(self).region_view().len() as int));
        }
    }

    /// The byte at `offset` of the data region, taken modulo its size.
    fn read_byte(&self, offset: usize) -> (r: u8)
        requires
            self.wf(),
            self.cap() > 0,
        ensures
            r == self.region_view()[HEADER_SIZE + (offset as int) % (self.cap() as int)],
    {
        let wrapped = offset % self.capacity;
        self.region[HEADER_SIZE + wrapped]
    }

    /// The `len` bytes of the data region that start at `offset`, wrapping
    /// around its end.
    fn read_bytes(&self, offset: usize, len: usize) -> (r: Vec<u8>)
        requires
            self.wf(),
            self.cap() > 0,
            offset < self.cap(),
            len <= self.cap(),
        ensures
            r@ == unrolled(self.region_view(), offset as nat, len as nat, self.cap()),
    {
        let mut buf: Vec<u8> = Vec::with_capacity(len);
        let mut i: usize = 0;
        let mut k: usize = offset;
        proof {
            vstd::arithmetic::div_mod::lemma_small_mod(offset as nat, self.cap());
        }
        while i < len
            invariant
                self.wf(),
                self.cap() > 0,
                offset < self.cap(),
                len <= self.cap(),
                i <= len,
                k < self.cap(),
                k as int == (offset + i) % (self.cap() as int),
                buf@ =~= unrolled(self.region_view(), offset as nat, i as nat, self.cap()),
            decreases len - i,
        {
            proof {
                vstd::arithmetic::div_mod::lemma_small_mod(k as nat, self.cap());
            }
            let b = self.read_byte(k);
            buf.push(b);
            proof {
                let c = self.cap() as int;
                vstd::arithmetic::div_mod::lemma_add_mod_noop(offset + i, 1, c);
                if c > 1 {
                    vstd::arithmetic::div_mod::lemma_small_mod(1, c as nat);
                } else {
                    assert(1int % 1 == 0);
                }
                if k + 1 < c {
                    vstd::arithmetic::div_mod::lemma_small_mod((k + 1) as nat, c as nat);
                } else {
                    vstd::arithmetic::div_mod::lemma_mod_self_0(c);
                }
            }
            k = if k + 1 == self.capacity {
                0
            } else {
                k + 1
            };
            i = i + 1;
        }
        buf
    }

    /// Bytes the producer has written and the consumer has not yet read.
    pub fn available(&self) -> (r: usize)
        requires
            self.wf(),
        ensures
            r == available_spec(self.write_head_spec(), self.read_head_spec(), self.cap()),
            r <= self.cap(),
    {
        if self.capacity == 0 {
            return 0;
        }
        let wh = (self.write_head() as usize) % self.capacity;
        let rh = (self.read_head() as usize) % self.capacity;
        if wh >= rh {
            proof {
                assert((wh + self.cap() - rh) % (self.cap() as int) == (wh - rh) as int) by {
                    vstd::arithmetic::div_mod::lemma_mod_add_multiples_vanish(
                        (wh - rh) as int,
                        self.cap() as int,
                    );
                    vstd::arithmetic::div_mod::lemma_small_mod(
                        (wh - rh) as nat,
                        self.cap(),
                    );
                }
            }
            wh - rh
        } else {
            proof {
                vstd::arithmetic::div_mod::lemma_small_mod(
                    (wh + self.cap() - rh) as nat,
                    self.cap(),
                );
            }
            self.capacity - rh + wh
        }
    }

    /// Reads every whole command that is available, stopping cleanly at an
    /// unknown type byte or at a message the producer has not finished, and
    /// stores the read head just past the last command read.
    pub fn drain(&mut self) -> (r: Vec<Command>)
        requires
            old(self).wf(),
        ensures
            final(self).wf(),
            final(self).cap() == old(self).cap(),
            ({
                let cap = old(self).cap();
                let n = available_spec(old(self).write_head_spec(), old(self).read_head_spec(), cap);
                let start = if cap == 0 { 0 } else { (old(self).read_head_spec() as nat) % cap };
                let bytes = unrolled(old(self).region_view(), start, n, cap);
                let new_head = if cap == 0 { old(self).read_head_spec() as nat } else { (start + parse_end(bytes, 0)) % cap };
                &&& views(r@) == parse_spec(bytes)
                &&& final(self).region_view() == old(self).region_view().subrange(0, 4)
                    + le_bytes(new_head as u32) + old(self).region_view().subrange(
                    8,
                    old(self).region_view().len() as int,
                )
            }),
    {
        let ghost old_self = *self;
        if self.capacity == 0 {
            let rh = self.read_head();
            self.set_read_head(rh);
            proof {
                assert(parse_spec(Seq::<u8>::empty()) =~= Seq::empty());
                let bytes = unrolled(old_self.region_view(), 0, 0, 0);
                assert(bytes =~= Seq::<u8>::empty());
            }
            return Vec::new();
        }
        let n = self.available();
        let start = (self.read_head() as usize) % self.capacity;
        let bytes = self.read_bytes(start, n);
        let (commands, consumed) = decode_prefix(bytes.as_slice());
        let new_head = if consumed >= self.capacity - start {
            consumed - (self.capacity - start)
        } else {
            start + consumed
        };
        proof {
            let c = self.cap() as int;
            if consumed >= c - start {
                vstd::arithmetic::div_mod::lemma_mod_sub_multiples_vanish(start + consumed, c);
                vstd::arithmetic::div_mod::lemma_small_mod((start + consumed - c) as nat, c as nat);
            } else {
                vstd::arithmetic::div_mod::lemma_small_mod((start + consumed) as nat, c as nat);
            }
        }
        self.set_read_head(new_head as u32);
        commands
    }
}

} // verus!
