//! Reassembly of large samples from DATA_FRAG submessages.
//!
//! An [`AssemblyBuffer`] holds the partial payload of one in-progress
//! sample from one writer and the bitmap of fragments already written;
//! a [`FragmentAssembler`] owns the buffers of one remote writer, feeds
//! arriving submessages into them, and emits each sample once every one
//! of its fragments has arrived.

use vstd::prelude::*;
use crate::bitmap::{bit_vec_bits, bitmap_all, bitmap_from_elem, bitmap_set};
use crate::byte_buffer::{
    buffer_byte_at, buffer_suffix_to_vec, buffer_write_at, buffer_zeroed, byte_buffer_bytes,
};
use crate::cache_change::{ChangeKind, DDSData, SequenceNumber};
use crate::messages::{DataFrag, DataFragFlags, RepresentationIdentifier, SerializedPayload};
use crate::time::Timestamp;

verus! {

/// Number of fragments of a `data_size`-byte sample split into
/// `fragment_size`-byte fragments; the last fragment may be short.
pub open spec fn spec_fragment_count(data_size: int, fragment_size: int) -> int
    recommends
        fragment_size >= 1,
{
    data_size / fragment_size + if data_size % fragment_size == 0 {
        0int
    } else {
        1int
    }
}

/// `base` with the bytes from `at` on overwritten by `patch`.
pub open spec fn overwrite_at(base: Seq<u8>, at: int, patch: Seq<u8>) -> Seq<u8>
    recommends
        0 <= at,
        at + patch.len() <= base.len(),
{
    base.take(at) + patch + base.skip(at + patch.len())
}

/// Bits `first..first + n` of `bits` set true, the rest unchanged.
pub open spec fn set_bit_range(bits: Seq<bool>, first: int, n: int) -> Seq<bool> {
    Seq::new(bits.len(), |i: int| if first <= i < first + n {
        true
    } else {
        bits[i]
    })
}

/// How many bits of `bits` are set.
pub open spec fn count_true(bits: Seq<bool>) -> int
    decreases bits.len(),
{
    if bits.len() == 0 {
        0
    } else {
        count_true(bits.drop_last()) + if bits.last() {
            1int
        } else {
            0int
        }
    }
}

/// Whether every bit of `bits` is set.
pub open spec fn all_set(bits: Seq<bool>) -> bool {
    forall|i: int| 0 <= i < bits.len() ==> bits[i]
}

/// Whether a run of fragments fits a buffer of `size` bytes and
/// `n_frags` fragments of `fs` bytes each: a 1-based starting number
/// `fsn` in range, at least one fragment, no write past the buffer, and
/// a payload of exactly the length those fragments occupy (the run that
/// holds the final fragment ends at the buffer's end).
pub open spec fn payload_fits(size: int, n_frags: int, fs: int, fsn: int, n: int, plen: int) -> bool {
    &&& 1 <= fsn
    &&& 1 <= n
    &&& fsn - 1 + n <= n_frags
    &&& plen == if fsn - 1 + n < n_frags {
        n * fs
    } else {
        size - (fsn - 1) * fs
    }
}

/// Every fragment offset lies strictly inside the sample.
pub proof fn lemma_frag_offset_in_bounds(size: int, fs: int, k: int)
    requires
        size >= 1,
        fs >= 1,
        0 <= k < spec_fragment_count(size, fs),
    ensures
        k * fs < size,
{
    vstd::arithmetic::div_mod::lemma_fundamental_div_mod(size, fs);
    vstd::arithmetic::div_mod::lemma_mod_bound(size, fs);
    let q = size / fs;
    let r = size % fs;
    assert(k * fs < size) by (nonlinear_arith)
        requires
            size == fs * q + r,
            0 <= r < fs,
            fs >= 1,
            0 <= k,
            r == 0 ==> k < q,
            r != 0 ==> k <= q,
    ;
}

/// The fragments cover the whole sample: `n_frags` fragments of `fs`
/// bytes reach at least to the sample's end.
pub proof fn lemma_frag_count_covers(size: int, fs: int)
    requires
        size >= 1,
        fs >= 1,
    ensures
        spec_fragment_count(size, fs) * fs >= size,
        spec_fragment_count(size, fs) >= 1,
{
    vstd::arithmetic::div_mod::lemma_fundamental_div_mod(size, fs);
    vstd::arithmetic::div_mod::lemma_mod_bound(size, fs);
    let q = size / fs;
    let r = size % fs;
    let c = spec_fragment_count(size, fs);
    assert(c * fs >= size && c >= 1) by (nonlinear_arith)
        requires
            size == fs * q + r,
            0 <= r < fs,
            fs >= 1,
            size >= 1,
            c == q + if r == 0 { 0int } else { 1int },
    ;
}

/// There are never more fragments than sample bytes.
pub proof fn lemma_frag_count_le_size(size: int, fs: int)
    requires
        size >= 1,
        fs >= 1,
    ensures
        1 <= spec_fragment_count(size, fs) <= size,
{
    vstd::arithmetic::div_mod::lemma_fundamental_div_mod(size, fs);
    vstd::arithmetic::div_mod::lemma_mod_bound(size, fs);
    let q = size / fs;
    let r = size % fs;
    let c = spec_fragment_count(size, fs);
    assert(1 <= c <= size) by (nonlinear_arith)
        requires
            size == fs * q + r,
            0 <= r < fs,
            fs >= 1,
            size >= 1,
            c == q + if r == 0 { 0int } else { 1int },
    ;
}

/// Holds the partial payload of one in-progress sample: a zero-filled
/// buffer of the sample's full length into which fragment payloads are
/// copied, and the bitmap of fragments already written.
pub struct AssemblyBuffer {
    buffer_bytes: bytes::BytesMut,
    data_size: usize,
    fragment_count: usize,
    received_bitmap: bit_vec::BitVec,
    created_time: Timestamp,
    modified_time: Timestamp,
}

impl AssemblyBuffer {
    /// The reassembled bytes so far (unwritten ranges are zero).
    pub closed spec fn bytes(self) -> Seq<u8> {
        byte_buffer_bytes(self.buffer_bytes)
    }

    /// Bit `i` is true exactly when fragment `i + 1` has been written.
    pub closed spec fn frags_received(self) -> Seq<bool> {
        bit_vec_bits(self.received_bitmap)
    }

    /// The sample's total serialized length, prefix included.
    pub closed spec fn size(self) -> int {
        self.data_size as int
    }

    /// The number of fragments the sample was split into.
    pub closed spec fn n_frags(self) -> int {
        self.fragment_count as int
    }

    pub closed spec fn created(self) -> Timestamp {
        self.created_time
    }

    pub closed spec fn modified(self) -> Timestamp {
        self.modified_time
    }

    /// Well-formedness with respect to the writer's fragment size.
    pub open spec fn wf(self, fragment_size: int) -> bool {
        &&& fragment_size >= 1
        &&& self.size() >= 1
        &&& self.bytes().len() == self.size()
        &&& self.n_frags() == spec_fragment_count(self.size(), fragment_size)
        &&& self.frags_received().len() == self.n_frags()
    }

    /// Whether one DATA_FRAG's run of fragments fits this buffer.
    pub open spec fn frag_fits(self, datafrag: DataFrag, fragment_size: int) -> bool {
        payload_fits(
            self.size(),
            self.n_frags(),
            fragment_size,
            datafrag.fragment_starting_num as int,
            datafrag.fragments_in_submessage as int,
            datafrag.serialized_payload@.len() as int,
        )
    }

    /// A fresh buffer: `data_size` zero bytes, no fragment received.
    pub fn new(data_size: u32, fragment_size: u16, now: Timestamp) -> (r: AssemblyBuffer)
        requires
            data_size >= 1,
            fragment_size >= 1,
        ensures
            r.wf(fragment_size as int),
            r.size() == data_size as int,
            r.bytes() == Seq::new(data_size as nat, |i: int| 0u8),
            r.frags_received() == Seq::new(
                spec_fragment_count(data_size as int, fragment_size as int) as nat,
                |i: int| false,
            ),
            r.created() == now,
            r.modified() == now,
    {
        let data_size_us: usize = data_size as usize;
        let frag_size: usize = fragment_size as usize;
        let buffer_bytes = buffer_zeroed(data_size_us);
        proof {
            lemma_frag_count_le_size(data_size as int, fragment_size as int);
        }
        let fragment_count: usize = data_size_us / frag_size + (
        if data_size_us % frag_size == 0 {
            0
        } else {
            1
        });
        let received_bitmap = bitmap_from_elem(fragment_count, false);
        AssemblyBuffer {
            buffer_bytes,
            data_size: data_size_us,
            fragment_count,
            received_bitmap,
            created_time: now,
            modified_time: now,
        }
    }

    /// Writes the payload bytes of one DATA_FRAG into their offsets and
    /// marks its fragments received; a submessage that does not fit is
    /// dropped whole and the buffer is left unchanged.
    pub fn insert_frags(&mut self, datafrag: &DataFrag, frag_size: u16, now: Timestamp) -> (accepted:
        bool)
        requires
            old(self).wf(frag_size as int),
        ensures
            final(self).wf(frag_size as int),
            accepted == old(self).frag_fits(*datafrag, frag_size as int),
            accepted ==> final(self).bytes() == overwrite_at(
                old(self).bytes(),
                (datafrag.fragment_starting_num as int - 1) * (frag_size as int),
                datafrag.serialized_payload@,
            ),
            accepted ==> final(self).frags_received() == set_bit_range(
                old(self).frags_received(),
                datafrag.fragment_starting_num as int - 1,
                datafrag.fragments_in_submessage as int,
            ),
            accepted ==> forall|i: int|
                datafrag.fragment_starting_num - 1 <= i < datafrag.fragment_starting_num - 1
                    + datafrag.fragments_in_submessage ==> final(self).frags_received()[i],
            accepted ==> final(self).modified() == now,
            accepted ==> final(self).size() == old(self).size() && final(self).n_frags() == old(
                self,
            ).n_frags() && final(self).created() == old(self).created(),
            !accepted ==> *final(self) == *old(self),
    {
        let fs: usize = frag_size as usize;
        let fsn_wire: u32 = datafrag.fragment_starting_num;
        if fsn_wire == 0 {
            return false;
        }
        let s: usize = (fsn_wire - 1) as usize;
        let n: usize = datafrag.fragments_in_submessage as usize;
        if n == 0 {
            return false;
        }
        if s >= self.fragment_count || n > self.fragment_count - s {
            return false;
        }
        proof {
            lemma_frag_offset_in_bounds(self.size(), fs as int, s as int);
        }
        let from: usize = s * fs;
        let expected: usize = if s + n < self.fragment_count {
            proof {
                lemma_frag_offset_in_bounds(self.size(), fs as int, s as int + n as int);
                assert((s + n) * fs == s * fs + n * fs) by (nonlinear_arith);
                assert(n * fs <= 0xffff * 0xffff) by (nonlinear_arith)
                    requires
                        n <= 0xffff,
                        fs <= 0xffff,
                ;
            }
            n * fs
        } else {
            self.data_size - from
        };
        if datafrag.serialized_payload.len() != expected {
            return false;
        }
        buffer_write_at(&mut self.buffer_bytes, from, &datafrag.serialized_payload);
        let ghost pre = *self;
        proof {
            assert(set_bit_range(bit_vec_bits(pre.received_bitmap), s as int, 0int)
                =~= bit_vec_bits(pre.received_bitmap));
        }
        let mut f: usize = 0;
        while f < n
            invariant
                f <= n,
                s + n <= pre.fragment_count,
                self.buffer_bytes == pre.buffer_bytes,
                self.data_size == pre.data_size,
                self.fragment_count == pre.fragment_count,
                self.created_time == pre.created_time,
                self.modified_time == pre.modified_time,
                bit_vec_bits(pre.received_bitmap).len() == pre.fragment_count,
                bit_vec_bits(self.received_bitmap) == set_bit_range(
                    bit_vec_bits(pre.received_bitmap),
                    s as int,
                    f as int,
                ),
            decreases n - f,
        {
            bitmap_set(&mut self.received_bitmap, s + f, true);
            proof {
                assert(set_bit_range(bit_vec_bits(pre.received_bitmap), s as int, f as int).update(
                    s + f,
                    true,
                ) =~= set_bit_range(bit_vec_bits(pre.received_bitmap), s as int, f as int + 1));
            }
            f += 1;
        }
        self.modified_time = now;
        true
    }

    /// Whether every fragment of the sample has been written.
    pub fn is_complete(&self) -> (r: bool)
        ensures
            r == all_set(self.frags_received()),
    {
        bitmap_all(&self.received_bitmap)
    }
}

/// What `new_datafrag` hands back when a sample completes: the finished
/// buffer's head parsed as the payload prefix and the rest as the user
/// bytes, tagged as a dispose when the submessage flags say key-only —
/// or nothing, when the buffer is too short for a prefix or its
/// representation identifier is unknown.
pub open spec fn is_completed_sample(
    result: Option<DDSData>,
    bytes: Seq<u8>,
    flags: DataFragFlags,
) -> bool {
    if bytes.len() >= 4 && RepresentationIdentifier::spec_from_bytes(bytes[0], bytes[1]) is Some {
        match result {
            Some(d) => {
                &&& d.change_kind == if flags.key {
                    ChangeKind::NotAliveDisposed
                } else {
                    ChangeKind::Alive
                }
                &&& d.payload.representation_identifier
                    == RepresentationIdentifier::spec_from_bytes(bytes[0], bytes[1]).unwrap()
                &&& d.payload.representation_options == (bytes[2], bytes[3])
                &&& d.payload.value@ == bytes.skip(4)
            },
            None => false,
        }
    } else {
        result is None
    }
}

/// Assembles fragments from one remote writer, whose fragment size is
/// fixed for the writer's lifetime; owns one in-progress
/// [`AssemblyBuffer`] per sequence number.
pub struct FragmentAssembler {
    fragment_size: u16,
    assembly_buffers: Vec<(SequenceNumber, AssemblyBuffer)>,
}

impl FragmentAssembler {
    /// The in-progress buffers, keyed by writer sequence number.
    pub closed spec fn buffers(self) -> Seq<(SequenceNumber, AssemblyBuffer)> {
        self.assembly_buffers@
    }

    /// The writer's constant fragment size.
    pub closed spec fn frag_size(self) -> int {
        self.fragment_size as int
    }

    pub open spec fn has_buffer(self, sn: SequenceNumber) -> bool {
        exists|i: int| 0 <= i < self.buffers().len() && (#[trigger] self.buffers()[i]).0 == sn
    }

    pub open spec fn buffer_index(self, sn: SequenceNumber) -> int {
        choose|i: int| 0 <= i < self.buffers().len() && (#[trigger] self.buffers()[i]).0 == sn
    }

    pub open spec fn buffer_for(self, sn: SequenceNumber) -> AssemblyBuffer {
        self.buffers()[self.buffer_index(sn)].1
    }

    /// Well-formedness: a positive fragment size, distinct sequence
    /// numbers, each buffer well-formed, and no buffer complete (a
    /// completed buffer is consumed at once and never stored).
    pub open spec fn wf(self) -> bool {
        &&& self.frag_size() >= 1
        &&& forall|i: int, j: int|
            0 <= i < j < self.buffers().len() ==> (#[trigger] self.buffers()[i]).0 != (
            #[trigger] self.buffers()[j]).0
        &&& forall|i: int|
            0 <= i < self.buffers().len() ==> (#[trigger] self.buffers()[i]).1.wf(self.frag_size())
        &&& forall|i: int|
            0 <= i < self.buffers().len() ==> !all_set(
                (#[trigger] self.buffers()[i]).1.frags_received(),
            )
    }

    /// How one DATA_FRAG changes the assembler: the stored (or, on first
    /// sight, a fresh) buffer for its sequence number takes the fragments
    /// that fit; a buffer thereby completed is removed and parsed into
    /// the result; buffers of other sequence numbers are untouched.
    pub open spec fn datafrag_transition(
        pre: FragmentAssembler,
        post: FragmentAssembler,
        df: DataFrag,
        flags: DataFragFlags,
        now: Timestamp,
        result: Option<DDSData>,
    ) -> bool {
        let sn = df.writer_sn;
        let fs = pre.frag_size();
        let had = pre.has_buffer(sn);
        if !had && df.data_size == 0 {
            &&& post == pre
            &&& result is None
        } else {
            let size = if had {
                pre.buffer_for(sn).size()
            } else {
                df.data_size as int
            };
            let nfr = if had {
                pre.buffer_for(sn).n_frags()
            } else {
                spec_fragment_count(df.data_size as int, fs)
            };
            let bytes0 = if had {
                pre.buffer_for(sn).bytes()
            } else {
                Seq::new(df.data_size as nat, |i: int| 0u8)
            };
            let bits0 = if had {
                pre.buffer_for(sn).frags_received()
            } else {
                Seq::new(nfr as nat, |i: int| false)
            };
            let created0 = if had {
                pre.buffer_for(sn).created()
            } else {
                now
            };
            let modified0 = if had {
                pre.buffer_for(sn).modified()
            } else {
                now
            };
            let accept = payload_fits(
                size,
                nfr,
                fs,
                df.fragment_starting_num as int,
                df.fragments_in_submessage as int,
                df.serialized_payload@.len() as int,
            );
            let bytes1 = if accept {
                overwrite_at(bytes0, (df.fragment_starting_num as int - 1) * fs, df.serialized_payload@)
            } else {
                bytes0
            };
            let bits1 = if accept {
                set_bit_range(
                    bits0,
                    df.fragment_starting_num as int - 1,
                    df.fragments_in_submessage as int,
                )
            } else {
                bits0
            };
            let modified1 = if accept {
                now
            } else {
                modified0
            };
            &&& post.frag_size() == fs
            &&& if all_set(bits1) {
                &&& !post.has_buffer(sn)
                &&& is_completed_sample(result, bytes1, flags)
            } else {
                &&& post.has_buffer(sn)
                &&& post.buffer_for(sn).bytes() == bytes1
                &&& post.buffer_for(sn).frags_received() == bits1
                &&& post.buffer_for(sn).size() == size
                &&& post.buffer_for(sn).n_frags() == nfr
                &&& post.buffer_for(sn).created() == created0
                &&& post.buffer_for(sn).modified() == modified1
                &&& result is None
            }
            &&& forall|other: SequenceNumber|
                other != sn ==> post.has_buffer(other) == pre.has_buffer(other)
            &&& forall|other: SequenceNumber|
                other != sn && pre.has_buffer(other) ==> post.buffer_for(other) == pre.buffer_for(
                    other,
                )
        }
    }

    /// A fresh assembler for a writer that fragments its samples into
    /// `fragment_size`-byte pieces.
    pub fn new(fragment_size: u16) -> (r: FragmentAssembler)
        requires
            fragment_size >= 1,
        ensures
            r.wf(),
            r.frag_size() == fragment_size as int,
            r.buffers().len() == 0,
    {
        FragmentAssembler { fragment_size, assembly_buffers: Vec::new() }
    }

    /// Feeds one DATA_FRAG submessage in. Returns the completed sample
    /// when this submessage supplies the last missing fragment of its
    /// sequence number, and `None` while fragments are still missing or
    /// the submessage or the finished buffer's head is malformed.
    pub fn new_datafrag(
        &mut self,
        datafrag: &DataFrag,
        flags: DataFragFlags,
        now: Timestamp,
    ) -> (result: Option<DDSData>)
        requires
            old(self).wf(),
        ensures
            final(self).wf(),
            Self::datafrag_transition(*old(self), *final(self), *datafrag, flags, now, result),
    {
        let ghost pre = *old(self);
        let sn = datafrag.writer_sn;
        let frag_size = self.fragment_size;
        let found = self.find_buffer(sn);
        let ghost had = pre.has_buffer(sn);
        let mut ab: AssemblyBuffer;
        let ghost removed_at: int;
        match found {
            Some(i) => {
                proof {
                    lemma_buffer_at(pre, i as int);
                    removed_at = i as int;
                }
                let pair = self.assembly_buffers.remove(i);
                ab = pair.1;
            },
            None => {
                if datafrag.data_size == 0 {
                    return None;
                }
                proof {
                    removed_at = 0;
                    lemma_frag_count_le_size(datafrag.data_size as int, frag_size as int);
                }
                ab = AssemblyBuffer::new(datafrag.data_size, frag_size, now);
            },
        }
        let ghost mid = *self;
        let accepted = ab.insert_frags(datafrag, frag_size, now);
        proof {
            if had {
                assert(mid.buffers() == pre.buffers().remove(removed_at));
                assert forall|j: int| 0 <= j < mid.buffers().len() implies #[trigger] mid.buffers()[j]
                    == if j < removed_at {
                    pre.buffers()[j]
                } else {
                    pre.buffers()[j + 1]
                } by {}
                assert forall|j: int| 0 <= j < mid.buffers().len() implies (
                #[trigger] mid.buffers()[j]).0 != sn by {}
            } else {
                assert(mid.buffers() == pre.buffers());
                assert forall|j: int| 0 <= j < mid.buffers().len() implies (
                #[trigger] mid.buffers()[j]).0 != sn by {}
                if !accepted {
                    lemma_frag_count_le_size(datafrag.data_size as int, frag_size as int);
                    assert(!ab.frags_received()[0]);
                    assert(!all_set(ab.frags_received()));
                }
            }
        }
        if ab.is_complete() {
            let result = if ab.data_size < 4 {
                None
            } else {
                let b0 = buffer_byte_at(&ab.buffer_bytes, 0);
                let b1 = buffer_byte_at(&ab.buffer_bytes, 1);
                match RepresentationIdentifier::from_bytes(b0, b1) {
                    None => None,
                    Some(rep_id) => {
                        let b2 = buffer_byte_at(&ab.buffer_bytes, 2);
                        let b3 = buffer_byte_at(&ab.buffer_bytes, 3);
                        let value = buffer_suffix_to_vec(&ab.buffer_bytes, 4);
                        let payload = SerializedPayload {
                            representation_identifier: rep_id,
                            representation_options: (b2, b3),
                            value,
                        };
                        if flags.key {
                            Some(DDSData::new_disposed_by_key(ChangeKind::NotAliveDisposed, payload))
                        } else {
                            Some(DDSData::new(payload))
                        }
                    },
                }
            };
            proof {
                let posta = *self;
                assert(is_completed_sample(result, ab.bytes(), flags));
                assert(!posta.has_buffer(sn));
                assert forall|other: SequenceNumber| other != sn implies posta.has_buffer(other)
                    == pre.has_buffer(other) by {
                    if had {
                        if pre.has_buffer(other) {
                            let j = pre.buffer_index(other);
                            lemma_buffer_at(pre, j);
                            let j2 = if j < removed_at {
                                j
                            } else {
                                j - 1
                            };
                            assert(posta.buffers()[j2].0 == other);
                        }
                        if posta.has_buffer(other) {
                            let j2 = posta.buffer_index(other);
                            let j = if j2 < removed_at {
                                j2
                            } else {
                                j2 + 1
                            };
                            assert(pre.buffers()[j].0 == other);
                        }
                    }
                }
                assert forall|other: SequenceNumber| other != sn && pre.has_buffer(other) implies
                    posta.buffer_for(other) == pre.buffer_for(other) by {
                    let j = pre.buffer_index(other);
                    lemma_buffer_at(pre, j);
                    if had {
                        let j2 = if j < removed_at {
                            j
                        } else {
                            j - 1
                        };
                        assert(posta.buffers()[j2].0 == other);
                        lemma_buffer_at(posta, j2);
                    } else {
                        lemma_buffer_at(posta, j);
                    }
                }
            }
            result
        } else {
            self.assembly_buffers.push((sn, ab));
            proof {
                let posta = *self;
                assert(posta.buffers() == mid.buffers().push((sn, ab)));
                assert(posta.buffers()[posta.buffers().len() - 1] == (sn, ab));
                assert forall|p: int, q: int| 0 <= p < q < posta.buffers().len() implies (
                #[trigger] posta.buffers()[p]).0 != (#[trigger] posta.buffers()[q]).0 by {
                    if q < posta.buffers().len() - 1 {
                        if had {
                            let p1 = if p < removed_at {
                                p
                            } else {
                                p + 1
                            };
                            let q1 = if q < removed_at {
                                q
                            } else {
                                q + 1
                            };
                            assert(pre.buffers()[p1].0 != pre.buffers()[q1].0);
                        }
                    } else {
                        assert((posta.buffers()[p]).0 != sn);
                    }
                }
                assert(posta.wf());
                lemma_buffer_at(posta, posta.buffers().len() - 1);
                assert(posta.buffer_for(sn) == ab);
                assert forall|other: SequenceNumber| other != sn implies posta.has_buffer(other)
                    == pre.has_buffer(other) by {
                    if pre.has_buffer(other) {
                        let j = pre.buffer_index(other);
                        lemma_buffer_at(pre, j);
                        let j2 = if !had || j < removed_at {
                            j
                        } else {
                            j - 1
                        };
                        assert(posta.buffers()[j2].0 == other);
                    }
                    if posta.has_buffer(other) {
                        let j2 = posta.buffer_index(other);
                        lemma_buffer_at(posta, j2);
                        if j2 < posta.buffers().len() - 1 {
                            let j = if !had || j2 < removed_at {
                                j2
                            } else {
                                j2 + 1
                            };
                            assert(pre.buffers()[j].0 == other);
                        }
                    }
                }
                assert forall|other: SequenceNumber| other != sn && pre.has_buffer(other) implies
                    posta.buffer_for(other) == pre.buffer_for(other) by {
                    let j = pre.buffer_index(other);
                    lemma_buffer_at(pre, j);
                    let j2 = if !had || j < removed_at {
                        j
                    } else {
                        j - 1
                    };
                    assert(posta.buffers()[j2].0 == other);
                    lemma_buffer_at(posta, j2);
                }
            }
            None
        }
    }

    /// The index of some buffer whose last write lies more than
    /// `threshold_nanos` before `now`, when one is stored.
    fn find_stale(&self, now: Timestamp, threshold_nanos: u64) -> (r: Option<usize>)
        ensures
            match r {
                Some(i) => 0 <= i < self.buffers().len() && (self.buffers()[i as int]).1.modified(
                ).nanos + threshold_nanos < now.nanos,
                None => forall|i: int|
                    0 <= i < self.buffers().len() ==> (
                    #[trigger] self.buffers()[i]).1.modified().nanos + threshold_nanos >= now.nanos,
            },
    {
        let mut i: usize = 0;
        while i < self.assembly_buffers.len()
            invariant
                i <= self.assembly_buffers.len(),
                forall|j: int|
                    0 <= j < i ==> (#[trigger] self.buffers()[j]).1.modified().nanos
                        + threshold_nanos >= now.nanos,
            decreases self.assembly_buffers.len() - i,
        {
            let m = self.assembly_buffers[i].1.modified_time.nanos;
            if now.nanos > threshold_nanos && m < now.nanos - threshold_nanos {
                return Some(i);
            }
            i += 1;
        }
        None
    }

    /// Evicts every in-progress buffer whose last write lies more than
    /// `threshold_nanos` before `now`, bounding memory when a writer
    /// fails mid-sample. Safe to invoke at any time.
    pub fn gc(&mut self, now: Timestamp, threshold_nanos: u64)
        requires
            old(self).wf(),
        ensures
            final(self).wf(),
            final(self).frag_size() == old(self).frag_size(),
            forall|sn: SequenceNumber|
                #[trigger] final(self).has_buffer(sn) <==> old(self).has_buffer(sn) && old(
                    self,
                ).buffer_for(sn).modified().nanos + threshold_nanos >= now.nanos,
            forall|sn: SequenceNumber|
                #[trigger] final(self).has_buffer(sn) ==> final(self).buffer_for(sn) == old(
                    self,
                ).buffer_for(sn),
    {
        let ghost pre = *old(self);
        let mut done = false;
        while !done
            invariant
                pre.wf(),
                self.wf(),
                self.frag_size() == pre.frag_size(),
                forall|sn: SequenceNumber|
                    #[trigger] self.has_buffer(sn) ==> pre.has_buffer(sn) && self.buffer_for(sn)
                        == pre.buffer_for(sn),
                forall|sn: SequenceNumber|
                    #[trigger] pre.has_buffer(sn) && pre.buffer_for(sn).modified().nanos
                        + threshold_nanos >= now.nanos ==> self.has_buffer(sn),
                done ==> forall|i: int|
                    0 <= i < self.buffers().len() ==> (
                    #[trigger] self.buffers()[i]).1.modified().nanos + threshold_nanos >= now.nanos,
            decreases self.buffers().len() + if done {
                0int
            } else {
                1int
            },
        {
            match self.find_stale(now, threshold_nanos) {
                None => {
                    done = true;
                },
                Some(i) => {
                    let ghost mid = *self;
                    proof {
                        lemma_buffer_at(mid, i as int);
                    }
                    let _ = self.assembly_buffers.remove(i);
                    proof {
                        let posta = *self;
                        assert(posta.buffers() == mid.buffers().remove(i as int));
                        assert forall|j: int| 0 <= j < posta.buffers().len() implies
                            #[trigger] posta.buffers()[j] == if j < i as int {
                            mid.buffers()[j]
                        } else {
                            mid.buffers()[j + 1]
                        } by {}
                        assert(posta.wf());
                        assert forall|sn: SequenceNumber| #[trigger] posta.has_buffer(sn) implies
                            pre.has_buffer(sn) && posta.buffer_for(sn) == pre.buffer_for(sn) by {
                            let j2 = posta.buffer_index(sn);
                            lemma_buffer_at(posta, j2);
                            let j = if j2 < i as int {
                                j2
                            } else {
                                j2 + 1
                            };
                            assert(mid.buffers()[j].0 == sn);
                            lemma_buffer_at(mid, j);
                            assert(mid.has_buffer(sn));
                        }
                        assert forall|sn: SequenceNumber|
                            #[trigger] pre.has_buffer(sn) && pre.buffer_for(sn).modified().nanos
                                + threshold_nanos >= now.nanos implies posta.has_buffer(sn) by {
                            assert(mid.has_buffer(sn));
                            let j = mid.buffer_index(sn);
                            lemma_buffer_at(mid, j);
                            if j == i as int {
                                assert(mid.buffer_for(sn) == mid.buffers()[i as int].1);
                                assert(pre.buffer_for(sn) == mid.buffer_for(sn));
                                assert(false);
                            }
                            let j2 = if j < i as int {
                                j
                            } else {
                                j - 1
                            };
                            assert(posta.buffers()[j2].0 == sn);
                        }
                    }
                },
            }
        }
        proof {
            let posta = *self;
            assert forall|sn: SequenceNumber| #[trigger] posta.has_buffer(sn) implies pre.has_buffer(
                sn,
            ) && pre.buffer_for(sn).modified().nanos + threshold_nanos >= now.nanos by {
                let j2 = posta.buffer_index(sn);
                lemma_buffer_at(posta, j2);
                assert(posta.buffers()[j2].1.modified().nanos + threshold_nanos >= now.nanos);
                assert(posta.buffer_for(sn) == pre.buffer_for(sn));
            }
        }
    }

    /// The index of the buffer for `sn`, when one is stored.
    fn find_buffer(&self, sn: SequenceNumber) -> (r: Option<usize>)
        ensures
            match r {
                Some(i) => 0 <= i < self.buffers().len() && self.buffers()[i as int].0 == sn,
                None => !self.has_buffer(sn),
            },
    {
        let mut i: usize = 0;
        while i < self.assembly_buffers.len()
            invariant
                i <= self.assembly_buffers.len(),
                forall|j: int| 0 <= j < i ==> (#[trigger] self.buffers()[j]).0 != sn,
            decreases self.assembly_buffers.len() - i,
        {
            if self.assembly_buffers[i].0 == sn {
                return Some(i);
            }
            i += 1;
        }
        None
    }
}

/// How many of the first bits are set is at most how many there are.
proof fn lemma_count_true_bounds(bits: Seq<bool>)
    ensures
        0 <= count_true(bits) <= bits.len(),
        all_set(bits) <==> count_true(bits) == bits.len(),
    decreases bits.len(),
{
    if bits.len() == 0 {
    } else {
        let head = bits.drop_last();
        lemma_count_true_bounds(head);
        assert(forall|i: int| 0 <= i < head.len() ==> head[i] == bits[i]);
        if all_set(bits) {
            assert(all_set(head));
            assert(bits.last());
        }
        if count_true(bits) == bits.len() {
            assert(count_true(head) == head.len() && bits.last());
            assert forall|i: int| 0 <= i < bits.len() implies bits[i] by {
                if i < head.len() {
                    assert(head[i]);
                }
            }
        }
    }
}

/// Law: a buffer never records more received fragments than the sample
/// has, and it is complete exactly when the count of received fragments
/// reaches the fragment count.
pub proof fn lemma_complete_iff_count(b: AssemblyBuffer, fragment_size: int)
    requires
        b.wf(fragment_size),
    ensures
        count_true(b.frags_received()) <= b.n_frags(),
        all_set(b.frags_received()) <==> count_true(b.frags_received()) == b.n_frags(),
{
    lemma_count_true_bounds(b.frags_received());
}

/// Where fragment `k` (0-based) of a sample of `len` bytes ends: `fs`
/// bytes past its start, or at the sample's end for the final fragment.
pub open spec fn frag_end(len: int, fs: int, k: int) -> int {
    if (k + 1) * fs <= len {
        (k + 1) * fs
    } else {
        len
    }
}

/// The bytes of fragment `k` (0-based) of the sample `data`, as the
/// sender cuts them.
pub open spec fn fragment_bytes(data: Seq<u8>, fs: int, k: int) -> Seq<u8> {
    data.subrange(k * fs, frag_end(data.len() as int, fs, k))
}

/// Every fragment marked received holds exactly the sender's bytes for
/// that fragment.
pub open spec fn frags_match_data(bytes: Seq<u8>, bits: Seq<bool>, fs: int, data: Seq<u8>) -> bool {
    forall|k: int|
        0 <= k < bits.len() && #[trigger] bits[k] ==> bytes.subrange(
            k * fs,
            frag_end(bytes.len() as int, fs, k),
        ) == fragment_bytes(data, fs, k)
}

/// Round-trip law, base case: a fresh buffer has received nothing, so it
/// agrees with any sample on its received fragments.
pub proof fn lemma_fresh_matches(data: Seq<u8>, fs: int)
    requires
        fs >= 1,
        data.len() >= 1,
    ensures
        frags_match_data(
            Seq::new(data.len(), |i: int| 0u8),
            Seq::new(spec_fragment_count(data.len() as int, fs) as nat, |i: int| false),
            fs,
            data,
        ),
{
}

/// Round-trip law, inductive step: writing one DATA_FRAG whose payload
/// is the sender's own cut of the sample preserves agreement with the
/// sample on every received fragment, whatever was received before and
/// in whatever order fragments arrive.
pub proof fn lemma_insert_preserves_match(
    bytes: Seq<u8>,
    bits: Seq<bool>,
    fs: int,
    data: Seq<u8>,
    fsn: int,
    n: int,
    payload: Seq<u8>,
)
    requires
        fs >= 1,
        bytes.len() == data.len(),
        1 <= bytes.len(),
        bits.len() == spec_fragment_count(bytes.len() as int, fs),
        payload_fits(bytes.len() as int, bits.len() as int, fs, fsn, n, payload.len() as int),
        frags_match_data(bytes, bits, fs, data),
        payload == data.subrange((fsn - 1) * fs, (fsn - 1) * fs + payload.len()),
    ensures
        frags_match_data(
            overwrite_at(bytes, (fsn - 1) * fs, payload),
            set_bit_range(bits, fsn - 1, n),
            fs,
            data,
        ),
{
    let len = bytes.len() as int;
    let s = fsn - 1;
    let from = s * fs;
    let plen = payload.len() as int;
    let to = from + plen;
    let nb = overwrite_at(bytes, from, payload);
    let count = bits.len() as int;
    lemma_frag_count_covers(len, fs);
    lemma_frag_offset_in_bounds(len, fs, s);
    if s + n < count {
        lemma_frag_offset_in_bounds(len, fs, s + n);
        assert((s + n) * fs == s * fs + n * fs) by (nonlinear_arith);
    }
    assert(to <= len);
    assert(nb.len() == len);
    assert forall|i: int| 0 <= i < len implies #[trigger] nb[i] == if from <= i < to {
        data[i]
    } else {
        bytes[i]
    } by {
        if from <= i < to {
            assert(nb[i] == payload[i - from]);
            assert(payload[i - from] == data[i]);
        }
    }
    let nbits = set_bit_range(bits, s, n);
    assert forall|k: int|
        0 <= k < nbits.len() && #[trigger] nbits[k] implies nb.subrange(k * fs, frag_end(len, fs, k))
        == fragment_bytes(data, fs, k) by {
        lemma_frag_offset_in_bounds(len, fs, k);
        assert(k * fs < len);
        assert((k + 1) * fs == k * fs + fs) by (nonlinear_arith);
        assert(k * fs <= frag_end(len, fs, k) <= len) by (nonlinear_arith)
            requires
                k * fs < len,
                fs >= 1,
                frag_end(len, fs, k) == if (k + 1) * fs <= len { (k + 1) * fs } else { len },
                (k + 1) * fs == k * fs + fs,
        ;
        if s <= k < s + n {
            assert(frag_end(len, fs, k) <= to) by (nonlinear_arith)
                requires
                    frag_end(len, fs, k) == if (k + 1) * fs <= len { (k + 1) * fs } else { len },
                    k + 1 <= s + n,
                    fs >= 1,
                    s + n < count ==> to == (s + n) * fs,
                    s + n >= count ==> to == len,
                    to <= len,
            ;
            assert(from <= k * fs) by (nonlinear_arith)
                requires
                    s <= k,
                    fs >= 1,
                    from == s * fs,
            ;
            assert forall|i: int| k * fs <= i < frag_end(len, fs, k) implies nb[i] == data[i] by {}
            assert(nb.subrange(k * fs, frag_end(len, fs, k)) =~= fragment_bytes(data, fs, k));
        } else {
            assert(bits[k]);
            if k < s {
                assert(frag_end(len, fs, k) <= from) by (nonlinear_arith)
                    requires
                        frag_end(len, fs, k) == if (k + 1) * fs <= len {
                            (k + 1) * fs
                        } else {
                            len
                        },
                        k + 1 <= s,
                        fs >= 1,
                        from == s * fs,
                        from < len,
                ;
            } else {
                assert(k >= s + n);
                assert(to <= k * fs) by (nonlinear_arith)
                    requires
                        s + n <= k,
                        fs >= 1,
                        s + n < count ==> to == (s + n) * fs,
                        s + n >= count ==> k < count && to <= len && len <= count * fs && k
                            >= count,
                ;
            }
            assert forall|i: int| k * fs <= i < frag_end(len, fs, k) implies nb[i] == bytes[i] by {}
            assert(nb.subrange(k * fs, frag_end(len, fs, k)) =~= bytes.subrange(
                k * fs,
                frag_end(len, fs, k),
            ));
        }
    }
}

/// Round-trip law, conclusion: once every fragment is received, a buffer
/// that agrees with the sender's sample on each fragment holds exactly
/// that sample — splitting then reassembling is the identity.
pub proof fn lemma_complete_match_reassembles(
    bytes: Seq<u8>,
    bits: Seq<bool>,
    fs: int,
    data: Seq<u8>,
)
    requires
        fs >= 1,
        bytes.len() == data.len(),
        1 <= bytes.len(),
        bits.len() == spec_fragment_count(bytes.len() as int, fs),
        frags_match_data(bytes, bits, fs, data),
        all_set(bits),
    ensures
        bytes == data,
{
    let len = bytes.len() as int;
    let count = bits.len() as int;
    lemma_frag_count_covers(len, fs);
    assert forall|i: int| 0 <= i < len implies #[trigger] bytes[i] == data[i] by {
        let k = i / fs;
        vstd::arithmetic::div_mod::lemma_fundamental_div_mod(i, fs);
        vstd::arithmetic::div_mod::lemma_mod_bound(i, fs);
        assert(k * fs <= i < (k + 1) * fs) by (nonlinear_arith)
            requires
                i == fs * k + i % fs,
                0 <= i % fs < fs,
        ;
        assert(0 <= k < count) by (nonlinear_arith)
            requires
                k * fs <= i < len,
                len <= count * fs,
                fs >= 1,
                0 <= i,
                i < (k + 1) * fs,
        ;
        assert(bits[k]);
        let e = frag_end(len, fs, k);
        assert(i < e);
        assert(bytes.subrange(k * fs, e) == fragment_bytes(data, fs, k));
        assert(bytes.subrange(k * fs, e)[i - k * fs] == fragment_bytes(data, fs, k)[i - k * fs]);
    }
    assert(bytes =~= data);
}

/// In a well-formed assembler the buffer index of a stored pair is that
/// pair's own index, and `buffer_for` yields its buffer.
proof fn lemma_buffer_at(a: FragmentAssembler, i: int)
    requires
        a.wf(),
        0 <= i < a.buffers().len(),
    ensures
        a.has_buffer(a.buffers()[i].0),
        a.buffer_index(a.buffers()[i].0) == i,
        a.buffer_for(a.buffers()[i].0) == a.buffers()[i].1,
{
    let sn = a.buffers()[i].0;
    assert(a.has_buffer(sn));
    let j = a.buffer_index(sn);
    if i < j {
        assert((a.buffers()[i]).0 != (a.buffers()[j]).0);
    } else if j < i {
        assert((a.buffers()[j]).0 != (a.buffers()[i]).0);
    }
}

} // verus!

