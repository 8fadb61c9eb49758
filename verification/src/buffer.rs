use vstd::prelude::*;

use crate::protocol::DnsError;

verus! {

/// Big-endian 16-bit value assembled from two octets.
pub open spec fn u16_be(hi: u8, lo: u8) -> u16 {
    ((hi as u16) * 256 + (lo as u16)) as u16
}

/// Big-endian 32-bit value assembled from four octets.
pub open spec fn u32_be(b0: u8, b1: u8, b2: u8, b3: u8) -> u32 {
    ((b0 as u32) * 0x1000000 + (b1 as u32) * 0x10000 + (b2 as u32) * 0x100 + (b3 as u32)) as u32
}

/// High octet of a 16-bit value.
pub open spec fn u16_hi(v: u16) -> u8 {
    (v >> 8) as u8
}

/// Low octet of a 16-bit value.
pub open spec fn u16_lo(v: u16) -> u8 {
    (v & 0xFF) as u8
}

/// Octet `k` (0 = most significant) of a 32-bit value in big-endian order.
pub open spec fn u32_octet(v: u32, k: int) -> u8 {
    if k == 0 {
        ((v >> 24) & 0xFF) as u8
    } else if k == 1 {
        ((v >> 16) & 0xFF) as u8
    } else if k == 2 {
        ((v >> 8) & 0xFF) as u8
    } else {
        ((v >> 0) & 0xFF) as u8
    }
}

/// ASCII case folding of one octet.
pub open spec fn lower(b: u8) -> u8 {
    if 65 <= b && b <= 90 {
        (b + 32) as u8
    } else {
        b
    }
}

/// ASCII case folding of a whole octet sequence.
pub open spec fn lower_seq(s: Seq<u8>) -> Seq<u8> {
    s.map_values(|b: u8| lower(b))
}

/// A length octet whose two most significant bits are set marks a
/// compression pointer.
pub open spec fn is_pointer(len: u8) -> bool {
    len & 0xC0 == 0xC0
}

/// The 14-bit offset a compression pointer resolves to.
pub open spec fn pointer_target(len: u8, next: u8) -> int {
    (((len as u16) ^ 0xC0) * 256 + (next as u16)) as int
}

/// The dotted, case-folded name that decoding yields when it starts at
/// offset `pos` with `jumps` pointer hops already performed; `first` is
/// false once at least one label has been emitted, so that a `.` delimiter
/// precedes every further label.
pub open spec fn parse_name_at(buf: Seq<u8>, pos: int, jumps: int, first: bool) -> Result<
    Seq<u8>,
    DnsError,
>
    decreases 6 - jumps, (if 0 <= pos < 512 { 512 - pos } else { 0int }),
{
    if jumps > 5 {
        Err(DnsError::ExcessiveCompressionJumps)
    } else if !(0 <= pos < 512) {
        Err(DnsError::BufferOverrun)
    } else {
        let len = buf[pos];
        if is_pointer(len) {
            if pos + 1 >= 512 {
                Err(DnsError::BufferOverrun)
            } else if pointer_target(len, buf[pos + 1]) >= 512 {
                Err(DnsError::MalformedName)
            } else {
                parse_name_at(buf, pointer_target(len, buf[pos + 1]), jumps + 1, first)
            }
        } else if len == 0 {
            Ok(Seq::empty())
        } else if pos + 1 + len >= 512 {
            Err(DnsError::BufferOverrun)
        } else {
            let label = lower_seq(buf.subrange(pos + 1, pos + 1 + len));
            let prefix = if first {
                label
            } else {
                seq![46u8] + label
            };
            match parse_name_at(buf, pos + 1 + len, jumps, false) {
                Ok(rest) => Ok(prefix + rest),
                Err(e) => Err(e),
            }
        }
    }
}

/// Where the cursor rests after a successful name decode that started at
/// `pos`: right past the first compression pointer if one occurs, else
/// right past the terminating zero octet.
pub open spec fn name_end(buf: Seq<u8>, pos: int) -> int
    decreases (if 0 <= pos < 512 { 512 - pos } else { 0int }),
{
    if !(0 <= pos < 512) {
        pos
    } else {
        let len = buf[pos];
        if is_pointer(len) {
            pos + 2
        } else if len == 0 {
            pos + 1
        } else if pos + 1 + len >= 512 {
            pos
        } else {
            name_end(buf, pos + 1 + len)
        }
    }
}

/// The octets the name decoder has appended to its output when its scan
/// starts at this state: on a scan that completes, the rest of the name;
/// on one that fails, exactly the labels and delimiters emitted before
/// the failure.
pub open spec fn name_partial(buf: Seq<u8>, pos: int, jumps: int, first: bool) -> Seq<u8>
    decreases 6 - jumps, (if 0 <= pos < 512 { 512 - pos } else { 0int }),
{
    if jumps > 5 {
        Seq::empty()
    } else if !(0 <= pos < 512) {
        Seq::empty()
    } else {
        let len = buf[pos];
        if is_pointer(len) {
            if pos + 1 >= 512 {
                Seq::empty()
            } else if pointer_target(len, buf[pos + 1]) >= 512 {
                Seq::empty()
            } else {
                name_partial(buf, pointer_target(len, buf[pos + 1]), jumps + 1, first)
            }
        } else if len == 0 {
            Seq::empty()
        } else if pos + 1 + len >= 512 {
            if first {
                Seq::empty()
            } else {
                seq![46u8]
            }
        } else {
            let label = lower_seq(buf.subrange(pos + 1, pos + 1 + len));
            let prefix = if first {
                label
            } else {
                seq![46u8] + label
            };
            prefix + name_partial(buf, pos + 1 + len, jumps, false)
        }
    }
}

/// Whether the decoder's linear scan from `pos` reaches a compression
/// pointer octet before stopping; exactly then the cursor has been moved
/// to resume past the first pointer, even when decoding then fails.
pub open spec fn name_sees_pointer(buf: Seq<u8>, pos: int) -> bool
    decreases (if 0 <= pos < 512 { 512 - pos } else { 0int }),
{
    if !(0 <= pos < 512) {
        false
    } else {
        let len = buf[pos];
        if is_pointer(len) {
            true
        } else if len == 0 {
            false
        } else if pos + 1 + len >= 512 {
            false
        } else {
            name_sees_pointer(buf, pos + 1 + len)
        }
    }
}

/// Length of the first label of a dotted name: the distance to the first
/// `.` octet, or the whole length when no dot occurs.
pub open spec fn label_len(name: Seq<u8>) -> int
    decreases name.len(),
{
    if name.len() == 0 {
        0
    } else if name[0] == 46 {
        0
    } else {
        1 + label_len(name.skip(1))
    }
}

pub proof fn lemma_label_len(name: Seq<u8>)
    ensures
        0 <= label_len(name) <= name.len(),
        label_len(name) < name.len() ==> name[label_len(name)] == 46,
        forall|j: int| 0 <= j < label_len(name) ==> name[j] != 46,
    decreases name.len(),
{
    if name.len() == 0 {
    } else if name[0] == 46 {
    } else {
        lemma_label_len(name.skip(1));
        assert forall|j: int| 0 <= j < label_len(name) implies name[j] != 46 by {
            if j > 0 {
                assert(name.skip(1)[j - 1] != 46);
            }
        }
        if label_len(name) < name.len() {
            assert(name.skip(1)[label_len(name) - 1] == 46);
        }
    }
}

/// A scan that saw no dot over `[0, k)` and a dot (or the end) at `k` has
/// found the first label: its length is exactly `k`.
pub proof fn lemma_label_len_from_scan(name: Seq<u8>, k: int)
    requires
        0 <= k <= name.len(),
        forall|j: int| 0 <= j < k ==> name[j] != 46,
        k < name.len() ==> name[k] == 46,
    ensures
        label_len(name) == k,
    decreases name.len(),
{
    if k == 0 {
    } else {
        assert(name[0] != 46);
        lemma_label_len_from_scan(name.skip(1), k - 1);
    }
}

/// The full wire form of a dotted name written without compression: each
/// label preceded by its length octet, the whole terminated by a zero
/// octet. Meaningful for names whose labels fit in 63 octets.
pub open spec fn qname_wire(name: Seq<u8>) -> Seq<u8>
    decreases name.len(),
    via qname_wire_dec
{
    let ll = label_len(name);
    if ll == name.len() {
        seq![ll as u8] + name + seq![0u8]
    } else {
        seq![ll as u8] + name.take(ll) + qname_wire(name.skip(ll + 1))
    }
}

#[via_fn]
proof fn qname_wire_dec(name: Seq<u8>) {
    lemma_label_len(name);
}

/// Outcome of encoding a dotted name at cursor offset `pos`: the offset
/// right past the terminating zero octet on success, and otherwise the
/// error the encoder stops with — `LabelTooLong` as soon as a label of
/// more than 63 octets comes up, `BufferOverrun` as soon as an octet
/// would land at offset 512 or beyond.
pub open spec fn qname_enc(name: Seq<u8>, pos: int) -> Result<int, DnsError>
    decreases name.len(),
    via qname_enc_dec
{
    let ll = label_len(name);
    if ll > 63 {
        Err(DnsError::LabelTooLong)
    } else if pos + 1 + ll > 512 {
        Err(DnsError::BufferOverrun)
    } else if ll == name.len() {
        if pos + 1 + ll < 512 {
            Ok(pos + ll + 2)
        } else {
            Err(DnsError::BufferOverrun)
        }
    } else {
        qname_enc(name.skip(ll + 1), pos + 1 + ll)
    }
}

#[via_fn]
proof fn qname_enc_dec(name: Seq<u8>, pos: int) {
    lemma_label_len(name);
}

/// The octets the name encoder has written when it stops with an error:
/// every label before the first offending one, each with its length octet.
/// A label that is too long or does not fit is not written at all, and
/// only a missing terminator octet leaves the last label in place.
/// Meaningful when `qname_enc` yields an error.
pub open spec fn qname_partial(name: Seq<u8>, pos: int) -> Seq<u8>
    decreases name.len(),
    via qname_partial_dec
{
    let ll = label_len(name);
    if ll > 63 {
        Seq::empty()
    } else if pos + 1 + ll > 512 {
        Seq::empty()
    } else if ll == name.len() {
        seq![ll as u8] + name
    } else {
        seq![ll as u8] + name.take(ll) + qname_partial(name.skip(ll + 1), pos + 1 + ll)
    }
}

#[via_fn]
proof fn qname_partial_dec(name: Seq<u8>, pos: int) {
    lemma_label_len(name);
}

pub proof fn lemma_qname_enc_len(name: Seq<u8>, pos: int)
    ensures
        qname_enc(name, pos) matches Ok(end) ==> end == pos + qname_wire(name).len(),
    decreases name.len(),
{
    let ll = label_len(name);
    lemma_label_len(name);
    if ll > 63 || pos + 1 + ll > 512 {
    } else if ll == name.len() {
    } else {
        lemma_qname_enc_len(name.skip(ll + 1), pos + 1 + ll);
    }
}

/// An owned 512-octet scratch region plus a movable read/write cursor.
pub struct BytePacketBuffer {
    pub buf: [u8; 512],
    pub pos: usize,
}

impl BytePacketBuffer {
    /// A fresh, zero-filled buffer with the cursor at the start.
    pub fn new() -> (r: BytePacketBuffer)
        ensures
            r.pos == 0,
            r.buf@ == Seq::new(512, |i: int| 0u8),
    {
        let buf = [0u8; 512];
        proof {
            assert(buf@ =~= Seq::new(512, |i: int| 0u8));
        }
        BytePacketBuffer { buf, pos: 0 }
    }

    /// The current cursor offset.
    pub fn pos(&self) -> (r: usize)
        ensures
            r == self.pos,
    {
        self.pos
    }

    /// Moves the cursor forward by `steps` octets, without bounds validation.
    pub fn step(&mut self, steps: usize) -> (r: Result<(), DnsError>)
        requires
            old(self).pos + steps <= usize::MAX,
        ensures
            final(self).pos == old(self).pos + steps,
            final(self).buf == old(self).buf,
            r == Ok::<(), DnsError>(()),
    {
        self.pos = self.pos + steps;
        Ok(())
    }

    /// Sets the cursor to an absolute offset.
    pub fn seek(&mut self, pos: usize) -> (r: Result<(), DnsError>)
        ensures
            final(self).pos == pos,
            final(self).buf == old(self).buf,
            r == Ok::<(), DnsError>(()),
    {
        self.pos = pos;
        Ok(())
    }

    /// Reads the octet under the cursor and advances the cursor by one.
    pub fn read(&mut self) -> (r: Result<u8, DnsError>)
        ensures
            final(self).buf == old(self).buf,
            old(self).pos < 512 ==> r == Ok::<u8, DnsError>(old(self).buf@[old(self).pos as int])
                && final(self).pos == old(self).pos + 1,
            old(self).pos >= 512 ==> r == Err::<u8, DnsError>(DnsError::BufferOverrun)
                && final(self).pos == old(self).pos,
    {
        if self.pos >= 512 {
            return Err(DnsError::BufferOverrun);
        }
        let res = self.buf[self.pos];
        self.pos = self.pos + 1;
        Ok(res)
    }

    /// Reads the octet at an absolute offset without moving the cursor.
    pub fn get(&mut self, pos: usize) -> (r: Result<u8, DnsError>)
        ensures
            *final(self) == *old(self),
            pos < 512 ==> r == Ok::<u8, DnsError>(old(self).buf@[pos as int]),
            pos >= 512 ==> r == Err::<u8, DnsError>(DnsError::BufferOverrun),
    {
        if pos >= 512 {
            return Err(DnsError::BufferOverrun);
        }
        Ok(self.buf[pos])
    }

    /// A view of `len` octets starting at offset `start`, without moving
    /// the cursor. The bound deliberately rejects a range that would end
    /// exactly at offset 512.
    pub fn get_range(&self, start: usize, len: usize) -> (r: Result<&[u8], DnsError>)
        requires
            start + len <= usize::MAX,
        ensures
            start + len < 512 ==> (r matches Ok(s) && s@ == self.buf@.subrange(
                start as int,
                start + len,
            )),
            start + len >= 512 ==> (r matches Err(e) && e == DnsError::BufferOverrun),
    {
        if start + len >= 512 {
            return Err(DnsError::BufferOverrun);
        }
        Ok(vstd::slice::slice_subrange(vstd::array::array_as_slice(&self.buf), start, start + len))
    }

    /// Reads two octets big-endian, advancing the cursor accordingly.
    pub fn read_u16(&mut self) -> (r: Result<u16, DnsError>)
        ensures
            final(self).buf == old(self).buf,
            old(self).pos + 2 <= 512 ==> r == Ok::<u16, DnsError>(
                u16_be(old(self).buf@[old(self).pos as int], old(self).buf@[old(self).pos + 1]),
            ) && final(self).pos == old(self).pos + 2,
            old(self).pos + 2 > 512 ==> r == Err::<u16, DnsError>(DnsError::BufferOverrun)
                && final(self).pos == (if old(self).pos >= 512 {
                old(self).pos as int
            } else {
                512
            }),
    {
        let hi = self.read()?;
        let lo = self.read()?;
        proof {
            assert((((hi as u16) << 8) | (lo as u16)) == ((hi as u16) * 256 + (lo as u16)) as u16)
                by (bit_vector);
        }
        Ok(((hi as u16) << 8) | (lo as u16))
    }

    /// Reads four octets big-endian, advancing the cursor accordingly.
    pub fn read_u32(&mut self) -> (r: Result<u32, DnsError>)
        ensures
            final(self).buf == old(self).buf,
            old(self).pos + 4 <= 512 ==> r == Ok::<u32, DnsError>(
                u32_be(
                    old(self).buf@[old(self).pos as int],
                    old(self).buf@[old(self).pos + 1],
                    old(self).buf@[old(self).pos + 2],
                    old(self).buf@[old(self).pos + 3],
                ),
            ) && final(self).pos == old(self).pos + 4,
            old(self).pos + 4 > 512 ==> r == Err::<u32, DnsError>(DnsError::BufferOverrun)
                && final(self).pos == (if old(self).pos >= 512 {
                old(self).pos as int
            } else {
                512
            }),
    {
        let b0 = self.read()?;
        let b1 = self.read()?;
        let b2 = self.read()?;
        let b3 = self.read()?;
        proof {
            assert((((b0 as u32) << 24) | ((b1 as u32) << 16) | ((b2 as u32) << 8) | ((
            b3 as u32) << 0)) == ((b0 as u32) * 0x1000000 + (b1 as u32) * 0x10000 + (b2 as u32)
                * 0x100 + (b3 as u32)) as u32) by (bit_vector);
        }
        Ok(((b0 as u32) << 24) | ((b1 as u32) << 16) | ((b2 as u32) << 8) | ((b3 as u32) << 0))
    }

    /// Writes one octet at the cursor and advances it by one.
    pub fn write(&mut self, val: u8) -> (r: Result<(), DnsError>)
        ensures
            old(self).pos < 512 ==> final(self).buf@ == old(self).buf@.update(
                old(self).pos as int,
                val,
            ) && final(self).pos == old(self).pos + 1 && r == Ok::<(), DnsError>(()),
            old(self).pos >= 512 ==> *final(self) == *old(self) && r == Err::<(), DnsError>(
                DnsError::BufferOverrun,
            ),
    {
        if self.pos >= 512 {
            return Err(DnsError::BufferOverrun);
        }
        self.buf[self.pos] = val;
        self.pos = self.pos + 1;
        Ok(())
    }

    /// Writes one octet at the cursor; same behaviour as `write`.
    pub fn write_u8(&mut self, val: u8) -> (r: Result<(), DnsError>)
        ensures
            old(self).pos < 512 ==> final(self).buf@ == old(self).buf@.update(
                old(self).pos as int,
                val,
            ) && final(self).pos == old(self).pos + 1 && r == Ok::<(), DnsError>(()),
            old(self).pos >= 512 ==> *final(self) == *old(self) && r == Err::<(), DnsError>(
                DnsError::BufferOverrun,
            ),
    {
        self.write(val)?;
        Ok(())
    }

    /// Writes a 16-bit value big-endian. A partial write happens when only
    /// the first octet fits.
    pub fn write_u16(&mut self, val: u16) -> (r: Result<(), DnsError>)
        ensures
            old(self).pos + 2 <= 512 ==> final(self).buf@ == old(self).buf@.update(
                old(self).pos as int,
                u16_hi(val),
            ).update(old(self).pos + 1, u16_lo(val)) && final(self).pos == old(self).pos + 2 && r
                == Ok::<(), DnsError>(()),
            old(self).pos == 511 ==> final(self).buf@ == old(self).buf@.update(511, u16_hi(val))
                && final(self).pos == 512 && r == Err::<(), DnsError>(DnsError::BufferOverrun),
            old(self).pos >= 512 ==> *final(self) == *old(self) && r == Err::<(), DnsError>(
                DnsError::BufferOverrun,
            ),
    {
        self.write((val >> 8) as u8)?;
        self.write((val & 0xFF) as u8)?;
        Ok(())
    }

    /// Writes a 32-bit value big-endian. On overrun, the octets that fit
    /// below offset 512 are still written.
    pub fn write_u32(&mut self, val: u32) -> (r: Result<(), DnsError>)
        ensures
            final(self).buf@.len() == 512,
            old(self).pos >= 512 ==> *final(self) == *old(self) && r == Err::<(), DnsError>(
                DnsError::BufferOverrun,
            ),
            old(self).pos < 512 ==> ({
                let p = old(self).pos as int;
                let e = if p + 4 <= 512 {
                    p + 4
                } else {
                    512
                };
                &&& final(self).pos == e
                &&& (forall|i: int|
                    0 <= i < 512 && !(p <= i < e) ==> final(self).buf@[i] == old(self).buf@[i])
                &&& (forall|i: int| p <= i < e ==> final(self).buf@[i] == u32_octet(val, i - p))
                &&& r == (if p + 4 <= 512 {
                    Ok::<(), DnsError>(())
                } else {
                    Err::<(), DnsError>(DnsError::BufferOverrun)
                })
            }),
    {
        self.write(((val >> 24) & 0xFF) as u8)?;
        self.write(((val >> 16) & 0xFF) as u8)?;
        self.write(((val >> 8) & 0xFF) as u8)?;
        self.write(((val >> 0) & 0xFF) as u8)?;
        Ok(())
    }

    /// Overwrites the octet at an absolute offset without moving the cursor.
    pub fn set(&mut self, pos: usize, val: u8) -> (r: Result<(), DnsError>)
        ensures
            final(self).pos == old(self).pos,
            pos < 512 ==> final(self).buf@ == old(self).buf@.update(pos as int, val) && r == Ok::<
                (),
                DnsError,
            >(()),
            pos >= 512 ==> *final(self) == *old(self) && r == Err::<(), DnsError>(
                DnsError::BufferOverrun,
            ),
    {
        if pos >= 512 {
            return Err(DnsError::BufferOverrun);
        }
        self.buf[pos] = val;
        Ok(())
    }

    /// Overwrites a 16-bit value big-endian at an absolute offset without
    /// moving the cursor. When only the first octet is in bounds, it is
    /// still overwritten.
    pub fn set_u16(&mut self, pos: usize, val: u16) -> (r: Result<(), DnsError>)
        ensures
            final(self).pos == old(self).pos,
            pos + 1 < 512 ==> final(self).buf@ == old(self).buf@.update(pos as int, u16_hi(val))
                .update(pos + 1, u16_lo(val)) && r == Ok::<(), DnsError>(()),
            pos == 511 ==> final(self).buf@ == old(self).buf@.update(511, u16_hi(val)) && r
                == Err::<(), DnsError>(DnsError::BufferOverrun),
            pos >= 512 ==> *final(self) == *old(self) && r == Err::<(), DnsError>(
                DnsError::BufferOverrun,
            ),
    {
        self.set(pos, (val >> 8) as u8)?;
        self.set(pos + 1, (val & 0xFF) as u8)?;
        Ok(())
    }

    /// Decodes a domain name starting at the cursor, appending its dotted,
    /// case-folded form to `outstr`. Compression pointers are followed, at
    /// most five hops; the cursor ends right past the first pointer, or
    /// right past the terminating zero octet when no pointer occurred. On
    /// failure, `outstr` holds exactly the labels emitted before the error
    /// and the cursor rests past the first pointer if one was reached,
    /// else where it started.
    #[verifier::loop_isolation(false)]
    #[verifier::rlimit(100)]
    pub fn read_qname(&mut self, outstr: &mut Vec<u8>) -> (r: Result<(), DnsError>)
        ensures
            final(self).buf@ == old(self).buf@,
            ({
                match parse_name_at(old(self).buf@, old(self).pos as int, 0, true) {
                    Ok(name) => r == Ok::<(), DnsError>(()) && final(outstr)@ == old(outstr)@
                        + name && final(self).pos == name_end(
                        old(self).buf@,
                        old(self).pos as int,
                    ),
                    Err(e) => r == Err::<(), DnsError>(e) && final(outstr)@ == old(outstr)@
                        + name_partial(old(self).buf@, old(self).pos as int, 0, true)
                        && final(self).pos as int == (if name_sees_pointer(
                        old(self).buf@,
                        old(self).pos as int,
                    ) {
                        name_end(old(self).buf@, old(self).pos as int)
                    } else {
                        old(self).pos as int
                    }),
                }
            }),
    {
        let ghost buf0 = self.buf@;
        let ghost pos0 = self.pos as int;
        let ghost out0 = outstr@;

        let mut pos: usize = self.pos();
        let mut jumped: bool = false;
        let mut jumps_performed: usize = 0;
        let mut first: bool = true;

        proof {
            assert(outstr@.skip(out0.len() as int) =~= Seq::<u8>::empty());
            match parse_name_at(buf0, pos0, 0, true) {
                Ok(s) => {
                    assert(outstr@.skip(out0.len() as int) + s =~= s);
                },
                Err(e) => {},
            }
            assert(outstr@.skip(out0.len() as int) + name_partial(buf0, pos0, 0, true)
                =~= name_partial(buf0, pos0, 0, true));
        }

        loop
            invariant
                self.buf@ == buf0,
                self.pos >= 0,
                jumps_performed <= 6,
                jumps_performed > 0 ==> jumped,
                out0.is_prefix_of(outstr@),
                ({
                    let full = parse_name_at(buf0, pos0, 0, true);
                    match parse_name_at(buf0, pos as int, jumps_performed as int, first) {
                        Ok(s) => full == Ok::<Seq<u8>, DnsError>(
                            outstr@.skip(out0.len() as int) + s,
                        ),
                        Err(e) => full == Err::<Seq<u8>, DnsError>(e),
                    }
                }),
                name_partial(buf0, pos0, 0, true) == outstr@.skip(out0.len() as int)
                    + name_partial(buf0, pos as int, jumps_performed as int, first),
                !jumped ==> self.pos as int == pos0 && name_end(buf0, pos as int) == name_end(
                    buf0,
                    pos0,
                ),
                !jumped ==> name_sees_pointer(buf0, pos0) == name_sees_pointer(buf0, pos as int),
                jumped ==> self.pos as int == name_end(buf0, pos0),
                jumped ==> name_sees_pointer(buf0, pos0),
            decreases 6 - jumps_performed, (if pos < 512 { 512 - pos as int } else { 0int }),
        {
            if jumps_performed > 5 {
                proof {
                    assert(name_partial(buf0, pos as int, jumps_performed as int, first)
                        == Seq::<u8>::empty());
                    assert(outstr@ =~= out0 + outstr@.skip(out0.len() as int));
                    assert(outstr@.skip(out0.len() as int) + Seq::<u8>::empty() =~= outstr@.skip(
                        out0.len() as int,
                    ));
                }
                return Err(DnsError::ExcessiveCompressionJumps);
            }

            proof {
                if pos >= 512 {
                    assert(name_partial(buf0, pos as int, jumps_performed as int, first)
                        == Seq::<u8>::empty());
                    assert(outstr@ =~= out0 + outstr@.skip(out0.len() as int));
                    assert(outstr@.skip(out0.len() as int) + Seq::<u8>::empty() =~= outstr@.skip(
                        out0.len() as int,
                    ));
                }
            }
            let len = self.get(pos)?;
            if (len & 0xC0) == 0xC0 {
                if !jumped {
                    self.seek(pos + 2)?;
                }

                proof {
                    assert(name_sees_pointer(buf0, pos as int));
                    assert(name_end(buf0, pos as int) == pos + 2);
                    if pos + 1 >= 512 {
                        assert(name_partial(buf0, pos as int, jumps_performed as int, first)
                            == Seq::<u8>::empty());
                        assert(outstr@ =~= out0 + outstr@.skip(out0.len() as int));
                        assert(outstr@.skip(out0.len() as int) + Seq::<u8>::empty()
                            =~= outstr@.skip(out0.len() as int));
                    }
                }
                let next_byte = self.get(pos + 1)?;
                proof {
                    assert(((((len as u16) ^ 0xC0) << 8) | (next_byte as u16)) == (((len as u16)
                        ^ 0xC0) * 256 + (next_byte as u16)) as u16 && (((len as u16) ^ 0xC0) * 256
                        + (next_byte as u16)) < 65536) by (bit_vector);
                }
                let offset = (((len as u16) ^ 0xC0) << 8) | (next_byte as u16);
                proof {
                    assert(offset == pointer_target(len, buf0[pos + 1]));
                }
                if offset >= 512 {
                    proof {
                        assert(parse_name_at(buf0, pos as int, jumps_performed as int, first)
                            == Err::<Seq<u8>, DnsError>(DnsError::MalformedName));
                        assert(name_partial(buf0, pos as int, jumps_performed as int, first)
                            == Seq::<u8>::empty());
                        assert(outstr@ =~= out0 + outstr@.skip(out0.len() as int));
                        assert(outstr@.skip(out0.len() as int) + Seq::<u8>::empty()
                            =~= outstr@.skip(out0.len() as int));
                    }
                    return Err(DnsError::MalformedName);
                }
                proof {
                    assert(parse_name_at(buf0, pos as int, jumps_performed as int, first)
                        == parse_name_at(buf0, offset as int, jumps_performed + 1, first));
                    assert(name_partial(buf0, pos as int, jumps_performed as int, first)
                        == name_partial(buf0, offset as int, jumps_performed + 1, first));
                }
                pos = offset as usize;

                jumped = true;
                jumps_performed = jumps_performed + 1;
            } else {
                let ghost lpos = pos as int;
                pos = pos + 1;
                if len == 0 {
                    if !jumped {
                        self.seek(pos)?;
                    }
                    proof {
                        assert(outstr@ =~= out0 + outstr@.skip(out0.len() as int));
                    }
                    return Ok(());
                }

                let ghost out_pre = outstr@;
                if !first {
                    outstr.push(46);
                }
                proof {
                    if lpos + 1 + len >= 512 {
                        let delim = if first {
                            Seq::<u8>::empty()
                        } else {
                            seq![46u8]
                        };
                        assert(name_partial(buf0, lpos, jumps_performed as int, first) == delim);
                        assert(outstr@ =~= out_pre + delim);
                        assert(outstr@ =~= out0 + outstr@.skip(out0.len() as int));
                        assert(outstr@.skip(out0.len() as int) =~= out_pre.skip(out0.len() as int)
                            + delim);
                        if !jumped {
                            assert(!name_sees_pointer(buf0, lpos));
                        }
                    }
                }
                let ghost label = buf0.subrange(lpos + 1, lpos + 1 + len);
                let str_buffer = self.get_range(pos, len as usize)?;
                let ghost out_base = outstr@;
                let mut k: usize = 0;
                while k < str_buffer.len()
                    invariant
                        k <= str_buffer@.len(),
                        str_buffer@ == label,
                        label.len() == len,
                        outstr@ == out_base + lower_seq(label).take(k as int),
                    decreases str_buffer@.len() - k,
                {
                    let b = *vstd::slice::slice_index_get(str_buffer, k);
                    let lb = if 65 <= b && b <= 90 {
                        b + 32
                    } else {
                        b
                    };
                    outstr.push(lb);
                    proof {
                        assert(outstr@ =~= out_base + lower_seq(label).take(k + 1));
                    }
                    k = k + 1;
                }
                proof {
                    assert(outstr@ == out_base + lower_seq(label));
                    let full = parse_name_at(buf0, pos0, 0, true);
                    let cur = parse_name_at(buf0, lpos, jumps_performed as int, first);
                    let nxt = parse_name_at(buf0, lpos + 1 + len, jumps_performed as int, false);
                    let prefix = if first {
                        lower_seq(label)
                    } else {
                        seq![46u8] + lower_seq(label)
                    };
                    assert(outstr@ =~= out_pre + prefix);
                    assert(outstr@.skip(out0.len() as int) =~= out_pre.skip(out0.len() as int)
                        + prefix);
                    match nxt {
                        Ok(s) => {
                            assert(cur == Ok::<Seq<u8>, DnsError>(prefix + s));
                            assert(outstr@.skip(out0.len() as int) + s =~= out_pre.skip(
                                out0.len() as int,
                            ) + (prefix + s));
                            assert(full == Ok::<Seq<u8>, DnsError>(
                                outstr@.skip(out0.len() as int) + s,
                            ));
                        },
                        Err(e) => {
                            assert(cur == Err::<Seq<u8>, DnsError>(e));
                        },
                    }
                    let npx = name_partial(buf0, lpos + 1 + len, jumps_performed as int, false);
                    assert(name_partial(buf0, lpos, jumps_performed as int, first) == prefix
                        + npx);
                    assert(outstr@.skip(out0.len() as int) + npx =~= out_pre.skip(
                        out0.len() as int,
                    ) + (prefix + npx));
                    if !jumped {
                        assert(name_sees_pointer(buf0, lpos) == name_sees_pointer(
                            buf0,
                            lpos + 1 + len,
                        ));
                    }
                }
                first = false;
                pos = pos + len as usize;
            }
        }

    }

    /// Encodes a dotted name at the cursor as length-prefixed labels with a
    /// terminating zero octet; no compression is ever emitted. On failure
    /// the labels before the offending one remain written and the cursor
    /// rests past them: there is no rollback at this level.
    #[verifier::loop_isolation(false)]
    #[verifier::rlimit(100)]
    pub fn write_qname(&mut self, qname: &[u8]) -> (r: Result<(), DnsError>)
        ensures
            ({
                let w = qname_wire(qname@);
                match qname_enc(qname@, old(self).pos as int) {
                    Ok(end) => r == Ok::<(), DnsError>(()) && end == old(self).pos + w.len()
                        && final(self).pos == end && final(self).buf@ == old(self).buf@.take(
                        old(self).pos as int,
                    ) + w + old(self).buf@.skip(old(self).pos + w.len()),
                    Err(e) => ({
                        let part = qname_partial(qname@, old(self).pos as int);
                        r == Err::<(), DnsError>(e) && final(self).pos == old(self).pos
                            + part.len() && (old(self).pos <= 512 ==> final(self).buf@ == old(
                            self,
                        ).buf@.take(old(self).pos as int) + part + old(self).buf@.skip(
                            old(self).pos + part.len(),
                        )) && (old(self).pos > 512 ==> *final(self) == *old(self))
                    }),
                }
            }),
    {
        let ghost buf0 = self.buf@;
        let ghost pos0 = self.pos as int;
        let ghost q0 = qname@;

        let n = qname.len();
        let mut start: usize = 0;

        proof {
            assert(q0.skip(0) =~= q0);
            if pos0 <= 512 {
                assert(self.buf@.subrange(pos0, pos0) =~= Seq::<u8>::empty());
                assert(qname_wire(q0) =~= self.buf@.subrange(pos0, pos0) + qname_wire(q0));
                assert(qname_partial(q0, pos0) =~= self.buf@.subrange(pos0, pos0) + qname_partial(
                    q0,
                    pos0,
                ));
            }
        }

        loop
            invariant
                n == q0.len(),
                qname@ == q0,
                start <= n,
                self.buf@.len() == 512,
                pos0 <= self.pos as int,
                self.pos as int <= 512 || self.pos as int == pos0,
                forall|i: int| 0 <= i < pos0 && i < 512 ==> self.buf@[i] == buf0[i],
                forall|i: int| self.pos as int <= i < 512 ==> self.buf@[i] == buf0[i],
                qname_enc(q0, pos0) == qname_enc(q0.skip(start as int), self.pos as int),
                pos0 <= self.pos as int <= 512 ==> qname_wire(q0) =~= self.buf@.subrange(
                    pos0,
                    self.pos as int,
                ) + qname_wire(q0.skip(start as int)),
                pos0 <= self.pos as int <= 512 ==> qname_partial(q0, pos0) == self.buf@.subrange(
                    pos0,
                    self.pos as int,
                ) + qname_partial(q0.skip(start as int), self.pos as int),
                start > 0 ==> pos0 <= 512,
                pos0 > 512 ==> *self == *old(self),
            decreases n - start,
        {
            let ghost rem = q0.skip(start as int);
            let ghost pre_buf = self.buf@;
            let ghost pre_pos = self.pos as int;

            let mut end: usize = start;
            while end < n && *vstd::slice::slice_index_get(qname, end) != 46
                invariant
                    start <= end <= n,
                    forall|j: int| start <= j < end ==> q0[j] != 46,
                decreases n - end,
            {
                end = end + 1;
            }
            proof {
                assert forall|j: int| 0 <= j < end - start implies rem[j] != 46 by {
                    assert(rem[j] == q0[start + j]);
                }
                if (end as int) - (start as int) < rem.len() {
                    assert(rem[end - start] == q0[end as int]);
                }
                lemma_label_len_from_scan(rem, end - start);
            }

            let len = end - start;
            if len > 0x3f {
                proof {
                    assert(qname_enc(rem, self.pos as int) == Err::<int, DnsError>(
                        DnsError::LabelTooLong,
                    ));
                    assert(qname_partial(rem, self.pos as int) == Seq::<u8>::empty());
                    if pos0 <= 512 {
                        let sub = self.buf@.subrange(pos0, self.pos as int);
                        assert(sub + Seq::<u8>::empty() =~= sub);
                        assert(qname_partial(q0, pos0) == sub);
                        assert(self.buf@ =~= buf0.take(pos0) + sub + buf0.skip(
                            self.pos as int,
                        ));
                    } else {
                        assert(start == 0 && q0.skip(0) =~= q0);
                        assert(qname_partial(q0, pos0) == Seq::<u8>::empty());
                    }
                }
                return Err(DnsError::LabelTooLong);
            }

            let p = self.pos();
            if p >= 512 || p + 1 + len > 512 {
                proof {
                    assert(qname_enc(rem, self.pos as int) == Err::<int, DnsError>(
                        DnsError::BufferOverrun,
                    ));
                    assert(qname_partial(rem, self.pos as int) == Seq::<u8>::empty());
                    if pos0 <= 512 {
                        let sub = self.buf@.subrange(pos0, self.pos as int);
                        assert(sub + Seq::<u8>::empty() =~= sub);
                        assert(qname_partial(q0, pos0) == sub);
                        assert(self.buf@ =~= buf0.take(pos0) + sub + buf0.skip(
                            self.pos as int,
                        ));
                    } else {
                        assert(start == 0 && q0.skip(0) =~= q0);
                        assert(qname_partial(q0, pos0) == Seq::<u8>::empty());
                    }
                }
                return Err(DnsError::BufferOverrun);
            }

            self.write_u8(len as u8)?;

            let ghost p1 = self.pos as int;
            let ghost buf_l = self.buf@;
            let mut k: usize = start;
            while k < end
                invariant
                    start <= k <= end <= n,
                    p1 + (end - start) <= 512,
                    p1 >= 1,
                    self.pos as int == p1 + (k - start),
                    self.buf@.len() == 512,
                    forall|i: int|
                        0 <= i < 512 && !(p1 <= i < p1 + (k - start)) ==> self.buf@[i] == buf_l[i],
                    forall|i: int| p1 <= i < p1 + (k - start) ==> self.buf@[i] == q0[start + (i
                        - p1)],
                decreases end - k,
            {
                self.write_u8(*vstd::slice::slice_index_get(qname, k))?;
                k = k + 1;
            }

            proof {
                let ll = (end - start) as int;
                let ws = seq![(len as u8)] + rem.take(ll);
                assert(ws.len() == ll + 1);
                assert forall|j: int| 0 <= j < ll + 1 implies self.buf@[p1 - 1 + j] == ws[j] by {
                    if j == 0 {
                        assert(self.buf@[p1 - 1] == buf_l[p1 - 1]);
                    } else {
                        assert(self.buf@[p1 - 1 + j] == q0[start + (j - 1)]);
                        assert(ws[j] == rem.take(ll)[j - 1]);
                        assert(rem.take(ll)[j - 1] == rem[j - 1]);
                        assert(rem[j - 1] == q0[start + (j - 1)]);
                    }
                }
                assert(self.buf@.subrange(p1 - 1, self.pos as int) =~= ws);
                assert(buf_l.subrange(pos0, p1 - 1) =~= pre_buf.subrange(pos0, p1 - 1));
                assert(self.buf@.subrange(pos0, p1 - 1) =~= buf_l.subrange(pos0, p1 - 1));
                assert(self.buf@.subrange(pos0, self.pos as int) =~= pre_buf.subrange(
                    pos0,
                    p1 - 1,
                ) + ws);
                assert(pre_buf.subrange(pos0, p1 - 1) + ws =~= pre_buf.subrange(pos0, p1 - 1)
                    + seq![(len as u8)] + rem.take(ll));
                assert(qname_enc(rem, pre_pos) == (if ll == rem.len() {
                    if pre_pos + 1 + ll < 512 {
                        Ok::<int, DnsError>(pre_pos + ll + 2)
                    } else {
                        Err::<int, DnsError>(DnsError::BufferOverrun)
                    }
                } else {
                    qname_enc(rem.skip(ll + 1), pre_pos + 1 + ll)
                }));
                if (end as int) < n {
                    assert(rem.skip(ll + 1) =~= q0.skip(end + 1));
                    assert(qname_wire(rem) == seq![(len as u8)] + rem.take(ll) + qname_wire(
                        rem.skip(ll + 1),
                    ));
                    assert(qname_wire(q0) =~= self.buf@.subrange(pos0, self.pos as int)
                        + qname_wire(q0.skip(end + 1)));
                    assert(qname_partial(rem, pre_pos) == seq![(len as u8)] + rem.take(ll)
                        + qname_partial(rem.skip(ll + 1), pre_pos + 1 + ll));
                    assert(qname_partial(q0, pos0) == self.buf@.subrange(pos0, self.pos as int)
                        + qname_partial(q0.skip(end + 1), self.pos as int));
                } else {
                    assert(rem.take(ll) =~= rem);
                    assert(qname_wire(rem) == seq![(len as u8)] + rem + seq![0u8]);
                    assert(qname_wire(q0) =~= self.buf@.subrange(pos0, self.pos as int) + seq![
                        0u8,
                    ]);
                    assert(qname_partial(rem, pre_pos) == seq![(len as u8)] + rem);
                    assert(qname_partial(q0, pos0) == self.buf@.subrange(pos0, self.pos as int));
                }
            }

            proof {
                assert forall|i: int| 0 <= i < pos0 && i < 512 implies self.buf@[i] == buf0[i] by {
                    assert(self.buf@[i] == buf_l[i]);
                    assert(buf_l[i] == pre_buf[i]);
                }
                assert forall|i: int| self.pos as int <= i < 512 implies self.buf@[i]
                    == buf0[i] by {
                    assert(self.buf@[i] == buf_l[i]);
                    assert(buf_l[i] == pre_buf[i]);
                }
            }
            if end == n {
                proof {
                    lemma_qname_enc_len(q0, pos0);
                }
                let ghost pre_term = self.buf@;
                let ghost term_pos = self.pos as int;
                let ghost wire_head = pre_term.subrange(pos0, term_pos);
                proof {
                    assert(qname_wire(q0) == wire_head + seq![0u8]);
                    if term_pos >= 512 {
                        assert(qname_partial(q0, pos0).len() == term_pos - pos0);
                        assert(self.buf@ =~= buf0.take(pos0) + wire_head + buf0.skip(term_pos));
                    }
                }
                self.write_u8(0)?;
                proof {
                    assert(self.buf@.subrange(pos0, term_pos + 1) =~= wire_head + seq![0u8]);
                    assert(qname_wire(q0) == self.buf@.subrange(pos0, term_pos + 1));
                    assert(self.buf@ =~= buf0.take(pos0) + qname_wire(q0) + buf0.skip(
                        pos0 + qname_wire(q0).len(),
                    ));
                }
                return Ok(());
            }
            start = end + 1;
        }
    }
}

/// Cycle guard: a compression pointer whose 14-bit offset resolves back to
/// its own position can never finish; decoding fails with
/// `ExcessiveCompressionJumps` after the jump budget is spent, instead of
/// looping, and emits no output octet at all.
pub proof fn lemma_pointer_cycle_guard(buf: Seq<u8>, pos: int)
    requires
        0 <= pos < 511,
        is_pointer(buf[pos]),
        pointer_target(buf[pos], buf[pos + 1]) == pos,
    ensures
        parse_name_at(buf, pos, 0, true) == Err::<Seq<u8>, DnsError>(
            DnsError::ExcessiveCompressionJumps,
        ),
        name_partial(buf, pos, 0, true) == Seq::<u8>::empty(),
{
    assert(parse_name_at(buf, pos, 6, true) == Err::<Seq<u8>, DnsError>(
        DnsError::ExcessiveCompressionJumps,
    ));
    assert(parse_name_at(buf, pos, 5, true) == parse_name_at(buf, pos, 6, true));
    assert(parse_name_at(buf, pos, 4, true) == parse_name_at(buf, pos, 5, true));
    assert(parse_name_at(buf, pos, 3, true) == parse_name_at(buf, pos, 4, true));
    assert(parse_name_at(buf, pos, 2, true) == parse_name_at(buf, pos, 3, true));
    assert(parse_name_at(buf, pos, 1, true) == parse_name_at(buf, pos, 2, true));
    assert(parse_name_at(buf, pos, 0, true) == parse_name_at(buf, pos, 1, true));
    assert(name_partial(buf, pos, 6, true) == Seq::<u8>::empty());
    assert(name_partial(buf, pos, 5, true) == name_partial(buf, pos, 6, true));
    assert(name_partial(buf, pos, 4, true) == name_partial(buf, pos, 5, true));
    assert(name_partial(buf, pos, 3, true) == name_partial(buf, pos, 4, true));
    assert(name_partial(buf, pos, 2, true) == name_partial(buf, pos, 3, true));
    assert(name_partial(buf, pos, 1, true) == name_partial(buf, pos, 2, true));
    assert(name_partial(buf, pos, 0, true) == name_partial(buf, pos, 1, true));
}

/// A name in canonical form: every label is 1 to 63 octets long and every
/// octet is already folded to lower case.
pub open spec fn name_wf(name: Seq<u8>) -> bool
    decreases name.len(),
    via name_wf_dec
{
    let ll = label_len(name);
    &&& 1 <= ll <= 63
    &&& (forall|j: int| 0 <= j < name.len() ==> lower(#[trigger] name[j]) == name[j])
    &&& (ll < name.len() ==> name_wf(name.skip(ll + 1)))
}

#[via_fn]
proof fn name_wf_dec(name: Seq<u8>) {
    lemma_label_len(name);
}


/// The wire form of a canonical name is at least a length octet, one label
/// octet, and the terminator.
pub proof fn lemma_qname_wire_min_len(name: Seq<u8>)
    requires
        name_wf(name),
    ensures
        qname_wire(name).len() >= 3,
    decreases name.len(),
{
    lemma_label_len(name);
    let ll = label_len(name);
    if ll < name.len() {
        lemma_qname_wire_min_len(name.skip(ll + 1));
    }
}

/// Decoding what the name encoder wrote yields the name back, octet for
/// octet, and leaves the cursor right past the wire form: the name-level
/// round trip, for names in canonical form, wherever the wire form sits in
/// the buffer and whatever jump budget is already spent.
pub proof fn lemma_qname_round_trip(buf: Seq<u8>, name: Seq<u8>, pos: int, jumps: int, first: bool)
    requires
        name_wf(name),
        buf.len() == 512,
        0 <= pos,
        pos + qname_wire(name).len() <= 512,
        0 <= jumps <= 5,
        buf.subrange(pos, pos + qname_wire(name).len()) == qname_wire(name),
    ensures
        parse_name_at(buf, pos, jumps, first) == Ok::<Seq<u8>, DnsError>(
            if first {
                name
            } else {
                seq![46u8] + name
            },
        ),
        name_end(buf, pos) == pos + qname_wire(name).len(),
    decreases name.len(),
{
    lemma_label_len(name);
    let ll = label_len(name);
    let w = qname_wire(name);
    assert(forall|l: u8| l <= 63 ==> (#[trigger] (l & 0xC0)) != 0xC0) by (bit_vector);
    assert(buf[pos] == w[0]);
    assert(w[0] == ll as u8);
    if ll == name.len() {
        assert(w =~= seq![ll as u8] + name + seq![0u8]);
        assert forall|j: int| 0 <= j < ll implies buf[pos + 1 + j] == name[j] by {
            assert(buf[pos + 1 + j] == w[1 + j]);
        }
        assert(buf[pos + 1 + ll] == w[1 + ll]);
        assert(buf[pos + 1 + ll] == 0);
        assert(lower_seq(buf.subrange(pos + 1, pos + 1 + ll)) =~= name);
        assert(parse_name_at(buf, pos + 1 + ll, jumps, false) == Ok::<Seq<u8>, DnsError>(
            Seq::empty(),
        ));
        let prefix = if first {
            name
        } else {
            seq![46u8] + name
        };
        assert(prefix + Seq::<u8>::empty() =~= prefix);
        assert(name_end(buf, pos + 1 + ll) == pos + 1 + ll + 1);
    } else {
        let rest = name.skip(ll + 1);
        let rw = qname_wire(rest);
        assert(w =~= seq![ll as u8] + name.take(ll) + rw);
        lemma_qname_wire_min_len(rest);
        assert(rw.len() >= 3);
        assert forall|j: int| 0 <= j < ll implies buf[pos + 1 + j] == name[j] by {
            assert(buf[pos + 1 + j] == w[1 + j]);
            assert(w[1 + j] == name.take(ll)[j]);
        }
        assert(lower_seq(buf.subrange(pos + 1, pos + 1 + ll)) =~= name.take(ll));
        assert(buf.subrange(pos + 1 + ll, pos + 1 + ll + rw.len()) =~= rw) by {
            assert forall|j: int| 0 <= j < rw.len() implies buf[pos + 1 + ll + j] == rw[j] by {
                assert(buf[pos + 1 + ll + j] == w[1 + ll + j]);
            }
        }
        lemma_qname_round_trip(buf, rest, pos + 1 + ll, jumps, false);
        let label = name.take(ll);
        let prefix = if first {
            label
        } else {
            seq![46u8] + label
        };
        assert(prefix + (seq![46u8] + rest) =~= (if first {
            name
        } else {
            seq![46u8] + name
        })) by {
            assert(name[ll] == 46);
            assert(name =~= label + seq![46u8] + rest);
        }
    }
}

/// Compression equivalence: a name reached through a compression pointer
/// decodes to exactly the dotted string that its fully spelled-out wire
/// form decodes to at the pointer's target.
pub proof fn lemma_compression_equivalence(buf: Seq<u8>, name: Seq<u8>, pos: int, target: int)
    requires
        name_wf(name),
        buf.len() == 512,
        0 <= pos < 511,
        is_pointer(buf[pos]),
        pointer_target(buf[pos], buf[pos + 1]) == target,
        0 <= target,
        target + qname_wire(name).len() <= 512,
        buf.subrange(target, target + qname_wire(name).len()) == qname_wire(name),
    ensures
        parse_name_at(buf, pos, 0, true) == Ok::<Seq<u8>, DnsError>(name),
        parse_name_at(buf, target, 0, true) == Ok::<Seq<u8>, DnsError>(name),
{
    lemma_qname_wire_min_len(name);
    lemma_qname_round_trip(buf, name, target, 1, true);
    lemma_qname_round_trip(buf, name, target, 0, true);
}

} // verus!
