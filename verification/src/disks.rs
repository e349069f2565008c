//! Secondary storage: raw bit and byte addressing over a flat buffer.

pub mod bits;
pub mod hard_drive;

use vstd::prelude::*;

verus! {

/// A single bit.
pub type Bit = bool;

/// A raw address into a storage device: a byte offset plus a bit offset
/// inside that byte, counted from the most significant bit.
#[derive(Clone, Copy, Debug, PartialEq, Eq, Structural)]
pub struct RawStoragePtr {
    pub byte_offset: usize,
    pub bit_offset: u8,
}

impl RawStoragePtr {
    /// The address of the given bit position.
    pub fn bit_ptr(bit_pos: usize) -> (p: Self)
        ensures
            p.byte_offset == bit_pos / 8,
            p.bit_offset == bit_pos % 8,
    {
        RawStoragePtr { byte_offset: bit_pos / 8, bit_offset: (bit_pos % 8) as u8 }
    }

    /// The address of the first bit of the given byte.
    pub fn byte_ptr(byte_offset: usize) -> (p: Self)
        ensures
            p.byte_offset == byte_offset,
            p.bit_offset == 0,
    {
        RawStoragePtr { byte_offset, bit_offset: 0 }
    }
}

/// The bit of `b` at position `off`, counted from the most significant.
pub open spec fn spec_read_bit(b: u8, off: u8) -> bool {
    (b >> (7 - off) as u8) & 1 != 0
}

/// `b` with the bit at position `off` set to `bit`.
pub open spec fn spec_write_bit(b: u8, off: u8, bit: bool) -> u8 {
    if bit {
        b | (1u8 << (7 - off) as u8)
    } else {
        b & !(1u8 << (7 - off) as u8)
    }
}

/// A storage device addressed by bits and bytes.  `contents` is the
/// device's byte buffer and `cursor` the append position used by `store`.
pub trait StorageDevice {
    /// The bytes the device holds.
    spec fn contents(&self) -> Seq<u8>;

    /// Where the next `store` appends.
    spec fn cursor(&self) -> int;

    /// Overwrites one bit.
    fn write_bit(&mut self, addr: RawStoragePtr, bit: Bit)
        requires
            addr.byte_offset < old(self).contents().len(),
            addr.bit_offset < 8,
        ensures
            final(self).contents() == old(self).contents().update(
                addr.byte_offset as int,
                spec_write_bit(old(self).contents()[addr.byte_offset as int], addr.bit_offset, bit),
            ),
            final(self).cursor() == old(self).cursor(),
    ;

    /// Reads one bit.
    fn read_bit(&mut self, addr: RawStoragePtr) -> (r: Bit)
        requires
            addr.byte_offset < old(self).contents().len(),
            addr.bit_offset < 8,
        ensures
            r == spec_read_bit(old(self).contents()[addr.byte_offset as int], addr.bit_offset),
            final(self).contents() == old(self).contents(),
            final(self).cursor() == old(self).cursor(),
    ;

    /// Appends `data` at the cursor and returns its address.
    fn store(&mut self, data: &[u8]) -> (r: RawStoragePtr)
        requires
            old(self).cursor() + data@.len() <= old(self).contents().len(),
            0 <= old(self).cursor(),
        ensures
            final(self).contents() == old(self).contents().subrange(0, old(self).cursor()).add(
                data@,
            ).add(
                old(self).contents().subrange(
                    old(self).cursor() + data@.len(),
                    old(self).contents().len() as int,
                ),
            ),
            final(self).cursor() == old(self).cursor() + data@.len(),
            r.byte_offset == old(self).cursor(),
            r.bit_offset == 0,
    ;

    /// Overwrites `data` at the given byte address.
    fn write(&mut self, addr: RawStoragePtr, data: &[u8])
        requires
            addr.byte_offset + data@.len() <= old(self).contents().len(),
        ensures
            final(self).contents() == old(self).contents().subrange(
                0,
                addr.byte_offset as int,
            ).add(data@).add(
                old(self).contents().subrange(
                    addr.byte_offset + data@.len(),
                    old(self).contents().len() as int,
                ),
            ),
            final(self).cursor() == old(self).cursor(),
    ;

    /// Reads `length` bytes at the given byte address.
    fn read(&self, addr: RawStoragePtr, length: usize) -> (r: Vec<u8>)
        requires
            addr.byte_offset + length <= self.contents().len(),
        ensures
            r@ == self.contents().subrange(
                addr.byte_offset as int,
                addr.byte_offset + length,
            ),
    ;
}

/// A flat in-memory storage buffer with an append cursor.
pub struct SecondaryStorage {
    buffer: Vec<u8>,
    offset: usize,
}

impl SecondaryStorage {
    /// A zeroed buffer of `size` bytes.
    pub fn new(size: usize) -> (s: Self)
        ensures
            s.contents() == Seq::<u8>::new(size as nat, |i: int| 0u8),
            s.cursor() == 0,
    {
        let mut buffer: Vec<u8> = Vec::new();
        let mut i: usize = 0;
        while i < size
            invariant
                0 <= i <= size,
                buffer@ =~= Seq::<u8>::new(i as nat, |k: int| 0u8),
            decreases size - i,
        {
            buffer.push(0);
            proof {
                assert(buffer@ =~= Seq::<u8>::new((i + 1) as nat, |k: int| 0u8));
            }
            i = i + 1;
        }
        let s = SecondaryStorage { buffer, offset: 0 };
        proof {
            assert(s.contents() =~= Seq::<u8>::new(size as nat, |i: int| 0u8));
        }
        s
    }

    /// The append cursor.
    pub fn get_offset(&self) -> (r: usize)
        ensures
            r == self.cursor(),
    {
        self.offset
    }

    /// Copies `data` into the buffer starting at `at`.
    fn splice(&mut self, at: usize, data: &[u8])
        requires
            at + data@.len() <= old(self).buffer@.len(),
        ensures
            final(self).buffer@ == old(self).buffer@.subrange(0, at as int).add(data@).add(
                old(self).buffer@.subrange(at + data@.len(), old(self).buffer@.len() as int),
            ),
            final(self).offset == old(self).offset,
    {
        let mut k: usize = 0;
        let n = data.len();
        let cap = self.buffer.len();
        while k < n
            invariant
                0 <= k <= n,
                n == data@.len(),
                at + n <= cap,
                cap == self.buffer@.len(),
                self.buffer@.len() == old(self).buffer@.len(),
                self.offset == old(self).offset,
                forall|j: int|
                    0 <= j < self.buffer@.len() && !(at <= j < at + k) ==> self.buffer@[j] == old(
                        self,
                    ).buffer@[j],
                forall|j: int| 0 <= j < k ==> self.buffer@[at + j] == data@[j],
            decreases n - k,
        {
            let b = data[k];
            self.buffer.set(at + k, b);
            k = k + 1;
        }
        proof {
            assert(self.buffer@ =~= old(self).buffer@.subrange(0, at as int).add(data@).add(
                old(self).buffer@.subrange(at + data@.len(), old(self).buffer@.len() as int),
            ));
        }
    }
}

impl StorageDevice for SecondaryStorage {
    /// The bytes the buffer holds.
    closed spec fn contents(&self) -> Seq<u8> {
        self.buffer@
    }

    /// The append cursor.
    closed spec fn cursor(&self) -> int {
        self.offset as int
    }

    fn read_bit(&mut self, addr: RawStoragePtr) -> (r: Bit) {
        (self.buffer[addr.byte_offset] >> (7 - addr.bit_offset)) & 1 != 0
    }

    fn write_bit(&mut self, addr: RawStoragePtr, bit: Bit) {
        let b = self.buffer[addr.byte_offset];
        let nb = if bit {
            b | (1u8 << (7 - addr.bit_offset))
        } else {
            b & !(1u8 << (7 - addr.bit_offset))
        };
        self.buffer.set(addr.byte_offset, nb);
    }

    fn store(&mut self, data: &[u8]) -> (r: RawStoragePtr) {
        let addr = self.offset;
        let cap = self.buffer.len();
        self.splice(addr, data);
        assert(addr + data@.len() <= cap);
        self.offset = self.offset + data.len();
        RawStoragePtr { byte_offset: addr, bit_offset: 0 }
    }

    fn write(&mut self, addr: RawStoragePtr, data: &[u8]) {
        self.splice(addr.byte_offset, data);
    }

    fn read(&self, addr: RawStoragePtr, length: usize) -> (r: Vec<u8>) {
        let mut out: Vec<u8> = Vec::new();
        let mut k: usize = 0;
        let cap = self.buffer.len();
        while k < length
            invariant
                0 <= k <= length,
                addr.byte_offset + length <= cap,
                cap == self.buffer@.len(),
                out@ =~= self.buffer@.subrange(
                    addr.byte_offset as int,
                    addr.byte_offset + k,
                ),
            decreases length - k,
        {
            let b = self.buffer[addr.byte_offset + k];
            out.push(b);
            proof {
                assert(out@ =~= self.buffer@.subrange(
                    addr.byte_offset as int,
                    addr.byte_offset + k + 1,
                ));
            }
            k = k + 1;
        }
        out
    }
}

} // verus!
