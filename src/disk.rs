//! Block-aligned placement of encoded values on a block device.
//!
//! The device itself is driven from outside: `prepare_write` says which
//! bytes go where, `commit` records them once written, `locate` says where to
//! read a value back and `decode_stored` turns the bytes read into the value.
use vstd::prelude::*;

use vstd::arithmetic::div_mod::lemma_fundamental_div_mod;

use crate::assoc::{
    as_map, has_key, lemma_as_map_index, lemma_as_map_push, lemma_as_map_update, lemma_keys_of,
    unique_keys,
};
use crate::bytes::{append_bytes, bytes_eq, copy_bytes, copy_range};
use crate::error::{Error, ErrorKind};

verus! {

/// The `k` low bytes of `n`, least significant first.
pub open spec fn le_bytes(n: nat, k: nat) -> Seq<u8>
    decreases k,
{
    if k == 0 {
        Seq::empty()
    } else {
        seq![(n % 256) as u8] + le_bytes(n / 256, (k - 1) as nat)
    }
}

/// The variable-length encoding of a length: one byte up to 250, else a
/// marker byte (251, 252, 253) then 2, 4 or 8 little-endian bytes.
pub open spec fn len_header(n: nat) -> Seq<u8> {
    if n <= 250 {
        seq![n as u8]
    } else if n <= 0xffff {
        seq![251u8] + le_bytes(n, 2)
    } else if n <= 0xffff_ffff {
        seq![252u8] + le_bytes(n, 4)
    } else {
        seq![253u8] + le_bytes(n, 8)
    }
}

/// A byte string as stored: its length's header, then its bytes.
pub open spec fn encoded(v: Seq<u8>) -> Seq<u8> {
    len_header(v.len()) + v
}

/// Number of blocks of `block_size` bytes needed for `len` bytes.
pub open spec fn blocks_for(len: nat, block_size: nat) -> nat
    recommends
        block_size > 0,
{
    if len % block_size == 0 {
        len / block_size
    } else {
        len / block_size + 1
    }
}

/// `e` followed by zeros up to a whole number of blocks.
pub open spec fn padded(e: Seq<u8>, block_size: nat) -> Seq<u8> {
    e + Seq::new((blocks_for(e.len(), block_size) * block_size - e.len()) as nat, |i: int| 0u8)
}

/// `p` is a prefix of `s`.
pub open spec fn starts_with(s: Seq<u8>, p: Seq<u8>) -> bool {
    p.len() <= s.len() && s.subrange(0, p.len() as int) == p
}

#[verifier::external_type_specification]
#[verifier::external_body]
pub struct ExEncodeError(bincode::error::EncodeError);

#[verifier::external_type_specification]
#[verifier::external_body]
pub struct ExDecodeError(bincode::error::DecodeError);

/// Relies on `bincode::encode_to_vec` of a `Vec<u8>` under the standard
/// configuration (variable-length integers, little endian): the length as a
/// varint, then the bytes. Writing to a vector does not fail.
#[verifier::external_body]
fn encode_value(v: &Vec<u8>) -> (r: Result<Vec<u8>, bincode::error::EncodeError>)
    ensures
        r is Ok,
        r->Ok_0@ == encoded(v@),
{
    bincode::encode_to_vec(v, bincode::config::standard())
}

/// Relies on `bincode::decode_from_slice` of a `Vec<u8>` under the standard
/// configuration: it reads the length header and then that many bytes,
/// ignoring the bytes after them. The caller has checked that the header
/// claims no more bytes than follow it, so the value's buffer is no larger
/// than `raw`.
#[verifier::external_body]
fn decode_value(raw: &[u8]) -> (r: Result<Vec<u8>, bincode::error::DecodeError>)
    requires
        exists|n: nat| #[trigger] starts_with(raw@, len_header(n)) && len_header(n).len() + n <= raw@.len(),
    ensures
        forall|n: nat|
            #[trigger] starts_with(raw@, len_header(n)) && len_header(n).len() + n <= raw@.len() ==> r is Ok
                && r->Ok_0@ == raw@.subrange(len_header(n).len() as int, (len_header(n).len() + n) as int),
{
    bincode::decode_from_slice::<Vec<u8>, _>(raw, bincode::config::standard()).map(|(v, _)| v)
}

/// The `k` low bytes of `n`, least significant first.
fn le_bytes_exec(n: u64, k: usize) -> (r: Vec<u8>)
    ensures
        r@ == le_bytes(n as nat, k as nat),
{
    let mut r: Vec<u8> = Vec::new();
    let mut x: u64 = n;
    let mut i: usize = 0;
    while i < k
        invariant
            i <= k,
            r@ + le_bytes(x as nat, (k - i) as nat) == le_bytes(n as nat, k as nat),
        decreases k - i,
    {
        let ghost before = r@;
        let ghost m = (k - i) as nat;
        r.push((x % 256) as u8);
        proof {
            assert(le_bytes(x as nat, m) == seq![((x as nat) % 256) as u8] + le_bytes((x as nat) / 256, (m - 1) as nat));
            assert(r@ + le_bytes((x / 256) as nat, (m - 1) as nat) =~= before + le_bytes(x as nat, m));
        }
        x = x / 256;
        i = i + 1;
    }
    assert(le_bytes(x as nat, 0) =~= Seq::<u8>::empty());
    assert(r@ + le_bytes(x as nat, 0) =~= r@);
    r
}

/// The length header for a value of `n` bytes.
fn len_header_exec(n: u64) -> (r: Vec<u8>)
    ensures
        r@ == len_header(n as nat),
{
    let (marker, width): (u8, usize) = if n <= 250 {
        return vec![n as u8];
    } else if n <= 0xffff {
        (251, 2)
    } else if n <= 0xffff_ffff {
        (252, 4)
    } else {
        (253, 8)
    };
    let mut r: Vec<u8> = vec![marker];
    let tail = le_bytes_exec(n, width);
    append_bytes(&mut r, tail.as_slice());
    r
}

/// The value stored in the bytes `raw` read back from the device, whose
/// encoding was `data_length` bytes long; `InvalidData` if they do not start
/// with such an encoding.
pub fn decode_stored(raw: &[u8], data_length: u64) -> (r: Result<Vec<u8>, Error>)
    ensures
        forall|v: Seq<u8>|
            #[trigger] starts_with(raw@, encoded(v)) && data_length == encoded(v).len() ==> r is Ok
                && r->Ok_0@ == v,
        r matches Ok(w) ==> starts_with(raw@, encoded(w@)) && encoded(w@).len() == data_length,
        r matches Err(e) ==> e.kind == ErrorKind::InvalidData,
{
    let width: u64 = if 1 <= data_length && data_length <= 251 {
        1
    } else if 254 <= data_length && data_length <= 65538 {
        3
    } else if 65541 <= data_length && data_length <= 4294967300 {
        5
    } else if 4294967305 <= data_length {
        9
    } else {
        proof {
            lemma_header_width(data_length as nat);
        }
        return Err(Error::new(ErrorKind::InvalidData));
    };
    let n = data_length - width;
    proof {
        lemma_header_len(n as nat);
        lemma_header_width(data_length as nat);
    }
    if (raw.len() as u64) < data_length {
        return Err(Error::new(ErrorKind::InvalidData));
    }
    let header = len_header_exec(n);
    let head = copy_range(raw, 0, width as usize);
    if !bytes_eq(head.as_slice(), header.as_slice()) {
        proof {
            assert forall|v: Seq<u8>| #[trigger] starts_with(raw@, encoded(v)) implies data_length != encoded(v).len() by {
                lemma_header_len(v.len());
                if data_length == encoded(v).len() {
                    assert(v.len() == n);
                    assert(raw@.subrange(0, width as int) =~= encoded(v).subrange(0, width as int));
                    assert(encoded(v).subrange(0, width as int) =~= len_header(n as nat));
                }
            }
        }
        return Err(Error::new(ErrorKind::InvalidData));
    }
    proof {
        assert(starts_with(raw@, len_header(n as nat)));
    }
    match decode_value(raw) {
        Ok(v) => {
            proof {
                assert(encoded(v@) =~= raw@.subrange(0, data_length as int));
                assert forall|w: Seq<u8>| #[trigger] starts_with(raw@, encoded(w)) && data_length == encoded(w).len()
                    implies w == v@ by {
                    lemma_header_len(w.len());
                    assert(w.len() == n);
                    assert(w =~= encoded(w).subrange(width as int, data_length as int));
                    assert(encoded(w) =~= raw@.subrange(0, data_length as int));
                }
            }
            Ok(v)
        },
        Err(_) => Err(Error::new(ErrorKind::InvalidData)),
    }
}

/// A header is 1, 3, 5 or 9 bytes long, by the size of the length.
pub proof fn lemma_header_len(n: nat)
    ensures
        len_header(n).len() == if n <= 250 {
            1nat
        } else if n <= 0xffff {
            3nat
        } else if n <= 0xffff_ffff {
            5nat
        } else {
            9nat
        },
{
    lemma_le_bytes_len(n, 2);
    lemma_le_bytes_len(n, 4);
    lemma_le_bytes_len(n, 8);
}

/// The length of an encoding tells the length of its header.
pub proof fn lemma_header_width(data_length: nat)
    ensures
        forall|m: nat|
            #[trigger] len_header(m).len() + m == data_length ==> if 1 <= data_length <= 251 {
                len_header(m).len() == 1
            } else if 254 <= data_length <= 65538 {
                len_header(m).len() == 3
            } else if 65541 <= data_length <= 4294967300 {
                len_header(m).len() == 5
            } else {
                4294967305 <= data_length && len_header(m).len() == 9
            },
{
    assert forall|m: nat| #[trigger] len_header(m).len() + m == data_length implies if 1 <= data_length <= 251 {
        len_header(m).len() == 1
    } else if 254 <= data_length <= 65538 {
        len_header(m).len() == 3
    } else if 65541 <= data_length <= 4294967300 {
        len_header(m).len() == 5
    } else {
        4294967305 <= data_length && len_header(m).len() == 9
    } by {
        lemma_header_len(m);
    }
}

pub proof fn lemma_le_bytes_len(n: nat, k: nat)
    ensures
        le_bytes(n, k).len() == k,
    decreases k,
{
    if k > 0 {
        lemma_le_bytes_len(n / 256, (k - 1) as nat);
    }
}

} // verus!

verus! {

/// Where a value lives on the device: its first block, and the length of
/// its encoding.
#[derive(Clone, Copy, Debug, PartialEq, Eq, Structural)]
pub struct DataInfo {
    pub start_block: u64,
    pub data_length: u64,
}

/// What to write to the device for one value, and where.
pub struct WritePlan {
    /// Byte offset of the write.
    pub position: u64,
    /// The encoded value padded with zeros to whole blocks.
    pub bytes: Vec<u8>,
    /// What `commit` records once the bytes are on the device.
    pub info: DataInfo,
}

/// Where to read a stored value back: byte offset and number of bytes.
#[derive(Clone, Copy, Debug, PartialEq, Eq, Structural)]
pub struct ReadPlan {
    pub position: u64,
    pub length: u64,
    /// Length of the value's encoding, which the bytes read start with.
    pub data_length: u64,
}

/// The index and block allocator of a disk-backed chunk store: which hash
/// lives at which blocks, and how many blocks from the front are in use.
pub struct DiskDatabase {
    index: Vec<(Vec<u8>, DataInfo)>,
    total_size: u64,
    block_size: u64,
    used_blocks: u64,
}

impl DiskDatabase {
    pub closed spec fn entries(&self) -> Seq<(Seq<u8>, DataInfo)> {
        self.index@.map_values(|p: (Vec<u8>, DataInfo)| (p.0@, p.1))
    }

    /// Each stored hash with the place of its value.
    pub open spec fn view(&self) -> Map<Seq<u8>, DataInfo> {
        as_map(self.entries())
    }

    /// Capacity in bytes, a whole number of blocks.
    pub closed spec fn total(&self) -> nat {
        self.total_size as nat
    }

    pub closed spec fn block(&self) -> nat {
        self.block_size as nat
    }

    /// Number of blocks in use, from the front.
    pub closed spec fn used(&self) -> nat {
        self.used_blocks as nat
    }

    pub closed spec fn well_formed(&self) -> bool {
        &&& unique_keys(self.entries())
        &&& self.block_size > 0
        &&& self.total_size + self.block_size <= u64::MAX
        &&& self.used_blocks * self.block_size < self.total_size + self.block_size
        &&& forall|i: int|
            0 <= i < self.entries().len() ==> (#[trigger] self.entries()[i]).1.start_block
                + blocks_for(self.entries()[i].1.data_length as nat, self.block_size as nat)
                <= self.used_blocks
    }

    /// The bounds a store keeps: blocks are non-empty, the blocks in use end
    /// within the last block that the capacity reaches into, and every
    /// stored value lies in blocks in use.
    pub proof fn lemma_bounds(&self)
        requires
            self.well_formed(),
        ensures
            self.block() > 0,
            self.total() + self.block() <= u64::MAX,
            self.used() * self.block() < self.total() + self.block(),
            forall|k: Seq<u8>|
                #[trigger] self.view().contains_key(k) ==> self.view()[k].start_block + blocks_for(
                    self.view()[k].data_length as nat,
                    self.block(),
                ) <= self.used(),
    {
        assert forall|k: Seq<u8>| #[trigger] self.view().contains_key(k) implies self.view()[k].start_block
            + blocks_for(self.view()[k].data_length as nat, self.block()) <= self.used() by {
            let i = choose|i: int| 0 <= i < self.entries().len() && self.entries()[i].0 == k;
            lemma_as_map_index(self.entries(), i);
        }
    }

    /// An empty store of `total_size` bytes in blocks of `block_size`
    /// bytes; `InvalidData` for a block size of zero.
    pub fn new(total_size: u64, block_size: u64) -> (r: Result<Self, Error>)
        requires
            total_size + block_size <= u64::MAX,
        ensures
            block_size == 0 <==> r is Err,
            r matches Err(e) ==> e.kind == ErrorKind::InvalidData,
            r matches Ok(d) ==> d.well_formed() && d.view() == Map::<Seq<u8>, DataInfo>::empty()
                && d.used() == 0 && d.block() == block_size && d.total() == total_size,
    {
        if block_size == 0 {
            return Err(Error::new(ErrorKind::InvalidData));
        }
        let d = DiskDatabase { index: Vec::new(), total_size, block_size, used_blocks: 0 };
        assert(d.view() =~= Map::<Seq<u8>, DataInfo>::empty());
        assert(d.entries().len() == 0);
        assert(d.used_blocks * d.block_size == 0) by (nonlinear_arith)
            requires
                d.used_blocks == 0,
        ;
        Ok(d)
    }

    pub fn block_size(&self) -> (r: u64)
        ensures
            r == self.block(),
    {
        self.block_size
    }

    pub fn total_size(&self) -> (r: u64)
        ensures
            r == self.total(),
    {
        self.total_size
    }

    pub fn used_blocks(&self) -> (r: u64)
        ensures
            r == self.used(),
    {
        self.used_blocks
    }

    fn find(&self, key: &Vec<u8>) -> (r: Option<usize>)
        ensures
            r matches Some(i) ==> i < self.entries().len() && self.entries()[i as int].0 == key@,
            r is None ==> !has_key(self.entries(), key@),
    {
        let mut i: usize = 0;
        while i < self.index.len()
            invariant
                i <= self.index@.len(),
                self.entries().len() == self.index@.len(),
                forall|j: int| 0 <= j < i ==> self.entries()[j].0 != key@,
            decreases self.index@.len() - i,
        {
            if bytes_eq(self.index[i].0.as_slice(), key.as_slice()) {
                return Some(i);
            }
            i = i + 1;
        }
        None
    }

    /// Whether a value is stored under `key`.
    pub fn contains(&self, key: &Vec<u8>) -> (r: bool)
        requires
            self.well_formed(),
        ensures
            r == self.view().contains_key(key@),
    {
        match self.find(key) {
            Some(i) => {
                proof {
                    lemma_as_map_index(self.entries(), i as int);
                }
                true
            },
            None => false,
        }
    }

    /// Every stored hash, each once.
    pub fn keys(&self) -> (r: Vec<Vec<u8>>)
        requires
            self.well_formed(),
        ensures
            r@.map_values(|k: Vec<u8>| k@).to_set() == self.view().dom(),
            r@.map_values(|k: Vec<u8>| k@).no_duplicates(),
    {
        let mut out: Vec<Vec<u8>> = Vec::new();
        let mut i: usize = 0;
        while i < self.index.len()
            invariant
                self.well_formed(),
                i <= self.index@.len(),
                out@.len() == i,
                self.entries().len() == self.index@.len(),
                forall|j: int| 0 <= j < i ==> (#[trigger] out@[j])@ == self.entries()[j].0,
            decreases self.index@.len() - i,
        {
            out.push(copy_bytes(self.index[i].0.as_slice()));
            i = i + 1;
        }
        proof {
            let ks = out@.map_values(|k: Vec<u8>| k@);
            assert(ks =~= self.entries().map_values(|p: (Seq<u8>, DataInfo)| p.0));
            lemma_keys_of(self.entries());
        }
        out
    }

    /// The write to make for a value, placed at the first free block and
    /// padded with zeros to whole blocks; `OutOfMemory` when the encoding
    /// does not fit in the bytes left.
    pub fn prepare_write(&self, value: &Vec<u8>) -> (r: Result<WritePlan, Error>)
        requires
            self.well_formed(),
        ensures
            r is Err <==> self.used() * self.block() + encoded(value@).len() > self.total(),
            r is Err ==> r->Err_0.kind == ErrorKind::OutOfMemory,
            r matches Ok(p) ==> p.position == self.used() * self.block() && p.bytes@ == padded(
                encoded(value@),
                self.block(),
            ) && p.info == (DataInfo {
                start_block: self.used() as u64,
                data_length: encoded(value@).len() as u64,
            }),
    {
        let encoded_bytes = match encode_value(value) {
            Ok(e) => e,
            Err(_) => {
                return Err(Error::new(ErrorKind::InvalidData));
            },
        };
        let length = encoded_bytes.len() as u64;
        let bs = self.block_size;
        let position = self.used_blocks * bs;
        if position > self.total_size || length > self.total_size - position {
            return Err(Error::new(ErrorKind::OutOfMemory));
        }
        proof {
            lemma_blocks_cover(length as nat, bs as nat);
        }
        let blocks = if length % bs == 0 { length / bs } else { length / bs + 1 };
        let padded_len = blocks * bs;
        let mut bytes = encoded_bytes;
        let mut n: u64 = length;
        let ghost e = bytes@;
        while n < padded_len
            invariant
                length <= n <= padded_len,
                bytes@ == e + Seq::new((n - length) as nat, |i: int| 0u8),
            decreases padded_len - n,
        {
            bytes.push(0u8);
            n = n + 1;
            assert(bytes@ =~= e + Seq::new((n - length) as nat, |i: int| 0u8));
        }
        let info = DataInfo { start_block: self.used_blocks, data_length: length };
        Ok(WritePlan { position, bytes, info })
    }

    /// As `prepare_write`, but nothing to write when `key` is stored
    /// already.
    pub fn prepare_try_insert(&self, key: &Vec<u8>, value: &Vec<u8>) -> (r: Result<
        Option<WritePlan>,
        Error,
    >)
        requires
            self.well_formed(),
        ensures
            self.view().contains_key(key@) ==> r matches Ok(None),
            !self.view().contains_key(key@) ==> (r is Err <==> self.used() * self.block() + encoded(
                value@,
            ).len() > self.total()),
            !self.view().contains_key(key@) ==> (r matches Ok(p) ==> p is Some),
            r is Err ==> r->Err_0.kind == ErrorKind::OutOfMemory,
            r matches Ok(Some(p)) ==> p.position == self.used() * self.block() && p.bytes@
                == padded(encoded(value@), self.block()) && p.info == (DataInfo {
                start_block: self.used() as u64,
                data_length: encoded(value@).len() as u64,
            }),
    {
        if self.contains(key) {
            return Ok(None);
        }
        match self.prepare_write(value) {
            Ok(p) => Ok(Some(p)),
            Err(e) => Err(e),
        }
    }

    /// Records that the value of `key` was written where `info` says, and
    /// takes its blocks. `InvalidData`, with nothing changed, unless `info`
    /// starts at the first free block and fits in the bytes left.
    pub fn commit(&mut self, key: Vec<u8>, info: DataInfo) -> (r: Result<(), Error>)
        requires
            old(self).well_formed(),
        ensures
            final(self).well_formed(),
            final(self).total() == old(self).total(),
            final(self).block() == old(self).block(),
            r is Ok <==> info.start_block == old(self).used() && old(self).used() * old(self).block()
                + info.data_length <= old(self).total(),
            r matches Err(e) ==> e.kind == ErrorKind::InvalidData && final(self).view() == old(
                self,
            ).view() && final(self).used() == old(self).used(),
            r is Ok ==> final(self).view() == old(self).view().insert(key@, info) && final(self).used()
                == old(self).used() + blocks_for(info.data_length as nat, old(self).block()),
    {
        let bs = self.block_size;
        let position = self.used_blocks * bs;
        if info.start_block != self.used_blocks || position > self.total_size || info.data_length
            > self.total_size - position {
            return Err(Error::new(ErrorKind::InvalidData));
        }
        let length = info.data_length;
        proof {
            lemma_blocks_cover(length as nat, bs as nat);
        }
        let blocks = if length % bs == 0 { length / bs } else { length / bs + 1 };
        proof {
            let ub = self.used_blocks as int;
            let b = blocks as int;
            assert((ub + b) * bs == ub * bs + b * bs) by (nonlinear_arith);
            assert(ub + b <= (ub + b) * bs) by (nonlinear_arith)
                requires
                    ub + b >= 0,
                    bs >= 1,
            ;
        }
        let ghost before = self.entries();
        match self.find(&key) {
            Some(i) => {
                self.index.set(i, (key, info));
                proof {
                    assert(self.entries() =~= before.update(i as int, (before[i as int].0, info)));
                    lemma_as_map_update(before, i as int, info);
                }
            },
            None => {
                let ghost k = key@;
                self.index.push((key, info));
                proof {
                    assert(self.entries() =~= before.push((k, info)));
                    lemma_as_map_push(before, k, info);
                }
            },
        }
        self.used_blocks = self.used_blocks + blocks;
        proof {
            assert forall|i: int| 0 <= i < self.entries().len() implies (#[trigger] self.entries()[i]).1.start_block
                + blocks_for(self.entries()[i].1.data_length as nat, self.block_size as nat)
                <= self.used_blocks by {
                if self.entries()[i].1 != info {
                    assert(self.entries()[i] == before[i]);
                }
            }
        }
        Ok(())
    }

    /// Where the value of `key` is to be read back; `NotFound` if there is
    /// none.
    pub fn locate(&self, key: &Vec<u8>) -> (r: Result<ReadPlan, Error>)
        requires
            self.well_formed(),
        ensures
            !self.view().contains_key(key@) ==> r is Err && r->Err_0.kind == ErrorKind::NotFound,
            self.view().contains_key(key@) ==> r is Ok && r->Ok_0 == (ReadPlan {
                position: (self.view()[key@].start_block * self.block()) as u64,
                length: (blocks_for(self.view()[key@].data_length as nat, self.block()) * self.block()) as u64,
                data_length: self.view()[key@].data_length,
            }),
    {
        match self.find(key) {
            None => Err(Error::new(ErrorKind::NotFound)),
            Some(i) => {
                proof {
                    lemma_as_map_index(self.entries(), i as int);
                }
                let info = self.index[i].1;
                let bs = self.block_size;
                let length = info.data_length;
                let blocks = if length % bs == 0 { length / bs } else { length / bs + 1 };
                proof {
                    assert(self.entries()[i as int].1 == info);
                    let st = info.start_block as int;
                    vstd::arithmetic::mul::lemma_mul_inequality(st + blocks, self.used_blocks as int, bs as int);
                    assert((st + blocks) * bs == st * bs + blocks * bs) by (nonlinear_arith);
                    assert(st * bs >= 0 && blocks * bs >= 0) by (nonlinear_arith)
                        requires st >= 0, blocks >= 0, bs > 0;
                }
                Ok(ReadPlan { position: info.start_block * bs, length: blocks * bs, data_length: length })
            },
        }
    }

    /// Forgets every stored value and frees every block.
    pub fn clear(&mut self)
        requires
            old(self).well_formed(),
        ensures
            final(self).well_formed(),
            final(self).view() == Map::<Seq<u8>, DataInfo>::empty(),
            final(self).used() == 0,
            final(self).total() == old(self).total(),
            final(self).block() == old(self).block(),
    {
        self.index = Vec::new();
        self.used_blocks = 0;
        assert(self.view() =~= Map::<Seq<u8>, DataInfo>::empty());
        assert(self.used_blocks * self.block_size == 0) by (nonlinear_arith)
            requires
                self.used_blocks == 0,
        ;
    }
}

} // verus!

verus! {

/// Whole blocks cover a length with less than one block to spare.
pub proof fn lemma_blocks_cover(len: nat, block_size: nat)
    requires
        block_size > 0,
    ensures
        len <= blocks_for(len, block_size) * block_size < len + block_size,
{
    let q = len / block_size;
    let r = len % block_size;
    lemma_fundamental_div_mod(len as int, block_size as int);
    assert(block_size * q == q * block_size) by (nonlinear_arith);
    assert((q + 1) * block_size == q * block_size + block_size) by (nonlinear_arith);
}

/// Round trip through the device: the bytes that `prepare_write` plans for
/// a value fill exactly the blocks that `locate` reports for it once
/// `commit` has recorded the plan, and they start with the value's
/// encoding, from which `decode_stored` gives the value back.
pub proof fn lemma_disk_round_trip(v: Seq<u8>, block_size: nat)
    requires
        block_size > 0,
    ensures
        padded(encoded(v), block_size).len() == blocks_for(encoded(v).len(), block_size)
            * block_size,
        starts_with(padded(encoded(v), block_size), encoded(v)),
{
    let e = encoded(v);
    lemma_blocks_cover(e.len(), block_size);
    let p = padded(e, block_size);
    assert(p.subrange(0, e.len() as int) =~= e);
}

} // verus!
