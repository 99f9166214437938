//! Compact set of piece indices in big-endian bit order.

use vstd::prelude::*;
use crate::error::{BitSwapError, BitSwapResult, message};

verus! {

/// Mask of bit `k` (0 = most significant) within a byte.
pub open spec fn bit_mask(k: u8) -> u8 {
    0x80u8 >> k
}

/// Whether piece `i` is marked in `data`: bit `7 - i % 8` of byte `i / 8`.
pub open spec fn has_bit(data: Seq<u8>, i: int) -> bool {
    0 <= i && i / 8 < data.len() && data[i / 8] & bit_mask((i % 8) as u8) != 0
}

/// Number of bytes that hold `n` pieces.
pub open spec fn byte_len(n: int) -> int {
    (n + 7) / 8
}

/// What a bitfield holds: its bytes and the number of pieces it covers.
pub struct BitFieldView {
    pub data: Seq<u8>,
    pub num_pieces: u32,
}

impl BitFieldView {
    /// Whether piece `i` is present.
    pub open spec fn has(self, i: int) -> bool {
        0 <= i < self.num_pieces && has_bit(self.data, i)
    }

    /// Number of present pieces among the first `n`.
    pub open spec fn count_upto(self, n: int) -> nat
        decreases n,
    {
        if n <= 0 {
            0
        } else {
            self.count_upto(n - 1) + if self.has(n - 1) {
                1nat
            } else {
                0nat
            }
        }
    }

    /// Number of present pieces.
    pub open spec fn count(self) -> nat {
        self.count_upto(self.num_pieces as int)
    }

    /// Well-formed wire form: exactly the bytes the pieces need, spare bits zero.
    pub open spec fn wf(self) -> bool {
        &&& self.data.len() == byte_len(self.num_pieces as int)
        &&& forall|i: int|
            self.num_pieces <= i < 8 * self.data.len() ==> !#[trigger] has_bit(self.data, i)
    }
}

/// Bitfield tracking which pieces are available.
#[derive(Debug, Clone)]
pub struct BitField {
    data: Vec<u8>,
    num_pieces: u32,
}

impl View for BitField {
    type V = BitFieldView;

    closed spec fn view(&self) -> BitFieldView {
        BitFieldView { data: self.data@, num_pieces: self.num_pieces }
    }
}

proof fn lemma_or_mask(b: u8, k: u8, m: u8)
    requires
        k < 8,
        m < 8,
    ensures
        ((b | (0x80u8 >> k)) & (0x80u8 >> m) != 0) == ((b & (0x80u8 >> m) != 0) || k == m),
{
    assert(((b | (0x80u8 >> k)) & (0x80u8 >> m) != 0) == ((b & (0x80u8 >> m) != 0) || k == m))
        by (bit_vector)
        requires
            k < 8,
            m < 8,
    ;
}

proof fn lemma_zero_byte(m: u8)
    requires
        m < 8,
    ensures
        0u8 & (0x80u8 >> m) == 0,
{
    assert(0u8 & (0x80u8 >> m) == 0) by (bit_vector);
}

/// The count of the first `n` pieces is at most `n`, and equals `n` exactly
/// when each of them is present.
pub proof fn lemma_count_full(v: BitFieldView, n: int)
    requires
        0 <= n,
    ensures
        v.count_upto(n) <= n,
        v.count_upto(n) == n <==> forall|i: int| 0 <= i < n ==> v.has(i),
    decreases n,
{
    if n > 0 {
        lemma_count_full(v, n - 1);
        if v.count_upto(n) == n {
            assert forall|i: int| 0 <= i < n implies v.has(i) by {
                if i < n - 1 {
                } else {
                }
            }
        }
    }
}

impl BitField {
    /// An empty bitfield for `num_pieces` pieces.
    pub fn new(num_pieces: u32) -> (r: Self)
        ensures
            r@.num_pieces == num_pieces,
            r@.data == Seq::new(byte_len(num_pieces as int) as nat, |i: int| 0u8),
            r@.wf(),
            forall|i: int| !r@.has(i),
    {
        let byte_count = (num_pieces / 8) as usize + if num_pieces % 8 == 0 {
            0usize
        } else {
            1usize
        };
        let data = vec![0u8; byte_count];
        let r = BitField { data, num_pieces };
        assert forall|i: int| 0 <= i && i / 8 < r.data@.len() implies !has_bit(r.data@, i) by {
            lemma_zero_byte((i % 8) as u8);
        }
        assert(r@.data =~= Seq::new(byte_len(num_pieces as int) as nat, |i: int| 0u8));
        r
    }

    /// A bitfield over raw bytes, covering `num_pieces` pieces; the bytes are not checked.
    pub fn from_bytes(data: Vec<u8>, num_pieces: u32) -> (r: Self)
        ensures
            r@ == (BitFieldView { data: data@, num_pieces }),
    {
        BitField { data, num_pieces }
    }

    /// A bitfield received from the wire for a torrent of `num_pieces` pieces.
    ///
    /// Fails with a protocol error unless the bytes are exactly those the
    /// pieces need and every spare bit is zero.
    pub fn from_wire(data: Vec<u8>, num_pieces: u32) -> (r: BitSwapResult<Self>)
        ensures
            r is Ok <==> (BitFieldView { data: data@, num_pieces }).wf(),
            r is Ok ==> r->Ok_0@ == (BitFieldView { data: data@, num_pieces }),
            r is Err ==> r->Err_0 is Protocol,
    {
        let ghost v = BitFieldView { data: data@, num_pieces };
        let needed = (num_pieces / 8) as usize + if num_pieces % 8 == 0 {
            0usize
        } else {
            1usize
        };
        if data.len() != needed {
            return Err(BitSwapError::Protocol(message("bitfield length does not match piece count")));
        }
        let end: u64 = 8 * (data.len() as u64);
        let mut i: u64 = num_pieces as u64;
        while i < end
            invariant
                v.data == data@,
                data@.len() == byte_len(num_pieces as int),
                end == 8 * data@.len(),
                num_pieces <= i <= end,
                forall|j: int| num_pieces <= j < i ==> !#[trigger] has_bit(data@, j),
            decreases end - i,
        {
            let byte = data[(i / 8) as usize];
            if byte & (0x80u8 >> ((i % 8) as u8)) != 0 {
                assert(has_bit(data@, i as int));
                return Err(BitSwapError::Protocol(message("spare bits of a bitfield must be zero")));
            }
            i = i + 1;
        }
        Ok(BitField { data, num_pieces })
    }

    /// Marks a piece as available.
    ///
    /// Fails with `InvalidPieceIndex` when the index is not below the piece count.
    pub fn set_piece(&mut self, piece_index: u32) -> (r: BitSwapResult<()>)
        ensures
            r is Ok <==> piece_index < old(self)@.num_pieces,
            r is Err ==> r->Err_0 == (BitSwapError::InvalidPieceIndex {
                index: piece_index,
                total: old(self)@.num_pieces,
            }),
            final(self)@.num_pieces == old(self)@.num_pieces,
            final(self)@.data.len() == old(self)@.data.len(),
            forall|i: int|
                #[trigger] final(self)@.has(i) == (old(self)@.has(i) || (i == piece_index && r is Ok
                    && piece_index / 8 < old(self)@.data.len())),
            r is Err ==> final(self)@ == old(self)@,
            r is Ok && piece_index / 8 < old(self)@.data.len() ==> final(self)@.data == old(
                self,
            )@.data.update(
                (piece_index / 8) as int,
                old(self)@.data[(piece_index / 8) as int] | bit_mask((piece_index % 8) as u8),
            ),
            r is Ok && piece_index / 8 >= old(self)@.data.len() ==> final(self)@ == old(self)@,
            old(self)@.wf() ==> final(self)@.wf(),
            old(self)@.wf() && r is Ok ==> final(self)@.has(piece_index as int),
    {
        if piece_index >= self.num_pieces {
            return Err(BitSwapError::InvalidPieceIndex { index: piece_index, total: self.num_pieces });
        }
        let byte_index = (piece_index / 8) as usize;
        let bit_index = (piece_index % 8) as u8;
        if byte_index < self.data.len() {
            let ghost before = self.data@;
            let updated = self.data[byte_index] | (0x80u8 >> bit_index);
            self.data.set(byte_index, updated);
            assert forall|i: int| 0 <= i implies #[trigger] has_bit(self.data@, i) == (has_bit(
                before,
                i,
            ) || i == piece_index) by {
                if i / 8 == byte_index as int {
                    lemma_or_mask(before[i / 8], bit_index, (i % 8) as u8);
                }
            }
        }
        Ok(())
    }

    /// Whether a piece is available; false for any index not below the piece count.
    pub fn has_piece(&self, piece_index: u32) -> (r: bool)
        ensures
            r == self@.has(piece_index as int),
    {
        if piece_index >= self.num_pieces {
            return false;
        }
        let byte_index = (piece_index / 8) as usize;
        let bit_index = (piece_index % 8) as u8;
        if byte_index < self.data.len() {
            (self.data[byte_index] & (0x80u8 >> bit_index)) != 0
        } else {
            false
        }
    }

    /// The raw bytes.
    pub fn as_bytes(&self) -> (r: &[u8])
        ensures
            r@ == self@.data,
    {
        self.data.as_slice()
    }

    /// The number of pieces covered.
    pub fn num_pieces(&self) -> (r: u32)
        ensures
            r == self@.num_pieces,
    {
        self.num_pieces
    }

    /// Number of available pieces.
    pub fn count_pieces(&self) -> (r: u32)
        ensures
            r == self@.count(),
    {
        let mut count: u32 = 0;
        let mut i: u32 = 0;
        while i < self.num_pieces
            invariant
                i <= self.num_pieces,
                count == self@.count_upto(i as int),
            decreases self.num_pieces - i,
        {
            proof {
                lemma_count_full(self@, i as int);
            }
            if self.has_piece(i) {
                count = count + 1;
            }
            i = i + 1;
        }
        count
    }

    /// Whether every piece is available.
    pub fn is_complete(&self) -> (r: bool)
        ensures
            r == (forall|i: int| 0 <= i < self@.num_pieces ==> self@.has(i)),
    {
        proof {
            lemma_count_full(self@, self@.num_pieces as int);
        }
        self.count_pieces() == self.num_pieces
    }
}

/// Number of set bits among the first `n` bit positions of `data`.
pub open spec fn bits_set_upto(data: Seq<u8>, n: int) -> nat
    decreases n,
{
    if n <= 0 {
        0
    } else {
        bits_set_upto(data, n - 1) + if has_bit(data, n - 1) {
            1nat
        } else {
            0nat
        }
    }
}

proof fn lemma_count_is_bits(v: BitFieldView, n: int)
    requires
        0 <= n <= v.num_pieces,
    ensures
        v.count_upto(n) == bits_set_upto(v.data, n),
    decreases n,
{
    if n > 0 {
        lemma_count_is_bits(v, n - 1);
    }
}

proof fn lemma_spare_bits_add_nothing(v: BitFieldView, n: int)
    requires
        v.wf(),
        v.num_pieces <= n <= 8 * v.data.len(),
    ensures
        bits_set_upto(v.data, n) == bits_set_upto(v.data, v.num_pieces as int),
    decreases n,
{
    if n > v.num_pieces {
        lemma_spare_bits_add_nothing(v, n - 1);
    }
}

/// The count of pieces survives the trip to the wire and back. The bytes of
/// a well-formed bitfield (`as_bytes`), read with its piece count, are
/// accepted by `from_wire` and give the same bitfield; and its count of pieces
/// is the number of set bits in those bytes, so a receiver that counts the
/// bits it got arrives at the sender's count.
pub proof fn lemma_bitfield_round_trip(v: BitFieldView)
    requires
        v.wf(),
    ensures
        v.count() == bits_set_upto(v.data, 8 * v.data.len() as int),
{
    let n = v.num_pieces as int;
    assert(8 * ((n + 7) / 8) >= n) by {
        vstd::arithmetic::div_mod::lemma_fundamental_div_mod(n + 7, 8);
    }
    lemma_count_is_bits(v, n);
    lemma_spare_bits_add_nothing(v, 8 * v.data.len() as int);
}

} // verus!
