use vstd::prelude::*;

use crate::prim::Compl;

verus! {

/// A type whose values form a small, fixed, canonically ordered enumeration.
/// `elem` and `idx` give the specification-level enumeration and each value's
/// zero-based position in it; `nth`, `index` and `size` are their executable
/// counterparts. The two laws make the enumeration a bijection between the
/// values and the indices below `card`, which is what the closed-set codec
/// rests on.
pub trait Fin: Copy + Sized {
    /// How many values the enumeration has.
    spec fn card() -> nat;

    /// The zero-based position of this value in the enumeration.
    spec fn idx(self) -> nat;

    /// The value at a given position of the enumeration.
    spec fn elem(i: nat) -> Self;

    fn size() -> (n: u8)
        ensures
            n as nat == Self::card(),
    ;

    fn nth(i: u8) -> (t: Self)
        requires
            (i as nat) < Self::card(),
        ensures
            t == Self::elem(i as nat),
    ;

    fn index(self) -> (i: u8)
        ensures
            i as nat == self.idx(),
    ;

    proof fn lemma_card()
        ensures
            0 < Self::card() <= 256,
    ;

    proof fn lemma_elem_of_idx(self)
        ensures
            self.idx() < Self::card(),
            Self::elem(self.idx()) == self,
    ;

    proof fn lemma_idx_of_elem(i: nat)
        requires
            i < Self::card(),
        ensures
            Self::elem(i).idx() == i,
    ;
}

/// A value decodable from a byte stream. `spec_read` is the whole decoding
/// relation: it yields the value and the position one past its last byte, or
/// nothing when the stream is exhausted or malformed at `pos`.
pub trait Read: Sized {
    spec fn spec_read(bytes: Seq<u8>, pos: usize) -> Option<(Self, usize)>;

    proof fn lemma_read_advances(bytes: Seq<u8>, pos: usize)
        requires
            bytes.len() <= usize::MAX,
        ensures
            Self::spec_read(bytes, pos) matches Some((t, p2)) ==> pos < p2 <= bytes.len(),
    ;

    fn read(bytes: &[u8], pos: usize) -> (r: Option<(Self, usize)>)
        ensures
            r == Self::spec_read(bytes@, pos),
    ;
}

/// Something one can write single bytes into, in order.
pub trait WriteSink {
    /// All bytes written so far.
    spec fn sunk(&self) -> Seq<u8>;

    fn write(&mut self, b: u8)
        ensures
            final(self).sunk() == old(self).sunk().push(b),
    ;
}

impl WriteSink for Vec<u8> {
    open spec fn sunk(&self) -> Seq<u8> {
        self@
    }

    fn write(&mut self, b: u8) {
        self.push(b);
    }
}

/// A value encodable to bytes. `enc` is the exact encoding; `write` appends
/// it to a sink.
pub trait Write {
    spec fn enc(&self) -> Seq<u8>;

    fn write<S: WriteSink>(&self, sink: &mut S)
        ensures
            final(sink).sunk() == old(sink).sunk() + self.enc(),
    ;
}

/// A type that both encodes and decodes, with the round trip proved: reading
/// at a position where the encoding sits yields the value back and stops one
/// past its last byte.
pub trait Codec: Read + Write + Copy {
    proof fn lemma_roundtrip(self, bytes: Seq<u8>, pos: usize)
        requires
            pos + self.enc().len() <= bytes.len(),
            bytes.len() <= usize::MAX,
            bytes.subrange(pos as int, pos + self.enc().len()) == self.enc(),
        ensures
            Self::spec_read(bytes, pos) == Some((self, (pos + self.enc().len()) as usize)),
    ;
}

/// Decoding for a closed enumeration: the next byte is a zero-based index
/// into the canonical enumeration; it succeeds exactly when that byte is
/// below the enumeration's size.
pub open spec fn spec_read_fin<T: Fin>(bytes: Seq<u8>, pos: usize) -> Option<(T, usize)> {
    if pos < bytes.len() && (bytes[pos as int] as nat) < T::card() {
        Some((T::elem(bytes[pos as int] as nat), (pos + 1) as usize))
    } else {
        None
    }
}

/// Encoding for a closed enumeration: one byte holding the value's position.
pub open spec fn enc_fin<T: Fin>(t: T) -> Seq<u8> {
    seq![t.idx() as u8]
}

pub fn read_fin<T: Fin>(bytes: &[u8], pos: usize) -> (r: Option<(T, usize)>)
    ensures
        r == spec_read_fin::<T>(bytes@, pos),
{
    if pos < bytes.len() {
        let b = bytes[pos];
        if b < T::size() {
            Some((T::nth(b), pos + 1))
        } else {
            proof {
                T::lemma_card();
            }
            None
        }
    } else {
        None
    }
}

pub fn write_fin<T: Fin, S: WriteSink>(t: T, sink: &mut S)
    ensures
        final(sink).sunk() == old(sink).sunk() + enc_fin(t),
{
    proof {
        T::lemma_card();
        T::lemma_elem_of_idx(t);
    }
    let i = t.index();
    sink.write(i);
    proof {
        assert(old(sink).sunk().push(i) =~= old(sink).sunk() + enc_fin(t));
    }
}

/// Decoding a byte `k` for an enumeration of `card` values succeeds exactly
/// when `k` is below `card`.
pub proof fn lemma_fin_decode_iff<T: Fin>(bytes: Seq<u8>, pos: usize)
    requires
        pos < bytes.len(),
    ensures
        spec_read_fin::<T>(bytes, pos) is Some <==> (bytes[pos as int] as nat) < T::card(),
{
}

/// Encoding an enumeration member and decoding it again yields the member.
pub proof fn lemma_fin_roundtrip<T: Fin>(t: T, bytes: Seq<u8>, pos: usize)
    requires
        pos < bytes.len() <= usize::MAX,
        bytes[pos as int] == t.idx() as u8,
    ensures
        spec_read_fin::<T>(bytes, pos) == Some((t, (pos + 1) as usize)),
{
    T::lemma_card();
    T::lemma_elem_of_idx(t);
}

/// The big-endian 32-bit value held in four consecutive bytes.
pub open spec fn u32_from_be(b0: u8, b1: u8, b2: u8, b3: u8) -> u32 {
    ((b0 as int) * 0x100_0000 + (b1 as int) * 0x1_0000 + (b2 as int) * 0x100 + (b3 as int)) as u32
}

impl Read for u8 {
    open spec fn spec_read(bytes: Seq<u8>, pos: usize) -> Option<(u8, usize)> {
        if pos < bytes.len() {
            Some((bytes[pos as int], (pos + 1) as usize))
        } else {
            None
        }
    }

    proof fn lemma_read_advances(bytes: Seq<u8>, pos: usize) {
    }

    fn read(bytes: &[u8], pos: usize) -> (r: Option<(u8, usize)>) {
        if pos < bytes.len() {
            Some((bytes[pos], pos + 1))
        } else {
            None
        }
    }
}

impl Read for u32 {
    open spec fn spec_read(bytes: Seq<u8>, pos: usize) -> Option<(u32, usize)> {
        if pos + 4 <= bytes.len() && pos + 4 <= usize::MAX {
            Some(
                (
                    u32_from_be(
                        bytes[pos as int],
                        bytes[pos as int + 1],
                        bytes[pos as int + 2],
                        bytes[pos as int + 3],
                    ),
                    (pos + 4) as usize,
                ),
            )
        } else {
            None
        }
    }

    proof fn lemma_read_advances(bytes: Seq<u8>, pos: usize) {
    }

    fn read(bytes: &[u8], pos: usize) -> (r: Option<(u32, usize)>) {
        if pos < bytes.len() && bytes.len() - pos >= 4 {
            let v = (bytes[pos] as u32) * 0x100_0000 + (bytes[pos + 1] as u32) * 0x1_0000
                + (bytes[pos + 2] as u32) * 0x100 + (bytes[pos + 3] as u32);
            Some((v, pos + 4))
        } else {
            None
        }
    }
}

impl Write for u32 {
    open spec fn enc(&self) -> Seq<u8> {
        seq![
            (*self >> 24u32) as u8,
            (*self >> 16u32) as u8,
            (*self >> 8u32) as u8,
            *self as u8,
        ]
    }

    fn write<S: WriteSink>(&self, sink: &mut S) {
        sink.write((*self >> 24u32) as u8);
        sink.write((*self >> 16u32) as u8);
        sink.write((*self >> 8u32) as u8);
        sink.write(*self as u8);
        proof {
            assert(final(sink).sunk() =~= old(sink).sunk() + self.enc());
        }
    }
}

impl Codec for u32 {
    proof fn lemma_roundtrip(self, bytes: Seq<u8>, pos: usize) {
        let v = self;
        assert(((v >> 24u32) as u8 as int) * 0x100_0000 + ((v >> 16u32) as u8 as int) * 0x1_0000
            + ((v >> 8u32) as u8 as int) * 0x100 + (v as u8 as int) == v as int) by (bit_vector);
        assert(bytes[pos as int] == (v >> 24u32) as u8);
        assert(bytes[pos as int + 1] == (v >> 16u32) as u8);
        assert(bytes[pos as int + 2] == (v >> 8u32) as u8);
        assert(bytes[pos as int + 3] == v as u8);
    }
}

/// Decoding `n` consecutive values: the values and the position one past the
/// last byte consumed, or nothing as soon as one value fails to decode.
pub open spec fn spec_read_many<T: Read>(bytes: Seq<u8>, pos: usize, n: nat) -> Option<
    (Seq<T>, usize),
>
    decreases n,
{
    if n == 0 {
        Some((Seq::empty(), pos))
    } else {
        match T::spec_read(bytes, pos) {
            None => None,
            Some((t, p2)) => match spec_read_many::<T>(bytes, p2, (n - 1) as nat) {
                None => None,
                Some((s, p3)) => Some((seq![t] + s, p3)),
            },
        }
    }
}

/// How many values, at most `n`, decode one after another from `bytes`
/// before the stream first fails.
pub open spec fn decodable_count<T: Read>(bytes: Seq<u8>, pos: usize, n: nat) -> nat
    decreases n,
{
    if n == 0 {
        0
    } else {
        match T::spec_read(bytes, pos) {
            None => 0,
            Some((t, p2)) => (1 + decodable_count::<T>(bytes, p2, (n - 1) as nat)) as nat,
        }
    }
}

/// Decoding `k + 1` values is decoding `k` values and then one more at the
/// position where they stopped.
proof fn lemma_read_many_snoc<T: Read>(bytes: Seq<u8>, pos: usize, k: nat)
    ensures
        spec_read_many::<T>(bytes, pos, (k + 1) as nat) == (match spec_read_many::<T>(
            bytes,
            pos,
            k,
        ) {
            Some((s, p)) => match T::spec_read(bytes, p) {
                Some((t, p2)) => Some((s.push(t), p2)),
                None => None,
            },
            None => None,
        }),
    decreases k,
{
    reveal_with_fuel(spec_read_many, 3);
    if k == 0 {
        match T::spec_read(bytes, pos) {
            Some((t, p2)) => {
                assert(seq![t] + Seq::<T>::empty() =~= Seq::<T>::empty().push(t));
            },
            None => {},
        }
    } else {
        match T::spec_read(bytes, pos) {
            Some((t0, p0)) => {
                lemma_read_many_snoc::<T>(bytes, p0, (k - 1) as nat);
                match spec_read_many::<T>(bytes, p0, (k - 1) as nat) {
                    Some((s, p)) => {
                        match T::spec_read(bytes, p) {
                            Some((t, p2)) => {
                                assert(seq![t0] + s.push(t) =~= (seq![t0] + s).push(t));
                            },
                            None => {},
                        }
                    },
                    None => {},
                }
            },
            None => {},
        }
    }
}

/// Fill the whole of `dst` with values decoded one after another from
/// `bytes`, starting at `start`: the position one past the last byte
/// consumed, or nothing if the stream fails before `dst` is full — the
/// buffer then holds the values that did decode, in place, and its remaining
/// slots are untouched.
#[verifier::loop_isolation(false)]
pub fn read_buf<T: Read + Copy>(dst: &mut Vec<T>, bytes: &[u8], start: usize) -> (r: Option<usize>)
    ensures
        final(dst)@.len() == old(dst)@.len(),
        match r {
            Some(p) => spec_read_many::<T>(bytes@, start, old(dst)@.len() as nat) == Some(
                (final(dst)@, p),
            ),
            None => ({
                let k = decodable_count::<T>(bytes@, start, old(dst)@.len() as nat);
                &&& spec_read_many::<T>(bytes@, start, old(dst)@.len() as nat) is None
                &&& k < old(dst)@.len()
                &&& (spec_read_many::<T>(bytes@, start, k) matches Some((s, p)) && final(dst)@ == s
                    + old(dst)@.subrange(k as int, old(dst)@.len() as int))
            }),
        },
{
    let n = dst.len();
    let mut pos = start;
    let mut i: usize = 0;
    while i < n
        invariant
            i <= n,
            dst@.len() == n,
            spec_read_many::<T>(bytes@, start, i as nat) == Some::<(Seq<T>, usize)>(
                (dst@.subrange(0, i as int), pos),
            ),
            dst@.subrange(i as int, n as int) == old(dst)@.subrange(i as int, n as int),
            decodable_count::<T>(bytes@, start, n as nat) == i + decodable_count::<T>(
                bytes@,
                pos,
                (n - i) as nat,
            ),
            spec_read_many::<T>(bytes@, start, n as nat) == (match spec_read_many::<T>(
                bytes@,
                pos,
                (n - i) as nat,
            ) {
                None => None::<(Seq<T>, usize)>,
                Some((s, p)) => Some((dst@.subrange(0, i as int) + s, p)),
            }),
        decreases n - i,
    {
        let ghost prefix = dst@.subrange(0, i as int);
        let ghost suffix = dst@.subrange(i as int, n as int);
        let ghost pre = dst@;
        match T::read(bytes, pos) {
            None => {
                proof {
                    assert(dst@ =~= prefix + suffix);
                }
                return None;
            },
            Some((t, p2)) => {
                dst[i] = t;
                pos = p2;
                proof {
                    lemma_read_many_snoc::<T>(bytes@, start, i as nat);
                    assert(dst@ == pre.update(i as int, t));
                    assert(dst@.subrange(0, i as int) =~= prefix);
                    assert(dst@.subrange(0, i + 1) =~= prefix.push(t));
                    assert forall|q: int| i + 1 <= q < n implies dst@[q] == old(dst)@[q] by {
                        assert(pre[q] == suffix[q - i]);
                        assert(old(dst)@[q] == old(dst)@.subrange(i as int, n as int)[q - i]);
                    }
                    assert(dst@.subrange(i + 1, n as int) =~= old(dst)@.subrange(i + 1, n as int));
                    assert(forall|s: Seq<T>|
                        prefix + (#[trigger] (seq![t] + s)) =~= prefix.push(t) + s);
                }
            },
        }
        i = i + 1;
    }
    proof {
        assert(dst@.subrange(0, n as int) + Seq::<T>::empty() =~= dst@);
        assert(dst@.subrange(0, n as int) =~= dst@);
    }
    Some(pos)
}

/// The concatenation of the encodings of a sequence of values, in order.
pub open spec fn enc_seq<T: Write>(s: Seq<T>) -> Seq<u8>
    decreases s.len(),
{
    if s.len() == 0 {
        Seq::empty()
    } else {
        enc_seq(s.drop_last()) + s.last().enc()
    }
}

/// Write every value of `items` to the sink, in order.
#[verifier::loop_isolation(false)]
pub fn write_iter<T: Write, S: WriteSink>(items: &Vec<T>, sink: &mut S)
    ensures
        final(sink).sunk() == old(sink).sunk() + enc_seq(items@),
{
    let n = items.len();
    let mut i: usize = 0;
    proof {
        assert(old(sink).sunk() + enc_seq(items@.subrange(0, 0)) =~= old(sink).sunk());
    }
    while i < n
        invariant
            i <= n,
            sink.sunk() == old(sink).sunk() + enc_seq(items@.subrange(0, i as int)),
        decreases n - i,
    {
        let ghost prefix = items@.subrange(0, i as int);
        items[i].write(sink);
        proof {
            assert(items@.subrange(0, i + 1).drop_last() =~= prefix);
            assert(sink.sunk() =~= old(sink).sunk() + enc_seq(items@.subrange(0, i + 1)));
        }
        i = i + 1;
    }
    proof {
        assert(items@.subrange(0, n as int) =~= items@);
    }
}

/// The big-endian 64-bit value held in eight consecutive bytes.
pub open spec fn u64_from_be(b: Seq<u8>, pos: int) -> u64 {
    ((b[pos] as int) * 0x100_0000_0000_0000 + (b[pos + 1] as int) * 0x1_0000_0000_0000 + (b[pos
        + 2] as int) * 0x100_0000_0000 + (b[pos + 3] as int) * 0x1_0000_0000 + (b[pos + 4] as int)
        * 0x100_0000 + (b[pos + 5] as int) * 0x1_0000 + (b[pos + 6] as int) * 0x100 + (b[pos
        + 7] as int)) as u64
}

impl Read for u64 {
    open spec fn spec_read(bytes: Seq<u8>, pos: usize) -> Option<(u64, usize)> {
        if pos + 8 <= bytes.len() && pos + 8 <= usize::MAX {
            Some((u64_from_be(bytes, pos as int), (pos + 8) as usize))
        } else {
            None
        }
    }

    proof fn lemma_read_advances(bytes: Seq<u8>, pos: usize) {
    }

    fn read(bytes: &[u8], pos: usize) -> (r: Option<(u64, usize)>) {
        if pos < bytes.len() && bytes.len() - pos >= 8 {
            let v = (bytes[pos] as u64) * 0x100_0000_0000_0000 + (bytes[pos + 1] as u64)
                * 0x1_0000_0000_0000 + (bytes[pos + 2] as u64) * 0x100_0000_0000 + (bytes[pos
                + 3] as u64) * 0x1_0000_0000 + (bytes[pos + 4] as u64) * 0x100_0000 + (bytes[pos
                + 5] as u64) * 0x1_0000 + (bytes[pos + 6] as u64) * 0x100 + (bytes[pos + 7] as u64);
            Some((v, pos + 8))
        } else {
            None
        }
    }
}

impl Read for i32 {
    open spec fn spec_read(bytes: Seq<u8>, pos: usize) -> Option<(i32, usize)> {
        match u32::spec_read(bytes, pos) {
            Some((v, p2)) => Some((v.sp_compl(), p2)),
            None => None,
        }
    }

    proof fn lemma_read_advances(bytes: Seq<u8>, pos: usize) {
    }

    fn read(bytes: &[u8], pos: usize) -> (r: Option<(i32, usize)>) {
        match u32::read(bytes, pos) {
            Some((v, p2)) => Some((v.compl(), p2)),
            None => None,
        }
    }
}

impl Read for i64 {
    open spec fn spec_read(bytes: Seq<u8>, pos: usize) -> Option<(i64, usize)> {
        match u64::spec_read(bytes, pos) {
            Some((v, p2)) => Some((v.sp_compl(), p2)),
            None => None,
        }
    }

    proof fn lemma_read_advances(bytes: Seq<u8>, pos: usize) {
    }

    fn read(bytes: &[u8], pos: usize) -> (r: Option<(i64, usize)>) {
        match u64::read(bytes, pos) {
            Some((v, p2)) => Some((v.compl(), p2)),
            None => None,
        }
    }
}

impl Write for i32 {
    open spec fn enc(&self) -> Seq<u8> {
        self.sp_compl().enc()
    }

    fn write<S: WriteSink>(&self, sink: &mut S) {
        let u: u32 = self.compl();
        u.write(sink);
    }
}

impl Codec for i32 {
    proof fn lemma_roundtrip(self, bytes: Seq<u8>, pos: usize) {
        let u = self.sp_compl();
        u.lemma_roundtrip(bytes, pos);
        crate::prim::lemma_compl_inverse_i32(self);
    }
}

} // verus!
