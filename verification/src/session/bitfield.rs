//! Bitfields: one bit per piece, the first piece in the highest bit of the
//! first byte.
use vstd::prelude::*;

verus! {

/// Bit `i` of a packed bitfield.
pub open spec fn bit_at(packed: Seq<u8>, i: int) -> bool {
    byte_bit(packed[i / 8], i % 8)
}

/// Bit `k` of a byte, counted from the highest.
pub open spec fn byte_bit(b: u8, k: int) -> bool {
    (b >> ((7 - k) as u8)) & 1 == 1
}

/// `packed` holds exactly the flags `have`: as many bytes as they need, one bit
/// each, and zeros behind them.
pub open spec fn packs(packed: Seq<u8>, have: Seq<bool>) -> bool {
    &&& packed.len() == (have.len() + 7) / 8
    &&& forall|i: int|
        0 <= i < 8 * packed.len() ==> #[trigger] bit_at(packed, i) == (i < have.len() && have[i])
}

proof fn lemma_set_bit(b: u8, k: u8)
    requires
        k < 8,
    ensures
        forall|j: int|
            0 <= j < 8 ==> #[trigger] byte_bit(b | (1u8 << ((7 - k) as u8)), j) == (j == k
                || byte_bit(b, j)),
{
    let s: u8 = (7 - k) as u8;
    assert forall|j: int| 0 <= j < 8 implies #[trigger] byte_bit(b | (1u8 << s), j) == (j == k
        || byte_bit(b, j)) by {
        let t: u8 = (7 - j) as u8;
        assert(((b | (1u8 << s)) >> t) & 1 == 1 <==> (s == t || (b >> t) & 1 == 1)) by (bit_vector)
            requires
                s < 8,
                t < 8,
        ;
    }
}

proof fn lemma_zero_byte()
    ensures
        forall|j: int| 0 <= j < 8 ==> !#[trigger] byte_bit(0u8, j),
{
    assert forall|j: int| 0 <= j < 8 implies !#[trigger] byte_bit(0u8, j) by {
        let t: u8 = (7 - j) as u8;
        assert((0u8 >> t) & 1 == 0) by (bit_vector)
            requires
                t < 8,
        ;
    }
}

/// The byte at place `at` of a packed bitfield, up to its bit `k`.
pub open spec fn packed_byte(have: Seq<bool>, at: int, k: nat) -> u8
    decreases k,
{
    if k == 0 {
        0
    } else {
        let b = packed_byte(have, at, (k - 1) as nat);
        let i = 8 * at + k - 1;
        if i < have.len() && have[i] {
            b | (1u8 << ((8 - k) as u8))
        } else {
            b
        }
    }
}

/// The packed form of flags.
pub open spec fn packed(have: Seq<bool>) -> Seq<u8> {
    Seq::new((have.len() + 7) / 8, |at: int| packed_byte(have, at, 8))
}

proof fn lemma_packed_byte(have: Seq<bool>, at: int, k: nat)
    requires
        0 <= at,
        k <= 8,
    ensures
        forall|j: int|
            0 <= j < 8 ==> #[trigger] byte_bit(packed_byte(have, at, k), j) == (j < k && 8 * at + j
                < have.len() && have[8 * at + j]),
    decreases k,
{
    if k == 0 {
        lemma_zero_byte();
    } else {
        lemma_packed_byte(have, at, (k - 1) as nat);
        let b = packed_byte(have, at, (k - 1) as nat);
        let bit: u8 = (k - 1) as u8;
        lemma_set_bit(b, bit);
        assert((7 - bit) as u8 == (8 - k) as u8);
        assert forall|j: int| 0 <= j < 8 implies #[trigger] byte_bit(packed_byte(have, at, k), j)
            == (j < k && 8 * at + j < have.len() && have[8 * at + j]) by {
            assert(byte_bit(b, j) == (j < k - 1 && 8 * at + j < have.len() && have[8 * at + j]));
        }
    }
}

/// Every sequence of flags has a packed form.
pub proof fn law_flags_pack(have: Seq<bool>)
    ensures
        packs(packed(have), have),
{
    let p = packed(have);
    assert forall|i: int| 0 <= i < 8 * p.len() implies #[trigger] bit_at(p, i) == (i < have.len()
        && have[i]) by {
        lemma_packed_byte(have, i / 8, 8);
        assert(byte_bit(packed_byte(have, i / 8, 8), i % 8) == (8 * (i / 8) + i % 8 < have.len()
            && have[8 * (i / 8) + i % 8]));
    }
}

/// Packs flags into bytes.
pub fn pack_bitfield(have: &[bool]) -> (r: Vec<u8>)
    ensures
        packs(r@, have@),
{
    let n: usize = have.len();
    let nbytes: usize = if n % 8 == 0 {
        n / 8
    } else {
        n / 8 + 1
    };
    let mut out: Vec<u8> = vec![0u8; nbytes];
    let mut i: usize = 0;
    proof {
        lemma_zero_byte();
    }
    while i < n
        invariant
            i <= n,
            n == have@.len(),
            nbytes == (n + 7) / 8,
            out@.len() == nbytes,
            forall|j: int|
                0 <= j < 8 * nbytes ==> #[trigger] bit_at(out@, j) == (j < i && have@[j]),
        decreases n - i,
    {
        if have[i] {
            let at: usize = i / 8;
            let k: u8 = (i % 8) as u8;
            let byte: u8 = out[at];
            let ghost before = out@;
            proof {
                lemma_set_bit(byte, k);
            }
            out.set(at, byte | (1u8 << (7 - k)));
            assert forall|j: int| 0 <= j < 8 * nbytes implies #[trigger] bit_at(out@, j) == (j < i
                + 1 && have@[j]) by {
                assert(bit_at(before, j) == (j < i && have@[j]));
                if j / 8 == at {
                    assert(byte_bit(byte | (1u8 << ((7 - k) as u8)), j % 8) == (j % 8 == k
                        || byte_bit(byte, j % 8)));
                }
            }
        }
        i = i + 1;
    }
    out
}

/// Reads the first `count` flags of `packed`, whatever follows them.
pub(crate) fn unpack_bits(packed: &[u8], count: usize) -> (r: Vec<bool>)
    requires
        count <= 8 * packed@.len(),
    ensures
        r@ == Seq::new(count as nat, |i: int| bit_at(packed@, i)),
{
    let mut out: Vec<bool> = Vec::new();
    let mut i: usize = 0;
    while i < count
        invariant
            i <= count,
            count <= 8 * packed@.len(),
            out@ == Seq::new(i as nat, |j: int| bit_at(packed@, j)),
        decreases count - i,
    {
        let k: u8 = (i % 8) as u8;
        let byte: u8 = packed[i / 8];
        out.push((byte >> (7 - k)) & 1 == 1);
        i = i + 1;
        assert(out@ =~= Seq::new(i as nat, |j: int| bit_at(packed@, j)));
    }
    out
}

/// Why a bitfield from the wire is not acceptable.
#[derive(Debug, Clone, Copy, PartialEq, Eq, Structural)]
pub enum BitfieldError {
    /// Not as many bytes as the pieces need.
    BadLength,
    /// A bit is set behind the last piece.
    BadSpareBits,
}

proof fn lemma_spare_mask(last: u8, used: u8)
    requires
        0 < used < 8,
    ensures
        last & (((1u8 << ((8 - used) as u8)) - 1) as u8) == 0 <==> (forall|k: int|
            used <= k < 8 ==> !#[trigger] byte_bit(last, k)),
{
    let extra: u8 = (8 - used) as u8;
    let mask: u8 = ((1u8 << extra) - 1) as u8;
    assert(1u8 << extra > 0) by (bit_vector)
        requires
            0 < extra < 8,
    ;
    if last & mask == 0 {
        assert forall|k: int| used <= k < 8 implies !#[trigger] byte_bit(last, k) by {
            let t: u8 = (7 - k) as u8;
            assert((last >> t) & 1 == 0) by (bit_vector)
                requires
                    mask == ((1u8 << extra) - 1) as u8,
                    last & mask == 0,
                    0 < extra < 8,
                    t < extra,
            ;
        }
    }
    if forall|k: int| used <= k < 8 ==> !#[trigger] byte_bit(last, k) {
        if extra > 0 {
            assert(!byte_bit(last, 7));
        }
        if extra > 1 {
            assert(!byte_bit(last, 6));
        }
        if extra > 2 {
            assert(!byte_bit(last, 5));
        }
        if extra > 3 {
            assert(!byte_bit(last, 4));
        }
        if extra > 4 {
            assert(!byte_bit(last, 3));
        }
        if extra > 5 {
            assert(!byte_bit(last, 2));
        }
        if extra > 6 {
            assert(!byte_bit(last, 1));
        }
        assert(last & mask == 0) by (bit_vector)
            requires
                mask == ((1u8 << extra) - 1) as u8,
                0 < extra < 8,
                (last >> 0u8) & 1 != 1,
                extra > 1 ==> (last >> 1u8) & 1 != 1,
                extra > 2 ==> (last >> 2u8) & 1 != 1,
                extra > 3 ==> (last >> 3u8) & 1 != 1,
                extra > 4 ==> (last >> 4u8) & 1 != 1,
                extra > 5 ==> (last >> 5u8) & 1 != 1,
                extra > 6 ==> (last >> 6u8) & 1 != 1,
        ;
    }
}

/// No bit is set behind the first `count`.
pub open spec fn spare_clear(packed: Seq<u8>, count: int) -> bool {
    forall|i: int| count <= i < 8 * packed.len() ==> !#[trigger] bit_at(packed, i)
}

/// Reads a bitfield from the wire: exactly as many bytes as `piece_count` flags
/// need, and no bit set behind them.
pub fn decode_bitfield_strict(bytes: &[u8], piece_count: u32) -> (r: Result<
    Vec<bool>,
    BitfieldError,
>)
    ensures
        match r {
            Ok(have) => have@.len() == piece_count && packs(bytes@, have@),
            Err(BitfieldError::BadLength) => bytes@.len() != (piece_count + 7) / 8,
            Err(BitfieldError::BadSpareBits) => bytes@.len() == (piece_count + 7) / 8
                && !spare_clear(bytes@, piece_count as int),
        },
{
    let whole: u32 = piece_count / 8;
    let used: u32 = piece_count % 8;
    let expected: usize = if used == 0 {
        whole as usize
    } else {
        whole as usize + 1
    };
    if bytes.len() != expected {
        return Err(BitfieldError::BadLength);
    }
    if used != 0 {
        let last: u8 = bytes[expected - 1];
        let extra: u8 = (8 - used) as u8;
        assert(1u8 << extra > 0) by (bit_vector)
            requires
                0 < extra < 8,
        ;
        let mask: u8 = (1u8 << extra) - 1;
        proof {
            lemma_spare_mask(last, used as u8);
        }
        if last & mask != 0 {
            proof {
                let k = choose|k: int| used <= k < 8 && #[trigger] byte_bit(last, k);
                let i: int = 8 * (expected - 1) + k;
                assert(i / 8 == expected - 1 && i % 8 == k);
                assert(bit_at(bytes@, i));
            }
            return Err(BitfieldError::BadSpareBits);
        }
        assert forall|i: int| piece_count <= i < 8 * bytes@.len() implies !#[trigger] bit_at(
            bytes@,
            i,
        ) by {
            assert(i / 8 == expected - 1 && i % 8 >= used);
            assert(!byte_bit(last, i % 8));
        }
    }
    let out = unpack_bits(bytes, piece_count as usize);
    assert(packs(bytes@, out@));
    Ok(out)
}

/// A bitfield of `len` flags with one set, if `piece` is inside.
pub fn single_bit(piece: u32, len: usize) -> (r: Vec<bool>)
    ensures
        r@ == Seq::new(len as nat, |i: int| i == piece),
{
    let mut v: Vec<bool> = vec![false; len];
    if (piece as usize) < len {
        v.set(piece as usize, true);
    }
    assert(v@ =~= Seq::new(len as nat, |i: int| i == piece));
    v
}

/// Packing is one to one: two sets of flags of the same number that pack to the
/// same bytes are the same.
pub proof fn law_pack_injective(packed: Seq<u8>, a: Seq<bool>, b: Seq<bool>)
    requires
        packs(packed, a),
        packs(packed, b),
        a.len() == b.len(),
    ensures
        a == b,
{
    assert forall|i: int| 0 <= i < a.len() implies a[i] == b[i] by {
        assert(bit_at(packed, i) == a[i]);
        assert(bit_at(packed, i) == b[i]);
    }
    assert(a =~= b);
}

/// Reading back the flags of a packed bitfield gives the flags that went in.
pub proof fn law_unpack_undoes_pack(packed: Seq<u8>, have: Seq<bool>)
    requires
        packs(packed, have),
    ensures
        Seq::new(have.len(), |i: int| bit_at(packed, i)) == have,
        spare_clear(packed, have.len() as int),
{
    assert forall|i: int| 0 <= i < have.len() implies bit_at(packed, i) == have[i] by {
        assert(i < 8 * packed.len());
    }
    assert(Seq::new(have.len(), |i: int| bit_at(packed, i)) =~= have);
}


proof fn lemma_byte_from_bits(a: u8, b: u8)
    requires
        forall|k: int| 0 <= k < 8 ==> #[trigger] byte_bit(a, k) == byte_bit(b, k),
    ensures
        a == b,
{
    assert(byte_bit(a, 0) == byte_bit(b, 0));
    assert(byte_bit(a, 1) == byte_bit(b, 1));
    assert(byte_bit(a, 2) == byte_bit(b, 2));
    assert(byte_bit(a, 3) == byte_bit(b, 3));
    assert(byte_bit(a, 4) == byte_bit(b, 4));
    assert(byte_bit(a, 5) == byte_bit(b, 5));
    assert(byte_bit(a, 6) == byte_bit(b, 6));
    assert(byte_bit(a, 7) == byte_bit(b, 7));
    assert(a == b) by (bit_vector)
        requires
            ((a >> 0u8) & 1 == 1) == ((b >> 0u8) & 1 == 1),
            ((a >> 1u8) & 1 == 1) == ((b >> 1u8) & 1 == 1),
            ((a >> 2u8) & 1 == 1) == ((b >> 2u8) & 1 == 1),
            ((a >> 3u8) & 1 == 1) == ((b >> 3u8) & 1 == 1),
            ((a >> 4u8) & 1 == 1) == ((b >> 4u8) & 1 == 1),
            ((a >> 5u8) & 1 == 1) == ((b >> 5u8) & 1 == 1),
            ((a >> 6u8) & 1 == 1) == ((b >> 6u8) & 1 == 1),
            ((a >> 7u8) & 1 == 1) == ((b >> 7u8) & 1 == 1),
    ;
}

/// Flags have one packed form.
pub proof fn law_packed_form_is_unique(a: Seq<u8>, b: Seq<u8>, have: Seq<bool>)
    requires
        packs(a, have),
        packs(b, have),
    ensures
        a == b,
{
    assert forall|j: int| 0 <= j < a.len() implies a[j] == b[j] by {
        assert forall|k: int| 0 <= k < 8 implies #[trigger] byte_bit(a[j], k) == byte_bit(b[j], k) by {
            let i: int = 8 * j + k;
            assert(i / 8 == j && i % 8 == k);
            assert(bit_at(a, i) == (i < have.len() && have[i]));
            assert(bit_at(b, i) == (i < have.len() && have[i]));
        }
        lemma_byte_from_bits(a[j], b[j]);
    }
    assert(a =~= b);
}

} // verus!
