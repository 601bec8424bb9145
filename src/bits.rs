//! Fixed-width fields packed back to back into 64-bit words, low bits first.
//! A field that straddles a word boundary keeps its low bits at the top of
//! one word and the rest at the bottom of the next.
use vstd::prelude::*;

verus! {

/// Bit `j` (`j < 64`) of a word.
pub open spec fn word_bit(w: u64, j: int) -> bool {
    (w >> (j as u64)) & 1 == 1
}

/// Bit `k` of a packed word array.
pub open spec fn bit_at(words: Seq<u64>, k: int) -> bool {
    word_bit(words[k / 64], k % 64)
}

/// Bit `b` of a value; bits from 64 on are clear.
pub open spec fn value_bit(v: u64, b: int) -> bool {
    0 <= b < 64 && word_bit(v, b)
}

/// `v` fits in `width` bits.
pub open spec fn fits(v: u64, width: u64) -> bool {
    v >> width == 0
}

/// The number held by the `width` bits from bit `start` on.
pub open spec fn field_at(words: Seq<u64>, start: int, width: nat) -> nat
    decreases width,
{
    if width == 0 {
        0
    } else {
        (if bit_at(words, start) {
            1nat
        } else {
            0nat
        }) + 2 * field_at(words, start + 1, (width - 1) as nat)
    }
}

/// The field of width `width` with index `index`.
pub open spec fn field(words: Seq<u64>, width: nat, index: nat) -> nat {
    field_at(words, (index * width) as int, width)
}

/// Every bit of `new` is that of `old`, except those of field `index`, which
/// are those of `value`.
pub open spec fn field_written(
    old_words: Seq<u64>,
    new_words: Seq<u64>,
    width: nat,
    index: nat,
    value: u64,
) -> bool {
    &&& new_words.len() == old_words.len()
    &&& forall|k: int|
        0 <= k < new_words.len() * 64 ==> #[trigger] bit_at(new_words, k) == if index * width <= k
            < index * width + width {
            value_bit(value, k - index * width)
        } else {
            bit_at(old_words, k)
        }
}

proof fn lemma_low_word(o: u64, v: u64, s: u64, w: u64, j: u64) by (bit_vector)
    requires
        s < 64,
        1 <= w < 64,
        j < 64,
        v >> w == 0,
    ensures
        (((o & !((((1u64 << w) - 1) as u64) << s)) | (v << s)) >> j) & 1 == if s <= j && j < s + w {
            (v >> (j - s) as u64) & 1
        } else {
            (o >> j) & 1
        },
{
}

proof fn lemma_high_word(o: u64, v: u64, s: u64, w: u64, j: u64) by (bit_vector)
    requires
        s < 64,
        1 <= w < 64,
        s + w > 64,
        j < 64,
        v >> w == 0,
    ensures
        (((o & !((((1u64 << w) - 1) as u64) >> (64 - s) as u64)) | (v >> (64 - s) as u64)) >> j) & 1 == if j < s
            + w - 64 {
            (v >> ((j + 64 - s) as u64)) & 1
        } else {
            (o >> j) & 1
        },
{
}

/// Store `value` in field `index` of width `width`.
pub fn write_field(words: &mut Vec<u64>, width: u32, index: usize, value: u64)
    requires
        1 <= width < 64,
        fits(value, width as u64),
        (index + 1) * width <= old(words)@.len() * 64,
        old(words)@.len() * 64 <= usize::MAX,
    ensures
        field_written(old(words)@, final(words)@, width as nat, index as nat, value),
{
    let ghost o = words@;
    proof {
        assert((index + 1) * width == index * width + width) by (nonlinear_arith);
    }
    let start: usize = index * width as usize;
    let wi: usize = start / 64;
    let s: u64 = (start % 64) as u64;
    let w: u64 = width as u64;
    assert(1u64 << w >= 1) by (bit_vector)
        requires
            w < 64,
    ;
    let m: u64 = (1u64 << w) - 1;
    assert(start == 64 * wi + s);
    assert(wi < words@.len());
    let lo = words[wi];
    words.set(wi, (lo & !(m << s)) | (value << s));
    if s + w > 64 {
        assert(wi + 1 < words@.len());
        let hi = words[wi + 1];
        words.set(wi + 1, (hi & !(m >> (64 - s))) | (value >> (64 - s)));
    }
    proof {
        assert forall|k: int| 0 <= k < words@.len() * 64 implies #[trigger] bit_at(words@, k)
            == if index * width <= k < index * width + width {
            value_bit(value, k - index * width)
        } else {
            bit_at(o, k)
        } by {
            let q = k / 64;
            let j = k % 64;
            if q == wi {
                lemma_low_word(lo, value, s, w, j as u64);
            } else if q == wi + 1 && s + w > 64 {
                lemma_high_word(words@[q] , value, s, w, j as u64);
                lemma_high_word(o[q], value, s, w, j as u64);
            }
        }
    }
}

proof fn lemma_bits_of_half(v: u64, b: u64) by (bit_vector)
    requires
        b < 63,
    ensures
        ((v >> 1) >> b) & 1 == (v >> (b + 1)) & 1,
{
}

proof fn lemma_split_low_bit(v: u64, n: u64) by (bit_vector)
    requires
        1 <= n < 64,
        v >> n == 0,
    ensures
        (v >> 1) >> ((n - 1) as u64) == 0,
        v == (v & 1) + 2 * (v >> 1),
        (v & 1 == 1) == ((v >> 0u64) & 1 == 1),
        v & 1 <= 1,
{
}

/// A field whose bits are those of `v` holds `v`.
proof fn lemma_field_of_bits(words: Seq<u64>, start: int, n: nat, v: u64)
    requires
        n < 64,
        fits(v, n as u64),
        forall|b: int| 0 <= b < n ==> bit_at(words, start + b) == value_bit(v, b),
    ensures
        field_at(words, start, n) == v,
    decreases n,
{
    if n == 0 {
        assert(v == 0) by (bit_vector)
            requires
                v >> 0u64 == 0,
        ;
    } else {
        lemma_split_low_bit(v, n as u64);
        let h = v >> 1;
        assert forall|b: int| 0 <= b < n - 1 implies bit_at(words, (start + 1) + b) == value_bit(
            h,
            b,
        ) by {
            assert(bit_at(words, start + (b + 1)) == value_bit(v, b + 1));
            lemma_bits_of_half(v, b as u64);
        }
        lemma_field_of_bits(words, start + 1, (n - 1) as nat, h);
        assert(bit_at(words, start + 0) == value_bit(v, 0));
    }
}

/// Fields over the same bits hold the same number.
proof fn lemma_field_same_bits(a: Seq<u64>, b: Seq<u64>, start: int, n: nat)
    requires
        forall|k: int| start <= k < start + n ==> bit_at(a, k) == bit_at(b, k),
    ensures
        field_at(a, start, n) == field_at(b, start, n),
    decreases n,
{
    if n > 0 {
        lemma_field_same_bits(a, b, start + 1, (n - 1) as nat);
    }
}

/// After a field is written, it holds the value written and every other field
/// holds what it held before.
pub proof fn lemma_write_then_read(
    old_words: Seq<u64>,
    new_words: Seq<u64>,
    width: nat,
    index: nat,
    value: u64,
)
    requires
        1 <= width < 64,
        fits(value, width as u64),
        (index + 1) * width <= old_words.len() * 64,
        field_written(old_words, new_words, width, index, value),
    ensures
        field(new_words, width, index) == value,
        forall|j: nat|
            j != index && (j + 1) * width <= old_words.len() * 64 ==> #[trigger] field(
                new_words,
                width,
                j,
            ) == field(old_words, width, j),
{
    assert((index + 1) * width == index * width + width) by (nonlinear_arith);
    assert forall|b: int| 0 <= b < width implies bit_at(new_words, index * width + b) == value_bit(
        value,
        b,
    ) by {
        assert(bit_at(new_words, index * width + b) == value_bit(value, (index * width + b) - index * width));
    }
    lemma_field_of_bits(new_words, (index * width) as int, width, value);
    assert forall|j: nat|
        j != index && (j + 1) * width <= old_words.len() * 64 implies #[trigger] field(
            new_words,
            width,
            j,
        ) == field(old_words, width, j) by {
        assert((j + 1) * width == j * width + width) by (nonlinear_arith);
        if j < index {
            assert((j + 1) * width <= index * width) by (nonlinear_arith)
                requires
                    j + 1 <= index,
            ;
        } else {
            assert((index + 1) * width <= j * width) by (nonlinear_arith)
                requires
                    index + 1 <= j,
            ;
        }
        lemma_field_same_bits(new_words, old_words, (j * width) as int, width);
    }
}

proof fn lemma_double_plus_bit(a: u64, c: u64, n: u64) by (bit_vector)
    requires
        n < 63,
        a >> n == 0,
        c <= 1,
    ensures
        a <= 0x7fff_ffff_ffff_ffff,
        ((a * 2 + c) as u64) >> ((n + 1) as u64) == 0,
{
}

/// The value of field `index` of width `width`.
pub fn read_field(words: &Vec<u64>, width: u32, index: usize) -> (r: u64)
    requires
        1 <= width < 64,
        (index + 1) * width <= words@.len() * 64,
        words@.len() * 64 <= usize::MAX,
    ensures
        r == field(words@, width as nat, index as nat),
        fits(r, width as u64),
{
    proof {
        assert((index + 1) * width == index * width + width) by (nonlinear_arith);
    }
    let start: usize = index * width as usize;
    let mut acc: u64 = 0;
    let mut b: u32 = width;
    assert(fits(0, 0)) by (bit_vector);
    while b > 0
        invariant
            1 <= width < 64,
            b <= width,
            start == index * width,
            start + width <= words@.len() * 64,
            words@.len() * 64 <= usize::MAX,
            acc == field_at(words@, start + b, (width - b) as nat),
            fits(acc, (width - b) as u64),
        decreases b,
    {
        let k: usize = start + (b - 1) as usize;
        let w = words[k / 64];
        let bit: u64 = (w >> (k % 64) as u64) & 1;
        assert(bit <= 1) by (bit_vector)
            requires
                bit == (w >> ((k % 64) as u64)) & 1,
        ;
        proof {
            lemma_double_plus_bit(acc, bit, (width - b) as u64);
        }
        acc = acc * 2 + bit;
        b = b - 1;
    }
    acc
}

/// Fields over the same bits that hold the same number agree bit for bit.
pub proof fn lemma_field_bits_equal(a: Seq<u64>, b: Seq<u64>, start: int, n: nat)
    requires
        field_at(a, start, n) == field_at(b, start, n),
    ensures
        forall|k: int| start <= k < start + n ==> bit_at(a, k) == bit_at(b, k),
    decreases n,
{
    if n > 0 {
        lemma_field_bits_equal(a, b, start + 1, (n - 1) as nat);
    }
}

proof fn lemma_top_bit(x: u64, y: u64) by (bit_vector)
    requires
        ((x >> 63u64) & 1 == 1) == ((y >> 63u64) & 1 == 1),
    ensures
        x >> 63u64 == y >> 63u64,
{
}

proof fn lemma_shift_step(x: u64, y: u64, n: u64) by (bit_vector)
    requires
        n < 63,
        x >> (n + 1) == y >> (n + 1),
        ((x >> n) & 1 == 1) == ((y >> n) & 1 == 1),
    ensures
        x >> n == y >> n,
{
}

proof fn lemma_shifts_equal(x: u64, y: u64, n: int)
    requires
        0 <= n <= 63,
        forall|j: int| 0 <= j < 64 ==> #[trigger] word_bit(x, j) == word_bit(y, j),
    ensures
        x >> (n as u64) == y >> (n as u64),
    decreases 63 - n,
{
    if n == 63 {
        assert(word_bit(x, 63) == word_bit(y, 63));
        lemma_top_bit(x, y);
    } else {
        lemma_shifts_equal(x, y, n + 1);
        assert(word_bit(x, n) == word_bit(y, n));
        lemma_shift_step(x, y, n as u64);
    }
}

/// Words with the same bits are equal.
pub proof fn lemma_word_from_bits(x: u64, y: u64)
    requires
        forall|j: int| 0 <= j < 64 ==> #[trigger] word_bit(x, j) == word_bit(y, j),
    ensures
        x == y,
{
    lemma_shifts_equal(x, y, 0);
    assert(x >> 0u64 == x && y >> 0u64 == y) by (bit_vector);
}

/// Word arrays of one length with the same bits are equal.
pub proof fn lemma_words_from_bits(a: Seq<u64>, b: Seq<u64>)
    requires
        a.len() == b.len(),
        forall|k: int| 0 <= k < a.len() * 64 ==> #[trigger] bit_at(a, k) == bit_at(b, k),
    ensures
        a == b,
{
    assert forall|q: int| 0 <= q < a.len() implies a[q] == b[q] by {
        assert forall|j: int| 0 <= j < 64 implies #[trigger] word_bit(a[q], j) == word_bit(b[q], j) by {
            let k = q * 64 + j;
            assert(k / 64 == q && k % 64 == j);
            assert(bit_at(a, k) == bit_at(b, k));
        }
        lemma_word_from_bits(a[q], b[q]);
    }
    assert(a =~= b);
}

} // verus!
