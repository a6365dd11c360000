//! The hash functions by which Kafka clients and brokers place records and
//! groups.

use vstd::arithmetic::div_mod::*;
use vstd::prelude::*;
use vstd::string::*;
use vstd::wrapping::u32_specs;

use crate::number::{signed32, to_signed};
use crate::text::{chars_of, lemma_char_range};

verus! {

// ---- murmur2 ----

/// Multiplication by the constant of the murmur2 hash.
pub open spec fn murmur_times(x: u32) -> u32 {
    u32_specs::wrapping_mul(x, 0x5bd1_e995)
}

/// A word before it goes into the hash.
pub open spec fn murmur_scrambled(word: u32) -> u32 {
    let k = murmur_times(word);
    murmur_times(k ^ (k >> 24))
}

/// The word of four bytes at `i`, the lowest first.
pub open spec fn little_endian(data: Seq<u8>, i: int) -> u32 {
    (data[i] + data[i + 1] * 0x100 + data[i + 2] * 0x1_0000 + data[i + 3] * 0x100_0000) as u32
}

/// The hash of the first `words` words.
pub open spec fn murmur_words(data: Seq<u8>, words: nat) -> u32
    decreases words,
{
    if words == 0 {
        0x9747_b28c ^ ((data.len() % 0x1_0000_0000) as u32)
    } else {
        let before = murmur_words(data, (words - 1) as nat);
        murmur_times(before) ^ murmur_scrambled(little_endian(data, 4 * (words - 1)))
    }
}

/// The hash with the bytes behind the last whole word, three at most.
pub open spec fn murmur_tail(h: u32, rest: Seq<u8>) -> u32 {
    let h = if rest.len() >= 3 {
        h ^ ((rest[2] * 0x1_0000) as u32)
    } else {
        h
    };
    let h = if rest.len() >= 2 {
        h ^ ((rest[1] * 0x100) as u32)
    } else {
        h
    };
    if rest.len() >= 1 {
        murmur_times(h ^ (rest[0] as u32))
    } else {
        h
    }
}

/// The last mixing of the hash.
pub open spec fn murmur_mixed(h: u32) -> u32 {
    let h = murmur_times(h ^ (h >> 13));
    h ^ (h >> 15)
}

/// The murmur2 hash of 32 bits with the seed that Kafka uses.
pub open spec fn murmur2_hash(data: Seq<u8>) -> int {
    let words = data.len() / 4;
    let h = murmur_tail(murmur_words(data, words), data.skip(4 * words as int));
    signed32(murmur_mixed(h) as int)
}

/// The hash by which the default partitioner of the JVM client places a key.
pub fn murmur2(data: &[u8]) -> (r: i32)
    ensures
        r == murmur2_hash(data@),
{
    let m: u32 = 0x5bd1_e995;
    let length: usize = data.len();
    let words: usize = length / 4;
    let mut h: u32 = 0x9747_b28c ^ ((length as u64 % 0x1_0000_0000) as u32);
    let mut i: usize = 0;
    while i < words
        invariant
            m == 0x5bd1_e995,
            length == data@.len(),
            words == length / 4,
            i <= words,
            h == murmur_words(data@, i as nat),
        decreases words - i,
    {
        let at: usize = 4 * i;
        let word: u32 = data[at] as u32 + data[at + 1] as u32 * 0x100 + data[at + 2] as u32
            * 0x1_0000 + data[at + 3] as u32 * 0x100_0000;
        let mut k: u32 = word.wrapping_mul(m);
        k = k ^ (k >> 24);
        k = k.wrapping_mul(m);
        h = h.wrapping_mul(m) ^ k;
        i = i + 1;
    }
    let base: usize = 4 * words;
    let rest: usize = length - base;
    let ghost tail = data@.skip(base as int);
    let ghost before = h;
    if rest >= 3 {
        h = h ^ (data[base + 2] as u32 * 0x1_0000);
    }
    if rest >= 2 {
        h = h ^ (data[base + 1] as u32 * 0x100);
    }
    if rest >= 1 {
        h = h ^ (data[base] as u32);
        h = h.wrapping_mul(m);
    }
    assert(h == murmur_tail(before, tail));
    h = h ^ (h >> 13);
    h = h.wrapping_mul(m);
    h = h ^ (h >> 15);
    to_signed(h)
}

// ---- CRC-32 ----

/// One step of the CRC-32 register: a shift, with the reflected polynomial
/// added where a one falls out.
pub open spec fn crc_step(crc: u32) -> u32 {
    if crc % 2 == 1 {
        (crc / 2) ^ 0xedb8_8320
    } else {
        crc / 2
    }
}

/// `n` steps.
pub open spec fn crc_steps(crc: u32, n: nat) -> u32
    decreases n,
{
    if n == 0 {
        crc
    } else {
        crc_step(crc_steps(crc, (n - 1) as nat))
    }
}

/// The register after the bytes of `data`, from all ones on.
pub open spec fn crc_register(data: Seq<u8>) -> u32
    decreases data.len(),
{
    if data.len() == 0 {
        0xffff_ffff
    } else {
        crc_steps(crc_register(data.drop_last()) ^ (data.last() as u32), 8)
    }
}

/// CRC-32 (IEEE 802.3): the complement of the register.
pub open spec fn crc32(data: Seq<u8>) -> u32 {
    (0xffff_ffff - crc_register(data)) as u32
}

/// The hash by which librdkafka's `consistent` partitioner places a key.
pub fn crc32_ieee(data: &[u8]) -> (r: u32)
    ensures
        r == crc32(data@),
{
    let mut crc: u32 = 0xffff_ffff;
    let mut i: usize = 0;
    while i < data.len()
        invariant
            i <= data@.len(),
            crc == crc_register(data@.take(i as int)),
        decreases data@.len() - i,
    {
        proof {
            assert(data@.take(i + 1).drop_last() =~= data@.take(i as int));
        }
        crc = crc ^ (data[i] as u32);
        let ghost mixed = crc;
        let mut n: u32 = 0;
        while n < 8
            invariant
                n <= 8,
                crc == crc_steps(mixed, n as nat),
            decreases 8 - n,
        {
            crc = if crc % 2 == 1 {
                (crc / 2) ^ 0xedb8_8320
            } else {
                crc / 2
            };
            n = n + 1;
        }
        i = i + 1;
    }
    assert(data@.take(i as int) =~= data@);
    0xffff_ffff - crc
}

// ---- String.hashCode ----

/// The UTF-16 code units of a character: itself, or a pair of surrogates.
pub open spec fn utf16_of(c: char) -> Seq<int> {
    let code = c as int;
    if code < 0x1_0000 {
        seq![code]
    } else {
        seq![0xd800 + (code - 0x1_0000) / 0x400, 0xdc00 + (code - 0x1_0000) % 0x400]
    }
}

/// The UTF-16 code units of a text.
pub open spec fn utf16(s: Seq<char>) -> Seq<int>
    decreases s.len(),
{
    if s.len() == 0 {
        Seq::empty()
    } else {
        utf16(s.drop_last()) + utf16_of(s.last())
    }
}

/// `u[0] * 31^(n-1) + ... + u[n-1]`.
pub open spec fn polynomial31(units: Seq<int>) -> int
    decreases units.len(),
{
    if units.len() == 0 {
        0
    } else {
        polynomial31(units.drop_last()) * 31 + units.last()
    }
}

/// The hash of a Java string.
pub open spec fn java_hash(s: Seq<char>) -> int {
    signed32(polynomial31(utf16(s)))
}

proof fn lemma_polynomial_step(units: Seq<int>, u: int, h: u32)
    requires
        h == polynomial31(units) % 0x1_0000_0000,
        0 <= u < 0x1_0000,
    ensures
        u32_specs::wrapping_add(u32_specs::wrapping_mul(h, 31), u as u32) == polynomial31(
            units.push(u),
        ) % 0x1_0000_0000,
{
    assert(units.push(u).drop_last() =~= units);
    let m = 0x1_0000_0000int;
    let p = polynomial31(units);
    let q = p / m;
    lemma_fundamental_div_mod(p, m);
    assert(p * 31 + u == m * (q * 31) + (h * 31 + u));
    lemma_mod_multiples_vanish(q * 31, h * 31 + u, m);
    let times = u32_specs::wrapping_mul(h, 31);
    assert(times == (h * 31) % m);
    lemma_add_mod_noop(h * 31, u, m);
    lemma_small_mod(u as nat, m as nat);
    assert(u32_specs::wrapping_add(times, u as u32) == (times + u) % m);
}

/// `String.hashCode()` of the JVM, by which brokers place groups.
pub fn java_string_hashcode(s: &str) -> (r: i32)
    ensures
        r == java_hash(s@),
{
    let chars = chars_of(s);
    let mut h: u32 = 0;
    let mut i: usize = 0;
    while i < chars.len()
        invariant
            i <= chars@.len(),
            chars@ == s@,
            h == polynomial31(utf16(s@.take(i as int))) % 0x1_0000_0000,
        decreases chars@.len() - i,
    {
        let c: char = chars[i];
        let ghost units = utf16(s@.take(i as int));
        assert(s@.take(i + 1).drop_last() =~= s@.take(i as int));
        proof {
            lemma_char_range(c);
        }
        let code: u32 = c as u32;
        if code < 0x1_0000 {
            proof {
                lemma_polynomial_step(units, code as int, h);
                assert(units + utf16_of(c) =~= units.push(code as int));
            }
            h = h.wrapping_mul(31).wrapping_add(code);
        } else {
            let high: u32 = 0xd800 + (code - 0x1_0000) / 0x400;
            let low: u32 = 0xdc00 + (code - 0x1_0000) % 0x400;
            proof {
                lemma_polynomial_step(units, high as int, h);
                assert(units + utf16_of(c) =~= units.push(high as int).push(low as int));
            }
            h = h.wrapping_mul(31).wrapping_add(high);
            proof {
                lemma_polynomial_step(units.push(high as int), low as int, h);
            }
            h = h.wrapping_mul(31).wrapping_add(low);
        }
        i = i + 1;
    }
    assert(s@.take(i as int) =~= s@);
    to_signed(h)
}

// ---- what the hashes promise ----

/// Multiplication by the constant of the murmur2 hash can be undone.
proof fn lemma_times_injective(x: u32, y: u32)
    requires
        murmur_times(x) == murmur_times(y),
    ensures
        x == y,
{
    lemma_times_undone(x);
    lemma_times_undone(y);
}

proof fn lemma_times_undone(x: u32)
    ensures
        (murmur_times(x) as int * 0xe59b_19bd) % 0x1_0000_0000 == x,
{
    let m = 0x1_0000_0000int;
    lemma_mul_mod_noop_left(x as int * 0x5bd1_e995, 0xe59b_19bd, m);
    assert((x as int * 0x5bd1_e995) * 0xe59b_19bd == m * (x as int * 0x525a_6746) + x as int);
    lemma_mod_multiples_vanish(x as int * 0x525a_6746, x as int, m);
    lemma_small_mod(x as nat, m as nat);
}

proof fn lemma_scrambled_injective(x: u32, y: u32)
    requires
        murmur_scrambled(x) == murmur_scrambled(y),
    ensures
        x == y,
{
    let a = murmur_times(x);
    let b = murmur_times(y);
    lemma_times_injective(a ^ (a >> 24), b ^ (b >> 24));
    assert(a == b) by (bit_vector)
        requires
            a ^ (a >> 24) == b ^ (b >> 24),
    ;
    lemma_times_injective(x, y);
}

proof fn lemma_mixed_injective(x: u32, y: u32)
    requires
        murmur_mixed(x) == murmur_mixed(y),
    ensures
        x == y,
{
    let a = murmur_times(x ^ (x >> 13));
    let b = murmur_times(y ^ (y >> 13));
    assert(a == b) by (bit_vector)
        requires
            a ^ (a >> 15) == b ^ (b >> 15),
    ;
    lemma_times_injective(x ^ (x >> 13), y ^ (y >> 13));
    assert(x == y) by (bit_vector)
        requires
            x ^ (x >> 13) == y ^ (y >> 13),
    ;
}

proof fn lemma_xor_injective(x: u32, y: u32, z: u32)
    requires
        x ^ z == y ^ z,
    ensures
        x == y,
{
    assert(x == y) by (bit_vector)
        requires
            x ^ z == y ^ z,
    ;
}

proof fn lemma_xor_injective_right(x: u32, y: u32, z: u32)
    requires
        z ^ x == z ^ y,
    ensures
        x == y,
{
    assert(x == y) by (bit_vector)
        requires
            z ^ x == z ^ y,
    ;
}

/// The hash of words depends on the length and on those words alone.
proof fn lemma_words_alike(a: Seq<u8>, b: Seq<u8>, k: nat)
    requires
        a.len() == b.len(),
        4 * k <= a.len(),
        forall|i: int| 0 <= i < 4 * k ==> #[trigger] a[i] == b[i],
    ensures
        murmur_words(a, k) == murmur_words(b, k),
    decreases k,
{
    if k > 0 {
        lemma_words_alike(a, b, (k - 1) as nat);
        let at = 4 * (k - 1);
        assert(a[at] == b[at] && a[at + 1] == b[at + 1] && a[at + 2] == b[at + 2] && a[at + 3]
            == b[at + 3]);
    }
}

/// Hashes that differ stay different as the same words go into them.
proof fn lemma_words_stay_apart(a: Seq<u8>, b: Seq<u8>, from: nat, k: nat)
    requires
        a.len() == b.len(),
        from <= k,
        4 * k <= a.len(),
        forall|i: int| 4 * from <= i < 4 * k ==> #[trigger] a[i] == b[i],
        murmur_words(a, from) != murmur_words(b, from),
    ensures
        murmur_words(a, k) != murmur_words(b, k),
    decreases k,
{
    if from < k {
        let before = (k - 1) as nat;
        lemma_words_stay_apart(a, b, from, before);
        let at = 4 * before as int;
        assert(a[at] == b[at] && a[at + 1] == b[at + 1] && a[at + 2] == b[at + 2] && a[at + 3]
            == b[at + 3]);
        let word = murmur_scrambled(little_endian(a, at));
        if murmur_words(a, k) == murmur_words(b, k) {
            lemma_xor_injective(
                murmur_times(murmur_words(a, before)),
                murmur_times(murmur_words(b, before)),
                word,
            );
            lemma_times_injective(murmur_words(a, before), murmur_words(b, before));
        }
    }
}

/// The number that bytes make up, the lowest first.
pub open spec fn low_first(bytes: Seq<u8>) -> int
    decreases bytes.len(),
{
    if bytes.len() == 0 {
        0
    } else {
        bytes[0] + 0x100 * low_first(bytes.skip(1))
    }
}

/// Three bytes at most make up a number below 2^24, and that number them.
proof fn lemma_low_first(bytes: Seq<u8>)
    requires
        bytes.len() <= 3,
    ensures
        0 <= low_first(bytes) < 0x100_0000,
        low_first(bytes) == (if bytes.len() >= 1 {
            bytes[0] as int
        } else {
            0
        }) + (if bytes.len() >= 2 {
            bytes[1] * 0x100
        } else {
            0
        }) + (if bytes.len() >= 3 {
            bytes[2] * 0x1_0000
        } else {
            0
        }),
{
    reveal_with_fuel(low_first, 4);
    if bytes.len() >= 2 {
        assert(bytes.skip(1)[0] == bytes[1]);
    }
    if bytes.len() >= 3 {
        assert(bytes.skip(1).skip(1)[0] == bytes[2]);
    }
}

/// The bytes behind the last word go into the hash as one number.
proof fn lemma_tail_number(h: u32, rest: Seq<u8>)
    requires
        rest.len() <= 3,
    ensures
        murmur_tail(h, rest) == if rest.len() == 0 {
            h
        } else {
            murmur_times(h ^ (low_first(rest) as u32))
        },
{
    lemma_low_first(rest);
    let n = low_first(rest) as u32;
    if rest.len() == 3 {
        let (a, b, c) = (rest[0] as u32, rest[1] as u32, rest[2] as u32);
        assert((h ^ ((c * 0x1_0000) as u32)) ^ ((b * 0x100) as u32) ^ a == h ^ n) by (bit_vector)
            requires
                a < 0x100,
                b < 0x100,
                c < 0x100,
                n == a + b * 0x100 + c * 0x1_0000,
        ;
    } else if rest.len() == 2 {
        let (a, b) = (rest[0] as u32, rest[1] as u32);
        assert((h ^ ((b * 0x100) as u32)) ^ a == h ^ n) by (bit_vector)
            requires
                a < 0x100,
                b < 0x100,
                n == a + b * 0x100,
        ;
    }
}

/// Bytes of the same number and of the same length are the same.
proof fn lemma_low_first_injective(a: Seq<u8>, b: Seq<u8>)
    requires
        a.len() == b.len(),
        low_first(a) == low_first(b),
    ensures
        a == b,
    decreases a.len(),
{
    if a.len() == 0 {
        assert(a =~= b);
    } else {
        lemma_low_first_positive(a.skip(1));
        lemma_low_first_positive(b.skip(1));
        lemma_low_first_injective(a.skip(1), b.skip(1));
        assert(a =~= seq![a[0]] + a.skip(1));
        assert(b =~= seq![b[0]] + b.skip(1));
    }
}

proof fn lemma_low_first_positive(a: Seq<u8>)
    ensures
        low_first(a) >= 0,
    decreases a.len(),
{
    if a.len() > 0 {
        lemma_low_first_positive(a.skip(1));
    }
}

/// The words of a key go into the murmur2 hash one after the other, each as the number of
/// its four bytes, the lowest first; the bytes behind the last word go in as the number
/// that they make up, if there are any.
pub proof fn law_murmur2_by_words(data: Seq<u8>, k: nat)
    ensures
        ({
            let m = 0x5bd1_e995int;
            let two32 = 0x1_0000_0000int;
            let whole = data.len() / 4;
            let rest = data.skip(4 * whole as int);
            let hashed = murmur_words(data, whole);
            let before = if rest.len() == 0 {
                hashed
            } else {
                (((hashed ^ (low_first(rest) as u32)) * m) % two32) as u32
            };
            let mixed = (((before ^ (before >> 13)) * m) % two32) as u32;
            let word = (low_first(data.subrange(4 * k as int, 4 * k as int + 4)) * m % two32) as u32;
            &&& murmur_words(data, 0) == 0x9747_b28cu32 ^ ((data.len() % 0x1_0000_0000) as u32)
            &&& k < whole ==> murmur_words(data, k + 1) == ((murmur_words(data, k) * m % two32)
                as u32) ^ (((word ^ (word >> 24)) * m % two32) as u32)
            &&& i32::MIN <= murmur2_hash(data) <= i32::MAX
            &&& (murmur2_hash(data) - (mixed ^ (mixed >> 15))) % two32 == 0
        }),
{
    let whole = data.len() / 4;
    let rest = data.skip(4 * whole as int);
    lemma_tail_number(murmur_words(data, whole), rest);
    if k < whole {
        let four = data.subrange(4 * k as int, 4 * k as int + 4);
        lemma_low_first_four(four);
        assert(little_endian(data, 4 * k as int) == low_first(four));
    }
}

proof fn lemma_low_first_four(four: Seq<u8>)
    requires
        four.len() == 4,
    ensures
        low_first(four) == four[0] + four[1] * 0x100 + four[2] * 0x1_0000 + four[3] * 0x100_0000,
        0 <= low_first(four) < 0x1_0000_0000,
{
    lemma_low_first(four.skip(1));
}

/// Keys that differ within one word alone have different hashes once that word is in.
proof fn lemma_word_counts(a: Seq<u8>, b: Seq<u8>, w: nat)
    requires
        a.len() == b.len(),
        4 * w + 4 <= a.len(),
        forall|i: int| 0 <= i < 4 * w ==> #[trigger] a[i] == b[i],
        a.subrange(4 * w as int, 4 * w as int + 4) != b.subrange(4 * w as int, 4 * w as int + 4),
    ensures
        murmur_words(a, w + 1) != murmur_words(b, w + 1),
{
    lemma_words_alike(a, b, w);
    let at = 4 * w as int;
    let fa = a.subrange(at, at + 4);
    let fb = b.subrange(at, at + 4);
    lemma_low_first_four(fa);
    lemma_low_first_four(fb);
    if low_first(fa) == low_first(fb) {
        lemma_low_first_injective(fa, fb);
    }
    let before = murmur_times(murmur_words(a, w));
    let (la, lb) = (little_endian(a, at), little_endian(b, at));
    assert(la == low_first(fa) && lb == low_first(fb));
    if before ^ murmur_scrambled(la) == before ^ murmur_scrambled(lb) {
        lemma_xor_injective_right(murmur_scrambled(la), murmur_scrambled(lb), before);
        lemma_scrambled_injective(la, lb);
    }
}

/// Hashes that differ before the bytes behind the last word go in, or because of them,
/// differ in the end.
proof fn lemma_finished_apart(ha: u32, hb: u32, ra: Seq<u8>, rb: Seq<u8>)
    requires
        ra.len() == rb.len() <= 3,
        ha != hb && ra == rb || ha == hb && ra != rb,
    ensures
        murmur_mixed(murmur_tail(ha, ra)) != murmur_mixed(murmur_tail(hb, rb)),
{
    lemma_tail_number(ha, ra);
    lemma_tail_number(hb, rb);
    lemma_low_first(ra);
    lemma_low_first(rb);
    if ra.len() == 0 {
        assert(ra =~= rb);
    }
    let (na, nb) = (low_first(ra) as u32, low_first(rb) as u32);
    if murmur_tail(ha, ra) == murmur_tail(hb, rb) && ra.len() > 0 {
        lemma_times_injective(ha ^ na, hb ^ nb);
        if ra == rb {
            lemma_xor_injective(ha, hb, na);
        } else {
            lemma_xor_injective_right(na, nb, ha);
            lemma_low_first_injective(ra, rb);
        }
    }
    if murmur_mixed(murmur_tail(ha, ra)) == murmur_mixed(murmur_tail(hb, rb)) {
        lemma_mixed_injective(murmur_tail(ha, ra), murmur_tail(hb, rb));
    }
}

/// Every byte of a key counts: keys of the same length that differ, but only within one
/// word or only behind the last one, have different murmur2 hashes.
pub proof fn law_murmur2_every_byte_counts(a: Seq<u8>, b: Seq<u8>, w: nat)
    requires
        a.len() == b.len(),
        a != b,
        forall|i: int| 0 <= i < a.len() && !(4 * w <= i < 4 * w + 4) ==> #[trigger] a[i] == b[i],
    ensures
        murmur2_hash(a) != murmur2_hash(b),
{
    let words = a.len() / 4;
    let ra = a.skip(4 * words as int);
    let rb = b.skip(4 * words as int);
    if w < words {
        let at = 4 * w as int;
        let fa = a.subrange(at, at + 4);
        let fb = b.subrange(at, at + 4);
        if fa == fb {
            assert forall|i: int| 0 <= i < a.len() implies a[i] == b[i] by {
                if at <= i < at + 4 {
                    assert(fa[i - at] == fb[i - at]);
                }
            }
            assert(a =~= b);
        }
        lemma_word_counts(a, b, w);
        lemma_words_stay_apart(a, b, w + 1, words);
        assert(ra =~= rb);
    } else {
        lemma_words_alike(a, b, words);
        if ra == rb {
            assert forall|i: int| 0 <= i < a.len() implies a[i] == b[i] by {
                if i >= 4 * words {
                    assert(ra[i - 4 * words] == rb[i - 4 * words]);
                }
            }
            assert(a =~= b);
        }
    }
    lemma_finished_apart(murmur_words(a, words), murmur_words(b, words), ra, rb);
}

/// One step of the CRC-32 register can be undone.
proof fn lemma_crc_step_injective(a: u32, b: u32)
    requires
        crc_step(a) == crc_step(b),
    ensures
        a == b,
{
    assert(a == b) by (bit_vector)
        requires
            (if a % 2 == 1 {
                (a / 2) ^ 0xedb8_8320
            } else {
                a / 2
            }) == (if b % 2 == 1 {
                (b / 2) ^ 0xedb8_8320
            } else {
                b / 2
            }),
    ;
}

proof fn lemma_crc_steps_injective(a: u32, b: u32, n: nat)
    requires
        crc_steps(a, n) == crc_steps(b, n),
    ensures
        a == b,
    decreases n,
{
    if n > 0 {
        lemma_crc_step_injective(crc_steps(a, (n - 1) as nat), crc_steps(b, (n - 1) as nat));
        lemma_crc_steps_injective(a, b, (n - 1) as nat);
    }
}

/// Every byte of a key counts: keys of the same length that differ in one byte have
/// different CRC-32 checksums.
pub proof fn law_crc32_every_byte_counts(a: Seq<u8>, b: Seq<u8>, at: int)
    requires
        a.len() == b.len(),
        0 <= at < a.len(),
        a[at] != b[at],
        forall|i: int| 0 <= i < a.len() && i != at ==> #[trigger] a[i] == b[i],
    ensures
        crc32(a) != crc32(b),
    decreases a.len(),
{
    let (x, y) = (a.drop_last(), b.drop_last());
    let (p, q) = (crc_register(x) ^ (a.last() as u32), crc_register(y) ^ (b.last() as u32));
    if at == a.len() - 1 {
        assert(x =~= y);
        if p == q {
            lemma_xor_injective_right(a.last() as u32, b.last() as u32, crc_register(x));
        }
    } else {
        law_crc32_every_byte_counts(x, y, at);
        assert(a[a.len() - 1] == b[a.len() - 1]);
        if p == q {
            lemma_xor_injective(crc_register(x), crc_register(y), a.last() as u32);
        }
    }
    if crc_register(a) == crc_register(b) {
        lemma_crc_steps_injective(p, q, 8);
    }
}

/// A checksum goes on from where it stands: keys with the same checksum have the same one
/// once the same bytes are behind them.
pub proof fn law_crc32_goes_on(a: Seq<u8>, b: Seq<u8>, more: Seq<u8>)
    requires
        crc32(a) == crc32(b),
    ensures
        crc32(a + more) == crc32(b + more),
    decreases more.len(),
{
    if more.len() == 0 {
        assert(a + more =~= a);
        assert(b + more =~= b);
    } else {
        law_crc32_goes_on(a, b, more.drop_last());
        assert((a + more).drop_last() =~= a + more.drop_last());
        assert((b + more).drop_last() =~= b + more.drop_last());
    }
}

/// The bytes of a checksum, the lowest first.
pub open spec fn checksum_bytes(crc: u32) -> Seq<u8> {
    seq![
        (crc % 0x100) as u8,
        (crc / 0x100 % 0x100) as u8,
        (crc / 0x1_0000 % 0x100) as u8,
        (crc / 0x100_0000) as u8,
    ]
}

/// Eight steps of the register.
spec fn crc_byte(r: u32) -> u32 {
    crc_step(crc_step(crc_step(crc_step(crc_step(crc_step(crc_step(crc_step(r))))))))
}

proof fn lemma_crc_byte(r: u32)
    ensures
        crc_steps(r, 8) == crc_byte(r),
{
    reveal_with_fuel(crc_steps, 9);
}

/// As the bytes of its complement go into the register, what it held goes out of it.
proof fn lemma_crc_drained(r: u32, b0: u32, b1: u32, b2: u32, b3: u32)
    requires
        b0 == !r & 0xff,
        b1 == (!r >> 8) & 0xff,
        b2 == (!r >> 16) & 0xff,
        b3 == (!r >> 24) & 0xff,
    ensures
        crc_byte(crc_byte(crc_byte(crc_byte(r ^ b0) ^ b1) ^ b2) ^ b3) == 0xdebb_20e3,
{
    assert(crc_byte(r ^ b0) == (r >> 8) ^ 0x2d02_ef8d) by (bit_vector)
        requires
            b0 == !r & 0xff,
    ;
    assert(crc_byte(((r >> 8) ^ 0x2d02_ef8d) ^ b1) == (r >> 16) ^ 0xbe26_12ff) by (bit_vector)
        requires
            b1 == (!r >> 8) & 0xff,
    ;
    assert(crc_byte(((r >> 16) ^ 0xbe26_12ff) ^ b2) == (r >> 24) ^ 0x00be_2612) by (bit_vector)
        requires
            b2 == (!r >> 16) & 0xff,
    ;
    assert(crc_byte(((r >> 24) ^ 0x00be_2612) ^ b3) == 0xdebb_20e3) by (bit_vector)
        requires
            b3 == (!r >> 24) & 0xff,
    ;
}

/// A key with its own checksum behind it, the lowest byte first, has the one checksum that
/// all such keys have, by which CRC-32 is known.
pub proof fn law_crc32_residue(data: Seq<u8>)
    ensures
        crc32(data + checksum_bytes(crc32(data))) == 0x2144_df1c,
{
    let r = crc_register(data);
    let c = crc32(data);
    let b = checksum_bytes(c);
    let (b0, b1, b2, b3) = (b[0] as u32, b[1] as u32, b[2] as u32, b[3] as u32);
    let (d0, d1, d2, d3) = (c % 0x100, c / 0x100 % 0x100, c / 0x1_0000 % 0x100, c / 0x100_0000);
    assert(d0 == !r & 0xff && d1 == (!r >> 8) & 0xff && d2 == (!r >> 16) & 0xff && d3 == (!r >> 24)
        & 0xff) by (bit_vector)
        requires
            c == (0xffff_ffffu32 - r) as u32,
            d0 == c % 0x100,
            d1 == c / 0x100 % 0x100,
            d2 == c / 0x1_0000 % 0x100,
            d3 == c / 0x100_0000,
    ;
    assert(b0 == d0 && b1 == d1 && b2 == d2 && b3 == d3);
    lemma_crc_drained(r, b0, b1, b2, b3);
    let k1 = data.push(b[0]);
    let k2 = k1.push(b[1]);
    let k3 = k2.push(b[2]);
    let k4 = k3.push(b[3]);
    assert(k1.drop_last() =~= data);
    assert(k2.drop_last() =~= k1);
    assert(k3.drop_last() =~= k2);
    assert(k4.drop_last() =~= k3);
    lemma_crc_byte(r ^ b0);
    lemma_crc_byte(crc_register(k1) ^ b1);
    lemma_crc_byte(crc_register(k2) ^ b2);
    lemma_crc_byte(crc_register(k3) ^ b3);
    assert(data + b =~= k4);
}

/// The hash of a Java string with a character more is 31 times the hash before, and the
/// code of the character; a character beyond 16 bits counts as two, the halves of its
/// code. All of it is taken in 32 bits with a sign.
pub proof fn law_java_hash_goes_on(s: Seq<char>, c: char, high: int, low: int)
    requires
        c as int >= 0x1_0000 ==> 0xd800 <= high < 0xdc00 <= low < 0xe000 && c as int == 0x1_0000 + (
        high - 0xd800) * 0x400 + (low - 0xdc00),
    ensures
        java_hash(Seq::empty()) == 0,
        i32::MIN <= java_hash(s) <= i32::MAX,
        ((c as int) < 0x1_0000) ==> (java_hash(s.push(c)) - (java_hash(s) * 31 + c as int))
            % 0x1_0000_0000 == 0,
        c as int >= 0x1_0000 ==> (java_hash(s.push(c)) - ((java_hash(s) * 31 + high) * 31 + low))
            % 0x1_0000_0000 == 0,
{
    let m = 0x1_0000_0000int;
    let units = utf16(s);
    let p = polynomial31(units);
    assert(s.push(c).drop_last() =~= s);
    lemma_fundamental_div_mod(p, m);
    let h = java_hash(s);
    let q = (p - h) / m;
    assert(p == m * q + h) by {
        if p % m >= 0x8000_0000 {
            assert(p - h == m * (p / m + 1));
            lemma_div_multiples_vanish(p / m + 1, m);
        } else {
            assert(p - h == m * (p / m));
            lemma_div_multiples_vanish(p / m, m);
        }
    }
    if (c as int) < 0x1_0000 {
        assert(units + utf16_of(c) =~= units.push(c as int));
        assert(units.push(c as int).drop_last() =~= units);
        let n = p * 31 + c as int;
        assert(n - (h * 31 + c as int) == m * (q * 31));
        lemma_signed_differs(n, h * 31 + c as int, q * 31);
    } else {
        assert(0xd800 + (c as int - 0x1_0000) / 0x400 == high);
        assert(0xdc00 + (c as int - 0x1_0000) % 0x400 == low);
        assert(units + utf16_of(c) =~= units.push(high).push(low));
        assert(units.push(high).push(low).drop_last() =~= units.push(high));
        assert(units.push(high).drop_last() =~= units);
        let n = (p * 31 + high) * 31 + low;
        assert(polynomial31(units.push(high)) == p * 31 + high);
        assert(polynomial31(units.push(high).push(low)) == n);
        assert(n - ((h * 31 + high) * 31 + low) == m * (q * 961));
        lemma_signed_differs(n, (h * 31 + high) * 31 + low, q * 961);
    }
}

proof fn lemma_signed_differs(n: int, k: int, q: int)
    requires
        n - k == 0x1_0000_0000 * q,
    ensures
        (signed32(n) - k) % 0x1_0000_0000 == 0,
{
    let m = 0x1_0000_0000int;
    lemma_fundamental_div_mod(n, m);
    let carry = if n % m >= 0x8000_0000 {
        1int
    } else {
        0
    };
    assert(signed32(n) - k == m * (q - n / m - carry));
    lemma_mod_multiples_basic(q - n / m - carry, m);
    assert(m * (q - n / m - carry) == (q - n / m - carry) * m) by (nonlinear_arith);
}

/// The checksum of nothing is zero. A byte more goes into the complement of the checksum
/// before it, of which eight times the lowest bit is shifted out, and where it is one the
/// polynomial is added; the complement of what comes out is the checksum.
pub proof fn law_crc32_by_bytes(data: Seq<u8>, b: u8)
    ensures
        crc32(Seq::empty()) == 0,
        ({
            let step = |c: u32|
                if c % 2 == 1 {
                    (c / 2) ^ 0xedb8_8320
                } else {
                    c / 2
                };
            let mixed = (0xffff_ffff - crc32(data)) as u32 ^ (b as u32);
            crc32(data.push(b)) == 0xffff_ffff - step(
                step(step(step(step(step(step(step(mixed))))))),
            )
        }),
{
    assert(data.push(b).drop_last() =~= data);
    lemma_crc_byte(crc_register(data) ^ (b as u32));
}

} // verus!
