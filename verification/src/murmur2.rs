//! MurmurHash2, the 32-bit hash that addon fingerprints are made of.

use vstd::prelude::*;

verus! {

/// The multiplier of MurmurHash2.
pub const MULTIPLIER: u32 = 0x5bd1_e995;

/// Four bytes as a number, the lowest byte first.
pub open spec fn word(b: Seq<u8>) -> u32 {
    (b[0] as u32) | (b[1] as u32) << 8u32 | (b[2] as u32) << 16u32 | (b[3] as u32) << 24u32
}

/// One word mixed into the hash.
pub open spec fn mixed(h: u32, k: u32) -> u32 {
    let k1 = k.wrapping_mul(MULTIPLIER);
    let k2 = (k1 ^ (k1 >> 24u32)).wrapping_mul(MULTIPLIER);
    h.wrapping_mul(MULTIPLIER) ^ k2
}

/// The hash after all whole words of `data`.
pub open spec fn words_mixed(data: Seq<u8>, h: u32) -> u32
    decreases data.len(),
{
    if data.len() < 4 {
        h
    } else {
        words_mixed(data.skip(4), mixed(h, word(data)))
    }
}

/// The bytes behind the last whole word.
pub open spec fn tail(data: Seq<u8>) -> Seq<u8> {
    data.skip(data.len() - data.len() % 4)
}

/// The hash after the one to three bytes that fill no word.
pub open spec fn tail_mixed(rest: Seq<u8>, h: u32) -> u32 {
    let h3 = if rest.len() == 3 {
        h ^ ((rest[2] as u32) << 16u32)
    } else {
        h
    };
    let h2 = if rest.len() >= 2 {
        h3 ^ ((rest[1] as u32) << 8u32)
    } else {
        h3
    };
    if rest.len() >= 1 {
        (h2 ^ (rest[0] as u32)).wrapping_mul(MULTIPLIER)
    } else {
        h2
    }
}

/// The last mixing.
pub open spec fn finished(h: u32) -> u32 {
    let h1 = (h ^ (h >> 13u32)).wrapping_mul(MULTIPLIER);
    h1 ^ (h1 >> 15u32)
}

/// MurmurHash2 of `data`. The length goes in with its low 32 bits.
pub open spec fn hash(data: Seq<u8>, seed: u32) -> u32 {
    finished(tail_mixed(tail(data), words_mixed(data, seed ^ (data.len() as u32))))
}

/// MurmurHash2 of `data`.
pub fn calculate_hash(data: &[u8], seed: u32) -> (r: u32)
    ensures
        r == hash(data@, seed),
{
    let len = data.len();
    let start = seed ^ (len as u32);
    let mut h: u32 = start;
    let mut i: usize = 0;
    assert(data@.skip(0) == data@);
    while len - i >= 4
        invariant
            i <= len == data@.len(),
            i % 4 == 0,
            words_mixed(data@.skip(i as int), h) == words_mixed(data@, start),
        decreases len - i,
    {
        let k = (data[i] as u32) | (data[i + 1] as u32) << 8u32 | (data[i + 2] as u32) << 16u32
            | (data[i + 3] as u32) << 24u32;
        let k1 = k.wrapping_mul(MULTIPLIER);
        let k2 = (k1 ^ (k1 >> 24u32)).wrapping_mul(MULTIPLIER);
        h = h.wrapping_mul(MULTIPLIER) ^ k2;
        assert(data@.skip(i as int).skip(4) == data@.skip(i + 4));
        i = i + 4;
    }
    assert(data@.skip(i as int) == tail(data@));
    let rest = len - i;
    if rest == 3 {
        h = h ^ ((data[i + 2] as u32) << 16u32);
    }
    if rest >= 2 {
        h = h ^ ((data[i + 1] as u32) << 8u32);
    }
    if rest >= 1 {
        h = (h ^ (data[i] as u32)).wrapping_mul(MULTIPLIER);
    }
    let h1 = (h ^ (h >> 13u32)).wrapping_mul(MULTIPLIER);
    h1 ^ (h1 >> 15u32)
}

// ---------------------------------------------------------------------------------------------
// Laws
// ---------------------------------------------------------------------------------------------

/// Two 32-bit numbers multiplied, without what goes beyond 32 bits.
pub open spec fn product(a: u32, b: int) -> u32 {
    (a * b % 0x1_0000_0000) as u32
}

/// A word is the number that its four bytes are in base 256, the lowest first.
pub proof fn law_word(b: Seq<u8>)
    requires
        b.len() >= 4,
    ensures
        word(b) == b[0] + 256 * b[1] + 65536 * b[2] + 16777216 * b[3],
{
    let (b0, b1, b2, b3) = (b[0], b[1], b[2], b[3]);
    assert(((b0 as u32) | (b1 as u32) << 8u32 | (b2 as u32) << 16u32 | (b3 as u32) << 24u32) == b0
        + 256 * b1 + 65536 * b2 + 16777216 * b3) by (bit_vector);
}

/// A word is multiplied, its upper eight bits are laid over its lower ones, and it is multiplied again;
/// then it is laid over the multiplied hash.
pub proof fn law_mixed(h: u32, k: u32)
    ensures
        ({
            let x = product(k, 1540483477);
            mixed(h, k) == product(h, 1540483477) ^ product(x ^ ((x / 16777216) as u32), 1540483477)
        }),
{
    let x = k.wrapping_mul(MULTIPLIER);
    assert(x == product(k, 1540483477));
    assert(x >> 24u32 == x / 16777216) by (bit_vector);
}

/// The bytes behind the last whole word are laid over the hash as the number that they are in base
/// 256, the lowest first, and the hash is multiplied. Without such bytes nothing changes.
pub proof fn law_tail_mixed(rest: Seq<u8>, h: u32)
    requires
        rest.len() < 4,
    ensures
        rest.len() == 0 ==> tail_mixed(rest, h) == h,
        rest.len() == 1 ==> tail_mixed(rest, h) == product(h ^ (rest[0] as u32), 1540483477),
        rest.len() == 2 ==> tail_mixed(rest, h) == product(
            h ^ ((rest[0] + 256 * rest[1]) as u32),
            1540483477,
        ),
        rest.len() == 3 ==> tail_mixed(rest, h) == product(
            h ^ ((rest[0] + 256 * rest[1] + 65536 * rest[2]) as u32),
            1540483477,
        ),
{
    if rest.len() == 2 {
        let (a, b) = (rest[0], rest[1]);
        assert((h ^ ((b as u32) << 8u32)) ^ (a as u32) == h ^ ((a + 256 * b) as u32)) by (bit_vector);
    }
    if rest.len() == 3 {
        let (a, b, c) = (rest[0], rest[1], rest[2]);
        assert(((h ^ ((c as u32) << 16u32)) ^ ((b as u32) << 8u32)) ^ (a as u32) == h ^ ((a + 256 * b
            + 65536 * c) as u32)) by (bit_vector);
    }
}

/// At the end the upper bits of the hash are laid over the lower ones, 13 places down before it is
/// multiplied and 15 places down behind that.
pub proof fn law_finished(h: u32)
    ensures
        ({
            let x = product(h ^ ((h / 8192) as u32), 1540483477);
            finished(h) == x ^ ((x / 32768) as u32)
        }),
{
    let x = (h ^ (h >> 13u32)).wrapping_mul(MULTIPLIER);
    assert(h >> 13u32 == h / 8192) by (bit_vector);
    assert(x >> 15u32 == x / 32768) by (bit_vector);
    assert(x == product(h ^ ((h / 8192) as u32), 1540483477));
}

/// Words are mixed into the hash one after the other, the first one first.
pub proof fn law_words_in_order(words: Seq<u8>, w: Seq<u8>, h: u32)
    requires
        words.len() % 4 == 0,
        w.len() == 4,
    ensures
        words_mixed(Seq::<u8>::empty(), h) == h,
        words_mixed(words + w, h) == mixed(words_mixed(words, h), word(w)),
    decreases words.len(),
{
    let all = words + w;
    if words.len() == 0 {
        assert(all == w);
        assert(w.skip(4).len() == 0);
        assert(words_mixed(w.skip(4), mixed(h, word(w))) == mixed(h, word(w)));
    } else {
        let next = mixed(h, word(words));
        law_words_in_order(words.skip(4), w, next);
        assert(all.skip(4) == words.skip(4) + w);
        assert(word(all) == word(words));
    }
}

proof fn lemma_rest_is_left(words: Seq<u8>, rest: Seq<u8>, h: u32)
    requires
        words.len() % 4 == 0,
        rest.len() < 4,
    ensures
        words_mixed(words + rest, h) == words_mixed(words, h),
        tail(words + rest) == rest,
    decreases words.len(),
{
    let all = words + rest;
    assert(all.len() - all.len() % 4 == words.len());
    assert(all.skip(words.len() as int) == rest);
    if words.len() > 0 {
        lemma_rest_is_left(words.skip(4), rest, mixed(h, word(words)));
        assert(all.skip(4) == words.skip(4) + rest);
        assert(word(all) == word(words));
    }
}

/// The hash starts with the seed, over which the length is laid with its low 32 bits. The words are mixed in, then the
/// bytes that are left, and then it is finished.
pub proof fn law_hash(words: Seq<u8>, rest: Seq<u8>, seed: u32)
    requires
        words.len() % 4 == 0,
        rest.len() < 4,
    ensures
        hash(words + rest, seed) == finished(
            tail_mixed(rest, words_mixed(words, seed ^ ((words.len() + rest.len()) as u32))),
        ),
{
    lemma_rest_is_left(words, rest, seed ^ ((words.len() + rest.len()) as u32));
}

proof fn lemma_product_is_reversible(a: u32, b: u32)
    requires
        product(a, 1540483477) == product(b, 1540483477),
    ensures
        a == b,
{
    lemma_product_reversed(a);
    lemma_product_reversed(b);
}

proof fn lemma_product_reversed(a: u32)
    ensures
        product(product(a, 1540483477), 3852147133) == a,
{
    let m: int = 0x1_0000_0000;
    let x = a * 1540483477;
    vstd::arithmetic::div_mod::lemma_mul_mod_noop_left(x, 3852147133, m);
    assert(x * 3852147133 == m * (a * 1381656390) + a) by (nonlinear_arith)
        requires
            x == a * 1540483477,
            m == 0x1_0000_0000,
    ;
    vstd::arithmetic::div_mod::lemma_mod_multiples_vanish(a * 1381656390, a as int, m);
    assert(a as int % m == a);
}

proof fn lemma_mixed_is_reversible(h: u32, k: u32, g: u32, j: u32)
    ensures
        k != j ==> mixed(h, k) != mixed(h, j),
        h != g ==> mixed(h, k) != mixed(g, k),
{
    law_mixed(h, k);
    law_mixed(h, j);
    law_mixed(g, k);
    let x = product(k, 1540483477);
    let y = product(j, 1540483477);
    let p = x ^ ((x / 16777216) as u32);
    let q = y ^ ((y / 16777216) as u32);
    let (a, b) = (product(h, 1540483477), product(g, 1540483477));
    let (c, d) = (product(p, 1540483477), product(q, 1540483477));
    if mixed(h, k) == mixed(h, j) {
        assert(a ^ c == a ^ d ==> c == d) by (bit_vector);
        lemma_product_is_reversible(p, q);
        assert((x ^ ((x / 16777216) as u32)) == (y ^ ((y / 16777216) as u32)) ==> x == y)
            by (bit_vector);
        lemma_product_is_reversible(k, j);
    }
    if mixed(h, k) == mixed(g, k) {
        assert(a ^ c == b ^ c ==> a == b) by (bit_vector);
        lemma_product_is_reversible(h, g);
    }
}

proof fn lemma_finished_is_reversible(h: u32, g: u32)
    requires
        finished(h) == finished(g),
    ensures
        h == g,
{
    law_finished(h);
    law_finished(g);
    let p = h ^ ((h / 8192) as u32);
    let q = g ^ ((g / 8192) as u32);
    let x = product(p, 1540483477);
    let y = product(q, 1540483477);
    assert((x ^ ((x / 32768) as u32)) == (y ^ ((y / 32768) as u32)) ==> x == y) by (bit_vector);
    lemma_product_is_reversible(p, q);
    assert((h ^ ((h / 8192) as u32)) == (g ^ ((g / 8192) as u32)) ==> h == g) by (bit_vector);
}

proof fn lemma_tail_is_reversible(rest: Seq<u8>, h: u32, g: u32)
    requires
        rest.len() < 4,
        tail_mixed(rest, h) == tail_mixed(rest, g),
    ensures
        h == g,
{
    law_tail_mixed(rest, h);
    law_tail_mixed(rest, g);
    if rest.len() > 0 {
        let n: u32 = if rest.len() == 1 {
            rest[0] as u32
        } else if rest.len() == 2 {
            (rest[0] + 256 * rest[1]) as u32
        } else {
            (rest[0] + 256 * rest[1] + 65536 * rest[2]) as u32
        };
        lemma_product_is_reversible(h ^ n, g ^ n);
        assert(h ^ n == g ^ n ==> h == g) by (bit_vector);
    }
}

proof fn lemma_changed_tail(rest: Seq<u8>, i: int, b: u8, h: u32)
    requires
        rest.len() < 4,
        0 <= i < rest.len(),
        rest[i] != b,
    ensures
        tail_mixed(rest, h) != tail_mixed(rest.update(i, b), h),
{
    let other = rest.update(i, b);
    law_tail_mixed(rest, h);
    law_tail_mixed(other, h);
    let n: int = if rest.len() == 1 {
        rest[0] as int
    } else if rest.len() == 2 {
        rest[0] + 256 * rest[1]
    } else {
        rest[0] + 256 * rest[1] + 65536 * rest[2]
    };
    let m: int = if other.len() == 1 {
        other[0] as int
    } else if other.len() == 2 {
        other[0] + 256 * other[1]
    } else {
        other[0] + 256 * other[1] + 65536 * other[2]
    };
    assert(n != m);
    let (x, y) = (n as u32, m as u32);
    if tail_mixed(rest, h) == tail_mixed(other, h) {
        lemma_product_is_reversible(h ^ x, h ^ y);
        assert(h ^ x == h ^ y ==> x == y) by (bit_vector);
    }
}

proof fn lemma_words_are_reversible(data: Seq<u8>, h: u32, g: u32)
    requires
        words_mixed(data, h) == words_mixed(data, g),
    ensures
        h == g,
    decreases data.len(),
{
    if data.len() >= 4 {
        lemma_words_are_reversible(data.skip(4), mixed(h, word(data)), mixed(g, word(data)));
        lemma_mixed_is_reversible(h, word(data), g, word(data));
    }
}

proof fn lemma_changed_word(data: Seq<u8>, i: int, b: u8, h: u32)
    requires
        0 <= i < data.len() - data.len() % 4,
        data[i] != b,
    ensures
        words_mixed(data, h) != words_mixed(data.update(i, b), h),
    decreases data.len(),
{
    let other = data.update(i, b);
    if i < 4 {
        assert(other.skip(4) == data.skip(4));
        law_word(data);
        law_word(other);
        assert(word(data) != word(other));
        lemma_mixed_is_reversible(h, word(data), h, word(other));
        if words_mixed(data, h) == words_mixed(other, h) {
            lemma_words_are_reversible(
                data.skip(4),
                mixed(h, word(data)),
                mixed(h, word(other)),
            );
        }
    } else {
        assert(other.skip(4) == data.skip(4).update(i - 4, b));
        assert(word(other) == word(data));
        lemma_changed_word(data.skip(4), i - 4, b, mixed(h, word(data)));
    }
}

proof fn lemma_tail_does_not_matter(data: Seq<u8>, i: int, b: u8, h: u32)
    requires
        data.len() - data.len() % 4 <= i < data.len(),
    ensures
        words_mixed(data, h) == words_mixed(data.update(i, b), h),
    decreases data.len(),
{
    let other = data.update(i, b);
    if data.len() >= 4 {
        assert(other.skip(4) == data.skip(4).update(i - 4, b));
        assert(word(other) == word(data));
        lemma_tail_does_not_matter(data.skip(4), i - 4, b, mixed(h, word(data)));
    }
}

/// No byte is without effect: where one byte of the data is changed, the hash is another one. So it is
/// for another seed.
pub proof fn law_every_byte_counts(data: Seq<u8>, i: int, b: u8, seed: u32, other_seed: u32)
    ensures
        0 <= i < data.len() && data[i] != b ==> hash(data.update(i, b), seed) != hash(data, seed),
        seed != other_seed ==> hash(data, seed) != hash(data, other_seed),
{
    let whole = data.len() - data.len() % 4;
    let n = data.len() as u32;
    let rest = tail(data);
    if 0 <= i < data.len() && data[i] != b {
        let other = data.update(i, b);
        let start = seed ^ n;
        let (h, g) = (words_mixed(data, start), words_mixed(other, start));
        if hash(other, seed) == hash(data, seed) {
            lemma_finished_is_reversible(tail_mixed(rest, h), tail_mixed(tail(other), g));
            if i < whole {
                assert(tail(other) == rest);
                lemma_changed_word(data, i, b, start);
                lemma_tail_is_reversible(rest, h, g);
            } else {
                assert(tail(other) == rest.update(i - whole, b));
                lemma_tail_does_not_matter(data, i, b, start);
                lemma_changed_tail(rest, i - whole, b, h);
            }
        }
    }
    if seed != other_seed && hash(data, seed) == hash(data, other_seed) {
        let (h, g) = (words_mixed(data, seed ^ n), words_mixed(data, other_seed ^ n));
        lemma_finished_is_reversible(tail_mixed(rest, h), tail_mixed(rest, g));
        lemma_tail_is_reversible(rest, h, g);
        lemma_words_are_reversible(data, seed ^ n, other_seed ^ n);
        assert(seed ^ n == other_seed ^ n ==> seed == other_seed) by (bit_vector);
    }
}

} // verus!
