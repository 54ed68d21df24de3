//! The window digest and the boundary test.
use vstd::prelude::*;

verus! {

/// Number of distinct 32-bit digests; digest arithmetic is modulo this value.
pub open spec fn digest_modulus() -> int {
    0x1_0000_0000
}

/// Polynomial digest of a byte sequence: starting from 0, each byte `b` turns
/// the accumulator `h` into `h * 31 + b`, modulo 2^32.
pub open spec fn poly_hash(s: Seq<u8>) -> u32
    decreases s.len(),
{
    if s.len() == 0 {
        0
    } else {
        ((poly_hash(s.drop_last()) as int * 31 + s.last() as int) % digest_modulus()) as u32
    }
}

/// The boundary condition: every bit selected by `mask` is clear in `digest`.
pub open spec fn boundary_spec(digest: u32, mask: u32) -> bool {
    digest & mask == 0
}

proof fn lemma_wrapping_step(h: u32, b: u8)
    ensures
        vstd::wrapping::u32_specs::wrapping_add(
            vstd::wrapping::u32_specs::wrapping_mul(h, 31),
            b as u32,
        ) == ((h as int * 31 + b as int) % digest_modulus()) as u32,
{
    let m = digest_modulus();
    let p = h as int * 31;
    assert(0 <= p) by (nonlinear_arith)
        requires
            p == h as int * 31,
            0 <= h,
    ;
    let w = (p % m) as int;
    vstd::arithmetic::div_mod::lemma_add_mod_noop(p, b as int, m);
    vstd::arithmetic::div_mod::lemma_mod_twice(p, m);
    vstd::arithmetic::div_mod::lemma_small_mod(b as nat, m as nat);
    if w + b as int > u32::MAX {
        vstd::arithmetic::div_mod::lemma_mod_sub_multiples_vanish(w + b as int, m);
        vstd::arithmetic::div_mod::lemma_small_mod((w + b as int - m) as nat, m as nat);
    } else {
        vstd::arithmetic::div_mod::lemma_small_mod((w + b as int) as nat, m as nat);
    }
}

/// The polynomial value of a byte sequence before reduction: each byte `b`
/// turns the accumulator `h` into `h * 31 + b`.
pub open spec fn poly_value(s: Seq<u8>) -> int
    decreases s.len(),
{
    if s.len() == 0 {
        0
    } else {
        poly_value(s.drop_last()) * 31 + s.last() as int
    }
}

/// `31` raised to the power `n`.
pub open spec fn pow31(n: nat) -> int
    decreases n,
{
    if n == 0 {
        1
    } else {
        31 * pow31((n - 1) as nat)
    }
}

proof fn lemma_wrapping_sub_mod(x: u32, y: u32)
    ensures
        vstd::wrapping::u32_specs::wrapping_sub(x, y) as int == (x as int - y as int)
            % digest_modulus(),
{
    let m = digest_modulus();
    let v = x as int - y as int;
    if v < 0 {
        vstd::arithmetic::div_mod::lemma_mod_add_multiples_vanish(v, m);
        vstd::arithmetic::div_mod::lemma_small_mod((v + m) as nat, m as nat);
    } else {
        vstd::arithmetic::div_mod::lemma_small_mod(v as nat, m as nat);
    }
}

/// The digest is the polynomial value reduced modulo 2^32.
proof fn lemma_poly_hash_value(s: Seq<u8>)
    ensures
        poly_hash(s) as int == poly_value(s) % digest_modulus(),
    decreases s.len(),
{
    if s.len() > 0 {
        let m = digest_modulus();
        let d = s.drop_last();
        lemma_poly_hash_value(d);
        let x = poly_value(d);
        vstd::arithmetic::div_mod::lemma_mul_mod_noop_left(x, 31, m);
        vstd::arithmetic::div_mod::lemma_add_mod_noop(x * 31, s.last() as int, m);
        vstd::arithmetic::div_mod::lemma_add_mod_noop((x % m) * 31, s.last() as int, m);
        vstd::arithmetic::div_mod::lemma_mod_twice(x * 31, m);
        vstd::arithmetic::div_mod::lemma_mod_twice((x % m) * 31, m);
    }
}

/// The first byte of a sequence of length `n + 1` contributes `a * 31^n`.
proof fn lemma_poly_value_prepend(a: u8, t: Seq<u8>)
    ensures
        poly_value(seq![a] + t) == a as int * pow31(t.len()) + poly_value(t),
    decreases t.len(),
{
    let u = seq![a] + t;
    if t.len() == 0 {
        assert(u.drop_last() =~= Seq::<u8>::empty());
        assert(u.last() == a);
        assert(pow31(0) == 1);
        assert(poly_value(u.drop_last()) == 0);
    } else {
        assert(u.drop_last() =~= seq![a] + t.drop_last());
        lemma_poly_value_prepend(a, t.drop_last());
        let p = pow31((t.len() - 1) as nat);
        let x = poly_value(t.drop_last());
        assert(u.last() == t.last());
        assert(pow31(t.len()) == 31 * p);
        assert(poly_value(t) == x * 31 + t.last() as int);
        assert((a as int * p + x) * 31 == a as int * (31 * p) + x * 31) by (nonlinear_arith);
    }
}

/// Sliding a window one byte: the digest of `s[1..] + [b]` follows from the
/// digest of `s`, the byte that leaves, the byte that enters, and `31^(len - 1)`.
proof fn lemma_roll(s: Seq<u8>, b: u8, h: u32, p: u32, r: u32)
    requires
        s.len() >= 1,
        h == poly_hash(s),
        p as int == pow31((s.len() - 1) as nat) % digest_modulus(),
        r == vstd::wrapping::u32_specs::wrapping_add(
            vstd::wrapping::u32_specs::wrapping_mul(
                vstd::wrapping::u32_specs::wrapping_sub(
                    h,
                    vstd::wrapping::u32_specs::wrapping_mul(s[0] as u32, p),
                ),
                31,
            ),
            b as u32,
        ),
    ensures
        r == poly_hash(s.drop_first().push(b)),
{
    let m = digest_modulus();
    let t = s.drop_first();
    let pw = pow31((s.len() - 1) as nat);
    let a = s[0] as int;
    assert(s =~= seq![s[0]] + t);
    lemma_poly_value_prepend(s[0], t);
    let x = poly_value(t);
    assert(t.push(b).drop_last() =~= t);
    lemma_poly_hash_value(s);
    lemma_poly_hash_value(t.push(b));
    // x == poly_value(s) - a * pw, and the new value is x * 31 + b.
    let w1 = vstd::wrapping::u32_specs::wrapping_mul(s[0] as u32, p);
    assert(w1 as int == (a * p) % m);
    vstd::arithmetic::div_mod::lemma_mul_mod_noop_right(a, pw, m);
    let w2 = vstd::wrapping::u32_specs::wrapping_sub(h, w1);
    lemma_wrapping_sub_mod(h, w1);
    vstd::arithmetic::div_mod::lemma_sub_mod_noop(poly_value(s), a * pw, m);
    assert(w2 as int == x % m);
    lemma_wrapping_step(w2, b);
    vstd::arithmetic::div_mod::lemma_mul_mod_noop_left(x, 31, m);
    vstd::arithmetic::div_mod::lemma_add_mod_noop(x * 31, b as int, m);
    vstd::arithmetic::div_mod::lemma_add_mod_noop((x % m) * 31, b as int, m);
    vstd::arithmetic::div_mod::lemma_mod_twice(x * 31, m);
    vstd::arithmetic::div_mod::lemma_mod_twice((x % m) * 31, m);
    vstd::arithmetic::div_mod::lemma_small_mod(b as nat, m as nat);
}

/// `31^n` modulo 2^32.
pub fn pow31_mod(n: usize) -> (r: u32)
    ensures
        r as int == pow31(n as nat) % digest_modulus(),
{
    let mut r: u32 = 1;
    let mut k: usize = 0;
    proof {
        vstd::arithmetic::div_mod::lemma_small_mod(1, digest_modulus() as nat);
    }
    while k < n
        invariant
            k <= n,
            r as int == pow31(k as nat) % digest_modulus(),
        decreases n - k,
    {
        proof {
            vstd::arithmetic::div_mod::lemma_mul_mod_noop_right(31, pow31(k as nat), digest_modulus());
        }
        r = 31u32.wrapping_mul(r);
        k = k + 1;
    }
    r
}

/// Moves the digest of `data[i..i + w]` to that of `data[i + 1..i + w + 1]`,
/// given `factor == 31^(w - 1)` modulo 2^32.
pub fn roll(data: &[u8], i: usize, w: usize, digest: u32, factor: u32) -> (r: u32)
    requires
        1 <= w,
        i + w < data@.len(),
        digest == poly_hash(data@.subrange(i as int, i + w)),
        factor as int == pow31((w - 1) as nat) % digest_modulus(),
    ensures
        r == poly_hash(data@.subrange(i + 1, i + w + 1)),
{
    let leaving = data[i];
    let entering = data[i + w];
    let r = digest.wrapping_sub((leaving as u32).wrapping_mul(factor)).wrapping_mul(31).wrapping_add(
        entering as u32,
    );
    proof {
        let s = data@.subrange(i as int, i + w);
        lemma_roll(s, entering, digest, factor, r);
        assert(s.drop_first().push(entering) =~= data@.subrange(i + 1, i + w + 1));
    }
    r
}

/// Digest of the bytes `data[from..to]`, computed in one pass over the window.
pub fn hash_window(data: &[u8], from: usize, to: usize) -> (r: u32)
    requires
        from <= to <= data@.len(),
    ensures
        r == poly_hash(data@.subrange(from as int, to as int)),
{
    let mut hash: u32 = 0;
    let mut i: usize = from;
    while i < to
        invariant
            from <= i <= to <= data@.len(),
            hash == poly_hash(data@.subrange(from as int, i as int)),
        decreases to - i,
    {
        let byte = data[i];
        proof {
            lemma_wrapping_step(hash, byte);
            let next = data@.subrange(from as int, i + 1);
            assert(next.drop_last() =~= data@.subrange(from as int, i as int));
        }
        hash = hash.wrapping_mul(31).wrapping_add(byte as u32);
        i = i + 1;
    }
    hash
}

/// Digest of a whole byte sequence.
pub fn rolling_hash(data: &[u8]) -> (r: u32)
    ensures
        r == poly_hash(data@),
{
    let r = hash_window(data, 0, data.len());
    proof {
        assert(data@.subrange(0, data@.len() as int) =~= data@);
    }
    r
}

/// Whether a digest marks an acceptable cut point under `mask`.
pub fn is_boundary(digest: u32, mask: u32) -> (r: bool)
    ensures
        r == boundary_spec(digest, mask),
{
    digest & mask == 0
}

} // verus!
