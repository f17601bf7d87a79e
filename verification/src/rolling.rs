//! The rolling hash that finds chunk boundaries: `hash_roll`'s buzhash over a
//! window of the most recent bytes.

use vstd::prelude::*;
use hash_roll::buzhash::BuzHashBuf;

verus! {

#[verifier::external_type_specification]
#[verifier::external_body]
pub struct ExBuzHashBuf(BuzHashBuf);

/// The window of a `BuzHashBuf`: the last `capacity` bytes pushed into it,
/// oldest first, with zeros standing for the places no byte has reached yet.
pub uninterp spec fn buzhash_window(b: BuzHashBuf) -> Seq<u8>;

/// The hash value a `BuzHashBuf` holds, which `hash` returns.
pub uninterp spec fn buzhash_value(b: BuzHashBuf) -> u8;

/// One-bit left rotation of a byte.
pub open spec fn rotate_left_one(x: u8) -> u8 {
    (x << 1u8) | (x >> 7u8)
}

/// Left rotation of a byte by `n` bits.
pub open spec fn rotate_left_by(x: u8, n: nat) -> u8
    decreases n,
{
    if n == 0 {
        x
    } else {
        rotate_left_one(rotate_left_by(x, (n - 1) as nat))
    }
}

/// The hash after one byte enters a window of `capacity` bytes:
/// `rotl(h, 1) ^ rotl(dropped, capacity % 8) ^ added`.
pub open spec fn buzhash_step(h: u8, dropped: u8, added: u8, capacity: nat) -> u8 {
    rotate_left_one(h) ^ rotate_left_by(dropped, capacity % 8) ^ added
}

/// The window and the hash value after pushing `data`, byte by byte, into a
/// hasher with window `window` and hash value `value`: each byte drops the
/// oldest byte of the window and enters as the newest.
pub open spec fn buzhash_after(window: Seq<u8>, value: u8, data: Seq<u8>) -> (Seq<u8>, u8)
    decreases data.len(),
{
    if data.len() == 0 {
        (window, value)
    } else {
        let prev = buzhash_after(window, value, data.drop_last());
        (prev.0.push(data.last()).drop_first(), buzhash_step(prev.1, prev.0[0], data.last(), prev.0.len()))
    }
}

/// The cyclic polynomial hash of a window: each byte rotated left by its
/// distance from the newest byte, all of them combined by xor.
pub open spec fn buzhash_digest(window: Seq<u8>) -> u8
    decreases window.len(),
{
    if window.len() == 0 {
        0
    } else {
        rotate_left_one(buzhash_digest(window.drop_last())) ^ window.last()
    }
}

/// `BuzHashBuf::with_capacity`: a hasher whose window holds `capacity`
/// zero bytes and whose hash value is 0 (the crate asserts that the capacity
/// is not zero).
#[verifier::external_body]
pub(crate) fn buzhash_with_capacity(capacity: usize) -> (b: BuzHashBuf)
    requires
        capacity > 0,
    ensures
        buzhash_window(b) == Seq::new(capacity as nat, |_i: int| 0u8),
        buzhash_value(b) == 0,
{
    BuzHashBuf::with_capacity(capacity)
}

/// `BuzHashBuf::clone` (derived): the copy has the same window and hash value.
#[verifier::external_body]
pub(crate) fn buzhash_clone(b: &BuzHashBuf) -> (c: BuzHashBuf)
    ensures
        buzhash_window(c) == buzhash_window(*b),
        buzhash_value(c) == buzhash_value(*b),
{
    b.clone()
}

/// `BuzHashBuf::push_byte`: the oldest byte leaves the window and `val`
/// enters it as the newest; the hash value becomes
/// `rotl(h, 1) ^ rotl(oldest, capacity % 8) ^ val` (`BuzHash::add`).
#[verifier::external_body]
pub(crate) fn buzhash_push_byte(b: &mut BuzHashBuf, val: u8)
    ensures
        buzhash_window(*final(b)) == buzhash_window(*old(b)).push(val).drop_first(),
        buzhash_value(*final(b)) == buzhash_step(
            buzhash_value(*old(b)),
            buzhash_window(*old(b))[0],
            val,
            buzhash_window(*old(b)).len(),
        ),
{
    b.push_byte(val)
}

/// `BuzHashBuf::push`: `push_byte` of every byte of `data`, in order.
#[verifier::external_body]
pub(crate) fn buzhash_push(b: &mut BuzHashBuf, data: &[u8])
    ensures
        buzhash_window(*final(b)) == buzhash_after(buzhash_window(*old(b)), buzhash_value(*old(b)), data@).0,
        buzhash_value(*final(b)) == buzhash_after(buzhash_window(*old(b)), buzhash_value(*old(b)), data@).1,
{
    b.push(data)
}

/// `BuzHashBuf::hash`: the hash value the hasher holds.
#[verifier::external_body]
pub(crate) fn buzhash_hash(b: &BuzHashBuf) -> (h: u8)
    ensures
        h == buzhash_value(*b),
{
    b.hash()
}

proof fn lemma_rotate_one_xor(x: u8, y: u8)
    ensures
        rotate_left_one(x ^ y) == rotate_left_one(x) ^ rotate_left_one(y),
{
    assert(((x ^ y) << 1u8) | ((x ^ y) >> 7u8) == (((x << 1u8) | (x >> 7u8)) ^ ((y << 1u8) | (y >> 7u8))))
        by (bit_vector);
}

proof fn lemma_rotate_by_compose(x: u8, n: nat, k: nat)
    ensures
        rotate_left_by(x, n + k) == rotate_left_by(rotate_left_by(x, k), n),
    decreases n,
{
    if n > 0 {
        lemma_rotate_by_compose(x, (n - 1) as nat, k);
        assert((n + k - 1) as nat == (n - 1) as nat + k);
    }
}

proof fn lemma_rotate_by_eight(x: u8)
    ensures
        rotate_left_by(x, 8) == x,
{
    reveal_with_fuel(rotate_left_by, 9);
    let r1 = rotate_left_one(x);
    let r2 = rotate_left_one(r1);
    let r3 = rotate_left_one(r2);
    let r4 = rotate_left_one(r3);
    let r5 = rotate_left_one(r4);
    let r6 = rotate_left_one(r5);
    let r7 = rotate_left_one(r6);
    let r8 = rotate_left_one(r7);
    assert(r8 == x) by (bit_vector)
        requires
            r1 == (x << 1u8) | (x >> 7u8),
            r2 == (r1 << 1u8) | (r1 >> 7u8),
            r3 == (r2 << 1u8) | (r2 >> 7u8),
            r4 == (r3 << 1u8) | (r3 >> 7u8),
            r5 == (r4 << 1u8) | (r4 >> 7u8),
            r6 == (r5 << 1u8) | (r5 >> 7u8),
            r7 == (r6 << 1u8) | (r6 >> 7u8),
            r8 == (r7 << 1u8) | (r7 >> 7u8),
    ;
}

/// Rotating a byte by `n` bits is rotating it by `n % 8` bits.
proof fn lemma_rotate_by_mod(x: u8, n: nat)
    ensures
        rotate_left_by(x, n) == rotate_left_by(x, n % 8),
    decreases n,
{
    if n >= 8 {
        let m = (n - 8) as nat;
        lemma_rotate_by_compose(x, 8, m);
        lemma_rotate_by_eight(rotate_left_by(x, m));
        assert(8 + m == n);
        lemma_rotate_by_mod(x, m);
        assert(m % 8 == n % 8);
    } else {
        assert(n % 8 == n);
    }
}

/// The digest splits into the oldest byte, rotated by the window's length
/// less one, and the digest of the rest.
proof fn lemma_digest_first(w: Seq<u8>)
    requires
        w.len() > 0,
    ensures
        buzhash_digest(w) == rotate_left_by(w[0], (w.len() - 1) as nat) ^ buzhash_digest(w.drop_first()),
    decreases w.len(),
{
    if w.len() == 1 {
        assert(buzhash_digest(w.drop_last()) == 0);
        assert(buzhash_digest(w.drop_first()) == 0);
        let a = w[0];
        assert(w.last() == a);
        assert(rotate_left_by(a, 0) == a);
        assert(rotate_left_one(0u8) ^ a == a ^ 0u8) by (bit_vector);
    } else {
        let init = w.drop_last();
        lemma_digest_first(init);
        let a = w[0];
        let rest = w.drop_first();
        assert(init[0] == a);
        assert(init.drop_first() =~= rest.drop_last());
        assert(rest.last() == w.last());
        let r = rotate_left_by(a, (init.len() - 1) as nat);
        let d = buzhash_digest(rest.drop_last());
        assert(buzhash_digest(init) == r ^ d);
        lemma_rotate_one_xor(r, d);
        assert(rotate_left_one(r) == rotate_left_by(a, (w.len() - 1) as nat));
        let x = rotate_left_one(r);
        let y = rotate_left_one(d);
        let z = w.last();
        assert(buzhash_digest(w) == rotate_left_one(buzhash_digest(init)) ^ z);
        assert(buzhash_digest(rest) == y ^ z);
        assert((x ^ y) ^ z == x ^ (y ^ z)) by (bit_vector);
    }
}

/// Pushing a byte keeps the hash value equal to the digest of the window.
pub proof fn lemma_step_keeps_digest(w: Seq<u8>, v: u8)
    requires
        w.len() > 0,
    ensures
        buzhash_step(buzhash_digest(w), w[0], v, w.len()) == buzhash_digest(w.push(v).drop_first()),
{
    let u = w.drop_first();
    lemma_digest_first(w);
    assert(w.push(v).drop_first() =~= u.push(v));
    assert(u.push(v).drop_last() =~= u);
    let r = rotate_left_by(w[0], (w.len() - 1) as nat);
    let du = buzhash_digest(u);
    lemma_rotate_one_xor(r, du);
    assert(rotate_left_one(r) == rotate_left_by(w[0], w.len()));
    lemma_rotate_by_mod(w[0], w.len());
    let rr = rotate_left_one(r);
    let ru = rotate_left_one(du);
    assert((rr ^ ru) ^ rr ^ v == ru ^ v) by (bit_vector);
}

/// A hasher whose value is the digest of its window keeps it so: after
/// pushing `data`, the window is the last bytes of the old window followed by
/// `data`, and the value is the digest of that window.
pub proof fn lemma_after_keeps_digest(w: Seq<u8>, data: Seq<u8>)
    requires
        w.len() > 0,
    ensures
        buzhash_after(w, buzhash_digest(w), data).0 == (w + data).skip(data.len() as int),
        buzhash_after(w, buzhash_digest(w), data).1 == buzhash_digest((w + data).skip(data.len() as int)),
    decreases data.len(),
{
    if data.len() == 0 {
        assert((w + data).skip(0) =~= w);
    } else {
        let init = data.drop_last();
        lemma_after_keeps_digest(w, init);
        let prev = (w + init).skip(init.len() as int);
        assert(prev.len() == w.len());
        lemma_step_keeps_digest(prev, data.last());
        assert(prev.push(data.last()).drop_first() =~= (w + data).skip(data.len() as int));
    }
}

/// A window of zeros has digest 0.
pub proof fn lemma_digest_zeros(n: nat)
    ensures
        buzhash_digest(Seq::new(n, |_i: int| 0u8)) == 0,
    decreases n,
{
    if n > 0 {
        lemma_digest_zeros((n - 1) as nat);
        assert(Seq::new(n, |_i: int| 0u8).drop_last() =~= Seq::new((n - 1) as nat, |_i: int| 0u8));
        assert(rotate_left_one(0u8) ^ 0u8 == 0u8) by (bit_vector);
    }
}

} // verus!
