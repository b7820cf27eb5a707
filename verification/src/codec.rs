//! The frame codec: VarInts, length-prefixed frames, zlib compression above a
//! threshold, and AES-128 CFB-8 encryption of the byte stream.
use vstd::prelude::*;
use vstd::arithmetic::power::pow;
use crate::Error;
use bytes::BytesMut;
use cfb8::cipher::{BlockDecryptMut, BlockEncryptMut, KeyIvInit};
use std::io::Read;

verus! {

// ---------------------------------------------------------------------------
// The VarInt model
// ---------------------------------------------------------------------------

/// The value carried by the low seven bits of each byte of `s`, the first byte
/// holding the least significant group.
pub open spec fn groups_value(s: Seq<u8>) -> nat
    decreases s.len(),
{
    if s.len() == 0 {
        0
    } else {
        (s[0] % 128) as nat + 128 * groups_value(s.drop_first())
    }
}

/// The VarInt encoding of `v`: seven bits per byte, least significant group
/// first, the high bit set on every byte but the last.
pub open spec fn varint_bytes(v: nat) -> Seq<u8>
    decreases v,
{
    if v < 128 {
        seq![v as u8]
    } else {
        seq![(v % 128 + 128) as u8] + varint_bytes(v / 128)
    }
}

/// The length of the VarInt that starts `s`, where it ends within its first
/// `limit` bytes: the position just past the first byte whose high bit is clear.
pub open spec fn varint_end(s: Seq<u8>, limit: nat) -> Option<nat>
    decreases limit,
{
    if limit == 0 || s.len() == 0 {
        None
    } else if s[0] < 128 {
        Some(1)
    } else {
        match varint_end(s.drop_first(), (limit - 1) as nat) {
            Some(n) => Some(n + 1),
            None => None,
        }
    }
}

/// The `i32` that a 32-bit VarInt decoder reads from the first `n` bytes of
/// `s` (`1 <= n <= 5`): the seven-bit groups summed modulo 2^32.
pub open spec fn varint32_value(s: Seq<u8>, n: nat) -> i32 {
    (groups_value(s.take(n as int)) % 0x1_0000_0000) as u32 as i32
}

// ---------------------------------------------------------------------------
// Lemmas about the model
// ---------------------------------------------------------------------------

proof fn lemma_varint_bytes_len(v: nat)
    ensures
        varint_bytes(v).len() >= 1,
        v < 0x80 ==> varint_bytes(v).len() == 1,
        0x80 <= v < 0x4000 ==> varint_bytes(v).len() == 2,
        0x4000 <= v < 0x20_0000 ==> varint_bytes(v).len() == 3,
        0x20_0000 <= v < 0x1000_0000 ==> varint_bytes(v).len() == 4,
        0x1000_0000 <= v < 0x8_0000_0000 ==> varint_bytes(v).len() == 5,
    decreases v,
{
    if v >= 128 {
        lemma_varint_bytes_len(v / 128);
    }
}

proof fn lemma_groups_value_push(s: Seq<u8>, k: nat)
    requires
        k < s.len(),
    ensures
        groups_value(s.take(k as int + 1)) == groups_value(s.take(k as int)) + (s[k as int] % 128) as nat * pow(128, k),
    decreases k,
{
    let t = s.take(k as int + 1);
    if k == 0 {
        assert(t.drop_first() =~= Seq::<u8>::empty());
        assert(s.take(0) =~= Seq::<u8>::empty());
        assert(pow(128, 0) == 1) by { reveal(pow); }
    } else {
        let d = s.drop_first();
        lemma_groups_value_push(d, (k - 1) as nat);
        assert(t.drop_first() =~= d.take(k as int));
        assert(s.take(k as int).drop_first() =~= d.take(k - 1));
        assert(pow(128, k) == 128 * pow(128, (k - 1) as nat)) by { reveal(pow); }
        assert(s[k as int] == d[k - 1]);
        let a = groups_value(d.take(k - 1));
        let c = (s[k as int] % 128) as nat;
        let p = pow(128, (k - 1) as nat);
        assert(128 * (a + c * p) == 128 * a + c * (128 * p)) by (nonlinear_arith);
    }
}

proof fn lemma_groups_value_bound(s: Seq<u8>)
    ensures
        groups_value(s) < pow(128, s.len()),
    decreases s.len(),
{
    reveal(pow);
    if s.len() > 0 {
        lemma_groups_value_bound(s.drop_first());
        let a = groups_value(s.drop_first());
        let p = pow(128, s.drop_first().len());
        let c = (s[0] % 128) as nat;
        assert(c + 128 * a < 128 * p) by (nonlinear_arith)
            requires a < p, c < 128;
    }
}

proof fn lemma_pow128_small()
    ensures
        pow(128, 0) == 1,
        pow(128, 1) == 0x80,
        pow(128, 2) == 0x4000,
        pow(128, 3) == 0x20_0000,
        pow(128, 4) == 0x1000_0000,
        pow(128, 5) == 0x8_0000_0000,
{
    reveal_with_fuel(pow, 6);
}

/// `varint_end` finds the first byte with a clear high bit.
proof fn lemma_varint_end(s: Seq<u8>, limit: nat)
    ensures
        varint_end(s, limit) matches Some(n) ==> 1 <= n <= limit && n <= s.len() && s[n - 1] < 128
            && (forall|i: int| 0 <= i < n - 1 ==> s[i] >= 128),
        varint_end(s, limit) is None ==> forall|i: int| 0 <= i < limit && i < s.len() ==> s[i] >= 128,
    decreases limit,
{
    if limit > 0 && s.len() > 0 && s[0] >= 128 {
        lemma_varint_end(s.drop_first(), (limit - 1) as nat);
        assert forall|i: int| 0 < i < limit && i < s.len() implies s.drop_first()[i - 1] == s[i] by {}
    }
}

/// A byte sequence whose first `k` bytes continue and whose byte `k` ends the VarInt.
proof fn lemma_varint_end_at(s: Seq<u8>, limit: nat, k: nat)
    requires
        k < limit,
        k < s.len(),
        forall|i: int| 0 <= i < k ==> s[i] >= 128,
    ensures
        s[k as int] < 128 ==> varint_end(s, limit) == Some(k + 1),
        s[k as int] >= 128 && k + 1 == limit ==> varint_end(s, limit) is None,
        s[k as int] >= 128 && k + 1 == s.len() ==> varint_end(s, limit) is None,
    decreases k,
{
    if k > 0 {
        lemma_varint_end_at(s.drop_first(), (limit - 1) as nat, (k - 1) as nat);
        assert(s[0] >= 128);
    } else {
        if s[0] >= 128 && (limit == 1 || s.len() == 1) {
            assert(varint_end(s.drop_first(), (limit - 1) as nat) is None);
        }
    }
}

/// A sequence that ends before `limit` bytes, every byte continuing, holds no VarInt end.
proof fn lemma_varint_end_short(s: Seq<u8>, limit: nat)
    requires
        s.len() < limit,
        forall|i: int| 0 <= i < s.len() ==> s[i] >= 128,
    ensures
        varint_end(s, limit) is None,
    decreases s.len(),
{
    if s.len() > 0 {
        lemma_varint_end_short(s.drop_first(), (limit - 1) as nat);
    }
}

/// Setting a group of seven bits above the ones already set adds it.
proof fn lemma_or_group(value: u32, c: u32, shift: u32)
    requires
        c < 128,
        shift % 7 == 0,
        shift <= 28,
        value < pow(128, (shift / 7) as nat),
    ensures
        (value | (c << shift)) as nat == (value as nat + c as nat * pow(128, (shift / 7) as nat)) % 0x1_0000_0000,
{
    lemma_pow128_small();
    if shift == 0 {
        assert(value | (c << 0u32) == value + c) by (bit_vector)
            requires value < 1;
    } else if shift == 7 {
        assert(value | (c << 7u32) == value + c * 0x80) by (bit_vector)
            requires value < 0x80, c < 128;
    } else if shift == 14 {
        assert(value | (c << 14u32) == value + c * 0x4000) by (bit_vector)
            requires value < 0x4000, c < 128;
    } else if shift == 21 {
        assert(value | (c << 21u32) == value + c * 0x20_0000) by (bit_vector)
            requires value < 0x20_0000, c < 128;
    } else {
        assert(shift == 28);
        assert(value | (c << 28u32) == (value + c * 0x1000_0000) % 0x1_0000_0000) by (bit_vector)
            requires value < 0x1000_0000, c < 128;
    }
}

/// A VarInt that ends within `limit` bytes is seen in any prefix of at least `limit` bytes.
proof fn lemma_varint_end_take(s: Seq<u8>, k: nat, limit: nat)
    requires
        limit <= k <= s.len(),
    ensures
        varint_end(s.take(k as int), limit) == varint_end(s, limit),
    decreases limit,
{
    let t = s.take(k as int);
    if limit > 0 && s.len() > 0 {
        assert(t[0] == s[0]);
        assert(t.drop_first() =~= s.drop_first().take(k - 1));
        lemma_varint_end_take(s.drop_first(), (k - 1) as nat, (limit - 1) as nat);
    }
}

/// A value below 128^n takes at most `n` VarInt bytes.
proof fn lemma_varint_bytes_len_le(v: nat, n: nat)
    requires
        1 <= n <= 5,
        v < pow(128, n),
    ensures
        varint_bytes(v).len() <= n,
{
    lemma_pow128_small();
    lemma_varint_bytes_len(v);
}

// ---------------------------------------------------------------------------
// Lemmas about CFB-8
// ---------------------------------------------------------------------------

/// Passing two runs of ciphertext through the register is passing their concatenation.
proof fn lemma_register_concat(register: Seq<u8>, a: Seq<u8>, b: Seq<u8>)
    ensures
        cfb8_register(cfb8_register(register, a), b) == cfb8_register(register, a + b),
{
    assert(cfb8_register(cfb8_register(register, a), b) =~= cfb8_register(register, a + b));
}

/// Passing no ciphertext leaves the register as it is.
proof fn lemma_register_empty(register: Seq<u8>)
    ensures
        cfb8_register(register, Seq::<u8>::empty()) == register,
{
    assert(cfb8_register(register, Seq::<u8>::empty()) =~= register);
}

/// XOR with the same byte twice gives the byte back.
proof fn lemma_xor_twice(p: u8, x: u8)
    ensures
        (p ^ x) ^ x == p,
{
    assert((p ^ x) ^ x == p) by (bit_vector);
}

/// Each ciphertext byte of `cfb8_encrypt` is the plaintext byte XORed with the
/// AES byte of the register that the ciphertext before it has made.
proof fn lemma_encrypt_bytes(key: Seq<u8>, register: Seq<u8>, p: Seq<u8>)
    ensures
        cfb8_encrypt(key, register, p).len() == p.len(),
        forall|i: int|
            0 <= i < p.len() ==> #[trigger] cfb8_encrypt(key, register, p)[i] == p[i] ^ aes128_first_byte(
                key,
                cfb8_register(register, cfb8_encrypt(key, register, p).take(i)),
            ),
    decreases p.len(),
{
    if p.len() > 0 {
        let c = cfb8_encrypt(key, register, p);
        let c0 = p[0] ^ aes128_first_byte(key, register);
        let r1 = cfb8_register(register, seq![c0]);
        let tail = cfb8_encrypt(key, r1, p.drop_first());
        lemma_encrypt_bytes(key, r1, p.drop_first());
        assert(c == seq![c0] + tail);
        assert forall|i: int| 0 <= i < p.len() implies #[trigger] c[i] == p[i] ^ aes128_first_byte(
            key,
            cfb8_register(register, c.take(i)),
        ) by {
            if i == 0 {
                assert(c.take(0) =~= Seq::<u8>::empty());
                lemma_register_empty(register);
            } else {
                assert(c.take(i) =~= seq![c0] + tail.take(i - 1));
                lemma_register_concat(register, seq![c0], tail.take(i - 1));
                assert(c[i] == tail[i - 1]);
                assert(p[i] == p.drop_first()[i - 1]);
            }
        }
    }
}

/// A byte sequence that meets the CFB-8 encryption equations for `p` is
/// `cfb8_encrypt` of `p`.
proof fn lemma_encrypt_unique(key: Seq<u8>, register: Seq<u8>, p: Seq<u8>, c: Seq<u8>)
    requires
        c.len() == p.len(),
        forall|i: int|
            0 <= i < p.len() ==> #[trigger] c[i] == p[i] ^ aes128_first_byte(key, cfb8_register(register, c.take(i))),
    ensures
        c == cfb8_encrypt(key, register, p),
    decreases p.len(),
{
    if p.len() == 0 {
        assert(c =~= Seq::<u8>::empty());
    } else {
        assert(c.take(0) =~= Seq::<u8>::empty());
        lemma_register_empty(register);
        let c0 = c[0];
        assert(c0 == p[0] ^ aes128_first_byte(key, register));
        let r1 = cfb8_register(register, seq![c0]);
        let c1 = c.drop_first();
        let p1 = p.drop_first();
        assert forall|i: int| 0 <= i < p1.len() implies #[trigger] c1[i] == p1[i] ^ aes128_first_byte(
            key,
            cfb8_register(r1, c1.take(i)),
        ) by {
            assert(c.take(i + 1) =~= seq![c0] + c1.take(i));
            lemma_register_concat(register, seq![c0], c1.take(i));
            assert(c[i + 1] == c1[i]);
        }
        lemma_encrypt_unique(key, r1, p1, c1);
        assert(c =~= seq![c0] + c1);
    }
}

/// CFB-8 round trip: decrypting the ciphertext of `p` under the same key and
/// starting register gives `p` back.
pub proof fn law_cfb8_roundtrip(key: Seq<u8>, register: Seq<u8>, p: Seq<u8>)
    ensures
        cfb8_encrypt(key, register, p).len() == p.len(),
        cfb8_decrypt(key, register, cfb8_encrypt(key, register, p)) == p,
{
    lemma_encrypt_bytes(key, register, p);
    let c = cfb8_encrypt(key, register, p);
    assert forall|i: int| 0 <= i < p.len() implies #[trigger] cfb8_decrypt(key, register, c)[i] == p[i] by {
        lemma_xor_twice(p[i], aes128_first_byte(key, cfb8_register(register, c.take(i))));
    }
    assert(cfb8_decrypt(key, register, c) =~= p);
}

/// CFB-8 decryption of a stream in pieces: decrypting `a` and then `b` from the
/// register that `a` leaves is decrypting `a + b` at once, and leaves the same
/// register.
pub proof fn law_cfb8_decrypt_chunks(key: Seq<u8>, register: Seq<u8>, a: Seq<u8>, b: Seq<u8>)
    ensures
        cfb8_decrypt(key, register, a + b) == cfb8_decrypt(key, register, a) + cfb8_decrypt(
            key,
            cfb8_register(register, a),
            b,
        ),
        cfb8_register(cfb8_register(register, a), b) == cfb8_register(register, a + b),
{
    let whole = cfb8_decrypt(key, register, a + b);
    let pieces = cfb8_decrypt(key, register, a) + cfb8_decrypt(key, cfb8_register(register, a), b);
    assert forall|i: int| 0 <= i < whole.len() implies #[trigger] whole[i] == pieces[i] by {
        if i < a.len() {
            assert((a + b).take(i) =~= a.take(i));
        } else {
            assert((a + b).take(i) =~= a + b.take(i - a.len()));
            lemma_register_concat(register, a, b.take(i - a.len()));
        }
    }
    assert(whole =~= pieces);
    lemma_register_concat(register, a, b);
}

/// CFB-8 encryption of a stream in pieces: encrypting `a` and then `b` from
/// the register that the ciphertext of `a` leaves is encrypting `a + b` at once.
pub proof fn law_cfb8_encrypt_chunks(key: Seq<u8>, register: Seq<u8>, a: Seq<u8>, b: Seq<u8>)
    ensures
        cfb8_encrypt(key, register, a + b) == cfb8_encrypt(key, register, a) + cfb8_encrypt(
            key,
            cfb8_register(register, cfb8_encrypt(key, register, a)),
            b,
        ),
    decreases a.len(),
{
    if a.len() == 0 {
        assert(a + b =~= b);
        assert(cfb8_encrypt(key, register, a) =~= Seq::<u8>::empty());
        lemma_register_empty(register);
        assert(cfb8_encrypt(key, register, a) + cfb8_encrypt(key, register, b) =~= cfb8_encrypt(key, register, b));
    } else {
        let c0 = a[0] ^ aes128_first_byte(key, register);
        let r1 = cfb8_register(register, seq![c0]);
        assert((a + b)[0] == a[0]);
        assert((a + b).drop_first() =~= a.drop_first() + b);
        law_cfb8_encrypt_chunks(key, r1, a.drop_first(), b);
        let ta = cfb8_encrypt(key, r1, a.drop_first());
        lemma_register_concat(register, seq![c0], ta);
        assert(cfb8_encrypt(key, register, a) == seq![c0] + ta);
        assert(cfb8_encrypt(key, register, a + b) =~= seq![c0] + (ta + cfb8_encrypt(
            key,
            cfb8_register(r1, ta),
            b,
        )));
    }
}

// ---------------------------------------------------------------------------
// Trusted reading of one byte
// ---------------------------------------------------------------------------

/// Reads one byte through `byteorder::ReadBytesExt::read_u8` on a byte slice:
/// the slice's first byte, after which the slice starts one byte later; on an
/// empty slice an error, and the slice stays empty.
#[verifier::external_body]
fn read_byte(input: &mut &[u8]) -> (r: Result<u8, std::io::Error>)
    ensures
        old(input)@.len() > 0 ==> r == Ok::<u8, std::io::Error>(old(input)@[0]) && final(input)@ == old(input)@.drop_first(),
        old(input)@.len() == 0 ==> r is Err && final(input)@ == old(input)@,
{
    byteorder::ReadBytesExt::read_u8(input)
}

// ---------------------------------------------------------------------------
// VarInts
// ---------------------------------------------------------------------------

/// The number of bytes that `varint32_encode` writes for `value`; five for a
/// negative value, whose bits fill all 32.
pub fn varint32_length(value: i32) -> (r: usize)
    ensures
        value >= 0 ==> r == varint_bytes(value as nat).len(),
        value < 0 ==> r == 5,
{
    proof {
        if value >= 0 {
            lemma_varint_bytes_len(value as nat);
        }
    }
    if value == 0 {
        1
    } else {
        {
            let n = value;
            let x = n as u32;
            let lz = x.leading_zeros();
            proof {
                vstd::std_specs::bits::axiom_u32_leading_zeros(x);
                assert(x != 0) by (bit_vector)
                    requires x == n as u32, n != 0i32;
                assert(lz < 32);
                assert(x >> ((32 - lz) as u32) == 0);
                assert((x >> ((31 - lz) as u32)) & 1u32 != 0u32);
                assert({
                    &&& (lz >= 25 ==> x < 0x80)
                    &&& (lz <= 24 ==> x >= 0x80)
                    &&& (lz >= 18 ==> x < 0x4000)
                    &&& (lz <= 17 ==> x >= 0x4000)
                    &&& (lz >= 11 ==> x < 0x20_0000)
                    &&& (lz <= 10 ==> x >= 0x20_0000)
                    &&& (lz >= 4 ==> x < 0x1000_0000)
                    &&& (lz <= 3 ==> x >= 0x1000_0000)
                    &&& (lz >= 1 ==> x < 0x8000_0000)
                }) by (bit_vector)
                    requires
                        lz < 32,
                        x >> ((32 - lz) as u32) == 0,
                        (x >> ((31 - lz) as u32)) & 1u32 != 0u32;
                assert(n >= 0 ==> x == n) by (bit_vector)
                    requires x == n as u32;
                assert(n < 0 ==> x >= 0x8000_0000) by (bit_vector)
                    requires x == n as u32;
            }
            (31 - lz as usize) / 7 + 1
        }
    }
}

/// Appends the VarInt encoding of `value` to `output`.
///
/// A negative value is left out: its arithmetic shift never reaches zero, so
/// the encoding would not end.
pub fn varint32_encode(value: i32, output: &mut Vec<u8>) -> (r: Result<(), Error>)
    requires
        value >= 0,
    ensures
        r is Ok,
        final(output)@ == old(output)@ + varint_bytes(value as nat),
{
    let mut rest = value;
    loop
        invariant
            rest >= 0,
            value >= 0,
            output@ + varint_bytes(rest as nat) == old(output)@ + varint_bytes(value as nat),
        decreases rest,
    {
        let ghost before = output@;
        let ghost v = rest as nat;
        if rest & !0b01111111 == 0 {
            assert(rest & !0b01111111i32 == 0 ==> rest < 128) by (bit_vector)
                requires rest >= 0;
            output.push(rest as u8);
            assert(output@ =~= before + varint_bytes(v));
            return Ok(());
        }
        assert(rest & !0b01111111i32 != 0 ==> rest >= 128) by (bit_vector)
            requires rest >= 0;
        let b = rest as u8 & 0b01111111 | 0b10000000;
        assert(b == (rest % 128 + 128) as u8) by (bit_vector)
            requires rest >= 0, b == rest as u8 & 0b01111111u8 | 0b10000000u8;
        output.push(b);
        assert(rest >> 7 == rest / 128) by (bit_vector)
            requires rest >= 0;
        rest >>= 7;
        assert(varint_bytes(v) == seq![b] + varint_bytes(rest as nat));
        assert(output@ + varint_bytes(rest as nat) =~= before + varint_bytes(v));
    }
}

/// Reads a VarInt of at most 21 bits (three bytes) off the front of `input`.
///
/// It ends at the first byte whose high bit is clear; the value is the
/// seven-bit groups, least significant first. Where the bytes run out first the
/// result is `Error::Io` and `input` is left empty; where three bytes all carry
/// the high bit the VarInt is wider than 21 bits: the result is
/// `Error::VarIntTooWide(21)`, those three bytes are consumed and no more is read.
#[verifier::spinoff_prover]
pub fn varint21_decode(input: &mut &[u8]) -> (r: Result<i32, Error>)
    ensures
        ({
            let s = old(input)@;
            match varint_end(s, 3) {
                Some(n) => r matches Ok(v) && v as int == groups_value(s.take(n as int))
                    && final(input)@ == s.skip(n as int),
                None => if s.len() < 3 {
                    r matches Err(Error::Io(_)) && final(input)@.len() == 0
                } else {
                    r matches Err(Error::VarIntTooWide(w)) && w == 21 && final(input)@ == s.skip(3)
                },
            }
        }),
{
    let ghost s = input@;
    let mut value: u32 = 0;
    let mut shift: u32 = 0;
    proof {
        lemma_pow128_small();
        assert(s.take(0) =~= Seq::<u8>::empty());
        assert(s.skip(0) =~= s);
    }
    while shift < 21
        invariant
            s == old(input)@,
            shift % 7 == 0,
            shift <= 21,
            (shift / 7) as int <= s.len(),
            input@ == s.skip((shift / 7) as int),
            forall|i: int| 0 <= i < shift / 7 ==> s[i] >= 128,
            value as nat == groups_value(s.take((shift / 7) as int)),
        decreases 21 - shift,
    {
        let ghost k = (shift / 7) as nat;
        proof {
            lemma_groups_value_bound(s.take(k as int));
        }
        let head = match read_byte(input) {
            Ok(h) => h,
            Err(e) => {
                proof {
                    lemma_varint_end_short(s, 3);
                }
                return Err(Error::Io(e));
            },
        };
        assert(head == s[k as int]);
        let c = (head & 0b01111111) as u32;
        assert(c == head % 128) by (bit_vector)
            requires c == (head & 0b01111111u8) as u32;
        proof {
            lemma_or_group(value, c, shift);
            lemma_groups_value_push(s, k);
            lemma_groups_value_bound(s.take(k as int + 1));
            lemma_pow128_small();
        }
        value = value | (c << shift);
        assert(input@ =~= s.skip(k as int + 1));
        if head & 0b10000000 == 0 {
            assert(head & 0b10000000u8 == 0 ==> head < 128) by (bit_vector);
            proof {
                lemma_varint_end_at(s, 3, k);
            }
            assert(value < 0x20_0000);
            assert(value as i32 == value) by (bit_vector)
                requires value < 0x20_0000u32;
            return Ok(value as i32);
        }
        assert(head & 0b10000000u8 != 0 ==> head >= 128) by (bit_vector);
        shift += 7;
    }
    proof {
        lemma_varint_end_at(s, 3, 2);
    }
    Err(Error::VarIntTooWide(21))
}

/// Reads a 32-bit VarInt off the front of `input`, of at most five bytes.
///
/// As `varint21_decode`, with five bytes in place of three and the groups
/// summed modulo 2^32 (see `varint32_value`); five bytes that all carry the
/// high bit give `Error::VarIntTooWide(35)`, with those five bytes consumed.
#[verifier::spinoff_prover]
pub fn varint32_decode(input: &mut &[u8]) -> (r: Result<i32, Error>)
    ensures
        ({
            let s = old(input)@;
            match varint_end(s, 5) {
                Some(n) => r matches Ok(v) && v == varint32_value(s, n) && final(input)@ == s.skip(n as int),
                None => if s.len() < 5 {
                    r matches Err(Error::Io(_)) && final(input)@.len() == 0
                } else {
                    r matches Err(Error::VarIntTooWide(w)) && w == 35 && final(input)@ == s.skip(5)
                },
            }
        }),
{
    let ghost s = input@;
    let mut value: u32 = 0;
    let mut shift: u32 = 0;
    proof {
        lemma_pow128_small();
        assert(s.take(0) =~= Seq::<u8>::empty());
        assert(s.skip(0) =~= s);
    }
    while shift < 35
        invariant
            s == old(input)@,
            shift % 7 == 0,
            shift <= 35,
            (shift / 7) as int <= s.len(),
            input@ == s.skip((shift / 7) as int),
            forall|i: int| 0 <= i < shift / 7 ==> s[i] >= 128,
            value as nat == groups_value(s.take((shift / 7) as int)) % 0x1_0000_0000,
            shift <= 28 ==> value as nat == groups_value(s.take((shift / 7) as int)),
        decreases 35 - shift,
    {
        let ghost k = (shift / 7) as nat;
        let head = match read_byte(input) {
            Ok(h) => h,
            Err(e) => {
                proof {
                    lemma_varint_end_short(s, 5);
                }
                return Err(Error::Io(e));
            },
        };
        assert(head == s[k as int]);
        let c = (head & 0b01111111) as u32;
        assert(c == head % 128) by (bit_vector)
            requires c == (head & 0b01111111u8) as u32;
        let ghost prev = value;
        proof {
            lemma_groups_value_bound(s.take(k as int));
            lemma_pow128_small();
            assert(groups_value(s.take(k as int)) < pow(128, k));
            assert(prev as nat == groups_value(s.take(k as int)));
            lemma_or_group(prev, c, shift);
            lemma_groups_value_push(s, k);
            lemma_groups_value_bound(s.take(k as int + 1));
        }
        value = value | (c << shift);
        assert(input@ =~= s.skip(k as int + 1));
        if head & 0b10000000 == 0 {
            assert(head & 0b10000000u8 == 0 ==> head < 128) by (bit_vector);
            proof {
                lemma_varint_end_at(s, 5, k);
            }
            return Ok(value as i32);
        }
        assert(head & 0b10000000u8 != 0 ==> head >= 128) by (bit_vector);
        shift += 7;
    }
    proof {
        lemma_varint_end_at(s, 5, 4);
    }
    Err(Error::VarIntTooWide(35))
}

// ---------------------------------------------------------------------------
// Outside types and calls that the codec makes
// ---------------------------------------------------------------------------

/// An outside type: the growable byte buffer that frames are written to and read from.
#[verifier::external_type_specification]
#[verifier::external_body]
pub struct ExBytesMut(bytes::BytesMut);

/// The bytes that a `BytesMut` holds, in order.
pub uninterp spec fn buffer_bytes(b: BytesMut) -> Seq<u8>;

/// The first byte of the AES-128 encryption of the 16-byte block `block`
/// under the 16-byte `key`.
pub uninterp spec fn aes128_first_byte(key: Seq<u8>, block: Seq<u8>) -> u8;

/// The CFB-8 shift register after the ciphertext bytes `ciphertext` have
/// passed through `register`: each shifts it by one byte and enters at its end.
pub open spec fn cfb8_register(register: Seq<u8>, ciphertext: Seq<u8>) -> Seq<u8> {
    (register + ciphertext).skip(ciphertext.len() as int)
}

/// AES-128 in CFB-8 mode, decrypting: each ciphertext byte XORed with the
/// first byte of the AES-128 encryption of the shift register before it,
/// which starts as `register` and takes in the ciphertext.
pub open spec fn cfb8_decrypt(key: Seq<u8>, register: Seq<u8>, ciphertext: Seq<u8>) -> Seq<u8> {
    Seq::new(
        ciphertext.len(),
        |i: int| ciphertext[i] ^ aes128_first_byte(key, cfb8_register(register, ciphertext.take(i))),
    )
}

/// AES-128 in CFB-8 mode, encrypting: each plaintext byte XORed with the
/// first byte of the AES-128 encryption of the shift register before it,
/// which starts as `register` and takes in the ciphertext.
pub open spec fn cfb8_encrypt(key: Seq<u8>, register: Seq<u8>, plaintext: Seq<u8>) -> Seq<u8>
    decreases plaintext.len(),
{
    if plaintext.len() == 0 {
        Seq::empty()
    } else {
        let c = plaintext[0] ^ aes128_first_byte(key, register);
        seq![c] + cfb8_encrypt(key, cfb8_register(register, seq![c]), plaintext.drop_first())
    }
}

/// The zlib stream that `flate2::read::ZlibEncoder` produces from `data` at
/// `level`, read to its end; `None` where it reports an error.
pub uninterp spec fn zlib_compress(data: Seq<u8>, level: u32) -> Option<Seq<u8>>;

/// What `flate2::read::ZlibDecoder` reads from the zlib stream `data`, read to
/// its end; `None` where it reports an error.
pub uninterp spec fn zlib_decompress(data: Seq<u8>) -> Option<Seq<u8>>;

/// `BytesMut::len`: the number of bytes held.
#[verifier::external_body]
fn buffer_len(b: &BytesMut) -> (r: usize)
    ensures
        r == buffer_bytes(*b).len(),
{
    b.len()
}

/// The number of bytes that `b` holds: what a caller learns before it meets
/// the bounds of `Codec::encode` and `Codec::decode`.
pub fn buffer_length(b: &BytesMut) -> (r: usize)
    ensures
        r == buffer_bytes(*b).len(),
{
    buffer_len(b)
}

/// `BytesMut::extend_from_slice`: appends `s`; it panics where the capacity
/// would overflow, which the bound leaves out.
#[verifier::external_body]
fn buffer_extend(b: &mut BytesMut, s: &[u8])
    requires
        buffer_bytes(*old(b)).len() + s@.len() <= isize::MAX,
    ensures
        buffer_bytes(*final(b)) == buffer_bytes(*old(b)) + s@,
{
    b.extend_from_slice(s)
}

/// A copy of the bytes `start..end` of the buffer, read through its `Deref` to a slice.
#[verifier::external_body]
fn buffer_copy(b: &BytesMut, start: usize, end: usize) -> (r: Vec<u8>)
    requires
        start <= end <= buffer_bytes(*b).len(),
    ensures
        r@ == buffer_bytes(*b).subrange(start as int, end as int),
{
    b[start..end].to_vec()
}

/// `bytes::Buf::advance` on a `BytesMut`: drops the first `n` bytes; it
/// panics past the end, which the bound leaves out.
#[verifier::external_body]
fn buffer_advance(b: &mut BytesMut, n: usize)
    requires
        n <= buffer_bytes(*old(b)).len(),
    ensures
        buffer_bytes(*final(b)) == buffer_bytes(*old(b)).skip(n as int),
{
    bytes::Buf::advance(b, n)
}

/// Encrypts the buffer's bytes from `from` on in place with AES-128 in CFB-8
/// mode, and returns the shift register after them. The one body makes three
/// calls of one cipher: `KeyIvInit::new_from_slices(key, iv)` (which fails
/// unless both are 16 bytes, left out by the bounds),
/// `BlockEncryptMut::encrypt_blocks_inout_mut` with one byte a block, and
/// `IvState::iv_state`; the encryptor itself cannot cross into verified code.
/// Stated, as `cfb8::Encryptor`'s `proc_block` does it: each byte is XORed
/// with the first byte of the AES-128 encryption (named `aes128_first_byte`)
/// of the register, which starts as `iv` and shifts in each output byte; the
/// bytes before `from` stay. AES-128 itself is not stated.
#[verifier::external_body]
fn encrypt_from(key: &[u8], iv: &[u8], b: &mut BytesMut, from: usize) -> (next: Vec<u8>)
    requires
        key@.len() == 16,
        iv@.len() == 16,
        from <= buffer_bytes(*old(b)).len(),
    ensures
        buffer_bytes(*final(b)).len() == buffer_bytes(*old(b)).len(),
        buffer_bytes(*final(b)).take(from as int) == buffer_bytes(*old(b)).take(from as int),
        forall|i: int|
            from <= i < buffer_bytes(*old(b)).len() ==> #[trigger] buffer_bytes(*final(b))[i] == buffer_bytes(
                *old(b),
            )[i] ^ aes128_first_byte(key@, cfb8_register(iv@, buffer_bytes(*final(b)).subrange(from as int, i))),
        next@ == cfb8_register(iv@, buffer_bytes(*final(b)).skip(from as int)),
{
    let mut enc = cfb8::Encryptor::<aes::Aes128>::new_from_slices(key, iv).unwrap();
    let (blocks, _) = cfb8::cipher::inout::InOutBuf::from(&mut b[from..]).into_chunks::<cfb8::cipher::consts::U1>();
    enc.encrypt_blocks_inout_mut(blocks);
    cfb8::cipher::IvState::iv_state(&enc).to_vec()
}

/// Decrypts the buffer's bytes from `from` on in place with AES-128 in CFB-8
/// mode, and returns the shift register after them; the three calls of
/// `encrypt_from`, with `Decryptor` and `decrypt_blocks_inout_mut`. Stated, as
/// `cfb8::Decryptor`'s `proc_block` does it: each byte is XORed with the first
/// byte of the AES-128 encryption of the register, which starts as `iv` and
/// shifts in each input byte; the bytes before `from` stay.
#[verifier::external_body]
fn decrypt_from(key: &[u8], iv: &[u8], b: &mut BytesMut, from: usize) -> (next: Vec<u8>)
    requires
        key@.len() == 16,
        iv@.len() == 16,
        from <= buffer_bytes(*old(b)).len(),
    ensures
        buffer_bytes(*final(b)).len() == buffer_bytes(*old(b)).len(),
        buffer_bytes(*final(b)).take(from as int) == buffer_bytes(*old(b)).take(from as int),
        forall|i: int|
            from <= i < buffer_bytes(*old(b)).len() ==> #[trigger] buffer_bytes(*final(b))[i] == buffer_bytes(
                *old(b),
            )[i] ^ aes128_first_byte(key@, cfb8_register(iv@, buffer_bytes(*old(b)).subrange(from as int, i))),
        next@ == cfb8_register(iv@, buffer_bytes(*old(b)).skip(from as int)),
{
    let mut dec = cfb8::Decryptor::<aes::Aes128>::new_from_slices(key, iv).unwrap();
    let (blocks, _) = cfb8::cipher::inout::InOutBuf::from(&mut b[from..]).into_chunks::<cfb8::cipher::consts::U1>();
    dec.decrypt_blocks_inout_mut(blocks);
    cfb8::cipher::IvState::iv_state(&dec).to_vec()
}

/// Reads `flate2::read::ZlibEncoder` over `data` at `level` to its end: the
/// result named `zlib_compress`, an error exactly where that is `None`; and
/// `ZlibDecoder` reads `data` back from the stream, zlib being lossless.
#[verifier::external_body]
fn compress(data: &[u8], level: u32) -> (r: Result<Vec<u8>, std::io::Error>)
    ensures
        r is Ok <==> zlib_compress(data@, level) is Some,
        r matches Ok(v) ==> zlib_compress(data@, level) == Some(v@) && zlib_decompress(v@) == Some(data@),
{
    let mut out = Vec::new();
    match flate2::read::ZlibEncoder::new(data, flate2::Compression::new(level)).read_to_end(&mut out) {
        Ok(_) => Ok(out),
        Err(e) => Err(e),
    }
}

/// Reads `flate2::read::ZlibDecoder` over `data` to its end: the result named
/// `zlib_decompress`, an error exactly where that is `None`.
#[verifier::external_body]
fn decompress(data: &[u8]) -> (r: Result<Vec<u8>, std::io::Error>)
    ensures
        r is Ok <==> zlib_decompress(data@) is Some,
        r matches Ok(v) ==> zlib_decompress(data@) == Some(v@),
{
    let mut out = Vec::new();
    match flate2::read::ZlibDecoder::new(data).read_to_end(&mut out) {
        Ok(_) => Ok(out),
        Err(e) => Err(e),
    }
}

// ---------------------------------------------------------------------------
// Frames
// ---------------------------------------------------------------------------

/// The header of a frame without compression: the length `n` as a VarInt
/// padded to three bytes, of which only 21 bits are kept.
pub open spec fn plain_header(n: nat) -> Seq<u8> {
    seq![(n % 128 + 128) as u8, ((n / 128) % 128 + 128) as u8, ((n / 0x4000) % 128) as u8]
}

/// The header of a frame that compression leaves as it is: the length `n`
/// (which counts the zero byte after it) as a two-byte VarInt of which only 14
/// bits are kept, then a zero byte, the VarInt 0 that marks the data as
/// uncompressed.
pub open spec fn short_header(n: nat) -> Seq<u8> {
    seq![(n % 128 + 128) as u8, ((n / 128) % 128) as u8, 0u8]
}

/// The frame that a codec with compression threshold `threshold` and level
/// `level` writes for `item`.
///
/// Without compression: the three-byte length header and the item. With it,
/// an item longer than the threshold is written as the VarInt length of what
/// follows, the VarInt length of the item, and the item's zlib stream; a
/// shorter one as the short header and the item.
pub open spec fn frame_bytes(item: Seq<u8>, threshold: Option<u16>, level: u32) -> Seq<u8> {
    match threshold {
        None => plain_header(item.len()) + item,
        Some(t) => if item.len() > t {
            let c = zlib_compress(item, level).unwrap();
            varint_bytes(varint_bytes(item.len()).len() + c.len()) + varint_bytes(item.len()) + c
        } else {
            short_header(item.len() + 1) + item
        },
    }
}

/// Whether a codec with threshold `threshold` compresses `item`.
pub open spec fn over_threshold(item: Seq<u8>, threshold: Option<u16>) -> bool {
    threshold matches Some(t) && item.len() > t
}

/// Whether zlib compresses `item` at `level`, and reads the item back from
/// the stream.
pub open spec fn zlib_roundtrips(item: Seq<u8>, level: u32) -> bool {
    zlib_compress(item, level) matches Some(c) && zlib_decompress(c) == Some(item)
}

/// Whether the compressed frame of `item` is too long: for the 32-bit VarInt
/// that gives its length, or for a buffer that already holds `held` bytes.
pub open spec fn compressed_too_long(item: Seq<u8>, level: u32, held: nat) -> bool {
    let total = varint_bytes(item.len()).len() + zlib_compress(item, level).unwrap().len();
    total > i32::MAX || held + varint_bytes(total).len() + total > isize::MAX
}

/// Whether encoding `item` fails: it is compressed, and zlib reports an error
/// or its frame is too long.
pub open spec fn encode_fails(item: Seq<u8>, threshold: Option<u16>, level: u32, held: nat) -> bool {
    over_threshold(item, threshold) && (zlib_compress(item, level) is None || compressed_too_long(
        item,
        level,
        held,
    ))
}

/// What the body `body` of a frame unpacks to, `None` where unpacking fails:
/// with compression, the VarInt length of the uncompressed data comes first;
/// where it is not zero the rest is a zlib stream, else the rest is the data
/// itself.
pub open spec fn unpacked(body: Seq<u8>, compressed: bool) -> Option<Seq<u8>> {
    if !compressed {
        Some(body)
    } else {
        match varint_end(body, 5) {
            Some(m) => if varint32_value(body, m) != 0 {
                zlib_decompress(body.skip(m as int))
            } else {
                Some(body.skip(m as int))
            },
            None => None,
        }
    }
}

/// Whether unpacking `body` fails on an over-long VarInt (rather than on
/// running out of bytes or on a broken zlib stream).
pub open spec fn unpack_too_wide(body: Seq<u8>, compressed: bool) -> bool {
    compressed && varint_end(body, 5) is None && body.len() >= 5
}

/// What decoding the plain bytes `b` gives (`r`) and leaves (`rest`).
///
/// A frame starts with its length as a VarInt of at most three bytes. While
/// the bytes run out before the header or the body ends, nothing comes out and
/// nothing is consumed; three header bytes that all continue are an error once
/// three more bytes follow them. A whole frame is unpacked; on success the
/// buffer advances by the minimal VarInt length of the body length plus the
/// body length, which is short of the frame where the header was padded.
pub open spec fn decoding(b: Seq<u8>, compressed: bool, r: Result<Option<Vec<u8>>, Error>, rest: Seq<u8>) -> bool {
    match varint_end(b, 3) {
        None => rest == b && if b.len() >= 6 {
            r matches Err(Error::VarIntTooWide(w)) && w == 21
        } else {
            r matches Ok(None)
        },
        Some(n) => {
            let len = groups_value(b.take(n as int));
            if b.len() < n + len {
                r matches Ok(None) && rest == b
            } else {
                let body = b.subrange(n as int, (n + len) as int);
                match unpacked(body, compressed) {
                    Some(p) => r matches Ok(Some(q)) && q@ == p && rest == b.skip((varint_bytes(len).len() + len) as int),
                    None => rest == b && if unpack_too_wide(body, compressed) {
                        r matches Err(Error::VarIntTooWide(w)) && w == 35
                    } else {
                        r matches Err(Error::Io(_))
                    },
                }
            }
        },
    }
}

/// The bytes that a decrypting decoder reads from the buffer `b`, of which
/// the first `decrypted` are already plain: those, then the CFB-8 plaintext of
/// the rest from the shift register `register`.
pub open spec fn opened(key: Seq<u8>, register: Seq<u8>, decrypted: nat, b: Seq<u8>) -> Seq<u8> {
    b.take(decrypted as int) + cfb8_decrypt(key, register, b.skip(decrypted as int))
}

/// One decoding call with decryption: from the buffer `b`, its first
/// `decrypted` bytes plain and the register `register`, to the result `r`, the
/// buffer `rest`, the register `register_after` and the count
/// `decrypted_after`. The bytes not yet decrypted are decrypted and the
/// register passes over them; the frame is read from the plain bytes as
/// `decoding` says; every byte left in the buffer is plain.
pub open spec fn decrypt_step(
    key: Seq<u8>,
    register: Seq<u8>,
    decrypted: nat,
    b: Seq<u8>,
    compressed: bool,
    r: Result<Option<Vec<u8>>, Error>,
    rest: Seq<u8>,
    register_after: Seq<u8>,
    decrypted_after: nat,
) -> bool {
    &&& decoding(opened(key, register, decrypted, b), compressed, r, rest)
    &&& register_after == cfb8_register(register, b.skip(decrypted as int))
    &&& decrypted_after == rest.len()
}

/// A compression level, on a scale of 0 (none) to 9 (smallest output).
#[derive(Clone, Copy, Debug)]
pub struct Compression {
    level: u32,
}

impl Compression {
    /// The level as a number.
    pub closed spec fn spec_level(&self) -> u32 {
        self.level
    }

    /// A level given by its number.
    pub fn new(level: u32) -> (r: Compression)
        ensures
            r.spec_level() == level,
    {
        Compression { level }
    }

    /// No compression; the data may grow slightly.
    pub fn none() -> (r: Compression)
        ensures
            r.spec_level() == 0,
    {
        Compression { level: 0 }
    }

    /// The fastest compression.
    pub fn fast() -> (r: Compression)
        ensures
            r.spec_level() == 1,
    {
        Compression { level: 1 }
    }

    /// The smallest output.
    pub fn best() -> (r: Compression)
        ensures
            r.spec_level() == 9,
    {
        Compression { level: 9 }
    }

    /// The level as a number.
    pub fn level(&self) -> (r: u32)
        ensures
            r == self.spec_level(),
    {
        self.level
    }
}

impl Default for Compression {
    /// The default level, 6.
    fn default() -> (r: Compression)
        ensures
            r.spec_level() == 6,
    {
        Compression { level: 6 }
    }
}

/// The key and the CFB-8 shift register of one direction of an encrypted stream.
struct CipherState {
    key: Vec<u8>,
    register: Vec<u8>,
}

/// A frame codec: length-prefixed frames, optionally compressed above a
/// threshold, and optionally encrypted with AES-128 in CFB-8 mode.
pub struct Codec {
    encryptor: Option<CipherState>,
    decryptor: Option<CipherState>,
    decrypted_bytes: usize,
    compression: Compression,
    compression_threshold: Option<u16>,
}

/// Appends the bytes of `s` to `out`.
pub(crate) fn append_bytes(out: &mut Vec<u8>, s: &[u8])
    ensures
        final(out)@ == old(out)@ + s@,
{
    let mut i: usize = 0;
    while i < s.len()
        invariant
            i <= s@.len(),
            out@ == old(out)@ + s@.take(i as int),
        decreases s@.len() - i,
    {
        out.push(s[i]);
        i = i + 1;
        assert(out@ =~= old(out)@ + s@.take(i as int));
    }
    assert(s@.take(i as int) =~= s@);
}

impl Codec {
    /// The key and shift register of the encrypting direction, if encryption is on.
    pub closed spec fn encryption(&self) -> Option<(Seq<u8>, Seq<u8>)> {
        match self.encryptor {
            Some(c) => Some((c.key@, c.register@)),
            None => None,
        }
    }

    /// The key and shift register of the decrypting direction, if encryption is on.
    pub closed spec fn decryption(&self) -> Option<(Seq<u8>, Seq<u8>)> {
        match self.decryptor {
            Some(c) => Some((c.key@, c.register@)),
            None => None,
        }
    }

    /// How many bytes at the front of the read buffer are already decrypted.
    pub closed spec fn decrypted(&self) -> nat {
        self.decrypted_bytes as nat
    }

    /// The compression threshold, if compression is on.
    pub closed spec fn threshold(&self) -> Option<u16> {
        self.compression_threshold
    }

    /// The compression level.
    pub closed spec fn level(&self) -> u32 {
        self.compression.level
    }

    /// Keys and shift registers are 16 bytes long.
    #[verifier::type_invariant]
    closed spec fn wf(&self) -> bool {
        &&& (self.encryptor matches Some(c) ==> c.key@.len() == 16 && c.register@.len() == 16)
        &&& (self.decryptor matches Some(c) ==> c.key@.len() == 16 && c.register@.len() == 16)
    }

    /// A codec with neither compression nor encryption, at the default level.
    pub fn new() -> (r: Codec)
        ensures
            r.encryption() is None,
            r.decryption() is None,
            r.decrypted() == 0,
            r.threshold() is None,
            r.level() == 6,
    {
        Codec {
            encryptor: None,
            decryptor: None,
            decrypted_bytes: 0,
            compression: Compression { level: 6 },
            compression_threshold: None,
        }
    }

    /// Whether encryption is on for reading.
    pub fn is_decrypting(&self) -> (r: bool)
        ensures
            r == self.decryption() is Some,
    {
        self.decryptor.is_some()
    }

    /// How many bytes at the front of the read buffer are already decrypted.
    pub fn decrypted_bytes(&self) -> (r: usize)
        ensures
            r == self.decrypted(),
    {
        self.decrypted_bytes
    }

    /// Whether compression is on.
    pub fn is_compressing(&self) -> (r: bool)
        ensures
            r == self.threshold() is Some,
    {
        self.compression_threshold.is_some()
    }

    /// Turns on encryption in both directions with `key` as key and IV.
    ///
    /// A key of another length than 16 bytes makes the cipher's constructor
    /// fail, and is left out.
    pub fn enable_encryption(&mut self, key: &[u8])
        requires
            key@.len() == 16,
        ensures
            final(self).encryption() == Some((key@, key@)),
            final(self).decryption() == Some((key@, key@)),
            final(self).decrypted() == 0,
            final(self).threshold() == old(self).threshold(),
            final(self).level() == old(self).level(),
    {
        proof {
            use_type_invariant(&*self);
        }
        self.encryptor = Some(CipherState { key: vstd::slice::slice_to_vec(key), register: vstd::slice::slice_to_vec(key) });
        self.decryptor = Some(CipherState { key: vstd::slice::slice_to_vec(key), register: vstd::slice::slice_to_vec(key) });
        self.decrypted_bytes = 0;
    }

    /// Turns on compression of frames longer than `compression_threshold` at
    /// the level `compression`.
    ///
    /// A threshold above 16384 fails an assertion, and is left out: the short
    /// header holds the length in two VarInt bytes.
    pub fn enable_compression(&mut self, compression: Compression, compression_threshold: u16)
        requires
            compression_threshold <= 16384,
        ensures
            final(self).encryption() == old(self).encryption(),
            final(self).decryption() == old(self).decryption(),
            final(self).decrypted() == old(self).decrypted(),
            final(self).threshold() == Some(compression_threshold),
            final(self).level() == compression.spec_level(),
    {
        proof {
            use_type_invariant(&*self);
        }
        self.compression = compression;
        self.compression_threshold = Some(compression_threshold);
    }

    /// The plain frame of `item`, before encryption, for a buffer that already
    /// holds `held` bytes.
    #[verifier::spinoff_prover]
    fn frame(&self, item: &[u8], held: usize) -> (r: Result<Vec<u8>, Error>)
        requires
            self.threshold() is Some ==> item@.len() <= i32::MAX,
            held + item@.len() + 3 <= isize::MAX,
        ensures
            r matches Ok(f) ==> f@ == frame_bytes(item@, self.threshold(), self.level())
                && held + f@.len() <= isize::MAX,
            r is Ok && over_threshold(item@, self.threshold()) ==> zlib_roundtrips(item@, self.level()),
            r is Ok <==> !encode_fails(item@, self.threshold(), self.level(), held as nat),
            r matches Err(Error::Io(_)) <==> over_threshold(item@, self.threshold()) && zlib_compress(
                item@,
                self.level(),
            ) is None,
            r matches Err(Error::VarIntTooWide(w)) ==> w == 32,
    {
        let data_length = item.len();
        match self.compression_threshold {
            Some(compression_threshold) => {
                if data_length > compression_threshold as usize {
                    let compressed = match compress(item, self.compression.level) {
                        Ok(c) => c,
                        Err(e) => return Err(Error::Io(e)),
                    };
                    let length_length = varint32_length(data_length as i32);
                    proof {
                        lemma_varint_bytes_len(data_length as nat);
                    }
                    if compressed.len() > 0x7fff_ffff - length_length {
                        return Err(Error::VarIntTooWide(32));
                    }
                    let total = length_length + compressed.len();
                    let header_length = varint32_length(total as i32);
                    proof {
                        lemma_varint_bytes_len(total as nat);
                    }
                    if header_length + total > isize::MAX as usize - held {
                        return Err(Error::VarIntTooWide(32));
                    }
                    let mut frame: Vec<u8> = Vec::new();
                    let _ = varint32_encode(total as i32, &mut frame);
                    let _ = varint32_encode(data_length as i32, &mut frame);
                    append_bytes(&mut frame, compressed.as_slice());
                    proof {
                        assert(frame@ =~= frame_bytes(item@, self.threshold(), self.level()));
                    }
                    Ok(frame)
                } else {
                    // The third byte stays zero: the VarInt 0 that marks the data as uncompressed.
                    let n = data_length + 1;
                    let b0 = (n & 0x7F) as u8 | 0x80;
                    let b1 = (n >> 7 & 0x7F) as u8;
                    assert(b0 == (n % 128 + 128) as u8 && b1 == ((n / 128) % 128) as u8) by (bit_vector)
                        requires
                            b0 == (n & 0x7F) as u8 | 0x80u8,
                            b1 == (n >> 7 & 0x7F) as u8;
                    let mut frame: Vec<u8> = Vec::new();
                    frame.push(b0);
                    frame.push(b1);
                    frame.push(0);
                    append_bytes(&mut frame, item);
                    assert(frame@ =~= frame_bytes(item@, self.threshold(), self.level()));
                    Ok(frame)
                }
            },
            None => {
                let n = data_length;
                let b0 = (n & 0x7F) as u8 | 0x80;
                let b1 = (n >> 7 & 0x7F) as u8 | 0x80;
                let b2 = (n >> 14 & 0x7F) as u8;
                assert(b0 == (n % 128 + 128) as u8 && b1 == ((n / 128) % 128 + 128) as u8
                    && b2 == ((n / 0x4000) % 128) as u8) by (bit_vector)
                    requires
                        b0 == (n & 0x7F) as u8 | 0x80u8,
                        b1 == (n >> 7 & 0x7F) as u8 | 0x80u8,
                        b2 == (n >> 14 & 0x7F) as u8;
                let mut frame: Vec<u8> = Vec::new();
                frame.push(b0);
                frame.push(b1);
                frame.push(b2);
                append_bytes(&mut frame, item);
                assert(frame@ =~= frame_bytes(item@, self.threshold(), self.level()));
                Ok(frame)
            },
        }
    }

    /// Appends the frame of `item` to `dst`, encrypted where encryption is on.
    ///
    /// The frame is `frame_bytes`; with encryption its CFB-8 ciphertext under
    /// the encrypting key and shift register, which then moves on past it.
    /// Compression, where the item is longer than the threshold, goes through
    /// zlib: where zlib reports an error the result is `Error::Io`, and where the
    /// compressed frame is too long for its 32-bit VarInt length, or for the
    /// buffer, `Error::VarIntTooWide(32)`; either way nothing is written.
    ///
    /// An item over `i32::MAX` bytes with compression on is left out: its
    /// length would wrap in the VarInt. So is a buffer that the item and a
    /// three-byte header would grow past `isize::MAX` bytes.
    pub fn encode(&mut self, item: &[u8], dst: &mut BytesMut) -> (r: Result<(), Error>)
        requires
            old(self).threshold() is Some ==> item@.len() <= i32::MAX,
            buffer_bytes(*old(dst)).len() + item@.len() + 3 <= isize::MAX,
        ensures
            final(self).decryption() == old(self).decryption(),
            final(self).decrypted() == old(self).decrypted(),
            final(self).threshold() == old(self).threshold(),
            final(self).level() == old(self).level(),
            r is Ok <==> !encode_fails(
                item@,
                old(self).threshold(),
                old(self).level(),
                buffer_bytes(*old(dst)).len(),
            ),
            r matches Err(Error::Io(_)) <==> over_threshold(item@, old(self).threshold()) && zlib_compress(
                item@,
                old(self).level(),
            ) is None,
            r matches Err(Error::VarIntTooWide(w)) ==> w == 32,
            r is Ok ==> ({
                let frame = frame_bytes(item@, old(self).threshold(), old(self).level());
                match old(self).encryption() {
                    None => buffer_bytes(*final(dst)) == buffer_bytes(*old(dst)) + frame
                        && final(self).encryption() is None,
                    Some((key, iv)) => {
                        let sealed = cfb8_encrypt(key, iv, frame);
                        &&& buffer_bytes(*final(dst)) == buffer_bytes(*old(dst)) + sealed
                        &&& sealed.len() == frame.len()
                        &&& cfb8_decrypt(key, iv, sealed) == frame
                        &&& final(self).encryption() == Some((key, cfb8_register(iv, sealed)))
                    },
                }
            }),
            r is Ok && over_threshold(item@, old(self).threshold()) ==> zlib_roundtrips(item@, old(self).level()),
            r is Err ==> buffer_bytes(*final(dst)) == buffer_bytes(*old(dst))
                && final(self).encryption() == old(self).encryption(),
    {
        proof {
            use_type_invariant(&*self);
        }
        let data_length_offset = buffer_len(dst);
        let frame = match self.frame(item, data_length_offset) {
            Ok(f) => f,
            Err(e) => return Err(e),
        };
        buffer_extend(dst, frame.as_slice());
        let ghost written = buffer_bytes(*dst);
        assert(written.take(data_length_offset as int) =~= buffer_bytes(*old(dst)));
        assert(written.skip(data_length_offset as int) =~= frame@);
        // Encrypt written bytes
        let mut encryptor: Option<CipherState> = None;
        std::mem::swap(&mut encryptor, &mut self.encryptor);
        match encryptor {
            Some(mut state) => {
                let ghost old_register = state.register@;
                let next = encrypt_from(state.key.as_slice(), state.register.as_slice(), dst, data_length_offset);
                state.register = next;
                self.encryptor = Some(state);
                proof {
                    let f = buffer_bytes(*dst);
                    let o = written.skip(data_length_offset as int);
                    let c = f.skip(data_length_offset as int);
                    assert forall|i: int| 0 <= i < o.len() implies #[trigger] c[i] == o[i] ^ aes128_first_byte(
                        state.key@,
                        cfb8_register(old_register, c.take(i)),
                    ) by {
                        assert(c.take(i) =~= f.subrange(data_length_offset as int, data_length_offset + i));
                        assert(f[data_length_offset + i] == written[data_length_offset + i] ^ aes128_first_byte(
                            state.key@,
                            cfb8_register(old_register, f.subrange(data_length_offset as int, data_length_offset + i)),
                        ));
                    }
                    lemma_encrypt_unique(state.key@, old_register, o, c);
                    law_cfb8_roundtrip(state.key@, old_register, o);
                    assert(f =~= f.take(data_length_offset as int) + f.skip(data_length_offset as int));
                    assert(f.take(data_length_offset as int) == buffer_bytes(*old(dst)));
                    assert(next@ =~= (old_register + c).skip(c.len() as int));
                }
            },
            None => {},
        }
        Ok(())
    }
}

impl Default for Codec {
    /// A codec with neither compression nor encryption, at the default level.
    fn default() -> (r: Codec)
        ensures
            r.encryption() is None,
            r.decryption() is None,
            r.decrypted() == 0,
            r.threshold() is None,
            r.level() == 6,
    {
        Codec::new()
    }
}

/// Unpacks the body of a frame of a compressing codec.
fn unpack(body: &[u8]) -> (r: Result<Vec<u8>, Error>)
    ensures
        r matches Ok(p) ==> unpacked(body@, true) == Some(p@),
        r is Err <==> unpacked(body@, true) is None,
        r matches Err(e) ==> (e is VarIntTooWide <==> unpack_too_wide(body@, true)),
        r matches Err(Error::VarIntTooWide(w)) ==> w == 35,
{
    let mut data: &[u8] = body;
    let decompressed_data_length = match varint32_decode(&mut data) {
        Ok(n) => n,
        Err(e) => return Err(e),
    };
    if decompressed_data_length != 0 {
        match decompress(data) {
            Ok(d) => Ok(d),
            Err(e) => Err(Error::Io(e)),
        }
    } else {
        Ok(vstd::slice::slice_to_vec(data))
    }
}

impl Codec {
    /// Takes the next frame off the front of `src`, if it is all there.
    ///
    /// With encryption, the bytes not yet decrypted are first decrypted in
    /// place (CFB-8 under the decrypting key and shift register, which moves on
    /// past them); the frame is then read from the plain bytes as `decoding`
    /// says. Where unpacking fails the bytes stay in `src`.
    ///
    /// With encryption, a count of decrypted bytes past the end of `src` is
    /// left out: slicing the buffer from there would panic.
    #[verifier::spinoff_prover]
    pub fn decode(&mut self, src: &mut BytesMut) -> (r: Result<Option<Vec<u8>>, Error>)
        requires
            old(self).decryption() is Some ==> old(self).decrypted() <= buffer_bytes(*old(src)).len(),
        ensures
            final(self).encryption() == old(self).encryption(),
            final(self).threshold() == old(self).threshold(),
            final(self).level() == old(self).level(),
            match old(self).decryption() {
                None => {
                    &&& decoding(buffer_bytes(*old(src)), old(self).threshold() is Some, r, buffer_bytes(*final(src)))
                    &&& final(self).decryption() is None
                    &&& final(self).decrypted() == old(self).decrypted()
                },
                Some((key, iv)) => {
                    &&& final(self).decryption() is Some
                    &&& final(self).decryption().unwrap().0 == key
                    &&& decrypt_step(
                        key,
                        iv,
                        old(self).decrypted(),
                        buffer_bytes(*old(src)),
                        old(self).threshold() is Some,
                        r,
                        buffer_bytes(*final(src)),
                        final(self).decryption().unwrap().1,
                        final(self).decrypted(),
                    )
                },
            },
    {
        proof {
            use_type_invariant(&*self);
        }
        // Decrypt all not yet decrypted bytes
        let mut decryptor: Option<CipherState> = None;
        std::mem::swap(&mut decryptor, &mut self.decryptor);
        match decryptor {
            Some(mut state) => {
                let from = self.decrypted_bytes;
                let ghost old_register = state.register@;
                let ghost before = buffer_bytes(*src);
                let next = decrypt_from(state.key.as_slice(), state.register.as_slice(), src, from);
                state.register = next;
                self.decryptor = Some(state);
                proof {
                    let f = buffer_bytes(*src);
                    let sealed = before.skip(from as int);
                    let opened = cfb8_decrypt(state.key@, old_register, sealed);
                    assert forall|i: int| 0 <= i < sealed.len() implies #[trigger] f.skip(from as int)[i] == opened[i] by {
                        assert(sealed.take(i) =~= before.subrange(from as int, from + i));
                        assert(f[from + i] == before[from + i] ^ aes128_first_byte(
                            state.key@,
                            cfb8_register(old_register, before.subrange(from as int, from + i)),
                        ));
                    }
                    assert(f.skip(from as int) =~= opened);
                    assert(f =~= f.take(from as int) + f.skip(from as int));
                }
            },
            None => {},
        }
        if self.decryptor.is_some() {
            self.decrypted_bytes = buffer_len(src);
        }
        let ghost plain = buffer_bytes(*src);
        let total = buffer_len(src);
        let head_len = if total < 3 { total } else { 3 };
        let head = buffer_copy(src, 0, head_len);
        let mut data: &[u8] = head.as_slice();
        proof {
            if total < 3 {
                assert(head@ =~= plain);
            } else {
                lemma_varint_end_take(plain, 3, 3);
            }
            lemma_varint_end(plain, 3);
        }
        match varint21_decode(&mut data) {
            Ok(data_length) => {
                let consumed = head_len - data.len();
                let ghost n = consumed as nat;
                proof {
                    assert(head@.take(n as int) =~= plain.take(n as int));
                    lemma_groups_value_bound(plain.take(n as int));
                    lemma_pow128_small();
                }
                let length = data_length as usize;
                if total - consumed >= length {
                    let body = buffer_copy(src, consumed, consumed + length);
                    let packet = if self.compression_threshold.is_some() {
                        match unpack(body.as_slice()) {
                            Ok(p) => p,
                            Err(e) => return Err(e),
                        }
                    } else {
                        body
                    };
                    proof {
                        lemma_varint_bytes_len_le(length as nat, n);
                    }
                    let advance = varint32_length(data_length) + length;
                    // Advance, and correct decrypted bytes
                    buffer_advance(src, advance);
                    if self.decryptor.is_some() {
                        self.decrypted_bytes = buffer_len(src);
                    }
                    Ok(Some(packet))
                } else {
                    Ok(None)
                }
            },
            Err(error) => {
                if total - (head_len - data.len()) >= 3 {
                    Err(error)
                } else {
                    Ok(None)
                }
            },
        }
    }
}

// ---------------------------------------------------------------------------
// Laws
// ---------------------------------------------------------------------------

/// The VarInt encoding of `v` ends at its last byte and carries `v`.
proof fn lemma_varint_bytes_read(v: nat, rest: Seq<u8>, limit: nat)
    requires
        varint_bytes(v).len() <= limit,
    ensures
        varint_end(varint_bytes(v) + rest, limit) == Some(varint_bytes(v).len()),
        (varint_bytes(v) + rest).take(varint_bytes(v).len() as int) == varint_bytes(v),
        groups_value(varint_bytes(v)) == v,
    decreases v,
{
    let s = varint_bytes(v) + rest;
    assert(s.take(varint_bytes(v).len() as int) =~= varint_bytes(v));
    if v >= 128 {
        lemma_varint_bytes_read(v / 128, rest, (limit - 1) as nat);
        assert(s.drop_first() =~= varint_bytes(v / 128) + rest);
        assert(varint_bytes(v).drop_first() =~= varint_bytes(v / 128));
        assert(varint_bytes(v)[0] == (v % 128 + 128) as u8);
        assert(((v % 128 + 128) as u8) % 128 == v % 128);
        assert(v == v % 128 + 128 * (v / 128));
    } else {
        assert(groups_value(varint_bytes(v).drop_first()) == 0);
    }
}

/// VarInt round trip for 32 bits: what `varint32_encode` writes for a
/// non-negative `v`, followed by anything, `varint32_decode` reads back as
/// `v`, taking `varint32_length(v)` bytes.
pub proof fn law_varint32_roundtrip(v: i32, rest: Seq<u8>)
    requires
        v >= 0,
    ensures
        varint_end(varint_bytes(v as nat) + rest, 5) == Some(varint_bytes(v as nat).len()),
        varint32_value(varint_bytes(v as nat) + rest, varint_bytes(v as nat).len()) == v,
{
    lemma_varint_bytes_len(v as nat);
    lemma_varint_bytes_read(v as nat, rest, 5);
    let x = v as u32;
    assert(x as i32 == v) by (bit_vector)
        requires x == v as u32, v >= 0;
}

/// VarInt round trip for 21 bits: what `varint32_encode` writes for a value
/// below 2^21, followed by anything, `varint21_decode` reads back.
pub proof fn law_varint21_roundtrip(v: i32, rest: Seq<u8>)
    requires
        0 <= v < 0x20_0000,
    ensures
        varint_end(varint_bytes(v as nat) + rest, 3) == Some(varint_bytes(v as nat).len()),
        groups_value((varint_bytes(v as nat) + rest).take(varint_bytes(v as nat).len() as int)) == v,
{
    lemma_varint_bytes_len(v as nat);
    lemma_varint_bytes_read(v as nat, rest, 3);
}

/// Whether the frame of `item` carries its length without loss: the padded
/// header keeps 21 bits, the short header 14, and a compressed frame's length
/// must fit the three-byte VarInt that the decoder reads.
pub open spec fn frame_fits(item: Seq<u8>, threshold: Option<u16>, level: u32) -> bool {
    match threshold {
        None => item.len() < 0x20_0000,
        Some(t) => if item.len() > t {
            item.len() <= i32::MAX && varint_bytes(item.len()).len() + zlib_compress(item, level).unwrap().len()
                < 0x20_0000
        } else {
            item.len() + 1 < 0x4000
        },
    }
}

/// Whether the frame's length header is the minimal VarInt of its length,
/// so that the decoder advances past exactly the frame.
pub open spec fn frame_header_minimal(item: Seq<u8>, threshold: Option<u16>) -> bool {
    match threshold {
        None => item.len() >= 0x4000,
        Some(t) => item.len() > t || item.len() + 1 >= 0x80,
    }
}

/// The facts a decoder reads from a frame: where its header ends, the body
/// length it announces, and that the body unpacks to the item.
pub open spec fn frame_reads(b: Seq<u8>, compressed: bool, item: Seq<u8>, n: nat, len: nat) -> bool {
    &&& varint_end(b, 3) == Some(n)
    &&& groups_value(b.take(n as int)) == len
    &&& n + len <= b.len()
    &&& unpacked(b.subrange(n as int, (n + len) as int), compressed) == Some(item)
}

#[verifier::spinoff_prover]
#[verifier::rlimit(40)]
proof fn lemma_plain_frame(item: Seq<u8>, rest: Seq<u8>)
    requires
        item.len() < 0x20_0000,
    ensures
        frame_reads(plain_header(item.len()) + item + rest, false, item, 3, item.len()),
        item.len() >= 0x4000 ==> (plain_header(item.len()) + item + rest).skip(
            (varint_bytes(item.len()).len() + item.len()) as int,
        ) == rest,
{
    let len = item.len();
    let h = plain_header(len);
    let b = h + item + rest;
    assert(b[0] == h[0] && b[1] == h[1] && b[2] == h[2]);
    lemma_varint_end_at(b, 3, 2);
    let t = b.take(3);
    let t1 = t.drop_first();
    let t2 = t1.drop_first();
    let t3 = t2.drop_first();
    assert(t =~= h);
    assert(t3 =~= Seq::<u8>::empty());
    assert(groups_value(t3) == 0);
    assert(groups_value(t2) == (h[2] % 128) as nat);
    assert(groups_value(t1) == (h[1] % 128) as nat + 128 * groups_value(t2));
    assert(groups_value(t) == (h[0] % 128) as nat + 128 * groups_value(t1));
    assert(len == len % 128 + 128 * ((len / 128) % 128) + 0x4000 * ((len / 0x4000) % 128)) by (nonlinear_arith)
        requires len < 0x20_0000;
    assert(b.subrange(3, (3 + len) as int) =~= item);
    lemma_varint_bytes_len(len);
    if len >= 0x4000 {
        assert(b.skip((3 + len) as int) =~= rest);
    }
}

#[verifier::spinoff_prover]
#[verifier::rlimit(40)]
proof fn lemma_short_frame(item: Seq<u8>, rest: Seq<u8>)
    requires
        item.len() + 1 < 0x4000,
    ensures
        frame_reads(short_header(item.len() + 1) + item + rest, true, item, 2, item.len() + 1),
        item.len() + 1 >= 0x80 ==> (short_header(item.len() + 1) + item + rest).skip(
            (varint_bytes(item.len() + 1).len() + item.len() + 1) as int,
        ) == rest,
{
    let n = item.len() + 1;
    let h = short_header(n);
    let b = h + item + rest;
    assert(b[0] == h[0] && b[1] == h[1]);
    lemma_varint_end_at(b, 3, 1);
    let t = b.take(2);
    let t1 = t.drop_first();
    let t2 = t1.drop_first();
    assert(t2 =~= Seq::<u8>::empty());
    assert(groups_value(t2) == 0);
    assert(groups_value(t1) == (h[1] % 128) as nat);
    assert(groups_value(t) == (h[0] % 128) as nat + 128 * groups_value(t1));
    assert(n == n % 128 + 128 * ((n / 128) % 128)) by (nonlinear_arith)
        requires n < 0x4000;
    let body = b.subrange(2, (2 + n) as int);
    assert(body =~= seq![0u8] + item);
    lemma_varint_end_at(body, 5, 0);
    let z = body.take(1);
    assert(z.drop_first() =~= Seq::<u8>::empty());
    assert(groups_value(z.drop_first()) == 0);
    assert(z[0] == 0);
    assert(groups_value(z) == 0);
    assert(varint32_value(body, 1) == 0);
    assert(body.skip(1) =~= item);
    lemma_varint_bytes_len(n);
    if n >= 0x80 {
        assert(b.skip((2 + n) as int) =~= rest);
    }
}

#[verifier::spinoff_prover]
#[verifier::rlimit(40)]
proof fn lemma_compressed_frame(item: Seq<u8>, c: Seq<u8>, rest: Seq<u8>)
    requires
        0 < item.len() <= i32::MAX,
        varint_bytes(item.len()).len() + c.len() < 0x20_0000,
        zlib_decompress(c) == Some(item),
    ensures
        ({
            let total = varint_bytes(item.len()).len() + c.len();
            let b = varint_bytes(total) + varint_bytes(item.len()) + c + rest;
            &&& frame_reads(b, true, item, varint_bytes(total).len(), total)
            &&& b.skip((varint_bytes(total).len() + total) as int) == rest
        }),
{
    let len = item.len();
    let inner = varint_bytes(len) + c;
    let total = varint_bytes(len).len() + c.len();
    let b = varint_bytes(total) + varint_bytes(len) + c + rest;
    lemma_varint_bytes_len(total);
    lemma_varint_bytes_len(len);
    assert(b =~= varint_bytes(total) + (inner + rest));
    lemma_varint_bytes_read(total, inner + rest, 3);
    let hl = varint_bytes(total).len();
    assert(b.subrange(hl as int, (hl + total) as int) =~= inner);
    law_varint32_roundtrip(len as i32, c);
    assert(inner.skip(varint_bytes(len).len() as int) =~= c);
    assert(b.skip((hl + total) as int) =~= rest);
}

/// Frame round trip: decoding the plain frame that a codec writes for
/// `item`, followed by any bytes, gives `item` back; where the length header
/// is minimal the bytes after the frame are all that is left. (Where a
/// padded header is longer than the minimal VarInt, the decoder advances by
/// the minimal length and leaves the frame's last bytes behind.)
pub proof fn law_frame_roundtrip(
    item: Seq<u8>,
    threshold: Option<u16>,
    level: u32,
    rest: Seq<u8>,
    r: Result<Option<Vec<u8>>, Error>,
    left: Seq<u8>,
)
    requires
        frame_fits(item, threshold, level),
        over_threshold(item, threshold) ==> zlib_roundtrips(item, level),
        decoding(frame_bytes(item, threshold, level) + rest, threshold is Some, r, left),
    ensures
        r matches Ok(Some(p)) && p@ == item,
        frame_header_minimal(item, threshold) ==> left == rest,
{
    match threshold {
        None => {
            lemma_plain_frame(item, rest);
        },
        Some(t) => {
            if item.len() > t {
                let c = zlib_compress(item, level).unwrap();
                lemma_compressed_frame(item, c, rest);
                let total = varint_bytes(item.len()).len() + c.len();
                assert(frame_bytes(item, threshold, level) + rest =~= varint_bytes(total) + varint_bytes(item.len()) + c + rest);
            } else {
                lemma_short_frame(item, rest);
            }
        },
    }
}

/// Whether a decoding step's result is the frame `item`.
pub open spec fn gives(r: Result<Option<Vec<u8>>, Error>, item: Seq<u8>) -> bool {
    r matches Ok(Some(p)) && p@ == item
}

/// The frames of `items`, one after another.
pub open spec fn frames(items: Seq<Seq<u8>>, threshold: Option<u16>, level: u32) -> Seq<u8>
    decreases items.len(),
{
    if items.len() == 0 {
        Seq::empty()
    } else {
        frame_bytes(items[0], threshold, level) + frames(items.drop_first(), threshold, level)
    }
}

/// Whether every item of `items` has a frame that carries it without loss,
/// with a minimal length header, and compresses where it is compressed.
pub open spec fn frames_fit(items: Seq<Seq<u8>>, threshold: Option<u16>, level: u32) -> bool {
    forall|j: int|
        0 <= j < items.len() ==> {
            &&& frame_fits(#[trigger] items[j], threshold, level)
            &&& frame_header_minimal(items[j], threshold)
            &&& (over_threshold(items[j], threshold) ==> zlib_roundtrips(items[j], level))
        }
}

proof fn lemma_frames_steps(
    items: Seq<Seq<u8>>,
    threshold: Option<u16>,
    level: u32,
    rest: Seq<u8>,
    bufs: Seq<Seq<u8>>,
    results: Seq<Result<Option<Vec<u8>>, Error>>,
    k: nat,
)
    requires
        frames_fit(items, threshold, level),
        k <= items.len(),
        bufs.len() == items.len() + 1,
        results.len() == items.len(),
        bufs[0] == frames(items, threshold, level) + rest,
        forall|j: int| 0 <= j < items.len() ==> decoding(bufs[j], threshold is Some, results[j], #[trigger] bufs[j + 1]),
    ensures
        bufs[k as int] == frames(items.skip(k as int), threshold, level) + rest,
        forall|j: int| 0 <= j < k ==> #[trigger] gives(results[j], items[j]),
    decreases k,
{
    if k == 0 {
        assert(items.skip(0) =~= items);
    } else {
        let j = k - 1;
        lemma_frames_steps(items, threshold, level, rest, bufs, results, j as nat);
        let here = items.skip(j);
        assert(here[0] == items[j]);
        assert(here.drop_first() =~= items.skip(k as int));
        let after = frames(items.skip(k as int), threshold, level) + rest;
        assert(bufs[j] == frame_bytes(items[j], threshold, level) + after);
        assert(decoding(bufs[j], threshold is Some, results[j], bufs[j + 1]));
        law_frame_roundtrip(items[j], threshold, level, after, results[j], bufs[k as int]);
    }
}

/// Round trip of a stream of frames: where a buffer holds the frames of
/// `items` one after another, then any bytes `rest`, and each decoding step
/// takes the buffer that the step before left (`bufs[j]` to `bufs[j + 1]`),
/// the steps give the items in order, each taking exactly its own frame, and
/// `rest` is what is left. (It needs minimal length headers: see
/// `law_frame_roundtrip`.)
pub proof fn law_frames_roundtrip(
    items: Seq<Seq<u8>>,
    threshold: Option<u16>,
    level: u32,
    rest: Seq<u8>,
    bufs: Seq<Seq<u8>>,
    results: Seq<Result<Option<Vec<u8>>, Error>>,
)
    requires
        frames_fit(items, threshold, level),
        bufs.len() == items.len() + 1,
        results.len() == items.len(),
        bufs[0] == frames(items, threshold, level) + rest,
        forall|j: int| 0 <= j < items.len() ==> decoding(bufs[j], threshold is Some, results[j], #[trigger] bufs[j + 1]),
    ensures
        forall|j: int| 0 <= j < items.len() ==> #[trigger] gives(results[j], items[j]),
        forall|j: int|
            0 <= j <= items.len() ==> #[trigger] bufs[j] == frames(items.skip(j), threshold, level) + rest,
        bufs[items.len() as int] == rest,
{
    assert forall|j: int| 0 <= j <= items.len() implies #[trigger] bufs[j] == frames(
        items.skip(j),
        threshold,
        level,
    ) + rest by {
        lemma_frames_steps(items, threshold, level, rest, bufs, results, j as nat);
    }
    lemma_frames_steps(items, threshold, level, rest, bufs, results, items.len());
    assert(items.skip(items.len() as int) =~= Seq::<Seq<u8>>::empty());
    assert(frames(Seq::<Seq<u8>>::empty(), threshold, level) + rest =~= rest);
}

/// An empty buffer decodes to nothing, and stays empty.
pub proof fn law_empty_buffer(compressed: bool, r: Result<Option<Vec<u8>>, Error>, left: Seq<u8>)
    requires
        decoding(Seq::<u8>::empty(), compressed, r, left),
    ensures
        r matches Ok(None),
        left.len() == 0,
{
}

/// Encrypted round trip: where a decoder shares the key and starting shift
/// register `iv` with the encoder, and its buffer holds the ciphertext that
/// the encoder appended for `items` (none of it decrypted yet), its first
/// decoding step reads the plain frames of the items, and the steps after it
/// give the items in order. Frames encrypted one call at a time make the same
/// ciphertext (`law_cfb8_encrypt_chunks`), and ciphertext decrypted as it
/// arrives the same plaintext (`law_cfb8_decrypt_chunks`).
pub proof fn law_encrypted_roundtrip(
    key: Seq<u8>,
    iv: Seq<u8>,
    items: Seq<Seq<u8>>,
    threshold: Option<u16>,
    level: u32,
    bufs: Seq<Seq<u8>>,
    results: Seq<Result<Option<Vec<u8>>, Error>>,
)
    requires
        frames_fit(items, threshold, level),
        items.len() > 0,
        bufs.len() == items.len() + 1,
        results.len() == items.len(),
        ({
            let sealed = cfb8_encrypt(key, iv, frames(items, threshold, level));
            decoding(sealed.take(0) + cfb8_decrypt(key, iv, sealed.skip(0)), threshold is Some, results[0], bufs[1])
        }),
        forall|j: int| 1 <= j < items.len() ==> decoding(bufs[j], threshold is Some, results[j], #[trigger] bufs[j + 1]),
    ensures
        forall|j: int| 0 <= j < items.len() ==> #[trigger] gives(results[j], items[j]),
        bufs[items.len() as int].len() == 0,
{
    let plain = frames(items, threshold, level);
    let sealed = cfb8_encrypt(key, iv, plain);
    law_cfb8_roundtrip(key, iv, plain);
    assert(sealed.skip(0) =~= sealed);
    assert(sealed.take(0) + plain =~= plain + Seq::<u8>::empty());
    let bufs0 = bufs.update(0, plain + Seq::<u8>::empty());
    assert forall|j: int| 0 <= j < items.len() implies decoding(
        bufs0[j],
        threshold is Some,
        results[j],
        #[trigger] bufs0[j + 1],
    ) by {
        if j == 0 {
            assert(bufs0[0] == sealed.take(0) + cfb8_decrypt(key, iv, sealed.skip(0)));
        } else {
            assert(decoding(bufs[j], threshold is Some, results[j], bufs[j + 1]));
        }
    }
    law_frames_roundtrip(items, threshold, level, Seq::<u8>::empty(), bufs0, results);
    assert(bufs0[items.len() as int] == bufs[items.len() as int]);
}

/// What decoding leaves is a tail of what it read.
proof fn lemma_decoding_suffix(b: Seq<u8>, compressed: bool, r: Result<Option<Vec<u8>>, Error>, rest: Seq<u8>)
    requires
        decoding(b, compressed, r, rest),
    ensures
        rest.len() <= b.len(),
        rest == b.skip(b.len() - rest.len()),
{
    lemma_varint_end(b, 3);
    match varint_end(b, 3) {
        None => {
            assert(b.skip(0) =~= b);
        },
        Some(n) => {
            let len = groups_value(b.take(n as int));
            if b.len() < n + len {
                assert(b.skip(0) =~= b);
            } else {
                let body = b.subrange(n as int, (n + len) as int);
                match unpacked(body, compressed) {
                    Some(p) => {
                        lemma_groups_value_bound(b.take(n as int));
                        lemma_varint_bytes_len_le(len, n);
                    },
                    None => {
                        assert(b.skip(0) =~= b);
                    },
                }
            }
        },
    }
}

/// The first `k` chunks of `chunks`, one after another.
pub open spec fn joined(chunks: Seq<Seq<u8>>, k: nat) -> Seq<u8>
    decreases k,
{
    if k == 0 {
        Seq::empty()
    } else {
        joined(chunks, (k - 1) as nat) + chunks[k - 1]
    }
}

/// The plain bytes that decoding call `i` took off the buffer: what it read
/// (`opened`) less what it left.
pub open spec fn taken(
    key: Seq<u8>,
    registers: Seq<Seq<u8>>,
    counts: Seq<nat>,
    before: Seq<Seq<u8>>,
    after: Seq<Seq<u8>>,
    i: int,
) -> Seq<u8> {
    let o = opened(key, registers[i], counts[i], before[i]);
    o.take(o.len() - after[i].len())
}

/// The plain bytes that the first `k` decoding calls took off the buffer, in order.
pub open spec fn handed_out(
    key: Seq<u8>,
    registers: Seq<Seq<u8>>,
    counts: Seq<nat>,
    before: Seq<Seq<u8>>,
    after: Seq<Seq<u8>>,
    k: nat,
) -> Seq<u8>
    decreases k,
{
    if k == 0 {
        Seq::empty()
    } else {
        handed_out(key, registers, counts, before, after, (k - 1) as nat) + taken(
            key,
            registers,
            counts,
            before,
            after,
            k - 1,
        )
    }
}

proof fn lemma_decrypted_stream_upto(
    key: Seq<u8>,
    iv: Seq<u8>,
    compressed: bool,
    chunks: Seq<Seq<u8>>,
    before: Seq<Seq<u8>>,
    after: Seq<Seq<u8>>,
    registers: Seq<Seq<u8>>,
    counts: Seq<nat>,
    results: Seq<Result<Option<Vec<u8>>, Error>>,
    k: nat,
)
    requires
        1 <= k <= chunks.len(),
        before.len() == chunks.len(),
        after.len() == chunks.len(),
        results.len() == chunks.len(),
        registers.len() == chunks.len() + 1,
        counts.len() == chunks.len() + 1,
        registers[0] == iv,
        counts[0] == 0,
        before[0] == chunks[0],
        forall|j: int| 0 < j < chunks.len() ==> #[trigger] before[j] == after[j - 1] + chunks[j],
        forall|j: int|
            0 <= j < chunks.len() ==> decrypt_step(
                key,
                registers[j],
                counts[j],
                before[j],
                compressed,
                results[j],
                #[trigger] after[j],
                registers[j + 1],
                counts[j + 1],
            ),
    ensures
        handed_out(key, registers, counts, before, after, k) + after[k - 1] == cfb8_decrypt(
            key,
            iv,
            joined(chunks, k),
        ),
        registers[k as int] == cfb8_register(iv, joined(chunks, k)),
    decreases k,
{
    let j = k - 1;
    let o = opened(key, registers[j], counts[j], before[j]);
    assert(decrypt_step(key, registers[j], counts[j], before[j], compressed, results[j], after[j], registers[j + 1], counts[j + 1]));
    lemma_decoding_suffix(o, compressed, results[j], after[j]);
    let t = taken(key, registers, counts, before, after, j);
    assert(t + after[j] =~= o);
    let h = handed_out(key, registers, counts, before, after, k);
    if k == 1 {
        assert(before[0].take(0) =~= Seq::<u8>::empty());
        assert(before[0].skip(0) =~= before[0]);
        assert(joined(chunks, 0) =~= Seq::<u8>::empty());
        assert(joined(chunks, 1) =~= chunks[0]);
        assert(o =~= cfb8_decrypt(key, iv, chunks[0]));
        assert(handed_out(key, registers, counts, before, after, 0) =~= Seq::<u8>::empty());
        assert(h =~= t);
    } else {
        lemma_decrypted_stream_upto(key, iv, compressed, chunks, before, after, registers, counts, results, j as nat);
        let prev = handed_out(key, registers, counts, before, after, j as nat);
        let whole = joined(chunks, j as nat);
        assert(decrypt_step(
            key,
            registers[j - 1],
            counts[j - 1],
            before[j - 1],
            compressed,
            results[j - 1],
            after[j - 1],
            registers[j],
            counts[j],
        ));
        assert(before[j] == after[j - 1] + chunks[j]);
        assert(before[j].take(counts[j] as int) =~= after[j - 1]);
        assert(before[j].skip(counts[j] as int) =~= chunks[j]);
        law_cfb8_decrypt_chunks(key, iv, whole, chunks[j]);
        assert(joined(chunks, k) == whole + chunks[j]);
        assert(h + after[j] =~= prev + (after[j - 1] + cfb8_decrypt(key, registers[j], chunks[j])));
    }
}

/// The decrypting decoder over a stream: a decoder whose encryption was
/// turned on (key `key`, register `iv`) while its buffer was empty, and whose
/// caller only appends ciphertext between calls. Call `j` finds the buffer
/// `before[j]` (what call `j - 1` left, `after[j - 1]`, then the new chunk
/// `chunks[j]`), the register `registers[j]` and the count `counts[j]`, as
/// `decrypt_step` relates them to what it leaves. After every call, Ok or Err,
/// the decrypted count is the buffer's length, the plain bytes handed out so
/// far followed by the buffer are the CFB-8 decryption of all the ciphertext
/// received so far (each ciphertext byte decrypted once), and the register
/// has passed over all of it.
pub proof fn law_decrypted_stream(
    key: Seq<u8>,
    iv: Seq<u8>,
    compressed: bool,
    chunks: Seq<Seq<u8>>,
    before: Seq<Seq<u8>>,
    after: Seq<Seq<u8>>,
    registers: Seq<Seq<u8>>,
    counts: Seq<nat>,
    results: Seq<Result<Option<Vec<u8>>, Error>>,
)
    requires
        before.len() == chunks.len(),
        after.len() == chunks.len(),
        results.len() == chunks.len(),
        registers.len() == chunks.len() + 1,
        counts.len() == chunks.len() + 1,
        registers[0] == iv,
        counts[0] == 0,
        chunks.len() > 0 ==> before[0] == chunks[0],
        forall|j: int| 0 < j < chunks.len() ==> #[trigger] before[j] == after[j - 1] + chunks[j],
        forall|j: int|
            0 <= j < chunks.len() ==> decrypt_step(
                key,
                registers[j],
                counts[j],
                before[j],
                compressed,
                results[j],
                #[trigger] after[j],
                registers[j + 1],
                counts[j + 1],
            ),
    ensures
        forall|j: int| 0 <= j < chunks.len() ==> #[trigger] counts[j + 1] == after[j].len(),
        forall|k: int|
            1 <= k <= chunks.len() ==> #[trigger] handed_out(key, registers, counts, before, after, k as nat)
                + after[k - 1] == cfb8_decrypt(key, iv, joined(chunks, k as nat)),
        forall|k: int|
            0 <= k <= chunks.len() ==> #[trigger] registers[k] == cfb8_register(iv, joined(chunks, k as nat)),
{
    assert forall|j: int| 0 <= j < chunks.len() implies #[trigger] counts[j + 1] == after[j].len() by {
        assert(decrypt_step(key, registers[j], counts[j], before[j], compressed, results[j], after[j], registers[j + 1], counts[j + 1]));
    }
    assert forall|k: int| 1 <= k <= chunks.len() implies #[trigger] handed_out(
        key,
        registers,
        counts,
        before,
        after,
        k as nat,
    ) + after[k - 1] == cfb8_decrypt(key, iv, joined(chunks, k as nat)) by {
        lemma_decrypted_stream_upto(key, iv, compressed, chunks, before, after, registers, counts, results, k as nat);
    }
    assert forall|k: int| 0 <= k <= chunks.len() implies #[trigger] registers[k] == cfb8_register(
        iv,
        joined(chunks, k as nat),
    ) by {
        if k == 0 {
            lemma_register_empty(iv);
        } else {
            lemma_decrypted_stream_upto(key, iv, compressed, chunks, before, after, registers, counts, results, k as nat);
        }
    }
}

/// A prefix of `s` holds the VarInt that `s` starts with exactly where it is
/// at least as long; a shorter prefix holds no VarInt end.
proof fn lemma_varint_end_prefix(s: Seq<u8>, limit: nat, n: nat, k: nat)
    requires
        varint_end(s, limit) == Some(n),
        k <= s.len(),
    ensures
        k >= n ==> varint_end(s.take(k as int), limit) == Some(n),
        k < n ==> varint_end(s.take(k as int), limit) is None,
{
    lemma_varint_end(s, limit);
    let p = s.take(k as int);
    if k >= n {
        lemma_varint_end_at(p, limit, (n - 1) as nat);
    } else {
        lemma_varint_end_short(p, limit);
    }
}

/// A buffer that holds a complete length header but not all the bytes it
/// announces decodes to nothing and is left as it is.
proof fn lemma_prefix_waits(
    b: Seq<u8>,
    compressed: bool,
    n: nat,
    len: nat,
    k: nat,
    r: Result<Option<Vec<u8>>, Error>,
    left: Seq<u8>,
)
    requires
        varint_end(b, 3) == Some(n),
        groups_value(b.take(n as int)) == len,
        k < n + len,
        k <= b.len(),
        decoding(b.take(k as int), compressed, r, left),
    ensures
        r matches Ok(None),
        left == b.take(k as int),
{
    lemma_varint_end(b, 3);
    lemma_varint_end_prefix(b, 3, n, k);
    if k >= n {
        assert(b.take(k as int).take(n as int) =~= b.take(n as int));
    }
}

/// A frame that has partly arrived is waited for: decoding any proper prefix
/// of the frame that a codec writes for `item` (its header cut short, or its
/// body) gives nothing and leaves the bytes as they are, whether compression
/// is on or off and however long the length header is.
pub proof fn law_partial_frame_waits(
    item: Seq<u8>,
    threshold: Option<u16>,
    level: u32,
    k: nat,
    r: Result<Option<Vec<u8>>, Error>,
    left: Seq<u8>,
)
    requires
        frame_fits(item, threshold, level),
        over_threshold(item, threshold) ==> zlib_roundtrips(item, level),
        k < frame_bytes(item, threshold, level).len(),
        decoding(frame_bytes(item, threshold, level).take(k as int), threshold is Some, r, left),
    ensures
        r matches Ok(None),
        left == frame_bytes(item, threshold, level).take(k as int),
{
    let f = frame_bytes(item, threshold, level);
    let e = Seq::<u8>::empty();
    assert(f + e =~= f);
    match threshold {
        None => {
            lemma_plain_frame(item, e);
            lemma_prefix_waits(f, false, 3, item.len(), k, r, left);
        },
        Some(t) => {
            if item.len() > t {
                let c = zlib_compress(item, level).unwrap();
                lemma_compressed_frame(item, c, e);
                let total = varint_bytes(item.len()).len() + c.len();
                assert(f =~= varint_bytes(total) + varint_bytes(item.len()) + c + e);
                lemma_prefix_waits(f, true, varint_bytes(total).len(), total, k, r, left);
            } else {
                lemma_short_frame(item, e);
                lemma_prefix_waits(f, true, 2, item.len() + 1, k, r, left);
            }
        },
    }
}

/// When encoding fails, in terms of the item, the compressor's output and
/// the buffer: an item at or under the threshold (or with compression off)
/// is always written; one over it fails exactly where zlib reports an error,
/// where the length of what follows the frame's header passes `i32::MAX`, or
/// where the frame would take the buffer past `isize::MAX` bytes.
pub proof fn law_encode_succeeds(item: Seq<u8>, threshold: Option<u16>, level: u32, held: nat)
    ensures
        threshold is None || item.len() <= threshold.unwrap() ==> !encode_fails(item, threshold, level, held),
        threshold is Some && item.len() > threshold.unwrap() && zlib_compress(item, level) is None ==> encode_fails(
            item,
            threshold,
            level,
            held,
        ),
        threshold is Some && item.len() > threshold.unwrap() && zlib_compress(item, level) is Some ==> (
        encode_fails(item, threshold, level, held) <==> (varint_bytes(item.len()).len() + zlib_compress(
            item,
            level,
        ).unwrap().len() > i32::MAX || held + frame_bytes(item, threshold, level).len() > isize::MAX)),
{
    if threshold is Some && item.len() > threshold.unwrap() && zlib_compress(item, level) is Some {
        let c = zlib_compress(item, level).unwrap();
        let total = varint_bytes(item.len()).len() + c.len();
        assert(frame_bytes(item, threshold, level).len() == varint_bytes(total).len() + total);
    }
}

/// A length header wider than 21 bits: where the first three bytes all
/// carry the high bit, decoding consumes nothing; it waits while fewer than
/// six bytes are there, and from six on it is `Error::VarIntTooWide(21)`.
pub proof fn law_wide_header(b: Seq<u8>, compressed: bool, r: Result<Option<Vec<u8>>, Error>, left: Seq<u8>)
    requires
        b.len() >= 3,
        b[0] >= 128 && b[1] >= 128 && b[2] >= 128,
        decoding(b, compressed, r, left),
    ensures
        left == b,
        b.len() < 6 ==> r matches Ok(None),
        b.len() >= 6 ==> (r matches Err(Error::VarIntTooWide(w)) && w == 21),
{
    lemma_varint_end_at(b, 3, 2);
}

} // verus!
