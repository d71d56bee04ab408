//! WebSocket, in as little code as RFC 6455 allows.
//!
//! A WebSocket server needs three things the standard library does not give
//! it — SHA-1 and base64 for the opening handshake, and the frame codec —
//! and all three are short. The socket itself is read and written by the
//! program around this library; what is decided about bytes is here.
//!
//! Only what a browser or `URLSessionWebSocketTask` actually sends is
//! handled: text and binary frames, continuation frames, ping, pong and
//! close. Client frames are always masked and are refused if they are not,
//! as the RFC requires. Server frames are never masked.

use vstd::prelude::*;

verus! {

// ---------------------------------------------------------------------------
// base64 (RFC 4648, standard alphabet, padded)

/// The character standing for a six-bit value.
pub open spec fn b64_char(v: nat) -> char {
    if v < 26 {
        ((v + 65) as u32) as char
    } else if v < 52 {
        ((v - 26 + 97) as u32) as char
    } else if v < 62 {
        ((v - 52 + 48) as u32) as char
    } else if v == 62 {
        '+'
    } else {
        '/'
    }
}

/// One group of one to three bytes as four characters, `=` standing for
/// the sextets a short final group does not have.
pub open spec fn b64_group(g: Seq<u8>) -> Seq<char> {
    let b0 = g[0] as nat;
    let b1 = if g.len() > 1 {
        g[1] as nat
    } else {
        0
    };
    let b2 = if g.len() > 2 {
        g[2] as nat
    } else {
        0
    };
    let n = b0 * 65536 + b1 * 256 + b2;
    seq![
        b64_char(n / 262144),
        b64_char((n / 4096) % 64),
        if g.len() > 1 {
            b64_char((n / 64) % 64)
        } else {
            '='
        },
        if g.len() > 2 {
            b64_char(n % 64)
        } else {
            '='
        },
    ]
}

/// The base64 encoding of `d`, three bytes at a time.
pub open spec fn b64_spec(d: Seq<u8>) -> Seq<char>
    decreases d.len(),
{
    if d.len() == 0 {
        Seq::empty()
    } else if d.len() <= 3 {
        b64_group(d)
    } else {
        b64_group(d.take(3)) + b64_spec(d.skip(3))
    }
}

fn b64_char_exec(v: u32) -> (c: char)
    requires
        v < 64,
    ensures
        c == b64_char(v as nat),
{
    if v < 26 {
        ((v + 65) as u8) as char
    } else if v < 52 {
        ((v - 26 + 97) as u8) as char
    } else if v < 62 {
        ((v - 52 + 48) as u8) as char
    } else if v == 62 {
        '+'
    } else {
        '/'
    }
}

/// The base64 of the bytes before `i`, when `i` is a multiple of three,
/// followed by that of the rest, is that of the whole.
proof fn lemma_b64_split(d: Seq<u8>, i: int)
    requires
        0 <= i <= d.len(),
        i % 3 == 0,
    ensures
        b64_spec(d) == b64_spec(d.take(i)) + b64_spec(d.skip(i)),
    decreases i,
{
    if i == 0 {
        assert(d.take(0) =~= Seq::<u8>::empty());
        assert(d.skip(0) =~= d);
        assert(b64_spec(d.take(0)) =~= Seq::<char>::empty());
        assert(b64_spec(d) =~= b64_spec(d.take(0)) + b64_spec(d.skip(0)));
    } else {
        // peel the first group off both sides
        let rest = d.skip(3);
        assert(d.len() > 3 || d.len() == 3);
        lemma_b64_split(rest, i - 3);
        assert(rest.take(i - 3) =~= d.take(i).skip(3));
        assert(rest.skip(i - 3) =~= d.skip(i));
        assert(d.take(i).take(3) =~= d.take(3));
        if d.len() == 3 {
            assert(d.take(i) =~= d);
            assert(d.skip(i) =~= Seq::<u8>::empty());
            assert(b64_spec(d.skip(i)) =~= Seq::<char>::empty());
            assert(b64_spec(d) =~= b64_spec(d.take(i)) + b64_spec(d.skip(i)));
        } else {
            if i == 3 {
                assert(d.take(3) =~= d.take(i));
                assert(b64_spec(d.take(i)) == b64_group(d.take(3)));
                assert(rest =~= d.skip(i));
            } else {
                assert(b64_spec(d.take(i)) == b64_group(d.take(3)) + b64_spec(d.take(i).skip(3)));
            }
            assert(b64_spec(d) =~= b64_spec(d.take(i)) + b64_spec(d.skip(i)));
        }
    }
}

/// Encoding one more group extends the encoding of what came before it.
proof fn lemma_b64_step(d: Seq<u8>, i: int, len: int)
    requires
        0 <= i,
        i % 3 == 0,
        1 <= len <= 3,
        i + len <= d.len(),
        len < 3 ==> i + len == d.len(),
    ensures
        b64_spec(d.take(i + len)) == b64_spec(d.take(i)) + b64_group(d.subrange(i, i + len)),
{
    let t = d.take(i + len);
    let g = d.subrange(i, i + len);
    lemma_b64_split(t, i);
    assert(t.take(i) =~= d.take(i));
    assert(t.skip(i) =~= g);
    assert(b64_spec(g) == b64_group(g));
}

/// The six-bit value a base64 character stands for; padding counts as 0.
pub open spec fn b64_value(c: char) -> nat {
    let u = c as u32;
    if 65 <= u <= 90 {
        (u - 65) as nat
    } else if 97 <= u <= 122 {
        (u - 97 + 26) as nat
    } else if 48 <= u <= 57 {
        (u - 48 + 52) as nat
    } else if c == '+' {
        62
    } else if c == '/' {
        63
    } else {
        0
    }
}

/// Whether a character is of the standard base64 alphabet.
pub open spec fn b64_alphabet(c: char) -> bool {
    let u = c as u32;
    (65 <= u <= 90) || (97 <= u <= 122) || (48 <= u <= 57) || c == '+' || c == '/'
}

/// The bytes four characters decode to: three, or fewer when the group
/// ends in padding.
pub open spec fn b64_decode_group(g: Seq<char>) -> Seq<u8> {
    let n = b64_value(g[0]) * 262144 + b64_value(g[1]) * 4096 + b64_value(g[2]) * 64 + b64_value(g[3]);
    let bytes = seq![(n / 65536 % 256) as u8, (n / 256 % 256) as u8, (n % 256) as u8];
    if g[2] == '=' {
        bytes.take(1)
    } else if g[3] == '=' {
        bytes.take(2)
    } else {
        bytes
    }
}

/// Standard base64 decoding, four characters at a time.
pub open spec fn b64_decode(s: Seq<char>) -> Seq<u8>
    decreases s.len(),
{
    if s.len() < 4 {
        Seq::empty()
    } else {
        b64_decode_group(s.take(4)) + b64_decode(s.skip(4))
    }
}

proof fn lemma_b64_char(v: nat)
    requires
        v < 64,
    ensures
        b64_alphabet(b64_char(v)),
        b64_value(b64_char(v)) == v,
        b64_char(v) != '=',
{
    if v < 26 {
        assert(((v + 65) as u32) as char as u32 == v + 65);
    } else if v < 52 {
        assert(((v - 26 + 97) as u32) as char as u32 == v - 26 + 97);
    } else if v < 62 {
        assert(((v - 52 + 48) as u32) as char as u32 == v - 52 + 48);
    }
}

proof fn lemma_b64_group_round_trip(g: Seq<u8>)
    requires
        1 <= g.len() <= 3,
    ensures
        b64_decode_group(b64_group(g)) == g,
        b64_group(g).len() == 4,
        forall|i: int| 0 <= i < 4 ==> b64_alphabet(#[trigger] b64_group(g)[i]) || b64_group(g)[i] == '=',
        forall|i: int| 0 <= i < 4 ==> (#[trigger] b64_group(g)[i] == '=' <==> i > g.len()),
{
    let b0: u8 = g[0];
    let b1: u8 = if g.len() > 1 {
        g[1]
    } else {
        0
    };
    let b2: u8 = if g.len() > 2 {
        g[2]
    } else {
        0
    };
    let n: u32 = ((b0 as u32) * 65536 + (b1 as u32) * 256 + (b2 as u32)) as u32;
    assert(n / 262144 < 64 && (n / 4096) % 64 < 64 && (n / 64) % 64 < 64 && n % 64 < 64
        && (n / 262144) * 262144 + ((n / 4096) % 64) * 4096 + ((n / 64) % 64) * 64 + n % 64 == n
        && n / 65536 % 256 == b0 && n / 256 % 256 == b1 && n % 256 == b2
        && (b2 == 0 ==> (b1 == 0 ==> (n / 64) % 64 == 0 && n % 64 == 0))
        && (b2 == 0 ==> n % 64 == 0)) by (bit_vector)
        requires
            n == (b0 as u32) * 65536 + (b1 as u32) * 256 + (b2 as u32),
    ;
    let e = b64_group(g);
    lemma_b64_char((n / 262144) as nat);
    lemma_b64_char(((n / 4096) % 64) as nat);
    lemma_b64_char(((n / 64) % 64) as nat);
    lemma_b64_char((n % 64) as nat);
    assert(b64_value('=') == 0);
    let m = b64_value(e[0]) * 262144 + b64_value(e[1]) * 4096 + b64_value(e[2]) * 64 + b64_value(e[3]);
    assert(m == n);
    assert(b64_decode_group(e) =~= g);
}

/// The padding of base64 is exactly its trailing run of `(3 - n % 3) % 3`
/// `=` characters.
proof fn lemma_b64_padding(d: Seq<u8>)
    ensures
        b64_spec(d).len() == 4 * ((d.len() + 2) / 3),
        forall|i: int|
            0 <= i < b64_spec(d).len() ==> (#[trigger] b64_spec(d)[i] == '=' <==> i >= b64_spec(d).len() - (3
                - d.len() % 3) % 3),
    decreases d.len(),
{
    if d.len() == 0 {
    } else if d.len() <= 3 {
        lemma_b64_group_round_trip(d);
    } else {
        let g = d.take(3);
        let rest = d.skip(3);
        lemma_b64_group_round_trip(g);
        lemma_b64_padding(rest);
        let e = b64_group(g);
        let r = b64_spec(rest);
        let all = e + r;
        assert(b64_spec(d) == all);
        assert(rest.len() % 3 == d.len() % 3);
        let pad = (3 - d.len() % 3) % 3;
        assert(r.len() >= 4);
        assert forall|i: int| 0 <= i < all.len() implies (#[trigger] all[i] == '=' <==> i >= all.len() - pad) by {
            if i < 4 {
                assert(all[i] == e[i]);
                assert(e[i] != '=');
            } else {
                assert(all[i] == r[i - 4]);
            }
        }
    }
}

/// Base64 as RFC 4648 defines it: four characters for every three bytes or
/// part of three, only the standard alphabet and the padding `=`, and a
/// decoder gives back the bytes.
pub proof fn lemma_b64_round_trip(d: Seq<u8>)
    ensures
        b64_decode(b64_spec(d)) == d,
        b64_spec(d).len() == 4 * ((d.len() + 2) / 3),
        forall|i: int|
            0 <= i < b64_spec(d).len() ==> b64_alphabet(#[trigger] b64_spec(d)[i]) || b64_spec(d)[i] == '=',
        forall|i: int|
            0 <= i < b64_spec(d).len() ==> (#[trigger] b64_spec(d)[i] == '=' <==> i >= b64_spec(d).len() - (3
                - d.len() % 3) % 3),
    decreases d.len(),
{
    lemma_b64_padding(d);
    if d.len() == 0 {
        assert(b64_decode(Seq::<char>::empty()) =~= Seq::<u8>::empty());
    } else if d.len() <= 3 {
        lemma_b64_group_round_trip(d);
        let e = b64_group(d);
        assert(e.take(4) =~= e);
        assert(e.skip(4) =~= Seq::<char>::empty());
        assert(b64_decode(e.skip(4)) =~= Seq::<u8>::empty());
        assert(b64_decode(e) =~= d);
    } else {
        let g = d.take(3);
        let rest = d.skip(3);
        lemma_b64_group_round_trip(g);
        lemma_b64_round_trip(rest);
        let e = b64_group(g);
        let r = b64_spec(rest);
        let all = e + r;
        assert(b64_spec(d) == all);
        assert(all.take(4) =~= e);
        assert(all.skip(4) =~= r);
        assert(b64_decode(all) == b64_decode_group(e) + b64_decode(r));
        assert(g + rest =~= d);
        assert forall|i: int| 0 <= i < all.len() implies b64_alphabet(#[trigger] all[i]) || all[i] == '=' by {
            if i < 4 {
                assert(all[i] == e[i]);
            } else {
                assert(all[i] == r[i - 4]);
            }
        }

    }
}

/// The four characters of one group.
fn push_b64_group(out: &mut String, b0: u8, b1: u8, b2: u8, len: usize, Ghost(g): Ghost<Seq<u8>>)
    requires
        1 <= len <= 3,
        g.len() == len,
        g[0] == b0,
        len > 1 ==> g[1] == b1,
        len <= 1 ==> b1 == 0,
        len > 2 ==> g[2] == b2,
        len <= 2 ==> b2 == 0,
    ensures
        final(out)@ == old(out)@ + b64_group(g),
{
    let n: u32 = ((b0 as u32) << 16) | ((b1 as u32) << 8) | (b2 as u32);
    assert(n == (b0 as u32) * 65536 + (b1 as u32) * 256 + (b2 as u32)) by (bit_vector)
        requires
            n == ((b0 as u32) << 16) | ((b1 as u32) << 8) | (b2 as u32),
    ;
    assert((n >> 18) & 63 == n / 262144 && (n >> 12) & 63 == (n / 4096) % 64 && (n >> 6) & 63 == (
    n / 64) % 64 && n & 63 == n % 64) by (bit_vector)
        requires
            n < 16777216,
    ;
    crate::json::push_char(out, b64_char_exec((n >> 18) & 63));
    crate::json::push_char(out, b64_char_exec((n >> 12) & 63));
    if len > 1 {
        crate::json::push_char(out, b64_char_exec((n >> 6) & 63));
    } else {
        crate::json::push_char(out, '=');
    }
    if len > 2 {
        crate::json::push_char(out, b64_char_exec(n & 63));
    } else {
        crate::json::push_char(out, '=');
    }
    assert(final(out)@ =~= old(out)@ + b64_group(g));
}

/// Standard base64 with padding.
#[verifier::spinoff_prover]
#[verifier::rlimit(30)]
pub fn b64(data: &[u8]) -> (r: String)
    ensures
        r@ == b64_spec(data@),
{
    let n = data.len();
    let mut out = crate::json::string_with_capacity(if n / 3 < isize::MAX as usize / 8 {
        (n / 3 + 1) * 4
    } else {
        0
    });
    let mut i: usize = 0;
    while i < n
        invariant
            n == data@.len(),
            i <= n,
            i % 3 == 0 || i == n,
            out@ == b64_spec(data@.take(i as int)),
        decreases n - i,
    {
        let left = n - i;
        let len: usize = if left >= 3 {
            3
        } else {
            left
        };
        let b0 = data[i];
        let b1 = if len > 1 {
            data[i + 1]
        } else {
            0
        };
        let b2 = if len > 2 {
            data[i + 2]
        } else {
            0
        };
        let ghost g = data@.subrange(i as int, (i + len) as int);
        push_b64_group(&mut out, b0, b1, b2, len, Ghost(g));
        proof {
            lemma_b64_step(data@, i as int, len as int);
        }
        i = i + len;
        if len < 3 {
            assert(i == n);
        }
    }
    assert(data@.take(n as int) =~= data@);
    out
}


// ---------------------------------------------------------------------------
// SHA-1 (FIPS 180-4), for the handshake and for nothing else. It is here
// because RFC 6455 names it, not because anything is being secured.

/// `x` rotated left by `n` bits, `0 < n < 32`.
pub open spec fn rotl(x: u32, n: u32) -> u32 {
    (x << n) | (x >> (32 - n) as u32)
}

/// The message padded to whole 64-byte blocks: a one bit, zeros, and the
/// length in bits (modulo 2^64) as eight big-endian bytes.
pub open spec fn sha1_pad(m: Seq<u8>) -> Seq<u8> {
    let bits = ((m.len() * 8) % 0x1_0000_0000_0000_0000) as u64;
    m + seq![0x80u8] + Seq::new(((119 - (m.len() % 64) as int) % 64) as nat, |i: int| 0u8)
        + be64(bits)
}

pub open spec fn be64(x: u64) -> Seq<u8> {
    seq![
        (x >> 56u64) as u8,
        (x >> 48u64) as u8,
        (x >> 40u64) as u8,
        (x >> 32u64) as u8,
        (x >> 24u64) as u8,
        (x >> 16u64) as u8,
        (x >> 8u64) as u8,
        x as u8,
    ]
}

pub open spec fn be32(x: u32) -> Seq<u8> {
    seq![(x >> 24u32) as u8, (x >> 16u32) as u8, (x >> 8u32) as u8, x as u8]
}

/// The big-endian word at byte `k` of `m`.
pub open spec fn word_at(m: Seq<u8>, k: int) -> u32 {
    ((m[k] as u32) << 24u32) | ((m[k + 1] as u32) << 16u32) | ((m[k + 2] as u32) << 8u32) | (m[k
        + 3] as u32)
}

/// The message schedule `W_t` of the block starting at byte `base`.
pub open spec fn sched(m: Seq<u8>, base: int, t: nat) -> u32
    decreases t,
{
    if t < 16 {
        word_at(m, base + 4 * t)
    } else {
        rotl(
            sched(m, base, (t - 3) as nat) ^ sched(m, base, (t - 8) as nat) ^ sched(
                m,
                base,
                (t - 14) as nat,
            ) ^ sched(m, base, (t - 16) as nat),
            1,
        )
    }
}

/// The round function and constant of round `t`.
pub open spec fn f_k(t: nat, b: u32, c: u32, d: u32) -> (u32, u32) {
    if t < 20 {
        ((b & c) | ((!b) & d), 0x5A827999u32)
    } else if t < 40 {
        (b ^ c ^ d, 0x6ED9EBA1u32)
    } else if t < 60 {
        ((b & c) | (b & d) | (c & d), 0x8F1BBCDCu32)
    } else {
        (b ^ c ^ d, 0xCA62C1D6u32)
    }
}

/// Five working words.
pub type Sha1State = (u32, u32, u32, u32, u32);

/// One round.
pub open spec fn sha1_round(s: Sha1State, t: nat, w: u32) -> Sha1State {
    let (a, b, c, d, e) = s;
    let (f, k) = f_k(t, b, c, d);
    let tmp = rotl(a, 5).wrapping_add(f).wrapping_add(e).wrapping_add(k).wrapping_add(w);
    (tmp, a, rotl(b, 30), c, d)
}

/// The working words after the first `t` rounds over the block at `base`.
pub open spec fn sha1_rounds(m: Seq<u8>, base: int, s: Sha1State, t: nat) -> Sha1State
    decreases t,
{
    if t == 0 {
        s
    } else {
        sha1_round(sha1_rounds(m, base, s, (t - 1) as nat), (t - 1) as nat, sched(m, base, (t - 1) as nat))
    }
}

/// The hash value after the block at `base`.
pub open spec fn sha1_compress(m: Seq<u8>, base: int, h: Sha1State) -> Sha1State {
    let (a, b, c, d, e) = sha1_rounds(m, base, h, 80);
    (h.0.wrapping_add(a), h.1.wrapping_add(b), h.2.wrapping_add(c), h.3.wrapping_add(d), h.4.wrapping_add(e))
}

pub open spec fn sha1_init() -> Sha1State {
    (0x67452301u32, 0xEFCDAB89u32, 0x98BADCFEu32, 0x10325476u32, 0xC3D2E1F0u32)
}

/// The hash value after the first `n` blocks of `m`.
pub open spec fn sha1_blocks(m: Seq<u8>, n: nat) -> Sha1State
    decreases n,
{
    if n == 0 {
        sha1_init()
    } else {
        sha1_compress(m, 64 * (n - 1), sha1_blocks(m, (n - 1) as nat))
    }
}

/// The SHA-1 digest of `m`: the final hash value, word by word, big-endian.
pub open spec fn sha1_spec(m: Seq<u8>) -> Seq<u8> {
    let p = sha1_pad(m);
    let h = sha1_blocks(p, p.len() / 64);
    be32(h.0) + be32(h.1) + be32(h.2) + be32(h.3) + be32(h.4)
}

fn rotl_exec(x: u32, n: u32) -> (r: u32)
    requires
        0 < n < 32,
    ensures
        r == rotl(x, n),
{
    (x << n) | (x >> (32 - n))
}

/// Compress one block.
fn sha1_block(m: &Vec<u8>, base: usize, h: Sha1State) -> (r: Sha1State)
    requires
        base + 64 <= m@.len(),
    ensures
        r == sha1_compress(m@, base as int, h),
{
    let ml = m.len();
    let mut w: Vec<u32> = Vec::with_capacity(80);
    let mut i: usize = 0;
    while i < 16
        invariant
            ml == m@.len(),
            base + 64 <= m@.len(),
            i <= 16,
            w@.len() == i,
            forall|j: int| 0 <= j < i ==> #[trigger] w@[j] == sched(m@, base as int, j as nat),
        decreases 16 - i,
    {
        let k = base + 4 * i;
        let v: u32 = ((m[k] as u32) << 24) | ((m[k + 1] as u32) << 16) | ((m[k + 2] as u32) << 8) | (m[k + 3] as u32);
        w.push(v);
        i = i + 1;
    }
    while i < 80
        invariant
            16 <= i <= 80,
            w@.len() == i,
            forall|j: int| 0 <= j < i ==> #[trigger] w@[j] == sched(m@, base as int, j as nat),
        decreases 80 - i,
    {
        let v = rotl_exec(w[i - 3] ^ w[i - 8] ^ w[i - 14] ^ w[i - 16], 1);
        w.push(v);
        i = i + 1;
    }
    let (mut a, mut b, mut c, mut d, mut e) = h;
    let mut t: usize = 0;
    while t < 80
        invariant
            t <= 80,
            w@.len() == 80,
            forall|j: int| 0 <= j < 80 ==> #[trigger] w@[j] == sched(m@, base as int, j as nat),
            (a, b, c, d, e) == sha1_rounds(m@, base as int, h, t as nat),
        decreases 80 - t,
    {
        let (f, k) = if t < 20 {
            ((b & c) | ((!b) & d), 0x5A827999u32)
        } else if t < 40 {
            (b ^ c ^ d, 0x6ED9EBA1u32)
        } else if t < 60 {
            ((b & c) | (b & d) | (c & d), 0x8F1BBCDCu32)
        } else {
            (b ^ c ^ d, 0xCA62C1D6u32)
        };
        let tmp = rotl_exec(a, 5).wrapping_add(f).wrapping_add(e).wrapping_add(k).wrapping_add(w[t]);
        e = d;
        d = c;
        c = rotl_exec(b, 30);
        b = a;
        a = tmp;
        t = t + 1;
    }
    (h.0.wrapping_add(a), h.1.wrapping_add(b), h.2.wrapping_add(c), h.3.wrapping_add(d), h.4.wrapping_add(e))
}

/// Append the big-endian bytes of a word.
fn push_be32(out: &mut Vec<u8>, x: u32)
    ensures
        final(out)@ == old(out)@ + be32(x),
{
    out.push((x >> 24) as u8);
    out.push((x >> 16) as u8);
    out.push((x >> 8) as u8);
    out.push(x as u8);
    assert(final(out)@ =~= old(out)@ + be32(x));
}

/// The padded message.
#[verifier::spinoff_prover]
#[verifier::rlimit(40)]
fn sha1_padded(data: &[u8]) -> (m: Vec<u8>)
    ensures
        m@ == sha1_pad(data@),
        m@.len() % 64 == 0,
{
    let n = data.len();
    let mut m: Vec<u8> = Vec::with_capacity(n);
    let mut i: usize = 0;
    while i < n
        invariant
            n == data@.len(),
            i <= n,
            m@ == data@.take(i as int),
        decreases n - i,
    {
        m.push(data[i]);
        i = i + 1;
        assert(m@ =~= data@.take(i as int));
    }
    assert(data@.take(n as int) =~= data@);
    m.push(0x80u8);
    let ghost k: int = (119 - (n % 64) as int) % 64;
    let mut z: usize = 0;
    while m.len() % 64 != 56
        invariant
            k == (119 - (n % 64) as int) % 64,
            m@.len() == n + 1 + z,
            z <= k,
            m@ == data@ + seq![0x80u8] + Seq::new(z as nat, |j: int| 0u8),
        decreases k - z,
    {
        assert(z < k) by {
            if z == k {
                assert((n + 1 + k) % 64 == 56);
            }
        }
        m.push(0u8);
        z = z + 1;
        assert(m@ =~= data@ + seq![0x80u8] + Seq::new(z as nat, |j: int| 0u8));
    }
    assert(z == k) by {
        assert((n + 1 + z) % 64 == 56);
        assert(0 <= z <= k < 64);
    }
    let bits: u64 = (n as u64).wrapping_mul(8);
    assert(bits == ((data@.len() * 8) % 0x1_0000_0000_0000_0000) as u64);
    m.push((bits >> 56) as u8);
    m.push((bits >> 48) as u8);
    m.push((bits >> 40) as u8);
    m.push((bits >> 32) as u8);
    m.push((bits >> 24) as u8);
    m.push((bits >> 16) as u8);
    m.push((bits >> 8) as u8);
    m.push(bits as u8);
    assert(m@ =~= sha1_pad(data@));
    m
}

/// The SHA-1 digest.
pub fn sha1(data: &[u8]) -> (r: [u8; 20])
    ensures
        r@ == sha1_spec(data@),
{
    let m = sha1_padded(data);
    let ml = m.len();
    let nb = ml / 64;
    let mut h: Sha1State = (0x67452301u32, 0xEFCDAB89u32, 0x98BADCFEu32, 0x10325476u32, 0xC3D2E1F0u32);
    let mut blk: usize = 0;
    while blk < nb
        invariant
            nb == m@.len() / 64,
            ml == m@.len(),
            m@.len() % 64 == 0,
            blk <= nb,
            h == sha1_blocks(m@, blk as nat),
        decreases nb - blk,
    {
        h = sha1_block(&m, 64 * blk, h);
        blk = blk + 1;
    }
    let mut out: Vec<u8> = Vec::with_capacity(20);
    push_be32(&mut out, h.0);
    push_be32(&mut out, h.1);
    push_be32(&mut out, h.2);
    push_be32(&mut out, h.3);
    push_be32(&mut out, h.4);
    let r: [u8; 20] = [
        out[0], out[1], out[2], out[3], out[4], out[5], out[6], out[7], out[8], out[9],
        out[10], out[11], out[12], out[13], out[14], out[15], out[16], out[17], out[18], out[19],
    ];
    assert(r@ =~= out@);
    r
}


// ---------------------------------------------------------------------------
// Frames

/// Largest client frame accepted. A deploy is source text; nothing
/// legitimate approaches this, and without a bound a bad frame header asks
/// for four gigabytes.
pub const MAX_FRAME: u64 = 8 << 20;

/// A frame's worth of application data.
pub enum Msg {
    Text(String),
    Binary(Vec<u8>),
    Ping(Vec<u8>),
    Pong(Vec<u8>),
    Close,
}

/// The head of one unfragmented, unmasked server frame: FIN and the opcode,
/// then the payload length in the shortest of its three forms.
pub open spec fn frame_head_spec(opcode: u8, n: nat) -> Seq<u8> {
    if n < 126 {
        seq![0x80u8 | opcode, n as u8]
    } else if n <= 0xFFFF {
        seq![0x80u8 | opcode, 126u8, (n / 256) as u8, (n % 256) as u8]
    } else {
        seq![0x80u8 | opcode, 127u8] + be64(n as u64)
    }
}

/// One whole server frame: its head, then the payload as it is.
pub fn encode_frame(opcode: u8, payload: &[u8]) -> (r: Vec<u8>)
    ensures
        r@ == frame_head_spec(opcode, payload@.len()) + payload@,
{
    let n = payload.len();
    let mut out: Vec<u8> = Vec::with_capacity(10);
    out.push(0x80u8 | opcode);
    if n < 126 {
        out.push(n as u8);
    } else if n <= 0xFFFF {
        out.push(126u8);
        out.push((n / 256) as u8);
        out.push((n % 256) as u8);
    } else {
        out.push(127u8);
        let x = n as u64;
        out.push((x >> 56) as u8);
        out.push((x >> 48) as u8);
        out.push((x >> 40) as u8);
        out.push((x >> 32) as u8);
        out.push((x >> 24) as u8);
        out.push((x >> 16) as u8);
        out.push((x >> 8) as u8);
        out.push(x as u8);
    }
    assert(out@ =~= frame_head_spec(opcode, n as nat));
    let ghost head = out@;
    let mut i: usize = 0;
    while i < n
        invariant
            n == payload@.len(),
            i <= n,
            out@ == head + payload@.take(i as int),
        decreases n - i,
    {
        out.push(payload[i]);
        i = i + 1;
        assert(out@ =~= head + payload@.take(i as int));
    }
    assert(payload@.take(n as int) =~= payload@);
    out
}

/// A text frame carrying `s`.
pub fn text_frame(s: &str) -> (r: Vec<u8>)
    ensures
        r@ == frame_head_spec(0x1, vstd::utf8::encode_utf8(s@).len()) + vstd::utf8::encode_utf8(s@),
{
    encode_frame(0x1, s.as_bytes())
}

/// A close frame with status 1000, normal closure.
pub fn close_frame() -> (r: Vec<u8>)
    ensures
        r@ == frame_head_spec(0x8, 2) + seq![0x03u8, 0xE8u8],
{
    let code: [u8; 2] = [0x03u8, 0xE8u8];
    assert(code@ =~= seq![0x03u8, 0xE8u8]);
    encode_frame(0x8, &code)
}

/// The first two bytes of a client frame, read.
pub struct FrameHead {
    pub fin: bool,
    pub opcode: u8,
    pub masked: bool,
    /// The seven-bit length: the length itself below 126, else which
    /// extended form follows (126: two bytes, 127: eight).
    pub len7: u8,
}

pub fn parse_head(h0: u8, h1: u8) -> (r: FrameHead)
    ensures
        r.fin == (h0 & 0x80 != 0),
        r.opcode == h0 & 0x0F,
        r.masked == (h1 & 0x80 != 0),
        r.len7 == h1 & 0x7F,
        r.opcode < 16,
        r.len7 < 128,
{
    assert(h0 & 0x0F < 16 && h1 & 0x7F < 128) by (bit_vector);
    FrameHead { fin: h0 & 0x80 != 0, opcode: h0 & 0x0F, masked: h1 & 0x80 != 0, len7: h1 & 0x7F }
}

/// How many bytes of extended length follow the first two.
pub fn ext_len_bytes(len7: u8) -> (n: usize)
    ensures
        n == (if len7 == 126 {
            2usize
        } else if len7 == 127 {
            8usize
        } else {
            0usize
        }),
{
    if len7 == 126 {
        2
    } else if len7 == 127 {
        8
    } else {
        0
    }
}

/// The value of big-endian bytes.
pub open spec fn be_value(b: Seq<u8>) -> nat
    decreases b.len(),
{
    if b.len() == 0 {
        0
    } else {
        be_value(b.drop_last()) * 256 + b.last() as nat
    }
}

/// The payload length: the seven-bit length, or the extended length that
/// follows it.
pub fn payload_len(len7: u8, ext: &[u8]) -> (n: u64)
    requires
        len7 < 128,
        ext@.len() == (if len7 == 126 {
            2int
        } else if len7 == 127 {
            8int
        } else {
            0int
        }),
    ensures
        n as nat == (if len7 < 126 {
            len7 as nat
        } else {
            be_value(ext@)
        }),
{
    if len7 < 126 {
        return len7 as u64;
    }
    let k = ext.len();
    let mut v: u64 = 0;
    let mut i: usize = 0;
    while i < k
        invariant
            k == ext@.len(),
            k <= 8,
            i <= k,
            v as nat == be_value(ext@.take(i as int)),
            (v as nat) < pow256(i as nat),
        decreases k - i,
    {
        proof {
            assert(ext@.take(i + 1).drop_last() =~= ext@.take(i as int));
            lemma_pow256_bound(i as nat);
        }
        v = v * 256 + ext[i] as u64;
        i = i + 1;
    }
    assert(ext@.take(k as int) =~= ext@);
    v
}

pub open spec fn pow256(i: nat) -> nat
    decreases i,
{
    if i == 0 {
        1
    } else {
        256 * pow256((i - 1) as nat)
    }
}

proof fn lemma_pow256_bound(i: nat)
    requires
        i < 8,
    ensures
        pow256(i) * 256 <= 0x1_0000_0000_0000_0000,
{
    reveal_with_fuel(pow256, 9);
    assert(pow256(7) == 0x100_0000_0000_0000);
    if i < 7 {
        assert(pow256(i) <= pow256(6));
    }
}

/// The big-endian bytes of a 64-bit number have its value.
proof fn lemma_be64_value(n: u64)
    ensures
        be_value(be64(n)) == n as nat,
{
    let b = be64(n);
    assert(b.take(1).drop_last() =~= Seq::<u8>::empty());
    assert forall|k: int| 1 <= k <= 8 implies #[trigger] b.take(k).drop_last() =~= b.take(k - 1) by {}
    assert(b.take(8) =~= b);
    assert(((n >> 56u64) as u8) as u64 == n >> 56u64) by (bit_vector);
    assert(n >> 48u64 == (n >> 56u64) * 256 + ((n >> 48u64) as u8) as u64) by (bit_vector);
    assert(n >> 40u64 == (n >> 48u64) * 256 + ((n >> 40u64) as u8) as u64) by (bit_vector);
    assert(n >> 32u64 == (n >> 40u64) * 256 + ((n >> 32u64) as u8) as u64) by (bit_vector);
    assert(n >> 24u64 == (n >> 32u64) * 256 + ((n >> 24u64) as u8) as u64) by (bit_vector);
    assert(n >> 16u64 == (n >> 24u64) * 256 + ((n >> 16u64) as u8) as u64) by (bit_vector);
    assert(n >> 8u64 == (n >> 16u64) * 256 + ((n >> 8u64) as u8) as u64) by (bit_vector);
    assert(n == (n >> 8u64) * 256 + (n as u8) as u64) by (bit_vector);
    assert(be_value(Seq::<u8>::empty()) == 0);
    assert(b.take(1).last() == b[0]);
    assert(be_value(b.take(1)) == (n >> 56u64) as nat);
    assert(be_value(b.take(2)) == (n >> 48u64) as nat);
    assert(be_value(b.take(3)) == (n >> 40u64) as nat);
    assert(be_value(b.take(4)) == (n >> 32u64) as nat);
    assert(be_value(b.take(5)) == (n >> 24u64) as nat);
    assert(be_value(b.take(6)) == (n >> 16u64) as nat);
    assert(be_value(b.take(7)) == (n >> 8u64) as nat);
    assert(be_value(b.take(8)) == n as nat);
}

/// What the codec writes, it reads back: the head of a server frame is
/// final, carries its opcode, is never masked, and a reader that takes the
/// seven-bit length and the extended length after it gets the payload's
/// length.
pub proof fn lemma_frame_head_round_trip(opcode: u8, n: u64)
    requires
        opcode < 16,
    ensures
        ({
            let h = frame_head_spec(opcode, n as nat);
            let len7 = h[1] & 0x7F;
            &&& h[0] & 0x80 != 0
            &&& h[0] & 0x0F == opcode
            &&& h[1] & 0x80 == 0
            &&& h.len() == 2 + (if len7 == 126 {
                2int
            } else if len7 == 127 {
                8int
            } else {
                0int
            })
            &&& (if len7 < 126 {
                len7 as nat
            } else {
                be_value(h.skip(2))
            }) == n as nat
        }),
{
    let h = frame_head_spec(opcode, n as nat);
    assert((0x80u8 | opcode) & 0x80 != 0 && (0x80u8 | opcode) & 0x0F == opcode) by (bit_vector)
        requires
            opcode < 16,
    ;
    if n < 126 {
        assert(((n as u8) & 0x80 == 0) && ((n as u8) & 0x7F) as u64 == n) by (bit_vector)
            requires
                n < 126,
        ;
    } else if n <= 0xFFFF {
        assert(126u8 & 0x80 == 0 && 126u8 & 0x7F == 126) by (bit_vector);
        let e = h.skip(2);
        assert(e =~= seq![(n / 256) as u8, (n % 256) as u8]);
        assert(((n / 256) as u8) as u64 == n / 256 && ((n % 256) as u8) as u64 == n % 256) by (bit_vector)
            requires
                n <= 0xFFFF,
        ;
        assert(e.drop_last().drop_last() =~= Seq::<u8>::empty());
        assert(be_value(Seq::<u8>::empty()) == 0);
        assert(e.drop_last().last() == (n / 256) as u8);
        assert(be_value(e.drop_last()) == (n / 256) as nat);
    } else {
        assert(127u8 & 0x80 == 0 && 127u8 & 0x7F == 127) by (bit_vector);
        assert(h.skip(2) =~= be64(n));
        lemma_be64_value(n);
    }
}

/// Why a client frame is refused before its payload is read: too large, or
/// not masked (RFC 6455 §5.1: a server must close on an unmasked client
/// frame).
pub fn check_frame(len: u64, masked: bool) -> (r: Option<&'static str>)
    ensures
        match r {
            Some(m) => (len > MAX_FRAME && m@ == "frame larger than the accepted maximum"@) || (len
                <= MAX_FRAME && !masked && m@ == "client frame was not masked"@),
            None => len <= MAX_FRAME && masked,
        },
{
    if len > MAX_FRAME {
        return Some("frame larger than the accepted maximum");
    }
    if !masked {
        return Some("client frame was not masked");
    }
    None
}

/// Undo the client's masking: byte `i` is XORed with mask byte `i mod 4`.
pub fn unmask(payload: &mut Vec<u8>, mask: &[u8; 4])
    ensures
        final(payload)@.len() == old(payload)@.len(),
        forall|i: int| 0 <= i < old(payload)@.len() ==> #[trigger] final(payload)@[i] == old(payload)@[i]
            ^ mask@[i % 4],
{
    let n = payload.len();
    let mut i: usize = 0;
    while i < n
        invariant
            n == payload@.len(),
            n == old(payload)@.len(),
            i <= n,
            forall|j: int| 0 <= j < i ==> #[trigger] payload@[j] == old(payload)@[j] ^ mask@[j % 4],
            forall|j: int| i <= j < n ==> #[trigger] payload@[j] == old(payload)@[j],
        decreases n - i,
    {
        assert(i & 3 == i % 4) by (bit_vector);
        let b = payload[i] ^ mask[i & 3];
        payload.set(i, b);
        i = i + 1;
    }
}

// ---------------------------------------------------------------------------
// Reassembling a message

/// `String::from_utf8`: the text the bytes encode, if they are valid UTF-8.
#[verifier::external_body]
fn string_from_utf8(b: Vec<u8>) -> (r: Option<String>)
    ensures
        match r {
            Some(s) => vstd::utf8::valid_utf8(b@) && s@ == vstd::utf8::decode_utf8(b@),
            None => !vstd::utf8::valid_utf8(b@),
        },
{
    String::from_utf8(b).ok()
}

/// A message being put together from its frames.
pub struct Assembly {
    acc: Vec<u8>,
    text: bool,
}

/// What one frame does to a message in progress.
pub enum Fed {
    /// More frames are needed.
    More,
    /// A whole message.
    Done(Msg),
    /// A protocol error; the connection is to be closed.
    Bad(String),
}

/// `0x` and the hex digits of `v` without leading zeros, as `{:#x}` prints.
pub open spec fn hex_text(v: nat) -> Seq<char>
    decreases v,
{
    if v < 16 {
        seq![crate::json::hex_char(v)]
    } else {
        hex_text(v / 16).push(crate::json::hex_char(v % 16))
    }
}

fn push_hex(s: &mut String, v: u8)
    ensures
        final(s)@ == old(s)@ + hex_text(v as nat),
    decreases v,
{
    if v >= 16 {
        push_hex(s, v / 16);
    }
    crate::json::push_char(s, crate::json::hex_digit(v % 16));
    assert(final(s)@ =~= old(s)@ + hex_text(v as nat));
}

impl View for Assembly {
    type V = (Seq<u8>, bool);

    closed spec fn view(&self) -> (Seq<u8>, bool) {
        (self.acc@, self.text)
    }
}

impl Assembly {
    pub fn new() -> (a: Assembly)
        ensures
            a@ == (Seq::<u8>::empty(), false),
    {
        Assembly { acc: Vec::new(), text: false }
    }

    /// Take one frame. Text and binary frames start a message, continuation
    /// frames extend it, and a final frame completes it. Close, ping and pong
    /// are answered at once, whatever is in progress.
    pub fn feed(&mut self, fin: bool, opcode: u8, payload: Vec<u8>) -> (r: Fed)
        requires
            opcode < 16,
        ensures
            ({
                let (acc, text) = old(self)@;
                match r {
                    Fed::Done(Msg::Close) => opcode == 8,
                    Fed::Done(Msg::Ping(p)) => opcode == 9 && p@ == payload@,
                    Fed::Done(Msg::Pong(p)) => opcode == 0xA && p@ == payload@,
                    Fed::Done(Msg::Text(t)) => fin && ({
                        let (a2, t2) = assembled(acc, text, opcode, payload@);
                        &&& (opcode == 0 || opcode == 1 || opcode == 2)
                        &&& !(opcode == 0 && acc.len() == 0 && !text)
                        &&& t2
                        &&& vstd::utf8::valid_utf8(a2)
                        &&& t@ == vstd::utf8::decode_utf8(a2)
                    }),
                    Fed::Done(Msg::Binary(b)) => fin && ({
                        let (a2, t2) = assembled(acc, text, opcode, payload@);
                        &&& (opcode == 0 || opcode == 1 || opcode == 2)
                        &&& !(opcode == 0 && acc.len() == 0 && !text)
                        &&& !t2
                        &&& b@ == a2
                    }),
                    Fed::More => !fin && (opcode == 0 || opcode == 1 || opcode == 2) && !(opcode == 0
                        && acc.len() == 0 && !text) && final(self)@ == assembled(acc, text, opcode, payload@)
                        && final(self)@.0.len() <= MAX_FRAME,
                    Fed::Bad(m) => if opcode == 0 && acc.len() == 0 && !text {
                        m@ == "continuation without a start frame"@
                    } else if !(opcode == 0 || opcode == 1 || opcode == 2 || opcode == 8 || opcode == 9
                        || opcode == 0xA) {
                        m@ == "unknown opcode "@ + seq!['0', 'x'] + hex_text(opcode as nat)
                    } else if fin {
                        assembled(acc, text, opcode, payload@).1 && !vstd::utf8::valid_utf8(
                            assembled(acc, text, opcode, payload@).0,
                        ) && m@ == "text frame was not valid utf-8"@
                    } else {
                        assembled(acc, text, opcode, payload@).0.len() > MAX_FRAME
                            && m@ == "reassembled message too large"@
                    },
                }
            }),
            final(self)@ == after_frame(old(self)@.0, old(self)@.1, fin, opcode, payload@),
            // Close, ping and pong are answered whatever their size or FIN bit.
            opcode == 8 ==> r matches Fed::Done(Msg::Close),
            opcode == 9 ==> (r matches Fed::Done(Msg::Ping(p)) && p@ == payload@),
            opcode == 0xA ==> (r matches Fed::Done(Msg::Pong(p)) && p@ == payload@),
    {
        let mut payload = payload;
        if opcode == 0 {
            if self.acc.len() == 0 && !self.text {
                return Fed::Bad(String::from_str("continuation without a start frame"));
            }
            self.acc.append(&mut payload);
        } else if opcode == 1 {
            self.text = true;
            self.acc = payload;
        } else if opcode == 2 {
            self.text = false;
            self.acc = payload;
        } else if opcode == 8 {
            return Fed::Done(Msg::Close);
        } else if opcode == 9 {
            return Fed::Done(Msg::Ping(payload));
        } else if opcode == 0xA {
            return Fed::Done(Msg::Pong(payload));
        } else {
            let mut m = String::from_str("unknown opcode ");
            crate::json::push_char(&mut m, '0');
            crate::json::push_char(&mut m, 'x');
            push_hex(&mut m, opcode);
            assert(m@ =~= "unknown opcode "@ + seq!['0', 'x'] + hex_text(opcode as nat));
            return Fed::Bad(m);
        }
        if fin {
            let mut acc: Vec<u8> = Vec::new();
            std::mem::swap(&mut acc, &mut self.acc);
            let text = self.text;
            self.text = false;
            if text {
                return match string_from_utf8(acc) {
                    Some(t) => Fed::Done(Msg::Text(t)),
                    None => Fed::Bad(String::from_str("text frame was not valid utf-8")),
                };
            } else {
                return Fed::Done(Msg::Binary(acc));
            }
        }
        if self.acc.len() as u64 > MAX_FRAME {
            return Fed::Bad(String::from_str("reassembled message too large"));
        }
        Fed::More
    }
}

/// The message in progress after any frame: a refused continuation, a
/// control frame or an unknown opcode leaves it as it was; a final data
/// frame completes it, and the next message starts afresh; any other data
/// frame extends or restarts it.
pub open spec fn after_frame(acc: Seq<u8>, text: bool, fin: bool, opcode: u8, payload: Seq<u8>) -> (Seq<u8>, bool) {
    if opcode == 0 && acc.len() == 0 && !text {
        (acc, text)
    } else if !(opcode == 0 || opcode == 1 || opcode == 2) {
        (acc, text)
    } else if fin {
        (Seq::empty(), false)
    } else {
        assembled(acc, text, opcode, payload)
    }
}

/// The message in progress after a data frame: a continuation appends, a
/// text or binary frame starts afresh.
pub open spec fn assembled(acc: Seq<u8>, text: bool, opcode: u8, payload: Seq<u8>) -> (Seq<u8>, bool) {
    if opcode == 0 {
        (acc + payload, text)
    } else if opcode == 1 {
        (payload, true)
    } else {
        (payload, false)
    }
}


// ---------------------------------------------------------------------------
// What the connection does with a message

/// What a connection does with a message it has read.
pub enum ReadAction {
    /// The peer closed: stop reading.
    Stop,
    /// Answer a ping with a pong carrying the same payload.
    Pong(Vec<u8>),
    /// Push this error frame: the message is of a kind this protocol refuses.
    Refuse(String),
    /// One request: every text frame is exactly one.
    Request(String),
    /// Nothing to do.
    Ignore,
}

/// The error frame that refuses a binary message.
pub open spec fn binary_refusal() -> Seq<char> {
    crate::json::frame_text(
        seq!['e', 'r', 'r', 'o', 'r'],
        seq![','] + crate::json::field_str_text(seq!['c', 'o', 'd', 'e'], "binary"@) + seq![',']
            + crate::json::field_str_text(
            seq!['m', 'e', 's', 's', 'a', 'g', 'e'],
            "requests are text frames; this protocol has no binary form"@,
        ),
    )
}

/// Decide what to do with a message: a close stops the connection, a ping
/// is answered with its own payload, a pong is ignored, a binary message is
/// refused, and a text message is one request.
pub fn on_message(m: Msg) -> (a: ReadAction)
    ensures
        match m {
            Msg::Close => a is Stop,
            Msg::Ping(p) => a matches ReadAction::Pong(q) && q@ == p@,
            Msg::Pong(_) => a is Ignore,
            Msg::Binary(_) => a matches ReadAction::Refuse(e) && e@ == binary_refusal(),
            Msg::Text(t) => a matches ReadAction::Request(r) && r@ == t@,
        },
{
    match m {
        Msg::Close => ReadAction::Stop,
        Msg::Ping(p) => ReadAction::Pong(p),
        Msg::Pong(_) => ReadAction::Ignore,
        Msg::Binary(_) => ReadAction::Refuse(
            crate::proto::push_error(
                "binary",
                "requests are text frames; this protocol has no binary form",
            ),
        ),
        Msg::Text(t) => ReadAction::Request(t),
    }
}

// ---------------------------------------------------------------------------
// The opening handshake

/// The RFC 6455 GUID, appended to the client's key before hashing.
pub open spec fn guid() -> Seq<char> {
    "258EAFA5-E914-47DA-95CA-C5AB0DC85B11"@
}

/// The longest opening head read before the connection is given up, so a
/// client that never finishes one cannot exhaust memory.
pub const MAX_HEAD: usize = 16384;

/// Whether the bytes read so far end the HTTP head: a blank line.
pub fn head_complete(buf: &[u8]) -> (b: bool)
    ensures
        b == (buf@.len() >= 4 && buf@.skip(buf@.len() - 4) == seq![13u8, 10u8, 13u8, 10u8]),
{
    let n = buf.len();
    if n < 4 {
        return false;
    }
    let r = buf[n - 4] == 13 && buf[n - 3] == 10 && buf[n - 2] == 13 && buf[n - 1] == 10;
    proof {
        let t = buf@.skip(n - 4);
        if r {
            assert(t =~= seq![13u8, 10u8, 13u8, 10u8]);
        } else {
            if t == seq![13u8, 10u8, 13u8, 10u8] {
                assert(t[0] == buf@[n - 4]);
                assert(t[1] == buf@[n - 3]);
                assert(t[2] == buf@[n - 2]);
                assert(t[3] == buf@[n - 1]);
            }
        }
    }
    r
}

/// What one header line does to what is known of the upgrade: a
/// `Sec-WebSocket-Key` gives the key, an `Upgrade` says whether the client
/// asks for a websocket. Names are compared without regard to ASCII case,
/// and names and values are trimmed. A later line overrides an earlier one.
pub open spec fn header_step(line: Seq<char>, st: (Option<Seq<char>>, bool)) -> (Option<Seq<char>>, bool) {
    match crate::text::first_index(line, ':') {
        None => st,
        Some(i) => {
            let name = crate::text::trim(line.take(i));
            let value = crate::text::trim(line.skip(i + 1));
            if crate::text::eq_ignore_ascii_case(name, "sec-websocket-key"@) {
                (Some(value), st.1)
            } else if crate::text::eq_ignore_ascii_case(name, "upgrade"@) {
                (st.0, crate::text::eq_ignore_ascii_case(value, "websocket"@))
            } else {
                st
            }
        },
    }
}

pub open spec fn headers_scan(lines: Seq<Seq<char>>, st: (Option<Seq<char>>, bool)) -> (Option<Seq<char>>, bool)
    decreases lines.len(),
{
    if lines.len() == 0 {
        st
    } else {
        headers_scan(lines.drop_first(), header_step(lines[0], st))
    }
}

/// The request target of an HTTP head (its first line's second word, or
/// `/`), and the client's key if the head asks for a websocket upgrade.
pub open spec fn upgrade_spec(head: Seq<char>) -> (Seq<char>, Option<Seq<char>>) {
    let lines = crate::text::split_on(head, seq!['\r', '\n']);
    let request = crate::text::words(lines[0]);
    let (key, upgrade) = headers_scan(lines.drop_first(), (None, false));
    (
        if request.len() >= 2 {
            request[1]
        } else {
            seq!['/']
        },
        if upgrade {
            key
        } else {
            None
        },
    )
}

/// An HTTP head, read.
pub struct Upgrade {
    pub target: String,
    /// The client's key, if the head asks for a websocket upgrade.
    pub key: Option<String>,
}

/// Read the opening HTTP request.
pub fn parse_upgrade(head: &str) -> (u: Upgrade)
    ensures
        u.target@ == upgrade_spec(head@).0,
        match u.key {
            Some(k) => upgrade_spec(head@).1 == Some(k@),
            None => upgrade_spec(head@).1 is None,
        },
{
    proof {
        reveal_strlit("\r\n");
        assert("\r\n"@ =~= seq!['\r', '\n']);
    }
    let lines = crate::text::split_str(head, "\r\n");
    let ghost ls = crate::text::split_on(head@, seq!['\r', '\n']);
    proof {
        lemma_split_nonempty(head@, seq!['\r', '\n']);
    }
    let n = lines.len();
    let mut key: Option<String> = None;
    let mut upgrade = false;
    let mut i: usize = 1;
    proof {
        assert(ls.drop_first() =~= ls.skip(1));
    }
    while i < n
        invariant
            n == ls.len(),
            n >= 1,
            1 <= i <= n,
            forall|j: int| 0 <= j < lines@.len() ==> #[trigger] lines@[j]@ == ls[j],
            lines@.len() == n,
            headers_scan(ls.drop_first(), (None, false)) == headers_scan(
                ls.skip(i as int),
                (opt_view(key), upgrade),
            ),
        decreases n - i,
    {
        let line = lines[i].as_str();
        proof {
            assert(ls.skip(i as int).drop_first() =~= ls.skip(i + 1));
            assert(ls.skip(i as int)[0] == line@);
        }
        match crate::text::find_char(line, ':') {
            None => {
                proof {
                    assert(crate::text::first_index(line@, ':') is None);
                }
            },
            Some(c) => {
                proof {
                    let fi = crate::text::first_index(line@, ':');
                    assert(line@[c as int] == ':');
                    assert(fi == Some(c as int)) by {
                        let j = fi->0;
                        if j > c {
                            assert(line@[c as int] != ':');
                        }
                    }
                }
                let len = line.unicode_len();
                let name_raw = line.substring_char(0, c);
                let value_raw = line.substring_char(c + 1, len);
                assert(name_raw@ =~= line@.take(c as int));
                assert(value_raw@ =~= line@.skip(c + 1));
                let name = crate::text::trim_str(name_raw);
                let value = crate::text::trim_str(value_raw);
                if crate::text::str_eq_ignore_ascii_case(name, "sec-websocket-key") {
                    key = Some(String::from_str(value));
                } else if crate::text::str_eq_ignore_ascii_case(name, "upgrade") {
                    upgrade = crate::text::str_eq_ignore_ascii_case(value, "websocket");
                }
            },
        }
        i = i + 1;
    }
    proof {
        assert(ls.skip(n as int) =~= Seq::<Seq<char>>::empty());
    }
    let words = crate::text::split_words(lines[0].as_str());
    let target = if words.len() >= 2 {
        words[1].clone()
    } else {
        String::from_str("/")
    };
    proof {
        reveal_strlit("/");
        assert("/"@ =~= seq!['/']);
    }
    Upgrade { target, key: if upgrade {
        key
    } else {
        None
    } }
}

spec fn opt_view(o: Option<String>) -> Option<Seq<char>> {
    match o {
        Some(k) => Some(k@),
        None => None,
    }
}

proof fn lemma_split_nonempty(s: Seq<char>, sep: Seq<char>)
    ensures
        crate::text::split_on(s, sep).len() >= 1,
{
}

/// The value of `Sec-WebSocket-Accept` for a client's key: the base64 of the
/// SHA-1 of the key followed by the GUID.
pub open spec fn accept_value_spec(key: Seq<char>) -> Seq<char> {
    b64_spec(sha1_spec(vstd::utf8::encode_utf8(key) + vstd::utf8::encode_utf8(guid())))
}

pub fn accept_value(key: &str) -> (r: String)
    ensures
        r@ == accept_value_spec(key@),
{
    let a = key.as_bytes();
    let g = "258EAFA5-E914-47DA-95CA-C5AB0DC85B11".as_bytes();
    let mut m: Vec<u8> = Vec::with_capacity(a.len());
    let mut i: usize = 0;
    while i < a.len()
        invariant
            i <= a@.len(),
            m@ == a@.take(i as int),
        decreases a@.len() - i,
    {
        m.push(a[i]);
        i = i + 1;
        assert(m@ =~= a@.take(i as int));
    }
    let mut j: usize = 0;
    while j < g.len()
        invariant
            i == a@.len(),
            j <= g@.len(),
            m@ == a@.take(i as int) + g@.take(j as int),
        decreases g@.len() - j,
    {
        m.push(g[j]);
        j = j + 1;
        assert(m@ =~= a@.take(i as int) + g@.take(j as int));
    }
    assert(a@.take(i as int) =~= a@);
    assert(g@.take(j as int) =~= g@);
    let d = sha1(m.as_slice());
    b64(&d)
}

/// The answer to an opening head.
pub enum Handshake {
    /// Switch protocols: the request target, and the 101 response to send.
    Accept { target: String, response: String },
    /// Not a websocket upgrade: answer 400 and close.
    Refuse,
}

/// The 101 response carrying the accept value.
pub open spec fn switching_text(accept: Seq<char>) -> Seq<char> {
    "HTTP/1.1 101 Switching Protocols\r\nUpgrade: websocket\r\nConnection: Upgrade\r\nSec-WebSocket-Accept: "@
        + accept + "\r\n\r\n"@
}

/// Complete the upgrade, or refuse it: a head without a key, or that does
/// not ask for a websocket, is refused.
pub fn answer_head(head: &str) -> (h: Handshake)
    ensures
        match h {
            Handshake::Accept { target, response } => upgrade_spec(head@).1 is Some && target@
                == upgrade_spec(head@).0 && response@ == switching_text(
                accept_value_spec(upgrade_spec(head@).1->0),
            ),
            Handshake::Refuse => upgrade_spec(head@).1 is None,
        },
{
    let u = parse_upgrade(head);
    match u.key {
        Some(k) => {
            let accept = accept_value(k.as_str());
            let mut b = crate::json::Buf::new();
            b.raw("HTTP/1.1 101 Switching Protocols\r\nUpgrade: websocket\r\nConnection: Upgrade\r\nSec-WebSocket-Accept: ");
            b.raw(accept.as_str());
            b.raw("\r\n\r\n");
            Handshake::Accept { target: u.target, response: b.into_string() }
        },
        None => Handshake::Refuse,
    }
}

/// The answer to a request that is not a websocket upgrade.
pub fn bad_request() -> (r: &'static str)
    ensures
        r@ == "HTTP/1.1 400 Bad Request\r\nContent-Length: 0\r\nConnection: close\r\n\r\n"@,
{
    "HTTP/1.1 400 Bad Request\r\nContent-Length: 0\r\nConnection: close\r\n\r\n"
}

} // verus!
