//! LZ77 compression with a sliding window of `n` bytes, the last `l_s` of
//! which form the look-ahead buffer.
//!
//! The window starts on `n - l_s` zero bytes. Each step emits a token made of
//! the match position (big-endian, `byte_width(n - l_s)` bytes), the match
//! length (big-endian, `byte_width(l_s)` bytes) and the byte that follows the
//! match. Bytes left at the end that do not fill a whole window are handed
//! back uncompressed.
use vstd::prelude::*;

verus! {

/// `256` raised to `k`.
pub open spec fn pow256(k: nat) -> nat
    decreases k,
{
    if k == 0 {
        1
    } else {
        256 * pow256((k - 1) as nat)
    }
}

/// Number of bytes needed to write any value below `x`: the least `k` with
/// `256^k >= x` (zero for `x <= 1`).
pub open spec fn byte_width(x: nat) -> nat
    decreases x,
{
    if x <= 1 {
        0
    } else {
        1 + byte_width(((x + 255) / 256) as nat)
    }
}

/// Big-endian encoding of `v` in exactly `len` bytes (higher bytes dropped).
pub open spec fn be_bytes(v: nat, len: nat) -> Seq<u8>
    decreases len,
{
    if len == 0 {
        seq![]
    } else {
        be_bytes(v / 256, (len - 1) as nat).push((v % 256) as u8)
    }
}

/// Value of a big-endian byte string.
pub open spec fn be_value(s: Seq<u8>) -> nat
    decreases s.len(),
{
    if s.len() == 0 {
        0
    } else {
        be_value(s.drop_last()) * 256 + (s.last() as nat)
    }
}

/// `search` zero bytes followed by `data`: the buffer the encoder slides over.
pub open spec fn padded(data: Seq<u8>, search: nat) -> Seq<u8> {
    Seq::new(search, |i: int| 0u8) + data
}

/// Length of the run that matches `b[dst..]` against `b[src..]`, counting on
/// from `l - 1` already matched bytes and stopping below `max_len`.
pub open spec fn run_len(b: Seq<u8>, src: int, dst: int, l: int, max_len: int) -> int
    decreases max_len - l,
{
    if l < max_len && b[src + l - 1] == b[dst + l - 1] {
        run_len(b, src, dst, l + 1, max_len)
    } else {
        l - 1
    }
}

/// The match that the encoder picks for the window at `off`: the first
/// position `i` (from the one given on) of the search buffer whose byte equals
/// the first look-ahead byte, with the length of its run; `(0, 0)` when there
/// is none or the look-ahead buffer is a single byte.
pub open spec fn find_match(b: Seq<u8>, off: int, search: int, ls: int, i: int) -> (int, int)
    decreases search - i,
{
    if i >= search {
        (0, 0)
    } else if ls > 1 && b[off + i] == b[off + search] {
        (i, run_len(b, off + i, off + search, 1, ls))
    } else {
        find_match(b, off, search, ls, i + 1)
    }
}

/// The token stream that the encoder writes for the windows from `off` on.
pub open spec fn encode_from(b: Seq<u8>, off: int, n: int, ls: int, w1: nat, w2: nat) -> Seq<u8>
    decreases b.len() - off,
{
    if off < 0 || n <= ls || ls < 1 || off + n > b.len() {
        seq![]
    } else {
        let (p, l) = find_match(b, off, n - ls, ls, 0);
        proof {
            lemma_find_match_bounds(b, off, n - ls, ls, 0);
        }
        be_bytes(p as nat, w1) + be_bytes(l as nat, w2) + seq![b[off + n - ls + l]] + encode_from(
            b,
            off + l + 1,
            n,
            ls,
            w1,
            w2,
        )
    }
}

/// The window offset at which the encoder stops.
pub open spec fn encode_end(b: Seq<u8>, off: int, n: int, ls: int) -> int
    decreases b.len() - off,
{
    if off < 0 || n <= ls || ls < 1 || off + n > b.len() {
        off
    } else {
        let (p, l) = find_match(b, off, n - ls, ls, 0);
        proof {
            lemma_find_match_bounds(b, off, n - ls, ls, 0);
        }
        encode_end(b, off + l + 1, n, ls)
    }
}

/// The two outputs of the encoder for `data`.
pub open spec fn lz77_encoded(data: Seq<u8>, n: nat, ls: nat) -> (Seq<u8>, Seq<u8>) {
    let search = (n - ls) as nat;
    let b = padded(data, search);
    let end = encode_end(b, 0, n as int, ls as int);
    (
        encode_from(b, 0, n as int, ls as int, byte_width(search), byte_width(ls)),
        b.subrange(end + search, b.len() as int),
    )
}

/// Appends `l` bytes to `buf`, each a copy of the byte `start` places from the
/// front, advancing `start` one at a time (the copy may read what it wrote).
pub open spec fn lz_copy(buf: Seq<u8>, start: int, l: nat) -> Seq<u8>
    decreases l,
{
    if l == 0 {
        buf
    } else {
        lz_copy(buf.push(buf[start]), start + 1, (l - 1) as nat)
    }
}

/// The token of `enc` that starts at its front: `w1 + w2 + 1` bytes, or all of
/// `enc` when fewer are left.
pub open spec fn first_token(enc: Seq<u8>, w1: nat, w2: nat) -> Seq<u8> {
    if enc.len() < w1 + w2 + 1 {
        enc
    } else {
        enc.take((w1 + w2 + 1) as int)
    }
}

/// Match position that a token holds.
pub open spec fn token_pos(c: Seq<u8>, w1: nat) -> nat {
    be_value(c.subrange(0, w1 as int))
}

/// Match length that a token holds.
pub open spec fn token_len(c: Seq<u8>, w1: nat, w2: nat) -> nat {
    be_value(c.subrange(w1 as int, (w1 + w2) as int))
}

/// Decoder state after the tokens of `enc`, from the buffer `buf` (whose first
/// `search` bytes are the initial zeros).
pub open spec fn decode_from(buf: Seq<u8>, enc: Seq<u8>, search: nat, w1: nat, w2: nat) -> Seq<u8>
    decreases enc.len(),
{
    if enc.len() == 0 {
        buf
    } else {
        let c = first_token(enc, w1, w2);
        let p = token_pos(c, w1);
        let l = token_len(c, w1, w2);
        let off = buf.len() - search;
        decode_from(
            lz_copy(buf, off + p, l).push(c.last()),
            enc.skip(c.len() as int),
            search,
            w1,
            w2,
        )
    }
}

/// Length of the decoder state after the tokens of `enc`, from a buffer of
/// `buf_len` bytes.
pub open spec fn decoded_len(buf_len: nat, enc: Seq<u8>, w1: nat, w2: nat) -> nat
    decreases enc.len(),
{
    if enc.len() == 0 {
        buf_len
    } else {
        let c = first_token(enc, w1, w2);
        decoded_len(buf_len + token_len(c, w1, w2) + 1, enc.skip(c.len() as int), w1, w2)
    }
}

/// The tokens of `enc` can be decoded from a buffer of `buf_len` bytes: each
/// holds a whole position and length, a copy only reads bytes already there,
/// and no position overflows.
pub open spec fn decodable(buf_len: nat, enc: Seq<u8>, search: nat, w1: nat, w2: nat) -> bool
    decreases enc.len(),
{
    if enc.len() == 0 {
        true
    } else {
        let c = first_token(enc, w1, w2);
        let p = token_pos(c, w1);
        let l = token_len(c, w1, w2);
        &&& c.len() >= w1 + w2
        &&& buf_len >= search
        &&& (l > 0 ==> p < search)
        &&& buf_len - search + p + l <= usize::MAX
        &&& decodable(buf_len + l + 1, enc.skip(c.len() as int), search, w1, w2)
    }
}

/// What the decoder returns for `encoded` and `rest`.
pub open spec fn lz77_decoded(encoded: Seq<u8>, rest: Seq<u8>, n: nat, ls: nat) -> Seq<u8> {
    let search = (n - ls) as nat;
    (decode_from(Seq::new(search, |i: int| 0u8), encoded, search, byte_width(search), byte_width(ls))
        + rest).skip(search as int)
}

/// The inputs on which the decoder neither panics nor overflows.
pub open spec fn lz77_decodable(encoded: Seq<u8>, rest: Seq<u8>, n: nat, ls: nat) -> bool {
    let search = (n - ls) as nat;
    &&& ls <= n
    &&& decodable(search, encoded, search, byte_width(search), byte_width(ls))
    &&& decoded_len(search, encoded, byte_width(search), byte_width(ls)) + rest.len()
        <= usize::MAX
}

// ---------------------------------------------------------------------------
// Lemmas on the encoding of numbers
// ---------------------------------------------------------------------------

pub proof fn lemma_run_len_bounds(b: Seq<u8>, src: int, dst: int, l: int, max_len: int)
    requires
        1 <= l <= max_len,
    ensures
        l - 1 <= run_len(b, src, dst, l, max_len) < max_len,
        forall|j: int|
            l - 1 <= j < run_len(b, src, dst, l, max_len) ==> #[trigger] b[src + j] == b[dst + j],
    decreases max_len - l,
{
    if l < max_len && b[src + l - 1] == b[dst + l - 1] {
        lemma_run_len_bounds(b, src, dst, l + 1, max_len);
    }
}

pub proof fn lemma_find_match_bounds(b: Seq<u8>, off: int, search: int, ls: int, i: int)
    requires
        0 <= i,
        ls >= 1,
    ensures
        0 <= find_match(b, off, search, ls, i).1 < ls,
        find_match(b, off, search, ls, i).0 == 0 || i <= find_match(b, off, search, ls, i).0
            < search,
        find_match(b, off, search, ls, i).0 >= 0,
        forall|j: int|
            0 <= j < find_match(b, off, search, ls, i).1 ==> #[trigger] b[off + find_match(
                b,
                off,
                search,
                ls,
                i,
            ).0 + j] == b[off + search + j],
    decreases search - i,
{
    if i >= search {
    } else if ls > 1 && b[off + i] == b[off + search] {
        lemma_run_len_bounds(b, off + i, off + search, 1, ls);
    } else {
        lemma_find_match_bounds(b, off, search, ls, i + 1);
    }
}

/// A run stops either at a mismatch or at its limit.
proof fn lemma_run_len_stops(b: Seq<u8>, src: int, dst: int, l: int, max_len: int)
    requires
        1 <= l <= max_len,
    ensures
        run_len(b, src, dst, l, max_len) < max_len - 1 ==> b[src + run_len(b, src, dst, l, max_len)]
            != b[dst + run_len(b, src, dst, l, max_len)],
    decreases max_len - l,
{
    if l < max_len && b[src + l - 1] == b[dst + l - 1] {
        lemma_run_len_stops(b, src, dst, l + 1, max_len);
    }
}

proof fn lemma_find_match_from(b: Seq<u8>, off: int, search: int, ls: int, i: int)
    requires
        0 <= i,
        ls >= 1,
    ensures
        ({
            let (p, l) = find_match(b, off, search, ls, i);
            if ls > 1 && exists|j: int| i <= j < search && #[trigger] b[off + j] == b[off + search] {
                &&& i <= p < search
                &&& b[off + p] == b[off + search]
                &&& forall|j: int| i <= j < p ==> #[trigger] b[off + j] != b[off + search]
                &&& 1 <= l
                &&& (l < ls - 1 ==> b[off + p + l] != b[off + search + l])
            } else {
                p == 0 && l == 0
            }
        }),
    decreases search - i,
{
    if i >= search {
    } else if ls > 1 && b[off + i] == b[off + search] {
        lemma_run_len_bounds(b, off + i, off + search, 1, ls);
        lemma_run_len_stops(b, off + i, off + search, 1, ls);
    } else {
        lemma_find_match_from(b, off, search, ls, i + 1);
        if ls > 1 && exists|j: int| i <= j < search && #[trigger] b[off + j] == b[off + search] {
            let j = choose|j: int| i <= j < search && #[trigger] b[off + j] == b[off + search];
            assert(j != i);
            assert(i + 1 <= j < search && b[off + j] == b[off + search]);
        }
    }
}

/// The match that the encoder takes for a window: it starts at the first
/// position of the search buffer whose byte is the first look-ahead byte,
/// and runs as far as the bytes agree, up to `ls - 1` bytes, so it ends at a
/// mismatch or at that limit. With no such position, or a look-ahead buffer
/// of one byte, it is empty, at position 0.
pub proof fn lemma_match_first_and_longest(b: Seq<u8>, off: int, search: int, ls: int)
    requires
        ls >= 1,
    ensures
        ({
            let (p, l) = find_match(b, off, search, ls, 0);
            &&& 0 <= l < ls
            &&& forall|j: int| 0 <= j < l ==> #[trigger] b[off + p + j] == b[off + search + j]
            &&& if ls > 1 && exists|j: int|
                0 <= j < search && #[trigger] b[off + j] == b[off + search] {
                &&& 0 <= p < search
                &&& b[off + p] == b[off + search]
                &&& forall|j: int| 0 <= j < p ==> #[trigger] b[off + j] != b[off + search]
                &&& 1 <= l
                &&& (l < ls - 1 ==> b[off + p + l] != b[off + search + l])
            } else {
                p == 0 && l == 0
            }
        }),
{
    lemma_find_match_bounds(b, off, search, ls, 0);
    lemma_find_match_from(b, off, search, ls, 0);
}

proof fn lemma_decoded_len_grows(buf_len: nat, enc: Seq<u8>, w1: nat, w2: nat)
    ensures
        decoded_len(buf_len, enc, w1, w2) >= buf_len,
    decreases enc.len(),
{
    if enc.len() > 0 {
        let c = first_token(enc, w1, w2);
        lemma_decoded_len_grows(
            buf_len + token_len(c, w1, w2) + 1,
            enc.skip(c.len() as int),
            w1,
            w2,
        );
    }
}

proof fn lemma_pow256_positive(k: nat)
    ensures
        pow256(k) >= 1,
    decreases k,
{
    if k > 0 {
        lemma_pow256_positive((k - 1) as nat);
    }
}

proof fn lemma_pow256_monotone(a: nat, b: nat)
    requires
        a <= b,
    ensures
        pow256(a) <= pow256(b),
    decreases b,
{
    if a < b {
        lemma_pow256_monotone(a, (b - 1) as nat);
        lemma_pow256_positive((b - 1) as nat);
    }
}

proof fn lemma_be_bytes_len(v: nat, len: nat)
    ensures
        be_bytes(v, len).len() == len,
    decreases len,
{
    if len > 0 {
        lemma_be_bytes_len(v / 256, (len - 1) as nat);
    }
}

/// A number below `256^len`, written in `len` big-endian bytes, reads
/// back as itself.
pub proof fn lemma_be_round_trip(v: nat, len: nat)
    requires
        v < pow256(len),
    ensures
        be_value(be_bytes(v, len)) == v,
    decreases len,
{
    if len > 0 {
        assert(v / 256 < pow256((len - 1) as nat));
        lemma_be_round_trip(v / 256, (len - 1) as nat);
        let s = be_bytes(v, len);
        assert(s.drop_last() =~= be_bytes(v / 256, (len - 1) as nat));
    }
}

proof fn lemma_be_value_bound(s: Seq<u8>)
    ensures
        be_value(s) < pow256(s.len()),
    decreases s.len(),
{
    if s.len() > 0 {
        lemma_be_value_bound(s.drop_last());
    }
}

proof fn lemma_byte_width(x: nat)
    ensures
        pow256(byte_width(x)) >= x,
        byte_width(x) > 0 ==> pow256((byte_width(x) - 1) as nat) < x,
    decreases x,
{
    if x > 1 {
        let c = ((x + 255) / 256) as nat;
        lemma_byte_width(c);
        lemma_pow256_positive(byte_width(c));
    }
}

/// Every width that a `usize` needs fits in a `usize`: `256^w` is at most
/// `usize::MAX + 1`.
proof fn lemma_byte_width_fits(x: nat)
    requires
        x <= usize::MAX,
    ensures
        pow256(byte_width(x)) <= usize::MAX + 1,
        byte_width(x) <= 8,
{
    lemma_byte_width(x);
    let w = byte_width(x);
    let k: nat = if usize::MAX == u32::MAX { 4 } else { 8 };
    reveal_with_fuel(pow256, 9);
    assert(pow256(4) == 0x1_0000_0000);
    assert(pow256(8) == 0x1_0000_0000_0000_0000);
    assert(pow256(k) == usize::MAX + 1);
    if w > k {
        lemma_pow256_monotone(k, (w - 1) as nat);
    }
    lemma_pow256_monotone(w, k);
    if w > 8 {
        lemma_pow256_monotone(8, (w - 1) as nat);
        lemma_pow256_positive(8);
    }
}

// ---------------------------------------------------------------------------
// Decoding what the encoder wrote gives the input back
// ---------------------------------------------------------------------------

proof fn lemma_lz_copy(b: Seq<u8>, k: int, start: int, l: nat)
    requires
        0 <= start,
        l > 0 ==> start < k,
        k + l <= b.len(),
        forall|j: int| 0 <= j < l ==> #[trigger] b[start + j] == b[k + j],
    ensures
        lz_copy(b.take(k), start, l) == b.take(k + l),
    decreases l,
{
    if l > 0 {
        assert(b[start + 0] == b[k + 0]);
        assert(b.take(k).push(b.take(k)[start]) =~= b.take(k + 1));
        assert forall|j: int| 0 <= j < l - 1 implies #[trigger] b[start + 1 + j] == b[k + 1 + j] by {
            assert(b[start + (j + 1)] == b[k + (j + 1)]);
        }
        lemma_lz_copy(b, k + 1, start + 1, (l - 1) as nat);
    }
}

proof fn lemma_round_trip_from(b: Seq<u8>, off: int, n: int, ls: int, w1: nat, w2: nat)
    requires
        1 <= ls < n,
        0 <= off,
        off + (n - ls) <= b.len(),
        b.len() <= usize::MAX,
        pow256(w1) >= n - ls,
        pow256(w2) >= ls,
    ensures
        off <= encode_end(b, off, n, ls),
        encode_end(b, off, n, ls) + (n - ls) <= b.len(),
        decodable(
            ((n - ls) + off) as nat,
            encode_from(b, off, n, ls, w1, w2),
            (n - ls) as nat,
            w1,
            w2,
        ),
        decoded_len(((n - ls) + off) as nat, encode_from(b, off, n, ls, w1, w2), w1, w2) == (n
            - ls) + encode_end(b, off, n, ls),
        decode_from(b.take((n - ls) + off), encode_from(b, off, n, ls, w1, w2), (n - ls) as nat, w1, w2)
            == b.take((n - ls) + encode_end(b, off, n, ls)),
    decreases b.len() - off,
{
    let search = n - ls;
    if off + n <= b.len() {
        let (p, l) = find_match(b, off, search, ls, 0);
        lemma_find_match_bounds(b, off, search, ls, 0);
        lemma_pow256_positive(w1);
        lemma_pow256_positive(w2);
        lemma_be_bytes_len(p as nat, w1);
        lemma_be_bytes_len(l as nat, w2);
        lemma_be_round_trip(p as nat, w1);
        lemma_be_round_trip(l as nat, w2);
        let s = b[off + search + l];
        let token = be_bytes(p as nat, w1) + be_bytes(l as nat, w2) + seq![s];
        let rest = encode_from(b, off + l + 1, n, ls, w1, w2);
        let enc = encode_from(b, off, n, ls, w1, w2);
        assert(enc == token + rest);
        assert(first_token(enc, w1, w2) =~= token);
        assert(token.subrange(0, w1 as int) =~= be_bytes(p as nat, w1));
        assert(token.subrange(w1 as int, (w1 + w2) as int) =~= be_bytes(l as nat, w2));
        assert(token_pos(token, w1) == p);
        assert(token_len(token, w1, w2) == l);
        assert(enc.skip(token.len() as int) =~= rest);
        let k = search + off;
        assert forall|j: int| 0 <= j < l implies #[trigger] b[(off + p) + j] == b[k + j] by {
            assert(b[off + p + j] == b[off + search + j]);
        }
        lemma_lz_copy(b, k, off + p, l as nat);
        assert(b.take(k + l).push(s) =~= b.take(k + l + 1));
        lemma_round_trip_from(b, off + l + 1, n, ls, w1, w2);
        assert(b.take(k).len() - search == off);
    }
}

/// Decoding the two outputs of the encoder gives back its input: the
/// decoder accepts them and rebuilds `data` byte for byte.
pub proof fn lemma_lz77_round_trip(data: Seq<u8>, n: nat, ls: nat)
    requires
        1 <= ls < n,
        data.len() + n <= usize::MAX,
    ensures
        lz77_decodable(lz77_encoded(data, n, ls).0, lz77_encoded(data, n, ls).1, n, ls),
        lz77_decoded(lz77_encoded(data, n, ls).0, lz77_encoded(data, n, ls).1, n, ls) == data,
{
    let search = (n - ls) as nat;
    let b = padded(data, search);
    let w1 = byte_width(search);
    let w2 = byte_width(ls);
    lemma_byte_width(search);
    lemma_byte_width(ls);
    lemma_round_trip_from(b, 0, n as int, ls as int, w1, w2);
    let end = encode_end(b, 0, n as int, ls as int);
    assert(b.take(search as int) =~= Seq::new(search, |i: int| 0u8));
    assert(b.take(search + end) + b.subrange(end + search, b.len() as int) =~= b);
    assert(b.skip(search as int) =~= data);
}

// ---------------------------------------------------------------------------
// Executable helpers
// ---------------------------------------------------------------------------

/// Writes `n` as a big-endian number of `len` bytes.
fn to_base256_be(n: usize, len: usize) -> (out: Vec<u8>)
    requires
        n < pow256(len as nat),
    ensures
        out@ == be_bytes(n as nat, len as nat),
    decreases len,
{
    if len == 0 {
        Vec::new()
    } else {
        assert(n / 256 < pow256((len - 1) as nat));
        let mut out = to_base256_be(n / 256, len - 1);
        out.push((n % 256) as u8);
        out
    }
}

/// Reads a big-endian number.
fn from_base256_be(bytes: &[u8]) -> (x: usize)
    requires
        pow256(bytes@.len()) <= usize::MAX + 1,
    ensures
        x == be_value(bytes@),
{
    let mut x: usize = 0;
    let mut i: usize = 0;
    while i < bytes.len()
        invariant
            i <= bytes@.len(),
            pow256(bytes@.len()) <= usize::MAX + 1,
            x == be_value(bytes@.take(i as int)),
        decreases bytes@.len() - i,
    {
        let ghost next = bytes@.take(i + 1);
        assert(next.drop_last() =~= bytes@.take(i as int));
        proof {
            lemma_be_value_bound(next);
            lemma_pow256_monotone((i + 1) as nat, bytes@.len());
        }
        x = x * 256 + bytes[i] as usize;
        i = i + 1;
    }
    assert(bytes@.take(i as int) =~= bytes@);
    x
}

/// Computes `byte_width(x)`.
fn byte_width_of(x: usize) -> (w: usize)
    ensures
        w == byte_width(x as nat),
        w <= 8,
        pow256(w as nat) <= usize::MAX + 1,
        pow256(w as nat) >= x,
{
    proof {
        lemma_byte_width_fits(x as nat);
        lemma_byte_width(x as nat);
    }
    let mut y = x;
    let mut w: usize = 0;
    while y > 1
        invariant
            w + byte_width(y as nat) == byte_width(x as nat),
            byte_width(x as nat) <= 8,
        decreases y,
    {
        assert((y - 1) / 256 + 1 == (y + 255) / 256);
        y = (y - 1) / 256 + 1;
        w = w + 1;
    }
    w
}

pub struct LZ77 {
    pub n: usize,
    pub l_s: usize,
}

impl LZ77 {
    /// A coder with a window of `n` bytes whose last `l_s` bytes are the
    /// look-ahead buffer.
    pub fn new(n: usize, l_s: usize) -> (r: Self)
        requires
            l_s < n,
        ensures
            r.n == n,
            r.l_s == l_s,
    {
        Self { n, l_s }
    }

    /// The match for the window at `offset` of `b`.
    fn longest_match(&self, b: &Vec<u8>, offset: usize) -> (r: (usize, usize))
        requires
            1 <= self.l_s < self.n,
            offset + self.n <= b@.len(),
        ensures
            r.0 == find_match(b@, offset as int, (self.n - self.l_s) as int, self.l_s as int, 0).0,
            r.1 == find_match(b@, offset as int, (self.n - self.l_s) as int, self.l_s as int, 0).1,
    {
        let search = self.n - self.l_s;
        let ghost bs = b@;
        let ghost off = offset as int;
        let ghost ls = self.l_s as int;
        let mut max_l: usize = 0;
        let mut p: usize = 0;
        let mut i: usize = 0;
        while i < search
            invariant
                i <= search,
                search == self.n - self.l_s,
                1 <= self.l_s < self.n,
                offset + self.n <= b.len(),
                off == offset,
                ls == self.l_s,
                bs == b@,
                max_l == 0 ==> p == 0 && find_match(bs, off, search as int, ls, 0) == find_match(
                    bs,
                    off,
                    search as int,
                    ls,
                    i as int,
                ),
                max_l > 0 ==> find_match(bs, off, search as int, ls, 0) == (p as int, max_l as int),
            decreases search - i,
        {
            let mut l: usize = 1;
            let ghost start_l = max_l;
            let ghost start_p = p;
            while l < self.l_s
                invariant
                    1 <= l <= self.l_s,
                    i < search,
                    search == self.n - self.l_s,
                    1 <= self.l_s < self.n,
                    offset + self.n <= b.len(),
                    bs == b@,
                    off == offset,
                    ls == self.l_s,
                    start_l > 0 ==> max_l == start_l && l == 1 && p == start_p,
                    start_l == 0 ==> find_match(bs, off, search as int, ls, 0) == find_match(
                        bs,
                        off,
                        search as int,
                        ls,
                        i as int,
                    ),
                    start_l == 0 && max_l == 0 ==> l == 1 && p == 0,
                    start_l == 0 && max_l > 0 ==> max_l == l - 1 && p == i && bs[off + i] == bs[off
                        + search] && run_len(bs, off + i, off + search, 1, ls) == run_len(
                        bs,
                        off + i,
                        off + search,
                        l as int,
                        ls,
                    ),
                ensures
                    start_l > 0 ==> max_l == start_l && p == start_p,
                    start_l == 0 && max_l == 0 ==> p == 0 && (self.l_s <= 1 || bs[off + i] != bs[off
                        + search]),
                    start_l == 0 && max_l > 0 ==> p == i && self.l_s > 1 && bs[off + i] == bs[off
                        + search] && run_len(bs, off + i, off + search, 1, ls) == max_l,
                decreases self.l_s - l,
            {
                if b[offset + i + l - 1] == b[offset + search + l - 1] && l > max_l {
                    max_l = l;
                    p = i;
                    l = l + 1;
                } else {
                    break ;
                }
            }
            i = i + 1;
        }
        (p, max_l)
    }

    /// Compresses `original_bytes`: returns the token stream and the bytes at
    /// the end that were not compressed.
    pub fn encode(&self, original_bytes: Vec<u8>) -> (r: (Vec<u8>, Vec<u8>))
        requires
            1 <= self.l_s < self.n,
            original_bytes@.len() + self.n <= usize::MAX,
        ensures
            r.0@ == lz77_encoded(original_bytes@, self.n as nat, self.l_s as nat).0,
            r.1@ == lz77_encoded(original_bytes@, self.n as nat, self.l_s as nat).1,
            r.1@.len() < self.l_s,
    {
        let ghost data = original_bytes@;
        let size_of_search = self.n - self.l_s;
        let mut buf: Vec<u8> = Vec::new();
        let mut k: usize = 0;
        while k < size_of_search
            invariant
                k <= size_of_search,
                buf@ == Seq::new(k as nat, |i: int| 0u8),
            decreases size_of_search - k,
        {
            buf.push(0u8);
            k = k + 1;
            assert(buf@ =~= Seq::new(k as nat, |i: int| 0u8));
        }
        let mut k: usize = 0;
        while k < original_bytes.len()
            invariant
                k <= original_bytes@.len(),
                buf@ == Seq::new(size_of_search as nat, |i: int| 0u8) + original_bytes@.take(
                    k as int,
                ),
            decreases original_bytes@.len() - k,
        {
            buf.push(original_bytes[k]);
            k = k + 1;
            assert(buf@ =~= Seq::new(size_of_search as nat, |i: int| 0u8) + original_bytes@.take(
                k as int,
            ));
        }
        assert(original_bytes@.take(k as int) =~= original_bytes@);
        let original_bytes = buf;
        let ghost b = original_bytes@;
        assert(b =~= padded(data, size_of_search as nat));

        let c1_len = byte_width_of(size_of_search);
        let c2_len = byte_width_of(self.l_s);
        let ghost w1 = c1_len as nat;
        let ghost w2 = c2_len as nat;
        let ghost n = self.n as int;
        let ghost ls = self.l_s as int;

        let mut encoded: Vec<u8> = Vec::new();
        let mut offset: usize = 0;
        while offset + self.n <= original_bytes.len()
            invariant
                1 <= self.l_s < self.n,
                size_of_search == self.n - self.l_s,
                b == original_bytes@,
                b.len() + self.l_s <= usize::MAX,
                offset + size_of_search <= b.len(),
                w1 == byte_width(size_of_search as nat),
                w2 == byte_width(self.l_s as nat),
                pow256(w1) >= size_of_search,
                pow256(w2) >= self.l_s,
                c1_len == w1,
                c2_len == w2,
                n == self.n,
                ls == self.l_s,
                encoded@ + encode_from(b, offset as int, n, ls, w1, w2) == encode_from(
                    b,
                    0,
                    n,
                    ls,
                    w1,
                    w2,
                ),
                encode_end(b, offset as int, n, ls) == encode_end(b, 0, n, ls),
            decreases b.len() - offset,
        {
            let (p, max_l) = self.longest_match(&original_bytes, offset);
            proof {
                lemma_find_match_bounds(b, offset as int, size_of_search as int, ls, 0);
                lemma_pow256_positive(w1);
                lemma_pow256_positive(w2);
            }
            let mut c1 = to_base256_be(p, c1_len);
            let mut c2 = to_base256_be(max_l, c2_len);
            let c3 = original_bytes[offset + size_of_search + max_l];
            let ghost before = encoded@;
            encoded.append(&mut c1);
            encoded.append(&mut c2);
            encoded.push(c3);
            assert(encoded@ =~= before + (be_bytes(p as nat, w1) + be_bytes(max_l as nat, w2)
                + seq![c3]));
            offset = offset + max_l + 1;
        }
        let start = offset + size_of_search;
        let mut rest: Vec<u8> = Vec::new();
        let mut k: usize = start;
        while k < original_bytes.len()
            invariant
                start <= k <= b.len(),
                b == original_bytes@,
                rest@ == b.subrange(start as int, k as int),
            decreases b.len() - k,
        {
            rest.push(original_bytes[k]);
            k = k + 1;
            assert(rest@ =~= b.subrange(start as int, k as int));
        }
        assert(encoded@ =~= encoded@ + encode_from(b, offset as int, n, ls, w1, w2));
        (encoded, rest)
    }

    /// Rebuilds the bytes from a token stream and the uncompressed rest.
    pub fn decode(&self, encoded: Vec<u8>, rest: Vec<u8>) -> (r: Vec<u8>)
        requires
            lz77_decodable(encoded@, rest@, self.n as nat, self.l_s as nat),
        ensures
            r@ == lz77_decoded(encoded@, rest@, self.n as nat, self.l_s as nat),
    {
        let search = self.n - self.l_s;
        let c1_len = byte_width_of(search);
        let c2_len = byte_width_of(self.l_s);
        let c3_len: usize = 1;
        let c_len = c1_len + c2_len + c3_len;
        let ghost w1 = c1_len as nat;
        let ghost w2 = c2_len as nat;
        let mut original_bytes: Vec<u8> = Vec::new();
        let mut k: usize = 0;
        while k < search
            invariant
                k <= search,
                original_bytes@ == Seq::new(k as nat, |i: int| 0u8),
            decreases search - k,
        {
            original_bytes.push(0u8);
            k = k + 1;
            assert(original_bytes@ =~= Seq::new(k as nat, |i: int| 0u8));
        }
        let ghost init = original_bytes@;
        assert(encoded@.skip(0) =~= encoded@);
        let mut offset: usize = 0;
        let mut pos: usize = 0;
        while pos < encoded.len()
            invariant
                search == self.n - self.l_s,
                c_len == w1 + w2 + 1,
                c1_len == w1,
                c2_len == w2,
                w1 == byte_width(search as nat),
                w2 == byte_width(self.l_s as nat),
                pow256(w1) <= usize::MAX + 1,
                pow256(w2) <= usize::MAX + 1,
                pos <= encoded@.len(),
                original_bytes@.len() == search + offset,
                decodable(original_bytes@.len(), encoded@.skip(pos as int), search as nat, w1, w2),
                decoded_len(original_bytes@.len(), encoded@.skip(pos as int), w1, w2) + rest@.len()
                    <= usize::MAX,
                decode_from(original_bytes@, encoded@.skip(pos as int), search as nat, w1, w2)
                    == decode_from(init, encoded@, search as nat, w1, w2),
            decreases encoded@.len() - pos,
        {
            let ghost enc = encoded@.skip(pos as int);
            let end = if encoded.len() - pos < c_len {
                encoded.len()
            } else {
                pos + c_len
            };
            let ghost c = first_token(enc, w1, w2);
            assert(c =~= encoded@.subrange(pos as int, end as int));
            let ghost tp = token_pos(c, w1);
            let ghost tl = token_len(c, w1, w2);
            assert(c.len() >= w1 + w2);
            assert(tl > 0 ==> tp < search);
            assert(offset + tp + tl <= usize::MAX);
            let all = encoded.as_slice();
            let p = from_base256_be(&all[pos..pos + c1_len]);
            assert(all@.subrange(pos as int, pos + c1_len) =~= c.subrange(0, w1 as int));
            let l = from_base256_be(&all[pos + c1_len..pos + c1_len + c2_len]);
            assert(all@.subrange(pos + c1_len, pos + c1_len + c2_len) =~= c.subrange(
                w1 as int,
                (w1 + w2) as int,
            ));
            assert(p == tp);
            assert(l == tl);
            assert(enc.skip(c.len() as int) =~= encoded@.skip(end as int));
            proof {
                lemma_decoded_len_grows(
                    original_bytes@.len() + tl + 1,
                    enc.skip(c.len() as int),
                    w1,
                    w2,
                );
            }
            let s = encoded[end - 1];
            let ghost buf0 = original_bytes@;
            let mut i = offset + p;
            while i < offset + p + l
                invariant
                    offset + p <= i <= offset + p + l,
                    offset + p + l <= usize::MAX,
                    l > 0 ==> p < search,
                    original_bytes@.len() == buf0.len() + (i - offset - p),
                    buf0.len() == search + offset,
                    lz_copy(original_bytes@, i as int, (offset + p + l - i) as nat) == lz_copy(
                        buf0,
                        offset + p,
                        l as nat,
                    ),
                decreases offset + p + l - i,
            {
                let v = original_bytes[i];
                original_bytes.push(v);
                i = i + 1;
            }
            original_bytes.push(s);
            offset = offset + l + 1;
            pos = end;
        }
        let mut k: usize = 0;
        while k < rest.len()
            invariant
                k <= rest@.len(),
                original_bytes@ == decode_from(init, encoded@, search as nat, w1, w2)
                    + rest@.take(k as int),
                original_bytes@.len() + rest@.len() - k <= usize::MAX,
            decreases rest@.len() - k,
        {
            original_bytes.push(rest[k]);
            k = k + 1;
            assert(original_bytes@ =~= decode_from(init, encoded@, search as nat, w1, w2)
                + rest@.take(k as int));
        }
        assert(rest@.take(k as int) =~= rest@);
        assert(init =~= Seq::new(search as nat, |i: int| 0u8));
        original_bytes.split_off(search)
    }
}

} // verus!
