//! Field encodings of the tar header and the split of long paths into
//! `prefix` and `name`.
use vstd::prelude::*;
use vstd::utf8::*;
use vstd::string::*;

verus! {

broadcast use vstd::utf8::encode_utf8_valid_utf8;

// ---------------------------------------------------------------------------
// Fixed-size fields
// ---------------------------------------------------------------------------

/// `src` cut or zero-filled to exactly `n` bytes.
pub open spec fn fixed_bytes(src: Seq<u8>, n: nat) -> Seq<u8> {
    Seq::new(n, |i: int| if i < src.len() { src[i] } else { 0u8 })
}

/// Copies `src` into an array of `N` bytes: longer input is cut, shorter input
/// is followed by zeros.
pub fn to_fixed<const N: usize>(src: &[u8]) -> (arr: [u8; N])
    ensures
        arr@ == fixed_bytes(src@, N as nat),
{
    let mut arr = [0u8; N];
    let len = if src.len() < N {
        src.len()
    } else {
        N
    };
    let mut i: usize = 0;
    while i < len
        invariant
            len <= N,
            len <= src@.len(),
            len == src@.len() || len == N,
            i <= len,
            arr@.len() == N,
            forall|k: int| 0 <= k < i ==> arr@[k] == src@[k],
            forall|k: int| i <= k < N ==> arr@[k] == 0u8,
        decreases len - i,
    {
        arr[i] = src[i];
        i = i + 1;
    }
    assert(arr@ =~= fixed_bytes(src@, N as nat));
    arr
}

// ---------------------------------------------------------------------------
// Octal fields
// ---------------------------------------------------------------------------

/// `8` raised to `k`.
pub open spec fn pow8(k: nat) -> nat
    decreases k,
{
    if k == 0 {
        1
    } else {
        8 * pow8((k - 1) as nat)
    }
}

/// The mask of `n` octal digits, as the shifts of a 64-bit word compute it.
pub open spec fn octal_mask(n: nat) -> u64
    decreases n,
{
    if n == 0 {
        0
    } else {
        ((octal_mask((n - 1) as nat) << 3u64) | 7u64) as u64
    }
}

/// The value that a field of `width` octal digits keeps of `num`: its last
/// `width` digits (all of it once the width covers 64 bits).
pub open spec fn field_value(num: u64, width: nat) -> nat {
    if width <= 21 {
        (num as nat) % pow8(width)
    } else {
        num as nat
    }
}

/// `v` in exactly `width` octal digits, zero-filled on the left.
pub open spec fn octal_digits(v: nat, width: nat) -> Seq<u8>
    decreases width,
{
    if width == 0 {
        seq![]
    } else {
        octal_digits(v / 8, (width - 1) as nat).push((48 + v % 8) as u8)
    }
}

/// The bytes of a numeric header field: the last `length - |terminator|`
/// octal digits of `num`, zero-filled, then the terminator.
pub open spec fn field_bytes(num: u64, length: nat, terminator: Seq<u8>) -> Seq<u8> {
    let width = (length - terminator.len()) as nat;
    octal_digits(field_value(num, width), width) + terminator
}

proof fn lemma_pow8_positive(k: nat)
    ensures
        pow8(k) >= 1,
    decreases k,
{
    if k > 0 {
        lemma_pow8_positive((k - 1) as nat);
    }
}

proof fn lemma_pow8_is_pow2(k: nat)
    ensures
        pow8(k) == vstd::arithmetic::power2::pow2(3 * k),
    decreases k,
{
    if k > 0 {
        lemma_pow8_is_pow2((k - 1) as nat);
        vstd::arithmetic::power2::lemma_pow2_unfold(3 * k);
        vstd::arithmetic::power2::lemma_pow2_unfold((3 * k - 1) as nat);
        vstd::arithmetic::power2::lemma_pow2_unfold((3 * k - 2) as nat);
    } else {
        vstd::arithmetic::power2::lemma2_to64();
    }
}

proof fn lemma_octal_mask(k: nat)
    ensures
        k <= 21 ==> octal_mask(k) == pow8(k) - 1,
        k > 21 ==> octal_mask(k) == u64::MAX,
    decreases k,
{
    if k > 0 {
        lemma_octal_mask((k - 1) as nat);
        let m = octal_mask((k - 1) as nat);
        if k <= 21 {
            lemma_pow8_positive((k - 1) as nat);
            assert(pow8(20) == 0x1000000000000000) by {
                reveal_with_fuel(pow8, 21);
            }
            if k < 21 {
                lemma_pow8_monotone((k - 1) as nat, 19);
                assert(pow8(19) == 0x200000000000000) by {
                    reveal_with_fuel(pow8, 20);
                }
            } else {
                assert(k - 1 == 20);
            }
            assert(m <= 0x0fff_ffff_ffff_ffff);
            assert(m <= 0x1fff_ffff_ffff_ffff ==> ((m << 3u64) | 7u64) == m * 8 + 7) by (bit_vector);
        } else if k == 22 {
            assert(pow8(21) == 0x8000000000000000) by {
                reveal_with_fuel(pow8, 22);
            }
            assert(m == 0x7fff_ffff_ffff_ffff);
            assert(m == 0x7fff_ffff_ffff_ffff ==> ((m << 3u64) | 7u64) == 0xffff_ffff_ffff_ffffu64)
                by (bit_vector);
        } else {
            assert(m == 0xffff_ffff_ffff_ffff ==> ((m << 3u64) | 7u64) == 0xffff_ffff_ffff_ffffu64)
                by (bit_vector);
        }
    }
}

proof fn lemma_pow8_monotone(a: nat, b: nat)
    requires
        a <= b,
    ensures
        pow8(a) <= pow8(b),
    decreases b,
{
    if a < b {
        lemma_pow8_monotone(a, (b - 1) as nat);
        lemma_pow8_positive((b - 1) as nat);
    }
}

proof fn lemma_octal_digits_len(v: nat, width: nat)
    ensures
        octal_digits(v, width).len() == width,
    decreases width,
{
    if width > 0 {
        lemma_octal_digits_len(v / 8, (width - 1) as nat);
    }
}

/// Keeping `num & octal_mask(width)` keeps `field_value(num, width)`.
proof fn lemma_masked_value(num: u64, width: nat)
    ensures
        (num & octal_mask(width)) as nat == field_value(num, width),
        field_value(num, width) < pow8(width),
{
    lemma_octal_mask(width);
    if width <= 21 {
        lemma_pow8_is_pow2(width);
        vstd::bits::lemma_u64_low_bits_mask_is_mod(num, 3 * width);
        lemma_pow8_positive(width);
        lemma_pow8_monotone(width, 21);
        assert(pow8(21) == 0x8000000000000000) by {
            reveal_with_fuel(pow8, 22);
        }
        assert(vstd::bits::low_bits_mask(3 * width) == pow8(width) - 1);
        assert(octal_mask(width) == (vstd::bits::low_bits_mask(3 * width) as u64));
        assert((vstd::arithmetic::power2::pow2(3 * width) as u64) as nat == pow8(width));
    } else {
        assert(num & 0xffff_ffff_ffff_ffffu64 == num) by (bit_vector);
        lemma_pow8_monotone(22, width);
        assert(pow8(22) == 0x4_0000_0000_0000_0000) by {
            reveal_with_fuel(pow8, 23);
        }
    }
}

/// The number that a string of octal digits stands for.
pub open spec fn octal_value(s: Seq<u8>) -> nat
    decreases s.len(),
{
    if s.len() == 0 {
        0
    } else {
        octal_value(s.drop_last()) * 8 + (s.last() - 48) as nat
    }
}

proof fn lemma_octal_digits_value(v: nat, width: nat)
    ensures
        octal_value(octal_digits(v, width)) == v % pow8(width),
    decreases width,
{
    if width == 0 {
        assert(v % 1 == 0);
    } else {
        lemma_octal_digits_value(v / 8, (width - 1) as nat);
        lemma_pow8_positive((width - 1) as nat);
        let d = octal_digits(v, width);
        assert(d.drop_last() =~= octal_digits(v / 8, (width - 1) as nat));
        vstd::arithmetic::div_mod::lemma_mod_breakdown(v as int, 8, pow8((width - 1) as nat) as int);
    }
}

/// A numeric field reads back, as octal digits, as the value it keeps of
/// the number written.
pub proof fn lemma_field_reads_back(num: u64, length: nat, terminator: Seq<u8>)
    requires
        terminator.len() <= length,
    ensures
        octal_value(field_bytes(num, length, terminator).take(length - terminator.len()))
            == field_value(num, (length - terminator.len()) as nat),
{
    let width = (length - terminator.len()) as nat;
    let v = field_value(num, width);
    lemma_masked_value(num, width);
    lemma_octal_digits_len(v, width);
    lemma_octal_digits_value(v, width);
    vstd::arithmetic::div_mod::lemma_small_mod(v, pow8(width));
    assert(field_bytes(num, length, terminator).take(width as int) =~= octal_digits(v, width));
}

/// A mask of `n` octal digits: the lowest `3 * n` bits set.
fn n_sevens(n: usize) -> (result: u64)
    ensures
        result == octal_mask(n as nat),
{
    let mut result: u64 = 0;
    let mut i: usize = 0;
    while i < n
        invariant
            i <= n,
            result == octal_mask(i as nat),
        decreases n - i,
    {
        result = (result << 3u64) | 7;
        i = i + 1;
    }
    result
}

/// Writes the `width` lowest octal digits of `v`.
fn octal_padded(v: u64, width: usize) -> (out: Vec<u8>)
    ensures
        out@ == octal_digits(v as nat, width as nat),
    decreases width,
{
    if width == 0 {
        Vec::new()
    } else {
        let mut out = octal_padded(v / 8, width - 1);
        out.push(48 + (v % 8) as u8);
        out
    }
}

/// The bytes of a numeric tar header field of `length` bytes: `num` in
/// octal, zero-filled to `length - |terminator|` digits, followed by the
/// terminator. Digits that do not fit are dropped from the left.
pub fn to_field(num: u64, length: u8, terminator: &str) -> (r: Vec<u8>)
    requires
        terminator.spec_bytes().len() <= length,
    ensures
        r@ == field_bytes(num, length as nat, terminator.spec_bytes()),
        r@.len() == length,
{
    let terminator_len = terminator.len() as u8;
    let width = (length - terminator_len) as usize;
    let masked = num & n_sevens(width);
    proof {
        lemma_masked_value(num, width as nat);
    }
    let mut out = octal_padded(masked, width);
    let bytes = terminator.as_bytes();
    let ghost digits = out@;
    let mut i: usize = 0;
    while i < bytes.len()
        invariant
            i <= bytes@.len(),
            out@ == digits + bytes@.take(i as int),
        decreases bytes@.len() - i,
    {
        out.push(bytes[i]);
        i = i + 1;
        assert(out@ =~= digits + bytes@.take(i as int));
    }
    assert(bytes@.take(i as int) =~= bytes@);
    proof {
        lemma_octal_digits_len(masked as nat, width as nat);
    }
    out
}

// ---------------------------------------------------------------------------
// Paths
// ---------------------------------------------------------------------------

/// Longest file name a ustar header holds, in bytes.
pub const MAX_FILENAME: usize = 100;

/// Longest prefix a ustar header holds, in bytes.
pub const MAX_PREFIX: usize = 155;

/// The largest character boundary of `b` that is at most `m`.
pub open spec fn boundary_floor(b: Seq<u8>, m: int) -> int
    decreases m,
{
    if m <= 0 {
        0
    } else if is_char_boundary(b, m) {
        m
    } else {
        boundary_floor(b, m - 1)
    }
}

/// How many bytes of `b` stay when it is cut to at most `max` bytes without
/// splitting a character.
pub open spec fn truncated_len(b: Seq<u8>, max: nat) -> int {
    if b.len() <= max {
        b.len() as int
    } else {
        boundary_floor(b, max as int)
    }
}

proof fn lemma_boundary_floor(b: Seq<u8>, m: int)
    requires
        valid_utf8(b),
        0 <= m <= b.len(),
    ensures
        0 <= boundary_floor(b, m) <= m,
        is_char_boundary(b, boundary_floor(b, m)),
    decreases m,
{
    is_char_boundary_start_end_of_seq(b);
    if m > 0 && !is_char_boundary(b, m) {
        lemma_boundary_floor(b, m - 1);
    }
}

/// The longest start of `s` of at most `max_bytes` bytes that does not split
/// a character.
fn truncate_by_bytes(s: &str, max_bytes: usize) -> (r: String)
    ensures
        encode_utf8(r@) == s.spec_bytes().take(truncated_len(s.spec_bytes(), max_bytes as nat)),
        0 <= truncated_len(s.spec_bytes(), max_bytes as nat) <= max_bytes,
{
    let ghost b = s.spec_bytes();
    let len = s.as_bytes().len();
    if len <= max_bytes {
        let r = s.to_owned();
        assert(b.take(b.len() as int) =~= b);
        return r;
    }
    proof {
        is_char_boundary_start_end_of_seq(b);
        lemma_boundary_floor(b, max_bytes as int);
    }
    let mut k = max_bytes;
    while !s.is_char_boundary(k)
        invariant
            k <= max_bytes < b.len(),
            b == s.spec_bytes(),
            valid_utf8(b),
            is_char_boundary(b, 0),
            boundary_floor(b, k as int) == boundary_floor(b, max_bytes as int),
        decreases k,
    {
        k = k - 1;
    }
    let (head, _tail) = s.split_at(k);
    assert(head.spec_bytes() =~= b.take(k as int));
    head.to_owned()
}

/// Positions of the `/` bytes among the first `n` bytes of `b`, in order.
pub open spec fn slashes_upto(b: Seq<u8>, n: int) -> Seq<int>
    decreases n,
{
    if n <= 0 {
        seq![]
    } else if b[n - 1] == 47u8 {
        slashes_upto(b, n - 1).push(n - 1)
    } else {
        slashes_upto(b, n - 1)
    }
}

/// Positions of the `/` bytes of `b`, in order.
pub open spec fn slashes(b: Seq<u8>) -> Seq<int> {
    slashes_upto(b, b.len() as int)
}

/// Bytes that the first `k` `/`-separated fragments of `b` take, joined by
/// `/` (`k` at most the number of slashes).
pub open spec fn prefix_len(b: Seq<u8>, k: int) -> int {
    if k == 0 {
        0
    } else {
        slashes(b)[k - 1]
    }
}

/// Where fragment `j` of `b` starts.
pub open spec fn fragment_start(b: Seq<u8>, j: int) -> int {
    if j == 0 {
        0
    } else {
        slashes(b)[j - 1] + 1
    }
}

/// Where the last `f` fragments of `b` start.
pub open spec fn filename_start(b: Seq<u8>, f: int) -> int {
    fragment_start(b, slashes(b).len() + 1 - f)
}

/// Keeping the first `p` fragments as prefix and the last `f` as file name
/// fits both header fields without sharing a fragment.
pub open spec fn split_fits(b: Seq<u8>, p: int, f: int) -> bool {
    &&& 0 <= p <= slashes(b).len()
    &&& 1 <= f
    &&& p + f <= slashes(b).len() + 1
    &&& prefix_len(b, p) <= MAX_PREFIX
    &&& b.len() - filename_start(b, f) <= MAX_FILENAME
}

/// `(p, f)` fits and keeps the most fragments; among splits that keep as
/// many, it has the shortest prefix.
pub open spec fn best_split(b: Seq<u8>, p: int, f: int) -> bool {
    &&& split_fits(b, p, f)
    &&& forall|p2: int, f2: int|
        #[trigger] split_fits(b, p2, f2) ==> p2 + f2 < p + f || (p2 + f2 == p + f && p <= p2)
}

/// The result of splitting the path with bytes `b`: the bytes of the prefix,
/// the bytes of the file name, and whether something was left out.
pub open spec fn split_path_bytes(b: Seq<u8>) -> (Seq<u8>, Seq<u8>, bool) {
    let m = slashes(b).len() as int;
    if b.len() <= MAX_FILENAME {
        (seq![], b, false)
    } else if m == 0 {
        (seq![], b.take(truncated_len(b, MAX_FILENAME as nat)), true)
    } else if exists|p: int, f: int| split_fits(b, p, f) {
        let (p, f) = choose|p: int, f: int| best_split(b, p, f);
        (b.take(prefix_len(b, p)), b.subrange(filename_start(b, f), b.len() as int), p + f < m + 1)
    } else {
        let last = b.subrange(fragment_start(b, m), b.len() as int);
        if last.len() > MAX_FILENAME {
            let name = last.take(truncated_len(last, MAX_FILENAME as nat));
            if prefix_len(b, m) <= MAX_PREFIX {
                (b.take(prefix_len(b, m)), name, true)
            } else {
                (seq![], name, true)
            }
        } else {
            (seq![], b.take(truncated_len(b, MAX_FILENAME as nat)), true)
        }
    }
}

proof fn lemma_slashes_upto(b: Seq<u8>, n: int)
    requires
        0 <= n <= b.len(),
    ensures
        forall|k: int|
            0 <= k < slashes_upto(b, n).len() ==> 0 <= #[trigger] slashes_upto(b, n)[k] < n
                && b[slashes_upto(b, n)[k]] == 47u8,
        forall|k1: int, k2: int|
            0 <= k1 < k2 < slashes_upto(b, n).len() ==> #[trigger] slashes_upto(b, n)[k1]
                < #[trigger] slashes_upto(b, n)[k2],
        slashes_upto(b, n).len() <= n,
    decreases n,
{
    if n > 0 {
        lemma_slashes_upto(b, n - 1);
    }
}

/// The byte after an ASCII byte that starts a character starts a character too.
proof fn lemma_ascii_next_boundary(b: Seq<u8>, j: int)
    requires
        valid_utf8(b),
        0 <= j < b.len(),
        is_char_boundary(b, j),
        b[j] <= 0x7f,
    ensures
        is_char_boundary(b, j + 1),
{
    is_char_boundary_start_end_of_seq(b);
    if j + 1 < b.len() {
        let t = b.subrange(j, b.len() as int);
        valid_utf8_split(b, j);
        assert(valid_utf8(t));
        assert(valid_first_scalar(t));
        assert(length_of_first_scalar(t) == 1);
        let u = pop_first_scalar(t);
        assert(valid_utf8(u));
        assert(u.len() > 0);
        assert(valid_first_scalar(u));
        assert(u[0] == b[j + 1]);
        is_char_boundary_iff_not_is_continuation_byte(b, j + 1);
    }
}

proof fn lemma_slash_boundaries(b: Seq<u8>, k: int)
    requires
        valid_utf8(b),
        0 <= k < slashes(b).len(),
    ensures
        is_char_boundary(b, slashes(b)[k]),
        is_char_boundary(b, slashes(b)[k] + 1),
        0 <= slashes(b)[k] < b.len(),
{
    lemma_slashes_upto(b, b.len() as int);
    let i = slashes(b)[k];
    assert(b[i] == 47u8);
    is_char_boundary_iff_not_is_continuation_byte(b, i);
    lemma_ascii_next_boundary(b, i);
}

proof fn lemma_best_split_unique(b: Seq<u8>, p1: int, f1: int, p2: int, f2: int)
    requires
        best_split(b, p1, f1),
        best_split(b, p2, f2),
    ensures
        p1 == p2 && f1 == f2,
{
    assert(split_fits(b, p2, f2));
    assert(split_fits(b, p1, f1));
}

/// Positions of the `/` bytes of `bytes`.
fn find_slashes(bytes: &[u8]) -> (r: Vec<usize>)
    ensures
        r@.len() == slashes(bytes@).len(),
        forall|k: int| 0 <= k < r@.len() ==> #[trigger] r@[k] as int == slashes(bytes@)[k],
{
    let ghost b = bytes@;
    let mut slash_positions: Vec<usize> = Vec::new();
    let mut i: usize = 0;
    while i < bytes.len()
        invariant
            i <= b.len(),
            b == bytes@,
            slash_positions@.len() == slashes_upto(b, i as int).len(),
            forall|k: int|
                0 <= k < slash_positions@.len() ==> #[trigger] slash_positions@[k] as int
                    == slashes_upto(b, i as int)[k],
        decreases b.len() - i,
    {
        if bytes[i] == 47u8 {
            slash_positions.push(i);
        }
        i = i + 1;
    }
    slash_positions
}

/// Tries every split of the fragments of `bytes` (whose slashes are at
/// `slash_positions`) and returns whether one fits, with the best one as the
/// number of prefix fragments and the number of file name fragments minus one.
fn search_best_split(bytes: &[u8], slash_positions: &Vec<usize>) -> (r: (bool, usize, usize))
    requires
        slash_positions@.len() == slashes(bytes@).len(),
        forall|k: int|
            0 <= k < slash_positions@.len() ==> #[trigger] slash_positions@[k] as int == slashes(
                bytes@,
            )[k],
    ensures
        r.0 <==> exists|p: int, f: int| split_fits(bytes@, p, f),
        r.0 ==> best_split(bytes@, r.1 as int, r.2 + 1),
{
    let ghost b = bytes@;
    let ghost sl = slashes(b);
    proof {
        lemma_slashes_upto(b, b.len() as int);
    }
    let len = bytes.len();
    let m = slash_positions.len();
    let mut best_prefix_fragments: usize = 0;
    let mut best_filename_rest: usize = 0;
    let mut found_valid_split = false;
    let mut prefix_count: usize = 0;
    loop
        invariant_except_break
            prefix_count <= m,
        invariant
            m == sl.len() <= len,
            len == b.len(),
            b == bytes@,
            sl == slashes(b),
            slash_positions@.len() == m,
            forall|k: int| 0 <= k < m ==> #[trigger] slash_positions@[k] as int == sl[k],
            forall|k: int| 0 <= k < m ==> 0 <= #[trigger] sl[k] < len,
            found_valid_split ==> best_prefix_fragments <= prefix_count,
            found_valid_split ==> split_fits(
                b,
                best_prefix_fragments as int,
                best_filename_rest + 1,
            ),
            found_valid_split ==> forall|p2: int, f2: int|
                p2 < prefix_count && #[trigger] split_fits(b, p2, f2) ==> p2 + f2
                    < best_prefix_fragments + best_filename_rest + 1 || (p2 + f2
                    == best_prefix_fragments + best_filename_rest + 1 && best_prefix_fragments
                    <= p2),
            !found_valid_split ==> forall|p2: int, f2: int|
                p2 < prefix_count ==> !#[trigger] split_fits(b, p2, f2),
        ensures
            found_valid_split ==> split_fits(
                b,
                best_prefix_fragments as int,
                best_filename_rest + 1,
            ),
            found_valid_split ==> forall|p2: int, f2: int|
                #[trigger] split_fits(b, p2, f2) ==> p2 + f2 < best_prefix_fragments
                    + best_filename_rest + 1 || (p2 + f2 == best_prefix_fragments
                    + best_filename_rest + 1 && best_prefix_fragments <= p2),
            !found_valid_split ==> forall|p2: int, f2: int| !#[trigger] split_fits(b, p2, f2),
        decreases m - prefix_count,
    {
        // the file name keeps `filename_rest + 1` fragments
        let mut filename_rest: usize = 0;
        loop
            invariant_except_break
                filename_rest <= m - prefix_count,
            invariant
                m == sl.len() <= len,
                len == b.len(),
                b == bytes@,
                sl == slashes(b),
                slash_positions@.len() == m,
                forall|k: int| 0 <= k < m ==> #[trigger] slash_positions@[k] as int == sl[k],
                forall|k: int| 0 <= k < m ==> 0 <= #[trigger] sl[k] < len,
                prefix_count <= m,
                found_valid_split ==> best_prefix_fragments <= prefix_count,
                found_valid_split ==> split_fits(
                    b,
                    best_prefix_fragments as int,
                    best_filename_rest + 1,
                ),
                found_valid_split ==> forall|p2: int, f2: int|
                    (p2 < prefix_count || (p2 == prefix_count && f2 <= filename_rest))
                        && #[trigger] split_fits(b, p2, f2) ==> p2 + f2 < best_prefix_fragments
                        + best_filename_rest + 1 || (p2 + f2 == best_prefix_fragments
                        + best_filename_rest + 1 && best_prefix_fragments <= p2),
                !found_valid_split ==> forall|p2: int, f2: int|
                    (p2 < prefix_count || (p2 == prefix_count && f2 <= filename_rest))
                        ==> !#[trigger] split_fits(b, p2, f2),
            ensures
                found_valid_split ==> best_prefix_fragments <= prefix_count,
                found_valid_split ==> split_fits(
                    b,
                    best_prefix_fragments as int,
                    best_filename_rest + 1,
                ),
                found_valid_split ==> forall|p2: int, f2: int|
                    p2 <= prefix_count && #[trigger] split_fits(b, p2, f2) ==> p2 + f2
                        < best_prefix_fragments + best_filename_rest + 1 || (p2 + f2
                        == best_prefix_fragments + best_filename_rest + 1 && best_prefix_fragments
                        <= p2),
                !found_valid_split ==> forall|p2: int, f2: int|
                    p2 <= prefix_count ==> !#[trigger] split_fits(b, p2, f2),
            decreases m - prefix_count - filename_rest,
        {
            let prefix_bytes = if prefix_count == 0 {
                0
            } else {
                slash_positions[prefix_count - 1]
            };
            let filename_begin = if filename_rest == m {
                0
            } else {
                slash_positions[m - filename_rest - 1] + 1
            };
            assert(prefix_bytes == prefix_len(b, prefix_count as int));
            assert(filename_begin == filename_start(b, filename_rest + 1));
            if prefix_bytes <= MAX_PREFIX && len - filename_begin <= MAX_FILENAME {
                if !found_valid_split || (prefix_count + filename_rest > best_prefix_fragments
                    + best_filename_rest) {
                    best_prefix_fragments = prefix_count;
                    best_filename_rest = filename_rest;
                    found_valid_split = true;
                }
            }
            if filename_rest == m - prefix_count {
                break ;
            }
            filename_rest = filename_rest + 1;
        }
        if prefix_count == m {
            break ;
        }
        prefix_count = prefix_count + 1;
    }
    (found_valid_split, best_prefix_fragments, best_filename_rest)
}

/// A path split into the `prefix` and `name` fields of a ustar header.
#[derive(Debug)]
pub struct PathSplit {
    pub prefix: String,
    pub filename: String,
    /// Whether part of the path was left out.
    pub is_truncated: bool,
}

/// Splits `path` at `/` into a file name of at most 100 bytes and a prefix of
/// at most 155 bytes.
///
/// - A path of at most 100 bytes is kept whole as the file name.
/// - Otherwise the prefix keeps fragments from the front and the file name
///   keeps fragments from the back, so that the two keep as many fragments as
///   possible (the shorter prefix wins a tie) and share none.
/// - When no split fits, the last fragment is cut to 100 bytes as file name
///   (with the rest of the path as prefix if it fits); a path without `/` is
///   cut to 100 bytes. Cuts never split a character.
pub fn split_path(path: &str) -> (r: PathSplit)
    ensures
        encode_utf8(r.prefix@) == split_path_bytes(path.spec_bytes()).0,
        encode_utf8(r.filename@) == split_path_bytes(path.spec_bytes()).1,
        r.is_truncated == split_path_bytes(path.spec_bytes()).2,
        encode_utf8(r.filename@).len() <= MAX_FILENAME,
        encode_utf8(r.prefix@).len() <= MAX_PREFIX,
        path.spec_bytes().len() <= MAX_FILENAME ==> r.prefix@.len() == 0 && r.filename@
            == path@ && !r.is_truncated,
        !r.is_truncated ==> (r.prefix@.len() == 0 && r.filename@ == path@) || path.spec_bytes()
            == encode_utf8(r.prefix@) + seq![47u8] + encode_utf8(r.filename@),
{
    let bytes = path.as_bytes();
    let ghost b = bytes@;
    let len = bytes.len();
    if len <= MAX_FILENAME {
        let r = PathSplit { prefix: String::new(), filename: path.to_owned(), is_truncated: false };
        assert(encode_utf8(r.prefix@) =~= seq![]);
        return r;
    }
    let slash_positions = find_slashes(bytes);
    proof {
        lemma_slashes_upto(b, b.len() as int);
        is_char_boundary_start_end_of_seq(b);
    }
    let m = slash_positions.len();
    if m == 0 {
        let filename = truncate_by_bytes(path, MAX_FILENAME);
        let r = PathSplit { prefix: String::new(), filename, is_truncated: true };
        assert(encode_utf8(r.prefix@) =~= seq![]);
        return r;
    }
    let (found_valid_split, best_prefix_fragments, best_filename_rest) = search_best_split(
        bytes,
        &slash_positions,
    );
    if found_valid_split {
        let prefix_bytes = if best_prefix_fragments == 0 {
            0
        } else {
            slash_positions[best_prefix_fragments - 1]
        };
        let filename_begin = if best_filename_rest == m {
            0
        } else {
            slash_positions[m - best_filename_rest - 1] + 1
        };
        let ghost best_filename_fragments = best_filename_rest + 1;
        proof {
            if best_prefix_fragments > 0 {
                lemma_slash_boundaries(b, best_prefix_fragments - 1);
            }
            if best_filename_rest < m {
                lemma_slash_boundaries(b, m - best_filename_rest - 1);
            }
            let (p, f) = choose|p: int, f: int| best_split(b, p, f);
            lemma_best_split_unique(
                b,
                p,
                f,
                best_prefix_fragments as int,
                best_filename_fragments as int,
            );
        }
        let (prefix_part, _) = path.split_at(prefix_bytes);
        let (_, filename_part) = path.split_at(filename_begin);
        let is_truncated = best_prefix_fragments + best_filename_rest < m;
        let r = PathSplit {
            prefix: prefix_part.to_owned(),
            filename: filename_part.to_owned(),
            is_truncated,
        };
        proof {
            if !is_truncated && best_prefix_fragments > 0 {
                assert(b =~= b.take(prefix_bytes as int) + seq![47u8] + b.subrange(
                    prefix_bytes + 1,
                    b.len() as int,
                ));
            }
            if !is_truncated && best_prefix_fragments == 0 {
                assert(b.subrange(0, b.len() as int) =~= b);
                encode_utf8_decode_utf8(path@);
                encode_utf8_decode_utf8(r.filename@);
                assert(r.filename@ == path@);
                assert(encode_utf8(r.prefix@) =~= seq![]);
                encode_utf8_decode_utf8(r.prefix@);
            }
        }
        return r;
    }
    // no split fits: cut the last fragment
    let last_begin = slash_positions[m - 1] + 1;
    proof {
        lemma_slash_boundaries(b, m - 1);
    }
    let (_, last_fragment) = path.split_at(last_begin);
    if len - last_begin > MAX_FILENAME {
        let truncated_filename = truncate_by_bytes(last_fragment, MAX_FILENAME);
        let prefix_bytes = slash_positions[m - 1];
        if prefix_bytes <= MAX_PREFIX {
            let (prefix_part, _) = path.split_at(prefix_bytes);
            return PathSplit {
                prefix: prefix_part.to_owned(),
                filename: truncated_filename,
                is_truncated: true,
            };
        }
        let r = PathSplit { prefix: String::new(), filename: truncated_filename, is_truncated: true };
        assert(encode_utf8(r.prefix@) =~= seq![]);
        return r;
    }
    let r = PathSplit {
        prefix: String::new(),
        filename: truncate_by_bytes(path, MAX_FILENAME),
        is_truncated: true,
    };
    assert(encode_utf8(r.prefix@) =~= seq![]);
    r
}

/// The encoding of a concatenation is the concatenation of the encodings.
pub proof fn lemma_encode_utf8_concat(a: Seq<char>, b: Seq<char>)
    ensures
        encode_utf8(a + b) == encode_utf8(a) + encode_utf8(b),
    decreases a.len(),
{
    if a.len() > 0 {
        assert((a + b).drop_first() =~= a.drop_first() + b);
        lemma_encode_utf8_concat(a.drop_first(), b);
        assert((a + b)[0] == a[0]);
    } else {
        assert(a + b =~= b);
    }
}

} // verus!
