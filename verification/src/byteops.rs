//! Byte-level and text-level primitives shared by the codecs: byte-sequence
//! comparison and search, big-endian 32-bit packing, decimal rendering, and
//! the bridge between ASCII byte sequences and owned strings.

use vstd::prelude::*;
use vstd::utf8::{encode_utf8, valid_utf8};

verus! {

broadcast use vstd::string::group_string_axioms;

/// The characters that an all-ASCII byte sequence spells, byte for byte.
pub open spec fn ascii_chars(b: Seq<u8>) -> Seq<char> {
    b.map(|i: int, x: u8| x as char)
}

/// The bytes that an all-ASCII character sequence writes, character for
/// character.
pub open spec fn ascii_bytes(s: Seq<char>) -> Seq<u8> {
    s.map(|i: int, c: char| c as u8)
}

/// True when every byte is an ASCII code point.
pub open spec fn all_ascii(b: Seq<u8>) -> bool {
    forall|i: int| 0 <= i < b.len() ==> b[i] < 128
}

/// Whether two byte slices hold the same bytes.
pub fn bytes_eq(a: &[u8], b: &[u8]) -> (r: bool)
    ensures
        r == (a@ == b@),
{
    if a.len() != b.len() {
        proof {
            assert(a@.len() != b@.len());
        }
        return false;
    }
    let n: usize = a.len();
    let mut i: usize = 0;
    while i < n
        invariant
            n == a@.len() && n == b@.len(),
            0 <= i <= n,
            forall|j: int| 0 <= j < i ==> a@[j] == b@[j],
        decreases n - i,
    {
        if a[i] != b[i] {
            return false;
        }
        i += 1;
    }
    proof {
        assert(a@ =~= b@);
    }
    true
}

/// Whether the first `end` bytes of `b` are exactly the bytes of `pat`.
pub fn prefix_eq(b: &[u8], end: usize, pat: &[u8]) -> (r: bool)
    requires
        end <= b@.len(),
    ensures
        r == (b@.subrange(0, end as int) == pat@),
{
    if end != pat.len() {
        proof {
            assert(b@.subrange(0, end as int).len() != pat@.len());
        }
        return false;
    }
    let mut i: usize = 0;
    while i < end
        invariant
            end <= b@.len() && end == pat@.len(),
            0 <= i <= end,
            forall|j: int| 0 <= j < i ==> b@[j] == pat@[j],
        decreases end - i,
    {
        if b[i] != pat[i] {
            proof {
                assert(b@.subrange(0, end as int)[i as int] != pat@[i as int]);
            }
            return false;
        }
        i += 1;
    }
    proof {
        assert(b@.subrange(0, end as int) =~= pat@);
    }
    true
}

/// The position of the first occurrence of `t` in `b` at or after `start`.
pub open spec fn spec_find_byte(b: Seq<u8>, start: int, t: u8) -> Option<int>
    decreases b.len() - start,
{
    if start < 0 || start >= b.len() {
        None
    } else if b[start] == t {
        Some(start)
    } else {
        spec_find_byte(b, start + 1, t)
    }
}

/// A found position is the first occurrence: the byte there is `t` and no
/// earlier byte from `start` on is.
pub proof fn lemma_find_byte_some(b: Seq<u8>, start: int, t: u8, i: int)
    requires
        0 <= start <= i < b.len(),
        b[i] == t,
        forall|j: int| start <= j < i ==> b[j] != t,
    ensures
        spec_find_byte(b, start, t) == Some(i),
    decreases i - start,
{
    if start < i {
        lemma_find_byte_some(b, start + 1, t, i);
    }
}

/// A found position lies between the start of the search and the end of
/// the sequence.
pub proof fn lemma_find_byte_range(b: Seq<u8>, start: int, t: u8)
    ensures
        spec_find_byte(b, start, t) matches Some(i) ==> start <= i < b.len(),
    decreases b.len() - start,
{
    if 0 <= start < b.len() && b[start] != t {
        lemma_find_byte_range(b, start + 1, t);
    }
}

/// When no byte from `start` on is `t`, the search finds nothing.
pub proof fn lemma_find_byte_none(b: Seq<u8>, start: int, t: u8)
    requires
        0 <= start,
        forall|j: int| start <= j < b.len() ==> b[j] != t,
    ensures
        spec_find_byte(b, start, t) is None,
    decreases b.len() - start,
{
    if start < b.len() {
        lemma_find_byte_none(b, start + 1, t);
    }
}

/// Finds the first occurrence of `t` in `b` at or after `start`.
pub fn find_byte(b: &[u8], start: usize, t: u8) -> (r: Option<usize>)
    ensures
        match r {
            Some(i) => start <= i < b@.len() && spec_find_byte(b@, start as int, t) == Some(
                i as int,
            ),
            None => spec_find_byte(b@, start as int, t) is None,
        },
{
    let n: usize = b.len();
    if start >= n {
        return None;
    }
    let mut i: usize = start;
    while i < n
        invariant
            n == b@.len(),
            start <= i <= n,
            forall|j: int| start <= j < i ==> b@[j] != t,
        decreases n - i,
    {
        if b[i] == t {
            proof {
                lemma_find_byte_some(b@, start as int, t, i as int);
            }
            return Some(i);
        }
        i += 1;
    }
    proof {
        lemma_find_byte_none(b@, start as int, t);
    }
    None
}

/// The four bytes of `n`, most significant first.
pub open spec fn spec_be32(n: u32) -> Seq<u8> {
    seq![
        ((n >> 24) & 0xFF) as u8,
        ((n >> 16) & 0xFF) as u8,
        ((n >> 8) & 0xFF) as u8,
        (n & 0xFF) as u8,
    ]
}

/// The value read back from four bytes, most significant first.
pub open spec fn spec_be32_val(b0: u8, b1: u8, b2: u8, b3: u8) -> u32 {
    (((b0 as u32) << 24) + ((b1 as u32) << 16) + ((b2 as u32) << 8) + (b3 as u32)) as u32
}

/// Packing a value big-endian and reading it back returns the value.
pub proof fn lemma_be32_roundtrip(n: u32)
    ensures
        spec_be32_val(
            ((n >> 24) & 0xFF) as u8,
            ((n >> 16) & 0xFF) as u8,
            ((n >> 8) & 0xFF) as u8,
            (n & 0xFF) as u8,
        ) == n,
{
    assert((((((n >> 24) & 0xFF) as u8) as u32) << 24) + (((((n >> 16) & 0xFF) as u8) as u32)
        << 16) + (((((n >> 8) & 0xFF) as u8) as u32) << 8) + (((n & 0xFF) as u8) as u32)
        == n) by (bit_vector);
}

/// Reading back four bytes known to be a value's big-endian packing
/// returns the value.
pub proof fn lemma_be32_recover(b: Seq<u8>, p: int, n: u32)
    requires
        0 <= p,
        p + 4 <= b.len(),
        b.subrange(p, p + 4) == spec_be32(n),
    ensures
        spec_be32_val(b[p], b[p + 1], b[p + 2], b[p + 3]) == n,
{
    assert(b[p] == spec_be32(n)[0]);
    assert(b[p + 1] == spec_be32(n)[1]);
    assert(b[p + 2] == spec_be32(n)[2]);
    assert(b[p + 3] == spec_be32(n)[3]);
    lemma_be32_roundtrip(n);
}

/// Appends the four big-endian bytes of `n`.
pub fn push_be32(out: &mut Vec<u8>, n: u32)
    ensures
        final(out)@ == old(out)@ + spec_be32(n),
{
    let b0: u8 = ((n >> 24) & 0xFF) as u8;
    let b1: u8 = ((n >> 16) & 0xFF) as u8;
    let b2: u8 = ((n >> 8) & 0xFF) as u8;
    let b3: u8 = (n & 0xFF) as u8;
    out.push(b0);
    out.push(b1);
    out.push(b2);
    out.push(b3);
    proof {
        assert(final(out)@ =~= old(out)@ + spec_be32(n));
    }
}

/// Appends all bytes of `b`.
pub fn push_bytes(out: &mut Vec<u8>, b: &[u8])
    ensures
        final(out)@ == old(out)@ + b@,
{
    let n: usize = b.len();
    let mut i: usize = 0;
    while i < n
        invariant
            n == b@.len(),
            0 <= i <= n,
            out@ == old(out)@ + b@.subrange(0, i as int),
        decreases n - i,
    {
        out.push(b[i]);
        i += 1;
        proof {
            assert(out@ =~= old(out)@ + b@.subrange(0, i as int));
        }
    }
    proof {
        assert(b@.subrange(0, n as int) =~= b@);
    }
}

/// Copies the bytes of `b` between two positions into a fresh vector.
pub fn copy_range(b: &[u8], from: usize, to: usize) -> (r: Vec<u8>)
    requires
        from <= to <= b@.len(),
    ensures
        r@ == b@.subrange(from as int, to as int),
{
    let mut out: Vec<u8> = Vec::new();
    let mut i: usize = from;
    proof {
        assert(out@ =~= b@.subrange(from as int, from as int));
    }
    while i < to
        invariant
            from <= i <= to <= b@.len(),
            out@ == b@.subrange(from as int, i as int),
        decreases to - i,
    {
        out.push(b[i]);
        i += 1;
        proof {
            assert(out@ =~= b@.subrange(from as int, i as int));
        }
    }
    out
}

/// A run of `n` zero bytes.
pub open spec fn zeros(n: nat) -> Seq<u8> {
    Seq::new(n, |i: int| 0u8)
}

/// Appends `n` zero bytes.
pub fn push_zeros(out: &mut Vec<u8>, n: usize)
    ensures
        final(out)@ == old(out)@ + zeros(n as nat),
{
    let mut i: usize = 0;
    while i < n
        invariant
            0 <= i <= n,
            out@ == old(out)@ + zeros(i as nat),
        decreases n - i,
    {
        out.push(0u8);
        i += 1;
        proof {
            assert(out@ =~= old(out)@ + zeros(i as nat));
        }
    }
}

/// The decimal digits of `n` as ASCII bytes, most significant first.
pub open spec fn spec_dec_bytes(n: nat) -> Seq<u8>
    decreases n,
{
    if n < 10 {
        seq![(48 + n) as u8]
    } else {
        spec_dec_bytes(n / 10) + seq![(48 + n % 10) as u8]
    }
}

/// Every decimal digit byte is an ASCII code point.
pub proof fn lemma_dec_bytes_ascii(n: nat)
    ensures
        all_ascii(spec_dec_bytes(n)),
        spec_dec_bytes(n).len() >= 1,
    decreases n,
{
    if n >= 10 {
        lemma_dec_bytes_ascii(n / 10);
        assert forall|i: int| 0 <= i < spec_dec_bytes(n).len() implies spec_dec_bytes(n)[i]
            < 128 by {
            if i < spec_dec_bytes(n / 10).len() {
                assert(spec_dec_bytes(n)[i] == spec_dec_bytes(n / 10)[i]);
            }
        }
    }
}

/// Renders `n` in decimal as ASCII bytes.
pub fn dec_bytes(n: u64) -> (r: Vec<u8>)
    ensures
        r@ == spec_dec_bytes(n as nat),
    decreases n,
{
    if n < 10 {
        let mut v: Vec<u8> = Vec::new();
        v.push(48 + (n as u8));
        proof {
            assert(v@ =~= spec_dec_bytes(n as nat));
        }
        v
    } else {
        let mut v = dec_bytes(n / 10);
        v.push(48 + ((n % 10) as u8));
        proof {
            assert(v@ =~= spec_dec_bytes(n as nat));
        }
        v
    }
}

/// Relies on `String::from_utf8`: it succeeds exactly on valid UTF-8 input,
/// returning the text whose UTF-8 encoding is that input.
#[verifier::external_body]
pub(crate) fn string_from_utf8(bytes: Vec<u8>) -> (r: Option<String>)
    ensures
        r is Some <==> valid_utf8(bytes@),
        r matches Some(s) ==> encode_utf8(s@) == bytes@,
{
    match String::from_utf8(bytes) {
        Ok(s) => Some(s),
        Err(_) => None,
    }
}

/// An all-ASCII byte sequence is a valid UTF-8 encoding.
pub proof fn lemma_ascii_valid_utf8(b: Seq<u8>)
    requires
        all_ascii(b),
    ensures
        valid_utf8(b),
{
    assert(forall|i: int|
        0 <= i < b.len() ==> #[trigger] vstd::utf8::is_leading_byte_width_1(b[i]));
    assert(b.subrange(0, 0) =~= Seq::<u8>::empty());
    assert(vstd::utf8::partial_valid_utf8(b, 0));
    vstd::utf8::partial_valid_utf8_extend_ascii_block(b, 0, b.len() as int);
    assert(b.subrange(0, b.len() as int) =~= b);
}

/// The spelled characters of an all-ASCII byte sequence encode back to it.
pub proof fn lemma_ascii_chars_encode(b: Seq<u8>)
    requires
        all_ascii(b),
    ensures
        vstd::utf8::is_ascii_chars(ascii_chars(b)),
        encode_utf8(ascii_chars(b)) == b,
{
    let cs = ascii_chars(b);
    assert forall|i: int| 0 <= i < cs.len() implies '\0' <= #[trigger] cs[i] <= '\u{7f}' by {
        assert(cs[i] == b[i] as char);
    }
    vstd::utf8::is_ascii_chars_encode_utf8(cs);
    assert(encode_utf8(cs) =~= b);
}

/// Writing ASCII characters as bytes and reading them back is the
/// identity, and the bytes written are all ASCII.
pub proof fn lemma_ascii_roundtrip(s: Seq<char>)
    requires
        vstd::utf8::is_ascii_chars(s),
    ensures
        all_ascii(ascii_bytes(s)),
        ascii_chars(ascii_bytes(s)) == s,
{
    assert forall|i: int| 0 <= i < s.len() implies ascii_bytes(s)[i] < 128 by {
        assert('\0' <= s[i] <= '\u{7f}');
    }
    assert forall|i: int| 0 <= i < s.len() implies ascii_chars(ascii_bytes(s))[i] == s[i] by {
        assert('\0' <= s[i] <= '\u{7f}');
        assert(ascii_bytes(s)[i] == s[i] as u8);
    }
    assert(ascii_chars(ascii_bytes(s)) =~= s);
}

/// Builds the string that a run of ASCII bytes spells.
pub fn ascii_string(bytes: Vec<u8>) -> (r: String)
    requires
        all_ascii(bytes@),
    ensures
        r@ == ascii_chars(bytes@),
{
    let ghost b = bytes@;
    proof {
        lemma_ascii_valid_utf8(b);
    }
    match string_from_utf8(bytes) {
        Some(s) => {
            proof {
                lemma_ascii_chars_encode(b);
                vstd::utf8::encode_utf8_decode_utf8(s@);
                vstd::utf8::encode_utf8_decode_utf8(ascii_chars(b));
            }
            s
        },
        None => {
            proof {
                assert(false);
            }
            String::new()
        },
    }
}

/// Whether two string slices hold the same characters.
pub fn str_equal(a: &str, b: &str) -> (r: bool)
    ensures
        r == (a@ == b@),
{
    let r = bytes_eq(a.as_bytes(), b.as_bytes());
    proof {
        if r {
            vstd::utf8::encode_utf8_decode_utf8(a@);
            vstd::utf8::encode_utf8_decode_utf8(b@);
        }
    }
    r
}

} // verus!
