//! Byte-level encodings shared by the rest of the library: lowercase hex,
//! decimal numbers and UTF-8 text.

use vstd::prelude::*;
use vstd::utf8::*;
use vstd::string::StringSliceAdditionalSpecFns;

verus! {

/// The lowercase hex digit for a value below 16.
pub open spec fn hex_char(v: int) -> char {
    if v < 10 {
        (v + 48) as char
    } else {
        (v + 87) as char
    }
}

/// Lowercase hex text of a byte string: two digits per byte, high nibble first.
pub open spec fn hex_lower(b: Seq<u8>) -> Seq<char> {
    Seq::new(
        2 * b.len(),
        |i: int|
            if i % 2 == 0 {
                hex_char(b[i / 2] as int / 16)
            } else {
                hex_char(b[i / 2] as int % 16)
            },
    )
}

/// The value of one hex digit, upper or lower case.
pub open spec fn hex_digit_value(c: u8) -> Option<u8> {
    if 48 <= c <= 57 {
        Some((c - 48) as u8)
    } else if 97 <= c <= 102 {
        Some((c - 87) as u8)
    } else if 65 <= c <= 70 {
        Some((c - 55) as u8)
    } else {
        None
    }
}

/// Every byte of `d` is a hex digit.
pub open spec fn all_hex_digits(d: Seq<u8>) -> bool {
    forall|i: int| 0 <= i < d.len() ==> (#[trigger] hex_digit_value(d[i])) is Some
}

/// `index` is the first position of `d` that holds no hex digit.
pub open spec fn first_non_hex(d: Seq<u8>, index: int) -> bool {
    &&& 0 <= index < d.len()
    &&& hex_digit_value(d[index]) is None
    &&& all_hex_digits(d.take(index))
}

/// The bytes that an even-length string of hex digits stands for.
pub open spec fn hex_decoded(d: Seq<u8>) -> Seq<u8> {
    Seq::new(
        d.len() / 2,
        |i: int|
            (hex_digit_value(d[2 * i]).unwrap() * 16 + hex_digit_value(d[2 * i + 1]).unwrap()) as u8,
    )
}

/// Why a string is not hex text.
#[derive(Debug, Clone, Copy, PartialEq, Eq)]
pub enum HexError {
    /// The byte at `index`, read as a Latin-1 char `c`, is not a hex digit.
    InvalidHexCharacter { c: char, index: usize },
    /// The text holds an odd number of digits.
    OddLength,
}

/// What decoding `d` as hex gives: the bytes, or the first fault.
pub open spec fn hex_decode_result(d: Seq<u8>) -> Result<Seq<u8>, HexError> {
    if d.len() % 2 != 0 {
        Err(HexError::OddLength)
    } else if all_hex_digits(d) {
        Ok(hex_decoded(d))
    } else {
        let index = choose|index: int| first_non_hex(d, index);
        Err(HexError::InvalidHexCharacter { c: d[index] as char, index: index as usize })
    }
}

/// Calls `hex::encode`: the lowercase hex text of `data`, two digits per
/// byte, high nibble first.
#[verifier::external_body]
fn hex_encode_bytes(data: &[u8]) -> (res: String)
    ensures
        res@ == hex_lower(data@),
{
    hex::encode(data)
}

/// Calls `hex::decode`. Its source checks for an even length first
/// (`OddLength`), then decodes pair by pair, left digit first, and stops at
/// the first byte that is not one of `0-9`, `a-f`, `A-F`, reporting that byte
/// as a char and its position. The error is carried over variant by variant;
/// `InvalidStringLength`, which `decode` never returns, is folded into `OddLength`.
#[verifier::external_body]
fn hex_decode_bytes(data: &[u8]) -> (res: Result<Vec<u8>, HexError>)
    ensures
        match res {
            Ok(v) => hex_decode_result(data@) == Ok::<Seq<u8>, HexError>(v@),
            Err(e) => hex_decode_result(data@) == Err::<Seq<u8>, HexError>(e),
        },
{
    match hex::decode(data) {
        Ok(v) => Ok(v),
        Err(hex::FromHexError::InvalidHexCharacter { c, index }) => Err(
            HexError::InvalidHexCharacter { c, index },
        ),
        Err(hex::FromHexError::OddLength) => Err(HexError::OddLength),
        Err(hex::FromHexError::InvalidStringLength) => Err(HexError::OddLength),
    }
}

/// Lowercase hex text of `data`.
pub fn hex_encode(data: &[u8]) -> (res: String)
    ensures
        res@ == hex_lower(data@),
{
    hex_encode_bytes(data)
}

/// Decodes hex text (either case) into bytes.
pub fn hex_to_bytes(hex: &str) -> (res: Result<Vec<u8>, HexError>)
    ensures
        match res {
            Ok(v) => hex_decode_result(hex.spec_bytes()) == Ok::<Seq<u8>, HexError>(v@),
            Err(e) => hex_decode_result(hex.spec_bytes()) == Err::<Seq<u8>, HexError>(e),
        },
{
    hex_decode_bytes(hex.as_bytes())
}


/// Decimal digits of `n`, most significant first, without leading zeros.
pub open spec fn decimal(n: nat) -> Seq<u8>
    decreases n,
{
    if n < 10 {
        seq![(n + 48) as u8]
    } else {
        decimal(n / 10) + seq![(n % 10 + 48) as u8]
    }
}

/// Every byte of `s` is an ASCII decimal digit.
pub open spec fn all_digits(s: Seq<u8>) -> bool {
    forall|i: int| 0 <= i < s.len() ==> 48 <= #[trigger] s[i] <= 57
}

/// Decimal text is made of digits and is never empty.
pub proof fn lemma_decimal_digits(n: nat)
    ensures
        all_digits(decimal(n)),
        decimal(n).len() >= 1,
    decreases n,
{
    if n >= 10 {
        lemma_decimal_digits(n / 10);
        let d = decimal(n / 10);
        assert forall|i: int| 0 <= i < decimal(n).len() implies 48 <= #[trigger] decimal(n)[i]
            <= 57 by {
            if i < d.len() {
                assert(decimal(n)[i] == d[i]);
            }
        }
    }
}

/// The decimal text of `n`.
pub fn decimal_bytes(n: u64) -> (res: Vec<u8>)
    ensures
        res@ == decimal(n as nat),
    decreases n,
{
    if n < 10 {
        let mut v: Vec<u8> = Vec::new();
        v.push((n + 48) as u8);
        v
    } else {
        let mut v = decimal_bytes(n / 10);
        v.push((n % 10 + 48) as u8);
        v
    }
}

/// Calls `String::from_utf8`, which std documents to succeed exactly on
/// valid UTF-8 and then to hold the chars that the bytes encode.
#[verifier::external_body]
fn string_from_utf8(bytes: Vec<u8>) -> (res: Option<String>)
    ensures
        res is Some <==> valid_utf8(bytes@),
        res matches Some(s) ==> s@ == decode_utf8(bytes@),
{
    String::from_utf8(bytes).ok()
}

/// The text whose UTF-8 encoding is `bytes`, if the bytes are valid UTF-8.
pub fn utf8_string(bytes: Vec<u8>) -> (res: Option<String>)
    ensures
        res is Some <==> valid_utf8(bytes@),
        res matches Some(s) ==> encode_utf8(s@) == bytes@,
{
    let ghost b = bytes@;
    let r = string_from_utf8(bytes);
    proof {
        if r is Some {
            decode_utf8_encode_utf8(b);
        }
    }
    r
}

/// The text whose UTF-8 encoding is `bytes`, which must be valid UTF-8.
pub fn string_of_utf8(bytes: Vec<u8>) -> (res: String)
    requires
        valid_utf8(bytes@),
    ensures
        encode_utf8(res@) == bytes@,
{
    match utf8_string(bytes) {
        Some(s) => s,
        None => String::new(),
    }
}

/// Every byte is below 128.
pub open spec fn ascii_bytes(b: Seq<u8>) -> bool {
    forall|i: int| 0 <= i < b.len() ==> #[trigger] b[i] < 128
}

/// ASCII bytes are valid UTF-8.
pub proof fn lemma_ascii_valid_utf8(b: Seq<u8>)
    requires
        ascii_bytes(b),
    ensures
        valid_utf8(b),
        b == encode_utf8(b.map_values(|x: u8| x as char)),
{
    let chars = b.map_values(|x: u8| x as char);
    assert(is_ascii_chars(chars)) by {
        assert forall|i| 0 <= i < chars.len() implies '\0' <= #[trigger] chars[i] <= '\u{7f}' by {
            assert(b[i] < 128);
        }
    }
    is_ascii_chars_encode_utf8(chars);
    assert forall|i| 0 <= i < b.len() implies b[i] == encode_utf8(chars)[i] by {
        assert(chars[i] as u8 == encode_utf8(chars)[i]);
        assert(b[i] < 128);
    }
    assert(b =~= encode_utf8(chars));
    encode_utf8_valid_utf8(chars);
}

/// The UTF-8 bytes of a text, as a vector.
pub fn str_bytes(s: &str) -> (res: Vec<u8>)
    ensures
        res@ == encode_utf8(s@),
{
    let b = s.as_bytes();
    let mut v: Vec<u8> = Vec::new();
    v.extend_from_slice(b);
    v
}

/// `i` is the first position in `s` at or after `from` that holds `b`.
pub open spec fn is_first_at(s: Seq<u8>, b: u8, from: int, i: int) -> bool {
    &&& from <= i < s.len()
    &&& s[i] == b
    &&& forall|j: int| from <= j < i ==> s[j] != b
}

/// The first position in `s` at or after `from` that holds `b`.
pub open spec fn find_from(s: Seq<u8>, b: u8, from: int) -> Option<int> {
    if exists|i: int| is_first_at(s, b, from, i) {
        Some(choose|i: int| is_first_at(s, b, from, i))
    } else {
        None
    }
}

/// There is at most one first position.
pub proof fn lemma_first_unique(s: Seq<u8>, b: u8, from: int, i: int, k: int)
    requires
        is_first_at(s, b, from, i),
        is_first_at(s, b, from, k),
    ensures
        i == k,
{
}

/// Finds the first position at or after `from` that holds `b`.
pub fn find_byte(s: &[u8], b: u8, from: usize) -> (res: Option<usize>)
    ensures
        match res {
            Some(i) => find_from(s@, b, from as int) == Some(i as int),
            None => find_from(s@, b, from as int) is None,
        },
{
    let mut i = from;
    while i < s.len()
        invariant
            from <= i || s@.len() <= i,
            forall|j: int| from <= j < i && j < s@.len() ==> s@[j] != b,
        decreases s.len() - i,
    {
        if s[i] == b {
            assert(is_first_at(s@, b, from as int, i as int));
            proof {
                let k = choose|k: int| is_first_at(s@, b, from as int, k);
                lemma_first_unique(s@, b, from as int, i as int, k);
            }
            return Some(i);
        }
        i = i + 1;
    }
    assert(!exists|k: int| is_first_at(s@, b, from as int, k));
    None
}

/// A copy of the bytes of `s` from `lo` up to `hi`.
pub fn slice_copy(s: &[u8], lo: usize, hi: usize) -> (res: Vec<u8>)
    requires
        lo <= hi <= s@.len(),
    ensures
        res@ == s@.subrange(lo as int, hi as int),
{
    let mut v: Vec<u8> = Vec::new();
    let mut i = lo;
    while i < hi
        invariant
            lo <= i <= hi <= s@.len(),
            v@ == s@.subrange(lo as int, i as int),
        decreases hi - i,
    {
        v.push(s[i]);
        i = i + 1;
        assert(v@ =~= s@.subrange(lo as int, i as int));
    }
    v
}


/// Cutting valid UTF-8 at an ASCII byte, or at its end, leaves valid UTF-8
/// on both sides.
pub proof fn lemma_split_at_ascii(b: Seq<u8>, i: int)
    requires
        valid_utf8(b),
        0 <= i <= b.len(),
        i < b.len() ==> b[i] < 128,
    ensures
        valid_utf8(b.take(i)),
        valid_utf8(b.skip(i)),
        decode_utf8(b) == decode_utf8(b.take(i)) + decode_utf8(b.skip(i)),
{
    is_char_boundary_start_end_of_seq(b);
    if i < b.len() {
        is_char_boundary_iff_not_is_continuation_byte(b, i);
    }
    valid_utf8_split(b, i);
    decode_utf8_split(b, i);
    assert(b.take(i) =~= b.subrange(0, i));
    assert(b.skip(i) =~= b.subrange(i, b.len() as int));
}


/// Lexicographic order on byte strings, the order of Rust's `str` and `[u8]`:
/// a proper prefix comes first.
pub open spec fn lex_lt(a: Seq<u8>, b: Seq<u8>) -> bool
    decreases a.len(),
{
    if b.len() == 0 {
        false
    } else if a.len() == 0 {
        true
    } else if a[0] != b[0] {
        a[0] < b[0]
    } else {
        lex_lt(a.drop_first(), b.drop_first())
    }
}

/// No byte string comes before itself.
pub proof fn lemma_lex_irreflexive(a: Seq<u8>)
    ensures
        !lex_lt(a, a),
    decreases a.len(),
{
    if a.len() > 0 {
        lemma_lex_irreflexive(a.drop_first());
    }
}

/// Lexicographic order is transitive.
pub proof fn lemma_lex_transitive(a: Seq<u8>, b: Seq<u8>, c: Seq<u8>)
    requires
        lex_lt(a, b),
        lex_lt(b, c),
    ensures
        lex_lt(a, c),
    decreases a.len(),
{
    if a.len() > 0 && b.len() > 0 && c.len() > 0 && a[0] == b[0] && b[0] == c[0] {
        lemma_lex_transitive(a.drop_first(), b.drop_first(), c.drop_first());
    }
}

/// Of two different byte strings, one comes first.
pub proof fn lemma_lex_total(a: Seq<u8>, b: Seq<u8>)
    ensures
        a == b || lex_lt(a, b) || lex_lt(b, a),
    decreases a.len(),
{
    if a.len() > 0 && b.len() > 0 && a[0] == b[0] {
        lemma_lex_total(a.drop_first(), b.drop_first());
        if a.drop_first() == b.drop_first() {
            assert(a =~= seq![a[0]] + a.drop_first());
            assert(b =~= seq![b[0]] + b.drop_first());
        }
    } else if a.len() == 0 && b.len() == 0 {
        assert(a =~= b);
    }
}

/// Whether `a` comes before `b` in lexicographic order.
pub fn bytes_lt(a: &[u8], b: &[u8]) -> (res: bool)
    ensures
        res == lex_lt(a@, b@),
{
    let mut i: usize = 0;
    assert(a@.skip(0) =~= a@);
    assert(b@.skip(0) =~= b@);
    while i < a.len() && i < b.len()
        invariant
            i <= a@.len(),
            i <= b@.len(),
            lex_lt(a@, b@) == lex_lt(a@.skip(i as int), b@.skip(i as int)),
        decreases a.len() - i,
    {
        if a[i] != b[i] {
            return a[i] < b[i];
        }
        assert(a@.skip(i as int).drop_first() =~= a@.skip(i + 1));
        assert(b@.skip(i as int).drop_first() =~= b@.skip(i + 1));
        i = i + 1;
    }
    i < b.len()
}

/// Whether two byte strings are equal.
pub fn bytes_eq(a: &[u8], b: &[u8]) -> (res: bool)
    ensures
        res == (a@ == b@),
{
    if a.len() != b.len() {
        return false;
    }
    let mut i: usize = 0;
    while i < a.len()
        invariant
            a@.len() == b@.len(),
            i <= a@.len(),
            a@.take(i as int) == b@.take(i as int),
        decreases a.len() - i,
    {
        if a[i] != b[i] {
            return false;
        }
        assert(a@.take(i + 1) =~= a@.take(i as int).push(a@[i as int]));
        assert(b@.take(i + 1) =~= b@.take(i as int).push(b@[i as int]));
        i = i + 1;
    }
    assert(a@ =~= a@.take(i as int));
    assert(b@ =~= b@.take(i as int));
    true
}


/// 256 to the power `n`.
pub open spec fn pow256(n: nat) -> nat
    decreases n,
{
    if n == 0 {
        1
    } else {
        256 * pow256((n - 1) as nat)
    }
}

/// The number that big-endian bytes stand for.
pub open spec fn be_value(b: Seq<u8>) -> nat
    decreases b.len(),
{
    if b.len() == 0 {
        0
    } else {
        be_value(b.drop_last()) * 256 + (b.last() as nat)
    }
}

/// The low `n` bytes of `v`, most significant first.
pub open spec fn be_bytes(v: nat, n: nat) -> Seq<u8>
    decreases n,
{
    if n == 0 {
        seq![]
    } else {
        be_bytes(v / 256, (n - 1) as nat) + seq![(v % 256) as u8]
    }
}

/// `n` big-endian bytes hold any number below 256 to the `n` and read back as it.
pub proof fn lemma_be_roundtrip(v: nat, n: nat)
    requires
        v < pow256(n),
    ensures
        be_bytes(v, n).len() == n,
        be_value(be_bytes(v, n)) == v,
    decreases n,
{
    if n > 0 {
        assert(v / 256 < pow256((n - 1) as nat));
        lemma_be_roundtrip(v / 256, (n - 1) as nat);
        let b = be_bytes(v, n);
        assert(b.drop_last() =~= be_bytes(v / 256, (n - 1) as nat));
    }
}

/// Bytes read big-endian stay below 256 to the number of bytes.
pub proof fn lemma_be_value_bound(b: Seq<u8>)
    ensures
        be_value(b) < pow256(b.len()),
    decreases b.len(),
{
    if b.len() > 0 {
        lemma_be_value_bound(b.drop_last());
        assert(pow256(b.len()) == 256 * pow256(b.drop_last().len()));
    }
}

/// Appends the low `n` bytes of `v`, most significant first.
pub fn push_be(out: &mut Vec<u8>, v: u64, n: usize)
    ensures
        final(out)@ == old(out)@ + be_bytes(v as nat, n as nat),
    decreases n,
{
    if n > 0 {
        push_be(out, v / 256, n - 1);
        out.push((v % 256) as u8);
    } else {
        assert(old(out)@ + be_bytes(v as nat, 0) =~= old(out)@);
    }
}

/// Reads `n` bytes at `off` as a big-endian number.
pub fn read_be(data: &[u8], off: usize, n: usize) -> (res: u64)
    requires
        off + n <= data@.len(),
        n <= 8,
    ensures
        res as nat == be_value(data@.subrange(off as int, off + n)),
{
    let mut v: u64 = 0;
    let mut i: usize = 0;
    let total = data.len();
    proof {
        reveal_with_fuel(pow256, 9);
    }
    assert(data@.subrange(off as int, off as int) =~= Seq::<u8>::empty());
    while i < n
        invariant
            off + n <= data@.len(),
            data@.len() == total,
            n <= 8,
            i <= n,
            v as nat == be_value(data@.subrange(off as int, off + i)),
            pow256(8) == 0x1_0000_0000_0000_0000,
        decreases n - i,
    {
        proof {
            lemma_be_value_bound(data@.subrange(off as int, off + i));
            lemma_pow256_mono(i as nat, 7);
        }
        let ghost prev = data@.subrange(off as int, off + i);
        assert(v * 256 + 255 <= pow256(8) - 1) by (nonlinear_arith)
            requires
                v < pow256(i as nat),
                pow256(i as nat) <= pow256(7),
                pow256(8) == 256 * pow256(7),
        ;
        v = v * 256 + data[off + i] as u64;
        i = i + 1;
        assert(data@.subrange(off as int, off + i).drop_last() =~= prev);
    }
    v
}

/// Powers of 256 grow with the exponent.
pub proof fn lemma_pow256_mono(a: nat, b: nat)
    requires
        a <= b,
    ensures
        pow256(a) <= pow256(b),
    decreases b,
{
    if a < b {
        lemma_pow256_mono(a, (b - 1) as nat);
    }
}


/// Valid UTF-8 that starts with an ASCII byte goes on as valid UTF-8.
pub proof fn lemma_ascii_head(b: Seq<u8>)
    requires
        valid_utf8(b),
        b.len() > 0,
        b[0] < 128,
    ensures
        valid_utf8(b.drop_first()),
{
    assert(pop_first_scalar(b) =~= b.drop_first());
}

/// Cutting valid UTF-8 just after an ASCII byte leaves valid UTF-8 on both
/// sides.
pub proof fn lemma_split_after_ascii(b: Seq<u8>, i: int)
    requires
        valid_utf8(b),
        0 < i <= b.len(),
        b[i - 1] < 128,
    ensures
        valid_utf8(b.take(i)),
        valid_utf8(b.skip(i)),
{
    lemma_split_at_ascii(b, i - 1);
    let t = b.skip(i - 1);
    lemma_ascii_head(t);
    assert(t.drop_first() =~= b.skip(i));
    let h = b.take(i - 1);
    let a = seq![b[i - 1]];
    lemma_ascii_valid_utf8(a);
    valid_utf8_concat(h, a);
    assert(b.take(i) =~= h + a);
}

/// White space by the `White_Space` property that `char::is_whitespace`
/// uses.
pub open spec fn is_whitespace_char(c: char) -> bool {
    ||| '\u{9}' <= c <= '\u{d}'
    ||| c == ' '
    ||| c == '\u{85}'
    ||| c == '\u{a0}'
    ||| c == '\u{1680}'
    ||| '\u{2000}' <= c <= '\u{200a}'
    ||| c == '\u{2028}'
    ||| c == '\u{2029}'
    ||| c == '\u{202f}'
    ||| c == '\u{205f}'
    ||| c == '\u{3000}'
}

/// `s` without its leading white space.
pub open spec fn trim_start_chars(s: Seq<char>) -> Seq<char>
    decreases s.len(),
{
    if s.len() > 0 && is_whitespace_char(s[0]) {
        trim_start_chars(s.drop_first())
    } else {
        s
    }
}

/// `s` without its trailing white space.
pub open spec fn trim_end_chars(s: Seq<char>) -> Seq<char>
    decreases s.len(),
{
    if s.len() > 0 && is_whitespace_char(s.last()) {
        trim_end_chars(s.drop_last())
    } else {
        s
    }
}

/// `s` without leading or trailing white space.
pub open spec fn trim_chars(s: Seq<char>) -> Seq<char> {
    trim_end_chars(trim_start_chars(s))
}

/// Calls `str::trim`, which std documents to remove leading and trailing
/// white space as `char::is_whitespace` defines it.
#[verifier::external_body]
pub(crate) fn str_trim(s: &str) -> (res: &str)
    ensures
        res@ == trim_chars(s@),
{
    s.trim()
}

/// `b` starts with `prefix`.
pub open spec fn has_prefix(b: Seq<u8>, prefix: Seq<u8>) -> bool {
    b.len() >= prefix.len() && b.take(prefix.len() as int) == prefix
}

/// Whether `b` starts with `prefix`.
pub fn starts_with_bytes(b: &[u8], prefix: &[u8]) -> (res: bool)
    ensures
        res == has_prefix(b@, prefix@),
{
    if b.len() < prefix.len() {
        return false;
    }
    let mut i: usize = 0;
    while i < prefix.len()
        invariant
            b@.len() >= prefix@.len(),
            i <= prefix@.len(),
            forall|j: int| 0 <= j < i ==> b@[j] == prefix@[j],
        decreases prefix.len() - i,
    {
        if b[i] != prefix[i] {
            assert(b@.take(prefix@.len() as int)[i as int] != prefix@[i as int]);
            return false;
        }
        i = i + 1;
    }
    assert(b@.take(prefix@.len() as int) =~= prefix@);
    true
}


/// The number that decimal digits spell.
pub open spec fn digits_value(d: Seq<u8>) -> nat
    decreases d.len(),
{
    if d.len() == 0 {
        0
    } else {
        digits_value(d.drop_last()) * 10 + (d.last() - 48) as nat
    }
}

/// What `i64::from_str` makes of text: an optional `+` or `-`, then at
/// least one decimal digit, within the range of `i64`.
pub open spec fn parse_i64_spec(b: Seq<u8>) -> Option<i64> {
    let neg = b.len() > 0 && b[0] == 45u8;
    let signed = b.len() > 0 && (b[0] == 45u8 || b[0] == 43u8);
    let d = if signed { b.drop_first() } else { b };
    if d.len() == 0 || !all_digits(d) {
        None
    } else if neg {
        if digits_value(d) <= 0x8000_0000_0000_0000 {
            Some((0 - digits_value(d)) as i64)
        } else {
            None
        }
    } else if digits_value(d) <= 0x7fff_ffff_ffff_ffff {
        Some(digits_value(d) as i64)
    } else {
        None
    }
}

/// Appending a digit never makes the number smaller.
pub proof fn lemma_digits_value_grows(d: Seq<u8>, k: int)
    requires
        0 <= k <= d.len(),
        all_digits(d),
    ensures
        digits_value(d.take(k)) <= digits_value(d),
    decreases d.len() - k,
{
    if k < d.len() {
        lemma_digits_value_grows(d, k + 1);
        assert(d.take(k + 1).drop_last() =~= d.take(k));
    } else {
        assert(d.take(k) =~= d);
    }
}

/// Reads a decimal `i64` as `i64::from_str` does.
pub fn parse_i64(b: &[u8]) -> (res: Option<i64>)
    ensures
        res == parse_i64_spec(b@),
{
    let len = b.len();
    if len == 0 {
        return None;
    }
    let neg = b[0] == 45u8;
    let signed = b[0] == 45u8 || b[0] == 43u8;
    let start: usize = if signed { 1 } else { 0 };
    let ghost d = if signed { b@.drop_first() } else { b@ };
    assert(d =~= b@.skip(start as int));
    if start == len {
        return None;
    }
    let limit: u64 = if neg { 0x8000_0000_0000_0000 } else { 0x7fff_ffff_ffff_ffff };
    let mut v: u64 = 0;
    let mut i: usize = start;
    assert(d.take(0) =~= Seq::<u8>::empty());
    while i < len
        invariant
            len == b@.len(),
            len > 0,
            neg == (b@[0] == 45u8),
            signed == (b@[0] == 45u8 || b@[0] == 43u8),
            start == (if signed { 1usize } else { 0usize }),
            d == (if signed { b@.drop_first() } else { b@ }),
            limit == (if neg { 0x8000_0000_0000_0000u64 } else { 0x7fff_ffff_ffff_ffffu64 }),
            start <= i <= len,
            d == b@.skip(start as int),
            v as nat == digits_value(d.take(i - start)),
            v <= limit,
            all_digits(d.take(i - start)),
        decreases len - i,
    {
        let c = b[i];
        assert(d[i - start] == c);
        if c < 48 || c > 57 {
            assert(!all_digits(d));
            return None;
        }
        let digit = (c - 48) as u64;
        assert(d.take(i - start + 1).drop_last() =~= d.take(i - start));
        if v > (limit - digit) / 10 {
            proof {
                assert(digits_value(d.take(i - start + 1)) > limit);
                if all_digits(d) {
                    lemma_digits_value_grows(d, i - start + 1);
                }
            }
            return None;
        }
        v = v * 10 + digit;
        i = i + 1;
        assert forall|j: int| 0 <= j < d.take(i - start).len() implies 48 <= #[trigger] d.take(
            i - start,
        )[j] <= 57 by {
            if j < i - start - 1 {
                assert(d.take(i - start)[j] == d.take(i - start - 1)[j]);
            }
        }
    }
    assert(d.take(len - start) =~= d);
    if neg {
        if v == 0x8000_0000_0000_0000 {
            Some(-0x8000_0000_0000_0000i64)
        } else {
            Some(-(v as i64))
        }
    } else {
        Some(v as i64)
    }
}


/// A piece of valid UTF-8 cut out next to ASCII bytes (or at the ends) is
/// valid UTF-8.
pub proof fn lemma_ascii_bounded_piece(t: Seq<u8>, lo: int, hi: int)
    requires
        valid_utf8(t),
        0 <= lo <= hi <= t.len(),
        lo > 0 ==> t[lo - 1] < 128,
        hi < t.len() ==> t[hi] < 128,
    ensures
        valid_utf8(t.subrange(lo, hi)),
{
    let u = if lo > 0 {
        lemma_split_after_ascii(t, lo);
        t.skip(lo)
    } else {
        assert(t.skip(0) =~= t);
        t
    };
    assert(u =~= t.skip(lo));
    lemma_split_at_ascii(u, hi - lo);
    assert(u.take(hi - lo) =~= t.subrange(lo, hi));
}

/// `i` is the last position in `s` before `end` that holds `b`.
pub open spec fn is_last_before(s: Seq<u8>, b: u8, end: int, i: int) -> bool {
    &&& 0 <= i < end <= s.len()
    &&& s[i] == b
    &&& forall|j: int| i < j < end ==> s[j] != b
}

/// The last position in `s` before `end` that holds `b`.
pub open spec fn rfind_before(s: Seq<u8>, b: u8, end: int) -> Option<int> {
    if exists|i: int| is_last_before(s, b, end, i) {
        Some(choose|i: int| is_last_before(s, b, end, i))
    } else {
        None
    }
}

/// Finds the last position before `end` that holds `b`.
pub fn rfind_byte(s: &[u8], b: u8, end: usize) -> (res: Option<usize>)
    requires
        end <= s@.len(),
    ensures
        match res {
            Some(i) => rfind_before(s@, b, end as int) == Some(i as int),
            None => rfind_before(s@, b, end as int) is None,
        },
{
    let mut i = end;
    while i > 0
        invariant
            i <= end <= s@.len(),
            forall|j: int| i <= j < end ==> s@[j] != b,
        decreases i,
    {
        if s[i - 1] == b {
            let k = i - 1;
            assert(is_last_before(s@, b, end as int, k as int));
            proof {
                let q = choose|q: int| is_last_before(s@, b, end as int, q);
                if q < k {
                } else if q > k {
                }
            }
            return Some(k);
        }
        i = i - 1;
    }
    assert(!exists|q: int| is_last_before(s@, b, end as int, q));
    None
}


/// Where `b` occurs at or after `from`, it has a first occurrence there.
pub proof fn lemma_first_exists(s: Seq<u8>, b: u8, from: int, j: int)
    requires
        from <= j < s.len(),
        s[j] == b,
    ensures
        find_from(s, b, from) is Some,
        find_from(s, b, from) matches Some(i) && is_first_at(s, b, from, i) && i <= j,
    decreases j - from,
{
    if exists|k: int| from <= k < j && s[k] == b {
        let k = choose|k: int| from <= k < j && s[k] == b;
        lemma_first_exists(s, b, from, k);
    } else {
        assert(is_first_at(s, b, from, j));
    }
    let i = choose|i: int| is_first_at(s, b, from, i);
    if i > j {
    }
}


/// Lowercase hex text is ASCII, one byte per digit.
pub proof fn lemma_hex_lower_bytes(b: Seq<u8>)
    ensures
        encode_utf8(hex_lower(b)).len() == 2 * b.len(),
        forall|i: int|
            0 <= i < 2 * b.len() ==> #[trigger] encode_utf8(hex_lower(b))[i] == hex_lower(b)[i] as u8,
        forall|i: int| 0 <= i < 2 * b.len() ==> (#[trigger] hex_lower(b)[i] as u8) < 128,
{
    let h = hex_lower(b);
    assert(is_ascii_chars(h)) by {
        assert forall|i| 0 <= i < h.len() implies '\0' <= #[trigger] h[i] <= '\u{7f}' by {
            let v = if i % 2 == 0 { b[i / 2] as int / 16 } else { b[i / 2] as int % 16 };
            assert(0 <= v < 16);
        }
    }
    is_ascii_chars_encode_utf8(h);
    assert forall|i: int| 0 <= i < 2 * b.len() implies (#[trigger] hex_lower(b)[i] as u8) < 128 by {
        let v = if i % 2 == 0 { b[i / 2] as int / 16 } else { b[i / 2] as int % 16 };
        assert(0 <= v < 16);
    }
}

/// Decoding the lowercase hex text of bytes gives back the bytes.
pub proof fn lemma_hex_roundtrip(b: Seq<u8>)
    ensures
        hex_decode_result(encode_utf8(hex_lower(b))) == Ok::<Seq<u8>, HexError>(b),
{
    lemma_hex_lower_bytes(b);
    let d = encode_utf8(hex_lower(b));
    assert forall|i: int| 0 <= i < d.len() implies (#[trigger] hex_digit_value(d[i])) is Some
        && hex_digit_value(d[i]).unwrap() == (if i % 2 == 0 {
        b[i / 2] as int / 16
    } else {
        b[i / 2] as int % 16
    }) by {
        let v = if i % 2 == 0 { b[i / 2] as int / 16 } else { b[i / 2] as int % 16 };
        assert(0 <= v < 16);
        assert(d[i] == hex_lower(b)[i] as u8);
    }
    assert(d.len() % 2 == 0);
    assert(all_hex_digits(d));
    assert forall|i: int| 0 <= i < b.len() implies #[trigger] hex_decoded(d)[i] == b[i] by {
        assert(hex_digit_value(d[2 * i]) is Some);
        assert(hex_digit_value(d[2 * i + 1]) is Some);
        assert((2 * i) % 2 == 0);
        assert((2 * i + 1) % 2 == 1);
        assert((2 * i) / 2 == i);
        assert((2 * i + 1) / 2 == i);
    }
    assert(hex_decoded(d) =~= b);
}


/// Searching from `from` is searching what follows `from`.
pub proof fn lemma_find_shift(s: Seq<u8>, b: u8, from: int)
    requires
        0 <= from <= s.len(),
    ensures
        match find_from(s, b, from) {
            Some(i) => find_from(s.skip(from), b, 0) == Some(i - from),
            None => find_from(s.skip(from), b, 0) is None,
        },
{
    let t = s.skip(from);
    if exists|i: int| is_first_at(s, b, from, i) {
        let i = choose|i: int| is_first_at(s, b, from, i);
        assert(is_first_at(t, b, 0, i - from)) by {
            assert forall|j: int| 0 <= j < i - from implies t[j] != b by {
                assert(t[j] == s[from + j]);
            }
        }
        let k = choose|k: int| is_first_at(t, b, 0, k);
        lemma_first_unique(t, b, 0, i - from, k);
    } else {
        if exists|k: int| is_first_at(t, b, 0, k) {
            let k = choose|k: int| is_first_at(t, b, 0, k);
            assert(is_first_at(s, b, from, k + from)) by {
                assert forall|j: int| from <= j < k + from implies s[j] != b by {
                    assert(t[j - from] == s[j]);
                }
            }
        }
    }
}


/// Decimal text reads back as its number.
pub proof fn lemma_decimal_value(n: nat)
    ensures
        digits_value(decimal(n)) == n,
        all_digits(decimal(n)),
        decimal(n).len() >= 1,
    decreases n,
{
    lemma_decimal_digits(n);
    let d = decimal(n);
    if n >= 10 {
        lemma_decimal_value(n / 10);
        assert(d.drop_last() =~= decimal(n / 10));
        assert(d.last() == (n % 10 + 48) as u8);
        assert(digits_value(d) == (n / 10) * 10 + n % 10);
        assert(n == (n / 10) * 10 + n % 10);
    } else {
        assert(d.drop_last() =~= Seq::<u8>::empty());
        assert(d.last() == (n + 48) as u8);
        assert(digits_value(d.drop_last()) == 0);
        assert(digits_value(d) == n);
    }
}

/// The decimal text of a number within `i64` reads as that `i64`.
pub proof fn lemma_parse_decimal(n: nat)
    requires
        n <= 0x7fff_ffff_ffff_ffff,
    ensures
        parse_i64_spec(decimal(n)) == Some(n as i64),
{
    lemma_decimal_value(n);
    let d = decimal(n);
    assert(48 <= d[0] <= 57);
}


/// Encoding a joined text is joining the encodings.
pub proof fn lemma_encode_concat(a: Seq<char>, b: Seq<char>)
    ensures
        encode_utf8(a + b) == encode_utf8(a) + encode_utf8(b),
    decreases a.len(),
{
    if a.len() == 0 {
        assert(a + b =~= b);
        assert(encode_utf8(a) =~= Seq::<u8>::empty());
        assert(encode_utf8(a) + encode_utf8(b) =~= encode_utf8(b));
    } else {
        assert((a + b).drop_first() =~= a.drop_first() + b);
        lemma_encode_concat(a.drop_first(), b);
        assert((a + b)[0] == a[0]);
        assert(encode_utf8(a + b) =~= encode_utf8(a) + encode_utf8(b));
    }
}

/// Text whose UTF-8 encoding is `a + b + c`, with `a` and `c` ASCII, is
/// the chars of `a`, then the text encoded by `b`, then the chars of `c`;
/// `b` must be valid UTF-8 starting with an ASCII byte (or empty).
pub proof fn lemma_decode_framed(x: Seq<char>, a: Seq<u8>, b: Seq<u8>, c: Seq<u8>)
    requires
        encode_utf8(x) == a + b + c,
        ascii_bytes(a),
        ascii_bytes(c),
        valid_utf8(b),
        b.len() > 0 ==> b[0] < 128,
    ensures
        x == a.map_values(|v: u8| v as char) + decode_utf8(b) + c.map_values(|v: u8| v as char),
{
    let all = a + b + c;
    encode_utf8_decode_utf8(x);
    encode_utf8_valid_utf8(x);
    lemma_ascii_valid_utf8(a);
    lemma_ascii_valid_utf8(c);
    let i = a.len() as int;
    if i < all.len() {
        if b.len() > 0 {
            assert(all[i] == b[0]);
        } else if c.len() > 0 {
            assert(all[i] == c[0]);
        }
    }
    lemma_split_at_ascii(all, i);
    assert(all.take(i) =~= a);
    let rest = all.skip(i);
    assert(rest =~= b + c);
    let k = b.len() as int;
    if k < rest.len() {
        assert(rest[k] == c[0]);
    }
    lemma_split_at_ascii(rest, k);
    assert(rest.take(k) =~= b);
    assert(rest.skip(k) =~= c);
    decode_utf8_encode_utf8(a);
    encode_utf8_decode_utf8(a.map_values(|v: u8| v as char));
    encode_utf8_decode_utf8(c.map_values(|v: u8| v as char));
}

} // verus!
