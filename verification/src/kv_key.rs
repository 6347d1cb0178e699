//! Keys of the key/value box that name small numbers, which the box keeps in a dense array.
//!
//! A key is numeric when its bytes are the canonical decimal form of a number no larger
//! than `MAX_DENSE_NUMERIC_KEY`: digits only, and no leading zero unless the key is "0".
use vstd::prelude::*;

verus! {

/// The largest number that a numeric key may name.
pub const MAX_DENSE_NUMERIC_KEY: u64 = 20000000;

/// How far past the end of the dense array a numeric key may land and still be stored there.
pub const MAX_DENSE_NUMERIC_GAP: usize = 1024;

/// Whether `b` is an ASCII decimal digit.
pub open spec fn is_digit(b: u8) -> bool {
    48 <= b <= 57
}

/// The number that the decimal digits `s` spell out.
pub open spec fn digits_value(s: Seq<u8>) -> nat
    decreases s.len(),
{
    if s.len() == 0 {
        0
    } else {
        digits_value(s.drop_last()) * 10 + (s.last() - 48) as nat
    }
}

/// The canonical decimal form of `n`.
pub open spec fn decimal_digits(n: nat) -> Seq<u8>
    decreases n,
{
    if n < 10 {
        seq![(n + 48) as u8]
    } else {
        decimal_digits(n / 10).push((n % 10 + 48) as u8)
    }
}

/// Whether `s` is a canonical decimal: nonempty, digits only, no leading zero unless it is "0".
pub open spec fn is_canonical_decimal(s: Seq<u8>) -> bool {
    &&& s.len() > 0
    &&& !(s.len() > 1 && s[0] == 48)
    &&& forall|i: int| 0 <= i < s.len() ==> #[trigger] is_digit(s[i])
}

/// The number that a numeric key names, if it is one.
pub open spec fn spec_parse_dense_numeric_key(s: Seq<u8>) -> Option<u64> {
    if is_canonical_decimal(s) && digits_value(s) <= MAX_DENSE_NUMERIC_KEY {
        Some(digits_value(s) as u64)
    } else {
        None
    }
}

/// The numeric key of the string `key`, read through its UTF-8 bytes.
pub open spec fn spec_numeric_key_of(key: Seq<char>) -> Option<u64> {
    spec_parse_dense_numeric_key(vstd::utf8::encode_utf8(key))
}

/// Whether a numeric key may be stored in a dense array of `current_len` slots.
pub open spec fn spec_should_store_dense_numeric(current_len: int, index: int) -> bool {
    index <= current_len || index - current_len <= MAX_DENSE_NUMERIC_GAP
}

/// Appending a digit keeps the value of a digit string from shrinking.
proof fn lemma_digits_value_grows(s: Seq<u8>)
    requires
        s.len() > 0,
        forall|i: int| 0 <= i < s.len() ==> #[trigger] is_digit(s[i]),
    ensures
        digits_value(s) >= digits_value(s.drop_last()),
        digits_value(s.drop_last()) > 0 ==> digits_value(s) >= 10,
{
}

/// A digit string that starts with a nonzero digit has a positive value.
proof fn lemma_leading_digit_positive(s: Seq<u8>)
    requires
        s.len() > 0,
        s[0] != 48,
        forall|i: int| 0 <= i < s.len() ==> #[trigger] is_digit(s[i]),
    ensures
        digits_value(s) >= 1,
    decreases s.len(),
{
    if s.len() > 1 {
        let p = s.drop_last();
        assert(p[0] == s[0]);
        assert forall|i: int| 0 <= i < p.len() implies #[trigger] is_digit(p[i]) by {
            assert(p[i] == s[i]);
        }
        lemma_leading_digit_positive(p);
        assert(is_digit(s[s.len() - 1]));
    } else {
        assert(s.drop_last().len() == 0);
        assert(is_digit(s[0]));
    }
}

/// The value of a digit string is at least that of any of its prefixes.
proof fn lemma_prefix_value_bound(s: Seq<u8>, m: int)
    requires
        0 <= m <= s.len(),
        forall|i: int| 0 <= i < s.len() ==> #[trigger] is_digit(s[i]),
    ensures
        digits_value(s) >= digits_value(s.subrange(0, m)),
    decreases s.len(),
{
    if m == s.len() {
        assert(s.subrange(0, m) =~= s);
    } else {
        let p = s.drop_last();
        assert forall|i: int| 0 <= i < p.len() implies #[trigger] is_digit(p[i]) by {
            assert(p[i] == s[i]);
        }
        lemma_prefix_value_bound(p, m);
        assert(p.subrange(0, m) =~= s.subrange(0, m));
        lemma_digits_value_grows(s);
    }
}

/// A key whose first `m` bytes already spell out too large a number names no number.
proof fn lemma_prefix_past_limit(s: Seq<u8>, m: int)
    requires
        0 <= m <= s.len(),
        forall|i: int| 0 <= i < m ==> #[trigger] is_digit(s[i]),
        digits_value(s.subrange(0, m)) > MAX_DENSE_NUMERIC_KEY,
    ensures
        spec_parse_dense_numeric_key(s) is None,
{
    if is_canonical_decimal(s) {
        lemma_prefix_value_bound(s, m);
    }
}

/// A canonical decimal is the decimal form of its value.
pub proof fn lemma_canonical_decimal(s: Seq<u8>)
    requires
        is_canonical_decimal(s),
    ensures
        s == decimal_digits(digits_value(s)),
    decreases s.len(),
{
    if s.len() == 1 {
        assert(s.drop_last().len() == 0);
        assert(digits_value(s.drop_last()) == 0);
        assert(is_digit(s[0]));
        assert(s.last() == s[0]);
        assert(digits_value(s) == (s[0] - 48) as nat);
        assert(decimal_digits(digits_value(s)) =~= s);
    } else {
        let p = s.drop_last();
        assert(p[0] == s[0]);
        assert forall|i: int| 0 <= i < p.len() implies #[trigger] is_digit(p[i]) by {
            assert(p[i] == s[i]);
        }
        lemma_leading_digit_positive(p);
        lemma_canonical_decimal(p);
        assert(is_digit(s[s.len() - 1]));
        let v = digits_value(s);
        let d = (s.last() - 48) as nat;
        assert(v == digits_value(p) * 10 + d);
        assert(v / 10 == digits_value(p) && v % 10 == d) by (nonlinear_arith)
            requires
                v == digits_value(p) * 10 + d,
                d < 10,
        ;
        assert(decimal_digits(v) == decimal_digits(v / 10).push((v % 10 + 48) as u8));
        assert(s =~= p.push(s.last()));
    }
}

/// The decimal form of a number spells out that number, with digits only and no leading zero.
proof fn lemma_decimal_digits(n: nat)
    ensures
        digits_value(decimal_digits(n)) == n,
        is_canonical_decimal(decimal_digits(n)),
    decreases n,
{
    let s = decimal_digits(n);
    if n < 10 {
        assert(s.drop_last().len() == 0);
        assert(digits_value(s.drop_last()) == 0);
        assert(s.last() == (n + 48) as u8);
        assert(is_digit(s[0]));
    } else {
        let p = decimal_digits(n / 10);
        lemma_decimal_digits(n / 10);
        assert(s.drop_last() =~= p);
        assert(s.last() == (n % 10 + 48) as u8);
        assert(n == (n / 10) * 10 + n % 10) by (nonlinear_arith);
        assert(n / 10 >= 1);
        if n / 10 < 10 {
            assert(p[0] == (n / 10 + 48) as u8);
        } else {
            assert(p == decimal_digits(n / 10 / 10).push((n / 10 % 10 + 48) as u8));
            assert(p.len() > 1);
        }
        assert(s[0] == p[0]);
        assert(s.len() > 1);
        assert(s[0] != 48);
        assert(digits_value(s) == digits_value(s.drop_last()) * 10 + (s.last() - 48) as nat);
        assert(digits_value(s) == (n / 10) * 10 + n % 10);
        assert forall|i: int| 0 <= i < s.len() implies #[trigger] is_digit(s[i]) by {
            if i < p.len() {
                assert(s[i] == p[i]);
            }
        }
    }
}

/// The decimal form of every number up to the largest numeric key parses back to that
/// number.
pub proof fn lemma_decimal_parses_back(n: nat)
    requires
        n <= MAX_DENSE_NUMERIC_KEY,
    ensures
        spec_parse_dense_numeric_key(decimal_digits(n)) == Some(n as u64),
{
    lemma_decimal_digits(n);
}

/// Two keys that name the same number are the same key.
pub proof fn lemma_numeric_key_injective(a: Seq<char>, b: Seq<char>)
    requires
        spec_numeric_key_of(a) is Some,
        spec_numeric_key_of(a) == spec_numeric_key_of(b),
    ensures
        a == b,
{
    let ea = vstd::utf8::encode_utf8(a);
    let eb = vstd::utf8::encode_utf8(b);
    lemma_canonical_decimal(ea);
    lemma_canonical_decimal(eb);
    assert(digits_value(ea) == digits_value(eb));
    vstd::utf8::encode_utf8_decode_utf8(a);
    vstd::utf8::encode_utf8_decode_utf8(b);
}

/// The number that a numeric key names, if it is one.
pub fn parse_dense_numeric_key(key: &str) -> (r: Option<u64>)
    ensures
        r == spec_numeric_key_of(key@),
{
    parse_dense_numeric_key_bytes(key.as_bytes())
}

/// The number that the bytes of a numeric key name, if they are one.
pub fn parse_dense_numeric_key_bytes(bytes: &[u8]) -> (r: Option<u64>)
    ensures
        r == spec_parse_dense_numeric_key(bytes@),
{
    let n = bytes.len();
    if n == 0 || (n > 1 && bytes[0] == 48u8) {
        return None;
    }
    let mut value: u64 = 0;
    let mut i: usize = 0;
    while i < n
        invariant
            n == bytes@.len(),
            n > 0,
            !(n > 1 && bytes@[0] == 48),
            i <= n,
            forall|j: int| 0 <= j < i ==> #[trigger] is_digit(bytes@[j]),
            value == digits_value(bytes@.subrange(0, i as int)),
        decreases n - i,
    {
        let byte = bytes[i];
        if !(48u8 <= byte && byte <= 57u8) {
            assert(!is_digit(bytes@[i as int]));
            assert(!is_canonical_decimal(bytes@));
            return None;
        }
        let ghost pre = bytes@.subrange(0, i as int);
        let ghost post = bytes@.subrange(0, i + 1);
        assert(post.drop_last() =~= pre);
        assert(digits_value(post) == digits_value(pre) * 10 + (byte - 48) as nat);
        let next = match value.checked_mul(10) {
            Some(v) => match v.checked_add((byte - 48u8) as u64) {
                Some(w) => w,
                None => {
                    proof {
                        lemma_prefix_past_limit(bytes@, i + 1);
                    }
                    return None;
                },
            },
            None => {
                proof {
                    lemma_prefix_past_limit(bytes@, i + 1);
                }
                return None;
            },
        };
        value = next;
        i = i + 1;
    }
    assert(bytes@.subrange(0, n as int) =~= bytes@);
    if value <= MAX_DENSE_NUMERIC_KEY {
        Some(value)
    } else {
        None
    }
}

/// Whether a numeric key may be stored in a dense array of `current_len` slots.
pub fn should_store_dense_numeric(current_len: usize, index: usize) -> (r: bool)
    ensures
        r == spec_should_store_dense_numeric(current_len as int, index as int),
{
    index <= current_len || index.saturating_sub(current_len) <= MAX_DENSE_NUMERIC_GAP
}

} // verus!
