//! Hexadecimal strings of the line protocol: `0x`-prefixed (or bare) runs of an
//! even number of hex digits, read as numbers or byte strings.
use vstd::prelude::*;
use vstd::string::StrSliceExecFns;
use crate::text::chars_of;

verus! {

broadcast use vstd::string::group_string_axioms;

/// `c` is an ASCII hexadecimal digit.
pub open spec fn is_hex_digit(c: char) -> bool {
    ('0' <= c <= '9') || ('a' <= c <= 'f') || ('A' <= c <= 'F')
}

/// The value of a hexadecimal digit.
pub open spec fn digit_value(c: char) -> nat {
    if '0' <= c <= '9' {
        (c as nat - '0' as nat) as nat
    } else if 'a' <= c <= 'f' {
        (c as nat - 'a' as nat + 10) as nat
    } else {
        (c as nat - 'A' as nat + 10) as nat
    }
}

/// `s` without a leading `0x` or `0X`.
pub open spec fn strip_hex_prefix(s: Seq<char>) -> Seq<char> {
    if s.len() >= 2 && s[0] == '0' && (s[1] == 'x' || s[1] == 'X') {
        s.skip(2)
    } else {
        s
    }
}

/// `d` is a non-empty run of hex digits of even length.
pub open spec fn is_hex_run(d: Seq<char>) -> bool {
    &&& d.len() >= 2
    &&& d.len() % 2 == 0
    &&& forall|i: int| 0 <= i < d.len() ==> is_hex_digit(#[trigger] d[i])
}

/// The digits of a well-formed hex string, or `None`.
pub open spec fn hex_digits(s: Seq<char>) -> Option<Seq<char>> {
    if is_hex_run(strip_hex_prefix(s)) {
        Some(strip_hex_prefix(s))
    } else {
        None
    }
}

/// The number that a run of hex digits denotes, most significant digit first.
pub open spec fn hex_value(d: Seq<char>) -> nat
    decreases d.len(),
{
    if d.len() == 0 {
        0
    } else {
        hex_value(d.drop_last()) * 16 + digit_value(d.last())
    }
}

/// The bytes that a run of hex digits denotes, two digits per byte.
pub open spec fn hex_bytes(d: Seq<char>) -> Seq<u8> {
    Seq::new(
        d.len() / 2,
        |i: int| (digit_value(d[2 * i]) * 16 + digit_value(d[2 * i + 1])) as u8,
    )
}

/// The number of values a `usize` can hold.
pub open spec fn usize_modulus() -> nat {
    usize::MAX as nat + 1
}

fn is_hex_char(c: char) -> (r: bool)
    ensures
        r == is_hex_digit(c),
{
    ('0' <= c && c <= '9') || ('a' <= c && c <= 'f') || ('A' <= c && c <= 'F')
}

fn digit_of(c: char) -> (r: u8)
    requires
        is_hex_digit(c),
    ensures
        r as nat == digit_value(c),
        r < 16,
{
    if '0' <= c && c <= '9' {
        (c as u32 - '0' as u32) as u8
    } else if 'a' <= c && c <= 'f' {
        (c as u32 - 'a' as u32 + 10) as u8
    } else {
        (c as u32 - 'A' as u32 + 10) as u8
    }
}

/// Strips an optional `0x`/`0X` prefix and checks that an even, non-zero number of
/// hex digits remains; returns those digits.
pub fn check(hex: &str) -> (r: Option<&str>)
    ensures
        match r {
            Some(t) => hex_digits(hex@) == Some(t@),
            None => hex_digits(hex@) is None,
        },
{
    let x = chars_of(hex);
    let n = x.len();
    let start: usize = if n >= 2 && x[0] == '0' && (x[1] == 'x' || x[1] == 'X') {
        2
    } else {
        0
    };
    let digits = hex.substring_char(start, n);
    assert(digits@ == strip_hex_prefix(hex@)) by {
        if start == 0 {
            assert(hex@.subrange(0, n as int) =~= hex@);
        } else {
            assert(hex@.subrange(2, n as int) =~= hex@.skip(2));
        }
    }
    let len = n - start;
    if len < 2 || len % 2 != 0 {
        return None;
    }
    let mut i: usize = start;
    while i < n
        invariant
            x@ == hex@,
            n == x.len(),
            start <= i <= n,
            digits@ == hex@.subrange(start as int, n as int),
            digits@ == strip_hex_prefix(hex@),
            forall|k: int| 0 <= k < i - start ==> is_hex_digit(#[trigger] digits@[k]),
        decreases n - i,
    {
        if !is_hex_char(x[i]) {
            assert(digits@[i - start] == x@[i as int]);
            assert(!is_hex_digit(digits@[(i - start) as int]));
            assert(!is_hex_run(digits@));
            return None;
        }
        assert(digits@[i - start] == x@[i as int]);
        i = i + 1;
    }
    Some(digits)
}

/// The digits of `d` as numbers.
fn digits_of(d: &str) -> (r: Vec<u8>)
    requires
        forall|i: int| 0 <= i < d@.len() ==> is_hex_digit(#[trigger] d@[i]),
    ensures
        r@.len() == d@.len(),
        forall|i: int| 0 <= i < r@.len() ==> #[trigger] r@[i] as nat == digit_value(d@[i]),
        forall|i: int| 0 <= i < r@.len() ==> #[trigger] r@[i] < 16,
{
    let x = chars_of(d);
    let mut r: Vec<u8> = Vec::new();
    let mut i: usize = 0;
    while i < x.len()
        invariant
            x@ == d@,
            i <= x.len(),
            r@.len() == i,
            forall|k: int| 0 <= k < d@.len() ==> is_hex_digit(#[trigger] d@[k]),
            forall|k: int| 0 <= k < i ==> #[trigger] r@[k] as nat == digit_value(d@[k]),
            forall|k: int| 0 <= k < i ==> #[trigger] r@[k] < 16,
        decreases x.len() - i,
    {
        assert(is_hex_digit(d@[i as int]));
        let v = digit_of(x[i]);
        r.push(v);
        i = i + 1;
    }
    r
}

proof fn lemma_shift_wraps(acc: usize, d: u8)
    requires
        d < 16,
    ensures
        (acc << 4usize) as nat + d as nat <= usize::MAX,
        ((acc << 4usize) as nat + d as nat) == (acc as nat * 16 + d as nat) % usize_modulus(),
{
    let m = usize_modulus();
    let x = acc << 4usize;
    assert(usize::BITS == 64 ==> (acc << 4usize) as int == (acc as int * 16)
        % 0x1_0000_0000_0000_0000) by (bit_vector);
    assert(usize::BITS == 32 ==> (acc << 4usize) as int == (acc as int * 16)
        % 0x1_0000_0000) by (bit_vector);
    assert((acc << 4usize) % 16 == 0) by (bit_vector);
    assert(x as nat == (acc as nat * 16) % m) by {
        if usize::BITS == 64 {
            assert(m == 0x1_0000_0000_0000_0000);
        } else {
            assert(m == 0x1_0000_0000);
        }
    }
    assert(m % 16 == 0) by {
        if usize::BITS == 64 {
            assert(m == 0x1_0000_0000_0000_0000);
        } else {
            assert(m == 0x1_0000_0000);
        }
    }
    assert(x as nat + 16 <= m) by (nonlinear_arith)
        requires
            (x as nat) < m,
            x as nat % 16 == 0,
            m % 16 == 0,
    ;
    vstd::arithmetic::div_mod::lemma_add_mod_noop(acc as int * 16, d as int, m as int);
    vstd::arithmetic::div_mod::lemma_small_mod(d as nat, m);
    vstd::arithmetic::div_mod::lemma_small_mod(x as nat + d as nat, m);
}

proof fn lemma_value_mod_step(v: nat, d: nat, m: nat)
    requires
        m > 0,
    ensures
        ((v % m) * 16 + d) % m == (v * 16 + d) % m,
{
    let vi = v as int;
    let mi = m as int;
    let di = d as int;
    vstd::arithmetic::div_mod::lemma_mul_mod_noop_left(vi, 16, mi);
    vstd::arithmetic::div_mod::lemma_add_mod_noop((vi % mi) * 16, di, mi);
    vstd::arithmetic::div_mod::lemma_add_mod_noop(vi * 16, di, mi);
    vstd::arithmetic::div_mod::lemma_mod_twice((vi % mi) * 16, mi);
    assert(((vi % mi) * 16) % mi == (vi * 16) % mi);
}

/// The number that a hex string denotes, reduced modulo the `usize` range (high
/// digits shift out), or `None` when [`check`] rejects the string.
pub fn to_usize(hex: &str) -> (r: Option<usize>)
    ensures
        match hex_digits(hex@) {
            Some(d) => r == Some((hex_value(d) % usize_modulus()) as usize),
            None => r is None,
        },
{
    let digits = match check(hex) {
        Some(t) => t,
        None => return None,
    };
    let ds = digits_of(digits);
    let mut acc: usize = 0;
    let mut i: usize = 0;
    assert(digits@.take(0) =~= Seq::<char>::empty());
    assert(hex_value(Seq::<char>::empty()) == 0);
    proof {
        vstd::arithmetic::div_mod::lemma_small_mod(0nat, usize_modulus());
    }
    while i < ds.len()
        invariant
            i <= ds.len(),
            ds@.len() == digits@.len(),
            forall|k: int| 0 <= k < ds@.len() ==> #[trigger] ds@[k] as nat == digit_value(digits@[k]),
            forall|k: int| 0 <= k < ds@.len() ==> #[trigger] ds@[k] < 16,
            acc as nat == hex_value(digits@.take(i as int)) % usize_modulus(),
        decreases ds.len() - i,
    {
        let d = ds[i];
        proof {
            lemma_shift_wraps(acc, d);
            let pre = digits@.take(i + 1);
            assert(pre.drop_last() =~= digits@.take(i as int));
            assert(pre.last() == digits@[i as int]);
            lemma_value_mod_step(hex_value(digits@.take(i as int)), d as nat, usize_modulus());
        }
        let shifted: usize = acc << 4usize;
        acc = shifted + d as usize;
        i = i + 1;
    }
    assert(digits@.take(ds.len() as int) =~= digits@);
    Some(acc)
}

/// The bytes that a hex string denotes, two digits per byte, or `None` when
/// [`check`] rejects the string.
pub fn to_bytes(hex: &str) -> (r: Option<Vec<u8>>)
    ensures
        match hex_digits(hex@) {
            Some(d) => r is Some && r->0@ == hex_bytes(d),
            None => r is None,
        },
{
    let digits = match check(hex) {
        Some(t) => t,
        None => return None,
    };
    let ds = digits_of(digits);
    let mut out: Vec<u8> = Vec::new();
    let mut i: usize = 0;
    while i < ds.len() / 2
        invariant
            i <= ds.len() / 2,
            ds@.len() == digits@.len(),
            forall|k: int| 0 <= k < ds@.len() ==> #[trigger] ds@[k] as nat == digit_value(digits@[k]),
            forall|k: int| 0 <= k < ds@.len() ==> #[trigger] ds@[k] < 16,
            out@ == hex_bytes(digits@).take(i as int),
        decreases ds.len() / 2 - i,
    {
        let hi = ds[2 * i];
        let lo = ds[2 * i + 1];
        proof {
            assert(hi < 16 && lo < 16);
            assert(hi < 16 ==> (hi << 4u8) == hi * 16) by (bit_vector);
        }
        let b: u8 = (hi << 4u8) + lo;
        assert(b == hex_bytes(digits@)[i as int]);
        out.push(b);
        assert(out@ =~= hex_bytes(digits@).take(i + 1));
        i = i + 1;
    }
    assert(out@ =~= hex_bytes(digits@));
    Some(out)
}

/// The upper-case digits, indexed by value.
pub open spec fn upper_digit(v: nat) -> char {
    if v < 10 {
        ('0' as nat + v) as char
    } else {
        ('A' as nat + v - 10) as char
    }
}

/// The lower-case digits, indexed by value.
pub open spec fn lower_digit(v: nat) -> char {
    if v < 10 {
        ('0' as nat + v) as char
    } else {
        ('a' as nat + v - 10) as char
    }
}

/// Two upper-case digits per byte, most significant first.
pub open spec fn upper_hex(bytes: Seq<u8>) -> Seq<char>
    decreases bytes.len(),
{
    if bytes.len() == 0 {
        Seq::<char>::empty()
    } else {
        upper_hex(bytes.drop_last()) + seq![
            upper_digit(bytes.last() as nat / 16),
            upper_digit(bytes.last() as nat % 16),
        ]
    }
}

/// The one-character string of an upper-case digit.
pub fn upper_digit_str(v: u8) -> (r: &'static str)
    requires
        v < 16,
    ensures
        r@ == seq![upper_digit(v as nat)],
{
    let table = "0123456789ABCDEF";
    proof {
        reveal_strlit("0123456789ABCDEF");
    }
    table.substring_char(v as usize, v as usize + 1)
}

/// The one-character string of a lower-case digit.
pub fn lower_digit_str(v: u8) -> (r: &'static str)
    requires
        v < 16,
    ensures
        r@ == seq![lower_digit(v as nat)],
{
    let table = "0123456789abcdef";
    proof {
        reveal_strlit("0123456789abcdef");
    }
    table.substring_char(v as usize, v as usize + 1)
}

/// A byte string written as `0x` followed by two upper-case hex digits per byte,
/// the form in which data is handed to the line protocol.
pub fn to_string(bytes: Vec<u8>) -> (r: String)
    ensures
        r@ == seq!['0', 'x'] + upper_hex(bytes@),
{
    let prefix = "0x";
    proof {
        reveal_strlit("0x");
    }
    let mut out = String::from_str(prefix);
    let mut i: usize = 0;
    while i < bytes.len()
        invariant
            i <= bytes.len(),
            out@ == seq!['0', 'x'] + upper_hex(bytes@.take(i as int)),
        decreases bytes.len() - i,
    {
        let b = bytes[i];
        let hi = upper_digit_str(b / 16);
        let lo = upper_digit_str(b % 16);
        out = out.concat(hi).concat(lo);
        proof {
            let pre = bytes@.take(i + 1);
            assert(pre.drop_last() =~= bytes@.take(i as int));
            assert(pre.last() == b);
            assert(out@ =~= seq!['0', 'x'] + upper_hex(pre));
        }
        i = i + 1;
    }
    assert(bytes@.take(bytes.len() as int) =~= bytes@);
    out
}

/// The big-endian number that a byte string denotes.
pub open spec fn be_value(bytes: Seq<u8>) -> nat
    decreases bytes.len(),
{
    if bytes.len() == 0 {
        0
    } else {
        be_value(bytes.drop_last()) * 256 + bytes.last() as nat
    }
}

/// The big-endian number that at most four bytes denote.
pub fn bytes_as_u32(data: &[u8]) -> (r: u32)
    requires
        data@.len() <= 4,
    ensures
        r as nat == be_value(data@),
{
    let mut acc: u32 = 0;
    let mut i: usize = 0;
    while i < data.len()
        invariant
            i <= data@.len() <= 4,
            acc as nat == be_value(data@.take(i as int)),
            (acc as nat) < pow256(i as nat),
        decreases data.len() - i,
    {
        proof {
            let pre = data@.take(i + 1);
            assert(pre.drop_last() =~= data@.take(i as int));
            assert(pre.last() == data@[i as int]);
            lemma_pow256_step(i as nat);
            assert(pow256(i as nat) <= pow256(3)) by {
                lemma_pow256_mono(i as nat, 3);
            }
            assert(pow256(3) == 16777216) by {
                reveal_with_fuel(pow256, 4);
            }
            assert(acc as nat * 256 + (data@[i as int] as nat) < pow256(i as nat) * 256) by (nonlinear_arith)
                requires
                    acc as nat + 1 <= pow256(i as nat),
                    data@[i as int] < 256,
            ;
        }
        acc = acc * 256 + data[i] as u32;
        i = i + 1;
    }
    assert(data@.take(data@.len() as int) =~= data@);
    acc
}

/// 256 raised to `n`.
pub open spec fn pow256(n: nat) -> nat
    decreases n,
{
    if n == 0 {
        1
    } else {
        256 * pow256((n - 1) as nat)
    }
}

proof fn lemma_pow256_step(n: nat)
    ensures
        pow256(n + 1) == pow256(n) * 256,
{
}

proof fn lemma_pow256_mono(a: nat, b: nat)
    requires
        a <= b,
    ensures
        pow256(a) <= pow256(b),
    decreases b,
{
    if a < b {
        lemma_pow256_mono(a, (b - 1) as nat);
    }
}

proof fn lemma_upper_hex_shape(bytes: Seq<u8>)
    ensures
        upper_hex(bytes).len() == 2 * bytes.len(),
        forall|i: int|
            0 <= i < bytes.len() ==> upper_hex(bytes)[2 * i] == upper_digit(#[trigger] bytes[i] as nat / 16)
                && upper_hex(bytes)[2 * i + 1] == upper_digit(bytes[i] as nat % 16),
    decreases bytes.len(),
{
    if bytes.len() > 0 {
        let d = bytes.drop_last();
        lemma_upper_hex_shape(d);
        assert forall|i: int| 0 <= i < bytes.len() implies upper_hex(bytes)[2 * i] == upper_digit(
            #[trigger] bytes[i] as nat / 16,
        ) && upper_hex(bytes)[2 * i + 1] == upper_digit(bytes[i] as nat % 16) by {
            if i < d.len() {
                assert(d[i] == bytes[i]);
            }
        }
    }
}

proof fn lemma_upper_digit(v: nat)
    requires
        v < 16,
    ensures
        is_hex_digit(upper_digit(v)),
        digit_value(upper_digit(v)) == v,
{
}

/// Writing bytes with [`to_string`] and reading them back with [`to_bytes`] gives
/// the same bytes: the data of a write command is what a read of it returns.
pub proof fn lemma_hex_round_trip(bytes: Seq<u8>)
    requires
        bytes.len() >= 1,
    ensures
        hex_digits(seq!['0', 'x'] + upper_hex(bytes)) == Some(upper_hex(bytes)),
        hex_bytes(upper_hex(bytes)) == bytes,
{
    let u = upper_hex(bytes);
    let s = seq!['0', 'x'] + u;
    lemma_upper_hex_shape(bytes);
    assert(s.skip(2) =~= u);
    assert(strip_hex_prefix(s) == u);
    assert forall|i: int| 0 <= i < u.len() implies is_hex_digit(#[trigger] u[i]) by {
        let k = i / 2;
        assert(0 <= k < bytes.len());
        lemma_upper_digit(bytes[k] as nat / 16);
        lemma_upper_digit(bytes[k] as nat % 16);
        if i % 2 == 0 {
            assert(i == 2 * k);
        } else {
            assert(i == 2 * k + 1);
        }
    }
    assert(is_hex_run(u));
    assert forall|i: int| 0 <= i < bytes.len() implies #[trigger] hex_bytes(u)[i] == bytes[i] by {
        lemma_upper_digit(bytes[i] as nat / 16);
        lemma_upper_digit(bytes[i] as nat % 16);
        assert(digit_value(u[2 * i]) == bytes[i] as nat / 16);
        assert(digit_value(u[2 * i + 1]) == bytes[i] as nat % 16);
    }
    assert(hex_bytes(u) =~= bytes);
}

/// A two-digit hex string denotes the same number as a `usize` and as a byte.
pub proof fn lemma_one_byte_agrees(d: Seq<char>)
    requires
        d.len() == 2,
        is_hex_run(d),
    ensures
        hex_value(d) == hex_bytes(d)[0] as nat,
        hex_value(d) < 256,
{
    assert(is_hex_digit(d[0]) && is_hex_digit(d[1]));
    assert(d.drop_last().drop_last() =~= Seq::<char>::empty());
    assert(d.drop_last().last() == d[0]);
    assert(digit_value(d[0]) < 16 && digit_value(d[1]) < 16);
    assert(hex_value(d.drop_last().drop_last()) == 0);
    assert(hex_value(d.drop_last()) == digit_value(d[0]));
    assert(hex_value(d) == digit_value(d[0]) * 16 + digit_value(d[1]));
    assert(hex_bytes(d)[0] == (digit_value(d[0]) * 16 + digit_value(d[1])) as u8);
}

/// 256 raised to any power is positive.
proof fn lemma_pow256_positive(n: nat)
    ensures
        pow256(n) >= 1,
    decreases n,
{
    if n > 0 {
        lemma_pow256_positive((n - 1) as nat);
    }
}

/// Bytes are read as a big-endian number, most significant byte first: the value
/// of `n` bytes is below `256^n`, and byte `i` is its base-256 digit of weight
/// `256^(n-1-i)`, so the bytes are what writing the value big-endian in `n` bytes
/// gives (`[0x01, 0x00]` reads as 256).
pub proof fn lemma_be_value_digits(bytes: Seq<u8>)
    ensures
        be_value(bytes) < pow256(bytes.len()),
        forall|i: int|
            0 <= i < bytes.len() ==> (be_value(bytes) / pow256((bytes.len() - 1 - i) as nat)) % 256
                == #[trigger] bytes[i] as nat,
    decreases bytes.len(),
{
    if bytes.len() > 0 {
        let n = bytes.len();
        let d = bytes.drop_last();
        let b = bytes.last() as nat;
        let x = be_value(d);
        let v = be_value(bytes);
        lemma_be_value_digits(d);
        assert(v == x * 256 + b);
        assert(b < 256);
        lemma_pow256_step(d.len());
        assert(v < pow256(n)) by (nonlinear_arith)
            requires
                v == x * 256 + b,
                b < 256,
                x + 1 <= pow256(d.len()),
                pow256(n) == pow256(d.len()) * 256,
        ;
        vstd::arithmetic::div_mod::lemma_fundamental_div_mod_converse(v as int, 256, x as int, b as int);
        assert forall|i: int| 0 <= i < n implies (v / pow256((n - 1 - i) as nat)) % 256
            == #[trigger] bytes[i] as nat by {
            if i == n - 1 {
                assert(pow256(0) == 1);
                assert(v / 1 == v);
            } else {
                let k = (n - 2 - i) as nat;
                lemma_pow256_positive(k);
                assert(pow256((n - 1 - i) as nat) == 256 * pow256(k));
                vstd::arithmetic::div_mod::lemma_div_denominator(v as int, 256, pow256(k) as int);
                assert(v / pow256((n - 1 - i) as nat) == x / pow256(k));
                assert(d[i] == bytes[i]);
                assert((d.len() - 1 - i) as nat == k);
            }
        }
    }
}

} // verus!
