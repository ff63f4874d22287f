//! Numbers and digests written out as text.

use vstd::prelude::*;

verus! {

/// The lower-case hexadecimal digit for a value below 16.
pub open spec fn lower_digit(d: int) -> u8 {
    if d < 10 {
        (0x30 + d) as u8
    } else {
        (0x61 + d - 10) as u8
    }
}

/// The digit for a value below 16, with capital letters from ten on.
pub open spec fn upper_digit(d: int) -> u8 {
    if d < 10 {
        (0x30 + d) as u8
    } else {
        (0x41 + d - 10) as u8
    }
}

/// The lower-case hexadecimal text of a byte string, two digits a byte.
pub open spec fn hex(data: Seq<u8>) -> Seq<u8> {
    Seq::new(
        2 * data.len(),
        |i: int|
            if i % 2 == 0 {
                lower_digit(data[i / 2] as int / 16)
            } else {
                lower_digit(data[i / 2] as int % 16)
            },
    )
}

/// Whether `b` is one of `0`-`9`, `a`-`f`.
pub open spec fn is_lower_hex(b: u8) -> bool {
    (0x30 <= b <= 0x39) || (0x61 <= b <= 0x66)
}

/// Whether `b` is one of `0`-`9`, `A`-`F`.
pub open spec fn is_numeral_digit(b: u8) -> bool {
    (0x30 <= b <= 0x39) || (0x41 <= b <= 0x46)
}

/// Whether every byte of `text` is a lower-case hexadecimal digit.
pub open spec fn all_lower_hex(text: Seq<u8>) -> bool {
    forall|i: int| 0 <= i < text.len() ==> is_lower_hex(#[trigger] text[i])
}

/// The text of `n` in base `base`, most significant digit first, without
/// leading zeros.
pub open spec fn numeral(n: nat, base: nat) -> Seq<u8>
    recommends
        2 <= base <= 16,
    decreases n,
{
    if n < base || base < 2 {
        seq![upper_digit(n as int)]
    } else {
        proof {
            assert(n / base < n) by (nonlinear_arith)
                requires
                    2 <= base <= n,
            ;
        }
        numeral(n / base, base).push(upper_digit((n % base) as int))
    }
}

/// The decimal text of `n`.
pub open spec fn decimal(n: nat) -> Seq<u8> {
    numeral(n, 10)
}

/// The hexadecimal text of `n` in capitals, at least two digits wide.
pub open spec fn upper_hex2(n: nat) -> Seq<u8> {
    if n < 16 {
        seq![0x30u8, upper_digit(n as int)]
    } else {
        numeral(n, 16)
    }
}

/// The hexadecimal text of a digest is twice its length, all lower-case
/// hexadecimal digits.
pub proof fn lemma_hex_shape(data: Seq<u8>)
    ensures
        hex(data).len() == 2 * data.len(),
        all_lower_hex(hex(data)),
{
    assert forall|i: int| 0 <= i < hex(data).len() implies is_lower_hex(#[trigger] hex(data)[i]) by {
        let b = data[i / 2] as int;
        assert(0 <= b / 16 < 16 && 0 <= b % 16 < 16);
    }
}

/// A numeral is made of digits and capital letters only: it holds no
/// comma, slash, hyphen or other separator.
pub proof fn lemma_numeral_shape(n: nat, base: nat)
    requires
        2 <= base <= 16,
    ensures
        numeral(n, base).len() >= 1,
        forall|i: int|
            0 <= i < numeral(n, base).len() ==> is_numeral_digit(#[trigger] numeral(n, base)[i]),
    decreases n,
{
    if n >= base {
        assert(n / base < n) by (nonlinear_arith)
            requires
                2 <= base <= n,
        ;
        lemma_numeral_shape(n / base, base);
    }
}

/// The lower-case hexadecimal digit for a value below 16.
fn lower_digit_of(d: u8) -> (c: u8)
    requires
        d < 16,
    ensures
        c == lower_digit(d as int),
{
    if d < 10 {
        0x30 + d
    } else {
        0x61 + (d - 10)
    }
}

/// The hexadecimal digit in capitals for a value below 16.
fn upper_digit_of(d: u8) -> (c: u8)
    requires
        d < 16,
    ensures
        c == upper_digit(d as int),
{
    if d < 10 {
        0x30 + d
    } else {
        0x41 + (d - 10)
    }
}

/// The character that stands for a value below 64 in base64 with the
/// URL-safe alphabet: `A` to `Z`, `a` to `z`, `0` to `9`, `-`, `_`.
pub open spec fn base64_char(v: int) -> u8 {
    if v < 26 {
        (0x41 + v) as u8
    } else if v < 52 {
        (0x61 + v - 26) as u8
    } else if v < 62 {
        (0x30 + v - 52) as u8
    } else if v == 62 {
        0x2d
    } else {
        0x5f
    }
}

/// The base64 text of a byte string in the URL-safe alphabet, padded: every
/// three bytes give four characters, one for each six bits, and a last group
/// of one or two bytes is filled up with zero bits and `=`.
pub open spec fn base64_url(data: Seq<u8>) -> Seq<u8>
    decreases data.len(),
{
    if data.len() == 0 {
        Seq::empty()
    } else if data.len() == 1 {
        seq![base64_char(data[0] as int / 4), base64_char(data[0] as int % 4 * 16), 0x3d, 0x3d]
    } else if data.len() == 2 {
        seq![
            base64_char(data[0] as int / 4),
            base64_char(data[0] as int % 4 * 16 + data[1] / 16),
            base64_char(data[1] as int % 16 * 4),
            0x3d,
        ]
    } else {
        seq![
            base64_char(data[0] as int / 4),
            base64_char(data[0] as int % 4 * 16 + data[1] / 16),
            base64_char(data[1] as int % 16 * 4 + data[2] / 64),
            base64_char(data[2] as int % 64),
        ] + base64_url(data.skip(3))
    }
}

/// The length of the padded base64 text of `n` bytes: four characters for
/// every three bytes begun.
pub open spec fn base64_len(n: nat) -> nat {
    if n % 3 == 0 {
        n / 3 * 4
    } else {
        n / 3 * 4 + 4
    }
}

/// The base64 text of a byte string is as long as `base64_len` says.
pub proof fn lemma_base64_len(data: Seq<u8>)
    ensures
        base64_url(data).len() == base64_len(data.len()),
    decreases data.len(),
{
    if data.len() >= 3 {
        lemma_base64_len(data.skip(3));
    }
}

/// Different values below 64 have different characters in base64, and none
/// has the padding character.
pub proof fn lemma_base64_char(a: int, b: int)
    requires
        0 <= a < 64,
        0 <= b < 64,
    ensures
        base64_char(a) != 0x3d,
        base64_char(a) == base64_char(b) ==> a == b,
{
}

/// Byte strings of at most three bytes with the same base64 text are the
/// same.
proof fn lemma_base64_group(a: Seq<u8>, b: Seq<u8>)
    requires
        1 <= a.len() <= 3,
        1 <= b.len() <= 3,
        base64_url(a).take(4) == base64_url(b).take(4),
    ensures
        a == b,
{
    reveal_with_fuel(base64_url, 2);
    let x = base64_url(a).take(4);
    let y = base64_url(b).take(4);
    assert(x[0] == y[0] && x[1] == y[1] && x[2] == y[2] && x[3] == y[3]);
    let a0 = a[0] as int;
    let b0 = b[0] as int;
    let a1 = if a.len() >= 2 {
        a[1] as int
    } else {
        0
    };
    let b1 = if b.len() >= 2 {
        b[1] as int
    } else {
        0
    };
    let a2 = if a.len() >= 3 {
        a[2] as int
    } else {
        0
    };
    let b2 = if b.len() >= 3 {
        b[2] as int
    } else {
        0
    };
    lemma_base64_char(a0 / 4, b0 / 4);
    lemma_base64_char(a0 % 4 * 16 + a1 / 16, b0 % 4 * 16 + b1 / 16);
    lemma_base64_char(a1 % 16 * 4 + a2 / 64, b1 % 16 * 4 + b2 / 64);
    lemma_base64_char(a2 % 64, b2 % 64);
    lemma_base64_char(b1 % 16 * 4 + b2 / 64, a1 % 16 * 4 + a2 / 64);
    lemma_base64_char(b2 % 64, a2 % 64);
    assert(a.len() == b.len());
    assert(a0 == b0 && a1 == b1 && a2 == b2);
    assert(a =~= b);
}

/// Different byte strings have different base64 texts.
pub proof fn lemma_base64_injective(a: Seq<u8>, b: Seq<u8>)
    requires
        base64_url(a) == base64_url(b),
    ensures
        a == b,
    decreases a.len(),
{
    lemma_base64_len(a);
    lemma_base64_len(b);
    if a.len() == 0 || b.len() == 0 {
        assert(a.len() == 0 && b.len() == 0);
        assert(a =~= b);
    } else if a.len() > 3 && b.len() > 3 {
        let x = base64_url(a);
        assert(x.take(4) =~= base64_url(a.take(3))) by {
            reveal_with_fuel(base64_url, 2);
            assert(a.take(3).skip(3) =~= Seq::<u8>::empty());
        }
        assert(x.take(4) =~= base64_url(b.take(3))) by {
            reveal_with_fuel(base64_url, 2);
            assert(b.take(3).skip(3) =~= Seq::<u8>::empty());
        }
        assert(base64_url(a.take(3)).take(4) =~= base64_url(a.take(3)));
        assert(base64_url(b.take(3)).take(4) =~= base64_url(b.take(3)));
        lemma_base64_group(a.take(3), b.take(3));
        assert(x.skip(4) =~= base64_url(a.skip(3)));
        assert(x.skip(4) =~= base64_url(b.skip(3)));
        lemma_base64_injective(a.skip(3), b.skip(3));
        assert(a =~= a.take(3) + a.skip(3));
        assert(b =~= b.take(3) + b.skip(3));
    } else {
        assert(a.len() <= 3 && b.len() <= 3);
        lemma_base64_group(a, b);
    }
}

/// Appends the two lower-case hexadecimal digits of `b` to `out`.
pub fn push_hex_byte(out: &mut Vec<u8>, b: u8)
    ensures
        final(out)@ == old(out)@ + hex(seq![b]),
{
    out.push(lower_digit_of(b / 16));
    out.push(lower_digit_of(b % 16));
    assert(out@ =~= old(out)@ + hex(seq![b]));
}

/// The lower-case hexadecimal text of `data`.
pub fn to_hex(data: &[u8]) -> (out: Vec<u8>)
    ensures
        out@ == hex(data@),
{
    let mut out: Vec<u8> = Vec::new();
    let mut i: usize = 0;
    while i < data.len()
        invariant
            i <= data.len(),
            out@ == hex(data@.take(i as int)),
        decreases data.len() - i,
    {
        push_hex_byte(&mut out, data[i]);
        i += 1;
        assert(out@ =~= hex(data@.take(i as int)));
    }
    assert(data@.take(data.len() as int) =~= data@);
    out
}

/// Whether every byte of `text` is a lower-case hexadecimal digit.
pub fn is_hex_text(text: &[u8]) -> (r: bool)
    ensures
        r == all_lower_hex(text@),
{
    let mut i: usize = 0;
    while i < text.len()
        invariant
            i <= text.len(),
            forall|j: int| 0 <= j < i ==> is_lower_hex(#[trigger] text@[j]),
        decreases text.len() - i,
    {
        let b = text[i];
        if !((0x30 <= b && b <= 0x39) || (0x61 <= b && b <= 0x66)) {
            return false;
        }
        i += 1;
    }
    true
}

/// Appends the text of `n` in base `base` to `out`.
pub fn push_numeral(out: &mut Vec<u8>, n: u64, base: u64)
    requires
        2 <= base <= 16,
    ensures
        final(out)@ == old(out)@ + numeral(n as nat, base as nat),
{
    let mut low_first: Vec<u8> = Vec::new();
    let mut m: u64 = n;
    while m >= base
        invariant
            2 <= base <= 16,
            numeral(n as nat, base as nat) == numeral(m as nat, base as nat)
                + low_first@.reverse(),
        decreases m,
    {
        let ghost before = low_first@;
        let d: u8 = (m % base) as u8;
        low_first.push(upper_digit_of(d));
        assert(low_first@.reverse() =~= seq![upper_digit(d as int)] + before.reverse());
        assert(numeral(m as nat, base as nat) == numeral((m / base) as nat, base as nat).push(
            upper_digit(d as int),
        ));
        assert(numeral((m / base) as nat, base as nat).push(upper_digit(d as int))
            + before.reverse() =~= numeral((m / base) as nat, base as nat)
            + low_first@.reverse());
        m = m / base;
    }
    let ghost before = low_first@;
    low_first.push(upper_digit_of(m as u8));
    assert(low_first@.reverse() =~= seq![upper_digit(m as int)] + before.reverse());
    assert(low_first@.reverse() =~= numeral(n as nat, base as nat));
    let mut k: usize = low_first.len();
    while k > 0
        invariant
            k <= low_first.len(),
            out@ == old(out)@ + low_first@.reverse().take(low_first.len() - k),
        decreases k,
    {
        k -= 1;
        out.push(low_first[k]);
        assert(out@ =~= old(out)@ + low_first@.reverse().take(low_first.len() - k));
    }
    assert(low_first@.reverse().take(low_first.len() as int) =~= low_first@.reverse());
}

/// Appends the decimal text of `n` to `out`.
pub fn push_decimal(out: &mut Vec<u8>, n: u64)
    ensures
        final(out)@ == old(out)@ + decimal(n as nat),
{
    push_numeral(out, n, 10);
}

/// Appends the hexadecimal text of `n`, in capitals and at least two digits
/// wide, to `out`.
pub fn push_upper_hex2(out: &mut Vec<u8>, n: u64)
    ensures
        final(out)@ == old(out)@ + upper_hex2(n as nat),
{
    if n < 16 {
        out.push(0x30);
        out.push(upper_digit_of(n as u8));
        assert(out@ =~= old(out)@ + upper_hex2(n as nat));
    } else {
        push_numeral(out, n, 16);
    }
}

} // verus!
