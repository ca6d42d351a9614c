//! Rendering of integers in decimal and of bytes in lowercase hexadecimal.
use vstd::prelude::*;

verus! {

/// The character of a digit value below 16 (`'0'..'9'`, then `'a'..'f'`).
pub open spec fn digit_char(d: nat) -> char {
    "0123456789abcdef"@[d as int]
}

/// The decimal digits of `n`, most significant first, with no leading zeros.
pub open spec fn decimal(n: nat) -> Seq<char>
    decreases n,
{
    if n < 10 {
        seq![digit_char(n)]
    } else {
        decimal(n / 10).push(digit_char(n % 10))
    }
}

/// The decimal rendering of a signed integer: a `'-'` before negative values.
pub open spec fn signed_decimal(n: int) -> Seq<char> {
    if n < 0 {
        seq!['-'] + decimal((-n) as nat)
    } else {
        decimal(n as nat)
    }
}

/// Two lowercase hex characters per byte, high nibble first.
pub open spec fn lower_hex(bytes: Seq<u8>) -> Seq<char>
    decreases bytes.len(),
{
    if bytes.len() == 0 {
        seq![]
    } else {
        seq![digit_char((bytes[0] / 16) as nat), digit_char((bytes[0] % 16) as nat)]
            + lower_hex(bytes.drop_first())
    }
}

/// The one-character string for a digit value below 16.
fn digit_str(d: u8) -> (r: &'static str)
    requires
        d < 16,
    ensures
        r@ == seq![digit_char(d as nat)],
{
    let digits = "0123456789abcdef";
    proof {
        reveal_strlit("0123456789abcdef");
    }
    let r = digits.substring_char(d as usize, d as usize + 1);
    assert(r@ =~= seq![digit_char(d as nat)]);
    r
}

/// Appends the decimal digits of `n` to `out`.
pub fn push_decimal(out: &mut String, n: u64)
    ensures
        final(out)@ == old(out)@ + decimal(n as nat),
    decreases n,
{
    if n >= 10 {
        push_decimal(out, n / 10);
    }
    out.append(digit_str((n % 10) as u8));
    assert(final(out)@ =~= old(out)@ + decimal(n as nat));
}

/// Appends the decimal rendering of the signed `n` to `out`.
pub fn push_signed_decimal(out: &mut String, n: i64)
    ensures
        final(out)@ == old(out)@ + signed_decimal(n as int),
{
    if n < 0 {
        proof {
            reveal_strlit("-");
        }
        out.append("-");
        let magnitude: u64 = (0 - (n as i128)) as u64;
        push_decimal(out, magnitude);
        assert(final(out)@ =~= old(out)@ + signed_decimal(n as int));
    } else {
        push_decimal(out, n as u64);
    }
}

/// Renders `bytes` as lowercase hexadecimal, two characters per byte.
pub fn to_lower_hex(bytes: &[u8]) -> (r: String)
    ensures
        r@ == lower_hex(bytes@),
{
    let mut out = String::new();
    let mut i: usize = 0;
    assert(bytes@.skip(0) =~= bytes@);
    assert(out@ + lower_hex(bytes@) =~= lower_hex(bytes@));
    while i < bytes.len()
        invariant
            i <= bytes@.len(),
            lower_hex(bytes@) == out@ + lower_hex(bytes@.skip(i as int)),
        decreases bytes@.len() - i,
    {
        let b: u8 = bytes[i];
        assert(bytes@.skip(i as int).drop_first() =~= bytes@.skip(i + 1));
        out.append(digit_str(b / 16));
        out.append(digit_str(b % 16));
        i = i + 1;
    }
    assert(bytes@.skip(i as int) =~= Seq::<u8>::empty());
    assert(out@ + lower_hex(bytes@.skip(i as int)) =~= out@);
    out
}

/// Distinct digit values below 16 have distinct characters, and none of them is `'-'`.
pub proof fn lemma_digit_char_distinct()
    ensures
        forall|d: nat, e: nat|
            d < 16 && e < 16 && #[trigger] digit_char(d) == #[trigger] digit_char(e) ==> d == e,
        forall|d: nat| d < 16 ==> #[trigger] digit_char(d) != '-',
{
    reveal_strlit("0123456789abcdef");
}

/// Every decimal rendering has at least one digit, and does not start with `'-'`.
pub proof fn lemma_decimal_shape(n: nat)
    ensures
        decimal(n).len() >= 1,
        decimal(n)[0] != '-',
    decreases n,
{
    lemma_digit_char_distinct();
    if n >= 10 {
        lemma_decimal_shape(n / 10);
    }
}

/// Distinct numbers have distinct decimal renderings.
pub proof fn lemma_decimal_injective(n: nat, m: nat)
    requires
        decimal(n) == decimal(m),
    ensures
        n == m,
    decreases n,
{
    lemma_digit_char_distinct();
    lemma_decimal_shape(n / 10);
    lemma_decimal_shape(m / 10);
    if n < 10 && m < 10 {
        assert(decimal(n)[0] == digit_char(n));
    } else if n < 10 {
        assert(decimal(m).len() >= 2);
    } else if m < 10 {
        assert(decimal(n).len() >= 2);
    } else {
        assert(decimal(n).last() == digit_char(n % 10));
        assert(decimal(m).last() == digit_char(m % 10));
        assert(decimal(n).drop_last() =~= decimal(n / 10));
        assert(decimal(m).drop_last() =~= decimal(m / 10));
        lemma_decimal_injective(n / 10, m / 10);
    }
}

/// Distinct signed numbers have distinct renderings.
pub proof fn lemma_signed_decimal_injective(a: int, b: int)
    requires
        signed_decimal(a) == signed_decimal(b),
    ensures
        a == b,
{
    lemma_decimal_shape((-a) as nat);
    lemma_decimal_shape((-b) as nat);
    lemma_decimal_shape(a as nat);
    lemma_decimal_shape(b as nat);
    if a < 0 && b < 0 {
        assert(signed_decimal(a).drop_first() =~= decimal((-a) as nat));
        assert(signed_decimal(b).drop_first() =~= decimal((-b) as nat));
        lemma_decimal_injective((-a) as nat, (-b) as nat);
    } else if a < 0 {
        assert(signed_decimal(a)[0] == '-');
    } else if b < 0 {
        assert(signed_decimal(b)[0] == '-');
    } else {
        lemma_decimal_injective(a as nat, b as nat);
    }
}

/// The hex rendering has two characters per byte.
pub proof fn lemma_lower_hex_len(bytes: Seq<u8>)
    ensures
        lower_hex(bytes).len() == 2 * bytes.len(),
    decreases bytes.len(),
{
    if bytes.len() > 0 {
        lemma_lower_hex_len(bytes.drop_first());
    }
}

/// Distinct byte sequences have distinct hex renderings.
pub proof fn lemma_lower_hex_injective(a: Seq<u8>, b: Seq<u8>)
    requires
        lower_hex(a) == lower_hex(b),
    ensures
        a == b,
    decreases a.len(),
{
    lemma_lower_hex_len(a);
    lemma_lower_hex_len(b);
    if a.len() > 0 {
        lemma_digit_char_distinct();
        let ha = lower_hex(a);
        let hb = lower_hex(b);
        assert(ha[0] == digit_char((a[0] / 16) as nat) && ha[1] == digit_char((a[0] % 16) as nat));
        assert(hb[0] == digit_char((b[0] / 16) as nat) && hb[1] == digit_char((b[0] % 16) as nat));
        assert(a[0] == b[0]);
        assert(ha.skip(2) =~= lower_hex(a.drop_first()));
        assert(hb.skip(2) =~= lower_hex(b.drop_first()));
        lemma_lower_hex_injective(a.drop_first(), b.drop_first());
        assert(a =~= seq![a[0]] + a.drop_first());
        assert(b =~= seq![b[0]] + b.drop_first());
    } else {
        assert(a =~= b);
    }
}

} // verus!
