use vstd::prelude::*;

verus! {

/// ASCII `0`.
pub const ZERO: u8 = 48;

/// ASCII `+`.
pub const PLUS: u8 = 43;

pub open spec fn is_digit(b: u8) -> bool {
    48 <= b <= 57
}

pub open spec fn all_digits(s: Seq<u8>) -> bool {
    forall|i: int| 0 <= i < s.len() ==> is_digit(#[trigger] s[i])
}

/// What one byte adds to a decimal number: its digit, or nothing where it is
/// no digit.
pub open spec fn digit_of(b: u8) -> nat {
    if is_digit(b) {
        (b - 48) as nat
    } else {
        0
    }
}

/// The number that a run of decimal digits writes, most significant first.
pub open spec fn digits_value(s: Seq<u8>) -> nat
    decreases s.len(),
{
    if s.len() == 0 {
        0
    } else {
        digits_value(s.drop_last()) * 10 + digit_of(s.last())
    }
}

/// The digits of a size text: the text itself, less one leading `+`.
pub open spec fn unsigned_part(s: Seq<u8>) -> Seq<u8> {
    if s.len() > 0 && s[0] == PLUS {
        s.subrange(1, s.len() as int)
    } else {
        s
    }
}

/// The size that a header's size text declares: an optional `+`, then one
/// or more decimal digits whose value fits a `usize`. Any other text
/// declares none.
pub open spec fn parse_size(s: Seq<u8>) -> Option<usize> {
    let d = unsigned_part(s);
    if d.len() > 0 && all_digits(d) && digits_value(d) <= usize::MAX {
        Some(digits_value(d) as usize)
    } else {
        None
    }
}

/// `n` written in base `radix` without padding, most significant digit
/// first. Meant for radix 2 to 10.
pub open spec fn radix_text(n: nat, radix: nat) -> Seq<u8>
    decreases n,
    via radix_text_decreases
{
    if radix < 2 || n < radix {
        seq![digit_char(n)]
    } else {
        radix_text(n / radix, radix).push(digit_char(n % radix))
    }
}

#[via_fn]
proof fn radix_text_decreases(n: nat, radix: nat) {
    if !(radix < 2 || n < radix) {
        assert(n / radix < n) by (nonlinear_arith)
            requires
                radix >= 2,
                n >= radix,
        ;
    }
}

/// The ASCII digit for a value below ten.
pub open spec fn digit_char(d: nat) -> u8 {
    if d < 10 {
        (48 + d) as u8
    } else {
        ZERO
    }
}

/// `n` in decimal.
pub open spec fn decimal_text(n: nat) -> Seq<u8> {
    radix_text(n, 10)
}

/// `n` in octal.
pub open spec fn octal_text(n: nat) -> Seq<u8> {
    radix_text(n, 8)
}

/// A longer run of digits writes a number at least as large as any of its
/// prefixes.
pub proof fn lemma_digits_value_monotone(s: Seq<u8>, k: int)
    requires
        0 <= k <= s.len(),
    ensures
        digits_value(s.subrange(0, k)) <= digits_value(s),
    decreases s.len(),
{
    if k == s.len() {
        assert(s.subrange(0, k) =~= s);
    } else {
        lemma_digits_value_monotone(s.drop_last(), k);
        assert(s.drop_last().subrange(0, k) =~= s.subrange(0, k));
    }
}

/// Text written in a radix up to ten is made of digits, is not empty, and
/// reads back in decimal as the number when the radix is ten.
pub proof fn lemma_radix_text(n: nat, radix: nat)
    requires
        2 <= radix <= 10,
    ensures
        radix_text(n, radix).len() > 0,
        all_digits(radix_text(n, radix)),
        radix == 10 ==> digits_value(radix_text(n, radix)) == n,
    decreases n,
{
    let t = radix_text(n, radix);
    if n < radix {
        assert(t.len() == 1);
        assert(t[0] == digit_char(n));
        assert(t.drop_last() =~= Seq::<u8>::empty());
        assert(digits_value(t.drop_last()) == 0);
        assert(digits_value(t) == digits_value(t.drop_last()) * 10 + digit_of(t.last()));
    } else {
        lemma_radix_text(n / radix, radix);
        let h = radix_text(n / radix, radix);
        let d = digit_char(n % radix);
        assert(n % radix < radix) by (nonlinear_arith)
            requires
                radix > 0,
        ;
        assert(t == h.push(d));
        assert(t.drop_last() =~= h);
        assert(t.last() == d);
        assert forall|i: int| 0 <= i < t.len() implies is_digit(#[trigger] t[i]) by {
            if i < h.len() {
                assert(t[i] == h[i]);
            }
        }
        if radix == 10 {
            assert(digits_value(t) == digits_value(h) * 10 + digit_of(d));
            assert(n == (n / 10) * 10 + n % 10);
        }
    }
}

/// A size written in decimal declares that size.
pub proof fn lemma_parse_decimal(n: usize)
    ensures
        parse_size(decimal_text(n as nat)) == Some(n),
{
    lemma_radix_text(n as nat, 10);
    let t = decimal_text(n as nat);
    assert(is_digit(t[0]));
    assert(unsigned_part(t) == t);
}

/// `n` written in base `radix`.
pub fn format_radix(n: u64, radix: u64) -> (r: Vec<u8>)
    requires
        2 <= radix <= 10,
    ensures
        r@ == radix_text(n as nat, radix as nat),
    decreases n,
{
    if n < radix {
        let r = vec![(48 + n) as u8];
        assert(r@ =~= radix_text(n as nat, radix as nat));
        r
    } else {
        assert(n / radix < n) by (nonlinear_arith)
            requires
                radix >= 2,
                n >= radix,
        ;
        let mut r = format_radix(n / radix, radix);
        r.push((48 + n % radix) as u8);
        r
    }
}

/// Reads a header's size text.
pub fn read_size(s: &[u8]) -> (r: Option<usize>)
    ensures
        r == parse_size(s@),
{
    let start: usize = if s.len() > 0 && s[0] == PLUS {
        1
    } else {
        0
    };
    let ghost d = unsigned_part(s@);
    assert(d == s@.subrange(start as int, s@.len() as int)) by {
        if start == 0 {
            assert(s@.subrange(0, s@.len() as int) =~= s@);
        }
    }
    if start == s.len() {
        return None;
    }
    let mut acc: usize = 0;
    let mut i: usize = start;
    assert(d.subrange(0, 0) =~= Seq::<u8>::empty());
    while i < s.len()
        invariant
            start <= i <= s.len(),
            d == unsigned_part(s@),
            d == s@.subrange(start as int, s@.len() as int),
            all_digits(d.subrange(0, i - start)),
            acc == digits_value(d.subrange(0, i - start)),
        decreases s.len() - i,
    {
        let c = s[i];
        assert(d[i - start] == c);
        if c < 48 || c > 57 {
            assert(!is_digit(d[i - start]));
            return None;
        }
        let digit: usize = (c - 48) as usize;
        let ghost next = d.subrange(0, i - start + 1);
        assert(next.drop_last() =~= d.subrange(0, i - start));
        assert(next.last() == c);
        assert(digits_value(next) == acc * 10 + digit);
        if acc > (usize::MAX - digit) / 10 {
            proof {
                lemma_digits_value_monotone(d, i - start + 1);
            }
            return None;
        }
        acc = acc * 10 + digit;
        i += 1;
        assert forall|j: int| 0 <= j < next.len() implies is_digit(#[trigger] next[j]) by {
            if j < next.len() - 1 {
                assert(next[j] == d.subrange(0, i - start - 1)[j]);
            }
        }
    }
    assert(d.subrange(0, d.len() as int) =~= d);
    Some(acc)
}

} // verus!
