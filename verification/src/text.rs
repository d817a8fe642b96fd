//! Number formatting for listings: decimal and upper-case hexadecimal
//! digits, forced signs and left padding, each stated over `Seq<char>`.
use vstd::prelude::*;
use vstd::string::*;

verus! {

/// The digit character for `d` in bases up to sixteen, upper-case.
pub open spec fn digit_char(d: nat) -> char {
    if d == 0 { '0' }
    else if d == 1 { '1' }
    else if d == 2 { '2' }
    else if d == 3 { '3' }
    else if d == 4 { '4' }
    else if d == 5 { '5' }
    else if d == 6 { '6' }
    else if d == 7 { '7' }
    else if d == 8 { '8' }
    else if d == 9 { '9' }
    else if d == 10 { 'A' }
    else if d == 11 { 'B' }
    else if d == 12 { 'C' }
    else if d == 13 { 'D' }
    else if d == 14 { 'E' }
    else { 'F' }
}

/// The decimal digits of `n`, most significant first, without leading zeros.
pub open spec fn dec_digits(n: nat) -> Seq<char>
    decreases n,
{
    if n < 10 {
        seq![digit_char(n)]
    } else {
        dec_digits(n / 10).push(digit_char(n % 10))
    }
}

/// The upper-case hexadecimal digits of `n`, most significant first, without leading zeros.
pub open spec fn hex_digits(n: nat) -> Seq<char>
    decreases n,
{
    if n < 16 {
        seq![digit_char(n)]
    } else {
        hex_digits(n / 16).push(digit_char(n % 16))
    }
}

/// `s` padded on the left with `fill` up to `width` characters.
pub open spec fn pad_left(s: Seq<char>, width: nat, fill: char) -> Seq<char> {
    if s.len() >= width {
        s
    } else {
        Seq::new((width - s.len()) as nat, |_i: int| fill) + s
    }
}

/// An integer as `{}` shows it: a minus sign for negative values only.
pub open spec fn int_text(i: int) -> Seq<char> {
    if i < 0 {
        seq!['-'] + dec_digits((-i) as nat)
    } else {
        dec_digits(i as nat)
    }
}

/// An integer as `{:+}` shows it: always with its sign.
pub open spec fn signed_text(i: int) -> Seq<char> {
    if i < 0 {
        seq!['-'] + dec_digits((-i) as nat)
    } else {
        seq!['+'] + dec_digits(i as nat)
    }
}

/// An address as `0x{:03X}` shows it.
pub open spec fn hex3_text(n: nat) -> Seq<char> {
    seq!['0', 'x'] + pad_left(hex_digits(n), 3, '0')
}

/// The value of a digit character in bases up to sixteen (upper-case), or
/// -1 for a character that is no such digit.
pub open spec fn char_value(c: char) -> int {
    if c == '0' { 0 }
    else if c == '1' { 1 }
    else if c == '2' { 2 }
    else if c == '3' { 3 }
    else if c == '4' { 4 }
    else if c == '5' { 5 }
    else if c == '6' { 6 }
    else if c == '7' { 7 }
    else if c == '8' { 8 }
    else if c == '9' { 9 }
    else if c == 'A' { 10 }
    else if c == 'B' { 11 }
    else if c == 'C' { 12 }
    else if c == 'D' { 13 }
    else if c == 'E' { 14 }
    else if c == 'F' { 15 }
    else { -1 }
}

/// Whether every character of `s` is a digit below `base`.
pub open spec fn all_digits(s: Seq<char>, base: int) -> bool {
    forall|k: int| 0 <= k < s.len() ==> 0 <= #[trigger] char_value(s[k]) < base
}

/// The number that the digits `s` write in `base`, most significant first.
pub open spec fn digits_value(s: Seq<char>, base: int) -> int
    decreases s.len(),
{
    if s.len() == 0 {
        0
    } else {
        digits_value(s.drop_last(), base) * base + char_value(s.last())
    }
}

proof fn lemma_digit_value(d: nat)
    requires
        d < 16,
    ensures
        char_value(digit_char(d)) == d,
{
}

/// The decimal digits of `n` are digits, write `n`, and start with no zero
/// unless `n` is zero.
pub proof fn lemma_dec_digits_write(n: nat)
    ensures
        dec_digits(n).len() >= 1,
        all_digits(dec_digits(n), 10),
        digits_value(dec_digits(n), 10) == n,
        n > 0 ==> dec_digits(n)[0] != '0',
    decreases n,
{
    lemma_digit_value(n % 10);
    if n < 10 {
        assert(dec_digits(n).drop_last() =~= Seq::<char>::empty());
        assert(dec_digits(n).last() == digit_char(n));
        assert(digits_value(dec_digits(n), 10) == digits_value(dec_digits(n).drop_last(), 10) * 10 + char_value(dec_digits(n).last()));
    }
    if n >= 10 {
        lemma_dec_digits_write(n / 10);
        let s = dec_digits(n);
        assert(digits_value(s, 10) == digits_value(s.drop_last(), 10) * 10 + char_value(s.last()));
        assert(s.last() == digit_char(n % 10));
        assert(s.drop_last() =~= dec_digits((n / 10) as nat));
        assert(digits_value(s.drop_last(), 10) == n / 10);
        assert((n / 10) * 10 + n % 10 == n);
        assert(s.drop_last() =~= dec_digits(n / 10));
        assert forall|k: int| 0 <= k < s.len() implies 0 <= #[trigger] char_value(s[k]) < 10 by {
            if k < s.len() - 1 {
                assert(s[k] == dec_digits(n / 10)[k]);
            }
        }
        assert(s[0] == dec_digits(n / 10)[0]);
    }
}

/// The hexadecimal digits of `n` are digits, write `n`, and start with no
/// zero unless `n` is zero.
pub proof fn lemma_hex_digits_write(n: nat)
    ensures
        hex_digits(n).len() >= 1,
        all_digits(hex_digits(n), 16),
        digits_value(hex_digits(n), 16) == n,
        n > 0 ==> hex_digits(n)[0] != '0',
    decreases n,
{
    lemma_digit_value(n % 16);
    if n < 16 {
        assert(hex_digits(n).drop_last() =~= Seq::<char>::empty());
        assert(hex_digits(n).last() == digit_char(n));
        assert(digits_value(hex_digits(n), 16) == digits_value(hex_digits(n).drop_last(), 16) * 16 + char_value(hex_digits(n).last()));
    }
    if n >= 16 {
        lemma_hex_digits_write(n / 16);
        let s = hex_digits(n);
        assert(digits_value(s, 16) == digits_value(s.drop_last(), 16) * 16 + char_value(s.last()));
        assert(s.last() == digit_char(n % 16));
        assert(s.drop_last() =~= hex_digits((n / 16) as nat));
        assert(digits_value(s.drop_last(), 16) == n / 16);
        assert((n / 16) * 16 + n % 16 == n);
        assert(s.drop_last() =~= hex_digits(n / 16));
        assert forall|k: int| 0 <= k < s.len() implies 0 <= #[trigger] char_value(s[k]) < 16 by {
            if k < s.len() - 1 {
                assert(s[k] == hex_digits(n / 16)[k]);
            }
        }
        assert(s[0] == hex_digits(n / 16)[0]);
    }
}

/// An integer as `{}` shows it: a non-negative one as its decimal digits
/// alone, with no sign; a negative one as `-` and the digits of its magnitude.
pub proof fn lemma_int_text_write(i: int)
    ensures
        i >= 0 ==> all_digits(int_text(i), 10) && digits_value(int_text(i), 10) == i,
        i < 0 ==> int_text(i)[0] == '-' && all_digits(int_text(i).drop_first(), 10)
            && digits_value(int_text(i).drop_first(), 10) == -i,
{
    if i >= 0 {
        lemma_dec_digits_write(i as nat);
    } else {
        lemma_dec_digits_write((-i) as nat);
        assert(int_text(i).drop_first() =~= dec_digits((-i) as nat));
    }
}

/// An integer as `{:+}` shows it: its sign, then the decimal digits of its
/// magnitude.
pub proof fn lemma_signed_text_write(i: int)
    ensures
        signed_text(i)[0] == if i < 0 {
            '-'
        } else {
            '+'
        },
        all_digits(signed_text(i).drop_first(), 10),
        digits_value(signed_text(i).drop_first(), 10) == if i < 0 {
            -i
        } else {
            i
        },
{
    if i >= 0 {
        lemma_dec_digits_write(i as nat);
        assert(signed_text(i).drop_first() =~= dec_digits(i as nat));
    } else {
        lemma_dec_digits_write((-i) as nat);
        assert(signed_text(i).drop_first() =~= dec_digits((-i) as nat));
    }
}

proof fn lemma_leading_zeros(k: nat, s: Seq<char>, base: int)
    ensures
        digits_value(Seq::new(k, |_i: int| '0') + s, base) == digits_value(s, base),
    decreases s.len(), k,
{
    let z = Seq::new(k, |_i: int| '0');
    if s.len() == 0 {
        assert(z + s =~= z);
        if k > 0 {
            lemma_leading_zeros((k - 1) as nat, s, base);
            assert(z.drop_last() =~= Seq::new((k - 1) as nat, |_i: int| '0'));
            assert(Seq::new((k - 1) as nat, |_i: int| '0') + s =~= z.drop_last());
        }
    } else {
        lemma_leading_zeros(k, s.drop_last(), base);
        assert((z + s).drop_last() =~= z + s.drop_last());
    }
}

/// An address as the listing shows it: `0x`, then at least three
/// upper-case hexadecimal digits (zero-padded) that write the address.
pub proof fn lemma_hex3_text_write(n: nat)
    ensures
        hex3_text(n).len() >= 5,
        hex3_text(n)[0] == '0' && hex3_text(n)[1] == 'x',
        all_digits(hex3_text(n).subrange(2, hex3_text(n).len() as int), 16),
        digits_value(hex3_text(n).subrange(2, hex3_text(n).len() as int), 16) == n,
{
    lemma_hex_digits_write(n);
    lemma_hex_len(n);
    let h = hex_digits(n);
    let t = hex3_text(n);
    let p = pad_left(h, 3, '0');
    assert(t.subrange(2, t.len() as int) =~= p);
    if h.len() < 3 {
        let k = (3 - h.len()) as nat;
        lemma_leading_zeros(k, h, 16);
        assert forall|j: int| 0 <= j < p.len() implies 0 <= #[trigger] char_value(p[j]) < 16 by {
            if j >= k {
                assert(p[j] == h[j - k]);
            }
        }
    }
}

/// Appends one character (a wrapper over `String::push`).
#[verifier::external_body]
pub fn push_char(s: &mut String, c: char)
    ensures
        final(s)@ == old(s)@.push(c),
{
    s.push(c);
}

fn digit(d: u64) -> (c: char)
    requires
        d < 16,
    ensures
        c == digit_char(d as nat),
{
    match d {
        0 => '0',
        1 => '1',
        2 => '2',
        3 => '3',
        4 => '4',
        5 => '5',
        6 => '6',
        7 => '7',
        8 => '8',
        9 => '9',
        10 => 'A',
        11 => 'B',
        12 => 'C',
        13 => 'D',
        14 => 'E',
        _ => 'F',
    }
}

/// Appends the decimal digits of `n`.
pub fn push_dec(out: &mut String, n: u64)
    ensures
        final(out)@ == old(out)@ + dec_digits(n as nat),
    decreases n,
{
    if n >= 10 {
        push_dec(out, n / 10);
    }
    push_char(out, digit(n % 10));
    assert(final(out)@ =~= old(out)@ + dec_digits(n as nat)) by {
        if n >= 10 {
            assert(dec_digits(n as nat) == dec_digits((n / 10) as nat).push(digit_char((n % 10) as nat)));
        }
    }
}

/// Appends the upper-case hexadecimal digits of `n`.
pub fn push_hex(out: &mut String, n: u64)
    ensures
        final(out)@ == old(out)@ + hex_digits(n as nat),
    decreases n,
{
    if n >= 16 {
        push_hex(out, n / 16);
    }
    push_char(out, digit(n % 16));
    assert(final(out)@ =~= old(out)@ + hex_digits(n as nat)) by {
        if n >= 16 {
            assert(hex_digits(n as nat) == hex_digits((n / 16) as nat).push(digit_char((n % 16) as nat)));
        }
    }
}

proof fn lemma_hex_len(n: nat)
    ensures
        n < 16 ==> hex_digits(n).len() == 1,
        16 <= n < 256 ==> hex_digits(n).len() == 2,
        256 <= n ==> hex_digits(n).len() >= 3,
    decreases n,
{
    if n >= 16 {
        lemma_hex_len(n / 16);
    }
}

proof fn lemma_dec_len(n: nat)
    ensures
        n < 10 ==> dec_digits(n).len() == 1,
        10 <= n ==> dec_digits(n).len() >= 2,
    decreases n,
{
    if n >= 10 {
        lemma_dec_len(n / 10);
    }
}

/// Appends `n` as `0x{:03X}` writes it.
pub fn push_hex3(out: &mut String, n: u64)
    ensures
        final(out)@ == old(out)@ + hex3_text(n as nat),
{
    proof {
        lemma_hex_len(n as nat);
    }
    push_char(out, '0');
    push_char(out, 'x');
    if n < 16 {
        push_char(out, '0');
        push_char(out, '0');
        assert(pad_left(hex_digits(n as nat), 3, '0') =~= seq!['0', '0'] + hex_digits(n as nat));
    } else if n < 256 {
        push_char(out, '0');
        assert(pad_left(hex_digits(n as nat), 3, '0') =~= seq!['0'] + hex_digits(n as nat));
    }
    push_hex(out, n);
    assert(final(out)@ =~= old(out)@ + hex3_text(n as nat));
}

/// The magnitude of a signed value, as an unsigned one.
fn magnitude(i: i64) -> (m: u64)
    ensures
        m as int == if i < 0 { -i } else { i as int },
{
    if i < 0 {
        ((-(i + 1)) as u64) + 1
    } else {
        i as u64
    }
}

/// Appends `i` as `{}` writes it.
pub fn push_int(out: &mut String, i: i64)
    ensures
        final(out)@ == old(out)@ + int_text(i as int),
{
    if i < 0 {
        push_char(out, '-');
    }
    push_dec(out, magnitude(i));
    assert(final(out)@ =~= old(out)@ + int_text(i as int));
}

/// Appends `i` as `{:+}` writes it.
pub fn push_signed(out: &mut String, i: i64)
    ensures
        final(out)@ == old(out)@ + signed_text(i as int),
{
    if i < 0 {
        push_char(out, '-');
    } else {
        push_char(out, '+');
    }
    push_dec(out, magnitude(i));
    assert(final(out)@ =~= old(out)@ + signed_text(i as int));
}

/// Appends `i` as `{:>+3}` writes it: signed, right-aligned in three columns.
pub fn push_signed_right3(out: &mut String, i: i64)
    ensures
        final(out)@ == old(out)@ + pad_left(signed_text(i as int), 3, ' '),
{
    let m = magnitude(i);
    proof {
        lemma_dec_len(m as nat);
    }
    if m < 10 {
        push_char(out, ' ');
        assert(pad_left(signed_text(i as int), 3, ' ') =~= seq![' '] + signed_text(i as int));
    } else {
        assert(pad_left(signed_text(i as int), 3, ' ') =~= signed_text(i as int));
    }
    push_signed(out, i);
    assert(final(out)@ =~= old(out)@ + pad_left(signed_text(i as int), 3, ' '));
}

/// Appends a string slice (a verified use of `StringExecFns::append`).
pub fn push_str(out: &mut String, s: &str)
    ensures
        final(out)@ == old(out)@ + s@,
{
    out.append(s);
}

} // verus!
