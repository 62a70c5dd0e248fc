//! Unsigned integer literals: decimal and hexadecimal digits, written and read.
use crate::text::chars_of;
use vstd::arithmetic::power2::pow2;
use vstd::prelude::*;

verus! {

/// The digit character for `d < 16`, lower case for values above nine.
pub open spec fn digit_char(d: nat) -> char {
    if d == 0 {
        '0'
    } else if d == 1 {
        '1'
    } else if d == 2 {
        '2'
    } else if d == 3 {
        '3'
    } else if d == 4 {
        '4'
    } else if d == 5 {
        '5'
    } else if d == 6 {
        '6'
    } else if d == 7 {
        '7'
    } else if d == 8 {
        '8'
    } else if d == 9 {
        '9'
    } else if d == 10 {
        'a'
    } else if d == 11 {
        'b'
    } else if d == 12 {
        'c'
    } else if d == 13 {
        'd'
    } else if d == 14 {
        'e'
    } else {
        'f'
    }
}

/// The value of a digit character in any base up to sixteen, upper or lower
/// case, or `None` for any other character.
pub open spec fn digit_value(c: char) -> Option<nat> {
    if '0' <= c && c <= '9' {
        Some((c as nat - '0' as nat) as nat)
    } else if 'a' <= c && c <= 'f' {
        Some((c as nat - 'a' as nat + 10) as nat)
    } else if 'A' <= c && c <= 'F' {
        Some((c as nat - 'A' as nat + 10) as nat)
    } else {
        None
    }
}

/// `c` is a digit of base `radix`.
pub open spec fn is_digit(c: char, radix: nat) -> bool {
    digit_value(c) matches Some(d) && d < radix
}

/// The value of a sequence of digits, most significant first.
pub open spec fn digits_value(s: Seq<char>, radix: nat) -> nat
    decreases s.len(),
{
    if s.len() == 0 {
        0
    } else {
        digits_value(s.drop_last(), radix) * radix + match digit_value(s.last()) {
            Some(d) => d,
            None => 0,
        }
    }
}

/// The digits of `n` in base `radix`, most significant first, without
/// leading zeros (`0` is written as one digit).
pub open spec fn digits_of(n: nat, radix: nat) -> Seq<char>
    decreases n,
    via digits_of_decreases
{
    if radix < 2 || n < radix {
        seq![digit_char(n)]
    } else {
        digits_of(n / radix, radix).push(digit_char(n % radix))
    }
}

#[via_fn]
proof fn digits_of_decreases(n: nat, radix: nat) {
    if !(radix < 2 || n < radix) {
        assert(n / radix < n) by (nonlinear_arith)
            requires
                radix >= 2,
                n >= radix,
        ;
    }
}

/// `s` preceded by as many `0` as it takes to reach `width` characters.
pub open spec fn pad_zeros(s: Seq<char>, width: nat) -> Seq<char> {
    if s.len() >= width {
        s
    } else {
        Seq::new((width - s.len()) as nat, |i: int| '0') + s
    }
}

/// How `str::parse` and `from_str_radix` read an unsigned 64-bit integer:
/// an optional `+`, then at least one digit of the base, with a value below
/// `2^64`.
pub open spec fn parse_u64_spec(s: Seq<char>, radix: nat) -> Option<u64> {
    let body = number_body(s);
    if body.len() > 0 && all_digits(body, radix) && digits_value(body, radix) < pow2(64) {
        Some(digits_value(body, radix) as u64)
    } else {
        None
    }
}

/// `s` without one leading `+`.
pub open spec fn number_body(s: Seq<char>) -> Seq<char> {
    if s.len() > 0 && s[0] == '+' {
        s.drop_first()
    } else {
        s
    }
}

/// Every character of `s` is a digit of base `radix`.
pub open spec fn all_digits(s: Seq<char>, radix: nat) -> bool {
    forall|i: int| 0 <= i < s.len() ==> is_digit(#[trigger] s[i], radix)
}

fn digit_of(d: u64) -> (c: char)
    requires
        d < 16,
    ensures
        c == digit_char(d as nat),
{
    if d == 0 {
        '0'
    } else if d == 1 {
        '1'
    } else if d == 2 {
        '2'
    } else if d == 3 {
        '3'
    } else if d == 4 {
        '4'
    } else if d == 5 {
        '5'
    } else if d == 6 {
        '6'
    } else if d == 7 {
        '7'
    } else if d == 8 {
        '8'
    } else if d == 9 {
        '9'
    } else if d == 10 {
        'a'
    } else if d == 11 {
        'b'
    } else if d == 12 {
        'c'
    } else if d == 13 {
        'd'
    } else if d == 14 {
        'e'
    } else {
        'f'
    }
}

fn value_of_digit(c: char) -> (r: Option<u64>)
    ensures
        r matches Some(d) ==> digit_value(c) == Some(d as nat),
        r is None ==> digit_value(c) is None,
{
    if '0' <= c && c <= '9' {
        Some((c as u32 - '0' as u32) as u64)
    } else if 'a' <= c && c <= 'f' {
        Some((c as u32 - 'a' as u32 + 10) as u64)
    } else if 'A' <= c && c <= 'F' {
        Some((c as u32 - 'A' as u32 + 10) as u64)
    } else {
        None
    }
}

/// The digits of `n` in base `radix`, most significant first.
pub fn write_digits(n: u64, radix: u64) -> (r: Vec<char>)
    requires
        2 <= radix <= 16,
    ensures
        r@ == digits_of(n as nat, radix as nat),
{
    let mut acc: Vec<char> = Vec::new();
    let mut q: u64 = n;
    while q >= radix
        invariant
            2 <= radix <= 16,
            digits_of(n as nat, radix as nat) == digits_of(q as nat, radix as nat) + acc@,
        decreases q,
    {
        let c = digit_of(q % radix);
        proof {
            assert(digits_of(q as nat, radix as nat) == digits_of((q / radix) as nat, radix as nat).push(
                c,
            ));
            assert(digits_of((q / radix) as nat, radix as nat).push(c) + acc@ =~= digits_of(
                (q / radix) as nat,
                radix as nat,
            ) + seq![c].add(acc@));
        }
        acc.insert(0, c);
        q = q / radix;
    }
    let c = digit_of(q);
    acc.insert(0, c);
    assert(acc@ =~= seq![c] + acc@.drop_first());
    acc
}

/// `n` in base `radix`, padded with leading zeros to at least `width` digits.
pub fn write_padded(n: u64, radix: u64, width: usize) -> (r: Vec<char>)
    requires
        2 <= radix <= 16,
    ensures
        r@ == pad_zeros(digits_of(n as nat, radix as nat), width as nat),
{
    let d = write_digits(n, radix);
    if d.len() >= width {
        return d;
    }
    let mut r: Vec<char> = Vec::new();
    let zeros = width - d.len();
    while r.len() < zeros
        invariant
            r@.len() <= zeros,
            forall|i: int| 0 <= i < r@.len() ==> r@[i] == '0',
        decreases zeros - r@.len(),
    {
        r.push('0');
    }
    let mut i: usize = 0;
    while i < d.len()
        invariant
            i <= d@.len(),
            r@.len() == zeros + i,
            forall|j: int| 0 <= j < zeros ==> r@[j] == '0',
            r@.subrange(zeros as int, r@.len() as int) == d@.subrange(0, i as int),
        decreases d@.len() - i,
    {
        r.push(d[i]);
        i = i + 1;
        assert(r@.subrange(zeros as int, r@.len() as int) =~= d@.subrange(0, i as int));
    }
    assert(r@.subrange(0, zeros as int) =~= Seq::new(zeros as nat, |i: int| '0'));
    assert(d@.subrange(0, i as int) =~= d@);
    assert(r@ =~= r@.subrange(0, zeros as int) + r@.subrange(zeros as int, r@.len() as int));
    assert(r@ =~= pad_zeros(d@, width as nat));
    r
}

proof fn lemma_prefix_value(s: Seq<char>, radix: nat, i: int)
    requires
        radix >= 1,
        0 <= i <= s.len(),
    ensures
        digits_value(s.subrange(0, i), radix) <= digits_value(s, radix),
    decreases s.len(),
{
    if i < s.len() {
        assert(s.drop_last().subrange(0, i) =~= s.subrange(0, i));
        lemma_prefix_value(s.drop_last(), radix, i);
        let v = digits_value(s.drop_last(), radix);
        assert(v * radix >= v) by (nonlinear_arith)
            requires
                radix >= 1,
        ;
    } else {
        assert(s.subrange(0, i) =~= s);
    }
}

/// Reads `v[lo..hi]` as `str::parse::<u64>` does for `radix` ten and as
/// `u64::from_str_radix` does for sixteen.
pub fn parse_u64(v: &Vec<char>, lo: usize, hi: usize, radix: u64) -> (r: Option<u64>)
    requires
        lo <= hi <= v@.len(),
        2 <= radix <= 16,
    ensures
        r == parse_u64_spec(v@.subrange(lo as int, hi as int), radix as nat),
{
    let ghost s = v@.subrange(lo as int, hi as int);
    let mut start = lo;
    if lo < hi && v[lo] == '+' {
        start = lo + 1;
    }
    let ghost body = v@.subrange(start as int, hi as int);
    assert(body =~= number_body(s));
    if start == hi {
        return None;
    }
    proof {
        vstd::arithmetic::power2::lemma2_to64();
    }
    let mut acc: u64 = 0;
    let mut i: usize = start;
    while i < hi
        invariant
            start <= i <= hi <= v@.len(),
            2 <= radix <= 16,
            body == v@.subrange(start as int, hi as int),
            s == v@.subrange(lo as int, hi as int),
            body == number_body(s),
            pow2(64) == 0x1_0000_0000_0000_0000,
            forall|j: int| start <= j < i ==> is_digit(#[trigger] v@[j], radix as nat),
            acc as nat == digits_value(v@.subrange(start as int, i as int), radix as nat),
        decreases hi - i,
    {
        let ghost pre = v@.subrange(start as int, i + 1);
        assert(pre.drop_last() =~= v@.subrange(start as int, i as int));
        let d = match value_of_digit(v[i]) {
            Some(d) => d,
            None => {
                assert(!is_digit(body[i - start], radix as nat));
                assert(!all_digits(body, radix as nat));
                return None;
            },
        };
        if d >= radix {
            assert(!is_digit(body[i - start], radix as nat));
            assert(!all_digits(body, radix as nat));
            return None;
        }
        let next = match acc.checked_mul(radix) {
            Some(m) => m.checked_add(d),
            None => None,
        };
        match next {
            Some(x) => {
                acc = x;
            },
            None => {
                proof {
                    lemma_prefix_value(body, radix as nat, i + 1 - start);
                    assert(body.subrange(0, i + 1 - start) =~= pre);
                }
                return None;
            },
        }
        i = i + 1;
    }
    assert(v@.subrange(start as int, i as int) =~= body);
    Some(acc)
}

proof fn lemma_digit_char_value(d: nat)
    requires
        d < 16,
    ensures
        digit_value(digit_char(d)) == Some(d),
        digit_char(d) != '\'',
        digit_char(d) != '+',
{
}

/// Writing `n` in base `radix` and reading the digits back gives `n`; the
/// digits are digits of the base and hold no quote or sign.
pub proof fn lemma_digits_round_trip(n: nat, radix: nat)
    requires
        2 <= radix <= 16,
    ensures
        digits_value(digits_of(n, radix), radix) == n,
        all_digits(digits_of(n, radix), radix),
        digits_of(n, radix).len() > 0,
        forall|i: int| 0 <= i < digits_of(n, radix).len() ==> #[trigger] digits_of(n, radix)[i] != '\''
            && digits_of(n, radix)[i] != '+',
    decreases n,
{
    if n < radix {
        lemma_digit_char_value(n);
        let s = digits_of(n, radix);
        assert(s == seq![digit_char(n)]);
        assert(s.drop_last() =~= Seq::<char>::empty());
        assert(digits_value(Seq::<char>::empty(), radix) == 0);
        assert(0 * radix == 0) by (nonlinear_arith);
        assert(digits_value(s, radix) == digits_value(s.drop_last(), radix) * radix + n);
    } else {
        assert(n / radix < n) by (nonlinear_arith)
            requires
                radix >= 2,
                n >= radix,
        ;
        lemma_digits_round_trip(n / radix, radix);
        let pre = digits_of(n / radix, radix);
        let s = digits_of(n, radix);
        assert(s == pre.push(digit_char(n % radix)));
        lemma_digit_char_value(n % radix);
        assert(s.drop_last() =~= pre);
        assert(n == (n / radix) * radix + n % radix) by (nonlinear_arith)
            requires
                radix >= 2,
        ;
        assert(s.last() == digit_char(n % radix));
        assert(digits_value(s, radix) == digits_value(pre, radix) * radix + n % radix);
        assert forall|i: int| 0 <= i < s.len() implies is_digit(#[trigger] s[i], radix) && s[i] != '\''
            && s[i] != '+' by {
            if i < pre.len() {
                assert(s[i] == pre[i]);
            }
        }
    }
}

/// Leading zeros do not change the value of digits.
pub proof fn lemma_zeros_value(z: nat, s: Seq<char>, radix: nat)
    ensures
        digits_value(Seq::new(z, |i: int| '0') + s, radix) == digits_value(s, radix),
    decreases s.len(), z,
{
    if s.len() > 0 {
        let t = Seq::new(z, |i: int| '0') + s;
        assert(t.drop_last() =~= Seq::new(z, |i: int| '0') + s.drop_last());
        assert(t.last() == s.last());
        lemma_zeros_value(z, s.drop_last(), radix);
        assert(t.len() > 0);
        assert(digits_value(t, radix) == digits_value(t.drop_last(), radix) * radix + match digit_value(t.last()) {
            Some(d) => d,
            None => 0,
        });
    } else if z > 0 {
        let t = Seq::new(z, |i: int| '0');
        assert(t + s =~= t);
        assert(t.drop_last() =~= Seq::new((z - 1) as nat, |i: int| '0'));
        lemma_zeros_value((z - 1) as nat, s, radix);
        assert(Seq::new((z - 1) as nat, |i: int| '0') + s =~= Seq::new((z - 1) as nat, |i: int| '0'));
        assert(digit_value('0') == Some(0nat));
        assert(digits_value(s, radix) == 0);
        assert(t.last() == '0');
        assert(0 * radix == 0) by (nonlinear_arith);
        assert(digits_value(t, radix) == digits_value(t.drop_last(), radix) * radix + 0);
    } else {
        assert(Seq::new(z, |i: int| '0') + s =~= s);
    }
}

/// Padding `n`'s digits with zeros and reading them back gives `n`.
pub proof fn lemma_padded_round_trip(n: u64, radix: nat, width: nat)
    requires
        2 <= radix <= 16,
    ensures
        parse_u64_spec(pad_zeros(digits_of(n as nat, radix), width), radix) == Some(n),
        forall|i: int|
            0 <= i < pad_zeros(digits_of(n as nat, radix), width).len() ==> #[trigger] pad_zeros(
                digits_of(n as nat, radix),
                width,
            )[i] != '\'',
        pad_zeros(digits_of(n as nat, radix), width).len() > 0,
{
    lemma_digits_round_trip(n as nat, radix);
    let d = digits_of(n as nat, radix);
    let p = pad_zeros(d, width);
    if d.len() < width {
        let z = (width - d.len()) as nat;
        lemma_zeros_value(z, d, radix);
        assert forall|i: int| 0 <= i < p.len() implies is_digit(#[trigger] p[i], radix) && p[i] != '\''
            && p[i] != '+' by {
            if i < z {
                assert(p[i] == '0');
                assert(digit_value('0') == Some(0nat));
            } else {
                assert(p[i] == d[i - z]);
            }
        }
    }
    assert(p[0] != '+');
    assert(number_body(p) == p);
    vstd::arithmetic::power2::lemma2_to64();
}

} // verus!
