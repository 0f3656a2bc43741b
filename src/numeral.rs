//! Decimal integers as text: what a numeral means, reading one, writing one.
use vstd::prelude::*;

verus! {

pub open spec fn is_digit(c: char) -> bool {
    '0' <= c && c <= '9'
}

pub open spec fn digit_value(c: char) -> int {
    (c as int) - ('0' as int)
}

pub open spec fn digit_char(d: int) -> char {
    seq!['0', '1', '2', '3', '4', '5', '6', '7', '8', '9'][d]
}

/// A non-empty run of decimal digits.
pub open spec fn is_digits(s: Seq<char>) -> bool {
    s.len() > 0 && forall|i: int| 0 <= i < s.len() ==> is_digit(#[trigger] s[i])
}

/// The value of a run of decimal digits, most significant first.
pub open spec fn digits_value(s: Seq<char>) -> int
    decreases s.len(),
{
    if s.len() == 0 {
        0
    } else {
        digits_value(s.drop_last()) * 10 + digit_value(s.last())
    }
}

/// The integer a numeral denotes: an optional `+` or `-`, then one or more digits.
pub open spec fn int_of(s: Seq<char>) -> Option<int> {
    if s.len() > 0 && (s[0] == '-' || s[0] == '+') && is_digits(s.drop_first()) {
        if s[0] == '-' {
            Some(-digits_value(s.drop_first()))
        } else {
            Some(digits_value(s.drop_first()))
        }
    } else if is_digits(s) {
        Some(digits_value(s))
    } else {
        None
    }
}

pub open spec fn fits_i32(v: int) -> bool {
    i32::MIN <= v <= i32::MAX
}

/// The numeral's value, where it is one that an `i32` holds.
pub open spec fn i32_of(s: Seq<char>) -> Option<int> {
    if int_of(s) is Some && fits_i32(int_of(s)->0) {
        int_of(s)
    } else {
        None
    }
}

/// An optional `i32` as an optional mathematical integer.
pub open spec fn widen(o: Option<i32>) -> Option<int> {
    match o {
        Some(v) => Some(v as int),
        None => None,
    }
}

/// The shortest decimal text of a natural number.
pub open spec fn nat_text(n: nat) -> Seq<char>
    decreases n,
{
    if n < 10 {
        seq![digit_char(n as int)]
    } else {
        nat_text(n / 10).push(digit_char((n % 10) as int))
    }
}

pub proof fn lemma_digit_char(d: int)
    requires
        0 <= d < 10,
    ensures
        is_digit(digit_char(d)),
        digit_value(digit_char(d)) == d,
        digit_char(d) != '-' && digit_char(d) != '+',
        digit_char(d) != '_' && digit_char(d) != '/',
{
}

pub proof fn lemma_digits_value_nonneg(s: Seq<char>)
    requires
        forall|i: int| 0 <= i < s.len() ==> is_digit(#[trigger] s[i]),
    ensures
        digits_value(s) >= 0,
    decreases s.len(),
{
    if s.len() > 0 {
        lemma_digits_value_nonneg(s.drop_last());
    }
}

/// Further digits never make a numeral smaller.
pub proof fn lemma_digits_value_prefix(s: Seq<char>, k: int)
    requires
        0 <= k <= s.len(),
        forall|i: int| 0 <= i < s.len() ==> is_digit(#[trigger] s[i]),
    ensures
        digits_value(s) >= digits_value(s.take(k)),
    decreases s.len(),
{
    if k == s.len() {
        assert(s.take(k) =~= s);
    } else {
        let t = s.drop_last();
        lemma_digits_value_prefix(t, k);
        assert(t.take(k) =~= s.take(k));
        lemma_digits_value_nonneg(t);
    }
}

/// The decimal text of a number is a run of digits with that value.
pub proof fn lemma_nat_text(n: nat)
    ensures
        is_digits(nat_text(n)),
        digits_value(nat_text(n)) == n,
    decreases n,
{
    if n < 10 {
        lemma_digit_char(n as int);
        assert(nat_text(n).drop_last() =~= Seq::<char>::empty());
        assert(digits_value(Seq::<char>::empty()) == 0);
    } else {
        lemma_nat_text(n / 10);
        lemma_digit_char((n % 10) as int);
        let t = nat_text(n);
        assert(t.drop_last() =~= nat_text(n / 10));
        assert(t.last() == digit_char((n % 10) as int));
        assert(digits_value(t) == digits_value(nat_text(n / 10)) * 10 + (n % 10) as int);
        assert forall|i: int| 0 <= i < t.len() implies is_digit(#[trigger] t[i]) by {
            if i < t.len() - 1 {
                assert(t[i] == nat_text(n / 10)[i]);
            }
        }
    }
}

/// Reading back the text of a number, with or without a leading minus, gives the number.
pub proof fn lemma_int_of_nat_text(n: nat)
    ensures
        int_of(nat_text(n)) == Some(n as int),
        int_of(seq!['-'] + nat_text(n)) == Some(-n),
{
    lemma_nat_text(n);
    let t = nat_text(n);
    lemma_digit_char(digit_value(t[0]));
    let m = seq!['-'] + t;
    assert(m.drop_first() =~= t);
    assert(m[0] == '-');
}

/// The decimal text of a number, with or without a leading minus, holds no character but
/// digits and that minus.
pub proof fn lemma_nat_text_lacks(n: nat, negative: bool, c: char)
    requires
        !is_digit(c),
        c != '-',
    ensures
        !(if negative {
            seq!['-'] + nat_text(n)
        } else {
            nat_text(n)
        }).contains(c),
{
    lemma_nat_text(n);
    let t = nat_text(n);
    let s = if negative {
        seq!['-'] + t
    } else {
        t
    };
    assert forall|i: int| 0 <= i < s.len() implies s[i] != c by {
        if negative {
            if i > 0 {
                assert(s[i] == t[i - 1]);
            }
        } else {
            assert(is_digit(t[i]));
        }
    }
}

/// Reads an `i32` written as an optional sign and decimal digits, as `str::parse` does.
pub fn parse_i32(s: &str) -> (r: Option<i32>)
    ensures
        widen(r) == i32_of(s@),
{
    let n = s.unicode_len();
    if n == 0 {
        return None;
    }
    let c0 = s.get_char(0);
    let negative = c0 == '-';
    let start: usize = if c0 == '-' || c0 == '+' { 1 } else { 0 };
    if start >= n {
        return None;
    }
    let ghost body = s@.subrange(start as int, n as int);
    assert(start == 1 ==> body =~= s@.drop_first());
    assert(start == 0 ==> body =~= s@);
    let mut acc: i64 = 0;
    let mut i: usize = start;
    while i < n
        invariant
            start <= 1,
            start <= i <= n,
            n == s@.len(),
            body == s@.subrange(start as int, n as int),
            start == 1 ==> body == s@.drop_first(),
            start == 0 ==> body == s@,
            c0 == s@[0],
            start == 1 <==> (c0 == '-' || c0 == '+'),
            negative == (c0 == '-'),
            0 <= acc <= 2147483648,
            forall|j: int| start <= j < i ==> is_digit(#[trigger] s@[j]),
            acc == digits_value(s@.subrange(start as int, i as int)),
        decreases n - i,
    {
        let c = s.get_char(i);
        if !('0' <= c && c <= '9') {
            assert(body[i - start] == c);
            return None;
        }
        let v = acc * 10 + (c as u32 - '0' as u32) as i64;
        let ghost pre = s@.subrange(start as int, i as int + 1);
        assert(pre.drop_last() =~= s@.subrange(start as int, i as int));
        assert(pre.last() == c);
        assert(digits_value(pre) == v);
        if v > 2147483648 {
            proof {
                if forall|j: int| 0 <= j < body.len() ==> is_digit(#[trigger] body[j]) {
                    lemma_digits_value_prefix(body, i + 1 - start);
                    assert(body.take(i + 1 - start) =~= pre);
                    assert(start == 1 ==> is_digits(s@.drop_first()));
                    assert(start == 0 ==> is_digits(s@));
                }
                assert(!is_digit(s@[0]) || start == 0);
            }
            return None;
        }
        acc = v;
        i = i + 1;
    }
    assert(s@.subrange(start as int, i as int) =~= body);
    if negative {
        Some((-acc) as i32)
    } else if acc > 2147483647 {
        None
    } else {
        Some(acc as i32)
    }
}

/// Appends the decimal digits of `v`.
pub fn push_decimal(out: &mut String, v: u64)
    ensures
        final(out)@ == old(out)@ + nat_text(v as nat),
    decreases v,
{
    if v >= 10 {
        push_decimal(out, v / 10);
    }
    let digits = "0123456789";
    proof {
        reveal_strlit("0123456789");
    }
    let d = (v % 10) as usize;
    out.append(digits.substring_char(d, d + 1));
    proof {
        let s = digits@.subrange(d as int, d as int + 1);
        assert(s =~= seq![digit_char(d as int)]);
        if v >= 10 {
            assert(nat_text(v as nat) =~= nat_text((v / 10) as nat) + s);
        } else {
            assert(nat_text(v as nat) =~= s);
        }
    }
}

} // verus!
