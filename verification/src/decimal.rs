//! Decimal rendering of collision counters, with the injectivity facts the
//! flatten engine needs: distinct counters yield distinct name suffixes.

use vstd::prelude::*;

verus! {

/// The digit character for `d` in 0..10.
pub open spec fn digit_char(d: int) -> char {
    if d == 0 {
        '0'
    } else if d == 1 {
        '1'
    } else if d == 2 {
        '2'
    } else if d == 3 {
        '3'
    } else if d == 4 {
        '4'
    } else if d == 5 {
        '5'
    } else if d == 6 {
        '6'
    } else if d == 7 {
        '7'
    } else if d == 8 {
        '8'
    } else {
        '9'
    }
}

/// The decimal rendering of `n >= 0`, most significant digit first.
pub open spec fn dec_digits(n: int) -> Seq<char>
    decreases n,
{
    if n < 10 {
        seq![digit_char(n)]
    } else {
        dec_digits(n / 10).push(digit_char(n % 10))
    }
}

/// Every character of a decimal rendering is a digit, hence never `.` or `_`.
pub proof fn lemma_dec_digits_are_digits(n: int)
    requires
        n >= 0,
    ensures
        forall|i: int|
            0 <= i < dec_digits(n).len() ==> exists|d: int|
                0 <= d < 10 && #[trigger] dec_digits(n)[i] == digit_char(d),
    decreases n,
{
    if n < 10 {
        assert forall|i: int|
            0 <= i < dec_digits(n).len() implies exists|d: int|
            0 <= d < 10 && #[trigger] dec_digits(n)[i] == digit_char(d) by {
            assert(0 <= n < 10 && dec_digits(n)[i] == digit_char(n));
        }
    } else {
        lemma_dec_digits_are_digits(n / 10);
        assert forall|i: int|
            0 <= i < dec_digits(n).len() implies exists|d: int|
            0 <= d < 10 && #[trigger] dec_digits(n)[i] == digit_char(d) by {
            if i < dec_digits(n / 10).len() {
                assert(dec_digits(n)[i] == dec_digits(n / 10)[i]);
            } else {
                assert(0 <= n % 10 < 10 && dec_digits(n)[i] == digit_char(n % 10));
            }
        }
    }
}

proof fn lemma_digit_char_ne_dot_underscore(d: int)
    ensures
        digit_char(d) != '.',
        digit_char(d) != '_',
{
}

/// No character of a decimal rendering is a dot or an underscore.
pub proof fn lemma_dec_digits_no_dot(n: int)
    requires
        n >= 0,
    ensures
        forall|i: int|
            0 <= i < dec_digits(n).len() ==> dec_digits(n)[i] != '.' && dec_digits(n)[i] != '_',
{
    lemma_dec_digits_are_digits(n);
    assert forall|i: int|
        0 <= i < dec_digits(n).len() implies dec_digits(n)[i] != '.' && dec_digits(n)[i]
        != '_' by {
        let d = choose|d: int| 0 <= d < 10 && dec_digits(n)[i] == digit_char(d);
        lemma_digit_char_ne_dot_underscore(d);
    }
}

/// A decimal rendering is never empty.
pub proof fn lemma_dec_digits_len(n: int)
    ensures
        dec_digits(n).len() >= 1,
        n >= 10 ==> dec_digits(n).len() >= 2,
    decreases n,
{
    if n >= 10 {
        lemma_dec_digits_len(n / 10);
    }
}

/// Distinct counters render to distinct digit strings.
pub proof fn lemma_dec_digits_injective(a: int, b: int)
    requires
        a >= 0,
        b >= 0,
        dec_digits(a) == dec_digits(b),
    ensures
        a == b,
    decreases a,
{
    if a < 10 && b < 10 {
        assert(dec_digits(a)[0] == digit_char(a));
        assert(dec_digits(b)[0] == digit_char(b));
    } else if a < 10 {
        lemma_dec_digits_len(b);
        assert(dec_digits(a).len() == 1);
    } else if b < 10 {
        lemma_dec_digits_len(a);
        assert(dec_digits(b).len() == 1);
    } else {
        assert(dec_digits(a).last() == digit_char(a % 10));
        assert(dec_digits(b).last() == digit_char(b % 10));
        assert(a % 10 == b % 10);
        assert(dec_digits(a).drop_last() =~= dec_digits(a / 10));
        assert(dec_digits(b).drop_last() =~= dec_digits(b / 10));
        lemma_dec_digits_injective(a / 10, b / 10);
        vstd::arithmetic::div_mod::lemma_fundamental_div_mod(a, 10);
        vstd::arithmetic::div_mod::lemma_fundamental_div_mod(b, 10);
    }
}

fn digit_str(d: u8) -> (r: &'static str)
    requires
        d < 10,
    ensures
        r@ == seq![digit_char(d as int)],
{
    let r: &'static str = if d == 0 {
        "0"
    } else if d == 1 {
        "1"
    } else if d == 2 {
        "2"
    } else if d == 3 {
        "3"
    } else if d == 4 {
        "4"
    } else if d == 5 {
        "5"
    } else if d == 6 {
        "6"
    } else if d == 7 {
        "7"
    } else if d == 8 {
        "8"
    } else {
        "9"
    };
    proof {
        reveal_strlit("0");
        reveal_strlit("1");
        reveal_strlit("2");
        reveal_strlit("3");
        reveal_strlit("4");
        reveal_strlit("5");
        reveal_strlit("6");
        reveal_strlit("7");
        reveal_strlit("8");
        reveal_strlit("9");
        assert(r@ =~= seq![digit_char(d as int)]);
    }
    r
}

/// Render a counter in decimal.
pub fn counter_to_dec(n: u128) -> (r: String)
    ensures
        r@ == dec_digits(n as int),
{
    let mut digits_rev: Vec<u8> = Vec::new();
    let mut m = n;
    let ghost mut tail: Seq<char> = Seq::empty();
    while m >= 10
        invariant
            dec_digits(n as int) == dec_digits(m as int) + tail,
            tail.len() == digits_rev@.len(),
            forall|j: int|
                0 <= j < tail.len() ==> tail[j] == digit_char(
                    digits_rev@[digits_rev@.len() - 1 - j] as int,
                ),
            forall|j: int| 0 <= j < digits_rev@.len() ==> digits_rev@[j] < 10,
        decreases m,
    {
        let d = (m % 10) as u8;
        let ghost tail_old = tail;
        digits_rev.push(d);
        proof {
            tail = seq![digit_char(d as int)] + tail_old;
            assert(dec_digits(m as int) == dec_digits(m as int / 10).push(
                digit_char(m as int % 10),
            ));
            assert(dec_digits(m as int / 10).push(digit_char(m as int % 10)) =~= dec_digits(
                m as int / 10,
            ) + seq![digit_char(m as int % 10)]);
            assert(dec_digits(m as int) + tail_old =~= dec_digits(m as int / 10) + tail);
        }
        m = m / 10;
    }
    let mut out = digit_str(m as u8).to_owned();
    proof {
        assert(out@ =~= seq![digit_char(m as int)]);
        assert(dec_digits(n as int) == seq![digit_char(m as int)] + tail);
    }
    let total = digits_rev.len();
    let mut k: usize = total;
    while k > 0
        invariant
            total == digits_rev@.len() == tail.len(),
            0 <= k <= total,
            forall|j: int|
                0 <= j < tail.len() ==> tail[j] == digit_char(
                    digits_rev@[digits_rev@.len() - 1 - j] as int,
                ),
            forall|j: int| 0 <= j < digits_rev@.len() ==> digits_rev@[j] < 10,
            out@ == seq![digit_char(m as int)] + tail.take((total - k) as int),
            m < 10,
        decreases k,
    {
        let d = digits_rev[k - 1];
        out.append(digit_str(d));
        proof {
            assert(tail[total - k] == digit_char(digits_rev@[k - 1] as int));
            assert(tail.take((total - k + 1) as int) =~= tail.take((total - k) as int).push(
                tail[total - k],
            ));
            assert(out@ =~= seq![digit_char(m as int)] + tail.take((total - k + 1) as int));
        }
        k -= 1;
    }
    proof {
        assert(tail.take(total as int) =~= tail);
    }
    out
}

} // verus!
