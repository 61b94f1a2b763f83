//! The file names under which the frames of an animation are stored.

use vstd::prelude::*;
use vstd::string::*;

verus! {

/// The character of a decimal digit `d` (`0 <= d < 10`).
pub open spec fn digit_char(d: int) -> char {
    seq!['0', '1', '2', '3', '4', '5', '6', '7', '8', '9'][d]
}

/// The decimal numeral of `n`, without leading zeros ("0" for zero).
pub open spec fn decimal(n: nat) -> Seq<char>
    decreases n,
{
    if n < 10 {
        seq![digit_char(n as int)]
    } else {
        decimal(n / 10).push(digit_char((n % 10) as int))
    }
}

/// `s` padded on the left with `'0'` up to `width` characters; a longer `s`
/// is kept whole.
pub open spec fn zero_padded(s: Seq<char>, width: nat) -> Seq<char> {
    if s.len() < width {
        Seq::new((width - s.len()) as nat, |i: int| '0') + s
    } else {
        s
    }
}

/// The name of frame `index`: `image`, the frame's number in decimal
/// zero-padded to ten digits, then `.png`.
pub open spec fn frame_name(index: nat) -> Seq<char> {
    seq!['i', 'm', 'a', 'g', 'e'] + zero_padded(decimal(index), 10) + seq!['.', 'p', 'n', 'g']
}

/// The last `k` decimal digits of `n`, most significant first.
spec fn last_digits(n: nat, k: nat) -> Seq<char>
    decreases k,
{
    if k == 0 {
        Seq::empty()
    } else {
        last_digits(n / 10, (k - 1) as nat).push(digit_char((n % 10) as int))
    }
}

/// Ten to the power `k`.
spec fn pow10(k: nat) -> nat
    decreases k,
{
    if k == 0 {
        1
    } else {
        10 * pow10((k - 1) as nat)
    }
}

proof fn lemma_last_digits_of_zero(k: nat)
    ensures
        last_digits(0, k) == Seq::new(k, |i: int| '0'),
    decreases k,
{
    if k > 0 {
        lemma_last_digits_of_zero((k - 1) as nat);
        assert(last_digits(0, k) =~= Seq::new(k, |i: int| '0'));
    }
}

/// A number below `10^k` has at most `k` decimal digits.
proof fn lemma_decimal_len(n: nat, k: nat)
    requires
        1 <= k,
        n < pow10(k),
    ensures
        decimal(n).len() <= k,
    decreases k,
{
    if n >= 10 {
        assert(k >= 2) by {
            if k == 1 {
                assert(pow10(1) == 10 * pow10(0));
            }
        }
        assert(pow10(k) == 10 * pow10((k - 1) as nat));
        lemma_decimal_len(n / 10, (k - 1) as nat);
    }
}

/// When `n` has at most `k` digits, its last `k` digits are its decimal
/// numeral zero-padded to `k` characters.
proof fn lemma_last_digits_padded(n: nat, k: nat)
    requires
        1 <= k,
        decimal(n).len() <= k,
    ensures
        last_digits(n, k) == zero_padded(decimal(n), k),
    decreases k,
{
    if n < 10 {
        lemma_last_digits_of_zero((k - 1) as nat);
        assert(last_digits(n, k) =~= zero_padded(decimal(n), k));
    } else {
        assert(decimal(n / 10).len() >= 1);
        lemma_last_digits_padded(n / 10, (k - 1) as nat);
        assert(last_digits(n, k) =~= zero_padded(decimal(n), k));
    }
}

/// Numbers below `10^k` with the same last `k` digits are equal.
proof fn lemma_last_digits_injective(n: nat, m: nat, k: nat)
    requires
        n < pow10(k),
        m < pow10(k),
        last_digits(n, k) == last_digits(m, k),
    ensures
        n == m,
    decreases k,
{
    if k > 0 {
        let ln = last_digits(n, k);
        let lm = last_digits(m, k);
        assert(ln.last() == digit_char((n % 10) as int));
        assert(lm.last() == digit_char((m % 10) as int));
        assert(n % 10 == m % 10);
        assert(ln.drop_last() =~= last_digits(n / 10, (k - 1) as nat));
        assert(lm.drop_last() =~= last_digits(m / 10, (k - 1) as nat));
        assert(pow10(k) == 10 * pow10((k - 1) as nat));
        lemma_last_digits_injective(n / 10, m / 10, (k - 1) as nat);
    }
}

/// The last `k` digits of any number are `k` characters.
proof fn lemma_last_digits_len(n: nat, k: nat)
    ensures
        last_digits(n, k).len() == k,
    decreases k,
{
    if k > 0 {
        lemma_last_digits_len(n / 10, (k - 1) as nat);
    }
}

/// The name of a frame is its ten zero-padded digits between `image` and
/// `.png`.
proof fn lemma_frame_name_digits(index: u32)
    ensures
        frame_name(index as nat) == seq!['i', 'm', 'a', 'g', 'e'] + last_digits(index as nat, 10)
            + seq!['.', 'p', 'n', 'g'],
        last_digits(index as nat, 10).len() == 10,
        (index as nat) < pow10(10),
{
    assert(pow10(10) == 10000000000) by {
        reveal_with_fuel(pow10, 11);
    }
    lemma_decimal_len(index as nat, 10);
    lemma_last_digits_padded(index as nat, 10);
    lemma_last_digits_len(index as nat, 10);
}

/// Different frames get different file names, so no frame's file
/// overwrites another's.
pub proof fn lemma_frame_names_distinct(i: u32, j: u32)
    requires
        i != j,
    ensures
        frame_name(i as nat) != frame_name(j as nat),
{
    lemma_frame_name_digits(i);
    lemma_frame_name_digits(j);
    if frame_name(i as nat) == frame_name(j as nat) {
        assert(frame_name(i as nat).subrange(5, 15) =~= last_digits(i as nat, 10));
        assert(frame_name(j as nat).subrange(5, 15) =~= last_digits(j as nat, 10));
        lemma_last_digits_injective(i as nat, j as nat, 10);
    }
}

/// The digit table is the decimal digits: digit `d` is the character `d`
/// places after `'0'`.
pub proof fn lemma_digit_char_is_decimal(d: int)
    requires
        0 <= d < 10,
    ensures
        digit_char(d) == (('0' as u8) + d) as char,
{
    assert(('0' as u8) == 48);
    if d == 0 {
    } else if d == 1 {
    } else if d == 2 {
    } else if d == 3 {
    } else if d == 4 {
    } else if d == 5 {
    } else if d == 6 {
    } else if d == 7 {
    } else if d == 8 {
    } else {
    }
}

/// Digit `j` of the last `k` digits of `n`, counted from the most
/// significant, is the decimal digit of `n / 10^(k - 1 - j)`, modulo 10.
proof fn lemma_last_digits_at(n: nat, k: nat, j: int)
    requires
        0 <= j < k,
    ensures
        last_digits(n, k)[j] == (('0' as u8) + (n as int / vstd::arithmetic::power::pow(
            10,
            (k - 1 - j) as nat,
        )) % 10) as char,
    decreases k,
{
    let p = vstd::arithmetic::power::pow(10, (k - 1 - j) as nat);
    lemma_last_digits_len(n / 10, (k - 1) as nat);
    if j == k - 1 {
        assert(p == 1) by {
            vstd::arithmetic::power::lemma_pow0(10);
        }
        lemma_digit_char_is_decimal((n % 10) as int);
    } else {
        lemma_last_digits_at(n / 10, (k - 1) as nat, j);
        let q = vstd::arithmetic::power::pow(10, (k - 2 - j) as nat);
        assert(p == 10 * q) by {
            reveal(vstd::arithmetic::power::pow);
        }
        vstd::arithmetic::power::lemma_pow_positive(10, (k - 2 - j) as nat);
        vstd::arithmetic::div_mod::lemma_div_denominator(n as int, 10, q);
    }
}

/// The name of frame `i` is `image`, then ten decimal digits of which
/// digit `k` (from the left) is `(i / 10^(9 - k)) % 10`, then `.png`: the
/// number of the frame in decimal, zero-padded to ten digits.
pub proof fn lemma_frame_name_spells_index(i: u32)
    ensures
        frame_name(i as nat).len() == 19,
        frame_name(i as nat).subrange(0, 5) == seq!['i', 'm', 'a', 'g', 'e'],
        frame_name(i as nat).subrange(15, 19) == seq!['.', 'p', 'n', 'g'],
        forall|k: int|
            #![trigger frame_name(i as nat)[5 + k]]
            0 <= k < 10 ==> frame_name(i as nat)[5 + k] == (('0' as u8) + (i as int
                / vstd::arithmetic::power::pow(10, (9 - k) as nat)) % 10) as char,
        frame_name(i as nat)[14] == (('0' as u8) + i % 10) as char,
{
    lemma_frame_name_digits(i);
    let name = frame_name(i as nat);
    assert(name.subrange(0, 5) =~= seq!['i', 'm', 'a', 'g', 'e']);
    assert(name.subrange(15, 19) =~= seq!['.', 'p', 'n', 'g']);
    assert forall|k: int| #![trigger name[5 + k]] 0 <= k < 10 implies name[5 + k] == (('0' as u8) + (
    i as int / vstd::arithmetic::power::pow(10, (9 - k) as nat)) % 10) as char by {
        lemma_last_digits_at(i as nat, 10, k);
        assert(name[5 + k] == last_digits(i as nat, 10)[k]);
    }
    let last: int = 9;
    assert(name[5 + last] == (('0' as u8) + (i as int / vstd::arithmetic::power::pow(10, (9 - last) as nat)) % 10) as char);
    vstd::arithmetic::power::lemma_pow0(10);
}

/// The one-character string of digit `d`.
fn digit_str(d: u32) -> (s: &'static str)
    requires
        d < 10,
    ensures
        s@ == seq![digit_char(d as int)],
{
    proof {
        reveal_strlit("0");
        reveal_strlit("1");
        reveal_strlit("2");
        reveal_strlit("3");
        reveal_strlit("4");
        reveal_strlit("5");
        reveal_strlit("6");
        reveal_strlit("7");
        reveal_strlit("8");
        reveal_strlit("9");
    }
    let s = if d == 0 {
        "0"
    } else if d == 1 {
        "1"
    } else if d == 2 {
        "2"
    } else if d == 3 {
        "3"
    } else if d == 4 {
        "4"
    } else if d == 5 {
        "5"
    } else if d == 6 {
        "6"
    } else if d == 7 {
        "7"
    } else if d == 8 {
        "8"
    } else {
        "9"
    };
    assert(s@ =~= seq![digit_char(d as int)]);
    s
}

/// The file name of frame `index` of an animation: `image` followed by the
/// index zero-padded to ten decimal digits and `.png`.
pub fn frame_filename(index: u32) -> (name: String)
    ensures
        name@ == frame_name(index as nat),
{
    let mut digits: Vec<u32> = Vec::new();
    let mut m: u32 = index;
    let mut j: usize = 0;
    while j < 10
        invariant
            j <= 10,
            digits@.len() == j,
            forall|t: int| 0 <= t < j ==> digits@[t] < 10,
            last_digits(index as nat, 10) == last_digits(m as nat, (10 - j) as nat) + Seq::new(
                j as nat,
                |t: int| digit_char(digits@[j - 1 - t] as int),
            ),
        decreases 10 - j,
    {
        let ghost before = digits@;
        let d = m % 10;
        digits.push(d);
        proof {
            let k = (10 - j) as nat;
            assert(last_digits(m as nat, k) == last_digits((m / 10) as nat, (k - 1) as nat).push(
                digit_char((m % 10) as int),
            ));
            assert(Seq::new((j + 1) as nat, |t: int| digit_char(digits@[j + 1 - 1 - t] as int))
                =~= seq![digit_char(d as int)] + Seq::new(
                j as nat,
                |t: int| digit_char(before[j - 1 - t] as int),
            ));
            assert(last_digits(index as nat, 10) =~= last_digits((m / 10) as nat, (k - 1) as nat)
                + Seq::new((j + 1) as nat, |t: int| digit_char(digits@[j + 1 - 1 - t] as int)));
        }
        m = m / 10;
        j = j + 1;
    }
    let ghost tail = Seq::new(10, |t: int| digit_char(digits@[9 - t] as int));
    assert(last_digits(index as nat, 10) =~= tail);
    proof {
        reveal_strlit("image");
        reveal_strlit(".png");
        lemma_frame_name_digits(index);
    }
    let mut name = String::new();
    name.append("image");
    assert(name@ =~= seq!['i', 'm', 'a', 'g', 'e']);
    let mut k: usize = 0;
    while k < 10
        invariant
            k <= 10,
            digits@.len() == 10,
            forall|t: int| 0 <= t < 10 ==> digits@[t] < 10,
            tail == Seq::new(10, |t: int| digit_char(digits@[9 - t] as int)),
            name@ == seq!['i', 'm', 'a', 'g', 'e'] + tail.subrange(0, k as int),
        decreases 10 - k,
    {
        let ghost before = name@;
        let s = digit_str(digits[9 - k]);
        name.append(s);
        assert(tail.subrange(0, k + 1) =~= tail.subrange(0, k as int).push(tail[k as int]));
        assert(name@ =~= seq!['i', 'm', 'a', 'g', 'e'] + tail.subrange(0, k + 1));
        k = k + 1;
    }
    assert(tail.subrange(0, 10) =~= tail);
    name.append(".png");
    assert(name@ =~= frame_name(index as nat));
    name
}

} // verus!
