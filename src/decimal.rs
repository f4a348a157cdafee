use vstd::prelude::*;

verus! {

/// The character of a decimal digit.
pub open spec fn digit_char(d: nat) -> char {
    if d == 0 {
        '0'
    } else if d == 1 {
        '1'
    } else if d == 2 {
        '2'
    } else if d == 3 {
        '3'
    } else if d == 4 {
        '4'
    } else if d == 5 {
        '5'
    } else if d == 6 {
        '6'
    } else if d == 7 {
        '7'
    } else if d == 8 {
        '8'
    } else {
        '9'
    }
}

/// The decimal digits of `n` without leading zeros (empty for zero).
pub open spec fn digits(n: nat) -> Seq<char>
    decreases n,
{
    if n == 0 {
        Seq::empty()
    } else {
        digits(n / 10).push(digit_char(n % 10))
    }
}

/// The decimal text of `n`.
pub open spec fn dec(n: nat) -> Seq<char> {
    if n == 0 {
        seq!['0']
    } else {
        digits(n)
    }
}

pub proof fn lemma_digits_empty(n: nat)
    ensures
        (digits(n).len() == 0) == (n == 0),
    decreases n,
{
    if n > 0 {
        assert(digits(n) == digits(n / 10).push(digit_char(n % 10)));
    }
}

proof fn lemma_digit_char_injective(a: nat, b: nat)
    requires
        a < 10,
        b < 10,
        digit_char(a) == digit_char(b),
    ensures
        a == b,
{
}

/// Different numbers have different digits.
pub proof fn lemma_digits_injective(a: nat, b: nat)
    requires
        digits(a) == digits(b),
    ensures
        a == b,
    decreases a,
{
    lemma_digits_empty(a);
    lemma_digits_empty(b);
    if a > 0 && b > 0 {
        let da = digits(a);
        let db = digits(b);
        assert(da == digits(a / 10).push(digit_char(a % 10)));
        assert(db == digits(b / 10).push(digit_char(b % 10)));
        assert(da.last() == digit_char(a % 10));
        lemma_digit_char_injective(a % 10, b % 10);
        assert(da.drop_last() =~= digits(a / 10));
        assert(db.drop_last() =~= digits(b / 10));
        lemma_digits_injective(a / 10, b / 10);
    }
}

/// The one-character text of the digit `d`.
fn digit_text(d: u128) -> (r: &'static str)
    requires
        d < 10,
    ensures
        r@ == seq![digit_char(d as nat)],
{
    proof {
        reveal_strlit("0");
        reveal_strlit("1");
        reveal_strlit("2");
        reveal_strlit("3");
        reveal_strlit("4");
        reveal_strlit("5");
        reveal_strlit("6");
        reveal_strlit("7");
        reveal_strlit("8");
        reveal_strlit("9");
    }
    if d == 0 {
        "0"
    } else if d == 1 {
        "1"
    } else if d == 2 {
        "2"
    } else if d == 3 {
        "3"
    } else if d == 4 {
        "4"
    } else if d == 5 {
        "5"
    } else if d == 6 {
        "6"
    } else if d == 7 {
        "7"
    } else if d == 8 {
        "8"
    } else {
        "9"
    }
}

/// The decimal text of `n`.
pub fn decimal(n: u128) -> (r: String)
    ensures
        r@ == dec(n as nat),
{
    if n == 0 {
        let r = String::from_str("0");
        proof {
            reveal_strlit("0");
        }
        return r;
    }
    let mut acc = String::new();
    let mut m: u128 = n;
    while m > 0
        invariant
            digits(n as nat) == digits(m as nat) + acc@,
        decreases m,
    {
        let d = m % 10;
        let mut next = String::from_str(digit_text(d));
        next.append(acc.as_str());
        proof {
            assert(digits(m as nat) == digits((m / 10) as nat).push(digit_char(d as nat)));
            assert(digits(m as nat) + acc@ =~= digits((m / 10) as nat) + next@);
        }
        acc = next;
        m = m / 10;
    }
    proof {
        assert(digits(0) + acc@ =~= acc@);
    }
    acc
}

} // verus!
