//! Numbers as text: the decimal form of an integer.

use vstd::prelude::*;
use vstd::string::StringExecFns;

verus! {

/// The character for the decimal digit `d`.
pub open spec fn digit_char(d: int) -> char {
    if d == 0 {
        '0'
    } else if d == 1 {
        '1'
    } else if d == 2 {
        '2'
    } else if d == 3 {
        '3'
    } else if d == 4 {
        '4'
    } else if d == 5 {
        '5'
    } else if d == 6 {
        '6'
    } else if d == 7 {
        '7'
    } else if d == 8 {
        '8'
    } else {
        '9'
    }
}

/// The decimal digits of `n`, most significant first, without leading
/// zeros; a single `0` for zero.
pub open spec fn digits(n: nat) -> Seq<char>
    decreases n,
{
    if n < 10 {
        seq![digit_char(n as int)]
    } else {
        digits(n / 10).push(digit_char((n % 10) as int))
    }
}

/// The decimal form of `n`, with a leading `-` when it is negative.
pub open spec fn decimal(n: int) -> Seq<char> {
    if n < 0 {
        seq!['-'] + digits((-n) as nat)
    } else {
        digits(n as nat)
    }
}

/// The one-character text for the decimal digit `d`.
fn digit_text(d: u8) -> (text: &'static str)
    requires
        d < 10,
    ensures
        text@ == seq![digit_char(d as int)],
{
    proof {
        reveal_strlit("0");
        reveal_strlit("1");
        reveal_strlit("2");
        reveal_strlit("3");
        reveal_strlit("4");
        reveal_strlit("5");
        reveal_strlit("6");
        reveal_strlit("7");
        reveal_strlit("8");
        reveal_strlit("9");
    }
    let text = if d == 0 {
        "0"
    } else if d == 1 {
        "1"
    } else if d == 2 {
        "2"
    } else if d == 3 {
        "3"
    } else if d == 4 {
        "4"
    } else if d == 5 {
        "5"
    } else if d == 6 {
        "6"
    } else if d == 7 {
        "7"
    } else if d == 8 {
        "8"
    } else {
        "9"
    };
    assert(text@ =~= seq![digit_char(d as int)]);
    text
}

/// The decimal digits of `n`, least significant first.
spec fn digits_reversed(n: nat) -> Seq<u8>
    decreases n,
{
    if n < 10 {
        seq![n as u8]
    } else {
        seq![(n % 10) as u8] + digits_reversed(n / 10)
    }
}

/// The characters for the first `count` of `reversed`, last first.
spec fn spelled(reversed: Seq<u8>, count: int) -> Seq<char>
    decreases count,
{
    if count <= 0 {
        Seq::empty()
    } else {
        seq![digit_char(reversed[count - 1] as int)] + spelled(reversed, count - 1)
    }
}

/// Spelling the digits of `n` from the last to the first gives its decimal
/// digits, and each digit is below ten.
proof fn lemma_spelled_digits(n: nat)
    ensures
        spelled(digits_reversed(n), digits_reversed(n).len() as int) == digits(n),
        forall|i: int| 0 <= i < digits_reversed(n).len() ==> digits_reversed(n)[i] < 10,
    decreases n,
{
    let r = digits_reversed(n);
    if n < 10 {
        assert(spelled(r, 0) =~= Seq::<char>::empty());
        assert(spelled(r, 1) =~= seq![digit_char(n as int)]);
    } else {
        let rest = digits_reversed(n / 10);
        lemma_spelled_digits(n / 10);
        lemma_spelled_shift((n % 10) as u8, rest, rest.len() as int);
    }
}

/// A digit put in front of the reversed digits is spelled last.
proof fn lemma_spelled_shift(first: u8, rest: Seq<u8>, count: int)
    requires
        0 <= count <= rest.len(),
    ensures
        spelled(seq![first] + rest, count + 1) == spelled(rest, count).push(
            digit_char(first as int),
        ),
    decreases count,
{
    let all = seq![first] + rest;
    if count == 0 {
        assert(spelled(all, 0) =~= Seq::<char>::empty());
        assert(spelled(all, 1) =~= seq![digit_char(first as int)]);
        assert(spelled(rest, 0).push(digit_char(first as int)) =~= seq![
            digit_char(first as int),
        ]);
    } else {
        lemma_spelled_shift(first, rest, count - 1);
        assert(all[count] == rest[count - 1]);
        assert(spelled(all, count + 1) =~= spelled(rest, count).push(digit_char(first as int)));
    }
}

/// Writes `value` in decimal.
pub fn format_i32(value: i32) -> (text: String)
    ensures
        text@ == decimal(value as int),
{
    let negative = value < 0;
    let magnitude: u32 = if negative {
        (-(value as i64)) as u32
    } else {
        value as u32
    };
    let mut reversed: Vec<u8> = Vec::new();
    let mut rest: u32 = magnitude;
    while rest >= 10
        invariant
            digits_reversed(magnitude as nat) == reversed@ + digits_reversed(rest as nat),
        decreases rest,
    {
        reversed.push((rest % 10) as u8);
        proof {
            let r = reversed@.drop_last();
            assert(r + (seq![(rest % 10) as u8] + digits_reversed((rest / 10) as nat))
                =~= reversed@ + digits_reversed((rest / 10) as nat));
        }
        rest = rest / 10;
    }
    reversed.push(rest as u8);
    assert(reversed@ =~= digits_reversed(magnitude as nat)) by {
        let r = reversed@.drop_last();
        assert(r + seq![rest as u8] =~= reversed@);
    }
    proof {
        lemma_spelled_digits(magnitude as nat);
        reveal_strlit("-");
        reveal_strlit("");
    }
    let mut text = if negative {
        String::from_str("-")
    } else {
        String::from_str("")
    };
    let ghost sign = text@;
    assert(sign =~= if negative {
        seq!['-']
    } else {
        Seq::<char>::empty()
    });
    let mut i: usize = reversed.len();
    while i > 0
        invariant
            i <= reversed.len(),
            forall|k: int| 0 <= k < reversed.len() ==> reversed[k] < 10,
            sign + spelled(reversed@, reversed.len() as int) == text@ + spelled(
                reversed@,
                i as int,
            ),
        decreases i,
    {
        i -= 1;
        let ghost before = text@;
        text.append(digit_text(reversed[i]));
        assert(text@ + spelled(reversed@, i as int) =~= before + spelled(
            reversed@,
            i as int + 1,
        ));
    }
    assert(text@ =~= sign + digits(magnitude as nat)) by {
        assert(spelled(reversed@, 0) =~= Seq::<char>::empty());
    }
    assert(text@ =~= decimal(value as int));
    text
}

} // verus!
