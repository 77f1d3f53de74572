//! Numbers and columns as text.

use vstd::prelude::*;
use vstd::string::{StrSliceExecFns, StringExecFns};

use crate::number::{Rounded, Rounding};

verus! {

/// The text of one decimal digit.
pub open spec fn digit_text(d: nat) -> Seq<char> {
    if d == 0 {
        "0"@
    } else if d == 1 {
        "1"@
    } else if d == 2 {
        "2"@
    } else if d == 3 {
        "3"@
    } else if d == 4 {
        "4"@
    } else if d == 5 {
        "5"@
    } else if d == 6 {
        "6"@
    } else if d == 7 {
        "7"@
    } else if d == 8 {
        "8"@
    } else {
        "9"@
    }
}

/// A number in decimal notation.
pub open spec fn decimal_of(n: nat) -> Seq<char>
    decreases n,
{
    if n < 10 {
        digit_text(n)
    } else {
        decimal_of(n / 10) + digit_text(n % 10)
    }
}


fn digit(d: usize) -> (r: &'static str)
    ensures
        r@ == digit_text(d as nat),
{
    match d {
        0 => "0",
        1 => "1",
        2 => "2",
        3 => "3",
        4 => "4",
        5 => "5",
        6 => "6",
        7 => "7",
        8 => "8",
        _ => "9",
    }
}

/// Writes a number in decimal notation.
pub fn decimal(n: u128) -> (r: String)
    ensures
        r@ == decimal_of(n as nat),
    decreases n,
{
    if n < 10 {
        digit(n as usize).to_owned()
    } else {
        decimal(n / 10).concat(digit((n % 10) as usize))
    }
}

/// `n` spaces.
pub open spec fn spaces_of(n: int) -> Seq<char> {
    Seq::new(
        if n >= 0 {
            n as nat
        } else {
            0
        },
        |i: int| ' ',
    )
}

fn spaces(n: usize) -> (r: String)
    ensures
        r@ == spaces_of(n as int),
{
    let mut r: String = String::new();
    let mut i: usize = 0;
    while i < n
        invariant
            i <= n,
            r@ =~= spaces_of(i as int),
        decreases n - i,
    {
        proof {
            reveal_strlit(" ");
        }
        r.append(" ");
        i = i + 1;
    }
    r
}

/// `text` at the left of a column of `width` characters.
pub open spec fn left_aligned(text: Seq<char>, width: nat) -> Seq<char> {
    text + spaces_of(width - text.len())
}

/// `text` at the right of a column of `width` characters.
pub open spec fn right_aligned(text: Seq<char>, width: nat) -> Seq<char> {
    spaces_of(width - text.len()) + text
}

fn padding(text: &str, width: usize) -> (r: String)
    ensures
        r@ == spaces_of(width - text@.len()),
{
    let n: usize = text.unicode_len();
    if n < width {
        spaces(width - n)
    } else {
        let r: String = String::new();
        assert(r@ =~= spaces_of(width - text@.len()));
        r
    }
}

pub fn align_left(text: &str, width: usize) -> (r: String)
    ensures
        r@ == left_aligned(text@, width as nat),
{
    text.to_owned().concat(padding(text, width).as_str())
}

pub fn align_right(text: &str, width: usize) -> (r: String)
    ensures
        r@ == right_aligned(text@, width as nat),
{
    padding(text, width).concat(text)
}

/// `units` without its last `decimals` digits.
pub open spec fn cut(units: nat, decimals: nat) -> nat
    decreases decimals,
{
    if decimals == 0 {
        units
    } else {
        cut(units / 10, (decimals - 1) as nat)
    }
}

/// The last `decimals` digits of `units`.
pub open spec fn last_digits(units: nat, decimals: nat) -> Seq<char>
    decreases decimals,
{
    if decimals == 0 {
        Seq::empty()
    } else {
        last_digits(units / 10, (decimals - 1) as nat) + digit_text(units % 10)
    }
}

/// A rounded number with its decimals, `NaN` or `inf`.
pub open spec fn rounded_text(x: Rounding) -> Seq<char> {
    match x {
        Rounding::NotANumber => "NaN"@,
        Rounding::Infinite { negative } => if negative {
            "-inf"@
        } else {
            "inf"@
        },
        Rounding::Finite { negative, whole, decimals } => {
            let sign = if negative {
                "-"@
            } else {
                ""@
            };
            let point = if decimals.len() > 0 {
                "."@
            } else {
                ""@
            };
            sign + whole + point + decimals
        },
    }
}

/// Writes the digits before the last `decimals` digits of `units`, and those.
pub fn digits_around_point(units: u128, decimals: u8) -> (r: (String, String))
    ensures
        r.0@ == decimal_of(cut(units as nat, decimals as nat)),
        r.1@ == last_digits(units as nat, decimals as nat),
{
    let (rest, digits) = write_digits(units, decimals);
    (decimal(rest), digits)
}

fn write_digits(units: u128, decimals: u8) -> (r: (u128, String))
    ensures
        r.0 == cut(units as nat, decimals as nat),
        r.1@ == last_digits(units as nat, decimals as nat),
    decreases decimals,
{
    if decimals == 0 {
        let empty: String = String::new();
        assert(empty@ =~= Seq::empty());
        (units, empty)
    } else {
        let (rest, text) = write_digits(units / 10, decimals - 1);
        (rest, text.concat(digit((units % 10) as usize)))
    }
}

/// Writes a rounded number.
pub fn show_rounded(x: &Rounded) -> (r: String)
    ensures
        r@ == rounded_text(x@),
{
    match x {
        Rounded::NotANumber => "NaN".to_owned(),
        Rounded::Infinite { negative } => if *negative {
            "-inf".to_owned()
        } else {
            "inf".to_owned()
        },
        Rounded::Finite { negative, whole, decimals } => {
            let sign: &str = if *negative {
                "-"
            } else {
                ""
            };
            let point: &str = if decimals.as_str().unicode_len() > 0 {
                "."
            } else {
                ""
            };
            sign.to_owned().concat(whole.as_str()).concat(point).concat(decimals.as_str())
        },
    }
}

// What the digits stand for.

/// The number that a decimal digit stands for.
pub open spec fn digit_value(c: char) -> int {
    c as int - '0' as int
}

/// `text` holds decimal digits and nothing else.
pub open spec fn all_digits(text: Seq<char>) -> bool {
    forall|i: int| 0 <= i < text.len() ==> '0' <= #[trigger] text[i] <= '9'
}

/// The number that a row of digits stands for.
pub open spec fn number_read(text: Seq<char>) -> int
    decreases text.len(),
{
    if text.len() == 0 {
        0
    } else {
        10 * number_read(text.drop_last()) + digit_value(text.last())
    }
}

proof fn lemma_digit(d: nat)
    requires
        d < 10,
    ensures
        digit_text(d).len() == 1,
        digit_value(digit_text(d)[0]) == d,
{
    reveal_strlit("0");
    reveal_strlit("1");
    reveal_strlit("2");
    reveal_strlit("3");
    reveal_strlit("4");
    reveal_strlit("5");
    reveal_strlit("6");
    reveal_strlit("7");
    reveal_strlit("8");
    reveal_strlit("9");
}

proof fn lemma_one_digit_more(text: Seq<char>, d: nat)
    requires
        d < 10,
        all_digits(text),
    ensures
        all_digits(text + digit_text(d)),
        number_read(text + digit_text(d)) == 10 * number_read(text) + d,
        (text + digit_text(d)).len() == text.len() + 1,
{
    lemma_digit(d);
    let longer = text + digit_text(d);
    assert(longer.drop_last() =~= text);
    assert(longer.last() == digit_text(d)[0]);
    assert forall|i: int| 0 <= i < longer.len() implies '0' <= #[trigger] longer[i] <= '9' by {
        if i < text.len() {
            assert(longer[i] == text[i]);
        }
    }
}

/// A number in decimal reads back as the number, in digits and without a zero in
/// front.
pub proof fn law_decimal(n: nat)
    ensures
        all_digits(decimal_of(n)),
        number_read(decimal_of(n)) == n,
        decimal_of(n).len() >= 1,
        decimal_of(n)[0] == '0' ==> n == 0,
    decreases n,
{
    if n < 10 {
        let none = Seq::<char>::empty();
        lemma_one_digit_more(none, n);
        lemma_digit(n);
        assert(none + digit_text(n) =~= digit_text(n));
    } else {
        law_decimal(n / 10);
        lemma_one_digit_more(decimal_of(n / 10), n % 10);
        assert(decimal_of(n)[0] == decimal_of(n / 10)[0]);
    }
}

/// Ten, `n` times multiplied.
pub open spec fn ten_to(n: nat) -> nat
    decreases n,
{
    if n == 0 {
        1
    } else {
        10 * ten_to((n - 1) as nat)
    }
}

/// The digits in front of the point and those behind it together are the number of
/// units; behind the point stand exactly `decimals` digits.
pub proof fn law_point(units: nat, decimals: nat)
    ensures
        all_digits(last_digits(units, decimals)),
        last_digits(units, decimals).len() == decimals,
        cut(units, decimals) * ten_to(decimals) + number_read(last_digits(units, decimals))
            == units,
    decreases decimals,
{
    if decimals > 0 {
        let d = (decimals - 1) as nat;
        law_point(units / 10, d);
        lemma_one_digit_more(last_digits(units / 10, d), units % 10);
        let c = cut(units / 10, d);
        let t = ten_to(d);
        assert(c * (10 * t) == 10 * (c * t)) by (nonlinear_arith);
        assert(ten_to(decimals) == 10 * t);
    } else {
        assert(ten_to(0) == 1);
    }
}

/// An aligned text has the width of its column, or its own length if that is more: the
/// text stands at one end, and all else is spaces.
pub proof fn law_aligned(text: Seq<char>, width: nat)
    ensures
        ({
            let size = if text.len() < width {
                width
            } else {
                text.len()
            };
            let left = left_aligned(text, width);
            let right = right_aligned(text, width);
            let gap = size - text.len();
            &&& left.len() == size && right.len() == size
            &&& left.take(text.len() as int) == text
            &&& right.skip(gap) == text
            &&& forall|i: int| text.len() <= i < size ==> #[trigger] left[i] == ' '
            &&& forall|i: int| 0 <= i < gap ==> #[trigger] right[i] == ' '
        }),
{
    let gap = if text.len() < width {
        width - text.len()
    } else {
        0
    };
    assert(left_aligned(text, width).take(text.len() as int) =~= text);
    assert(right_aligned(text, width).skip(gap) =~= text);
}

} // verus!
