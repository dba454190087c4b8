//! Numbers as text.
use crate::fixed::UNIT;
use vstd::arithmetic::power::pow;
use vstd::prelude::*;

verus! {

/// The digit that stands for `d`.
pub open spec fn digit(d: nat) -> char {
    (d + 48) as char
}

/// `n` in decimal digits.
pub open spec fn digits(n: nat) -> Seq<char>
    decreases n,
{
    if n < 10 {
        seq![digit(n)]
    } else {
        digits(n / 10).push(digit(n % 10))
    }
}

/// The last `places` decimal digits of `n`.
pub open spec fn padded(n: nat, places: nat) -> Seq<char>
    decreases places,
{
    if places == 0 {
        Seq::empty()
    } else {
        padded(n / 10, (places - 1) as nat).push(digit(n % 10))
    }
}

/// The last `places` decimal digits of `n`, without the zeros at the end.
pub open spec fn trimmed(n: nat, places: nat) -> Seq<char>
    decreases places,
{
    if places == 0 || n % 10 != 0 {
        padded(n, places)
    } else {
        trimmed(n / 10, (places - 1) as nat)
    }
}

/// An amount of billionths, written as a decimal number with no more digits
/// behind the point than it needs.
pub open spec fn decimal(billionths: int) -> Seq<char> {
    let size = if billionths < 0 {
        (-billionths) as nat
    } else {
        billionths as nat
    };
    let unit = UNIT as nat;
    let sign = if billionths < 0 {
        "-"@
    } else {
        Seq::empty()
    };
    let point = if size % unit == 0 {
        Seq::empty()
    } else {
        "."@ + trimmed(size % unit, 9)
    };
    sign + digits(size / unit) + point
}

/// The digit that stands for `d`, as text.
fn digit_text(d: u8) -> (r: &'static str)
    requires
        d < 10,
    ensures
        r@ == seq![digit(d as nat)],
{
    proof {
        reveal_strlit("0");
        reveal_strlit("1");
        reveal_strlit("2");
        reveal_strlit("3");
        reveal_strlit("4");
        reveal_strlit("5");
        reveal_strlit("6");
        reveal_strlit("7");
        reveal_strlit("8");
        reveal_strlit("9");
    }
    match d {
        0 => "0",
        1 => "1",
        2 => "2",
        3 => "3",
        4 => "4",
        5 => "5",
        6 => "6",
        7 => "7",
        8 => "8",
        _ => "9",
    }
}

/// Puts `n` in decimal digits at the end of `out`.
fn push_digits(out: &mut String, n: u128)
    ensures
        final(out)@ == old(out)@ + digits(n as nat),
    decreases n,
{
    if n >= 10 {
        push_digits(out, n / 10);
    }
    out.append(digit_text((n % 10) as u8));
    assert(out@ =~= old(out)@ + digits(n as nat));
}

/// Puts the last `places` decimal digits of `n` at the end of `out`.
fn push_padded(out: &mut String, n: u64, places: u8)
    ensures
        final(out)@ == old(out)@ + padded(n as nat, places as nat),
    decreases places,
{
    if places > 0 {
        push_padded(out, n / 10, places - 1);
        out.append(digit_text((n % 10) as u8));
    }
    assert(out@ =~= old(out)@ + padded(n as nat, places as nat));
}

/// Puts the last `places` decimal digits of `n`, without the zeros at the end,
/// at the end of `out`.
fn push_trimmed(out: &mut String, n: u64, places: u8)
    ensures
        final(out)@ == old(out)@ + trimmed(n as nat, places as nat),
    decreases places,
{
    if places == 0 || n % 10 != 0 {
        push_padded(out, n, places);
    } else {
        push_trimmed(out, n / 10, places - 1);
    }
}

/// Puts `n` in decimal digits at the end of `out`.
pub(crate) fn push_number(out: &mut String, n: u64)
    ensures
        final(out)@ == old(out)@ + digits(n as nat),
{
    push_digits(out, n as u128);
}

/// Puts an amount of billionths, written as a decimal number, at the end of
/// `out`.
pub(crate) fn push_decimal(out: &mut String, billionths: i128)
    ensures
        final(out)@ == old(out)@ + decimal(billionths as int),
{
    let unit: u128 = UNIT as u128;
    if billionths < 0 {
        out.append("-");
    }
    let size: u128 = if billionths < 0 {
        (-(billionths + 1)) as u128 + 1
    } else {
        billionths as u128
    };
    push_digits(out, size / unit);
    let part = size % unit;
    if part != 0 {
        out.append(".");
        push_trimmed(out, part as u64, 9);
    }
    assert(out@ =~= old(out)@ + decimal(billionths as int));
}

/// Whether `part` stands in `text` at `i`.
pub open spec fn stands_at(text: Seq<char>, part: Seq<char>, i: int) -> bool {
    &&& 0 <= i
    &&& i + part.len() <= text.len()
    &&& text.subrange(i, i + part.len()) == part
}

/// Whether `part` stands somewhere in `text`.
pub open spec fn has_part(text: Seq<char>, part: Seq<char>) -> bool {
    exists|i: int| #[trigger] stands_at(text, part, i)
}

/// The characters of `text`.
fn char_vec(text: &str) -> (r: Vec<char>)
    ensures
        r@ == text@,
{
    let mut out: Vec<char> = Vec::new();
    for c in it: text.chars()
        invariant
            out@ == it.seq().take(it.index() as int),
    {
        out.push(c);
    }
    out
}

/// Whether `part` stands in `text` at `i`.
fn matches_at(text: &Vec<char>, part: &Vec<char>, i: usize) -> (r: bool)
    requires
        i + part@.len() <= text@.len(),
    ensures
        r == stands_at(text@, part@, i as int),
{
    let n = text.len();
    let mut k: usize = 0;
    while k < part.len()
        invariant
            n == text@.len(),
            k <= part@.len(),
            i + part@.len() <= n,
            forall|j: int| 0 <= j < k ==> text@[i + j] == #[trigger] part@[j],
        decreases part@.len() - k,
    {
        if text[i + k] != part[k] {
            assert(text@.subrange(i as int, i + part@.len())[k as int] != part@[k as int]);
            return false;
        }
        k = k + 1;
    }
    assert(text@.subrange(i as int, i + part@.len()) =~= part@);
    true
}

/// Whether `part` stands somewhere in `text`.
fn found_in(text: &Vec<char>, part: &Vec<char>) -> (r: bool)
    ensures
        r == has_part(text@, part@),
{
    let n = text.len();
    let m = part.len();
    let mut i: usize = 0;
    while i <= n && m <= n - i
        invariant
            n == text@.len(),
            m == part@.len(),
            i <= n + 1,
            forall|j: int| 0 <= j < i ==> !#[trigger] stands_at(text@, part@, j),
        decreases n + 1 - i,
    {
        if matches_at(text, part, i) {
            return true;
        }
        if i == n {
            return false;
        }
        i = i + 1;
    }
    false
}

/// Whether `part` stands somewhere in `text`.
pub(crate) fn contains(text: &str, part: &str) -> (r: bool)
    ensures
        r == has_part(text@, part@),
{
    found_in(&char_vec(text), &char_vec(part))
}

/// A part stands in a text exactly if the text is something, the part, and something
/// more.
pub proof fn lemma_has_part(text: Seq<char>, part: Seq<char>)
    ensures
        has_part(text, part) <==> exists|a: Seq<char>, b: Seq<char>| text == #[trigger] (a + part
            + b),
{
    if has_part(text, part) {
        let i = choose|i: int| #[trigger] stands_at(text, part, i);
        let a = text.take(i);
        let b = text.skip(i + part.len());
        assert(text =~= a + part + b);
    }
    if exists|a: Seq<char>, b: Seq<char>| text == #[trigger] (a + part + b) {
        let (a, b) = choose|a: Seq<char>, b: Seq<char>| text == #[trigger] (a + part + b);
        assert(text.subrange(a.len() as int, (a.len() + part.len()) as int) =~= part);
        assert(stands_at(text, part, a.len() as int));
    }
}

/// What decimal digits stand for: read from the left, each digit adds its value to
/// ten times what was read before; so read they give back the number. All are
/// digits, and there is no zero in front but for zero itself.
pub proof fn lemma_digits_read_back(n: nat)
    ensures
        digits(n).fold_left(0int, |read: int, c: char| 10 * read + (c as int - '0' as int)) == n,
        digits(n).len() >= 1,
        digits(n).len() > 1 ==> digits(n)[0] != '0',
        forall|i: int| 0 <= i < digits(n).len() ==> '0' as int <= #[trigger] digits(n)[i] as int
            <= '9' as int,
    decreases n,
{
    let read = |read: int, c: char| 10 * read + (c as int - '0' as int);
    reveal_with_fuel(Seq::fold_left, 2);
    if n < 10 {
        assert(digits(n).drop_last() =~= Seq::<char>::empty());
    } else {
        lemma_digits_read_back(n / 10);
        let front = digits(n / 10);
        assert(digits(n).drop_last() =~= front);
        if front.len() == 1 {
            assert(n / 10 >= 1);
            assert(front.drop_last() =~= Seq::<char>::empty());
            assert(front.last() == front[0]);
        }
    }
}

/// Digits with leading zeros, read back.
proof fn lemma_padded_read_back(n: nat, places: nat)
    requires
        n < pow(10, places),
    ensures
        padded(n, places).fold_left(0int, |read: int, c: char| 10 * read + (c as int - '0' as int))
            == n,
        padded(n, places).len() == places,
        forall|i: int|
            0 <= i < places ==> '0' as int <= #[trigger] padded(n, places)[i] as int <= '9' as int,
    decreases places,
{
    reveal(pow);
    if places > 0 {
        lemma_padded_read_back(n / 10, (places - 1) as nat);
        assert(padded(n, places).drop_last() =~= padded(n / 10, (places - 1) as nat));
    }
}

/// Digits behind the point without zeros at the end, read back: with the zeros that
/// are missing they are the number.
proof fn lemma_trimmed_read_back(n: nat, places: nat)
    requires
        0 < n < pow(10, places),
    ensures
        1 <= trimmed(n, places).len() <= places,
        trimmed(n, places).last() != '0',
        trimmed(n, places).fold_left(0int, |read: int, c: char| 10 * read + (c as int - '0' as int))
            * pow(10, (places - trimmed(n, places).len()) as nat) == n,
        forall|i: int|
            0 <= i < trimmed(n, places).len() ==> '0' as int <= #[trigger] trimmed(
                n,
                places,
            )[i] as int <= '9' as int,
    decreases places,
{
    reveal(pow);
    if n % 10 != 0 {
        lemma_padded_read_back(n, places);
        assert(trimmed(n, places) == padded(n, places));
        assert(padded(n, places).last() == digit(n % 10));
    } else {
        lemma_trimmed_read_back(n / 10, (places - 1) as nat);
        let t = trimmed(n, places);
        let value = t.fold_left(0int, |read: int, c: char| 10 * read + (c as int - '0' as int));
        let k = (places - 1 - t.len()) as nat;
        assert(pow(10, k + 1) == 10 * pow(10, k));
        assert(value * (10 * pow(10, k)) == 10 * (value * pow(10, k))) by (nonlinear_arith);
    }
}

/// Ten to the ninth.
proof fn lemma_billion()
    ensures
        pow(10, 9) == 1_000_000_000,
{
    reveal(pow);
    reveal_with_fuel(pow, 10);
}

/// What the text of an amount says: a minus sign if it is negative, then whole units
/// in digits, then, only if something is left, a point and up to nine digits of
/// which the last is not zero; and read as billionths these are what is left.
pub proof fn lemma_decimal_reads_back(billionths: int) -> (r: (Seq<char>, Seq<char>))
    ensures
        ({
            let read = |read: int, c: char| 10 * read + (c as int - '0' as int);
            let size = if billionths < 0 {
                -billionths
            } else {
                billionths
            };
            let sign = if billionths < 0 {
                seq!['-']
            } else {
                Seq::empty()
            };
            &&& decimal(billionths) == if r.1.len() == 0 {
                sign + r.0
            } else {
                sign + r.0 + seq!['.'] + r.1
            }
            &&& r.0.len() >= 1
            &&& r.0.len() > 1 ==> r.0[0] != '0'
            &&& forall|i: int|
                0 <= i < r.0.len() ==> '0' as int <= #[trigger] r.0[i] as int <= '9' as int
            &&& forall|i: int|
                0 <= i < r.1.len() ==> '0' as int <= #[trigger] r.1[i] as int <= '9' as int
            &&& r.1.len() <= 9
            &&& r.1.len() > 0 ==> r.1.last() != '0'
            &&& size == r.0.fold_left(0int, read) * 1_000_000_000 + r.1.fold_left(0int, read)
                * pow(10, (9 - r.1.len()) as nat)
        }),
{
    reveal_strlit("-");
    reveal_strlit(".");
    assert("-"@ =~= seq!['-']);
    assert("."@ =~= seq!['.']);
    lemma_billion();
    let size = (if billionths < 0 {
        -billionths
    } else {
        billionths
    }) as nat;
    let read = |read: int, c: char| 10 * read + (c as int - '0' as int);
    let whole = digits(size / (UNIT as nat));
    lemma_digits_read_back(size / (UNIT as nat));
    let part = size % (UNIT as nat);
    assert(whole.fold_left(0int, read) == size / (UNIT as nat));
    assert(size == (size / 1_000_000_000) * 1_000_000_000 + size % 1_000_000_000);
    if part == 0 {
        let none = Seq::<char>::empty();
        let sign = if billionths < 0 {
            seq!['-']
        } else {
            Seq::empty()
        };
        assert(sign + whole + none =~= sign + whole);
        assert(none.fold_left(0int, read) == 0);
        (whole, none)
    } else {
        lemma_trimmed_read_back(part, 9);
        let t = trimmed(part, 9);
        let sign = if billionths < 0 {
            seq!['-']
        } else {
            Seq::empty()
        };
        assert(sign + whole + (seq!['.'] + t) =~= sign + whole + seq!['.'] + t);
        assert(t.fold_left(0int, read) * pow(10, (9 - t.len()) as nat) == part);
        (whole, t)
    }
}

} // verus!
