//! Small pieces of text that the emitted declarations are assembled from.
use vstd::prelude::*;
use vstd::string::*;

verus! {

/// The deepest indentation that is written; deeper levels are written as
/// this one.
pub const MAX_INDENT: usize = 12;

/// One decimal digit as text.
pub open spec fn digit(d: nat) -> Seq<char> {
    if d == 0 {
        "0"@
    } else if d == 1 {
        "1"@
    } else if d == 2 {
        "2"@
    } else if d == 3 {
        "3"@
    } else if d == 4 {
        "4"@
    } else if d == 5 {
        "5"@
    } else if d == 6 {
        "6"@
    } else if d == 7 {
        "7"@
    } else if d == 8 {
        "8"@
    } else {
        "9"@
    }
}

/// A natural number in decimal notation, without leading zeros.
pub open spec fn decimal(n: nat) -> Seq<char>
    decreases n,
{
    if n < 10 {
        digit(n)
    } else {
        decimal(n / 10) + digit(n % 10)
    }
}

/// An integer in decimal notation, with a leading minus sign if negative.
pub open spec fn signed_decimal(v: int) -> Seq<char> {
    if v < 0 {
        "-"@ + decimal((-v) as nat)
    } else {
        decimal(v as nat)
    }
}

/// `n` tab characters.
pub open spec fn tabs(n: nat) -> Seq<char> {
    Seq::new(n, |i: int| '\t')
}

/// The indentation of nesting level `lvl`: one tab per level, at most
/// `MAX_INDENT` of them.
pub open spec fn indent(lvl: nat) -> Seq<char> {
    if lvl >= MAX_INDENT {
        tabs(MAX_INDENT as nat)
    } else {
        tabs(lvl)
    }
}

/// What separates a keyword from the name after it: a space, or nothing if
/// there is no name.
pub open spec fn separator(name: Seq<char>) -> Seq<char> {
    if name.len() == 0 {
        Seq::empty()
    } else {
        " "@
    }
}

/// The name as shown in descriptions, where an empty name reads `<anon>`.
pub open spec fn shown_name(name: Seq<char>) -> Seq<char> {
    if name.len() == 0 {
        "<anon>"@
    } else {
        name
    }
}

fn digit_str(d: u64) -> (s: &'static str)
    requires
        d < 10,
    ensures
        s@ == digit(d as nat),
{
    if d == 0 {
        "0"
    } else if d == 1 {
        "1"
    } else if d == 2 {
        "2"
    } else if d == 3 {
        "3"
    } else if d == 4 {
        "4"
    } else if d == 5 {
        "5"
    } else if d == 6 {
        "6"
    } else if d == 7 {
        "7"
    } else if d == 8 {
        "8"
    } else {
        "9"
    }
}

/// Appends `n` in decimal notation.
pub fn push_decimal(out: &mut String, n: u64)
    ensures
        final(out)@ == old(out)@ + decimal(n as nat),
    decreases n,
{
    if n >= 10 {
        push_decimal(out, n / 10);
    }
    out.append(digit_str(n % 10));
    assert(final(out)@ =~= old(out)@ + decimal(n as nat));
}

/// Appends `v` in decimal notation, with a minus sign if it is negative.
pub fn push_signed_decimal(out: &mut String, v: i64)
    requires
        v > i64::MIN,
    ensures
        final(out)@ == old(out)@ + signed_decimal(v as int),
{
    if v < 0 {
        out.append("-");
        push_decimal(out, (-v) as u64);
        assert(final(out)@ =~= old(out)@ + signed_decimal(v as int));
    } else {
        push_decimal(out, v as u64);
    }
}

/// Whether two strings hold the same characters.
pub fn str_eq(a: &str, b: &str) -> (same: bool)
    ensures
        same == (a@ == b@),
{
    let a_owned = a.to_owned();
    let b_owned = b.to_owned();
    a_owned == b_owned
}

/// What separates a keyword from the name after it: a space, or nothing if
/// there is no name.
pub fn sep(name: &str) -> (s: &'static str)
    ensures
        s@ == separator(name@),
{
    if name.is_empty() {
        proof {
            reveal_strlit("");
        }
        ""
    } else {
        " "
    }
}

/// The indentation of nesting level `lvl`.
pub fn pfx(lvl: usize) -> (s: &'static str)
    ensures
        s@ == indent(lvl as nat),
{
    proof {
        reveal_strlit("");
        reveal_strlit("\t");
        reveal_strlit("\t\t");
        reveal_strlit("\t\t\t");
        reveal_strlit("\t\t\t\t");
        reveal_strlit("\t\t\t\t\t");
        reveal_strlit("\t\t\t\t\t\t");
        reveal_strlit("\t\t\t\t\t\t\t");
        reveal_strlit("\t\t\t\t\t\t\t\t");
        reveal_strlit("\t\t\t\t\t\t\t\t\t");
        reveal_strlit("\t\t\t\t\t\t\t\t\t\t");
        reveal_strlit("\t\t\t\t\t\t\t\t\t\t\t");
        reveal_strlit("\t\t\t\t\t\t\t\t\t\t\t\t");
    }
    let s: &'static str = if lvl == 0 {
        ""
    } else if lvl == 1 {
        "\t"
    } else if lvl == 2 {
        "\t\t"
    } else if lvl == 3 {
        "\t\t\t"
    } else if lvl == 4 {
        "\t\t\t\t"
    } else if lvl == 5 {
        "\t\t\t\t\t"
    } else if lvl == 6 {
        "\t\t\t\t\t\t"
    } else if lvl == 7 {
        "\t\t\t\t\t\t\t"
    } else if lvl == 8 {
        "\t\t\t\t\t\t\t\t"
    } else if lvl == 9 {
        "\t\t\t\t\t\t\t\t\t"
    } else if lvl == 10 {
        "\t\t\t\t\t\t\t\t\t\t"
    } else if lvl == 11 {
        "\t\t\t\t\t\t\t\t\t\t\t"
    } else {
        "\t\t\t\t\t\t\t\t\t\t\t\t"
    };
    assert(s@ =~= indent(lvl as nat));
    s
}

/// The name as shown in descriptions: `<anon>` for the empty name.
pub fn disp_name(s: &str) -> (shown: &str)
    ensures
        shown@ == shown_name(s@),
{
    if s.is_empty() {
        "<anon>"
    } else {
        s
    }
}

/// Text can be put together in any grouping.
pub proof fn lemma_text_assoc(a: Seq<char>, b: Seq<char>, c: Seq<char>)
    ensures
        (a + b) + c == a + (b + c),
{
    assert((a + b) + c =~= a + (b + c));
}

/// A digit is one character, and different digits are different
/// characters.
pub proof fn lemma_digits(a: nat, b: nat)
    requires
        a < 10,
        b < 10,
    ensures
        digit(a).len() == 1,
        a != b ==> digit(a)[0] != digit(b)[0],
{
    reveal_strlit("0");
    reveal_strlit("1");
    reveal_strlit("2");
    reveal_strlit("3");
    reveal_strlit("4");
    reveal_strlit("5");
    reveal_strlit("6");
    reveal_strlit("7");
    reveal_strlit("8");
    reveal_strlit("9");
}

/// A number below ten has one digit, any other at least two.
pub proof fn lemma_decimal_len(n: nat)
    ensures
        decimal(n).len() >= 1,
        n < 10 ==> decimal(n).len() == 1,
        n >= 10 ==> decimal(n).len() >= 2,
    decreases n,
{
    if n < 10 {
        lemma_digits(n, n);
    } else {
        lemma_decimal_len(n / 10);
        lemma_digits(n % 10, n % 10);
    }
}

/// Different numbers have different decimal notations.
pub proof fn lemma_decimal_injective(a: nat, b: nat)
    requires
        decimal(a) == decimal(b),
    ensures
        a == b,
    decreases a,
{
    lemma_decimal_len(a);
    lemma_decimal_len(b);
    if a < 10 && b < 10 {
        lemma_digits(a, b);
    } else if a >= 10 && b >= 10 {
        let da = digit(a % 10);
        let db = digit(b % 10);
        lemma_digits(a % 10, b % 10);
        lemma_digits(b % 10, a % 10);
        let x = decimal(a / 10);
        let y = decimal(b / 10);
        assert(decimal(a) == x + da);
        assert(decimal(b) == y + db);
        assert((x + da).len() == x.len() + 1);
        assert((y + db).len() == y.len() + 1);
        assert((x + da)[x.len() as int] == da[0]);
        assert((y + db)[y.len() as int] == db[0]);
        assert(a % 10 == b % 10);
        assert(x =~= (x + da).take(x.len() as int));
        assert(y =~= (y + db).take(y.len() as int));
        lemma_decimal_injective(a / 10, b / 10);
    }
}

/// Whether the character is a decimal digit.
pub open spec fn is_digit(c: char) -> bool {
    c == '0' || c == '1' || c == '2' || c == '3' || c == '4' || c == '5' || c == '6' || c == '7'
        || c == '8' || c == '9'
}

/// Decimal notation starts with a digit.
pub proof fn lemma_decimal_starts_with_digit(n: nat)
    ensures
        decimal(n).len() >= 1,
        is_digit(decimal(n)[0]),
    decreases n,
{
    reveal_strlit("0");
    reveal_strlit("1");
    reveal_strlit("2");
    reveal_strlit("3");
    reveal_strlit("4");
    reveal_strlit("5");
    reveal_strlit("6");
    reveal_strlit("7");
    reveal_strlit("8");
    reveal_strlit("9");
    if n >= 10 {
        lemma_decimal_starts_with_digit(n / 10);
        lemma_digits(n % 10, n % 10);
    }
}

} // verus!
