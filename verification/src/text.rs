//! Building text piece by piece.
use vstd::prelude::*;
use vstd::string::*;

verus! {

/// The decimal digit `d`.
pub open spec fn digit(d: nat) -> Seq<char> {
    if d == 0 {
        "0"@
    } else if d == 1 {
        "1"@
    } else if d == 2 {
        "2"@
    } else if d == 3 {
        "3"@
    } else if d == 4 {
        "4"@
    } else if d == 5 {
        "5"@
    } else if d == 6 {
        "6"@
    } else if d == 7 {
        "7"@
    } else if d == 8 {
        "8"@
    } else {
        "9"@
    }
}

/// The decimal notation of `n`.
pub open spec fn decimal(n: nat) -> Seq<char>
    decreases n,
{
    if n < 10 {
        digit(n)
    } else {
        decimal(n / 10) + digit(n % 10)
    }
}

fn digit_str(d: usize) -> (s: &'static str)
    requires
        d < 10,
    ensures
        s@ == digit(d as nat),
{
    if d == 0 {
        "0"
    } else if d == 1 {
        "1"
    } else if d == 2 {
        "2"
    } else if d == 3 {
        "3"
    } else if d == 4 {
        "4"
    } else if d == 5 {
        "5"
    } else if d == 6 {
        "6"
    } else if d == 7 {
        "7"
    } else if d == 8 {
        "8"
    } else {
        "9"
    }
}

/// The decimal notation of `n`.
pub fn number(n: usize) -> (s: String)
    ensures
        s@ == decimal(n as nat),
    decreases n,
{
    if n < 10 {
        String::from_str(digit_str(n))
    } else {
        let mut s = number(n / 10);
        s.append(digit_str(n % 10));
        s
    }
}

/// The decimal notation of a number of any width.
pub fn wide_number(n: u64) -> (s: String)
    ensures
        s@ == decimal(n as nat),
    decreases n,
{
    if n < 10 {
        String::from_str(digit_str(n as usize))
    } else {
        let mut s = wide_number(n / 10);
        s.append(digit_str((n % 10) as usize));
        s
    }
}

/// `a` followed by `b`.
pub fn join2(a: &str, b: &str) -> (s: String)
    ensures
        s@ == a@ + b@,
{
    let mut s = String::from_str(a);
    s.append(b);
    s
}

/// Three pieces in a row.
pub fn join3(a: &str, b: &str, c: &str) -> (s: String)
    ensures
        s@ == a@ + b@ + c@,
{
    let mut s = String::from_str(a);
    s.append(b);
    s.append(c);
    s
}

/// Five pieces in a row.
pub fn join5(a: &str, b: &str, c: &str, d: &str, e: &str) -> (s: String)
    ensures
        s@ == a@ + b@ + c@ + d@ + e@,
{
    let mut s = String::from_str(a);
    s.append(b);
    s.append(c);
    s.append(d);
    s.append(e);
    s
}

/// Seven pieces in a row.
pub fn join7(a: &str, b: &str, c: &str, d: &str, e: &str, f: &str, g: &str) -> (s: String)
    ensures
        s@ == a@ + b@ + c@ + d@ + e@ + f@ + g@,
{
    let mut s = join5(a, b, c, d, e);
    s.append(f);
    s.append(g);
    s
}

/// Eight pieces in a row.
pub fn join8(a: &str, b: &str, c: &str, d: &str, e: &str, f: &str, g: &str, h: &str) -> (s: String)
    ensures
        s@ == a@ + b@ + c@ + d@ + e@ + f@ + g@ + h@,
{
    let mut s = join7(a, b, c, d, e, f, g);
    s.append(h);
    s
}

/// The bits, first bit first, as `0` and `1`.
pub open spec fn bit_digits(bits: Seq<bool>) -> Seq<char>
    decreases bits.len(),
{
    if bits.len() == 0 {
        ""@
    } else {
        bit_digits(bits.drop_last()) + (if bits.last() {
            "1"@
        } else {
            "0"@
        })
    }
}

/// The bits, first bit first, as `0` and `1`.
pub fn bits_text(bits: &Vec<bool>) -> (s: String)
    ensures
        s@ == bit_digits(bits@),
{
    let mut s = String::from_str("");
    let mut i: usize = 0;
    while i < bits.len()
        invariant
            i <= bits@.len(),
            s@ == bit_digits(bits@.take(i as int)),
        decreases bits.len() - i,
    {
        if bits[i] {
            s.append("1");
        } else {
            s.append("0");
        }
        i = i + 1;
        assert(bits@.take(i as int).drop_last() =~= bits@.take(i - 1));
    }
    assert(bits@.take(i as int) =~= bits@);
    s
}

/// A text of the same characters.
pub fn copy_text(s: &String) -> (r: String)
    ensures
        r@ == s@,
{
    s.clone()
}

/// The same bits.
pub fn copy_bits(bits: &Vec<bool>) -> (r: Vec<bool>)
    ensures
        r@ == bits@,
{
    let mut r: Vec<bool> = Vec::new();
    let mut i: usize = 0;
    while i < bits.len()
        invariant
            i <= bits@.len(),
            r@ == bits@.take(i as int),
        decreases bits.len() - i,
    {
        r.push(bits[i]);
        i = i + 1;
        assert(bits@.take(i as int) =~= bits@.take(i - 1).push(bits@[i - 1]));
    }
    assert(bits@.take(i as int) =~= bits@);
    r
}


spec fn digit_char(d: nat) -> char {
    if d == 0 {
        '0'
    } else if d == 1 {
        '1'
    } else if d == 2 {
        '2'
    } else if d == 3 {
        '3'
    } else if d == 4 {
        '4'
    } else if d == 5 {
        '5'
    } else if d == 6 {
        '6'
    } else if d == 7 {
        '7'
    } else if d == 8 {
        '8'
    } else {
        '9'
    }
}

proof fn lemma_digit_len(a: nat)
    requires
        a < 10,
    ensures
        digit(a).len() == 1,
        digit(a)[0] == digit_char(a),
        digit(a)[0] != '\0',
{
    reveal_strlit("0");
    assert("0"@[0] == '0');
    reveal_strlit("1");
    assert("1"@[0] == '1');
    reveal_strlit("2");
    assert("2"@[0] == '2');
    reveal_strlit("3");
    assert("3"@[0] == '3');
    reveal_strlit("4");
    assert("4"@[0] == '4');
    reveal_strlit("5");
    assert("5"@[0] == '5');
    reveal_strlit("6");
    assert("6"@[0] == '6');
    reveal_strlit("7");
    assert("7"@[0] == '7');
    reveal_strlit("8");
    assert("8"@[0] == '8');
    reveal_strlit("9");
    assert("9"@[0] == '9');
}

proof fn lemma_digit(a: nat, b: nat)
    requires
        a < 10,
        b < 10,
        digit(a) == digit(b),
    ensures
        a == b,
{
    lemma_digit_len(a);
    lemma_digit_len(b);
}

/// A decimal numeral has at least one digit, and no zero character.
pub proof fn lemma_decimal_chars(n: nat)
    ensures
        decimal(n).len() >= 1,
        forall|i: int| 0 <= i < decimal(n).len() ==> #[trigger] decimal(n)[i] != '\0',
    decreases n,
{
    if n < 10 {
        lemma_digit_len(n);
    } else {
        lemma_decimal_chars(n / 10);
        lemma_digit_len(n % 10);
        let d = decimal(n / 10);
        assert forall|i: int| 0 <= i < decimal(n).len() implies #[trigger] decimal(n)[i] != '\0' by {
            if i < d.len() {
                assert(decimal(n)[i] == d[i]);
            }
        }
    }
}

/// Different numbers have different numerals.
pub proof fn lemma_decimal_differs(a: nat, b: nat)
    requires
        decimal(a) == decimal(b),
    ensures
        a == b,
    decreases a,
{
    lemma_decimal_chars(a / 10);
    lemma_decimal_chars(b / 10);
    lemma_digit_len(a % 10);
    lemma_digit_len(b % 10);
    if a < 10 {
        lemma_digit_len(a);
        if b < 10 {
            lemma_digit(a, b);
        } else {
            assert(decimal(b).len() >= 2);
        }
    } else {
        if b < 10 {
            lemma_digit_len(b);
            assert(decimal(a).len() >= 2);
        } else {
            let x = decimal(a / 10);
            let y = decimal(b / 10);
            let n = decimal(a).len() - 1;
            assert(decimal(a).take(n) =~= x);
            assert(decimal(b).take(n) =~= y);
            assert(decimal(a).skip(n) =~= digit(a % 10));
            assert(decimal(b).skip(n) =~= digit(b % 10));
            lemma_decimal_differs(a / 10, b / 10);
            lemma_digit(a % 10, b % 10);
        }
    }
}

} // verus!
