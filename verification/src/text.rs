//! Building text: decimal numerals, repeated pieces and lines.
use vstd::prelude::*;
use vstd::string::*;
use crate::cli::{is_digits, number};

verus! {

/// The numeral of a digit.
pub open spec fn digit(d: nat) -> char {
    if d == 0 {
        '0'
    } else if d == 1 {
        '1'
    } else if d == 2 {
        '2'
    } else if d == 3 {
        '3'
    } else if d == 4 {
        '4'
    } else if d == 5 {
        '5'
    } else if d == 6 {
        '6'
    } else if d == 7 {
        '7'
    } else if d == 8 {
        '8'
    } else {
        '9'
    }
}

/// The decimal numeral of `n`, without leading zeros.
pub open spec fn decimal(n: nat) -> Seq<char>
    decreases n,
{
    if n < 10 {
        seq![digit(n)]
    } else {
        decimal(n / 10).push(digit(n % 10))
    }
}

/// The last `k` digits of the decimal numeral of `n`, with leading zeros.
pub open spec fn last_digits(n: nat, k: nat) -> Seq<char>
    decreases k,
{
    if k == 0 {
        Seq::empty()
    } else {
        last_digits(n / 10, (k - 1) as nat).push(digit(n % 10))
    }
}

/// `piece`, `n` times over.
pub open spec fn repeated(piece: Seq<char>, n: nat) -> Seq<char>
    decreases n,
{
    if n == 0 {
        Seq::empty()
    } else {
        repeated(piece, (n - 1) as nat) + piece
    }
}

/// What texts hold.
pub open spec fn texts(s: Seq<String>) -> Seq<Seq<char>> {
    Seq::new(s.len(), |i: int| s[i]@)
}

/// The numeral of a digit, as text.
pub fn digit_text(d: u8) -> (r: &'static str)
    requires
        d < 10,
    ensures
        r@ == seq![digit(d as nat)],
{
    proof {
        reveal_strlit("0");
        reveal_strlit("1");
        reveal_strlit("2");
        reveal_strlit("3");
        reveal_strlit("4");
        reveal_strlit("5");
        reveal_strlit("6");
        reveal_strlit("7");
        reveal_strlit("8");
        reveal_strlit("9");
    }
    if d == 0 {
        "0"
    } else if d == 1 {
        "1"
    } else if d == 2 {
        "2"
    } else if d == 3 {
        "3"
    } else if d == 4 {
        "4"
    } else if d == 5 {
        "5"
    } else if d == 6 {
        "6"
    } else if d == 7 {
        "7"
    } else if d == 8 {
        "8"
    } else {
        "9"
    }
}

/// Appends the decimal numeral of `n`.
pub fn push_decimal(out: &mut String, n: u128)
    ensures
        final(out)@ == old(out)@ + decimal(n as nat),
    decreases n,
{
    if n >= 10 {
        push_decimal(out, n / 10);
    }
    out.append(digit_text((n % 10) as u8));
    proof {
        if n >= 10 {
            assert(old(out)@ + decimal((n / 10) as nat) + seq![digit((n % 10) as nat)] =~= old(
                out,
            )@ + decimal((n / 10) as nat).push(digit((n % 10) as nat)));
        }
    }
}

/// Appends the last `k` digits of `n`.
pub fn push_last_digits(out: &mut String, n: u128, k: u32)
    ensures
        final(out)@ == old(out)@ + last_digits(n as nat, k as nat),
    decreases k,
{
    if k > 0 {
        push_last_digits(out, n / 10, k - 1);
        out.append(digit_text((n % 10) as u8));
        assert(old(out)@ + last_digits((n / 10) as nat, (k - 1) as nat) + seq![
            digit((n % 10) as nat),
        ] =~= old(out)@ + last_digits(n as nat, k as nat));
    } else {
        assert(old(out)@ + Seq::<char>::empty() =~= old(out)@);
    }
}

/// Appends `piece` `n` times.
pub fn push_repeated(out: &mut String, piece: &str, n: usize)
    ensures
        final(out)@ == old(out)@ + repeated(piece@, n as nat),
{
    let mut i: usize = 0;
    assert(old(out)@ + repeated(piece@, 0) =~= old(out)@);
    while i < n
        invariant
            i <= n,
            out@ == old(out)@ + repeated(piece@, i as nat),
        decreases n - i,
    {
        out.append(piece);
        i = i + 1;
        assert(old(out)@ + repeated(piece@, (i - 1) as nat) + piece@ =~= old(out)@ + repeated(
            piece@,
            i as nat,
        ));
    }
}

/// The decimal numeral of `n`.
pub fn decimal_text(n: u128) -> (r: String)
    ensures
        r@ == decimal(n as nat),
{
    let mut r: String = String::new();
    push_decimal(&mut r, n);
    assert(Seq::<char>::empty() + decimal(n as nat) =~= decimal(n as nat));
    r
}

/// The numeral of a digit stands that far behind that of zero.
pub proof fn lemma_digit(d: nat)
    requires
        d < 10,
    ensures
        digit(d) as nat == '0' as nat + d,
{
}

/// A decimal numeral is made of digits, stands for its number, and has no leading zero.
pub proof fn lemma_decimal(n: nat)
    ensures
        decimal(n).len() > 0,
        is_digits(decimal(n)),
        number(decimal(n)) == n,
        decimal(n)[0] == '0' ==> n == 0,
        n == 0 ==> decimal(n).len() == 1,
    decreases n,
{
    lemma_digit(n % 10);
    if n < 10 {
        let s = seq![digit(n)];
        assert(s.drop_last() =~= Seq::<char>::empty());
        assert(number(s.drop_last()) == 0);
        lemma_digit(n);
    } else {
        lemma_decimal(n / 10);
        let s = decimal(n);
        assert(s.drop_last() =~= decimal(n / 10));
        assert(s.last() == digit(n % 10));
        assert(s[0] == decimal(n / 10)[0]);
    }
}

/// The last digits of a number stand for what is left when multiples of the power of ten are taken
/// away.
pub proof fn lemma_last_digits(n: nat, k: nat)
    ensures
        last_digits(n, k).len() == k,
        is_digits(last_digits(n, k)),
        number(last_digits(n, k)) == n % ten_to(k),
        ten_to(k) > 0,
    decreases k,
{
    if k == 0 {
        assert(n % 1 == 0);
    } else {
        let j = (k - 1) as nat;
        lemma_last_digits(n / 10, j);
        lemma_digit(n % 10);
        let s = last_digits(n, k);
        assert(s.drop_last() =~= last_digits(n / 10, j));
        let p = ten_to(j);
        let a = n / 10;
        let b = n % 10;
        let q = a / p;
        let r = a % p;
        vstd::arithmetic::div_mod::lemma_fundamental_div_mod(a as int, p as int);
        assert(n == q * (10 * p) + (10 * r + b)) by (nonlinear_arith)
            requires
                n == 10 * a + b,
                a == p * q + r,
        ;
        assert(0 <= 10 * r + b < 10 * p);
        vstd::arithmetic::div_mod::lemma_fundamental_div_mod_converse(
            n as int,
            (10 * p) as int,
            q as int,
            (10 * r + b) as int,
        );
    }
}

/// The power of ten.
pub open spec fn ten_to(k: nat) -> nat
    decreases k,
{
    if k == 0 {
        1
    } else {
        10 * ten_to((k - 1) as nat)
    }
}

/// A repeated piece has its length as often, and the piece at every multiple of it.
pub proof fn lemma_repeated(piece: Seq<char>, n: nat)
    ensures
        repeated(piece, n).len() == n * piece.len(),
        forall|k: int, i: int|
            0 <= k < n && 0 <= i < piece.len() ==> #[trigger] at_repeat(
                repeated(piece, n),
                piece,
                k,
                i,
            ),
    decreases n,
{
    if n == 0 {
        assert(0 * piece.len() == 0) by (nonlinear_arith);
    } else {
        let m = (n - 1) as nat;
        let l = piece.len();
        lemma_repeated(piece, m);
        assert(n * l == m * l + l) by (nonlinear_arith)
            requires
                n == m + 1,
        ;
        assert forall|k: int, i: int| 0 <= k < n && 0 <= i < l implies #[trigger] at_repeat(
            repeated(piece, n),
            piece,
            k,
            i,
        ) by {
            if k < m {
                assert(at_repeat(repeated(piece, m), piece, k, i));
                assert(0 <= k * l + i < m * l) by (nonlinear_arith)
                    requires
                        0 <= k < m,
                        0 <= i < l,
                ;
            }
        }
    }
}

/// Whether `text` has item `i` of the `k`-th piece.
pub open spec fn at_repeat(text: Seq<char>, piece: Seq<char>, k: int, i: int) -> bool {
    text[k * piece.len() + i] == piece[i]
}

} // verus!
