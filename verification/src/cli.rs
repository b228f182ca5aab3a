//! Arguments, and texts for the command line.
use vstd::prelude::*;
use vstd::string::*;
use crate::benchmark::accuracy::lemma_full_accuracy;
use crate::benchmark::reversal::lemma_product_commutes;
use crate::benchmark::stats::{HALF, HUNDRED};
use crate::benchmark::types::BenchmarkConfig;
use crate::duration::{lemma_seconds, seconds, Duration, LIMIT, NANOS_PER_SEC};
use crate::float::arith::one_unit;
use crate::float::encoding::Float64;
use crate::float::identity::lemma_nothing_less;
use crate::float::known::lemma_known_numbers;
use crate::float::monotone::{lemma_one, lemma_quotient_same, lemma_sign};
use crate::float::order::ONE;
use crate::float::same::{lemma_difference_self, lemma_zero_product, lemma_zero_quotient};
use crate::spans::{lemma_some_seconds, lemma_whole_seconds};

verus! {

/// A time out, as given on the command line.
#[derive(Clone, Copy, Debug)]
pub struct TimeoutTime(pub Duration);

/// Whether a character is numeric.
pub uninterp spec fn numeric(c: char) -> bool;

/// Whether a character is one of the ten digits.
pub open spec fn is_digit(c: char) -> bool {
    '0' <= c && c <= '9'
}

/// Whether a character is numeric.
///
/// `char::is_numeric`: that the character alone decides, and that of the ASCII characters the
/// digits are numeric.
#[verifier::external_body]
fn is_numeric(c: char) -> (r: bool)
    ensures
        r == numeric(c),
        (c as u32) < 128 ==> r == is_digit(c),
{
    c.is_numeric()
}

/// The number of numeric characters that a text starts with.
pub open spec fn numeric_prefix(s: Seq<char>) -> nat
    decreases s.len(),
{
    if s.len() == 0 || !numeric(s[0]) {
        0
    } else {
        1 + numeric_prefix(s.skip(1))
    }
}

proof fn lemma_numeric_prefix(s: Seq<char>, n: nat)
    requires
        n <= s.len(),
        forall|i: int| 0 <= i < n ==> numeric(#[trigger] s[i]),
        n < s.len() ==> !numeric(s[n as int]),
    ensures
        numeric_prefix(s) == n,
    decreases n,
{
    if n > 0 {
        let rest = s.skip(1);
        assert forall|i: int| 0 <= i < n - 1 implies numeric(#[trigger] rest[i]) by {
            assert(rest[i] == s[i + 1]);
        }
        lemma_numeric_prefix(rest, (n - 1) as nat);
    }
}

/// Whether a text is made of digits.
pub open spec fn is_digits(s: Seq<char>) -> bool {
    forall|i: int| 0 <= i < s.len() ==> is_digit(#[trigger] s[i])
}

/// The number that digits stand for.
pub open spec fn number(s: Seq<char>) -> nat
    decreases s.len(),
{
    if s.len() == 0 {
        0
    } else {
        10 * number(s.drop_last()) + (s.last() as nat - '0' as nat) as nat
    }
}

/// The number that a text stands for, where it is one and not too large.
pub open spec fn parsed_number(s: Seq<char>) -> Option<u64> {
    if s.len() > 0 && is_digits(s) && number(s) <= u64::MAX {
        Some(number(s) as u64)
    } else {
        None
    }
}

/// The seconds in what a unit stands for.
pub open spec fn unit_seconds(unit: Seq<char>) -> Option<nat> {
    if unit == "s"@ {
        Some(1)
    } else if unit == "m"@ {
        Some(60)
    } else if unit == "h"@ {
        Some(3600)
    } else {
        None
    }
}

/// Whether the seconds that a text of digits and a unit stands for can be counted.
pub open spec fn countable(s: Seq<char>) -> bool {
    s.len() > 0 && is_digits(s.drop_last()) && number(s.drop_last()) <= u64::MAX ==> {
        &&& s.last() == 'm' ==> number(s.drop_last()) * 60 <= u64::MAX
        &&& s.last() == 'h' ==> number(s.drop_last()) * 3600 <= u64::MAX
    }
}

/// The number that the first `n` characters of a text stand for.
fn parse_number(s: &str, n: usize) -> (r: Option<u64>)
    requires
        n <= s@.len(),
    ensures
        r == parsed_number(s@.take(n as int)),
{
    let ghost digits = s@.take(n as int);
    if n == 0 {
        return None;
    }
    let mut total: u64 = 0;
    let mut large: bool = false;
    let mut i: usize = 0;
    assert(digits.take(0) =~= Seq::<char>::empty());
    while i < n
        invariant
            i <= n,
            n <= s@.len(),
            digits == s@.take(n as int),
            is_digits(digits.take(i as int)),
            large == (number(digits.take(i as int)) > u64::MAX),
            !large ==> total == number(digits.take(i as int)),
        decreases n - i,
    {
        let c: char = s.get_char(i);
        assert(digits[i as int] == c);
        if !('0' <= c && c <= '9') {
            assert(!is_digit(digits[i as int]));
            return None;
        }
        proof {
            assert(digits.take(i + 1).drop_last() =~= digits.take(i as int));
            assert(digits.take(i + 1).last() == c);
            assert forall|k: int| 0 <= k < i + 1 implies is_digit(
                #[trigger] digits.take(i + 1)[k],
            ) by {
                if k < i {
                    assert(is_digit(digits.take(i as int)[k]));
                }
            }
        }
        let d: u64 = c as u64 - '0' as u64;
        if !large {
            match total.checked_mul(10) {
                Some(more) => match more.checked_add(d) {
                    Some(more) => {
                        total = more;
                    },
                    None => {
                        large = true;
                    },
                },
                None => {
                    large = true;
                },
            }
        }
        i = i + 1;
    }
    assert(digits.take(i as int) =~= digits);
    if large {
        None
    } else {
        Some(total)
    }
}

/// Whether a time out is what a text stands for.
pub open spec fn is_timeout(r: Result<TimeoutTime, &'static str>, s: Seq<char>) -> bool {
    let n = numeric_prefix(s) as int;
    match (parsed_number(s.take(n)), unit_seconds(s.skip(n))) {
        (None, _) => r matches Err(message) && message@ == "bad number"@,
        (Some(_), None) => r matches Err(message) && message@ == "bad suffix"@,
        (Some(count), Some(unit)) => r matches Ok(t) && t.0@ == count * unit * NANOS_PER_SEC,
    }
}

/// Digits and a unit stand for that many seconds, minutes or hours, where of the ASCII characters
/// in the text just the digits are numeric.
pub proof fn lemma_documented_form(s: Seq<char>)
    requires
        s.len() > 1,
        is_digits(s.drop_last()),
        number(s.drop_last()) <= u64::MAX,
        s.last() == 's' || s.last() == 'm' || s.last() == 'h',
        forall|i: int|
            0 <= i < s.len() && (s[i] as u32) < 128 ==> numeric(#[trigger] s[i]) == is_digit(s[i]),
    ensures
        parsed_number(s.take(numeric_prefix(s) as int)) == Some(number(s.drop_last()) as u64),
        unit_seconds(s.skip(numeric_prefix(s) as int)) == Some(
            if s.last() == 's' {
                1nat
            } else if s.last() == 'm' {
                60nat
            } else {
                3600nat
            },
        ),
{
    let n = (s.len() - 1) as nat;
    assert forall|i: int| 0 <= i < n implies numeric(#[trigger] s[i]) by {
        assert(is_digit(s.drop_last()[i]));
    }
    assert(!is_digit(s[n as int]));
    lemma_numeric_prefix(s, n);
    assert(s.take(n as int) =~= s.drop_last());
    reveal_strlit("s");
    reveal_strlit("m");
    reveal_strlit("h");
    let unit = s.skip(n as int);
    assert(unit =~= seq![s.last()]);
    assert(unit[0] == s.last());
    if s.last() == 's' {
        assert(unit =~= "s"@);
    } else if s.last() == 'm' {
        assert("s"@[0] != unit[0]);
        assert(unit =~= "m"@);
    } else {
        assert("s"@[0] != unit[0] && "m"@[0] != unit[0]);
        assert(unit =~= "h"@);
    }
}

impl TimeoutTime {
    /// The time out that a text stands for: a number and a unit (`[0-9]+(m|s|h)`).
    pub fn from_str(s: &str) -> (r: Result<TimeoutTime, &'static str>)
        requires
            countable(s@),
        ensures
            is_timeout(r, s@),
            forall|i: int|
                0 <= i < s@.len() && (s@[i] as u32) < 128 ==> numeric(#[trigger] s@[i])
                    == is_digit(s@[i]),
    {
        let len: usize = s.unicode_len();
        let mut n: usize = 0;
        let mut i: usize = 0;
        while i < len
            invariant
                n <= i <= len,
                len == s@.len(),
                forall|k: int| 0 <= k < n ==> numeric(#[trigger] s@[k]),
                n < i ==> !numeric(s@[n as int]),
                forall|k: int|
                    0 <= k < i && (s@[k] as u32) < 128 ==> numeric(#[trigger] s@[k]) == is_digit(
                        s@[k],
                    ),
            decreases len - i,
        {
            if is_numeric(s.get_char(i)) && n == i {
                n = n + 1;
            }
            i = i + 1;
        }
        proof {
            lemma_numeric_prefix(s@, n as nat);
            reveal_strlit("s");
            reveal_strlit("m");
            reveal_strlit("h");
        }
        let ghost unit = s@.skip(n as int);
        let num: u64 = match parse_number(s, n) {
            Some(num) => num,
            None => {
                return Err("bad number");
            },
        };
        if len - n != 1 {
            assert(unit.len() != 1);
            return Err("bad suffix");
        }
        let c: char = s.get_char(n);
        assert(unit =~= seq![c]);
        assert(s@.drop_last() =~= s@.take(n as int));
        let secs: u64 = if c == 's' {
            assert(unit =~= "s"@);
            num
        } else if c == 'm' {
            assert(unit =~= "m"@);
            num * 60
        } else if c == 'h' {
            assert(unit =~= "h"@);
            num * 60 * 60
        } else {
            assert(unit[0] != "s"@[0] && unit[0] != "m"@[0] && unit[0] != "h"@[0]);
            return Err("bad suffix");
        };
        Ok(TimeoutTime(Duration::from_secs(secs)))
    }
}

/// How to benchmark, by what was given on the command line.
pub fn benchmark_config(fast: bool, timeout: Option<TimeoutTime>) -> (r: BenchmarkConfig)
    ensures
        r.fast == fast,
        match timeout {
            Some(t) => r.timeout == Some(t.0),
            None => r.timeout is None,
        },
        r.enable_cache,
        r.num_runs == 3,
        !r.drop_outliers,
        r.overlap_threshold == (Float64 { bits: HALF }),
        r.early_stopping,
        r.track_metrics,
{
    let mut cfg: BenchmarkConfig = BenchmarkConfig::default();
    cfg.fast = fast;
    cfg.timeout = match timeout {
        Some(t) => Some(t.0),
        None => None,
    };
    cfg
}

/// By how much something took less time than something else, in percent.
pub open spec fn improvement(without: nat, with: nat) -> Option<Float64> {
    if (Float64 { bits: 0 }).below(seconds(without)) {
        Some(
            seconds(without).difference(seconds(with)).quotient(seconds(without)).product(
                Float64 { bits: HUNDRED },
            ),
        )
    } else {
        None
    }
}

/// By how much `with` is less than `without`, in percent, where the latter took any time.
pub fn improvement_percent(without: Duration, with: Duration) -> (r: Option<Float64>)
    ensures
        r == improvement(without@, with@),
{
    let base: Float64 = without.as_secs_f64();
    if (Float64 { bits: 0 }).lt(base) {
        Some(base.minus(with.as_secs_f64()).over(base).times(Float64 { bits: HUNDRED }))
    } else {
        None
    }
}

/// A line on an improvement.
pub fn improvement_line(what: &str, percent: Float64) -> (r: String)
    ensures
        r@ == what@ + " improved performance by "@ + percent.fixed(2) + "%"@,
{
    let mut out: String = what.to_owned();
    out.append(" improved performance by ");
    percent.push_fixed(&mut out, 2);
    out.append("%");
    out
}

/// Where the data of a table lies.
pub fn table_path(data_dir: &str, table: &str) -> (r: String)
    ensures
        r@ == data_dir@ + "/"@ + table@ + ".parquet"@,
{
    let mut out: String = data_dir.to_owned();
    out.append("/");
    out.append(table);
    out.append(".parquet");
    out
}

/// Whether the name of a file ends as that of a raw table does.
pub open spec fn is_raw_table(path: Seq<char>) -> bool {
    path.len() >= 4 && path.skip(path.len() - 4) == ".tbl"@
}

/// The name of a raw table, without its ending.
pub fn table_stem(path: &str) -> (r: String)
    requires
        is_raw_table(path@),
    ensures
        r@ + ".tbl"@ == path@,
{
    let n: usize = path.unicode_len() - 4;
    let r: String = path.substring_char(0, n).to_owned();
    assert(r@ + path@.skip(n as int) =~= path@);
    r
}

/// Where the converted data of a raw table goes.
pub fn converted_path(path: &str) -> (r: String)
    requires
        is_raw_table(path@),
    ensures
        exists|stem: Seq<char>| path@ == #[trigger] (stem + ".tbl"@) && r@ == stem + ".parquet"@,
{
    let mut out: String = table_stem(path);
    let ghost stem = out@;
    out.append(".parquet");
    assert(path@ == stem + ".tbl"@);
    out
}

/// What a time out given as digits and a unit comes to, and which message is given where the text
/// has another form: one that starts with no digit, or with too many, has a bad number; one in
/// which the digits are followed by anything but a unit has a bad suffix.
pub proof fn lemma_timeout(
    r: Result<TimeoutTime, &'static str>,
    s: Seq<char>,
    digits: Seq<char>,
    unit: Seq<char>,
)
    requires
        is_timeout(r, s),
        s == digits + unit,
        is_digits(digits),
        forall|i: int|
            0 <= i < s.len() && (s[i] as u32) < 128 ==> numeric(#[trigger] s[i]) == is_digit(s[i]),
        unit.len() > 0 ==> !numeric(unit[0]),
    ensures
        digits.len() == 0 || number(digits) > u64::MAX ==> (r matches Err(message) && message@
            == "bad number"@),
        digits.len() > 0 && number(digits) <= u64::MAX ==> {
            &&& unit == seq!['s'] ==> (r matches Ok(t) && t.0@ == number(digits) * NANOS_PER_SEC)
            &&& unit == seq!['m'] ==> (r matches Ok(t) && t.0@ == 60 * number(digits)
                * NANOS_PER_SEC)
            &&& unit == seq!['h'] ==> (r matches Ok(t) && t.0@ == 3600 * number(digits)
                * NANOS_PER_SEC)
            &&& unit != seq!['s'] && unit != seq!['m'] && unit != seq!['h'] ==> (r matches Err(
                message,
            ) && message@ == "bad suffix"@)
        },
{
    let n = digits.len();
    assert forall|i: int| 0 <= i < n implies numeric(#[trigger] s[i]) by {
        assert(s[i] == digits[i]);
        assert(is_digit(digits[i]));
    }
    if n < s.len() {
        assert(s[n as int] == unit[0]);
    }
    lemma_numeric_prefix(s, n);
    assert(s.take(n as int) =~= digits);
    assert(s.skip(n as int) =~= unit);
    reveal_strlit("s");
    reveal_strlit("m");
    reveal_strlit("h");
    assert("s"@ =~= seq!['s']);
    assert("m"@ =~= seq!['m']);
    assert("h"@ =~= seq!['h']);
    assert(seq!['s'][0] != seq!['m'][0]);
    assert(seq!['s'][0] != seq!['h'][0]);
    assert(seq!['m'][0] != seq!['h'][0]);
    let c = number(digits);
    assert(c * 1 * NANOS_PER_SEC == c * NANOS_PER_SEC) by (nonlinear_arith);
    assert(c * 60 * NANOS_PER_SEC == 60 * c * NANOS_PER_SEC) by (nonlinear_arith);
    assert(c * 3600 * NANOS_PER_SEC == 3600 * c * NANOS_PER_SEC) by (nonlinear_arith);
}

/// What takes no time any more is an improvement by one hundred percent, and what takes as long as
/// before is none. Where nothing took time before, there is no improvement to speak of.
pub proof fn lemma_improvement(nanos: nat)
    requires
        nanos < LIMIT,
    ensures
        improvement(0, nanos) is None,
        nanos > 0 ==> improvement(nanos, 0) == Some(Float64 { bits: HUNDRED }),
        nanos > 0 ==> improvement(nanos, nanos) == Some(Float64 { bits: 0 }),
{
    let x = seconds(nanos);
    let zero = Float64 { bits: 0 };
    lemma_seconds(nanos);
    lemma_seconds(0);
    lemma_whole_seconds(0);
    assert(0 * NANOS_PER_SEC as nat == 0);
    assert(0 * one_unit() == 0) by (nonlinear_arith);
    lemma_known_numbers();
    lemma_one();
    lemma_sign(seconds(0));
    lemma_sign(zero);
    if nanos > 0 {
        lemma_some_seconds(nanos);
        lemma_sign(x);
        lemma_difference_self(x);
        lemma_zero_quotient(x);
        lemma_zero_product(Float64 { bits: HUNDRED });
        lemma_nothing_less(x, seconds(0));
        lemma_quotient_same(x);
        lemma_full_accuracy();
        lemma_product_commutes(Float64 { bits: ONE }, Float64 { bits: HUNDRED });
    }
}

} // verus!
