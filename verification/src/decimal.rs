//! Decimal notation for the integers that appear in membership records,
//! session identifiers and group names.

use vstd::prelude::*;
use vstd::string::StringExecFns;

verus! {

/// The byte `-`.
pub const MINUS: u8 = 45;

/// The byte `+`.
pub const PLUS: u8 = 43;

/// The byte `0`; the other digits follow it.
pub const ZERO: u8 = 48;

/// Whether `b` is one of the ten ASCII digits.
pub open spec fn is_digit(b: u8) -> bool {
    48 <= b <= 57
}

/// Whether `s` holds digits only.
pub open spec fn all_digits(s: Seq<u8>) -> bool {
    forall|i: int| 0 <= i < s.len() ==> is_digit(#[trigger] s[i])
}

/// The ASCII digit for `d`, where `d` is below ten.
pub open spec fn digit_byte(d: nat) -> u8 {
    (48 + d) as u8
}

/// The decimal notation of `n`: no leading zero, and `0` for zero.
pub open spec fn decimal(n: nat) -> Seq<u8>
    decreases n,
{
    if n < 10 {
        seq![digit_byte(n)]
    } else {
        decimal(n / 10).push(digit_byte(n % 10))
    }
}

/// The decimal notation of a signed integer: a `-` before the magnitude of a
/// negative one.
pub open spec fn signed_decimal(v: int) -> Seq<u8> {
    if v < 0 {
        seq![45u8] + decimal((-v) as nat)
    } else {
        decimal(v as nat)
    }
}

/// The number that a run of digits denotes, read with the most significant
/// digit first. The empty run denotes zero.
pub open spec fn digits_value(s: Seq<u8>) -> nat
    decreases s.len(),
{
    if s.len() == 0 {
        0
    } else {
        digits_value(s.drop_last()) * 10 + (s.last() - 48) as nat
    }
}

/// The integer that `s` denotes: an optional sign, then at least one digit and
/// nothing else. `None` for any other text.
pub open spec fn parse_int(s: Seq<u8>) -> Option<int> {
    if s.len() > 0 && (s[0] == 45 || s[0] == 43) {
        let body = s.subrange(1, s.len() as int);
        if body.len() > 0 && all_digits(body) {
            if s[0] == 45 {
                Some(-(digits_value(body) as int))
            } else {
                Some(digits_value(body) as int)
            }
        } else {
            None
        }
    } else if s.len() > 0 && all_digits(s) {
        Some(digits_value(s) as int)
    } else {
        None
    }
}

/// The process id that `s` denotes: `parse_int`, where the integer fits 32
/// signed bits.
pub open spec fn parse_pid(s: Seq<u8>) -> Option<i32> {
    match parse_int(s) {
        Some(v) => if i32::MIN <= v <= i32::MAX {
            Some(v as i32)
        } else {
            None
        },
        None => None,
    }
}

/// A run of digits denotes at least what any of its prefixes denotes.
pub proof fn lemma_prefix_value(s: Seq<u8>, k: int)
    requires
        0 <= k <= s.len(),
        all_digits(s),
    ensures
        digits_value(s.subrange(0, k)) <= digits_value(s),
    decreases s.len() - k,
{
    if k == s.len() {
        assert(s.subrange(0, k) =~= s);
    } else {
        lemma_prefix_value(s, k + 1);
        let longer = s.subrange(0, k + 1);
        assert(longer.drop_last() =~= s.subrange(0, k));
        assert(is_digit(s[k]));
        assert(longer.last() == s[k]);
    }
}

/// The decimal notation of a number is a non-empty run of digits that denotes
/// that number.
pub proof fn lemma_decimal_value(n: nat)
    ensures
        decimal(n).len() > 0,
        all_digits(decimal(n)),
        digits_value(decimal(n)) == n,
    decreases n,
{
    if n < 10 {
        let s = decimal(n);
        assert(s.drop_last() =~= Seq::<u8>::empty());
        assert(digits_value(s.drop_last()) == 0);
    } else {
        lemma_decimal_value(n / 10);
        let s = decimal(n);
        assert(s.drop_last() =~= decimal(n / 10));
        assert(s.last() == digit_byte(n % 10));
        assert forall|i: int| 0 <= i < s.len() implies is_digit(#[trigger] s[i]) by {
            if i < s.len() - 1 {
                assert(s[i] == decimal(n / 10)[i]);
            }
        }
    }
}

/// Different numbers have different decimal notations.
pub proof fn lemma_decimal_injective(a: nat, b: nat)
    requires
        decimal(a) == decimal(b),
    ensures
        a == b,
{
    lemma_decimal_value(a);
    lemma_decimal_value(b);
}

/// Reading the decimal notation of an integer gives the integer back.
pub proof fn lemma_parse_signed_decimal(v: int)
    ensures
        parse_int(signed_decimal(v)) == Some(v),
{
    if v < 0 {
        let m = (-v) as nat;
        lemma_decimal_value(m);
        let s = signed_decimal(v);
        assert(s[0] == 45);
        assert(s.subrange(1, s.len() as int) =~= decimal(m));
    } else {
        lemma_decimal_value(v as nat);
        let s = decimal(v as nat);
        assert(is_digit(s[0]));
    }
}

/// Reading the decimal notation of a process id gives the id back.
pub proof fn lemma_parse_pid_of_decimal(pid: i32)
    ensures
        parse_pid(signed_decimal(pid as int)) == Some(pid),
{
    lemma_parse_signed_decimal(pid as int);
}

/// Reads a process id from one line of a membership record.
pub fn parse_i32(line: &[u8]) -> (r: Option<i32>)
    ensures
        r == parse_pid(line@),
{
    let n: usize = line.len();
    if n == 0 {
        return None;
    }
    let negative: bool = line[0] == MINUS;
    let start: usize = if line[0] == MINUS || line[0] == PLUS {
        1
    } else {
        0
    };
    if start == n {
        return None;
    }
    let ghost body = line@.subrange(start as int, n as int);
    proof {
        if start == 0 {
            assert(body =~= line@);
        }
        assert(body.subrange(0, 0) =~= Seq::<u8>::empty());
    }
    let mut acc: u64 = 0;
    let mut i: usize = start;
    while i < n
        invariant
            start <= i <= n,
            start < n,
            n == line@.len(),
            start == (if line@[0] == 45 || line@[0] == 43 { 1int } else { 0int }),
            body == line@.subrange(start as int, n as int),
            start == 0 ==> body == line@,
            all_digits(body.subrange(0, i - start)),
            acc == digits_value(body.subrange(0, i - start)),
            acc <= 2147483648,
        decreases n - i,
    {
        let b: u8 = line[i];
        if b < 48 || b > 57 {
            proof {
                assert(body[i - start] == b);
                assert(!is_digit(body[i - start]));
            }
            return None;
        }
        let next: u64 = acc * 10 + (b - ZERO) as u64;
        proof {
            let longer = body.subrange(0, i - start + 1);
            assert(longer.drop_last() =~= body.subrange(0, i - start));
            assert(longer.last() == b);
            assert(digits_value(longer) == next);
            assert forall|j: int| 0 <= j < longer.len() implies is_digit(#[trigger] longer[j]) by {
                if j < longer.len() - 1 {
                    assert(longer[j] == body.subrange(0, i - start)[j]);
                }
            }
            if all_digits(body) {
                lemma_prefix_value(body, i - start + 1);
            }
        }
        if next > 2147483648 {
            return None;
        }
        acc = next;
        i = i + 1;
    }
    proof {
        assert(body.subrange(0, n - start) =~= body);
    }
    if negative {
        let v: i64 = -(acc as i64);
        Some(v as i32)
    } else if acc > 2147483647 {
        None
    } else {
        Some(acc as i32)
    }
}

/// Writes `n` in decimal notation.
pub fn format_u64(n: u64) -> (out: Vec<u8>)
    ensures
        out@ == decimal(n as nat),
{
    let mut out: Vec<u8> = Vec::new();
    out.push(ZERO + (n % 10) as u8);
    let mut m: u64 = n / 10;
    proof {
        if n < 10 {
            assert(out@ =~= decimal(n as nat));
        } else {
            assert(decimal(m as nat) + out@ =~= decimal(n as nat));
        }
    }
    while m > 0
        invariant
            m > 0 ==> decimal(n as nat) == decimal(m as nat) + out@,
            m == 0 ==> decimal(n as nat) == out@,
        decreases m,
    {
        let ghost before = out@;
        out.insert(0, ZERO + (m % 10) as u8);
        proof {
            let d = digit_byte((m % 10) as nat);
            assert(out@ =~= seq![d] + before);
            if m < 10 {
                assert(decimal(m as nat) + before =~= out@);
            } else {
                assert(decimal(m as nat) + before =~= decimal((m / 10) as nat) + out@);
            }
        }
        m = m / 10;
    }
    out
}

/// Writes a process id in decimal notation.
pub fn format_i32(v: i32) -> (out: Vec<u8>)
    ensures
        out@ == signed_decimal(v as int),
{
    if v < 0 {
        let magnitude: u64 = (-(v as i64)) as u64;
        let mut out = format_u64(magnitude);
        let ghost digits = out@;
        out.insert(0, MINUS);
        proof {
            assert(out@ =~= seq![45u8] + digits);
        }
        out
    } else {
        format_u64(v as u64)
    }
}

/// Whether `b` is a byte of a decimal notation: a digit or `-`.
pub open spec fn is_decimal_byte(b: u8) -> bool {
    is_digit(b) || b == 45
}

/// The characters that the bytes of a decimal notation stand for.
pub open spec fn as_text(s: Seq<u8>) -> Seq<char> {
    Seq::new(s.len(), |i: int| s[i] as char)
}

/// Notations that read the same as text are the same.
pub proof fn lemma_as_text_injective(a: Seq<u8>, b: Seq<u8>)
    requires
        as_text(a) == as_text(b),
    ensures
        a == b,
{
    assert(a.len() == as_text(a).len());
    assert(b.len() == as_text(b).len());
    assert forall|i: int| 0 <= i < a.len() implies a[i] == b[i] by {
        assert(as_text(a)[i] == a[i] as char);
        assert(as_text(b)[i] == b[i] as char);
    }
    assert(a =~= b);
}

/// Appends to `out` the text of a decimal notation.
pub fn push_decimal(out: &mut String, notation: &[u8])
    requires
        forall|i: int| 0 <= i < notation@.len() ==> is_decimal_byte(#[trigger] notation@[i]),
    ensures
        final(out)@ == old(out)@ + as_text(notation@),
{
    let mut i: usize = 0;
    proof {
        assert(out@ =~= old(out)@ + as_text(notation@.subrange(0, 0)));
    }
    while i < notation.len()
        invariant
            i <= notation@.len(),
            forall|j: int| 0 <= j < notation@.len() ==> is_decimal_byte(#[trigger] notation@[j]),
            out@ == old(out)@ + as_text(notation@.subrange(0, i as int)),
        decreases notation.len() - i,
    {
        let b: u8 = notation[i];
        proof {
            assert(is_decimal_byte(notation@[i as int]));
            reveal_strlit("0");
            reveal_strlit("1");
            reveal_strlit("2");
            reveal_strlit("3");
            reveal_strlit("4");
            reveal_strlit("5");
            reveal_strlit("6");
            reveal_strlit("7");
            reveal_strlit("8");
            reveal_strlit("9");
            reveal_strlit("-");
        }
        let piece: &str = if b == 48 {
            "0"
        } else if b == 49 {
            "1"
        } else if b == 50 {
            "2"
        } else if b == 51 {
            "3"
        } else if b == 52 {
            "4"
        } else if b == 53 {
            "5"
        } else if b == 54 {
            "6"
        } else if b == 55 {
            "7"
        } else if b == 56 {
            "8"
        } else if b == 57 {
            "9"
        } else {
            "-"
        };
        proof {
            assert(piece@ =~= seq![b as char]);
            assert(as_text(notation@.subrange(0, i + 1)) =~= as_text(
                notation@.subrange(0, i as int),
            ) + piece@);
        }
        out.append(piece);
        i = i + 1;
    }
    proof {
        assert(notation@.subrange(0, notation@.len() as int) =~= notation@);
    }
}

/// The decimal notation of `n` as text.
pub fn decimal_string(n: u64) -> (out: String)
    ensures
        out@ == as_text(decimal(n as nat)),
{
    let notation = format_u64(n);
    let mut out = String::new();
    proof {
        lemma_decimal_value(n as nat);
    }
    push_decimal(&mut out, notation.as_slice());
    proof {
        assert(out@ =~= as_text(decimal(n as nat)));
    }
    out
}

} // verus!
