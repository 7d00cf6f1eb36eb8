//! Formatting helpers for the textual report: decimal rendering with
//! thousands separators, human-scaled byte counts, and the lines an
//! extremum tracker contributes.

use vstd::prelude::*;

use crate::bounded::Bounded;
use crate::bounded::BoundedView;

verus! {

/// The decimal digit character for `d` (`d < 10`).
pub open spec fn dec_digit(d: nat) -> char {
    if d == 0 {
        '0'
    } else if d == 1 {
        '1'
    } else if d == 2 {
        '2'
    } else if d == 3 {
        '3'
    } else if d == 4 {
        '4'
    } else if d == 5 {
        '5'
    } else if d == 6 {
        '6'
    } else if d == 7 {
        '7'
    } else if d == 8 {
        '8'
    } else {
        '9'
    }
}

/// The usual decimal rendering of `n`, most significant digit first,
/// with no leading zeros (`0` renders as `"0"`).
pub open spec fn dec_of(n: nat) -> Seq<char>
    decreases n,
{
    if n < 10 {
        seq![dec_digit(n)]
    } else {
        dec_of(n / 10).push(dec_digit(n % 10))
    }
}

/// The digits of `ds`, read back to front, as digit characters.
spec fn rev_digit_chars(ds: Seq<u8>) -> Seq<char> {
    Seq::new(ds.len(), |i: int| dec_digit(ds[ds.len() - 1 - i] as nat))
}

/// A single decimal digit as a string slice.
fn digit_str(d: u8) -> (r: &'static str)
    requires
        d < 10,
    ensures
        r@ == seq![dec_digit(d as nat)],
{
    proof {
        reveal_strlit("0");
        reveal_strlit("1");
        reveal_strlit("2");
        reveal_strlit("3");
        reveal_strlit("4");
        reveal_strlit("5");
        reveal_strlit("6");
        reveal_strlit("7");
        reveal_strlit("8");
        reveal_strlit("9");
        assert("0"@ =~= seq![dec_digit(0)]);
        assert("1"@ =~= seq![dec_digit(1)]);
        assert("2"@ =~= seq![dec_digit(2)]);
        assert("3"@ =~= seq![dec_digit(3)]);
        assert("4"@ =~= seq![dec_digit(4)]);
        assert("5"@ =~= seq![dec_digit(5)]);
        assert("6"@ =~= seq![dec_digit(6)]);
        assert("7"@ =~= seq![dec_digit(7)]);
        assert("8"@ =~= seq![dec_digit(8)]);
        assert("9"@ =~= seq![dec_digit(9)]);
    }
    match d {
        0 => "0",
        1 => "1",
        2 => "2",
        3 => "3",
        4 => "4",
        5 => "5",
        6 => "6",
        7 => "7",
        8 => "8",
        _ => "9",
    }
}

/// Renders `value` in decimal.
pub fn to_decimal(value: u64) -> (s: String)
    ensures
        s@ == dec_of(value as nat),
{
    let mut digits: Vec<u8> = Vec::new();
    let mut v: u64 = value;
    digits.push((v % 10) as u8);
    v = v / 10;
    while v > 0
        invariant
            forall|j: int| 0 <= j < digits@.len() ==> digits@[j] < 10,
            digits@.len() >= 1,
            dec_of(value as nat) == if v > 0 {
                dec_of(v as nat) + rev_digit_chars(digits@)
            } else {
                rev_digit_chars(digits@)
            },
        decreases v,
    {
        let ghost old_digits = digits@;
        digits.push((v % 10) as u8);
        proof {
            assert(rev_digit_chars(old_digits.push((v % 10) as u8)) =~= seq![
                dec_digit((v % 10) as nat),
            ] + rev_digit_chars(old_digits));
            if v >= 10 {
                assert(dec_of(v as nat) == dec_of(v as nat / 10).push(dec_digit(v as nat % 10)));
                assert(dec_of(v as nat) =~= dec_of((v / 10) as nat) + seq![
                    dec_digit((v % 10) as nat),
                ]);
            } else {
                assert(dec_of(v as nat) =~= seq![dec_digit((v % 10) as nat)]);
            }
        }
        v = v / 10;
    }
    let mut s = String::new();
    let mut i: usize = digits.len();
    while i > 0
        invariant
            i <= digits@.len(),
            forall|j: int| 0 <= j < digits@.len() ==> digits@[j] < 10,
            dec_of(value as nat) == rev_digit_chars(digits@),
            s@ == rev_digit_chars(digits@).take(digits@.len() - i),
        decreases i,
    {
        i = i - 1;
        let ghost pre = s@;
        s.append(digit_str(digits[i]));
        proof {
            let ds = digits@;
            let k = ds.len() - i - 1;
            assert(rev_digit_chars(ds)[k] == dec_digit(ds[i as int] as nat));
            assert(s@ =~= rev_digit_chars(ds).take(k + 1));
        }
    }
    proof {
        assert(s@ =~= rev_digit_chars(digits@));
    }
    s
}

/// The human-readable rendering of a whole-second duration, as
/// produced by `humantime::format_duration`.
pub uninterp spec fn duration_text(secs: u64) -> Seq<char>;

/// Relies on `humantime::format_duration`: the rendering is total and
/// a function of the duration alone.
#[verifier::external_body]
pub(crate) fn format_duration_secs(secs: u64) -> (r: String)
    ensures
        r@ == duration_text(secs),
{
    humantime::format_duration(std::time::Duration::from_secs(secs)).to_string()
}

/// The separator (a comma or nothing) that stands before the digit at
/// position `i` of a string of length `len`.
pub open spec fn comma_sep(len: int, i: int) -> Seq<char> {
    if i > 0 && (len - i) % 3 == 0 {
        seq![',']
    } else {
        Seq::empty()
    }
}

/// The first `i` characters of `s`, with a comma inserted before every
/// position whose distance from the end of `s` is a positive multiple
/// of three.
pub open spec fn comma_prefix(s: Seq<char>, i: int) -> Seq<char>
    decreases i,
{
    if i <= 0 {
        Seq::empty()
    } else {
        comma_prefix(s, i - 1) + comma_sep(s.len() as int, i - 1) + seq![s[i - 1]]
    }
}

/// The decimal rendering of `value`, grouped in threes by commas.
pub open spec fn comma_text(value: u64) -> Seq<char> {
    comma_prefix(dec_of(value as nat), dec_of(value as nat).len() as int)
}

/// Converts a `u64` to a readable `String`, with commas.
pub fn comma(value: u64) -> (s: String)
    ensures
        s@ == comma_text(value),
{
    let digits = to_decimal(value);
    let n: usize = digits.as_str().unicode_len();
    let mut out = String::new();
    let mut i: usize = 0;
    while i < n
        invariant
            n == digits@.len(),
            digits@ == dec_of(value as nat),
            i <= n,
            out@ == comma_prefix(digits@, i as int),
        decreases n - i,
    {
        if i > 0 && (n - i) % 3 == 0 {
            out.append(",");
            proof {
                reveal_strlit(",");
                assert(","@ =~= seq![',']);
            }
        }
        let c = digits.as_str().substring_char(i, i + 1);
        proof {
            assert(c@ =~= seq![digits@[i as int]]);
        }
        out.append(c);
        i = i + 1;
    }
    out
}

/// The divisor that scales a byte count into the unit at index `i`.
pub open spec fn size_divisor(i: nat) -> nat {
    if i == 0 {
        1
    } else if i == 1 {
        1000
    } else if i == 2 {
        1000000
    } else if i == 3 {
        1000000000
    } else if i == 4 {
        1000000000000
    } else if i == 5 {
        1000000000000000
    } else {
        1000000000000000000
    }
}

/// The unit index for a byte count: the largest `i` with
/// `size_divisor(i) <= v` (capped at the exabyte unit).
pub open spec fn size_unit_index(v: nat) -> nat {
    if v < 1000 {
        0
    } else if v < 1000000 {
        1
    } else if v < 1000000000 {
        2
    } else if v < 1000000000000 {
        3
    } else if v < 1000000000000000 {
        4
    } else if v < 1000000000000000000 {
        5
    } else {
        6
    }
}

/// The unit label at index `i`. The ladder ends at exabytes, the
/// largest unit a 64-bit byte count can reach.
pub open spec fn size_unit_text(i: nat) -> Seq<char> {
    if i == 0 {
        "B"@
    } else if i == 1 {
        "kB"@
    } else if i == 2 {
        "MB"@
    } else if i == 3 {
        "GB"@
    } else if i == 4 {
        "TB"@
    } else if i == 5 {
        "PB"@
    } else {
        "EB"@
    }
}

/// `v / d` in hundredths, rounded half up.
pub open spec fn scale_centi(v: nat, d: nat) -> nat {
    (v * 100 + d / 2) / d
}

/// The fractional part of a scaled size, in hundredths: empty when
/// zero, one digit when a whole number of tenths, two digits else.
pub open spec fn frac_text(fr: nat) -> Seq<char> {
    if fr == 0 {
        Seq::empty()
    } else if fr % 10 == 0 {
        seq!['.', dec_digit(fr / 10)]
    } else {
        seq!['.', dec_digit(fr / 10), dec_digit(fr % 10)]
    }
}

/// The human-scaled rendering of a byte count: scaled to the largest
/// unit not exceeding it, with up to two decimal places and trailing
/// zeros dropped.
pub open spec fn bytes_text(v: u64) -> Seq<char> {
    let i = size_unit_index(v as nat);
    if i == 0 {
        dec_of(v as nat) + size_unit_text(0)
    } else {
        let s = scale_centi(v as nat, size_divisor(i));
        dec_of(s / 100) + frac_text(s % 100) + size_unit_text(i)
    }
}

/// Converts a byte count to a `String` representation.
pub fn convert_bytes(bytes: u64) -> (s: String)
    ensures
        s@ == bytes_text(bytes),
{
    if bytes < 1000 {
        let mut s = to_decimal(bytes);
        s.append("B");
        proof {
            assert(s@ =~= bytes_text(bytes));
        }
        return s;
    }
    let ghost iu: nat = size_unit_index(bytes as nat);
    let d: u64 = if bytes < 1_000_000 {
        1_000
    } else if bytes < 1_000_000_000 {
        1_000_000
    } else if bytes < 1_000_000_000_000 {
        1_000_000_000
    } else if bytes < 1_000_000_000_000_000 {
        1_000_000_000_000
    } else if bytes < 1_000_000_000_000_000_000 {
        1_000_000_000_000_000
    } else {
        1_000_000_000_000_000_000
    };
    let unit: &'static str = if bytes < 1_000_000 {
        "kB"
    } else if bytes < 1_000_000_000 {
        "MB"
    } else if bytes < 1_000_000_000_000 {
        "GB"
    } else if bytes < 1_000_000_000_000_000 {
        "TB"
    } else if bytes < 1_000_000_000_000_000_000 {
        "PB"
    } else {
        "EB"
    };
    proof {
        assert(d as nat == size_divisor(iu));
        assert(unit@ == size_unit_text(iu));
    }
    let wide: u128 = ((bytes as u128) * 100 + (d as u128) / 2) / (d as u128);
    proof {
        assert(wide == scale_centi(bytes as nat, d as nat));
        assert(wide < 100_000_000) by {
            let a = (bytes as int) * 100 + (d as int) / 2;
            assert(a < (d as int) * 100_000_000) by {
                if bytes < 1_000_000_000_000_000_000 {
                    assert((bytes as int) < 1000 * (d as int));
                } else {
                    assert(d == 1_000_000_000_000_000_000);
                }
            }
            vstd::arithmetic::div_mod::lemma_multiply_divide_lt(a, d as int, 100_000_000);
            assert(wide == a / (d as int));
        }
    }
    let scaled: u64 = wide as u64;
    let ip: u64 = scaled / 100;
    let fr: u64 = scaled % 100;
    let mut s = to_decimal(ip);
    if fr > 0 {
        s.append(".");
        proof {
            reveal_strlit(".");
            assert("."@ =~= seq!['.']);
        }
        if fr % 10 == 0 {
            s.append(digit_str((fr / 10) as u8));
        } else {
            s.append(digit_str((fr / 10) as u8));
            s.append(digit_str((fr % 10) as u8));
        }
    }
    s.append(unit);
    proof {
        assert(s@ =~= bytes_text(bytes));
    }
    s
}

/// The report lines contributed by one extremum tracker: nothing
/// while no record was seen; else the formatted best value, the key
/// that first reached it, and, only when the tie count exceeds one,
/// how many others share the extreme value (a tie count at or below
/// one is suppressed).
pub open spec fn log_bound_spec(
    label: Seq<char>,
    value_label: Seq<char>,
    value_text: Seq<char>,
    b: BoundedView,
) -> Seq<Seq<char>> {
    match b.best_key {
        None => Seq::empty(),
        Some(k) => {
            let base = seq![value_label + "="@ + value_text, label + "_name="@ + k];
            if b.tie_count > 1 {
                base.push(label + "_others="@ + dec_of(b.tie_count))
            } else {
                base
            }
        },
    }
}

/// Renders a bounded value, conditionally based on content.
pub fn log_bound(label: &str, value_label: &str, value_text: &str, bounded: &Bounded) -> (lines:
    Vec<String>)
    ensures
        lines.deep_view() == log_bound_spec(label@, value_label@, value_text@, bounded@),
{
    let mut lines: Vec<String> = Vec::new();
    let key: &String = match &bounded.best_key {
        Some(k) => k,
        None => {
            proof {
                assert(lines.deep_view() =~= log_bound_spec(
                    label@,
                    value_label@,
                    value_text@,
                    bounded@,
                ));
            }
            return lines;
        },
    };
    let mut value_line = String::new();
    value_line.append(value_label);
    value_line.append("=");
    value_line.append(value_text);
    lines.push(value_line);

    let mut name_line = String::new();
    name_line.append(label);
    name_line.append("_name=");
    name_line.append(key.as_str());
    lines.push(name_line);

    if bounded.tie_count > 1 {
        let mut others_line = String::new();
        others_line.append(label);
        others_line.append("_others=");
        let count = to_decimal(bounded.tie_count);
        others_line.append(count.as_str());
        lines.push(others_line);
    }
    proof {
        assert(lines.deep_view() =~= log_bound_spec(label@, value_label@, value_text@, bounded@));
    }
    lines
}

} // verus!
