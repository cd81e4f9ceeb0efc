use vstd::prelude::*;
use vstd::string::StringExecFns;

verus! {

/// The character of a decimal digit.
pub open spec fn digit_char(digit: nat) -> char {
    (48 + digit) as char
}

/// The decimal notation of a number, without leading zeros.
pub open spec fn decimal(n: nat) -> Seq<char>
    decreases n,
{
    if n < 10 {
        seq![digit_char(n)]
    } else {
        decimal(n / 10) + seq![digit_char(n % 10)]
    }
}

/// `text` right-aligned in a field of `width`, filled on the left with `fill`.
pub open spec fn padded_left(text: Seq<char>, width: nat, fill: char) -> Seq<char> {
    if text.len() >= width {
        text
    } else {
        Seq::new((width - text.len()) as nat, |i: int| fill) + text
    }
}

/// The decimal notation with a comma between groups of three digits.
pub open spec fn grouped_decimal(n: nat) -> Seq<char>
    decreases n,
{
    if n < 1000 {
        decimal(n)
    } else {
        grouped_decimal(n / 1000) + seq![','] + padded_left(decimal(n % 1000), 3, '0')
    }
}

fn digit_text(digit: u64) -> (text: &'static str)
    requires
        digit < 10,
    ensures
        text@ == seq![digit_char(digit as nat)],
{
    if digit == 0 {
        proof {
            reveal_strlit("0");
        }
        "0"
    } else if digit == 1 {
        proof {
            reveal_strlit("1");
        }
        "1"
    } else if digit == 2 {
        proof {
            reveal_strlit("2");
        }
        "2"
    } else if digit == 3 {
        proof {
            reveal_strlit("3");
        }
        "3"
    } else if digit == 4 {
        proof {
            reveal_strlit("4");
        }
        "4"
    } else if digit == 5 {
        proof {
            reveal_strlit("5");
        }
        "5"
    } else if digit == 6 {
        proof {
            reveal_strlit("6");
        }
        "6"
    } else if digit == 7 {
        proof {
            reveal_strlit("7");
        }
        "7"
    } else if digit == 8 {
        proof {
            reveal_strlit("8");
        }
        "8"
    } else {
        proof {
            reveal_strlit("9");
        }
        "9"
    }
}

/// Appends the decimal notation of `n`.
pub fn append_decimal(text: &mut String, n: u64)
    ensures
        final(text)@ == old(text)@ + decimal(n as nat),
    decreases n,
{
    if n >= 10 {
        append_decimal(text, n / 10);
    }
    text.append(digit_text(n % 10));
    proof {
        assert(n >= 10 ==> decimal(n as nat) == decimal((n / 10) as nat) + seq![digit_char((n % 10) as nat)]);
        assert(n < 10 ==> decimal(n as nat) =~= seq![digit_char((n % 10) as nat)]);
    }
}

pub fn decimal_string(n: u64) -> (text: String)
    ensures
        text@ == decimal(n as nat),
{
    let mut text = String::new();
    append_decimal(&mut text, n);
    proof {
        assert(Seq::<char>::empty() + decimal(n as nat) =~= decimal(n as nat));
    }
    text
}

/// Appends `count` copies of a one-character text.
fn append_repeated(text: &mut String, piece: &str, count: usize)
    requires
        piece@.len() == 1,
    ensures
        final(text)@ == old(text)@ + Seq::new(count as nat, |i: int| piece@[0]),
{
    let mut i: usize = 0;
    while i < count
        invariant
            piece@.len() == 1,
            i <= count,
            text@ == old(text)@ + Seq::new(i as nat, |k: int| piece@[0]),
        decreases count - i,
    {
        text.append(piece);
        proof {
            assert(old(text)@ + Seq::new((i + 1) as nat, |k: int| piece@[0]) =~= old(text)@ + Seq::new(
                i as nat,
                |k: int| piece@[0],
            ) + piece@);
        }
        i = i + 1;
    }
}

proof fn lemma_decimal_len(n: nat)
    ensures
        decimal(n).len() >= 1,
        n < 10 ==> decimal(n).len() == 1,
        10 <= n < 100 ==> decimal(n).len() == 2,
        100 <= n < 1000 ==> decimal(n).len() == 3,
        n < 10000 ==> decimal(n).len() <= 4,
    decreases n,
{
    if n >= 10 {
        lemma_decimal_len(n / 10);
    }
}

/// Appends `n` in decimal, right-aligned in a field of `width` filled with `fill`.
pub fn append_padded(text: &mut String, n: u64, width: usize, fill: &str)
    requires
        fill@.len() == 1,
    ensures
        final(text)@ == old(text)@ + padded_left(decimal(n as nat), width as nat, fill@[0]),
{
    let digits = decimal_string(n);
    let length = digits.unicode_len();
    if length < width {
        append_repeated(text, fill, width - length);
    }
    text.append(digits.as_str());
    proof {
        if length < width {
            assert(old(text)@ + Seq::new((width - length) as nat, |i: int| fill@[0]) + digits@ =~= old(text)@
                + padded_left(decimal(n as nat), width as nat, fill@[0]));
        } else {
            assert(Seq::new(0, |i: int| fill@[0]) + digits@ =~= digits@);
        }
    }
}

/// Appends `n` with a comma between groups of three digits.
fn append_grouped(text: &mut String, n: u64)
    ensures
        final(text)@ == old(text)@ + grouped_decimal(n as nat),
    decreases n,
{
    if n < 1000 {
        append_decimal(text, n);
    } else {
        append_grouped(text, n / 1000);
        proof {
            reveal_strlit(",");
        }
        text.append(",");
        proof {
            reveal_strlit("0");
        }
        append_padded(text, n % 1000, 3, "0");
        proof {
            assert(grouped_decimal(n as nat) == grouped_decimal((n / 1000) as nat) + seq![','] + padded_left(
                decimal((n % 1000) as nat),
                3,
                '0',
            ));
            assert(old(text)@ + grouped_decimal((n / 1000) as nat) + seq![','] + padded_left(
                decimal((n % 1000) as nat),
                3,
                '0',
            ) =~= old(text)@ + grouped_decimal(n as nat));
        }
    }
}

/// A count with thousands separators, such as `12,345,678`.
pub fn format_number(value: usize) -> (text: String)
    ensures
        text@ == grouped_decimal(value as nat),
{
    let mut text = String::new();
    append_grouped(&mut text, value as u64);
    proof {
        assert(Seq::<char>::empty() + grouped_decimal(value as nat) =~= grouped_decimal(value as nat));
    }
    text
}

/// The label of a point in time in the timeline: the year right-aligned in four places,
/// then `年` and the zero-padded month, or blanks for the yearly processing (month 0),
/// or `年末` for the end of the year (month 13).
pub open spec fn timestamp_text(year: u64, month: u8) -> Seq<char> {
    padded_left(decimal(year as nat), 4, ' ') + if month == 0 {
        seq!['年', ' ', ' ', ' ', ' ']
    } else if month == 13 {
        seq!['年', '末', ' ', ' ']
    } else {
        seq!['年'] + padded_left(decimal(month as nat), 2, '0') + seq!['月']
    }
}

pub fn timestamp(year: u64, month: u8) -> (text: String)
    ensures
        text@ == timestamp_text(year, month),
{
    let mut text = String::new();
    proof {
        reveal_strlit(" ");
    }
    append_padded(&mut text, year, 4, " ");
    if month == 0 {
        proof {
            reveal_strlit("年    ");
        }
        text.append("年    ");
    } else if month == 13 {
        proof {
            reveal_strlit("年末  ");
        }
        text.append("年末  ");
    } else {
        proof {
            reveal_strlit("年");
            reveal_strlit("月");
            reveal_strlit("0");
        }
        text.append("年");
        append_padded(&mut text, month as u64, 2, "0");
        text.append("月");
    }
    proof {
        assert(text@ =~= timestamp_text(year, month));
    }
    text
}

/// The strings without repetitions, first occurrences kept in order.
pub open spec fn first_occurrences(values: Seq<Seq<char>>) -> Seq<Seq<char>>
    decreases values.len(),
{
    if values.len() == 0 {
        Seq::empty()
    } else {
        let kept = first_occurrences(values.drop_last());
        if kept.contains(values.last()) {
            kept
        } else {
            kept.push(values.last())
        }
    }
}

pub open spec fn string_views(values: Seq<String>) -> Seq<Seq<char>> {
    values.map_values(|value: String| value@)
}

pub fn unique_strings(values: Vec<String>) -> (unique: Vec<String>)
    ensures
        string_views(unique@) == first_occurrences(string_views(values@)),
{
    let mut unique: Vec<String> = Vec::new();
    let mut i: usize = 0;
    while i < values.len()
        invariant
            i <= values@.len(),
            string_views(unique@) == first_occurrences(string_views(values@.take(i as int))),
        decreases values.len() - i,
    {
        let mut seen = false;
        let mut j: usize = 0;
        while j < unique.len()
            invariant
                i < values@.len(),
                j <= unique@.len(),
                seen == string_views(unique@.take(j as int)).contains(values@[i as int]@),
            decreases unique.len() - j,
        {
            proof {
                broadcast use vstd::seq_lib::group_seq_properties;
                assert(string_views(unique@.take(j + 1)) =~= string_views(unique@.take(j as int)).push(unique@[j as int]@));
            }
            if unique[j] == values[i] {
                seen = true;
            }
            j = j + 1;
        }
        proof {
            assert(unique@.take(unique@.len() as int) =~= unique@);
            assert(values@.take(i + 1).drop_last() =~= values@.take(i as int));
            assert(string_views(values@.take(i + 1)).drop_last() =~= string_views(values@.take(i as int)));
            assert(string_views(values@.take(i + 1)).last() == values@[i as int]@);
        }
        if !seen {
            let value = values[i].clone();
            unique.push(value);
            proof {
                assert(string_views(unique@) =~= string_views(unique@.drop_last()).push(values@[i as int]@));
            }
        }
        i = i + 1;
    }
    proof {
        assert(values@.take(values@.len() as int) =~= values@);
    }
    unique
}

} // verus!
