//! Numbers as they are written.
use crate::seqs::{lemma_all_kept, lemma_filter_push};
use vstd::prelude::*;

verus! {

pub open spec fn digit(d: int) -> char {
    (48 + d) as char
}

/// The decimal digits of a number.
pub open spec fn decimal(n: int) -> Seq<char>
    decreases n,
{
    if n < 10 {
        seq![digit(n)]
    } else {
        decimal(n / 10).push(digit(n % 10))
    }
}

/// The decimal digits of a number, in groups of three with commas between
/// them.
pub open spec fn grouped(n: int) -> Seq<char>
    decreases n,
{
    if n < 1000 {
        decimal(n)
    } else {
        grouped(n / 1000).push(',').push(digit(n / 100 % 10)).push(digit(n / 10 % 10)).push(
            digit(n % 10),
        )
    }
}

fn digit_text(d: u64) -> (text: &'static str)
    requires
        d < 10,
    ensures
        text@ == seq![digit(d as int)],
{
    proof {
        reveal_strlit("0");
        reveal_strlit("1");
        reveal_strlit("2");
        reveal_strlit("3");
        reveal_strlit("4");
        reveal_strlit("5");
        reveal_strlit("6");
        reveal_strlit("7");
        reveal_strlit("8");
        reveal_strlit("9");
    }
    let text = match d {
        0 => "0",
        1 => "1",
        2 => "2",
        3 => "3",
        4 => "4",
        5 => "5",
        6 => "6",
        7 => "7",
        8 => "8",
        _ => "9",
    };
    assert(text@ =~= seq![digit(d as int)]);
    text
}

/// Writes a number in decimal digits.
pub fn format_number(n: u64) -> (text: String)
    ensures
        text@ == decimal(n as int),
    decreases n,
{
    if n < 10 {
        String::from_str(digit_text(n))
    } else {
        let mut text = format_number(n / 10);
        text.append(digit_text(n % 10));
        assert(text@ =~= decimal(n as int));
        text
    }
}

/// Writes a number with commas between groups of three digits.
pub fn format_count(n: u64) -> (text: String)
    ensures
        text@ == grouped(n as int),
    decreases n,
{
    if n >= 1000 {
        let mut text = format_count(n / 1000);
        let ghost front = text@;
        text.append(",");
        text.append(digit_text(n / 100 % 10));
        text.append(digit_text(n / 10 % 10));
        text.append(digit_text(n % 10));
        proof {
            reveal_strlit(",");
        }
        assert(text@ =~= grouped(n as int));
        text
    } else {
        let mut text = String::new();
        if n >= 100 {
            text.append(digit_text(n / 100));
        }
        if n >= 10 {
            text.append(digit_text(n / 10 % 10));
        }
        text.append(digit_text(n % 10));
        proof {
            reveal_with_fuel(decimal, 3);
        }
        assert(text@ =~= decimal(n as int));
        text
    }
}

proof fn lemma_three_more_digits(n: int)
    requires
        n >= 1000,
    ensures
        decimal(n) == decimal(n / 1000).push(digit(n / 100 % 10)).push(digit(n / 10 % 10)).push(
            digit(n % 10),
        ),
{
    reveal_with_fuel(decimal, 4);
    assert(n / 10 / 10 == n / 100);
    assert(n / 100 / 10 == n / 1000);
}

proof fn lemma_digits_are_no_commas(n: int, i: int)
    requires
        0 <= n,
        0 <= i < decimal(n).len(),
    ensures
        decimal(n)[i] != ',',
    decreases n,
{
    if n >= 10 && i < decimal(n / 10).len() {
        lemma_digits_are_no_commas(n / 10, i);
    }
}

/// Without its commas, a grouped number is the number.
pub proof fn law_grouping_adds_only_commas(n: int)
    requires
        0 <= n,
    ensures
        grouped(n).filter(|c: char| c != ',') == decimal(n),
    decreases n,
{
    let kept = |c: char| c != ',';
    if n < 1000 {
        assert forall|i: int| 0 <= i < decimal(n).len() implies kept(#[trigger] decimal(n)[i]) by {
            lemma_digits_are_no_commas(n, i);
        }
        lemma_all_kept(decimal(n), kept);
    } else {
        law_grouping_adds_only_commas(n / 1000);
        lemma_three_more_digits(n);
        let s0 = grouped(n / 1000);
        let s1 = s0.push(',');
        let s2 = s1.push(digit(n / 100 % 10));
        let s3 = s2.push(digit(n / 10 % 10));
        lemma_filter_push(s0, ',', kept);
        lemma_filter_push(s1, digit(n / 100 % 10), kept);
        lemma_filter_push(s2, digit(n / 10 % 10), kept);
        lemma_filter_push(s3, digit(n % 10), kept);
    }
}

/// The commas stand before every third digit, counted from the end.
pub proof fn law_commas_are_every_three_digits(n: int, i: int)
    requires
        0 <= n,
        0 <= i < grouped(n).len(),
    ensures
        (grouped(n)[grouped(n).len() - 1 - i] == ',') == (i % 4 == 3),
        grouped(n)[0] != ',',
    decreases n,
{
    if n < 1000 {
        reveal_with_fuel(decimal, 3);
        lemma_digits_are_no_commas(n, decimal(n).len() - 1 - i);
        lemma_digits_are_no_commas(n, 0);
    } else {
        assert(grouped(n / 1000).len() > 0) by {
            lemma_not_empty(n / 1000);
        }
        law_commas_are_every_three_digits(n / 1000, 0);
        if i >= 4 {
            law_commas_are_every_three_digits(n / 1000, i - 4);
        }
    }
}

proof fn lemma_not_empty(n: int)
    ensures
        grouped(n).len() > 0,
    decreases n,
{
    if n >= 1000 {
        lemma_not_empty(n / 1000);
    }
}

/// The number that decimal digits stand for.
pub open spec fn digits_value(text: Seq<char>) -> int
    decreases text.len(),
{
    if text.len() == 0 {
        0
    } else {
        10 * digits_value(text.drop_last()) + (text.last() as int - 48)
    }
}

/// Whether a text is made of digits alone, with no zero in front of others.
pub open spec fn is_plain_number(text: Seq<char>) -> bool {
    &&& text.len() > 0
    &&& forall|i: int| 0 <= i < text.len() ==> '0' <= #[trigger] text[i] <= '9'
    &&& text.len() > 1 ==> text[0] != '0'
}

pub(crate) proof fn lemma_decimal_reads_back(n: int)
    requires
        0 <= n,
    ensures
        digits_value(decimal(n)) == n,
        is_plain_number(decimal(n)),
        n > 0 ==> decimal(n)[0] != '0',
    decreases n,
{
    if n < 10 {
        assert(decimal(n).drop_last() =~= Seq::<char>::empty());
        assert(digits_value(Seq::<char>::empty()) == 0);
        assert(decimal(n).last() == digit(n));
    } else {
        lemma_decimal_reads_back(n / 10);
        assert(decimal(n).drop_last() =~= decimal(n / 10));
        assert forall|i: int| 0 <= i < decimal(n).len() implies '0' <= #[trigger] decimal(n)[i]
            <= '9' by {
            if i < decimal(n / 10).len() {
                assert(decimal(n)[i] == decimal(n / 10)[i]);
            }
        }
        assert(decimal(n)[0] == decimal(n / 10)[0]);
    }
}

/// A number that is written reads back as itself.
pub proof fn law_number_reads_back(n: u64, text: String)
    requires
        call_ensures(format_number, (n,), text),
    ensures
        is_plain_number(text@),
        digits_value(text@) == n,
{
    lemma_decimal_reads_back(n as int);
}

/// Whether a text is a number with a comma before every third digit from the
/// end, and nowhere else: without its commas it reads as the number.
pub open spec fn is_written_count(text: Seq<char>, n: int) -> bool {
    &&& is_plain_number(text.filter(|c: char| c != ','))
    &&& digits_value(text.filter(|c: char| c != ',')) == n
    &&& forall|i: int|
        0 <= i < text.len() ==> (#[trigger] text[i] == ',') == ((text.len() - 1 - i) % 4 == 3)
    &&& text.len() > 0 && text[0] != ','
}

pub(crate) proof fn lemma_grouped_is_written(n: int)
    requires
        0 <= n,
    ensures
        is_written_count(grouped(n), n),
{
    let text = grouped(n);
    lemma_decimal_reads_back(n);
    law_grouping_adds_only_commas(n);
    lemma_not_empty(n);
    law_commas_are_every_three_digits(n, 0);
    assert forall|i: int| 0 <= i < text.len() implies (#[trigger] text[i] == ',') == ((text.len()
        - 1 - i) % 4 == 3) by {
        law_commas_are_every_three_digits(n, text.len() - 1 - i);
    }
}

/// A count that is written reads back as itself without its commas, which stand
/// before every third digit from the end and nowhere else.
pub proof fn law_count_reads_back(n: u64, text: String)
    requires
        call_ensures(format_count, (n,), text),
    ensures
        is_written_count(text@, n as int),
{
    lemma_grouped_is_written(n as int);
}

} // verus!
