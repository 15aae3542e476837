//! Text for messages.

use vstd::prelude::*;

verus! {

/// The decimal digit for a value below ten.
pub open spec fn digit(value: nat) -> char {
    if value == 0 {
        '0'
    } else if value == 1 {
        '1'
    } else if value == 2 {
        '2'
    } else if value == 3 {
        '3'
    } else if value == 4 {
        '4'
    } else if value == 5 {
        '5'
    } else if value == 6 {
        '6'
    } else if value == 7 {
        '7'
    } else if value == 8 {
        '8'
    } else {
        '9'
    }
}

/// A number in decimal notation.
pub open spec fn decimal_text(value: nat) -> Seq<char>
    decreases value,
{
    if value < 10 {
        seq![digit(value)]
    } else {
        decimal_text(value / 10).push(digit(value % 10))
    }
}

/// The decimal digit for a value below ten.
fn digit_str(value: u64) -> (r: &'static str)
    requires
        value < 10,
    ensures
        r@ == seq![digit(value as nat)],
{
    proof {
        reveal_strlit("0");
        reveal_strlit("1");
        reveal_strlit("2");
        reveal_strlit("3");
        reveal_strlit("4");
        reveal_strlit("5");
        reveal_strlit("6");
        reveal_strlit("7");
        reveal_strlit("8");
        reveal_strlit("9");
    }
    let r = match value {
        0 => "0",
        1 => "1",
        2 => "2",
        3 => "3",
        4 => "4",
        5 => "5",
        6 => "6",
        7 => "7",
        8 => "8",
        _ => "9",
    };
    assert(r@ =~= seq![digit(value as nat)]);
    r
}

/// A number in decimal notation.
pub fn decimal(value: u64) -> (r: String)
    ensures
        r@ == decimal_text(value as nat),
    decreases value,
{
    if value < 10 {
        String::from_str(digit_str(value))
    } else {
        let mut text = decimal(value / 10);
        text.append(digit_str(value % 10));
        assert(text@ =~= decimal_text(value as nat));
        text
    }
}

/// A number in decimal notation, with a sign where it is negative.
pub open spec fn signed_text(value: int) -> Seq<char> {
    if value < 0 {
        "-"@ + decimal_text((-value) as nat)
    } else {
        decimal_text(value as nat)
    }
}

/// A number in decimal notation, with a sign where it is negative.
pub fn signed_decimal(value: i32) -> (r: String)
    ensures
        r@ == signed_text(value as int),
{
    if value < 0 {
        let distance: u64 = (-(value as i64)) as u64;
        String::from_str("-").concat(decimal(distance).as_str())
    } else {
        decimal(value as u64)
    }
}

/// Parts with a separator between them.
pub open spec fn joined(parts: Seq<Seq<char>>, separator: Seq<char>) -> Seq<char>
    decreases parts.len(),
{
    if parts.len() == 0 {
        Seq::empty()
    } else if parts.len() == 1 {
        parts[0]
    } else {
        joined(parts.drop_last(), separator) + separator + parts.last()
    }
}

/// The texts of strings.
pub open spec fn texts(parts: Seq<String>) -> Seq<Seq<char>> {
    parts.map_values(|part: String| part@)
}

/// Puts strings together, with a separator between them.
pub fn join(parts: &[String], separator: &str) -> (r: String)
    ensures
        r@ == joined(texts(parts@), separator@),
{
    let ghost all = texts(parts@);
    let mut text = String::new();
    let mut i: usize = 0;
    assert(all.take(0) =~= Seq::<Seq<char>>::empty());
    while i < parts.len()
        invariant
            i <= parts@.len(),
            all == texts(parts@),
            text@ == joined(all.take(i as int), separator@),
        decreases parts@.len() - i,
    {
        proof {
            assert(all.take(i + 1).drop_last() =~= all.take(i as int));
            assert(all.take(i + 1).last() == parts@[i as int]@);
        }
        if i > 0 {
            text.append(separator);
        }
        text.append(parts[i].as_str());
        i = i + 1;
        assert(text@ =~= joined(all.take(i as int), separator@));
    }
    assert(all.take(i as int) =~= all);
    text
}

/// The number that a row of decimal digits stands for.
pub open spec fn read_decimal(text: Seq<char>) -> int
    decreases text.len(),
{
    if text.len() == 0 {
        0
    } else {
        10 * read_decimal(text.drop_last()) + (text.last() as int - '0' as int)
    }
}

/// Decimal notation is read back as the number, is made of digits alone, and starts with a zero only
/// where the number is zero.
pub proof fn lemma_decimal_is_read_back(value: nat)
    ensures
        read_decimal(decimal_text(value)) == value,
        decimal_text(value).len() > 0,
        forall|i: int|
            0 <= i < decimal_text(value).len() ==> '0' as int <= #[trigger] decimal_text(
                value,
            )[i] as int <= '9' as int,
        decimal_text(value)[0] == '0' <==> value == 0,
    decreases value,
{
    let text = decimal_text(value);
    if value < 10 {
        assert(text.drop_last() =~= Seq::<char>::empty());
        assert(read_decimal(text.drop_last()) == 0);
    } else {
        lemma_decimal_is_read_back(value / 10);
        assert(text.drop_last() =~= decimal_text(value / 10));
    }
}

/// Only a number below zero has a sign, and what follows it is the distance from zero.
pub proof fn lemma_sign_stands_before_negative_numbers(value: int)
    ensures
        value >= 0 ==> read_decimal(signed_text(value)) == value && signed_text(value)[0] != '-',
        value < 0 ==> signed_text(value)[0] == '-' && read_decimal(signed_text(value).skip(1))
            == -value,
{
    reveal_strlit("-");
    lemma_decimal_is_read_back(if value < 0 {
        (-value) as nat
    } else {
        value as nat
    });
    if value < 0 {
        assert(signed_text(value).skip(1) =~= decimal_text((-value) as nat));
    }
}

/// One separator stands between two lists of parts that are put together, and none anywhere else.
pub proof fn lemma_separator_stands_between(
    first: Seq<Seq<char>>,
    second: Seq<Seq<char>>,
    separator: Seq<char>,
)
    requires
        first.len() > 0,
        second.len() > 0,
    ensures
        joined(first + second, separator) == joined(first, separator) + separator + joined(
            second,
            separator,
        ),
        first.len() == 1 ==> joined(first, separator) == first[0],
    decreases second.len(),
{
    let all = first + second;
    assert(all.last() == second.last());
    if second.len() == 1 {
        assert(all.drop_last() =~= first);
    } else {
        lemma_separator_stands_between(first, second.drop_last(), separator);
        assert(all.drop_last() =~= first + second.drop_last());
        let before = joined(second.drop_last(), separator);
        assert((joined(first, separator) + separator + before) + separator + second.last()
            =~= joined(first, separator) + separator + (before + separator + second.last()));
    }
}

/// Each string stands for its own text.
pub proof fn lemma_texts_of_strings(parts: Seq<String>, i: int)
    requires
        0 <= i < parts.len(),
    ensures
        texts(parts).len() == parts.len(),
        texts(parts)[i] == parts[i]@,
{
}

} // verus!
