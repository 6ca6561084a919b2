//! Lists of numbers as text: decimal numbers between square brackets,
//! separated by a comma and a space.

use crate::cycles::cycles_view;
use vstd::prelude::*;
use vstd::string::StringExecFns;

verus! {

/// The character of a decimal digit.
pub open spec fn digit_char(digit: nat) -> char {
    if digit == 0 {
        '0'
    } else if digit == 1 {
        '1'
    } else if digit == 2 {
        '2'
    } else if digit == 3 {
        '3'
    } else if digit == 4 {
        '4'
    } else if digit == 5 {
        '5'
    } else if digit == 6 {
        '6'
    } else if digit == 7 {
        '7'
    } else if digit == 8 {
        '8'
    } else {
        '9'
    }
}

/// The decimal digits of a number, without leading zeros.
pub open spec fn decimal(number: nat) -> Seq<char>
    decreases number,
{
    if number < 10 {
        seq![digit_char(number)]
    } else {
        decimal(number / 10).push(digit_char(number % 10))
    }
}

/// The items with `", "` between each two of them.
pub open spec fn separated(items: Seq<Seq<char>>) -> Seq<char>
    decreases items.len(),
{
    if items.len() == 0 {
        Seq::empty()
    } else if items.len() == 1 {
        items[0]
    } else {
        separated(items.drop_last()) + ", "@ + items.last()
    }
}

/// The items, separated, between square brackets.
pub open spec fn bracketed(items: Seq<Seq<char>>) -> Seq<char> {
    "["@ + separated(items) + "]"@
}

/// A list of numbers as text, such as `[0, 4, 1]`.
pub open spec fn numbers_text(numbers: Seq<usize>) -> Seq<char> {
    bracketed(Seq::new(numbers.len(), |i: int| decimal(numbers[i] as nat)))
}

/// A list of lists of numbers as text, such as `[[1, 4], [13, 42]]`.
pub open spec fn lists_text(lists: Seq<Seq<usize>>) -> Seq<char> {
    bracketed(Seq::new(lists.len(), |i: int| numbers_text(lists[i])))
}

fn digit(value: usize) -> (text: &'static str)
    requires
        value < 10,
    ensures
        text@ == seq![digit_char(value as nat)],
{
    proof {
        reveal_strlit("0");
        reveal_strlit("1");
        reveal_strlit("2");
        reveal_strlit("3");
        reveal_strlit("4");
        reveal_strlit("5");
        reveal_strlit("6");
        reveal_strlit("7");
        reveal_strlit("8");
        reveal_strlit("9");
    }
    let text = if value == 0 {
        "0"
    } else if value == 1 {
        "1"
    } else if value == 2 {
        "2"
    } else if value == 3 {
        "3"
    } else if value == 4 {
        "4"
    } else if value == 5 {
        "5"
    } else if value == 6 {
        "6"
    } else if value == 7 {
        "7"
    } else if value == 8 {
        "8"
    } else {
        "9"
    };
    assert(text@ =~= seq![digit_char(value as nat)]);
    text
}

/// The number in decimal.
pub fn write_decimal(number: usize) -> (text: String)
    ensures
        text@ == decimal(number as nat),
    decreases number,
{
    if number < 10 {
        String::from_str(digit(number))
    } else {
        let front = write_decimal(number / 10);
        let last = digit(number % 10);
        let text = front.concat(last);
        assert(text@ =~= decimal(number as nat));
        text
    }
}

/// The numbers as a bracketed list.
pub fn write_numbers(numbers: &Vec<usize>) -> (text: String)
    ensures
        text@ == numbers_text(numbers@),
{
    let ghost items = Seq::new(numbers@.len(), |i: int| decimal(numbers@[i] as nat));
    let mut text = String::from_str("[");
    let mut i: usize = 0;
    while i < numbers.len()
        invariant
            i <= numbers@.len(),
            items == Seq::new(numbers@.len(), |i: int| decimal(numbers@[i] as nat)),
            text@ == "["@ + separated(items.take(i as int)),
        decreases numbers@.len() - i,
    {
        let item = write_decimal(numbers[i]);
        proof {
            let longer = items.take(i + 1);
            assert(longer.drop_last() =~= items.take(i as int));
            assert(longer.last() == item@);
        }
        if i > 0 {
            text.append(", ");
        }
        text.append(item.as_str());
        proof {
            if i == 0 {
                assert(separated(items.take(0)) =~= Seq::<char>::empty());
                assert(text@ =~= "["@ + separated(items.take(1)));
            } else {
                assert(text@ =~= "["@ + separated(items.take(i + 1)));
            }
        }
        i += 1;
    }
    assert(items.take(i as int) =~= items);
    text.append("]");
    text
}

/// The lists as a bracketed list of bracketed lists.
pub fn write_lists(lists: &Vec<Vec<usize>>) -> (text: String)
    ensures
        text@ == lists_text(cycles_view(lists)),
{
    let ghost views = cycles_view(lists);
    let ghost items = Seq::new(views.len(), |i: int| numbers_text(views[i]));
    let mut text = String::from_str("[");
    let mut i: usize = 0;
    while i < lists.len()
        invariant
            i <= lists@.len(),
            views == cycles_view(lists),
            items == Seq::new(views.len(), |i: int| numbers_text(views[i])),
            text@ == "["@ + separated(items.take(i as int)),
        decreases lists@.len() - i,
    {
        let item = write_numbers(&lists[i]);
        proof {
            let longer = items.take(i + 1);
            assert(longer.drop_last() =~= items.take(i as int));
            assert(longer.last() == item@);
        }
        if i > 0 {
            text.append(", ");
        }
        text.append(item.as_str());
        proof {
            if i == 0 {
                assert(separated(items.take(0)) =~= Seq::<char>::empty());
                assert(text@ =~= "["@ + separated(items.take(1)));
            } else {
                assert(text@ =~= "["@ + separated(items.take(i + 1)));
            }
        }
        i += 1;
    }
    assert(items.take(i as int) =~= items);
    text.append("]");
    text
}

} // verus!
