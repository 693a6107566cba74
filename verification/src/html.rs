use vstd::prelude::*;
use vstd::string::StringExecFns;

verus! {

/// The character of a decimal digit.
pub open spec fn digit_char(d: nat) -> char {
    if d == 0 {
        '0'
    } else if d == 1 {
        '1'
    } else if d == 2 {
        '2'
    } else if d == 3 {
        '3'
    } else if d == 4 {
        '4'
    } else if d == 5 {
        '5'
    } else if d == 6 {
        '6'
    } else if d == 7 {
        '7'
    } else if d == 8 {
        '8'
    } else {
        '9'
    }
}

/// A natural number in decimal, without leading zeros.
pub open spec fn digits(n: nat) -> Seq<char>
    decreases n,
{
    if n < 10 {
        seq![digit_char(n)]
    } else {
        digits(n / 10).push(digit_char(n % 10))
    }
}

/// An integer in decimal, with a minus sign where it is negative.
pub open spec fn decimal(n: int) -> Seq<char> {
    if n < 0 {
        seq!['-'] + digits((-n) as nat)
    } else {
        digits(n as nat)
    }
}

/// The list items of `items`, one `<li>` element each, in order.
pub open spec fn html_items(items: Seq<i64>) -> Seq<char>
    decreases items.len(),
{
    if items.len() == 0 {
        Seq::empty()
    } else {
        html_items(items.drop_last()) + "<li>"@ + decimal(items.last() as int) + "</li>"@
    }
}

/// The text of a decimal digit.
fn digit_of(d: u64) -> (c: &'static str)
    requires
        d < 10,
    ensures
        c@ == seq![digit_char(d as nat)],
{
    proof {
        reveal_strlit("0");
        reveal_strlit("1");
        reveal_strlit("2");
        reveal_strlit("3");
        reveal_strlit("4");
        reveal_strlit("5");
        reveal_strlit("6");
        reveal_strlit("7");
        reveal_strlit("8");
        reveal_strlit("9");
    }
    let c = if d == 0 {
        "0"
    } else if d == 1 {
        "1"
    } else if d == 2 {
        "2"
    } else if d == 3 {
        "3"
    } else if d == 4 {
        "4"
    } else if d == 5 {
        "5"
    } else if d == 6 {
        "6"
    } else if d == 7 {
        "7"
    } else if d == 8 {
        "8"
    } else {
        "9"
    };
    assert(c@ =~= seq![digit_char(d as nat)]);
    c
}

/// Appends `n` in decimal.
fn push_digits(s: &mut String, n: u64)
    ensures
        final(s)@ == old(s)@ + digits(n as nat),
    decreases n,
{
    if n < 10 {
        s.append(digit_of(n));
        assert(s@ =~= old(s)@ + digits(n as nat));
    } else {
        push_digits(s, n / 10);
        s.append(digit_of(n % 10));
        assert(s@ =~= old(s)@ + digits(n as nat));
    }
}

/// Appends `n` in decimal, with its sign.
fn push_decimal(s: &mut String, n: i64)
    ensures
        final(s)@ == old(s)@ + decimal(n as int),
{
    if n < 0 {
        proof {
            reveal_strlit("-");
        }
        s.append("-");
        let magnitude: u64 = ((-(n + 1)) as u64) + 1;
        push_digits(s, magnitude);
        assert(s@ =~= old(s)@ + decimal(n as int));
    } else {
        push_digits(s, n as u64);
    }
}

/// An unordered HTML list with one item for each of `items`.
pub fn html_list(items: &[i64]) -> (s: String)
    ensures
        s@ == "<ul>"@ + html_items(items@) + "</ul>"@,
{
    let mut list_items = String::new();
    list_items.append("<ul>");
    let mut i: usize = 0;
    assert(items@.subrange(0, 0) =~= Seq::<i64>::empty());
    assert(list_items@ =~= "<ul>"@ + html_items(items@.subrange(0, 0)));
    while i < items.len()
        invariant
            i <= items.len(),
            list_items@ == "<ul>"@ + html_items(items@.subrange(0, i as int)),
        decreases items.len() - i,
    {
        let ghost before = list_items@;
        list_items.append("<li>");
        push_decimal(&mut list_items, items[i]);
        list_items.append("</li>");
        proof {
            let next = items@.subrange(0, i + 1);
            assert(next.drop_last() =~= items@.subrange(0, i as int));
            assert(next.last() == items@[i as int]);
            assert(list_items@ =~= "<ul>"@ + html_items(next));
        }
        i += 1;
    }
    assert(items@.subrange(0, items@.len() as int) =~= items@);
    list_items.append("</ul>");
    list_items
}

} // verus!
