//! Labels and their names in the assembly.
use vstd::prelude::*;
use vstd::string::*;

verus! {

/// A label, by its number.
#[derive(Debug, Clone, Copy, PartialEq, Eq, Structural, Hash)]
pub struct Label(pub usize);

/// The character of a decimal digit.
pub open spec fn digit_char(digit: nat) -> char {
    (48 + digit) as char
}

/// The decimal digits of a number, without leading zeros. Zero is one digit.
pub open spec fn decimal(n: nat) -> Seq<char>
    decreases n,
{
    if n < 10 {
        seq![digit_char(n)]
    } else {
        decimal(n / 10).push(digit_char(n % 10))
    }
}

/// The name of the label with number `n`: a dot and the number.
pub open spec fn label_name(n: nat) -> Seq<char> {
    seq!['.'] + decimal(n)
}

fn digit_str(digit: usize) -> (res: &'static str)
    requires
        digit < 10,
    ensures
        res@ == seq![digit_char(digit as nat)],
{
    proof {
        reveal_strlit("0");
        reveal_strlit("1");
        reveal_strlit("2");
        reveal_strlit("3");
        reveal_strlit("4");
        reveal_strlit("5");
        reveal_strlit("6");
        reveal_strlit("7");
        reveal_strlit("8");
        reveal_strlit("9");
    }
    match digit {
        0 => "0",
        1 => "1",
        2 => "2",
        3 => "3",
        4 => "4",
        5 => "5",
        6 => "6",
        7 => "7",
        8 => "8",
        _ => "9",
    }
}

fn number_to_string(n: usize) -> (res: String)
    ensures
        res@ == decimal(n as nat),
    decreases n,
{
    if n < 10 {
        digit_str(n).to_owned()
    } else {
        let mut res = number_to_string(n / 10);
        res.append(digit_str(n % 10));
        proof {
            assert(res@ =~= decimal((n / 10) as nat).push(digit_char((n % 10) as nat)));
        }
        res
    }
}

impl Label {
    /// The name of the label in the assembly.
    pub fn to_string(&self) -> (res: String)
        ensures
            res@ == label_name(self.0 as nat),
    {
        proof {
            reveal_strlit(".");
        }
        let mut res = ".".to_owned();
        assert(res@ =~= seq!['.']);
        res.append(number_to_string(self.0).as_str());
        res
    }
}

proof fn lemma_decimal_injective(m: nat, n: nat)
    requires
        decimal(m) == decimal(n),
    ensures
        m == n,
    decreases m,
{
    let a = decimal(m);
    let b = decimal(n);
    assert(decimal(m / 10).len() > 0 && decimal(n / 10).len() > 0) by {
        lemma_decimal_nonempty(m / 10);
        lemma_decimal_nonempty(n / 10);
    }
    assert(a.last() == digit_char(m % 10));
    assert(b.last() == digit_char(n % 10));
    if m >= 10 {
        assert(n >= 10);
        assert(a.drop_last() =~= decimal(m / 10));
        assert(b.drop_last() =~= decimal(n / 10));
        lemma_decimal_injective(m / 10, n / 10);
    }
}

proof fn lemma_decimal_nonempty(n: nat)
    ensures
        decimal(n).len() > 0,
    decreases n,
{
    if n >= 10 {
        lemma_decimal_nonempty(n / 10);
    }
}

/// Two labels with the same name are the same label.
pub proof fn law_label_names_are_distinct(a: Label, b: Label)
    requires
        label_name(a.0 as nat) == label_name(b.0 as nat),
    ensures
        a == b,
{
    assert(label_name(a.0 as nat).drop_first() =~= decimal(a.0 as nat));
    assert(label_name(b.0 as nat).drop_first() =~= decimal(b.0 as nat));
    lemma_decimal_injective(a.0 as nat, b.0 as nat);
}

/// The number that decimal digits stand for.
pub open spec fn decimal_value(digits: Seq<char>) -> int
    decreases digits.len(),
{
    if digits.len() == 0 {
        0
    } else {
        10 * decimal_value(digits.drop_last()) + (digits.last() as int - '0' as int)
    }
}

proof fn lemma_decimal_value(n: nat)
    ensures
        decimal(n).len() > 0,
        decimal_value(decimal(n)) == n,
        forall|i: int| 0 <= i < decimal(n).len() ==> '0' <= #[trigger] decimal(n)[i] <= '9',
        n > 0 ==> decimal(n)[0] != '0',
    decreases n,
{
    let digits = decimal(n);
    if n < 10 {
        assert(digits.drop_last() =~= seq![]);
        assert(decimal_value(digits.drop_last()) == 0);
    } else {
        lemma_decimal_value(n / 10);
        assert(digits.drop_last() =~= decimal(n / 10));
    }
}

/// The name of a label is a dot and decimal digits that stand for its number and start with no
/// zero, unless the number is zero.
pub proof fn law_label_name_is_its_number(n: nat)
    ensures
        label_name(n).len() > 1,
        label_name(n)[0] == '.',
        decimal_value(label_name(n).skip(1)) == n,
        forall|i: int| 1 <= i < label_name(n).len() ==> '0' <= #[trigger] label_name(n)[i] <= '9',
        label_name(n).len() > 2 ==> label_name(n)[1] != '0',
{
    lemma_decimal_value(n);
    assert(label_name(n).skip(1) =~= decimal(n));
    assert forall|i: int| 1 <= i < label_name(n).len() implies '0' <= #[trigger] label_name(n)[i]
        <= '9' by {
        assert(label_name(n)[i] == decimal(n)[i - 1]);
    }
    assert(label_name(n)[1] == decimal(n)[0]);
}

} // verus!
