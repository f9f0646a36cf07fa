//! The error type of the broker.
use vstd::prelude::*;

verus! {

/// Errors the broker can return. The broker never panics; every failure path
/// is one of these variants.
#[derive(Debug, Clone, PartialEq, Eq, Structural)]
pub enum BrokerError {
    /// The message body exceeded the broker's configured max size.
    MessageTooLarge { size: usize, max: usize },
    /// A publish or unsubscribe named a subscriber id that does not exist.
    UnknownSubscriber(u64),
    /// A topic name or subscription pattern was empty.
    EmptyTopic,
}

/// The character of the decimal digit `d` (`0 <= d < 10`).
pub open spec fn digit_char(d: nat) -> char {
    if d == 0 {
        '0'
    } else if d == 1 {
        '1'
    } else if d == 2 {
        '2'
    } else if d == 3 {
        '3'
    } else if d == 4 {
        '4'
    } else if d == 5 {
        '5'
    } else if d == 6 {
        '6'
    } else if d == 7 {
        '7'
    } else if d == 8 {
        '8'
    } else {
        '9'
    }
}

/// The decimal representation of `n`, without leading zeros.
pub open spec fn decimal(n: nat) -> Seq<char>
    decreases n,
{
    if n < 10 {
        seq![digit_char(n)]
    } else {
        decimal(n / 10).push(digit_char(n % 10))
    }
}

/// The number a string of decimal digits denotes.
pub open spec fn digits_value(s: Seq<char>) -> int
    decreases s.len(),
{
    if s.len() == 0 {
        0
    } else {
        digits_value(s.drop_last()) * 10 + (s.last() as int - '0' as int)
    }
}

/// The digit character of `d` stands for `d`.
proof fn lemma_digit_char(d: nat)
    requires
        d < 10,
    ensures
        digit_char(d) as int - '0' as int == d,
        '0' <= digit_char(d) <= '9',
        d > 0 ==> digit_char(d) != '0',
{
}

/// `decimal(n)` is the usual way of writing `n`: it holds only the digits
/// `0` to `9`, it reads back as `n`, and it has no leading zero.
pub proof fn law_decimal_writes_the_number(n: nat)
    ensures
        decimal(n).len() >= 1,
        forall|k: int| 0 <= k < decimal(n).len() ==> '0' <= #[trigger] decimal(n)[k] <= '9',
        digits_value(decimal(n)) == n,
        decimal(n).len() == 1 || decimal(n)[0] != '0',
    decreases n,
{
    if n < 10 {
        lemma_digit_char(n);
        assert(decimal(n).drop_last() =~= Seq::<char>::empty());
        assert(digits_value(Seq::<char>::empty()) == 0);
        assert(digits_value(decimal(n)) == digits_value(decimal(n).drop_last()) * 10 + (
        digit_char(n) as int - '0' as int));
    } else {
        lemma_digit_char(n % 10);
        law_decimal_writes_the_number(n / 10);
        let d = decimal(n);
        let init = decimal(n / 10);
        assert(d == init.push(digit_char(n % 10)));
        assert(d.drop_last() =~= init);
        assert forall|k: int| 0 <= k < d.len() implies '0' <= #[trigger] d[k] <= '9' by {
            if k < init.len() {
                assert(d[k] == init[k]);
            }
        }
        assert(d.last() == digit_char(n % 10));
        assert(digits_value(d) == digits_value(init) * 10 + (digit_char(n % 10) as int - '0' as int));
        assert(digits_value(init) == n / 10);
        assert((n / 10) * 10 + n % 10 == n) by (nonlinear_arith);
        assert(digits_value(init) * 10 + (n % 10) == n);
        assert(d[0] == init[0]);
        if n / 10 < 10 {
            lemma_digit_char(n / 10);
        } else {
            law_decimal_writes_the_number(n / 10 / 10);
            assert(init.len() >= 2);
        }
    }
}

impl BrokerError {
    /// The human-readable text of the error.
    pub open spec fn text(self) -> Seq<char> {
        match self {
            BrokerError::MessageTooLarge { size, max } => "message size "@ + decimal(size as nat)
                + " exceeds max "@ + decimal(max as nat),
            BrokerError::UnknownSubscriber(id) => "unknown subscriber id "@ + decimal(id as nat),
            BrokerError::EmptyTopic => "topic name must not be empty"@,
        }
    }

    /// The human-readable text of the error, for example
    /// `message size 11 exceeds max 4`.
    pub fn to_string(&self) -> (s: String)
        ensures
            s@ == self.text(),
    {
        match self {
            BrokerError::MessageTooLarge { size, max } => {
                let mut s = "message size ".to_owned();
                push_decimal(&mut s, *size as u64);
                s.append(" exceeds max ");
                push_decimal(&mut s, *max as u64);
                s
            },
            BrokerError::UnknownSubscriber(id) => {
                let mut s = "unknown subscriber id ".to_owned();
                push_decimal(&mut s, *id);
                s
            },
            BrokerError::EmptyTopic => "topic name must not be empty".to_owned(),
        }
    }
}

/// The one-character string of the decimal digit `d`.
fn digit_str(d: u64) -> (s: &'static str)
    requires
        d < 10,
    ensures
        s@ == seq![digit_char(d as nat)],
{
    proof {
        reveal_strlit("0");
        reveal_strlit("1");
        reveal_strlit("2");
        reveal_strlit("3");
        reveal_strlit("4");
        reveal_strlit("5");
        reveal_strlit("6");
        reveal_strlit("7");
        reveal_strlit("8");
        reveal_strlit("9");
    }
    if d == 0 {
        "0"
    } else if d == 1 {
        "1"
    } else if d == 2 {
        "2"
    } else if d == 3 {
        "3"
    } else if d == 4 {
        "4"
    } else if d == 5 {
        "5"
    } else if d == 6 {
        "6"
    } else if d == 7 {
        "7"
    } else if d == 8 {
        "8"
    } else {
        "9"
    }
}

/// Appends the decimal representation of `n` to `out`.
fn push_decimal(out: &mut String, n: u64)
    ensures
        final(out)@ == old(out)@ + decimal(n as nat),
    decreases n,
{
    if n >= 10 {
        push_decimal(out, n / 10);
    }
    out.append(digit_str(n % 10));
    assert(decimal(n as nat) == if n < 10 {
        seq![digit_char(n as nat)]
    } else {
        decimal((n / 10) as nat).push(digit_char((n % 10) as nat))
    });
}

} // verus!
