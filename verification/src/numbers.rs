//! Whole numbers as decimal text, written and read.

use vstd::prelude::*;

verus! {

/// The ten digits, in order.
pub open spec fn digits() -> Seq<char> {
    seq!['0', '1', '2', '3', '4', '5', '6', '7', '8', '9']
}

/// The character is a decimal digit.
pub open spec fn is_digit(c: char) -> bool {
    '0' <= c <= '9'
}

/// What a decimal digit counts for.
pub open spec fn digit_value(c: char) -> nat {
    (c as int - '0' as int) as nat
}

/// Every character is a decimal digit.
pub open spec fn all_digits(s: Seq<char>) -> bool {
    forall|i: int| 0 <= i < s.len() ==> is_digit(#[trigger] s[i])
}

/// The number that a run of digits stands for.
pub open spec fn decimal_value(s: Seq<char>) -> nat
    decreases s.len(),
{
    if s.len() == 0 {
        0
    } else {
        decimal_value(s.drop_last()) * 10 + digit_value(s.last())
    }
}

/// A number in decimal digits, without leading zeros.
pub open spec fn decimal(n: nat) -> Seq<char>
    decreases n,
{
    if n < 10 {
        seq![digits()[n as int]]
    } else {
        decimal(n / 10).push(digits()[(n % 10) as int])
    }
}

/// The number that a text stands for, if it stands for one: a run of at
/// least one digit, which a plus sign may precede.
pub open spec fn number(s: Seq<char>) -> Option<nat> {
    let run = if s.len() > 0 && s[0] == '+' {
        s.skip(1)
    } else {
        s
    };
    if run.len() > 0 && all_digits(run) {
        Some(decimal_value(run))
    } else {
        None
    }
}

/// A run of digits stands for no less than any of its beginnings.
pub proof fn lemma_decimal_value_grows(s: Seq<char>, k: int)
    requires
        0 <= k <= s.len(),
    ensures
        decimal_value(s.take(k)) <= decimal_value(s),
    decreases s.len(),
{
    if k == s.len() {
        assert(s.take(k) =~= s);
    } else {
        lemma_decimal_value_grows(s.drop_last(), k);
        assert(s.drop_last().take(k) =~= s.take(k));
    }
}

/// Taking one more digit into a run multiplies what it stands for by ten
/// and adds the digit.
pub proof fn lemma_decimal_value_step(s: Seq<char>, k: int)
    requires
        0 <= k < s.len(),
    ensures
        decimal_value(s.take(k + 1)) == decimal_value(s.take(k)) * 10 + digit_value(s[k]),
        decimal_value(s.take(0)) == 0,
{
    assert(s.take(k + 1).drop_last() =~= s.take(k));
    assert(s.take(0) =~= Seq::<char>::empty());
}

/// A number written in decimal is a run of digits that begins with no
/// sign and stands for the number.
pub proof fn lemma_decimal_reads_back(n: nat)
    ensures
        decimal(n).len() > 0,
        all_digits(decimal(n)),
        decimal_value(decimal(n)) == n,
        number(decimal(n)) == Some(n),
    decreases n,
{
    if n < 10 {
        assert(decimal(n).drop_last() =~= Seq::<char>::empty());
        assert(decimal_value(Seq::<char>::empty()) == 0);
    } else {
        lemma_decimal_reads_back(n / 10);
        assert(decimal(n).drop_last() =~= decimal(n / 10));
    }
    assert(decimal(n)[0] != '+');
}

/// The text of one digit.
fn digit_text(d: u64) -> (text: &'static str)
    requires
        d < 10,
    ensures
        text@ == seq![digits()[d as int]],
{
    proof {
        reveal_strlit("0");
        reveal_strlit("1");
        reveal_strlit("2");
        reveal_strlit("3");
        reveal_strlit("4");
        reveal_strlit("5");
        reveal_strlit("6");
        reveal_strlit("7");
        reveal_strlit("8");
        reveal_strlit("9");
    }
    let text = if d == 0 {
        "0"
    } else if d == 1 {
        "1"
    } else if d == 2 {
        "2"
    } else if d == 3 {
        "3"
    } else if d == 4 {
        "4"
    } else if d == 5 {
        "5"
    } else if d == 6 {
        "6"
    } else if d == 7 {
        "7"
    } else if d == 8 {
        "8"
    } else {
        "9"
    };
    assert(text@ =~= seq![digits()[d as int]]);
    text
}

/// Writes `n` in decimal at the end of `out`.
pub fn write_decimal(out: &mut String, n: u64)
    ensures
        final(out)@ == old(out)@ + decimal(n as nat),
{
    let mut low: Vec<u64> = Vec::new();
    let mut rest = n;
    while rest >= 10
        invariant
            forall|i: int| 0 <= i < low.len() ==> low[i] < 10,
            decimal(n as nat) == decimal(rest as nat) + Seq::new(
                low.len() as nat,
                |i: int| digits()[low[low.len() - 1 - i] as int],
            ),
        decreases rest,
    {
        let ghost before = low@;
        let ghost tail = Seq::new(
            low.len() as nat,
            |i: int| digits()[low[low.len() - 1 - i] as int],
        );
        low.push(rest % 10);
        proof {
            let next = Seq::new(low.len() as nat, |i: int| digits()[low[low.len() - 1 - i] as int]);
            assert(next =~= seq![digits()[(rest % 10) as int]] + tail);
            assert(decimal(rest as nat) == decimal((rest / 10) as nat).push(
                digits()[(rest % 10) as int],
            ));
            assert(decimal(rest as nat) + tail =~= decimal((rest / 10) as nat) + next);
        }
        rest = rest / 10;
    }
    let ghost tail = Seq::new(low.len() as nat, |i: int| digits()[low[low.len() - 1 - i] as int]);
    out.append(digit_text(rest));
    let mut k: usize = low.len();
    assert(tail.take(0) =~= Seq::<char>::empty());
    while k > 0
        invariant
            k <= low.len(),
            forall|i: int| 0 <= i < low.len() ==> low[i] < 10,
            tail == Seq::new(low.len() as nat, |i: int| digits()[low[low.len() - 1 - i] as int]),
            out@ == old(out)@ + decimal(rest as nat) + tail.take(low.len() - k),
        decreases k,
    {
        k -= 1;
        out.append(digit_text(low[k]));
        assert(tail.take(low.len() - k) =~= tail.take(low.len() - (k + 1)).push(
            tail[low.len() - (k + 1)],
        ));
        assert(out@ =~= old(out)@ + decimal(rest as nat) + tail.take(low.len() - k));
    }
    assert(tail.take(low.len() as int) =~= tail);
    assert(out@ =~= old(out)@ + decimal(n as nat));
}

/// Reads the number that the characters of `text` from `from` up to `to`
/// stand for, where they stand for one that fits.
#[verifier::loop_isolation(false)]
pub fn read_decimal(text: &Vec<char>, from: usize, to: usize) -> (read: Option<u64>)
    requires
        from <= to <= text.len(),
    ensures
        match read {
            Some(n) => number(text@.subrange(from as int, to as int)) == Some(n as nat),
            None => match number(text@.subrange(from as int, to as int)) {
                Some(n) => n > u64::MAX,
                None => true,
            },
        },
{
    let ghost whole = text@.subrange(from as int, to as int);
    let mut at = from;
    if at < to && text[at] == '+' {
        assert(whole[0] == '+');
        at += 1;
    } else {
        assert(!(whole.len() > 0 && whole[0] == '+'));
    }
    let ghost run = text@.subrange(at as int, to as int);
    assert(run =~= if whole.len() > 0 && whole[0] == '+' {
        whole.skip(1)
    } else {
        whole
    });
    if at == to {
        return None;
    }
    let start = at;
    let mut value: u64 = 0;
    proof {
        lemma_decimal_value_step(run, 0);
    }
    while at < to
        invariant
            start <= at <= to,
            to <= text.len(),
            run == text@.subrange(start as int, to as int),
            all_digits(run.take(at - start)),
            value == decimal_value(run.take(at - start)),
        decreases to - at,
    {
        let c = text[at];
        assert(run[at - start] == c);
        if !('0' <= c && c <= '9') {
            assert(!is_digit(run[at - start]));
            return None;
        }
        let d = (c as u32 - '0' as u32) as u64;
        proof {
            lemma_decimal_value_step(run, at - start);
            lemma_decimal_value_grows(run, at - start + 1);
            assert forall|i: int| 0 <= i < run.take(at - start + 1).len() implies is_digit(
                #[trigger] run.take(at - start + 1)[i],
            ) by {
                if i < at - start {
                    assert(run.take(at - start + 1)[i] == run.take(at - start)[i]);
                }
            }
        }
        if value > (u64::MAX - d) / 10 {
            assert(decimal_value(run.take(at - start + 1)) > u64::MAX);
            return None;
        }
        value = value * 10 + d;
        at += 1;
    }
    assert(run.take(to - start) =~= run);
    Some(value)
}

/// The characters of a text.
pub fn chars_of(text: &str) -> (chars: Vec<char>)
    ensures
        chars@ == text@,
{
    let mut chars: Vec<char> = Vec::new();
    for c in it: text.chars()
        invariant
            chars@ == it.seq().take(it.index() as int),
            it.seq() == text@,
    {
        chars.push(c);
    }
    chars
}

} // verus!
