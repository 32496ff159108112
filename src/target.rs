use vstd::prelude::*;
use vstd::string::{StringExecFns, StringSliceAdditionalSpecFns};
use crate::error::GenError;

verus! {

broadcast use vstd::string::is_ascii_spec_bytes;

/// Whether `c` is an ASCII decimal digit.
pub open spec fn is_digit(c: char) -> bool {
    48 <= (c as int) <= 57
}

/// The value of a decimal digit.
pub open spec fn digit_value(c: char) -> nat {
    ((c as int) - 48) as nat
}

/// The value of a string of decimal digits.
pub open spec fn digits_value(ds: Seq<char>) -> nat
    decreases ds.len(),
{
    if ds.len() == 0 {
        0
    } else {
        digits_value(ds.drop_last()) * 10 + digit_value(ds.last())
    }
}

/// `s` without a leading `+`, if it has one.
pub open spec fn sign_stripped(s: Seq<char>) -> Seq<char> {
    if s.len() > 0 && s[0] == '+' {
        s.drop_first()
    } else {
        s
    }
}

/// Whether every character of `ds` is a decimal digit.
pub open spec fn all_digits(ds: Seq<char>) -> bool {
    forall|i: int| 0 <= i < ds.len() ==> is_digit(#[trigger] ds[i])
}

/// The digits of an unsigned decimal number: an optional leading `+`, then
/// at least one digit, as `usize`'s `FromStr` reads them.
pub open spec fn unsigned_digits(s: Seq<char>) -> Option<Seq<char>> {
    if sign_stripped(s).len() > 0 && all_digits(sign_stripped(s)) {
        Some(sign_stripped(s))
    } else {
        None
    }
}

/// The counter that a counter file holds: a decimal number below `usize::MAX`,
/// so that its successor can be stored.
pub open spec fn counter_of(s: Seq<char>) -> Option<nat> {
    match unsigned_digits(s) {
        Some(ds) => if digits_value(ds) < usize::MAX {
            Some(digits_value(ds))
        } else {
            None
        },
        None => None,
    }
}

/// The character of a decimal digit.
pub open spec fn digit_char(d: nat) -> char {
    if d == 0 {
        '0'
    } else if d == 1 {
        '1'
    } else if d == 2 {
        '2'
    } else if d == 3 {
        '3'
    } else if d == 4 {
        '4'
    } else if d == 5 {
        '5'
    } else if d == 6 {
        '6'
    } else if d == 7 {
        '7'
    } else if d == 8 {
        '8'
    } else {
        '9'
    }
}

/// The decimal representation of `n`, without sign or leading zeros.
pub open spec fn decimal(n: nat) -> Seq<char>
    decreases n,
{
    if n < 10 {
        seq![digit_char(n)]
    } else {
        decimal(n / 10).push(digit_char(n % 10))
    }
}

proof fn lemma_digits_value_prefix(ds: Seq<char>, i: int)
    requires
        0 <= i <= ds.len(),
    ensures
        digits_value(ds.subrange(0, i)) <= digits_value(ds),
    decreases ds.len() - i,
{
    if i < ds.len() {
        lemma_digits_value_prefix(ds, i + 1);
        assert(ds.subrange(0, i + 1).drop_last() == ds.subrange(0, i));
    } else {
        assert(ds.subrange(0, i) == ds);
    }
}

proof fn lemma_digit_at(s: Seq<char>, j: int)
    requires
        unsigned_digits(s) is Some,
        0 <= j < s.len(),
        !(j == 0 && s[0] == '+'),
    ensures
        is_digit(s[j]),
{
    let ds = unsigned_digits(s).unwrap();
    assert(all_digits(ds));
    if s.len() > 0 && s[0] == '+' {
        assert(ds == s.drop_first());
        assert(ds[j - 1] == s[j]);
    } else {
        assert(ds == s);
        assert(ds[j] == s[j]);
    }
}

fn digit_str(d: usize) -> (r: &'static str)
    requires
        d < 10,
    ensures
        r@ == seq![digit_char(d as nat)],
{
    proof {
        reveal_strlit("0");
        reveal_strlit("1");
        reveal_strlit("2");
        reveal_strlit("3");
        reveal_strlit("4");
        reveal_strlit("5");
        reveal_strlit("6");
        reveal_strlit("7");
        reveal_strlit("8");
        reveal_strlit("9");
    }
    if d == 0 {
        "0"
    } else if d == 1 {
        "1"
    } else if d == 2 {
        "2"
    } else if d == 3 {
        "3"
    } else if d == 4 {
        "4"
    } else if d == 5 {
        "5"
    } else if d == 6 {
        "6"
    } else if d == 7 {
        "7"
    } else if d == 8 {
        "8"
    } else {
        "9"
    }
}

/// Writes `n` in decimal.
pub fn format_decimal(n: usize) -> (r: String)
    ensures
        r@ == decimal(n as nat),
    decreases n,
{
    if n < 10 {
        digit_str(n).to_owned()
    } else {
        let mut s = format_decimal(n / 10);
        s.append(digit_str(n % 10));
        s
    }
}

/// Reads a counter file's content: a decimal number below `usize::MAX`.
pub fn parse_counter(s: &str) -> (r: Option<usize>)
    ensures
        r is Some <==> counter_of(s@) is Some,
        r is Some ==> r.unwrap() as nat == counter_of(s@).unwrap(),
{
    if !s.is_ascii() {
        proof {
            let i = choose|i: int| 0 <= i < s@.len() && !('\0' <= #[trigger] s@[i] <= '\u{7f}');
            if unsigned_digits(s@) is Some {
                if !(i == 0 && s@[0] == '+') {
                    lemma_digit_at(s@, i);
                    assert(s@[i] as int <= 57);
                    assert('\0' <= s@[i] <= '\u{7f}');
                }
            }
        }
        return None;
    }
    let b = s.as_bytes();
    let ghost cs = s@;
    proof {
        assert forall|j: int| 0 <= j < cs.len() implies (#[trigger] cs[j]) as int == b@[j] as int
            && (cs[j] as int) < 128 by {
            assert(b@[j] == cs[j] as u8);
            assert('\0' <= cs[j] <= '\u{7f}');
        }
    }
    let mut start: usize = 0;
    if b.len() > 0 && b[0] == 43u8 {
        start = 1;
    }
    let ghost ds = cs.subrange(start as int, cs.len() as int);
    proof {
        if b.len() > 0 {
            assert(cs[0] as int == b@[0] as int);
            if b@[0] == 43u8 {
                assert(cs[0] == '+');
            } else {
                assert(cs[0] != '+');
            }
        }
        if start == 1 {
            assert(ds == cs.drop_first());
        } else {
            assert(ds == cs);
            assert(cs.len() > 0 ==> cs[0] != '+');
        }
    }
    if start >= b.len() {
        return None;
    }
    let mut acc: usize = 0;
    let mut i: usize = start;
    while i < b.len()
        invariant
            b@ == s.spec_bytes(),
            b@.len() == cs.len(),
            forall|j: int| 0 <= j < cs.len() ==> (#[trigger] cs[j]) as int == b@[j] as int,
            cs == s@,
            ds == cs.subrange(start as int, cs.len() as int),
            ds == sign_stripped(cs),
            start == 1 <==> (cs.len() > 0 && cs[0] == '+'),
            start <= 1,
            start <= i <= b@.len(),
            forall|j: int| start <= j < i ==> is_digit(#[trigger] cs[j]),
            acc as nat == digits_value(ds.subrange(0, i - start)),
            acc < usize::MAX,
        decreases b@.len() - i,
    {
        let c = b[i];
        if c < 48u8 || c > 57u8 {
            proof {
                if unsigned_digits(cs) is Some {
                    lemma_digit_at(cs, i as int);
                }
            }
            return None;
        }
        let d = (c - 48u8) as usize;
        proof {
            assert(ds.subrange(0, i - start + 1).drop_last() == ds.subrange(0, i - start));
            assert(ds.subrange(0, i - start + 1).last() == cs[i as int]);
        }
        if acc > (usize::MAX - 1 - d) / 10 {
            proof {
                assert(acc * 10 + d >= usize::MAX) by (nonlinear_arith)
                    requires acc > (usize::MAX - 1 - d) / 10, d < 10;
                lemma_digits_value_prefix(ds, i - start + 1);
            }
            return None;
        }
        acc = acc * 10 + d;
        i = i + 1;
    }
    proof {
        assert(ds.subrange(0, ds.len() as int) == ds);
        assert forall|j: int| 0 <= j < ds.len() implies is_digit(#[trigger] ds[j]) by {
            assert(cs[j + start] == ds[j]);
        }
    }
    Some(acc)
}

proof fn lemma_decimal_digits(n: nat)
    ensures
        decimal(n).len() > 0,
        all_digits(decimal(n)),
        digits_value(decimal(n)) == n,
    decreases n,
{
    let d = if n < 10 { n } else { n % 10 };
    assert(digit_value(digit_char(d)) == d && is_digit(digit_char(d)));
    if n < 10 {
        assert(decimal(n).drop_last() =~= Seq::<char>::empty());
        assert(digits_value(decimal(n).drop_last()) == 0);
        assert(decimal(n).last() == digit_char(n));
    } else {
        lemma_decimal_digits(n / 10);
        let ds = decimal(n);
        assert(ds.drop_last() == decimal(n / 10));
        assert(ds.last() == digit_char(n % 10));
        assert(n == (n / 10) * 10 + n % 10);
        assert(digits_value(ds) == digits_value(ds.drop_last()) * 10 + digit_value(ds.last()));
        assert forall|i: int| 0 <= i < ds.len() implies is_digit(#[trigger] ds[i]) by {
            if i < ds.len() - 1 {
                assert(ds[i] == decimal(n / 10)[i]);
            }
        }
    }
}

/// What a counter file holding the decimal text of `n` reads back as.
pub proof fn lemma_counter_round_trip(n: nat)
    requires
        n < usize::MAX,
    ensures
        counter_of(decimal(n)) == Some(n),
{
    lemma_decimal_digits(n);
    let ds = decimal(n);
    assert(is_digit(ds[0]));
    assert(ds[0] != '+');
    assert(sign_stripped(ds) == ds);
}

/// The counter of a run: the explicit one, else the stored one, else 1;
/// `None` where the stored text is not a usable counter.
pub open spec fn chosen_counter(explicit_id: Option<usize>, stored: Option<Seq<char>>) -> Option<nat> {
    match explicit_id {
        Some(id) => Some(id as nat),
        None => match stored {
            None => Some(1),
            Some(t) => counter_of(t),
        },
    }
}

/// The text of a counter file, if there is one.
pub open spec fn stored_text(stored: Option<&str>) -> Option<Seq<char>> {
    match stored {
        Some(t) => Some(t@),
        None => None,
    }
}

/// The name of an instance directory: the prefix, a dash and the counter.
pub open spec fn instance_name(prefix: Seq<char>, counter: nat) -> Seq<char> {
    prefix + seq!['-'] + decimal(counter)
}

/// A fresh output directory: its counter, its name under the target root,
/// and the text to store in the counter file.
pub struct Allocation {
    pub counter: usize,
    pub dir_name: String,
    pub counter_text: String,
}

/// Allocates the next output instance from the counter file's current text
/// (`None` where there is no counter file): the explicit id if given, else
/// the stored counter, else 1. The counter file then holds the successor.
pub fn allocate(prefix: &str, explicit_id: Option<usize>, stored: Option<&str>) -> (r: Result<
    Allocation,
    GenError,
>)
    requires
        explicit_id matches Some(id) ==> id < usize::MAX,
    ensures
        r is Ok <==> chosen_counter(explicit_id, stored_text(stored)) is Some,
        r is Ok ==> {
            let a = r.unwrap();
            let c = chosen_counter(explicit_id, stored_text(stored)).unwrap();
            &&& a.counter as nat == c
            &&& a.dir_name@ == instance_name(prefix@, c)
            &&& a.counter_text@ == decimal(c + 1)
        },
        r is Err ==> (r matches Err(GenError::CorruptCounter { content }) && stored matches Some(t)
            && content@ == t@),
{
    let counter: usize = match explicit_id {
        Some(id) => id,
        None => match stored {
            None => 1,
            Some(t) => match parse_counter(t) {
                Some(c) => c,
                None => {
                    return Err(GenError::CorruptCounter { content: t.to_owned() });
                },
            },
        },
    };
    let mut dir_name = prefix.to_owned();
    proof { reveal_strlit("-"); }
    dir_name.append("-");
    let digits = format_decimal(counter);
    dir_name.append(digits.as_str());
    let counter_text = format_decimal(counter + 1);
    Ok(Allocation { counter, dir_name, counter_text })
}

/// Automatic allocations count up: the first one against a fresh target
/// root takes 1 (and stores the text of 2); one that reads back the text an
/// earlier allocation stored for `n + 1` takes `n + 1` (and stores the text
/// of `n + 2`); an explicit id is taken as it is, whatever is stored.
pub proof fn lemma_allocations_count_up(n: nat, id: usize, stored: Option<Seq<char>>)
    requires
        n + 2 < usize::MAX,
    ensures
        chosen_counter(None, None) == Some(1nat),
        chosen_counter(None, Some(decimal(n + 1))) == Some(n + 1),
        chosen_counter(Some(id), stored) == Some(id as nat),
{
    lemma_counter_round_trip(n + 1);
}

} // verus!
