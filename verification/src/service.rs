use crate::text::push_char;
use vstd::prelude::*;
use vstd::string::StrSliceExecFns;

verus! {

/// The character of a decimal digit `d` (0 to 9).
pub open spec fn digit_char(d: int) -> char {
    (('0' as int) + d) as char
}

/// The decimal digits of a natural number, most significant first, without
/// leading zeros (0 is written `0`).
pub open spec fn decimal_digits(n: nat) -> Seq<char>
    decreases n,
{
    if n < 10 {
        seq![digit_char(n as int)]
    } else {
        decimal_digits(n / 10).push(digit_char((n % 10) as int))
    }
}

/// An integer written in decimal, with a leading `-` when it is negative.
pub open spec fn decimal(n: int) -> Seq<char> {
    if n < 0 {
        seq!['-'] + decimal_digits((-n) as nat)
    } else {
        decimal_digits(n as nat)
    }
}

/// The greeting of a compartment to `name`, naming the process `pid` that
/// serves it.
pub open spec fn greeting(name: Seq<char>, pid: int) -> Seq<char> {
    seq!['H', 'e', 'l', 'l', 'o', ' '] + name + "! The compartment's pid is "@ + decimal(pid)
}

/// Whether `c` is a decimal digit.
pub open spec fn is_digit(c: char) -> bool {
    '0' <= c <= '9'
}

/// The number that a text of decimal digits denotes, most significant digit
/// first.
pub open spec fn digits_value(s: Seq<char>) -> int
    decreases s.len(),
{
    if s.len() == 0 {
        0
    } else {
        digits_value(s.drop_last()) * 10 + ((s.last() as int) - ('0' as int))
    }
}

/// The character of digit `d` is a digit and stands for `d`.
proof fn lemma_digit_char(d: int)
    requires
        0 <= d <= 9,
    ensures
        (digit_char(d) as int) - ('0' as int) == d,
        is_digit(digit_char(d)),
        d > 0 ==> digit_char(d) != '0',
{
    assert(('0' as int) == 48);
    assert(digit_char(d) as int == 48 + d);
}

/// The decimal digits of `n` are digits, at least one, with no leading zero
/// (only 0 itself starts with `0`), and they denote `n`.
pub proof fn lemma_decimal_digits_denote(n: nat)
    ensures
        decimal_digits(n).len() >= 1,
        forall|i: int| 0 <= i < decimal_digits(n).len() ==> is_digit(#[trigger] decimal_digits(n)[i]),
        digits_value(decimal_digits(n)) == n,
        n > 0 ==> decimal_digits(n)[0] != '0',
        n == 0 ==> decimal_digits(n) == seq!['0'],
    decreases n,
{
    let s = decimal_digits(n);
    if n < 10 {
        lemma_digit_char(n as int);
        assert(s.drop_last() =~= Seq::<char>::empty());
        assert(digits_value(s.drop_last()) == 0);
        assert(s.last() == digit_char(n as int));
    } else {
        lemma_digit_char((n % 10) as int);
        assert(n == (n / 10) * 10 + n % 10);
        lemma_decimal_digits_denote(n / 10);
        let t = decimal_digits(n / 10);
        assert(s.drop_last() =~= t);
        assert(s.last() == digit_char((n % 10) as int));
        assert(digits_value(s) == digits_value(t) * 10 + ((s.last() as int) - ('0' as int)));
        assert(s[0] == t[0]);
        assert forall|i: int| 0 <= i < s.len() implies is_digit(#[trigger] s[i]) by {
            if i < t.len() {
                assert(s[i] == t[i]);
            }
        }
    }
}

/// An integer written in decimal reads back as that integer: a negative one
/// is `-` followed by the digits of its magnitude, any other is its digits
/// alone; the digits carry no leading zero.
pub proof fn lemma_decimal_denotes(n: int)
    ensures
        n < 0 ==> decimal(n)[0] == '-' && digits_value(decimal(n).drop_first()) == -n
            && decimal(n).drop_first() == decimal_digits((-n) as nat),
        n >= 0 ==> digits_value(decimal(n)) == n && decimal(n) == decimal_digits(n as nat),
        forall|i: int|
            (if n < 0 { 1int } else { 0int }) <= i < decimal(n).len() ==> is_digit(
                #[trigger] decimal(n)[i],
            ),
        decimal(n).len() >= (if n < 0 { 2int } else { 1int }),
{
    if n < 0 {
        lemma_decimal_digits_denote((-n) as nat);
        let d = decimal_digits((-n) as nat);
        assert(decimal(n).drop_first() =~= d);
        assert forall|i: int| 1 <= i < decimal(n).len() implies is_digit(#[trigger] decimal(n)[i]) by {
            assert(decimal(n)[i] == d[i - 1]);
        }
    } else {
        lemma_decimal_digits_denote(n as nat);
    }
}

/// The greeting is `Hello `, then the whole name, then
/// `! The compartment's pid is `, then the pid in decimal.
pub proof fn lemma_greeting_layout(name: Seq<char>, pid: int)
    ensures
        ({
            let g = greeting(name, pid);
            let k = name.len() as int;
            &&& g.len() == 6 + k + 27 + decimal(pid).len()
            &&& g.subrange(0, 6) == seq!['H', 'e', 'l', 'l', 'o', ' ']
            &&& g.subrange(6, 6 + k) == name
            &&& g.subrange(6 + k, 33 + k) == seq![
                '!', ' ', 'T', 'h', 'e', ' ', 'c', 'o', 'm', 'p', 'a', 'r', 't', 'm', 'e', 'n',
                't', '\'', 's', ' ', 'p', 'i', 'd', ' ', 'i', 's', ' ',
            ]
            &&& g.subrange(33 + k, g.len() as int) == decimal(pid)
        }),
{
    reveal_strlit("! The compartment's pid is ");
    let g = greeting(name, pid);
    let k = name.len() as int;
    assert(g.subrange(0, 6) =~= seq!['H', 'e', 'l', 'l', 'o', ' ']);
    assert(g.subrange(6, 6 + k) =~= name);
    assert(g.subrange(6 + k, 33 + k) =~= seq![
        '!', ' ', 'T', 'h', 'e', ' ', 'c', 'o', 'm', 'p', 'a', 'r', 't', 'm', 'e', 'n',
        't', '\'', 's', ' ', 'p', 'i', 'd', ' ', 'i', 's', ' ',
    ]);
    assert(g.subrange(33 + k, g.len() as int) =~= decimal(pid));
}

/// Writes `n` in decimal at the end of `out`.
pub fn push_decimal(out: &mut String, n: i64)
    ensures
        final(out)@ == old(out)@ + decimal(n as int),
{
    let ghost start = out@;
    let magnitude: u64 = if n < 0 {
        push_char(out, '-');
        (0i128 - (n as i128)) as u64
    } else {
        n as u64
    };
    let ghost sign = if n < 0 { seq!['-'] } else { Seq::<char>::empty() };
    assert(out@ == start + sign);
    let mut digits: Vec<char> = Vec::new();
    let first: char = (('0' as u8) + ((magnitude % 10) as u8)) as char;
    digits.push(first);
    let mut m: u64 = magnitude / 10;
    assert(decimal_digits(magnitude as nat) == (if m > 0 {
        decimal_digits(m as nat)
    } else {
        Seq::<char>::empty()
    }) + digits@);
    while m > 0
        invariant
            decimal_digits(magnitude as nat) == (if m > 0 {
                decimal_digits(m as nat)
            } else {
                Seq::<char>::empty()
            }) + digits@,
        decreases m,
    {
        let c: char = (('0' as u8) + ((m % 10) as u8)) as char;
        digits.insert(0, c);
        m = m / 10;
    }
    let mut k: usize = 0;
    while k < digits.len()
        invariant
            k <= digits@.len(),
            out@ == start + sign + digits@.take(k as int),
            decimal_digits(magnitude as nat) == digits@,
        decreases digits@.len() - k,
    {
        push_char(out, digits[k]);
        assert(digits@.take(k + 1) == digits@.take(k as int).push(digits@[k as int]));
        k = k + 1;
    }
    assert(digits@.take(digits@.len() as int) == digits@);
}

/// The service that a compartment offers.
pub trait SomeCompartment {
    /// Greets `name`; `pid` is the process that serves the compartment.
    fn hello(&self, name: String, pid: i32) -> String;
}

/// The compartment that greets whoever calls it.
#[derive(Clone, Copy, Debug)]
pub struct SomeCompartmentService;

impl SomeCompartment for SomeCompartmentService {
    /// `Hello {name}! The compartment's pid is {pid}`.
    fn hello(&self, name: String, pid: i32) -> (greeting_text: String)
        ensures
            greeting_text@ == greeting(name@, pid as int),
            greeting_text@.subrange(6, 6 + name@.len() as int) == name@,
            greeting_text@.len() == 33 + name@.len() + decimal(pid as int).len(),
    {
        let mut out = String::new();
        push_char(&mut out, 'H');
        push_char(&mut out, 'e');
        push_char(&mut out, 'l');
        push_char(&mut out, 'l');
        push_char(&mut out, 'o');
        push_char(&mut out, ' ');
        let n = name.as_str().unicode_len();
        let mut i: usize = 0;
        while i < n
            invariant
                n == name@.len(),
                i <= n,
                out@ == seq!['H', 'e', 'l', 'l', 'o', ' '] + name@.take(i as int),
            decreases n - i,
        {
            let c = name.as_str().get_char(i);
            push_char(&mut out, c);
            assert(name@.take(i + 1) == name@.take(i as int).push(c));
            i = i + 1;
        }
        assert(name@.take(n as int) == name@);
        let tail = "! The compartment's pid is ";
        proof {
            reveal_strlit("! The compartment's pid is ");
        }
        out.append(tail);
        push_decimal(&mut out, pid as i64);
        proof {
            lemma_greeting_layout(name@, pid as int);
        }
        out
    }
}

} // verus!
