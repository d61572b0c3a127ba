//! The amount codec: an amount token is taken apart into an integer
//! mantissa, a number of decimal places and a currency symbol with its
//! side, and written back in one canonical form.

use vstd::prelude::*;
use crate::text::{is_digit, is_ascii_digit, to_chars, from_chars, to_string, push_range};
use crate::types::{FormatError, ErrorView};

verus! {

/// A currency symbol and the side of the number it stands on.
#[derive(Debug, Clone, PartialEq, Eq)]
pub struct Currency {
    pub symbol: String,
    /// Whether the symbol stands before the number.
    pub prepend: bool,
}

/// An amount: `mantissa / 10^precision`, in `currency` if there is one.
#[derive(Debug, Clone, PartialEq, Eq)]
pub struct Amount {
    pub mantissa: i64,
    /// The number of digits to the right of the decimal point.
    pub precision: usize,
    pub currency: Option<Currency>,
}

/// A currency as the contracts speak of it.
#[verifier::ext_equal]
pub struct CurrencyView {
    pub symbol: Seq<char>,
    pub prepend: bool,
}

/// An amount as the contracts speak of it: the mantissa is any integer
/// and the precision any natural number.
#[verifier::ext_equal]
pub struct AmountView {
    pub mantissa: int,
    pub precision: nat,
    pub currency: Option<CurrencyView>,
}

impl View for Currency {
    type V = CurrencyView;

    open spec fn view(&self) -> CurrencyView {
        CurrencyView { symbol: self.symbol@, prepend: self.prepend }
    }
}

impl View for Amount {
    type V = AmountView;

    open spec fn view(&self) -> AmountView {
        AmountView {
            mantissa: self.mantissa as int,
            precision: self.precision as nat,
            currency: match self.currency {
                Some(c) => Some(c@),
                None => None,
            },
        }
    }
}

/// The three classes that the characters of an amount token fall into.
#[derive(Clone, Copy, PartialEq, Eq, Structural)]
pub enum CharClass {
    /// A digit, `-`, `.` or `,`.
    Number,
    /// The space character.
    Space,
    /// Anything else: part of a currency symbol.
    Symbol,
}

/// The characters that numbers are written with.
pub open spec fn is_number_char(c: char) -> bool {
    is_digit(c) || c == '-' || c == '.' || c == ','
}

/// The class of a character.
pub open spec fn class_of(c: char) -> CharClass {
    if is_number_char(c) {
        CharClass::Number
    } else if c == ' ' {
        CharClass::Space
    } else {
        CharClass::Symbol
    }
}

/// The first position at or after `from` that holds a character of class
/// `cls`; `t.len()` if there is none.
pub open spec fn find_class(t: Seq<char>, from: int, cls: CharClass) -> int
    decreases t.len() - from,
{
    if from < 0 || from >= t.len() {
        t.len() as int
    } else if class_of(t[from]) == cls {
        from
    } else {
        find_class(t, from + 1, cls)
    }
}

/// The first position at or after `from` that holds no character of class
/// `cls`: the end of the run that begins at `from`.
pub open spec fn run_end(t: Seq<char>, from: int, cls: CharClass) -> int
    decreases t.len() - from,
{
    if 0 <= from < t.len() && class_of(t[from]) == cls {
        run_end(t, from + 1, cls)
    } else {
        from
    }
}

/// `s` without its commas.
pub open spec fn without_commas(s: Seq<char>) -> Seq<char>
    decreases s.len(),
{
    if s.len() == 0 {
        s
    } else if s.last() == ',' {
        without_commas(s.drop_last())
    } else {
        without_commas(s.drop_last()).push(s.last())
    }
}

/// The position of the last `.` in `s`, or -1.
pub open spec fn last_dot(s: Seq<char>) -> int
    decreases s.len(),
{
    if s.len() == 0 {
        -1
    } else if s.last() == '.' {
        s.len() - 1
    } else {
        last_dot(s.drop_last())
    }
}

/// A text of decimal digits only.
pub open spec fn all_digits(s: Seq<char>) -> bool {
    forall|i: int| 0 <= i < s.len() ==> is_digit(#[trigger] s[i])
}

/// The number that a decimal digit denotes.
pub open spec fn digit_of(c: char) -> int {
    c as int - '0' as int
}

/// The number that a string of decimal digits denotes.
pub open spec fn decimal_value(s: Seq<char>) -> int
    decreases s.len(),
{
    if s.len() == 0 {
        0
    } else {
        decimal_value(s.drop_last()) * 10 + digit_of(s.last())
    }
}

/// A signed integer: an optional `-`, then one digit at least, and a value
/// that a 64-bit signed integer holds.
pub open spec fn parse_integer(b: Seq<char>) -> Option<int> {
    let neg = b.len() > 0 && b[0] == '-';
    let ds = if neg {
        b.skip(1)
    } else {
        b
    };
    let v = decimal_value(ds);
    let m = if neg {
        -v
    } else {
        v
    };
    if ds.len() > 0 && all_digits(ds) && i64::MIN <= m <= i64::MAX {
        Some(m)
    } else {
        None
    }
}

/// Mantissa and precision of a numeric run. Commas are dropped; the digits
/// behind the last `.` count as decimal places; what is left once that
/// point is taken out has to be a signed integer.
pub open spec fn parse_number(run: Seq<char>) -> Option<(int, nat)> {
    let d = without_commas(run);
    let dot = last_dot(d);
    let body = if dot < 0 {
        d
    } else {
        d.take(dot) + d.skip(dot + 1)
    };
    let precision = if dot < 0 {
        0nat
    } else {
        (d.len() - 1 - dot) as nat
    };
    match parse_integer(body) {
        Some(m) => Some((m, precision)),
        None => None,
    }
}

/// The amount that a token denotes, if it denotes one.
///
/// The token holds one numeric run (a maximal run of number characters)
/// and at most one currency run (a maximal run of characters that are
/// neither number characters nor spaces), in either order, with spaces
/// anywhere between and around them. The currency is prepended if its run
/// begins before the numeric run.
pub open spec fn parse_amount_spec(t: Seq<char>) -> Option<AmountView> {
    let ns = find_class(t, 0, CharClass::Number);
    let ne = run_end(t, ns, CharClass::Number);
    let ss = find_class(t, 0, CharClass::Symbol);
    let se = run_end(t, ss, CharClass::Symbol);
    if ns < t.len() && find_class(t, ne, CharClass::Number) == t.len() && find_class(
        t,
        se,
        CharClass::Symbol,
    ) == t.len() {
        match parse_number(t.subrange(ns, ne)) {
            Some((m, p)) => Some(
                AmountView {
                    mantissa: m,
                    precision: p,
                    currency: if ss < t.len() {
                        Some(CurrencyView { symbol: t.subrange(ss, se), prepend: ss < ns })
                    } else {
                        None
                    },
                },
            ),
            None => None,
        }
    } else {
        None
    }
}

/// The decimal digit that denotes `d`.
pub open spec fn digit_char(d: int) -> char {
    (d + '0' as int) as char
}

/// The decimal digits of `n`, without leading zeros.
pub open spec fn decimal_digits(n: nat) -> Seq<char>
    decreases n,
{
    if n < 10 {
        seq![digit_char(n as int)]
    } else {
        decimal_digits(n / 10).push(digit_char((n % 10) as int))
    }
}

/// `n` zeros.
pub open spec fn zeros(n: nat) -> Seq<char> {
    Seq::new(n, |i: int| '0')
}

/// The digits of `n`, with zeros in front until there are more than `p`.
pub open spec fn padded_digits(n: nat, p: nat) -> Seq<char> {
    let d = decimal_digits(n);
    if d.len() > p {
        d
    } else {
        zeros((p + 1 - d.len()) as nat) + d
    }
}

/// The absolute value of `m`.
pub open spec fn magnitude(m: int) -> nat {
    if m < 0 {
        (-m) as nat
    } else {
        m as nat
    }
}

/// `mantissa / 10^p` in decimal notation: a `-` if it is negative, one
/// digit at least before the point, exactly `p` behind it, and no point if
/// `p` is zero.
pub open spec fn render_number(m: int, p: nat) -> Seq<char> {
    let ds = padded_digits(magnitude(m), p);
    let k = ds.len() - p;
    let sign = if m < 0 {
        seq!['-']
    } else {
        Seq::empty()
    };
    if p == 0 {
        sign + ds
    } else {
        sign + ds.take(k) + seq!['.'] + ds.skip(k)
    }
}

/// An amount in its canonical form. A prepended symbol is set off from a
/// number that is not negative by one space, and stands directly before
/// the sign of a negative one; an appended symbol follows the number
/// directly.
pub open spec fn render_amount_spec(a: AmountView) -> Seq<char> {
    let num = render_number(a.mantissa, a.precision);
    match a.currency {
        None => num,
        Some(c) => if c.prepend {
            if a.mantissa < 0 {
                c.symbol + num
            } else {
                c.symbol + seq![' '] + num
            }
        } else {
            num + c.symbol
        },
    }
}

impl AmountView {
    /// The amounts that the codec produces: the mantissa fits 64 bits, and
    /// a currency symbol is a non-empty run of symbol characters.
    pub open spec fn wf(self) -> bool {
        &&& i64::MIN <= self.mantissa <= i64::MAX
        &&& self.currency matches Some(c) ==> {
            &&& c.symbol.len() > 0
            &&& forall|i: int|
                0 <= i < c.symbol.len() ==> class_of(#[trigger] c.symbol[i]) == CharClass::Symbol
        }
    }
}

impl Amount {
    /// The amount is one that the codec produces.
    pub open spec fn wf(&self) -> bool {
        self@.wf()
    }
}

// ---------------------------------------------------------------------
// Facts about the scanning functions
// ---------------------------------------------------------------------
/// `find_class` is the first position of the class: a position of the
/// class, or the end, with no position of the class before it.
pub proof fn lemma_find_class_is(t: Seq<char>, from: int, cls: CharClass, k: int)
    requires
        0 <= from <= k <= t.len(),
        forall|i: int| from <= i < k ==> class_of(#[trigger] t[i]) != cls,
        k < t.len() ==> class_of(t[k]) == cls,
    ensures
        find_class(t, from, cls) == k,
    decreases k - from,
{
    if from < k {
        assert(class_of(t[from]) != cls);
        lemma_find_class_is(t, from + 1, cls, k);
    }
}

/// `run_end` is the end of the run: a position that is not of the class,
/// or the end, with positions of the class only before it.
pub proof fn lemma_run_end_is(t: Seq<char>, from: int, cls: CharClass, k: int)
    requires
        0 <= from <= k <= t.len(),
        forall|i: int| from <= i < k ==> class_of(#[trigger] t[i]) == cls,
        k < t.len() ==> class_of(t[k]) != cls,
    ensures
        run_end(t, from, cls) == k,
    decreases k - from,
{
    if from < k {
        assert(class_of(t[from]) == cls);
        lemma_run_end_is(t, from + 1, cls, k);
    }
}

/// What holds of `find_class`.
pub proof fn lemma_find_class_props(t: Seq<char>, from: int, cls: CharClass)
    requires
        0 <= from <= t.len(),
    ensures
        from <= find_class(t, from, cls) <= t.len(),
        forall|i: int| from <= i < find_class(t, from, cls) ==> class_of(#[trigger] t[i]) != cls,
        find_class(t, from, cls) < t.len() ==> class_of(t[find_class(t, from, cls)]) == cls,
    decreases t.len() - from,
{
    if from < t.len() && class_of(t[from]) != cls {
        lemma_find_class_props(t, from + 1, cls);
    }
}

/// What holds of `run_end`.
pub proof fn lemma_run_end_props(t: Seq<char>, from: int, cls: CharClass)
    requires
        0 <= from <= t.len(),
    ensures
        from <= run_end(t, from, cls) <= t.len(),
        forall|i: int| from <= i < run_end(t, from, cls) ==> class_of(#[trigger] t[i]) == cls,
        run_end(t, from, cls) < t.len() ==> class_of(t[run_end(t, from, cls)]) != cls,
    decreases t.len() - from,
{
    if from < t.len() && class_of(t[from]) == cls {
        lemma_run_end_props(t, from + 1, cls);
    }
}

/// Dropping commas, character by character.
pub proof fn lemma_without_commas_push(s: Seq<char>, c: char)
    ensures
        without_commas(s.push(c)) == if c == ',' {
            without_commas(s)
        } else {
            without_commas(s).push(c)
        },
{
    assert(s.push(c).drop_last() =~= s);
}

/// What is left without commas holds no comma, and only characters of
/// the text; a text without commas is left as it is.
pub proof fn lemma_without_commas_props(s: Seq<char>)
    ensures
        without_commas(s).len() <= s.len(),
        forall|i: int|
            0 <= i < without_commas(s).len() ==> (#[trigger] without_commas(s)[i]) != ',',
        (forall|i: int| 0 <= i < s.len() ==> #[trigger] s[i] != ',') ==> without_commas(s) == s,
        forall|i: int|
            0 <= i < without_commas(s).len() ==> s.contains(#[trigger] without_commas(s)[i]),
    decreases s.len(),
{
    if s.len() > 0 {
        let t = s.drop_last();
        lemma_without_commas_props(t);
        if forall|i: int| 0 <= i < s.len() ==> #[trigger] s[i] != ',' {
            assert forall|i: int| 0 <= i < t.len() implies #[trigger] t[i] != ',' by {
                assert(t[i] == s[i]);
            }
            assert(without_commas(s) =~= s);
        }
        assert forall|i: int| 0 <= i < without_commas(s).len() implies s.contains(
            #[trigger] without_commas(s)[i],
        ) by {
            let c = without_commas(s)[i];
            if i < without_commas(t).len() {
                assert(t.contains(without_commas(t)[i]));
                let j = choose|j: int| 0 <= j < t.len() && t[j] == c;
                assert(s[j] == c);
            } else {
                assert(s[s.len() - 1] == c);
            }
        }
    }
}

/// What holds of `last_dot`.
pub proof fn lemma_last_dot_props(s: Seq<char>)
    ensures
        -1 <= last_dot(s) < s.len(),
        last_dot(s) >= 0 ==> s[last_dot(s)] == '.',
        forall|i: int| last_dot(s) < i < s.len() ==> #[trigger] s[i] != '.',
    decreases s.len(),
{
    if s.len() > 0 && s.last() != '.' {
        let t = s.drop_last();
        lemma_last_dot_props(t);
        assert forall|i: int| last_dot(s) < i < s.len() implies #[trigger] s[i] != '.' by {
            if i < t.len() {
                assert(t[i] == s[i]);
            }
        }
    }
}

/// `last_dot` is the position of a point with no point behind it, if
/// there is one.
pub proof fn lemma_last_dot_is(s: Seq<char>, k: int)
    requires
        -1 <= k < s.len(),
        k >= 0 ==> s[k] == '.',
        forall|i: int| k < i < s.len() ==> #[trigger] s[i] != '.',
    ensures
        last_dot(s) == k,
{
    lemma_last_dot_props(s);
    let d = last_dot(s);
    if d < k {
        assert(s[k] != '.');
    } else if k < d {
        assert(s[d] != '.');
    }
}

/// The value of a digit string, digit by digit.
pub proof fn lemma_decimal_value_push(s: Seq<char>, c: char)
    ensures
        decimal_value(s.push(c)) == decimal_value(s) * 10 + digit_of(c),
{
    assert(s.push(c).drop_last() =~= s);
}

/// A string of digits denotes no negative number.
pub proof fn lemma_decimal_value_nonneg(s: Seq<char>)
    requires
        all_digits(s),
    ensures
        decimal_value(s) >= 0,
    decreases s.len(),
{
    if s.len() > 0 {
        let t = s.drop_last();
        assert forall|i: int| 0 <= i < t.len() implies is_digit(#[trigger] t[i]) by {
            assert(t[i] == s[i]);
        }
        lemma_decimal_value_nonneg(t);
        assert(is_digit(s[s.len() - 1]));
    }
}

/// Reading more digits never gives a smaller number.
pub proof fn lemma_decimal_value_prefix(s: Seq<char>, k: int)
    requires
        all_digits(s),
        0 <= k <= s.len(),
    ensures
        0 <= decimal_value(s.take(k)) <= decimal_value(s),
    decreases s.len() - k,
{
    assert forall|i: int| 0 <= i < s.take(k).len() implies is_digit(#[trigger] s.take(k)[i]) by {
        assert(s.take(k)[i] == s[i]);
    }
    lemma_decimal_value_nonneg(s.take(k));
    if k == s.len() {
        assert(s.take(k) =~= s);
    } else {
        lemma_decimal_value_prefix(s, k + 1);
        assert(s.take(k + 1).drop_last() =~= s.take(k));
        assert(is_digit(s[k]));
        assert(s.take(k + 1).last() == s[k]);
    }
}

/// Leading zeros do not change the value.
pub proof fn lemma_decimal_value_zeros(n: nat, s: Seq<char>)
    ensures
        decimal_value(zeros(n) + s) == decimal_value(s),
    decreases s.len(),
{
    if s.len() == 0 {
        assert(zeros(n) + s =~= zeros(n));
        lemma_decimal_value_all_zeros(n);
    } else {
        lemma_decimal_value_zeros(n, s.drop_last());
        assert((zeros(n) + s).drop_last() =~= zeros(n) + s.drop_last());
        assert((zeros(n) + s).last() == s.last());
    }
}

/// Zeros denote zero.
pub proof fn lemma_decimal_value_all_zeros(n: nat)
    ensures
        decimal_value(zeros(n)) == 0,
    decreases n,
{
    if n > 0 {
        lemma_decimal_value_all_zeros((n - 1) as nat);
        assert(zeros(n).drop_last() =~= zeros((n - 1) as nat));
        assert(zeros(n).last() == '0');
    }
}

/// The digits of a number are digits, and denote that number.
pub proof fn lemma_decimal_digits_props(n: nat)
    ensures
        decimal_digits(n).len() > 0,
        all_digits(decimal_digits(n)),
        decimal_value(decimal_digits(n)) == n,
    decreases n,
{
    if n < 10 {
        let s = seq![digit_char(n as int)];
        assert(s.drop_last() =~= Seq::<char>::empty());
        assert(decimal_value(s.drop_last()) == 0);
        assert(s.last() == digit_char(n as int));
        assert(digit_of(digit_char(n as int)) == n);
        assert(is_digit(s[0]));
    } else {
        let q = n / 10;
        let r = n % 10;
        lemma_decimal_digits_props(q);
        lemma_decimal_value_push(decimal_digits(q), digit_char(r as int));
        assert(digit_of(digit_char(r as int)) == r);
        assert(is_digit(digit_char(r as int)));
        assert forall|i: int| 0 <= i < decimal_digits(n).len() implies is_digit(
            #[trigger] decimal_digits(n)[i],
        ) by {
            if i < decimal_digits(q).len() {
                assert(decimal_digits(n)[i] == decimal_digits(q)[i]);
            }
        }
    }
}

/// The padded digits of a number are more than `p` digits, and denote
/// that number.
pub proof fn lemma_padded_digits_props(n: nat, p: nat)
    ensures
        padded_digits(n, p).len() > p,
        all_digits(padded_digits(n, p)),
        decimal_value(padded_digits(n, p)) == n,
{
    lemma_decimal_digits_props(n);
    let d = decimal_digits(n);
    if d.len() <= p {
        let z = (p + 1 - d.len()) as nat;
        lemma_decimal_value_zeros(z, d);
        assert forall|i: int| 0 <= i < (zeros(z) + d).len() implies is_digit(
            #[trigger] (zeros(z) + d)[i],
        ) by {
            if i >= z {
                assert((zeros(z) + d)[i] == d[i - z]);
            }
        }
    }
}

// ---------------------------------------------------------------------
// Executable codec
// ---------------------------------------------------------------------
/// Whether `c` is a character that numbers are written with.
pub fn is_number_component(c: char) -> (b: bool)
    ensures
        b == is_number_char(c),
{
    is_ascii_digit(c) || c == '-' || c == '.' || c == ','
}

/// Whether `c` is of the class `cls`.
fn class_matches(c: char, cls: CharClass) -> (b: bool)
    ensures
        b == (class_of(c) == cls),
{
    let number = is_number_component(c);
    match cls {
        CharClass::Number => number,
        CharClass::Space => !number && c == ' ',
        CharClass::Symbol => !number && c != ' ',
    }
}

/// The first position at or after `from` that is of the class `cls`.
fn scan_to(t: &Vec<char>, from: usize, cls: CharClass) -> (k: usize)
    requires
        from <= t.len(),
    ensures
        from <= k <= t.len(),
        k == find_class(t@, from as int, cls),
{
    let mut k: usize = from;
    while k < t.len() && !class_matches(t[k], cls)
        invariant
            from <= k <= t.len(),
            forall|i: int| from <= i < k ==> class_of(#[trigger] t@[i]) != cls,
        decreases t.len() - k,
    {
        k += 1;
    }
    proof {
        lemma_find_class_is(t@, from as int, cls, k as int);
    }
    k
}

/// The end of the run of the class `cls` that begins at `from`.
fn scan_run(t: &Vec<char>, from: usize, cls: CharClass) -> (k: usize)
    requires
        from <= t.len(),
    ensures
        from <= k <= t.len(),
        k == run_end(t@, from as int, cls),
{
    let mut k: usize = from;
    while k < t.len() && class_matches(t[k], cls)
        invariant
            from <= k <= t.len(),
            forall|i: int| from <= i < k ==> class_of(#[trigger] t@[i]) == cls,
        decreases t.len() - k,
    {
        k += 1;
    }
    proof {
        lemma_run_end_is(t@, from as int, cls, k as int);
    }
    k
}

/// The number that a decimal digit denotes.
fn digit_value(c: char) -> (d: u64)
    requires
        is_digit(c),
    ensures
        d as int == digit_of(c),
        d <= 9,
{
    ((c as u32) - ('0' as u32)) as u64
}

/// Reads a signed integer.
fn read_integer(b: &Vec<char>) -> (r: Option<i64>)
    ensures
        match parse_integer(b@) {
            Some(m) => r == Some(m as i64) && m == r.unwrap() as int,
            None => r is None,
        },
{
    let neg = b.len() > 0 && b[0] == '-';
    let start: usize = if neg {
        1
    } else {
        0
    };
    let ghost ds = if neg {
        b@.skip(1)
    } else {
        b@
    };
    proof {
        assert(b@.skip(0) =~= b@);
        assert(ds =~= b@.skip(start as int));
    }
    if start == b.len() {
        return None;
    }
    let limit: u64 = if neg {
        0x8000_0000_0000_0000
    } else {
        0x7fff_ffff_ffff_ffff
    };
    let mut acc: u64 = 0;
    let mut i: usize = start;
    while i < b.len()
        invariant
            start <= i <= b.len(),
            neg == (b.len() > 0 && b@[0] == '-'),
            ds == (if neg {
                b@.skip(1)
            } else {
                b@
            }),
            ds == b@.skip(start as int),
            limit == (if neg {
                0x8000_0000_0000_0000u64
            } else {
                0x7fff_ffff_ffff_ffffu64
            }),
            all_digits(ds.take(i - start)),
            acc as int == decimal_value(ds.take(i - start)),
            acc <= limit,
            limit >= 0x7fff_ffff_ffff_ffff,
        decreases b.len() - i,
    {
        let c = b[i];
        assert(ds[i - start] == c);
        if !is_ascii_digit(c) {
            assert(!is_digit(ds[i - start]));
            return None;
        }
        let d = digit_value(c);
        proof {
            assert(ds.take(i - start + 1) =~= ds.take(i - start).push(c));
            lemma_decimal_value_push(ds.take(i - start), c);
            assert forall|j: int| 0 <= j < i - start + 1 implies is_digit(
                #[trigger] ds.take(i - start + 1)[j],
            ) by {
                if j < i - start {
                    assert(ds.take(i - start + 1)[j] == ds.take(i - start)[j]);
                }
            }
        }
        if acc > (limit - d) / 10 {
            proof {
                if all_digits(ds) {
                    lemma_decimal_value_prefix(ds, i - start + 1);
                }
            }
            return None;
        }
        acc = acc * 10 + d;
        i += 1;
    }
    proof {
        assert(ds.take(ds.len() as int) =~= ds);
    }
    if neg {
        if acc == 0x8000_0000_0000_0000 {
            Some(i64::MIN)
        } else {
            Some(-(acc as i64))
        }
    } else {
        Some(acc as i64)
    }
}

/// Reads the numeric run `t[lo..hi]`: its mantissa and its precision.
fn read_number(t: &Vec<char>, lo: usize, hi: usize) -> (r: Option<(i64, usize)>)
    requires
        lo <= hi <= t.len(),
    ensures
        match parse_number(t@.subrange(lo as int, hi as int)) {
            Some((m, p)) => r == Some((m as i64, p as usize)) && r.unwrap().0 == m && r.unwrap().1
                == p,
            None => r is None,
        },
{
    let ghost run = t@.subrange(lo as int, hi as int);
    let mut d: Vec<char> = Vec::new();
    let mut i: usize = lo;
    while i < hi
        invariant
            lo <= i <= hi <= t.len(),
            run == t@.subrange(lo as int, hi as int),
            d@ == without_commas(run.take(i - lo)),
            d.len() <= i - lo,
        decreases hi - i,
    {
        proof {
            assert(run.take(i - lo + 1) =~= run.take(i - lo).push(t@[i as int]));
            lemma_without_commas_push(run.take(i - lo), t@[i as int]);
        }
        if t[i] != ',' {
            d.push(t[i]);
        }
        i += 1;
    }
    assert(run.take(run.len() as int) =~= run);
    let mut dot: usize = d.len();
    while dot > 0 && d[dot - 1] != '.'
        invariant
            dot <= d.len(),
            forall|j: int| dot <= j < d.len() ==> #[trigger] d@[j] != '.',
        decreases dot,
    {
        dot -= 1;
    }
    proof {
        lemma_last_dot_is(d@, dot as int - 1);
    }
    let mut body: Vec<char> = Vec::new();
    let precision: usize;
    if dot == 0 {
        push_range(&mut body, &d, 0, d.len());
        precision = 0;
        assert(body@ =~= d@);
    } else {
        push_range(&mut body, &d, 0, dot - 1);
        push_range(&mut body, &d, dot, d.len());
        precision = d.len() - dot;
        assert(body@ =~= d@.take(dot - 1) + d@.skip(dot as int));
    }
    match read_integer(&body) {
        Some(m) => Some((m, precision)),
        None => None,
    }
}

/// Reads an amount token.
fn parse_chars(t: &Vec<char>) -> (r: Option<Amount>)
    ensures
        match parse_amount_spec(t@) {
            Some(a) => r is Some && r.unwrap()@ == a,
            None => r is None,
        },
{
    let ns = scan_to(t, 0, CharClass::Number);
    let ne = scan_run(t, ns, CharClass::Number);
    let ss = scan_to(t, 0, CharClass::Symbol);
    let se = scan_run(t, ss, CharClass::Symbol);
    if ns == t.len() {
        return None;
    }
    if scan_to(t, ne, CharClass::Number) != t.len() {
        return None;
    }
    if scan_to(t, se, CharClass::Symbol) != t.len() {
        return None;
    }
    match read_number(t, ns, ne) {
        None => None,
        Some((m, p)) => {
            let currency = if ss < t.len() {
                Some(Currency { symbol: to_string(t, ss, se), prepend: ss < ns })
            } else {
                None
            };
            Some(Amount { mantissa: m, precision: p, currency })
        },
    }
}

/// Reads an amount token.
///
/// Fails, with the token in the error, exactly when the token denotes no
/// amount: when it holds no numeric run, a second numeric or currency run,
/// or a numeric run that is no decimal number within 64 bits.
pub fn parse_amount(token: &str) -> (r: Result<Amount, FormatError>)
    ensures
        match parse_amount_spec(token@) {
            Some(a) => r is Ok && r.unwrap()@ == a && r.unwrap().wf(),
            None => r is Err && r.unwrap_err()@ == ErrorView::AmountParseError(token@),
        },
{
    let t = to_chars(token);
    match parse_chars(&t) {
        Some(a) => {
            proof {
                lemma_parse_wf(token@);
            }
            Ok(a)
        },
        None => Err(FormatError::AmountParseError(from_chars(&t))),
    }
}

/// The decimal digit that denotes `d`.
fn digit_to_char(d: u64) -> (c: char)
    requires
        d <= 9,
    ensures
        c == digit_char(d as int),
{
    let n: u8 = 48 + (d as u8);
    n as char
}

/// The absolute value of `mantissa`.
fn magnitude_of(mantissa: i64) -> (mag: u64)
    ensures
        mag as nat == magnitude(mantissa as int),
{
    if mantissa < 0 {
        if mantissa == i64::MIN {
            0x8000_0000_0000_0000
        } else {
            (-mantissa) as u64
        }
    } else {
        mantissa as u64
    }
}

/// The decimal digits of `n`, lowest first.
fn digits_lowest_first(n: u64) -> (rev: Vec<char>)
    ensures
        rev@.reverse() == decimal_digits(n as nat),
{
    let mut rev: Vec<char> = Vec::new();
    let mut rem: u64 = n;
    assert(decimal_digits(rem as nat) + rev@.reverse() =~= decimal_digits(rem as nat));
    while rem >= 10
        invariant
            decimal_digits(n as nat) == decimal_digits(rem as nat) + rev@.reverse(),
        decreases rem,
    {
        let c = digit_to_char(rem % 10);
        proof {
            let q = (rem / 10) as nat;
            assert(decimal_digits(rem as nat) == decimal_digits(q).push(c));
            assert(rev@.push(c).reverse() =~= seq![c] + rev@.reverse());
            assert(decimal_digits(q).push(c) + rev@.reverse() =~= decimal_digits(q) + (seq![c]
                + rev@.reverse()));
        }
        rev.push(c);
        rem = rem / 10;
    }
    let c = digit_to_char(rem);
    proof {
        assert(decimal_digits(rem as nat) == seq![c]);
        assert(rev@.push(c).reverse() =~= seq![c] + rev@.reverse());
    }
    rev.push(c);
    rev
}

/// The digits of `n`, highest first, with zeros in front until there are
/// more than `precision`.
fn digits_padded(n: u64, precision: usize) -> (ds: Vec<char>)
    ensures
        ds@ == padded_digits(n as nat, precision as nat),
        ds.len() > precision,
{
    let rev = digits_lowest_first(n);
    let ghost d = decimal_digits(n as nat);
    proof {
        lemma_decimal_digits_props(n as nat);
    }
    let mut ds: Vec<char> = Vec::new();
    if rev.len() <= precision {
        let z: usize = precision - rev.len() + 1;
        let mut j: usize = 0;
        assert(ds@ =~= zeros(0));
        while j < z
            invariant
                j <= z,
                ds@ == zeros(j as nat),
            decreases z - j,
        {
            ds.push('0');
            j += 1;
            assert(ds@ =~= zeros(j as nat));
        }
    }
    let ghost front = ds@;
    let mut i: usize = rev.len();
    assert(d.take(0) =~= Seq::<char>::empty());
    assert(ds@ =~= front + d.take(0));
    while i > 0
        invariant
            i <= rev.len(),
            rev@.reverse() == d,
            ds@ == front + d.take(rev.len() - i),
        decreases i,
    {
        i -= 1;
        proof {
            let k = rev.len() - 1 - i;
            assert(d[k] == rev@[i as int]);
            assert(d.take(k + 1) =~= d.take(k).push(d[k]));
            assert(front + d.take(k + 1) =~= (front + d.take(k)).push(d[k]));
        }
        ds.push(rev[i]);
    }
    assert(d.take(rev.len() as int) =~= d);
    assert(Seq::<char>::empty() + d =~= d);
    ds
}

/// Appends the canonical form of `mantissa / 10^precision` to `out`.
fn push_number(out: &mut Vec<char>, mantissa: i64, precision: usize)
    ensures
        final(out)@ == old(out)@ + render_number(mantissa as int, precision as nat),
{
    let ds = digits_padded(magnitude_of(mantissa), precision);
    let ghost sign = if mantissa < 0 {
        seq!['-']
    } else {
        Seq::<char>::empty()
    };
    if mantissa < 0 {
        out.push('-');
    }
    assert(out@ =~= old(out)@ + sign);
    let k = ds.len() - precision;
    if precision == 0 {
        push_range(out, &ds, 0, k);
        assert(ds@.subrange(0, k as int) =~= ds@);
        assert(out@ =~= old(out)@ + (sign + ds@));
    } else {
        push_range(out, &ds, 0, k);
        out.push('.');
        push_range(out, &ds, k, ds.len());
        proof {
            assert(ds@.subrange(0, k as int) =~= ds@.take(k as int));
            assert(ds@.subrange(k as int, ds@.len() as int) =~= ds@.skip(k as int));
            assert(out@ =~= old(out)@ + (sign + ds@.take(k as int) + seq!['.'] + ds@.skip(
                k as int,
            )));
        }
    }
}

/// Appends the canonical form of an amount to `out`.
pub(crate) fn push_amount(out: &mut Vec<char>, a: &Amount)
    ensures
        final(out)@ == old(out)@ + render_amount_spec(a@),
{
    let ghost num = render_number(a.mantissa as int, a.precision as nat);
    match &a.currency {
        None => {
            push_number(out, a.mantissa, a.precision);
        },
        Some(c) => {
            if c.prepend {
                crate::text::push_str(out, c.symbol.as_str());
                if a.mantissa >= 0 {
                    out.push(' ');
                }
                push_number(out, a.mantissa, a.precision);
                proof {
                    if a.mantissa >= 0 {
                        assert(out@ =~= old(out)@ + (c.symbol@ + seq![' '] + num));
                    } else {
                        assert(out@ =~= old(out)@ + (c.symbol@ + num));
                    }
                }
            } else {
                push_number(out, a.mantissa, a.precision);
                crate::text::push_str(out, c.symbol.as_str());
                assert(out@ =~= old(out)@ + (num + c.symbol@));
            }
        },
    }
}

/// Writes an amount in its canonical form. A well-formed amount, such as
/// the parser returns, reads back from what is written as itself.
pub fn render_amount(a: &Amount) -> (s: String)
    ensures
        s@ == render_amount_spec(a@),
        a.wf() ==> parse_amount_spec(s@) == Some(a@),
{
    let mut out: Vec<char> = Vec::new();
    push_amount(&mut out, a);
    proof {
        assert(Seq::<char>::empty() + render_amount_spec(a@) =~= render_amount_spec(a@));
        if a.wf() {
            lemma_parse_render_roundtrip(a@);
        }
    }
    from_chars(&out)
}

/// The canonical form of the amount that a token denotes: the token read
/// and written back. Fails as `parse_amount` does. The canonical form
/// denotes the same amount as the token, and is its own canonical form.
pub fn format_amount(token: &str) -> (r: Result<String, FormatError>)
    ensures
        match parse_amount_spec(token@) {
            Some(a) => r is Ok && r.unwrap()@ == render_amount_spec(a) && parse_amount_spec(
                r.unwrap()@,
            ) == Some(a),
            None => r is Err && r.unwrap_err()@ == ErrorView::AmountParseError(token@),
        },
{
    match parse_amount(token) {
        Ok(a) => Ok(render_amount(&a)),
        Err(e) => Err(e),
    }
}

// ---------------------------------------------------------------------
// What the codec guarantees
// ---------------------------------------------------------------------
/// Whatever the parser returns is well formed.
pub proof fn lemma_parse_wf(t: Seq<char>)
    ensures
        parse_amount_spec(t) matches Some(a) ==> a.wf(),
{
    if let Some(a) = parse_amount_spec(t) {
        let ss = find_class(t, 0, CharClass::Symbol);
        let se = run_end(t, ss, CharClass::Symbol);
        lemma_find_class_props(t, 0, CharClass::Symbol);
        lemma_run_end_props(t, ss, CharClass::Symbol);
        if ss < t.len() {
            let sym = t.subrange(ss, se);
            assert(se > ss);
            assert forall|i: int| 0 <= i < sym.len() implies class_of(#[trigger] sym[i])
                == CharClass::Symbol by {
                assert(sym[i] == t[ss + i]);
            }
        }
    }
}

/// What a rendered number looks like: number characters only, no comma, a
/// leading `-` exactly when it is negative; and it reads back as what was
/// written.
pub proof fn lemma_render_number_props(m: int, p: nat)
    requires
        i64::MIN <= m <= i64::MAX,
    ensures
        render_number(m, p).len() > 0,
        forall|i: int|
            0 <= i < render_number(m, p).len() ==> class_of(#[trigger] render_number(m, p)[i])
                == CharClass::Number,
        forall|i: int|
            0 <= i < render_number(m, p).len() ==> (#[trigger] render_number(m, p)[i]) != ',',
        (render_number(m, p)[0] == '-') == (m < 0),
        parse_number(render_number(m, p)) == Some((m, p)),
{
    let r = render_number(m, p);
    let ds = padded_digits(magnitude(m), p);
    lemma_padded_digits_props(magnitude(m), p);
    let k = ds.len() - p;
    let sign = if m < 0 {
        seq!['-']
    } else {
        Seq::<char>::empty()
    };
    let s = sign.len() as int;
    assert forall|i: int| 0 <= i < r.len() implies class_of(#[trigger] r[i]) == CharClass::Number
        && r[i] != ',' && (i != s + k || p == 0 ==> r[i] != '.') && (i == s + k && p > 0 ==> r[i]
        == '.') by {
        if i < s {
        } else if p == 0 {
            assert(r[i] == ds[i - s]);
            assert(is_digit(ds[i - s]));
        } else if i < s + k {
            assert(r[i] == ds[i - s]);
            assert(is_digit(ds[i - s]));
        } else if i == s + k {
            assert(r[i] == '.');
        } else {
            assert(r[i] == ds[i - s - 1]);
            assert(is_digit(ds[i - s - 1]));
        }
    }
    assert(is_digit(ds[0]));
    if m < 0 {
        assert(r[0] == '-');
    } else {
        assert(r[0] == ds[0]);
    }
    lemma_without_commas_props(r);
    assert(without_commas(r) == r);
    let body = sign + ds;
    if p == 0 {
        assert forall|i: int| -1 < i < r.len() implies #[trigger] r[i] != '.' by {
            if i >= s {
                assert(r[i] == ds[i - s]);
                assert(is_digit(ds[i - s]));
            }
        }
        lemma_last_dot_is(r, -1);
        assert(r =~= body);
    } else {
        lemma_last_dot_is(r, s + k);
        assert(r.take(s + k) + r.skip(s + k + 1) =~= body);
    }
    if m < 0 {
        assert(body[0] == '-');
        assert(body.skip(1) =~= ds);
    } else {
        assert(body =~= ds);
    }
    assert(parse_integer(body) == Some(m));
}

/// Round trip: an amount that is well formed, as every amount that the
/// parser returns is, reads back from its canonical form as itself.
pub proof fn lemma_parse_render_roundtrip(a: AmountView)
    requires
        a.wf(),
    ensures
        parse_amount_spec(render_amount_spec(a)) == Some(a),
{
    let num = render_number(a.mantissa, a.precision);
    lemma_render_number_props(a.mantissa, a.precision);
    let t = render_amount_spec(a);
    let n = num.len() as int;
    let number = CharClass::Number;
    let symbol = CharClass::Symbol;
    match a.currency {
        None => {
            lemma_find_class_is(t, 0, number, 0);
            lemma_run_end_is(t, 0, number, n);
            lemma_find_class_is(t, 0, symbol, n);
            assert(t.subrange(0, n) =~= num);
        },
        Some(c) => {
            let l = c.symbol.len() as int;
            if c.prepend {
                let gap: int = if a.mantissa < 0 {
                    0
                } else {
                    1
                };
                assert(t.len() == l + gap + n);
                assert forall|i: int| 0 <= i < t.len() implies class_of(#[trigger] t[i]) == (if i
                    < l {
                    symbol
                } else if i < l + gap {
                    CharClass::Space
                } else {
                    number
                }) by {
                    if i < l {
                        assert(t[i] == c.symbol[i]);
                    } else if i < l + gap {
                        assert(t[i] == ' ');
                    } else {
                        assert(t[i] == num[i - l - gap]);
                    }
                }
                lemma_find_class_is(t, 0, number, l + gap);
                lemma_run_end_is(t, l + gap, number, t.len() as int);
                lemma_find_class_is(t, 0, symbol, 0);
                lemma_run_end_is(t, 0, symbol, l);
                lemma_find_class_is(t, l, symbol, t.len() as int);
                assert(t.subrange(l + gap, t.len() as int) =~= num);
                assert(t.subrange(0, l) =~= c.symbol);
            } else {
                assert(t.len() == n + l);
                assert forall|i: int| 0 <= i < t.len() implies class_of(#[trigger] t[i]) == (if i
                    < n {
                    number
                } else {
                    symbol
                }) by {
                    if i < n {
                        assert(t[i] == num[i]);
                    } else {
                        assert(t[i] == c.symbol[i - n]);
                    }
                }
                lemma_find_class_is(t, 0, number, 0);
                lemma_run_end_is(t, 0, number, n);
                lemma_find_class_is(t, n, number, t.len() as int);
                lemma_find_class_is(t, 0, symbol, n);
                lemma_run_end_is(t, n, symbol, t.len() as int);
                assert(t.subrange(0, n) =~= num);
                assert(t.subrange(n, t.len() as int) =~= c.symbol);
            }
        },
    }
    let r = parse_amount_spec(t);
    assert(r is Some);
    assert(r.unwrap() =~= a);
}

} // verus!
