//! Numbers and lists as they stand in the messages of the protocol.

use vstd::prelude::*;
use vstd::string::*;

verus! {

/// The character for a digit below ten.
pub open spec fn digit(d: nat) -> char
    recommends
        d < 10,
{
    (48 + d) as char
}

/// A number in decimal, without leading zeros.
pub open spec fn decimal(n: nat) -> Seq<char>
    decreases n,
{
    if n < 10 {
        seq![digit(n)]
    } else {
        decimal(n / 10).push(digit(n % 10))
    }
}

pub open spec fn is_digit(c: char) -> bool {
    '0' <= c <= '9'
}

/// The value of a row of decimal digits.
pub open spec fn digits_value(s: Seq<char>) -> nat
    decreases s.len(),
{
    if s.len() == 0 {
        0
    } else {
        (10 * digits_value(s.drop_last()) + (s.last() as nat - 48)) as nat
    }
}

/// The digits of a number that may have a plus sign before it.
pub open spec fn without_plus(s: Seq<char>) -> Seq<char> {
    if s.len() > 0 && s[0] == '+' {
        s.skip(1)
    } else {
        s
    }
}

/// The number that a text stands for: at least one decimal digit and nothing else, but for one plus
/// sign before the digits.
pub open spec fn number(s: Seq<char>) -> Option<nat> {
    let digits = without_plus(s);
    if digits.len() > 0 && forall|i: int| 0 <= i < digits.len() ==> is_digit(digits[i]) {
        Some(digits_value(digits))
    } else {
        None
    }
}

/// The number that a text stands for, where it is not above `max`.
pub open spec fn number_up_to(s: Seq<char>, max: nat) -> Option<nat> {
    match number(s) {
        Some(n) => if n <= max {
            Some(n)
        } else {
            None
        },
        None => None,
    }
}

/// The texts in a row, with `sep` before each that does not stand at the very start of the row.
pub open spec fn joined(texts: Seq<Seq<char>>, sep: Seq<char>) -> Seq<char>
    decreases texts.len(),
{
    if texts.len() == 0 {
        Seq::empty()
    } else {
        let fore = joined(texts.drop_last(), sep);
        if fore.len() == 0 {
            texts.last()
        } else {
            fore + sep + texts.last()
        }
    }
}

/// The first place at or after `from` where a colon stands, or the end of the text.
pub open spec fn colon_from(s: Seq<char>, from: int) -> int
    decreases s.len() - from,
{
    if from < 0 || from >= s.len() || s[from] == ':' {
        from
    } else {
        colon_from(s, from + 1)
    }
}

/// What stands before the first colon, or the whole text.
pub open spec fn first_part(s: Seq<char>) -> Seq<char> {
    s.take(colon_from(s, 0))
}

/// What stands between the first colon and the next, or the end; nothing where there is no colon.
pub open spec fn second_part(s: Seq<char>) -> Option<Seq<char>> {
    let i = colon_from(s, 0);
    if i >= s.len() {
        None
    } else {
        Some(s.subrange(i + 1, colon_from(s, i + 1)))
    }
}

pub open spec fn flag(b: bool) -> Seq<char> {
    if b {
        "true"@
    } else {
        "false"@
    }
}

/// Appends one digit.
fn push_digit(s: &mut String, d: u64)
    requires
        d < 10,
    ensures
        final(s)@ == old(s)@.push(digit(d as nat)),
{
    proof {
        reveal_strlit("0");
        reveal_strlit("1");
        reveal_strlit("2");
        reveal_strlit("3");
        reveal_strlit("4");
        reveal_strlit("5");
        reveal_strlit("6");
        reveal_strlit("7");
        reveal_strlit("8");
        reveal_strlit("9");
    }
    let c = match d {
        0 => "0",
        1 => "1",
        2 => "2",
        3 => "3",
        4 => "4",
        5 => "5",
        6 => "6",
        7 => "7",
        8 => "8",
        _ => "9",
    };
    s.append(c);
    assert(s@ =~= old(s)@.push(digit(d as nat)));
}

/// Appends a number in decimal.
pub fn push_number(s: &mut String, n: u64)
    ensures
        final(s)@ == old(s)@ + decimal(n as nat),
    decreases n,
{
    if n >= 10 {
        push_number(s, n / 10);
    }
    push_digit(s, n % 10);
    assert(s@ =~= old(s)@ + decimal(n as nat));
}

/// A tag with a number behind it.
pub fn tagged_number(tag: &str, n: u64) -> (s: String)
    ensures
        s@ == tag@ + decimal(n as nat),
{
    let mut s = tag.to_string();
    push_number(&mut s, n);
    s
}

/// The characters of a text.
pub fn chars_of(s: &str) -> (v: Vec<char>)
    ensures
        v@ == s@,
{
    let mut v: Vec<char> = Vec::new();
    for c in it: s.chars()
        invariant
            v@ == it.seq().take(it.index() as int),
    {
        v.push(c);
    }
    v
}

/// Reads the number that a text stands for. `None` where it stands for none, or for one above
/// `max`.
pub fn read_number(s: &[char], max: u64) -> (r: Option<u64>)
    ensures
        r matches Some(n) ==> number_up_to(s@, max as nat) == Some(n as nat),
        r is None ==> number_up_to(s@, max as nat) is None,
{
    let start: usize = if s.len() > 0 && s[0] == '+' {
        1
    } else {
        0
    };
    let ghost digits = without_plus(s@);
    if start >= s.len() {
        return None;
    }
    let mut n: u64 = 0;
    let mut i: usize = start;
    while i < s.len()
        invariant
            start <= i <= s.len(),
            digits == without_plus(s@),
            digits =~= s@.skip(start as int),
            forall|j: int| 0 <= j < i - start ==> is_digit(digits[j]),
            n == digits_value(digits.take(i - start)),
            n <= max,
        decreases s.len() - i,
    {
        let c = s[i];
        assert(c == digits[i - start]);
        if c < '0' || c > '9' {
            return None;
        }
        let d: u32 = c as u32 - 48;
        let wide: u128 = n as u128 * 10 + d as u128;
        proof {
            assert(digits.take(i - start + 1).drop_last() =~= digits.take(i - start));
            assert(wide == digits_value(digits.take(i - start + 1)));
        }
        if wide > max as u128 {
            proof {
                lemma_value_grows(digits, i - start + 1);
            }
            return None;
        }
        n = wide as u64;
        i = i + 1;
    }
    proof {
        assert(digits.take(i - start) =~= digits);
    }
    Some(n)
}

/// The value of a row of digits is not below that of its beginning.
proof fn lemma_value_grows(s: Seq<char>, k: int)
    requires
        0 <= k <= s.len(),
        forall|i: int| 0 <= i < k ==> is_digit(s[i]),
    ensures
        (forall|i: int| 0 <= i < s.len() ==> is_digit(s[i])) ==> digits_value(s) >= digits_value(
            s.take(k),
        ),
    decreases s.len() - k,
{
    if k < s.len() {
        if is_digit(s[k]) {
            lemma_value_grows(s, k + 1);
            assert(s.take(k + 1).drop_last() =~= s.take(k));
        }
    } else {
        assert(s.take(k) =~= s);
    }
}

/// Where a colon stands is found in order: none stands between `from` and `colon_from`.
pub proof fn lemma_colon_from(s: Seq<char>, from: int)
    requires
        0 <= from <= s.len(),
    ensures
        from <= colon_from(s, from) <= s.len(),
        colon_from(s, from) < s.len() ==> s[colon_from(s, from)] == ':',
        forall|i: int| from <= i < colon_from(s, from) ==> s[i] != ':',
    decreases s.len() - from,
{
    if from < s.len() && s[from] != ':' {
        lemma_colon_from(s, from + 1);
    }
}

/// The first place at or after `from` where a colon stands, or the end of the text.
pub fn find_colon(s: &[char], from: usize) -> (r: usize)
    requires
        from <= s@.len(),
    ensures
        r == colon_from(s@, from as int),
        from <= r <= s@.len(),
{
    let mut i: usize = from;
    while i < s.len() && s[i] != ':'
        invariant
            from <= i <= s.len(),
            colon_from(s@, i as int) == colon_from(s@, from as int),
        decreases s.len() - i,
    {
        i = i + 1;
    }
    i
}

/// The views of some texts.
pub open spec fn views(texts: Seq<String>) -> Seq<Seq<char>> {
    texts.map_values(|t: String| t@)
}

/// Puts the texts in a row, with `sep` before each that does not stand at the very start of it.
pub fn join(texts: &Vec<String>, sep: &str) -> (r: String)
    ensures
        r@ == joined(views(texts@), sep@),
{
    let mut r = String::new();
    let mut i: usize = 0;
    while i < texts.len()
        invariant
            i <= texts.len(),
            r@ == joined(views(texts@).take(i as int), sep@),
        decreases texts.len() - i,
    {
        proof {
            assert(views(texts@).take(i + 1).drop_last() =~= views(texts@).take(i as int));
        }
        if !r.as_str().is_empty() {
            r.append(sep);
        }
        r.append(texts[i].as_str());
        proof {
            assert(r@ =~= joined(views(texts@).take(i + 1), sep@));
        }
        i = i + 1;
    }
    proof {
        assert(views(texts@).take(i as int) =~= views(texts@));
    }
    r
}

/// A number in decimal is a row of digits of that value.
proof fn lemma_decimal(n: nat)
    ensures
        decimal(n).len() > 0,
        forall|i: int| 0 <= i < decimal(n).len() ==> is_digit(decimal(n)[i]),
        digits_value(decimal(n)) == n,
    decreases n,
{
    reveal_with_fuel(digits_value, 2);
    if n >= 10 {
        lemma_decimal(n / 10);
        assert(decimal(n).drop_last() =~= decimal(n / 10));
    }
}

/// Reading a number gives back what writing it was given.
pub proof fn lemma_number_of_decimal(n: nat)
    ensures
        number(decimal(n)) == Some(n),
{
    lemma_decimal(n);
    assert(is_digit(decimal(n)[0]));
}

/// No colon stands in a number.
pub proof fn lemma_decimal_has_no_colon(n: nat)
    ensures
        forall|i: int| 0 <= i < decimal(n).len() ==> decimal(n)[i] != ':',
{
    lemma_decimal(n);
}

/// Splitting at the colon gives back two parts that were put together with one between them, where
/// no colon stands in them.
pub proof fn lemma_parts(a: Seq<char>, b: Seq<char>)
    requires
        forall|i: int| 0 <= i < a.len() ==> a[i] != ':',
        forall|i: int| 0 <= i < b.len() ==> b[i] != ':',
    ensures
        first_part(a.push(':') + b) == a,
        second_part(a.push(':') + b) == Some(b),
{
    let s = a.push(':') + b;
    lemma_colon_from(s, 0);
    let i = colon_from(s, 0);
    assert(s[a.len() as int] == ':');
    assert(i == a.len()) by {
        if i < a.len() {
            assert(s[i] == a[i]);
        }
    }
    lemma_colon_from(s, i + 1);
    let j = colon_from(s, i + 1);
    assert(j == s.len()) by {
        if j < s.len() {
            assert(s[j] == b[j - i - 1]);
        }
    }
    assert(first_part(s) =~= a);
    assert(s.subrange(i + 1, j) =~= b);
}

/// A number is written as the characters of its decimal digits, the highest first, and begins with
/// zero only if it is zero.
pub proof fn lemma_decimal_digits(n: nat, d: nat)
    requires
        d < 10,
    ensures
        decimal(d) == seq![(48 + d) as char],
        n > 0 ==> decimal(10 * n + d) == decimal(n).push((48 + d) as char),
{
    if n > 0 {
        assert((10 * n + d) / 10 == n);
        assert((10 * n + d) % 10 == d);
    }
}

/// A number is read digit by digit; a character that is no digit makes it none.
pub proof fn lemma_number_grammar(s: Seq<char>, c: char)
    ensures
        number(Seq::<char>::empty()) is None,
        '0' <= c <= '9' ==> number(seq![c]) == Some((c as int - 48) as nat),
        !('0' <= c <= '9') ==> number(seq![c]) is None,
        '0' <= c <= '9' && number(s) is Some ==> number(s.push(c)) == Some(
            (10 * number(s)->0 + (c as int - 48)) as nat,
        ),
        '0' <= c <= '9' && number(s) is None && s.len() > 0 && s != seq!['+'] ==> number(
            s.push(c),
        ) is None,
        !('0' <= c <= '9') && s.len() > 0 ==> number(s.push(c)) is None,
{
    reveal_with_fuel(digits_value, 2);
    let one = seq![c];
    assert(one.drop_last() =~= Seq::<char>::empty());
    if c == '+' {
        assert(one.skip(1) =~= Seq::<char>::empty());
    } else {
        assert(without_plus(one) == one);
        assert(one[0] == c);
    }
    if s.len() > 0 {
        let t = s.push(c);
        let d = without_plus(s);
        let e = without_plus(t);
        assert(t[0] == s[0]);
        assert(e =~= d.push(c));
        assert(e.drop_last() =~= d);
        assert(e[d.len() as int] == c);
        if number(s) is Some && '0' <= c <= '9' {
            assert forall|i: int| 0 <= i < e.len() implies is_digit(e[i]) by {
                if i < d.len() {
                    assert(e[i] == d[i]);
                }
            }
        }
        if number(s) is None && s != seq!['+'] {
            if d.len() == 0 {
                assert(s =~= seq!['+']);
            } else {
                let i = choose|i: int| 0 <= i < d.len() && !is_digit(d[i]);
                assert(e[i] == d[i]);
            }
        }
    }
}

/// One plus sign may stand before a number.
pub proof fn lemma_plus(s: Seq<char>)
    requires
        s.len() > 0,
        s[0] != '+',
    ensures
        number(seq!['+'] + s) == number(s),
{
    let t = seq!['+'] + s;
    assert(t[0] == '+');
    assert(t.skip(1) =~= s);
}

/// A number is taken up to its limit, and not beyond it.
pub proof fn lemma_numbers_up_to(s: Seq<char>, max: nat)
    ensures
        number(s) is Some && number(s)->0 <= max ==> number_up_to(s, max) == number(s),
        number(s) is Some && number(s)->0 > max ==> number_up_to(s, max) is None,
        number(s) is None ==> number_up_to(s, max) is None,
{
}

/// What stands before the first colon and between it and the next is found, whatever follows.
pub proof fn lemma_more_parts(a: Seq<char>, b: Seq<char>, rest: Seq<char>)
    requires
        forall|i: int| 0 <= i < a.len() ==> a[i] != ':',
        forall|i: int| 0 <= i < b.len() ==> b[i] != ':',
    ensures
        first_part(a.push(':') + b.push(':') + rest) == a,
        second_part(a.push(':') + b.push(':') + rest) == Some(b),
{
    let s = a.push(':') + b.push(':') + rest;
    lemma_colon_from(s, 0);
    let i = colon_from(s, 0);
    assert(s[a.len() as int] == ':');
    assert(i == a.len()) by {
        if i < a.len() {
            assert(s[i] == a[i]);
        }
    }
    lemma_colon_from(s, i + 1);
    let j = colon_from(s, i + 1);
    assert(s[i + 1 + b.len()] == ':');
    assert(j == i + 1 + b.len()) by {
        if j < i + 1 + b.len() {
            assert(s[j] == b[j - i - 1]);
        }
    }
    assert(first_part(s) =~= a);
    assert(s.subrange(i + 1, j) =~= b);
}

/// A text without a colon is its own first part, and has no second.
pub proof fn lemma_one_part(s: Seq<char>)
    requires
        forall|i: int| 0 <= i < s.len() ==> s[i] != ':',
    ensures
        first_part(s) == s,
        second_part(s) is None,
{
    lemma_colon_from(s, 0);
    assert(first_part(s) =~= s);
}

/// A list begins with its first text. Each further one comes after a separator, but nothing comes
/// before a text at the very start.
pub proof fn lemma_list_grows(texts: Seq<Seq<char>>, text: Seq<char>, sep: Seq<char>)
    ensures
        joined(Seq::<Seq<char>>::empty(), sep) == Seq::<char>::empty(),
        joined(seq![text], sep) == text,
        joined(texts, sep).len() > 0 ==> joined(texts.push(text), sep) == joined(texts, sep) + sep
            + text,
        joined(texts, sep).len() == 0 ==> joined(texts.push(text), sep) == text,
{
    reveal_with_fuel(joined, 2);
    assert(seq![text].drop_last() =~= Seq::<Seq<char>>::empty());
    assert(texts.push(text).drop_last() =~= texts);
}

/// Two lists, joined with a separator between them, are the list of both.
pub proof fn lemma_lists_follow(a: Seq<Seq<char>>, b: Seq<Seq<char>>, sep: Seq<char>)
    requires
        joined(a, sep).len() > 0,
        b.len() > 0,
        b[0].len() > 0,
    ensures
        joined(a + b, sep) == joined(a, sep) + sep + joined(b, sep),
        joined(b, sep).len() > 0,
    decreases b.len(),
{
    let fore = b.drop_last();
    assert((a + b).drop_last() =~= a + fore);
    assert((a + b).last() == b.last());
    if fore.len() == 0 {
        assert(a + fore =~= a);
        assert(b[0] == b.last());
        assert(joined(fore, sep).len() == 0);
    } else {
        assert(fore[0] == b[0]);
        lemma_lists_follow(a, fore, sep);
        assert(joined(a + b, sep) =~= joined(a, sep) + sep + joined(b, sep));
    }
}

} // verus!
