//! Text of log lines and messages: decimal numbers, fields between
//! separators, and the order of strings.

use vstd::arithmetic::power::pow;
use vstd::prelude::*;
use vstd::string::*;

verus! {

/// `String::push` appends one character.
pub assume_specification[ std::string::String::push ](s: &mut std::string::String, ch: char)
    ensures
        final(s)@ == old(s)@.push(ch),
;

/// The decimal digit `d`, for `d` below ten.
pub open spec fn digit_char(d: nat) -> char {
    (d + 48) as char
}

/// `n` in decimal, without leading zeros.
pub open spec fn decimal(n: nat) -> Seq<char>
    decreases n,
{
    if n < 10 {
        seq![digit_char(n)]
    } else {
        decimal(n / 10).push(digit_char(n % 10))
    }
}

/// `n` in decimal, with a minus sign where it is negative.
pub open spec fn signed_decimal(n: int) -> Seq<char> {
    if n < 0 {
        seq!['-'] + decimal((-n) as nat)
    } else {
        decimal(n as nat)
    }
}

fn digit(d: u64) -> (c: char)
    requires
        d < 10,
    ensures
        c == digit_char(d as nat),
{
    match d {
        0 => '0',
        1 => '1',
        2 => '2',
        3 => '3',
        4 => '4',
        5 => '5',
        6 => '6',
        7 => '7',
        8 => '8',
        _ => '9',
    }
}

/// Appends `n` in decimal.
pub fn append_decimal(out: &mut String, n: u64)
    ensures
        final(out)@ == old(out)@ + decimal(n as nat),
    decreases n,
{
    if n >= 10 {
        append_decimal(out, n / 10);
    }
    out.push(digit(n % 10));
    assert(out@ =~= old(out)@ + decimal(n as nat));
}

/// Appends `n` in decimal, with a minus sign where it is negative.
pub fn append_signed_decimal(out: &mut String, n: i32)
    ensures
        final(out)@ == old(out)@ + signed_decimal(n as int),
{
    if n < 0 {
        out.push('-');
        append_decimal(out, (-(n as i64)) as u64);
    } else {
        append_decimal(out, n as u64);
    }
    assert(out@ =~= old(out)@ + signed_decimal(n as int));
}

/// The characters of `s`.
pub fn chars_of(s: &str) -> (r: Vec<char>)
    ensures
        r@ == s@,
{
    let mut out: Vec<char> = Vec::new();
    for c in it: s.chars()
        invariant
            out@ == it.seq().take(it.index()),
            it.seq() == s@,
    {
        out.push(c);
    }
    out
}

/// The string made of `chars[from..to]`.
pub fn string_of(chars: &Vec<char>, from: usize, to: usize) -> (r: String)
    requires
        from <= to <= chars@.len(),
    ensures
        r@ == chars@.subrange(from as int, to as int),
{
    let mut out: String = String::new();
    let mut i: usize = from;
    while i < to
        invariant
            from <= i <= to <= chars@.len(),
            out@ == chars@.subrange(from as int, i as int),
        decreases to - i,
    {
        out.push(chars[i]);
        assert(chars@.subrange(from as int, i + 1) =~= chars@.subrange(from as int, i as int).push(
            chars@[i as int],
        ));
        i = i + 1;
    }
    out
}

/// Whether `c` is a decimal digit.
pub open spec fn is_digit(c: char) -> bool {
    '0' <= c <= '9'
}

/// The number that the decimal digits `s` write, or `None` where a character
/// is no digit.
pub open spec fn digits_value(s: Seq<char>) -> Option<nat>
    decreases s.len(),
{
    if s.len() == 0 {
        Some(0)
    } else if !is_digit(s.last()) {
        None
    } else {
        match digits_value(s.drop_last()) {
            Some(v) => Some((10 * v + (s.last() as int - 48)) as nat),
            None => None,
        }
    }
}

/// The 32-bit integer that `s` writes: an optional sign, then at least one
/// digit, then nothing else. `None` for any other text and out of range.
pub open spec fn parse_i32(s: Seq<char>) -> Option<i32> {
    let negative = s.len() > 0 && s[0] == '-';
    let body = if negative || (s.len() > 0 && s[0] == '+') {
        s.drop_first()
    } else {
        s
    };
    if body.len() == 0 {
        None
    } else {
        match digits_value(body) {
            None => None,
            Some(v) => {
                let x = if negative {
                    -v
                } else {
                    v as int
                };
                if i32::MIN <= x <= i32::MAX {
                    Some(x as i32)
                } else {
                    None
                }
            },
        }
    }
}

/// Once a prefix of at least `bound` has been read, the whole text is no
/// number or at least as large; once a prefix is no number, neither is the
/// whole.
proof fn lemma_digits_prefix(s: Seq<char>, n: int)
    requires
        0 <= n <= s.len(),
    ensures
        digits_value(s.take(n)) is None ==> digits_value(s) is None,
        digits_value(s) matches Some(v) ==> digits_value(s.take(n)) matches Some(u) && u <= v,
    decreases s.len() - n,
{
    if n < s.len() {
        lemma_digits_prefix(s, n + 1);
        assert(s.take(n + 1).drop_last() =~= s.take(n));
    } else {
        assert(s.take(n) =~= s);
    }
}

/// Reads `chars[from..to]` as a 32-bit integer.
pub fn parse_i32_at(chars: &Vec<char>, from: usize, to: usize) -> (r: Option<i32>)
    requires
        from <= to <= chars@.len(),
    ensures
        r == parse_i32(chars@.subrange(from as int, to as int)),
{
    let ghost text = chars@.subrange(from as int, to as int);
    let negative: bool = from < to && chars[from] == '-';
    let signed: bool = negative || (from < to && chars[from] == '+');
    let start: usize = if signed {
        from + 1
    } else {
        from
    };
    let ghost body = chars@.subrange(start as int, to as int);
    assert(body =~= if signed {
        text.drop_first()
    } else {
        text
    });
    if start == to {
        return None;
    }
    let mut value: i64 = 0;
    let mut i: usize = start;
    assert(body.take(0) =~= Seq::<char>::empty());
    while i < to
        invariant
            start <= i <= to <= chars@.len(),
            body == chars@.subrange(start as int, to as int),
            digits_value(body.take(i - start)) == Some(value as nat),
            0 <= value <= 0x8000_0000,
            body.len() > 0,
            negative == (text.len() > 0 && text[0] == '-'),
            signed == (negative || (text.len() > 0 && text[0] == '+')),
            body == if signed {
                text.drop_first()
            } else {
                text
            },
            text == chars@.subrange(from as int, to as int),
        decreases to - i,
    {
        let c: char = chars[i];
        let ghost next = body.take(i - start + 1);
        assert(next.drop_last() =~= body.take(i - start));
        assert(next.last() == c);
        proof {
            lemma_digits_prefix(body, i - start + 1);
        }
        if c < '0' || c > '9' {
            return None;
        }
        value = value * 10 + (c as u32 as i64 - 48);
        if value > 0x8000_0000 {
            return None;
        }
        i = i + 1;
    }
    assert(body.take(to - start) =~= body);
    if negative {
        Some((-value) as i32)
    } else if value <= 0x7fff_ffff {
        Some(value as i32)
    } else {
        None
    }
}

/// The first place at or after `from` where `s` has `sep`, or its length.
pub open spec fn find(s: Seq<char>, sep: char, from: nat) -> nat
    decreases s.len() - from,
{
    if from >= s.len() {
        s.len()
    } else if s[from as int] == sep {
        from
    } else {
        find(s, sep, from + 1)
    }
}

/// The fields of `s` between the separators.
pub open spec fn split(s: Seq<char>, sep: char) -> Seq<Seq<char>>
    decreases s.len(),
{
    let i = find(s, sep, 0);
    if i >= s.len() {
        seq![s]
    } else {
        seq![s.take(i as int)] + split(s.skip(i as int + 1), sep)
    }
}

proof fn lemma_find(s: Seq<char>, sep: char, from: nat)
    requires
        from <= s.len(),
    ensures
        from <= find(s, sep, from) <= s.len(),
        find(s, sep, from) < s.len() ==> s[find(s, sep, from) as int] == sep,
        forall|j: int| from <= j < find(s, sep, from) ==> s[j] != sep,
    decreases s.len() - from,
{
    if from < s.len() && s[from as int] != sep {
        lemma_find(s, sep, from + 1);
    }
}

/// The first field ends at the first separator.
pub proof fn lemma_split_first(a: Seq<char>, sep: char, rest: Seq<char>)
    requires
        !a.contains(sep),
    ensures
        split(a.push(sep) + rest, sep) == seq![a] + split(rest, sep),
{
    let s = a.push(sep) + rest;
    lemma_find(s, sep, 0);
    let i = find(s, sep, 0);
    assert(s[a.len() as int] == sep);
    if i < a.len() {
        assert(a[i as int] == sep);
    }
    assert(s.take(i as int) =~= a);
    assert(s.skip(i as int + 1) =~= rest);
}

fn find_at(chars: &Vec<char>, sep: char, from: usize) -> (r: usize)
    requires
        from <= chars@.len(),
    ensures
        r == find(chars@, sep, from as nat),
        from <= r <= chars@.len(),
{
    let mut i: usize = from;
    proof {
        lemma_find(chars@, sep, from as nat);
    }
    while i < chars.len() && chars[i] != sep
        invariant
            from <= i <= chars@.len(),
            find(chars@, sep, i as nat) == find(chars@, sep, from as nat),
        decreases chars@.len() - i,
    {
        i = i + 1;
    }
    i
}

proof fn lemma_find_skip(s: Seq<char>, sep: char, k: nat, from: nat)
    requires
        k + from <= s.len(),
    ensures
        find(s.skip(k as int), sep, from) + k == find(s, sep, k + from),
    decreases s.len() - k - from,
{
    if k + from < s.len() && s[(k + from) as int] != sep {
        lemma_find_skip(s, sep, k, from + 1);
    }
}

/// Where field number `n` of `chars[from..]` lies, if there are so many.
pub fn field_at(chars: &Vec<char>, from: usize, sep: char, n: usize) -> (r: Option<(usize, usize)>)
    requires
        from <= chars@.len(),
    ensures
        match r {
            Some((a, b)) => {
                &&& from <= a <= b <= chars@.len()
                &&& n < split(chars@.skip(from as int), sep).len()
                &&& split(chars@.skip(from as int), sep)[n as int] == chars@.subrange(
                    a as int,
                    b as int,
                )
            },
            None => split(chars@.skip(from as int), sep).len() <= n,
        },
{
    let ghost all = split(chars@.skip(from as int), sep);
    let mut start: usize = from;
    let mut k: usize = 0;
    while k < n
        invariant
            from <= start <= chars@.len(),
            k <= n,
            all == split(chars@.skip(from as int), sep),
            all.len() == k + split(chars@.skip(start as int), sep).len(),
            all.skip(k as int) == split(chars@.skip(start as int), sep),
        decreases n - k,
    {
        let end: usize = find_at(chars, sep, start);
        proof {
            lemma_find_skip(chars@, sep, start as nat, 0);
        }
        if end == chars.len() {
            return None;
        }
        proof {
            let rest = chars@.skip(start as int);
            assert(rest.skip(end - start + 1) =~= chars@.skip(end + 1));
            assert(all.skip(k + 1) =~= all.skip(k as int).skip(1));
            assert(all.skip(k as int).skip(1) =~= split(chars@.skip(end + 1), sep));
        }
        start = end + 1;
        k = k + 1;
    }
    let end: usize = find_at(chars, sep, start);
    proof {
        lemma_find_skip(chars@, sep, start as nat, 0);
        let rest = chars@.skip(start as int);
        assert(rest.take(end - start) =~= chars@.subrange(start as int, end as int));
        assert(all[n as int] == all.skip(n as int)[0]);
        if end == chars@.len() {
            assert(rest =~= chars@.subrange(start as int, end as int));
        }
    }
    Some((start, end))
}

/// The last place before `to` where `s` has `sep`, or -1.
pub open spec fn rfind(s: Seq<char>, sep: char, to: int) -> int
    decreases to,
{
    if to <= 0 {
        -1
    } else if s[to - 1] == sep {
        to - 1
    } else {
        rfind(s, sep, to - 1)
    }
}

/// Finds the last `sep` of `chars[from..to]`.
pub fn rfind_at(chars: &Vec<char>, sep: char, from: usize, to: usize) -> (r: Option<usize>)
    requires
        from <= to <= chars@.len(),
    ensures
        match r {
            Some(i) => {
                &&& from <= i < to
                &&& rfind(chars@.skip(from as int), sep, to - from) == i - from
            },
            None => rfind(chars@.skip(from as int), sep, to - from) == -1,
        },
{
    let ghost s = chars@.skip(from as int);
    let mut i: usize = to;
    while i > from && chars[i - 1] != sep
        invariant
            from <= i <= to <= chars@.len(),
            s == chars@.skip(from as int),
            rfind(s, sep, i - from) == rfind(s, sep, to - from),
        decreases i,
    {
        assert(s[i - from - 1] == chars@[i - 1]);
        i = i - 1;
    }
    if i > from {
        assert(s[i - from - 1] == chars@[i - 1]);
        Some(i - 1)
    } else {
        None
    }
}

/// The texts in order, with `sep` between neighbours.
pub open spec fn join(parts: Seq<Seq<char>>, sep: Seq<char>) -> Seq<char>
    decreases parts.len(),
{
    if parts.len() == 0 {
        Seq::empty()
    } else if parts.len() == 1 {
        parts[0]
    } else {
        join(parts.drop_last(), sep) + sep + parts.last()
    }
}

/// Appends one more part to a joined text that holds `n` parts so far.
pub(crate) fn join_next(out: &mut String, n: usize, part: &str, sep: &str, Ghost(parts): Ghost<
    Seq<Seq<char>>,
>)
    requires
        parts.len() == n,
        old(out)@ == join(parts, sep@),
    ensures
        final(out)@ == join(parts.push(part@), sep@),
{
    assert(parts.push(part@).drop_last() =~= parts);
    if n > 0 {
        out.append(sep);
    }
    out.append(part);
    if n == 0 {
        assert(out@ =~= part@);
    }
}

/// Whether `a` comes before `b` in lexicographic order.
pub open spec fn chars_less(a: Seq<char>, b: Seq<char>) -> bool
    decreases a.len(),
{
    if b.len() == 0 {
        false
    } else if a.len() == 0 {
        true
    } else {
        a[0] < b[0] || (a[0] == b[0] && chars_less(a.drop_first(), b.drop_first()))
    }
}

/// No text comes before itself.
pub proof fn lemma_chars_less_irreflexive(a: Seq<char>)
    ensures
        !chars_less(a, a),
    decreases a.len(),
{
    if a.len() > 0 {
        lemma_chars_less_irreflexive(a.drop_first());
    }
}

/// The order of texts is transitive.
pub proof fn lemma_chars_less_transitive(a: Seq<char>, b: Seq<char>, c: Seq<char>)
    requires
        chars_less(a, b),
        chars_less(b, c),
    ensures
        chars_less(a, c),
    decreases a.len(),
{
    if a.len() > 0 && a[0] == b[0] && b[0] == c[0] {
        lemma_chars_less_transitive(a.drop_first(), b.drop_first(), c.drop_first());
    }
}

/// Of two different texts one comes before the other.
pub proof fn lemma_chars_less_total(a: Seq<char>, b: Seq<char>)
    ensures
        a == b || chars_less(a, b) || chars_less(b, a),
    decreases a.len(),
{
    if a.len() > 0 && b.len() > 0 {
        lemma_chars_less_total(a.drop_first(), b.drop_first());
        if a[0] == b[0] && a.drop_first() == b.drop_first() {
            assert(a =~= seq![a[0]] + a.drop_first());
            assert(b =~= seq![b[0]] + b.drop_first());
        }
    } else if a.len() == 0 && b.len() == 0 {
        assert(a =~= b);
    }
}

/// Compares two texts: whether `a` comes before `b`, and whether they are the
/// same.
pub fn chars_compare(a: &Vec<char>, b: &Vec<char>) -> (r: (bool, bool))
    ensures
        r.0 == chars_less(a@, b@),
        r.1 == (a@ == b@),
{
    let mut i: usize = 0;
    assert(a@.skip(0) =~= a@);
    assert(b@.skip(0) =~= b@);
    while i < a.len() && i < b.len() && a[i] == b[i]
        invariant
            i <= a@.len(),
            i <= b@.len(),
            chars_less(a@, b@) == chars_less(a@.skip(i as int), b@.skip(i as int)),
            forall|j: int| 0 <= j < i ==> a@[j] == b@[j],
        decreases a@.len() - i,
    {
        assert(a@.skip(i as int).drop_first() =~= a@.skip(i + 1));
        assert(b@.skip(i as int).drop_first() =~= b@.skip(i + 1));
        i = i + 1;
    }
    if i == b.len() {
        if i == a.len() {
            assert(a@ =~= b@);
        }
        (false, i == a.len())
    } else if i == a.len() {
        (true, false)
    } else {
        assert(a@[i as int] != b@[i as int]);
        (a[i] < b[i], false)
    }
}

/// The decimal digits of a number are digits, at least one, and write it.
pub proof fn lemma_decimal(n: nat)
    ensures
        decimal(n).len() > 0,
        forall|i: int| 0 <= i < decimal(n).len() ==> is_digit(#[trigger] decimal(n)[i]),
        digits_value(decimal(n)) == Some(n),
    decreases n,
{
    if n < 10 {
        assert(decimal(n).drop_last() =~= Seq::<char>::empty());
        assert(digits_value(Seq::<char>::empty()) == Some(0nat));
    } else {
        lemma_decimal(n / 10);
        assert(decimal(n).drop_last() =~= decimal(n / 10));
        assert(is_digit(digit_char(n % 10)));
    }
}

/// Reading back what was written in decimal gives the number again.
pub proof fn lemma_parse_signed_decimal(n: i32)
    ensures
        parse_i32(signed_decimal(n as int)) == Some(n),
{
    if n < 0 {
        lemma_decimal((-n) as nat);
        assert(signed_decimal(n as int).drop_first() =~= decimal((-n) as nat));
    } else {
        lemma_decimal(n as nat);
        assert(is_digit(decimal(n as nat)[0]));
    }
}

/// A number in decimal holds none but digits and a minus sign.
pub proof fn lemma_signed_decimal_chars(n: int, c: char)
    requires
        !is_digit(c),
        c != '-',
    ensures
        !signed_decimal(n).contains(c),
        n >= 0 ==> !decimal(n as nat).contains(c),
{
    if n < 0 {
        lemma_decimal((-n) as nat);
    } else {
        lemma_decimal(n as nat);
    }
    assert forall|i: int| 0 <= i < signed_decimal(n).len() implies signed_decimal(n)[i] != c by {
        if n < 0 && i > 0 {
            assert(signed_decimal(n)[i] == decimal((-n) as nat)[i - 1]);
        }
    }
}

/// The digits of a number, from the right: each is what is left of the number
/// after as many divisions by ten. There are no leading zeros.
pub proof fn lemma_decimal_digits(n: nat, i: int)
    requires
        0 <= i < decimal(n).len(),
    ensures
        decimal(n)[decimal(n).len() - 1 - i] as int == 48 + (n as int / pow(10, i as nat)) % 10,
        n < pow(10, decimal(n).len()),
        n > 0 ==> pow(10, (decimal(n).len() - 1) as nat) <= n,
        n == 0 ==> decimal(n).len() == 1,
    decreases n,
{
    reveal(pow);
    let len = decimal(n).len();
    assert(n as int / 1 == n);
    if n < 10 {
        assert(pow(10, 0) == 1);
        assert(n as int / pow(10, 0) == n);
        assert(pow(10, 1) == 10 * pow(10, 0));
    } else {
        let q = n / 10;
        lemma_decimal(q);
        let j = if i > 0 {
            i - 1
        } else {
            0
        };
        lemma_decimal_digits(q, j);
        assert(pow(10, len) == 10 * pow(10, (len - 1) as nat));
        assert(pow(10, (len - 1) as nat) == 10 * pow(10, (len - 2) as nat));
        if i > 0 {
            assert(decimal(n)[len - 1 - i] == decimal(q)[decimal(q).len() - 1 - (i - 1)]);
            vstd::arithmetic::power::lemma_pow_positive(10, (i - 1) as nat);
            vstd::arithmetic::div_mod::lemma_div_denominator(n as int, 10, pow(10, (i - 1) as nat));
            assert(pow(10, i as nat) == 10 * pow(10, (i - 1) as nat));
        } else {
            assert(pow(10, 0) == 1);
            assert(n as int / pow(10, 0) == n);
            assert(decimal(n)[len - 1] as int == 48 + n % 10);
        }
    }
}

/// Different numbers have different texts.
pub proof fn lemma_decimal_injective(a: nat, b: nat)
    ensures
        decimal(a) == decimal(b) ==> a == b,
{
    lemma_decimal(a);
    lemma_decimal(b);
}

/// A minus sign stands in front of negative numbers and of no others; behind it
/// are the digits of the number without its sign.
pub proof fn lemma_signed_decimal(n: int)
    ensures
        signed_decimal(n).len() > 0,
        (signed_decimal(n)[0] == '-') == (n < 0),
        n < 0 ==> signed_decimal(n).drop_first() == decimal((-n) as nat),
        n >= 0 ==> signed_decimal(n) == decimal(n as nat),
{
    if n < 0 {
        assert(signed_decimal(n).drop_first() =~= decimal((-n) as nat));
    } else {
        lemma_decimal(n as nat);
        assert(is_digit(decimal(n as nat)[0]));
    }
}

/// Digits write a number in base ten: no digits write zero, one writes itself,
/// and those in front weigh ten times as much for every digit behind them. A
/// text with any other character writes none.
pub proof fn lemma_digits_value_splits(a: Seq<char>, b: Seq<char>)
    ensures
        digits_value(Seq::<char>::empty()) == Some(0nat),
        a.len() == 1 ==> digits_value(a) == if '0' <= a[0] <= '9' {
            Some((a[0] as int - '0' as int) as nat)
        } else {
            None
        },
        match (digits_value(a), digits_value(b)) {
            (Some(x), Some(y)) => digits_value(a + b) == Some((x * pow(10, b.len()) + y) as nat),
            _ => digits_value(a + b) is None,
        },
    decreases b.len(),
{
    reveal(pow);
    if a.len() == 1 {
        assert(a.drop_last() =~= Seq::<char>::empty());
    }
    vstd::arithmetic::power::lemma_pow_positive(10, b.len());
    if b.len() == 0 {
        assert(a + b =~= a);
        assert(pow(10, 0) == 1);
        if let Some(x) = digits_value(a) {
            assert(x * pow(10, 0) == x) by (nonlinear_arith)
                requires
                    pow(10, 0) == 1,
            ;
        }
    } else {
        let c = b.drop_last();
        lemma_digits_value_splits(a, c);
        assert((a + b).drop_last() =~= a + c);
        assert((a + b).last() == b.last());
        assert(pow(10, b.len()) == 10 * pow(10, c.len()));
        if let (Some(x), Some(y)) = (digits_value(a), digits_value(c)) {
            let p = pow(10, c.len());
            let x = x as int;
            vstd::arithmetic::power::lemma_pow_positive(10, c.len());
            assert(x * p >= 0) by (nonlinear_arith)
                requires
                    x >= 0,
                    p > 0,
            ;
            assert(x * (10 * p) == 10 * (x * p)) by (nonlinear_arith);
        }
    }
}

/// A text writes a 32-bit integer where it is digits with at most one sign in
/// front of them and the number is in range: the digits' number, or its
/// negative behind a minus sign.
pub proof fn lemma_parse_i32(digits: Seq<char>)
    requires
        digits.len() > 0,
        digits[0] != '-',
        digits[0] != '+',
    ensures
        parse_i32(Seq::<char>::empty()) is None,
        parse_i32(seq!['-']) is None,
        parse_i32(seq!['+']) is None,
        match digits_value(digits) {
            Some(v) => {
                &&& parse_i32(digits) == if v <= 0x7fff_ffff {
                    Some(v as i32)
                } else {
                    None
                }
                &&& parse_i32(seq!['+'] + digits) == parse_i32(digits)
                &&& parse_i32(seq!['-'] + digits) == if v <= 0x8000_0000 {
                    Some((-v) as i32)
                } else {
                    None
                }
            },
            None => {
                &&& parse_i32(digits) is None
                &&& parse_i32(seq!['+'] + digits) is None
                &&& parse_i32(seq!['-'] + digits) is None
            },
        },
{
    assert((seq!['+'] + digits).drop_first() =~= digits);
    assert((seq!['-'] + digits).drop_first() =~= digits);
    assert(seq!['-'].drop_first().len() == 0);
    assert(seq!['+'].drop_first().len() == 0);
}

/// The first separator from `from` on: nothing before it is one.
pub proof fn lemma_find_first(s: Seq<char>, sep: char, from: nat, i: int)
    requires
        from <= i <= s.len(),
        i < s.len() ==> s[i] == sep,
        forall|j: int| from <= j < i ==> s[j] != sep,
    ensures
        find(s, sep, from) == i,
{
    lemma_find(s, sep, from);
    let p = find(s, sep, from) as int;
    if p < i {
        assert(s[p] != sep);
    } else if i < p {
        assert(s[i] != sep);
    }
}

/// The last separator before `to`: nothing between them is one.
pub proof fn lemma_rfind_last(s: Seq<char>, sep: char, to: int, i: int)
    requires
        -1 <= i < to <= s.len() || (to == 0 && i == -1),
        i >= 0 ==> s[i] == sep,
        forall|j: int| i < j < to ==> s[j] != sep,
    ensures
        rfind(s, sep, to) == i,
    decreases to,
{
    if to > 0 && i < to - 1 {
        assert(s[to - 1] != sep);
        lemma_rfind_last(s, sep, to - 1, i);
    }
}

/// A joined text holds its parts in order with one separator between
/// neighbours: of no parts it is empty, one part stands alone, and two joined
/// texts have a separator between them.
pub proof fn lemma_join_splits(a: Seq<Seq<char>>, b: Seq<Seq<char>>, sep: Seq<char>)
    ensures
        join(Seq::<Seq<char>>::empty(), sep).len() == 0,
        a.len() == 1 ==> join(a, sep) == a[0],
        a.len() > 0 && b.len() > 0 ==> join(a + b, sep) == join(a, sep) + sep + join(b, sep),
    decreases b.len(),
{
    if a.len() > 0 && b.len() > 0 {
        assert((a + b).drop_last() =~= a + b.drop_last());
        assert((a + b).last() == b.last());
        if b.len() == 1 {
            assert(a + b.drop_last() =~= a);
        } else {
            lemma_join_splits(a, b.drop_last(), sep);
            assert(join(a + b, sep) =~= join(a, sep) + sep + join(b, sep));
        }
    }
}

/// Splitting undoes joining: the fields hold no separator, and joined with it
/// they give the text again.
pub proof fn lemma_split_joins(s: Seq<char>, sep: char)
    ensures
        split(s, sep).len() > 0,
        forall|i: int| 0 <= i < split(s, sep).len() ==> !(#[trigger] split(s, sep)[i]).contains(sep),
        join(split(s, sep), seq![sep]) == s,
    decreases s.len(),
{
    lemma_find(s, sep, 0);
    let i = find(s, sep, 0) as int;
    let fields = split(s, sep);
    if i >= s.len() {
        assert(!s.contains(sep));
        assert(fields[0] == s);
    } else {
        let first = s.take(i);
        let rest = s.skip(i + 1);
        lemma_split_joins(rest, sep);
        assert(!first.contains(sep));
        assert(fields == seq![first] + split(rest, sep));
        lemma_join_splits(seq![first], split(rest, sep), seq![sep]);
        assert(first + seq![sep] + rest =~= s);
        assert forall|j: int| 0 <= j < fields.len() implies !(#[trigger] fields[j]).contains(sep) by {
            if j > 0 {
                assert(fields[j] == split(rest, sep)[j - 1]);
            }
        }
    }
}

/// A text comes before another where, at the first place in which they differ,
/// it has the smaller character or has ended.
pub proof fn lemma_order_of_texts(a: Seq<char>, b: Seq<char>, i: int)
    requires
        0 <= i <= a.len(),
        i <= b.len(),
        forall|j: int| 0 <= j < i ==> a[j] == b[j],
    ensures
        i == a.len() && i < b.len() ==> chars_less(a, b) && !chars_less(b, a),
        i < a.len() && i < b.len() && (a[i] as int) < b[i] as int ==> chars_less(a, b)
            && !chars_less(b, a),
        i == a.len() && i == b.len() ==> !chars_less(a, b) && !chars_less(b, a),
    decreases i,
{
    if i > 0 {
        let x = a.drop_first();
        let y = b.drop_first();
        assert forall|j: int| 0 <= j < i - 1 implies x[j] == y[j] by {
            assert(a[j + 1] == b[j + 1]);
        }
        assert(a[0] == b[0]);
        lemma_order_of_texts(x, y, i - 1);
    }
}

} // verus!
