//! Text helpers: splitting on a separator, joining, and decimal numbers.

use vstd::prelude::*;

verus! {

/// The pieces of `s` between occurrences of `sep`: always at least one piece,
/// and an empty piece wherever two separators touch or one stands at an end.
pub open spec fn split_on(s: Seq<char>, sep: char) -> Seq<Seq<char>>
    decreases s.len(),
{
    if s.len() == 0 {
        seq![Seq::empty()]
    } else {
        let head = split_on(s.drop_last(), sep);
        if s.last() == sep {
            head.push(Seq::empty())
        } else {
            head.drop_last().push(head.last().push(s.last()))
        }
    }
}

/// The views of a sequence of strings.
pub open spec fn views(v: Seq<String>) -> Seq<Seq<char>> {
    Seq::new(v.len(), |i: int| v[i]@)
}

/// `String::push`: appends one character.
#[verifier::external_body]
pub(crate) fn push_char(s: &mut String, c: char)
    ensures
        final(s)@ == old(s)@.push(c),
{
    s.push(c)
}

/// A split gives at least one piece.
pub proof fn lemma_split_nonempty(s: Seq<char>, sep: char)
    ensures
        split_on(s, sep).len() >= 1,
    decreases s.len(),
{
    if s.len() > 0 {
        lemma_split_nonempty(s.drop_last(), sep);
    }
}

/// Splits `s` on every `sep`.
pub fn split(s: &str, sep: char) -> (parts: Vec<String>)
    ensures
        views(parts@) == split_on(s@, sep),
{
    let mut parts: Vec<String> = Vec::new();
    let mut current = String::new();
    let n = s.unicode_len();
    let mut i: usize = 0;
    while i < n
        invariant
            n == s@.len(),
            i <= n,
            views(parts@).push(current@) == split_on(s@.take(i as int), sep),
        decreases n - i,
    {
        let c = s.get_char(i);
        proof {
            let before = s@.take(i as int);
            let after = s@.take(i + 1);
            assert(after.drop_last() == before);
            assert(after.last() == c);
            lemma_split_nonempty(before, sep);
        }
        if c == sep {
            let ghost old_parts = parts@;
            parts.push(current);
            current = String::new();
            assert(views(parts@) == views(old_parts).push(parts@.last()@));
        } else {
            push_char(&mut current, c);
            assert(views(parts@).push(current@).drop_last() == views(parts@));
        }
        i += 1;
    }
    assert(s@.take(n as int) == s@);
    let ghost old_parts = parts@;
    parts.push(current);
    assert(views(parts@) == views(old_parts).push(parts@.last()@));
    parts
}

/// The pieces joined into one text, with `sep` between neighbours.
pub open spec fn join(parts: Seq<Seq<char>>, sep: char) -> Seq<char>
    decreases parts.len(),
{
    if parts.len() == 0 {
        Seq::empty()
    } else if parts.len() == 1 {
        parts[0]
    } else {
        join(parts.drop_last(), sep) + seq![sep] + parts.last()
    }
}

/// Joining what a split gave restores the text.
pub proof fn lemma_join_split(s: Seq<char>, sep: char)
    ensures
        join(split_on(s, sep), sep) == s,
    decreases s.len(),
{
    if s.len() == 0 {
        assert(split_on(s, sep)[0] =~= s);
    } else {
        let front = s.drop_last();
        let head = split_on(front, sep);
        lemma_join_split(front, sep);
        lemma_split_nonempty(front, sep);
        if s.last() == sep {
            let whole = head.push(Seq::empty());
            assert(whole.drop_last() =~= head);
            assert(join(whole, sep) =~= s);
        } else {
            let whole = head.drop_last().push(head.last().push(s.last()));
            assert(whole.drop_last() =~= head.drop_last());
            assert(whole.last() == head.last().push(s.last()));
            if head.len() == 1 {
                assert(join(whole, sep) =~= s);
            } else {
                assert(join(head, sep) == join(head.drop_last(), sep) + seq![sep] + head.last());
                assert(join(whole, sep) == join(head.drop_last(), sep) + seq![sep] + whole.last());
                assert(s =~= front.push(s.last()));
                assert(join(whole, sep) =~= front.push(s.last()));
            }
        }
    }
}

/// Splitting a text that was joined from pieces without `sep` in them
/// restores the pieces.
pub proof fn lemma_split_join(parts: Seq<Seq<char>>, sep: char)
    requires
        parts.len() >= 1,
        forall|i: int| 0 <= i < parts.len() ==> !parts[i].contains(sep),
    ensures
        split_on(join(parts, sep), sep) == parts,
    decreases parts.len(),
{
    if parts.len() == 1 {
        lemma_split_piece(Seq::empty(), parts[0], sep);
        assert(Seq::<char>::empty() + parts[0] =~= parts[0]);
        assert(seq![Seq::<char>::empty()].drop_last().push(Seq::<char>::empty() + parts[0]) =~= parts);
    } else {
        let front = parts.drop_last();
        lemma_split_join(front, sep);
        let joined = join(front, sep) + seq![sep];
        assert(joined.drop_last() =~= join(front, sep));
        assert(split_on(joined, sep) == front.push(Seq::empty()));
        lemma_split_piece(joined, parts.last(), sep);
        assert(Seq::<char>::empty() + parts.last() =~= parts.last());
        assert(front.push(Seq::empty()).drop_last().push(parts.last()) =~= parts);
    }
}

/// A piece without `sep` that follows a text lengthens the last piece of
/// the text's split.
pub proof fn lemma_split_piece(s: Seq<char>, piece: Seq<char>, sep: char)
    requires
        !piece.contains(sep),
    ensures
        split_on(s + piece, sep) == split_on(s, sep).drop_last().push(
            split_on(s, sep).last() + piece,
        ),
    decreases piece.len(),
{
    lemma_split_nonempty(s, sep);
    let head = split_on(s, sep);
    if piece.len() == 0 {
        assert(s + piece =~= s);
        assert(head.last() + piece =~= head.last());
        assert(head.drop_last().push(head.last()) =~= head);
    } else {
        let front = piece.drop_last();
        assert(piece[piece.len() - 1] == piece.last());
        assert(piece.last() != sep);
        assert forall|c: char| front.contains(c) implies piece.contains(c) by {
            let i = choose|i: int| 0 <= i < front.len() && front[i] == c;
            assert(piece[i] == c);
        }
        lemma_split_piece(s, front, sep);
        assert((s + piece).drop_last() =~= s + front);
        assert((s + piece).last() == piece.last());
        let before = head.drop_last().push(head.last() + front);
        assert(before.drop_last() =~= head.drop_last());
        assert((head.last() + front).push(piece.last()) =~= head.last() + piece);
    }
}

/// `str::eq`: whether two texts hold the same characters.
#[verifier::external_body]
pub(crate) fn same_text(a: &str, b: &str) -> (r: bool)
    ensures
        r == (a@ == b@),
{
    a == b
}

/// A copy of each string, in order.
pub fn clone_strings(v: &Vec<String>) -> (r: Vec<String>)
    ensures
        r@ == v@,
{
    let mut r: Vec<String> = Vec::new();
    let mut i: usize = 0;
    while i < v.len()
        invariant
            i <= v.len(),
            r@ == v@.take(i as int),
        decreases v.len() - i,
    {
        r.push(v[i].clone());
        assert(r@ =~= v@.take(i + 1));
        i += 1;
    }
    assert(v@.take(v.len() as int) =~= v@);
    r
}

/// The character that stands for a decimal digit.
pub open spec fn digit_char(d: int) -> char {
    if d == 0 {
        '0'
    } else if d == 1 {
        '1'
    } else if d == 2 {
        '2'
    } else if d == 3 {
        '3'
    } else if d == 4 {
        '4'
    } else if d == 5 {
        '5'
    } else if d == 6 {
        '6'
    } else if d == 7 {
        '7'
    } else if d == 8 {
        '8'
    } else {
        '9'
    }
}

/// The decimal digits of a natural number, without leading zeros.
pub open spec fn decimal_nat(n: nat) -> Seq<char>
    decreases n,
{
    if n < 10 {
        seq![digit_char(n as int)]
    } else {
        decimal_nat(n / 10).push(digit_char((n % 10) as int))
    }
}

/// The decimal form of an integer: a minus sign for a negative number, then
/// the digits of its magnitude.
pub open spec fn decimal(n: int) -> Seq<char> {
    if n < 0 {
        seq!['-'] + decimal_nat((-n) as nat)
    } else {
        decimal_nat(n as nat)
    }
}

/// The decimal form of an integer, filled with a zero on the left up to a
/// width of two characters.
pub open spec fn decimal_padded(n: int) -> Seq<char> {
    if 0 <= n < 10 {
        seq!['0'] + decimal(n)
    } else {
        decimal(n)
    }
}

/// Whether a character is a decimal digit.
pub open spec fn is_digit(c: char) -> bool {
    '0' <= c <= '9'
}

/// The digits of a natural number are digits.
pub proof fn lemma_decimal_nat_digits(n: nat)
    ensures
        forall|i: int| 0 <= i < decimal_nat(n).len() ==> is_digit(#[trigger] decimal_nat(n)[i]),
    decreases n,
{
    let digits = decimal_nat(n);
    if n >= 10 {
        lemma_decimal_nat_digits(n / 10);
        let front = decimal_nat(n / 10);
        assert forall|i: int| 0 <= i < digits.len() implies is_digit(#[trigger] digits[i]) by {
            if i < front.len() {
                assert(digits[i] == front[i]);
            } else {
                assert(digits[i] == digit_char((n % 10) as int));
            }
        }
    } else {
        assert(digits =~= seq![digit_char(n as int)]);
        assert forall|i: int| 0 <= i < digits.len() implies is_digit(#[trigger] digits[i]) by {
            assert(digits[i] == digit_char(n as int));
        }
    }
}

/// The decimal form of an integer holds digits and, at most, a minus sign.
pub proof fn lemma_decimal_chars(n: int)
    ensures
        decimal(n).len() >= 1,
        forall|i: int|
            0 <= i < decimal(n).len() ==> is_digit(#[trigger] decimal(n)[i]) || decimal(n)[i]
                == '-',
        decimal_padded(n).len() >= 1,
        forall|i: int|
            0 <= i < decimal_padded(n).len() ==> is_digit(#[trigger] decimal_padded(n)[i])
                || decimal_padded(n)[i] == '-',
{
    if n < 0 {
        lemma_decimal_nat_digits((-n) as nat);
        lemma_decimal_nat_len((-n) as nat);
    } else {
        lemma_decimal_nat_digits(n as nat);
        lemma_decimal_nat_len(n as nat);
    }
}

/// Two natural numbers with the same digits are the same number.
pub proof fn lemma_decimal_nat_injective(a: nat, b: nat)
    requires
        decimal_nat(a) == decimal_nat(b),
    ensures
        a == b,
    decreases a,
{
    if a >= 10 {
        lemma_decimal_nat_len(a / 10);
        assert(decimal_nat(a).len() >= 2);
    } else {
        assert(decimal_nat(a) =~= seq![digit_char(a as int)]);
    }
    if b >= 10 {
        lemma_decimal_nat_len(b / 10);
        assert(decimal_nat(b).len() >= 2);
    } else {
        assert(decimal_nat(b) =~= seq![digit_char(b as int)]);
    }
    if a < 10 {
        assert(seq![digit_char(a as int)][0] == seq![digit_char(b as int)][0]);
    } else {
        let da = decimal_nat(a / 10);
        let db = decimal_nat(b / 10);
        let ca = digit_char((a % 10) as int);
        let cb = digit_char((b % 10) as int);
        assert(decimal_nat(a) == da.push(ca));
        assert(decimal_nat(b) == db.push(cb));
        assert(da.push(ca).last() == ca);
        assert(db.push(cb).last() == cb);
        assert(da.push(ca).drop_last() =~= da);
        assert(db.push(cb).drop_last() =~= db);
        lemma_decimal_nat_injective(a / 10, b / 10);
        assert(a % 10 == b % 10);
        assert(a == 10 * (a / 10) + a % 10);
        assert(b == 10 * (b / 10) + b % 10);
    }
}

/// A natural number has at least one digit.
pub proof fn lemma_decimal_nat_len(n: nat)
    ensures
        decimal_nat(n).len() >= 1,
    decreases n,
{
    if n >= 10 {
        lemma_decimal_nat_len(n / 10);
    }
}

fn digit(d: u64) -> (c: char)
    requires
        d < 10,
    ensures
        c == digit_char(d as int),
{
    if d == 0 {
        '0'
    } else if d == 1 {
        '1'
    } else if d == 2 {
        '2'
    } else if d == 3 {
        '3'
    } else if d == 4 {
        '4'
    } else if d == 5 {
        '5'
    } else if d == 6 {
        '6'
    } else if d == 7 {
        '7'
    } else if d == 8 {
        '8'
    } else {
        '9'
    }
}

/// Appends the decimal digits of `n` to `s`.
pub fn push_decimal_nat(s: &mut String, n: u64)
    ensures
        final(s)@ == old(s)@ + decimal_nat(n as nat),
    decreases n,
{
    if n >= 10 {
        push_decimal_nat(s, n / 10);
    }
    push_char(s, digit(n % 10));
    assert(final(s)@ =~= old(s)@ + decimal_nat(n as nat));
}

/// Appends the decimal form of `n` to `s`.
pub fn push_decimal(s: &mut String, n: i64)
    ensures
        final(s)@ == old(s)@ + decimal(n as int),
{
    if n < 0 {
        push_char(s, '-');
        let magnitude: u64 = ((-(n + 1)) as u64) + 1;
        push_decimal_nat(s, magnitude);
        assert(final(s)@ =~= old(s)@ + decimal(n as int));
    } else {
        push_decimal_nat(s, n as u64);
    }
}

/// Appends the decimal form of `n` to `s`, at least two characters wide.
pub fn push_decimal_padded(s: &mut String, n: i64)
    ensures
        final(s)@ == old(s)@ + decimal_padded(n as int),
{
    if 0 <= n && n < 10 {
        push_char(s, '0');
        push_decimal(s, n);
        assert(final(s)@ =~= old(s)@ + decimal_padded(n as int));
    } else {
        push_decimal(s, n);
    }
}

/// The number that a text of decimal digits stands for.
pub open spec fn digits_value(s: Seq<char>) -> nat
    decreases s.len(),
{
    if s.len() == 0 {
        0
    } else {
        (digits_value(s.drop_last()) * 10 + (s.last() as int - '0' as int)) as nat
    }
}

/// Whether a text holds decimal digits only.
pub open spec fn all_digits(s: Seq<char>) -> bool {
    forall|i: int| 0 <= i < s.len() ==> is_digit(#[trigger] s[i])
}

/// The integer that a text stands for: a sign, `+` or `-`, may come first,
/// then come decimal digits, at least one, and nothing else.
pub open spec fn int_of_text(s: Seq<char>) -> Option<int> {
    let signed = s.len() > 0 && (s[0] == '+' || s[0] == '-');
    let body = if signed { s.skip(1) } else { s };
    if body.len() == 0 || !all_digits(body) {
        None
    } else if signed && s[0] == '-' {
        Some(-(digits_value(body) as int))
    } else {
        Some(digits_value(body) as int)
    }
}

/// The number that a text stands for as an `i32`, where it stands for an
/// integer in the range of one.
pub open spec fn i32_of_text(s: Seq<char>) -> Option<i32> {
    match int_of_text(s) {
        Some(v) => if i32::MIN <= v <= i32::MAX {
            Some(v as i32)
        } else {
            None
        },
        None => None,
    }
}

/// The number that a text stands for as a `usize`, where it stands for an
/// integer in the range of one.
pub open spec fn usize_of_text(s: Seq<char>) -> Option<usize> {
    match int_of_text(s) {
        Some(v) => if 0 <= v <= usize::MAX && !(s[0] == '-') {
            Some(v as usize)
        } else {
            None
        },
        None => None,
    }
}

/// More digits do not make a smaller number.
pub proof fn lemma_digits_value_grows(s: Seq<char>, k: int)
    requires
        0 <= k <= s.len(),
        all_digits(s),
    ensures
        digits_value(s.take(k)) <= digits_value(s),
    decreases s.len() - k,
{
    if k < s.len() {
        lemma_digits_value_grows(s, k + 1);
        assert(s.take(k + 1).drop_last() =~= s.take(k));
        assert(is_digit(s[k]));
        assert(s.take(k + 1).last() == s[k]);
    } else {
        assert(s.take(k) =~= s);
    }
}

/// Reads the digits of a text from its `from`-th character on, as long as
/// they stand for a number up to `limit`.
fn parse_digits(s: &str, from: usize, limit: u64) -> (r: Option<u64>)
    requires
        from <= s@.len(),
    ensures
        r is Some == (s@.len() > from && all_digits(s@.skip(from as int)) && digits_value(
            s@.skip(from as int),
        ) <= limit),
        r is Some ==> r.unwrap() == digits_value(s@.skip(from as int)),
{
    let n = s.unicode_len();
    let ghost body = s@.skip(from as int);
    if n == from {
        return None;
    }
    let mut value: u64 = 0;
    let mut i: usize = from;
    proof {
        assert(body.take(0) =~= Seq::empty());
    }
    while i < n
        invariant
            from <= i <= n,
            n == s@.len(),
            body == s@.skip(from as int),
            all_digits(body.take(i - from)),
            value == digits_value(body.take(i - from)),
            value <= limit,
        decreases n - i,
    {
        let c = s.get_char(i);
        proof {
            assert(body[i - from] == c);
            assert(body.take(i - from + 1).drop_last() =~= body.take(i - from));
            assert(body.take(i - from + 1).last() == c);
        }
        if !(c >= '0' && c <= '9') {
            assert(!is_digit(body[i - from]));
            return None;
        }
        let d: u64 = (c as u32 - '0' as u32) as u64;
        let ghost before = value;
        let exceeds = d > limit || value > (limit - d) / 10;
        if !exceeds {
            value = value * 10 + d;
        }
        proof {
            assert forall|j: int| 0 <= j < i - from + 1 implies is_digit(
                #[trigger] body.take(i - from + 1)[j],
            ) by {
                if j < i - from {
                    assert(body.take(i - from)[j] == body[j]);
                }
            }
        }
        if exceeds {
            proof {
                assert(before * 10 + d > limit);
                if all_digits(body) {
                    lemma_digits_value_grows(body, i - from + 1);
                }
            }
            return None;
        }
        i += 1;
    }
    assert(body.take(n - from) =~= body);
    Some(value)
}

/// Reads an `i32` from a text.
pub fn parse_i32(s: &str) -> (r: Option<i32>)
    ensures
        r == i32_of_text(s@),
{
    let n = s.unicode_len();
    if n == 0 {
        return None;
    }
    let first = s.get_char(0);
    if first == '-' {
        match parse_digits(s, 1, 2147483648) {
            Some(v) => Some((0 - (v as i64)) as i32),
            None => None,
        }
    } else if first == '+' {
        match parse_digits(s, 1, 2147483647) {
            Some(v) => Some(v as i32),
            None => None,
        }
    } else {
        proof {
            assert(s@.skip(0) =~= s@);
        }
        match parse_digits(s, 0, 2147483647) {
            Some(v) => Some(v as i32),
            None => None,
        }
    }
}

/// Reads a `usize` from a text.
pub fn parse_usize(s: &str) -> (r: Option<usize>)
    ensures
        r == usize_of_text(s@),
{
    let n = s.unicode_len();
    if n == 0 {
        return None;
    }
    let first = s.get_char(0);
    if first == '-' {
        proof {
            if int_of_text(s@) is Some {
                assert(int_of_text(s@).unwrap() <= 0);
            }
        }
        return None;
    }
    let limit: u64 = usize::MAX as u64;
    let from: usize = if first == '+' { 1 } else { 0 };
    proof {
        assert(s@.skip(0) =~= s@);
    }
    match parse_digits(s, from, limit) {
        Some(v) => Some(v as usize),
        None => None,
    }
}

/// The elements, each once, in the order in which they first come.
pub open spec fn distinct<A>(names: Seq<A>) -> Seq<A>
    decreases names.len(),
{
    if names.len() == 0 {
        Seq::empty()
    } else {
        let before = distinct(names.drop_last());
        if before.contains(names.last()) {
            before
        } else {
            before.push(names.last())
        }
    }
}

/// The elements that `distinct` keeps are those that were there, and it
/// keeps each once.
pub proof fn lemma_distinct<A>(names: Seq<A>)
    ensures
        distinct(names).no_duplicates(),
        forall|name: A| distinct(names).contains(name) <==> names.contains(name),
    decreases names.len(),
{
    if names.len() > 0 {
        let front = names.drop_last();
        let before = distinct(front);
        lemma_distinct(front);
        assert forall|name: A| distinct(names).contains(name) <==> names.contains(
            name,
        ) by {
            assert(before.contains(name) <==> front.contains(name));
            if names.contains(name) {
                let i = choose|i: int| 0 <= i < names.len() && names[i] == name;
                if i < names.len() - 1 {
                    assert(front[i] == name);
                    assert(front.contains(name));
                    let j = choose|j: int| 0 <= j < before.len() && before[j] == name;
                    assert(distinct(names)[j] == name);
                } else if !before.contains(names.last()) {
                    assert(distinct(names)[before.len() as int] == name);
                }
            }
            if distinct(names).contains(name) {
                let j = choose|j: int| 0 <= j < distinct(names).len() && distinct(names)[j] == name;
                if j < before.len() {
                    assert(before[j] == name);
                    assert(before.contains(name));
                    let i = choose|i: int| 0 <= i < front.len() && front[i] == name;
                    assert(names[i] == name);
                } else {
                    assert(names[names.len() - 1] == name);
                }
            }
        }
    }
}

} // verus!
