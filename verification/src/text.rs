//! Text as sequences of characters: splitting and joining, lexicographic
//! order, numbers in decimal digits and the building of strings.

use vstd::prelude::*;

verus! {

/// The views of the items of a sequence, item by item.
pub open spec fn views<T: View>(items: Seq<T>) -> Seq<T::V> {
    Seq::new(items.len(), |i: int| items[i]@)
}

/// The views of a sequence that ends in `last` are the views of what came
/// before, followed by the view of `last`.
pub proof fn lemma_views_push<T: View>(items: Seq<T>, last: T)
    ensures
        views(items.push(last)) == views(items).push(last@),
{
    assert(views(items.push(last)) =~= views(items).push(last@));
}

/// The parts of `s` between the occurrences of `sep`, in order. There is
/// always at least one part; a separator at either end leaves an empty part
/// there.
pub open spec fn split_on(s: Seq<char>, sep: char) -> Seq<Seq<char>>
    decreases s.len(),
{
    if s.len() == 0 {
        seq![Seq::<char>::empty()]
    } else {
        let before = split_on(s.drop_last(), sep);
        if s.last() == sep {
            before.push(Seq::<char>::empty())
        } else {
            before.drop_last().push(before.last().push(s.last()))
        }
    }
}

/// Whether `a` comes strictly before `b` in lexicographic order: at the
/// first position where they differ `a` is smaller, or `a` is a proper
/// prefix of `b`.
pub open spec fn lex_lt(a: Seq<int>, b: Seq<int>) -> bool {
    exists|k: int| #[trigger] first_difference(a, b, k) && k < b.len() && (k == a.len() || a[k] < b[k])
}

/// `a` and `b` agree on their first `k` entries and do not agree on
/// entry `k`, or one of them ends there.
pub open spec fn first_difference(a: Seq<int>, b: Seq<int>, k: int) -> bool {
    &&& 0 <= k <= a.len()
    &&& k <= b.len()
    &&& a.take(k) == b.take(k)
    &&& (k < a.len() && k < b.len() ==> a[k] != b[k])
}

/// Two sequences have at most one place of first difference.
pub proof fn lemma_first_difference_unique(a: Seq<int>, b: Seq<int>, j: int, k: int)
    requires
        first_difference(a, b, j),
        first_difference(a, b, k),
    ensures
        j == k || (a == b),
{
    if j < k {
        assert(a.take(k)[j] == b.take(k)[j]);
        if j < a.len() && j < b.len() {
            assert(false);
        }
        // one of them ends at j, yet both have at least k > j characters
        assert(false);
    } else if k < j {
        assert(a.take(j)[k] == b.take(j)[k]);
        assert(false);
    }
}

/// Lexicographic order is irreflexive.
pub proof fn lemma_lex_lt_irreflexive(a: Seq<int>)
    ensures
        !lex_lt(a, a),
{
    if lex_lt(a, a) {
        let k = choose|k: int| #[trigger]
            first_difference(a, a, k) && k < a.len() && (k == a.len() || a[k] < a[k]);
        assert(false);
    }
}

/// Lexicographic order is asymmetric.
pub proof fn lemma_lex_lt_asymmetric(a: Seq<int>, b: Seq<int>)
    requires
        lex_lt(a, b),
    ensures
        !lex_lt(b, a),
{
    if lex_lt(b, a) {
        let j = choose|k: int| #[trigger]
            first_difference(a, b, k) && k < b.len() && (k == a.len() || a[k] < b[k]);
        let k = choose|k: int| #[trigger]
            first_difference(b, a, k) && k < a.len() && (k == b.len() || b[k] < a[k]);
        assert(first_difference(a, b, k));
        lemma_first_difference_unique(a, b, j, k);
        if a == b {
            lemma_lex_lt_irreflexive(a);
        }
    }
}

/// Lexicographic order is transitive.
pub proof fn lemma_lex_lt_transitive(a: Seq<int>, b: Seq<int>, c: Seq<int>)
    requires
        lex_lt(a, b),
        lex_lt(b, c),
    ensures
        lex_lt(a, c),
{
    let j = choose|k: int| #[trigger]
        first_difference(a, b, k) && k < b.len() && (k == a.len() || a[k] < b[k]);
    let k = choose|k: int| #[trigger]
        first_difference(b, c, k) && k < c.len() && (k == b.len() || b[k] < c[k]);
    let m = if j <= k {
        j
    } else {
        k
    };
    assert(a.take(m) =~= c.take(m)) by {
        assert forall|i: int| 0 <= i < m implies a[i] == c[i] by {
            assert(a.take(j)[i] == b.take(j)[i]);
            assert(b.take(k)[i] == c.take(k)[i]);
        }
    }
    if j < k {
        assert(b.take(k)[j] == c.take(k)[j]);
    } else if k < j {
        assert(a.take(j)[k] == b.take(j)[k]);
    }
    assert(first_difference(a, c, m));
}

/// Of two different sequences one comes before the other.
pub proof fn lemma_lex_lt_total(a: Seq<int>, b: Seq<int>)
    ensures
        a == b || lex_lt(a, b) || lex_lt(b, a),
{
    if a != b {
        assert(a.take(0) =~= b.take(0));
        lemma_common_prefix(a, b, 0);
    }
}

/// From an agreement on the first `k` entries on, two different sequences
/// reach a place of first difference.
proof fn lemma_common_prefix(a: Seq<int>, b: Seq<int>, k: int)
    requires
        0 <= k <= a.len(),
        k <= b.len(),
        a.take(k) == b.take(k),
        a != b,
    ensures
        lex_lt(a, b) || lex_lt(b, a),
    decreases a.len() - k,
{
    if k == a.len() || k == b.len() {
        if k == a.len() && k == b.len() {
            assert(a.take(k) == a);
            assert(b.take(k) == b);
        }
        assert(first_difference(a, b, k));
        assert(first_difference(b, a, k));
    } else if a[k] != b[k] {
        assert(first_difference(a, b, k));
        assert(first_difference(b, a, k));
    } else {
        assert(a.take(k + 1) =~= a.take(k).push(a[k]));
        assert(b.take(k + 1) =~= b.take(k).push(b[k]));
        lemma_common_prefix(a, b, k + 1);
    }
}

/// The code points of a text.
pub open spec fn code_points(s: Seq<char>) -> Seq<int> {
    Seq::new(s.len(), |i: int| s[i] as int)
}

/// Texts with the same code points are the same text.
pub proof fn lemma_code_points_injective(a: Seq<char>, b: Seq<char>)
    requires
        code_points(a) == code_points(b),
    ensures
        a == b,
{
    assert(a.len() == code_points(a).len());
    assert(b.len() == code_points(b).len());
    assert forall|i: int| 0 <= i < a.len() implies a[i] == b[i] by {
        assert(code_points(a)[i] == a[i] as int);
        assert(code_points(b)[i] == b[i] as int);
    }
    assert(a =~= b);
}

/// The numbers of a list of unsigned integers.
pub open spec fn numbers(s: Seq<u64>) -> Seq<int> {
    Seq::new(s.len(), |i: int| s[i] as int)
}

/// Lists with the same numbers are the same list.
pub proof fn lemma_numbers_injective(a: Seq<u64>, b: Seq<u64>)
    requires
        numbers(a) == numbers(b),
    ensures
        a == b,
{
    assert(a.len() == numbers(a).len());
    assert(b.len() == numbers(b).len());
    assert forall|i: int| 0 <= i < a.len() implies a[i] == b[i] by {
        assert(numbers(a)[i] == a[i] as int);
        assert(numbers(b)[i] == b[i] as int);
    }
    assert(a =~= b);
}

/// The characters of a string slice.
pub fn chars_of(s: &str) -> (chars: Vec<char>)
    ensures
        chars@ == s@,
{
    let mut chars: Vec<char> = Vec::new();
    for c in it: s.chars()
        invariant
            chars@ == it.seq().take(it.index() as int),
            it.seq() == s@,
    {
        chars.push(c);
    }
    chars
}

/// Appends one character to a string, by `String::push` of std: the string
/// afterwards is the string before, followed by that character.
#[verifier::external_body]
pub(crate) fn push_char(s: &mut String, c: char)
    ensures
        final(s)@ == old(s)@.push(c),
{
    s.push(c);
}

/// The string that holds the characters `chars[from..to]`.
pub fn string_of(chars: &Vec<char>, from: usize, to: usize) -> (s: String)
    requires
        from <= to <= chars@.len(),
    ensures
        s@ == chars@.subrange(from as int, to as int),
{
    let mut s = String::new();
    let mut i: usize = from;
    while i < to
        invariant
            from <= i <= to <= chars@.len(),
            s@ == chars@.subrange(from as int, i as int),
        decreases to - i,
    {
        push_char(&mut s, chars[i]);
        assert(chars@.subrange(from as int, i + 1) =~= chars@.subrange(from as int, i as int).push(
            chars@[i as int],
        ));
        i += 1;
    }
    s
}

/// Whether the text `a` comes strictly before the text `b` in lexicographic
/// order of code points.
pub fn lex_less(a: &Vec<char>, b: &Vec<char>) -> (r: bool)
    ensures
        r == lex_lt(code_points(a@), code_points(b@)),
{
    let ghost x = code_points(a@);
    let ghost y = code_points(b@);
    let mut k: usize = 0;
    while k < a.len() && k < b.len() && a[k] == b[k]
        invariant
            x == code_points(a@),
            y == code_points(b@),
            k <= a@.len(),
            k <= b@.len(),
            x.take(k as int) == y.take(k as int),
        decreases a@.len() - k,
    {
        assert(x.take(k + 1) =~= x.take(k as int).push(x[k as int]));
        assert(y.take(k + 1) =~= y.take(k as int).push(y[k as int]));
        k += 1;
    }
    assert(first_difference(x, y, k as int));
    let r = k < b.len() && (k == a.len() || a[k] < b[k]);
    proof {
        if !r && lex_lt(x, y) {
            let j = choose|j: int| #[trigger]
                first_difference(x, y, j) && j < y.len() && (j == x.len() || x[j] < y[j]);
            lemma_first_difference_unique(x, y, j, k as int);
            if x == y {
                lemma_lex_lt_irreflexive(x);
            }
        }
    }
    r
}

/// Whether the list `a` comes strictly before the list `b` in lexicographic
/// order.
pub fn lex_less_numbers(a: &Vec<u64>, b: &Vec<u64>) -> (r: bool)
    ensures
        r == lex_lt(numbers(a@), numbers(b@)),
{
    let ghost x = numbers(a@);
    let ghost y = numbers(b@);
    let mut k: usize = 0;
    while k < a.len() && k < b.len() && a[k] == b[k]
        invariant
            x == numbers(a@),
            y == numbers(b@),
            k <= a@.len(),
            k <= b@.len(),
            x.take(k as int) == y.take(k as int),
        decreases a@.len() - k,
    {
        assert(x.take(k + 1) =~= x.take(k as int).push(x[k as int]));
        assert(y.take(k + 1) =~= y.take(k as int).push(y[k as int]));
        k += 1;
    }
    assert(first_difference(x, y, k as int));
    let r = k < b.len() && (k == a.len() || a[k] < b[k]);
    proof {
        if !r && lex_lt(x, y) {
            let j = choose|j: int| #[trigger]
                first_difference(x, y, j) && j < y.len() && (j == x.len() || x[j] < y[j]);
            lemma_first_difference_unique(x, y, j, k as int);
            if x == y {
                lemma_lex_lt_irreflexive(x);
            }
        }
    }
    r
}

/// Splits a text at every `sep`.
pub fn split_chars(text: &Vec<char>, sep: char) -> (parts: Vec<Vec<char>>)
    ensures
        views(parts@) == split_on(text@, sep),
        parts@.len() >= 1,
{
    let mut parts: Vec<Vec<char>> = Vec::new();
    let mut current: Vec<char> = Vec::new();
    let mut i: usize = 0;
    while i < text.len()
        invariant
            i <= text@.len(),
            views(parts@).push(current@) == split_on(text@.take(i as int), sep),
        decreases text@.len() - i,
    {
        let c = text[i];
        proof {
            assert(text@.take(i + 1).drop_last() =~= text@.take(i as int));
            assert(text@.take(i + 1).last() == c);
        }
        let ghost done = parts@;
        if c == sep {
            parts.push(current);
            current = Vec::new();
            proof {
                lemma_views_push(done, parts@[parts@.len() - 1]);
                assert(parts@ =~= done.push(parts@[parts@.len() - 1]));
            }
        } else {
            let ghost before = current@;
            current.push(c);
            proof {
                assert(views(done).push(before).drop_last() =~= views(done));
            }
        }
        i += 1;
    }
    proof {
        assert(text@.take(text@.len() as int) =~= text@);
    }
    let ghost done = parts@;
    parts.push(current);
    proof {
        lemma_views_push(done, parts@[parts@.len() - 1]);
        assert(parts@ =~= done.push(parts@[parts@.len() - 1]));
    }
    parts
}

/// The parts joined into one text, with `sep` between each two of them.
pub open spec fn join(parts: Seq<Seq<char>>, sep: Seq<char>) -> Seq<char>
    decreases parts.len(),
{
    if parts.len() == 0 {
        Seq::empty()
    } else if parts.len() == 1 {
        parts[0]
    } else {
        join(parts.drop_last(), sep) + sep + parts.last()
    }
}

/// A text always has at least one part.
pub proof fn lemma_split_on_len(s: Seq<char>, sep: char)
    ensures
        split_on(s, sep).len() >= 1,
    decreases s.len(),
{
    if s.len() > 0 {
        lemma_split_on_len(s.drop_last(), sep);
    }
}

/// The parts of a text, joined with the separator again, are the text.
pub proof fn lemma_join_split(s: Seq<char>, sep: char)
    ensures
        join(split_on(s, sep), seq![sep]) == s,
    decreases s.len(),
{
    if s.len() == 0 {
        assert(split_on(s, sep)[0] =~= s);
    } else {
        let front = s.drop_last();
        let parts = split_on(front, sep);
        lemma_join_split(front, sep);
        lemma_split_on_len(front, sep);
        if s.last() == sep {
            let grown = parts.push(Seq::<char>::empty());
            assert(grown.drop_last() =~= parts);
            assert(join(grown, seq![sep]) =~= front + seq![sep] + Seq::<char>::empty());
            assert(front + seq![sep] =~= s);
        } else {
            let grown = parts.drop_last().push(parts.last().push(s.last()));
            assert(grown.drop_last() =~= parts.drop_last());
            if parts.len() == 1 {
                assert(join(parts, seq![sep]) == parts[0]);
                assert(join(grown, seq![sep]) == grown[0]);
                assert(grown[0] =~= front.push(s.last()));
            } else {
                assert(join(parts, seq![sep]) == join(parts.drop_last(), seq![sep]) + seq![sep]
                    + parts.last());
                assert(join(grown, seq![sep]) =~= (join(parts.drop_last(), seq![sep]) + seq![sep]
                    + parts.last()).push(s.last()));
            }
            assert(front.push(s.last()) =~= s);
        }
    }
}

/// The first `k` of several parts, joined, are a proper start of all parts
/// joined.
pub proof fn lemma_join_take(parts: Seq<Seq<char>>, sep: Seq<char>, k: int)
    requires
        1 <= k < parts.len(),
        sep.len() > 0,
    ensures
        join(parts.take(k), sep).len() < join(parts, sep).len(),
        join(parts, sep).take(join(parts.take(k), sep).len() as int) == join(parts.take(k), sep),
    decreases parts.len(),
{
    let whole = join(parts, sep);
    let front = join(parts.drop_last(), sep);
    assert(whole == front + sep + parts.last());
    if k == parts.len() - 1 {
        assert(parts.take(k) =~= parts.drop_last());
        assert(whole.take(front.len() as int) =~= front);
    } else {
        lemma_join_take(parts.drop_last(), sep, k);
        assert(parts.drop_last().take(k) =~= parts.take(k));
        let start = join(parts.take(k), sep);
        assert(whole.take(start.len() as int) =~= front.take(start.len() as int));
    }
}

/// A text that is a proper start of another comes before it.
pub proof fn lemma_proper_start_is_less(a: Seq<char>, b: Seq<char>)
    requires
        a.len() < b.len(),
        b.take(a.len() as int) == a,
    ensures
        lex_lt(code_points(a), code_points(b)),
{
    let x = code_points(a);
    let y = code_points(b);
    assert(x.take(x.len() as int) =~= y.take(x.len() as int)) by {
        assert forall|i: int| 0 <= i < x.len() implies x[i] == y[i] by {
            assert(b.take(a.len() as int)[i] == a[i]);
        }
    }
    assert(first_difference(x, y, x.len() as int));
}

/// The items of `a` and `b` in turn, beginning with `a`; where one of the
/// two has run out, the rest of the other follows.
pub open spec fn interleave<T>(a: Seq<T>, b: Seq<T>) -> Seq<T>
    decreases a.len() + b.len(),
{
    if a.len() == 0 {
        b
    } else {
        seq![a.first()] + interleave(b, a.drop_first())
    }
}

/// The character of a decimal digit.
pub open spec fn digit_char(digit: int) -> char {
    if digit == 0 {
        '0'
    } else if digit == 1 {
        '1'
    } else if digit == 2 {
        '2'
    } else if digit == 3 {
        '3'
    } else if digit == 4 {
        '4'
    } else if digit == 5 {
        '5'
    } else if digit == 6 {
        '6'
    } else if digit == 7 {
        '7'
    } else if digit == 8 {
        '8'
    } else {
        '9'
    }
}

/// A number in decimal digits, without leading zeros.
pub open spec fn decimal(n: nat) -> Seq<char>
    decreases n,
{
    if n < 10 {
        seq![digit_char(n as int)]
    } else {
        decimal(n / 10).push(digit_char((n % 10) as int))
    }
}

/// The last `digits` decimal digits of a number, with leading zeros.
pub open spec fn last_digits(n: nat, digits: nat) -> Seq<char>
    decreases digits,
{
    if digits == 0 {
        Seq::empty()
    } else {
        last_digits(n / 10, (digits - 1) as nat).push(digit_char((n % 10) as int))
    }
}

/// The power of ten with the given exponent.
pub open spec fn pow10(exponent: nat) -> nat
    decreases exponent,
{
    if exponent == 0 {
        1
    } else {
        10 * pow10((exponent - 1) as nat)
    }
}

/// A number of units of `10^-decimals` written as a decimal fraction: the
/// whole part, a point, and `decimals` digits behind it.
pub open spec fn fixed_point(n: nat, decimals: nat) -> Seq<char> {
    decimal(n / pow10(decimals)) + seq!['.'] + last_digits(n, decimals)
}

/// The character of a decimal digit.
pub fn digit_of(digit: u64) -> (c: char)
    requires
        digit < 10,
    ensures
        c == digit_char(digit as int),
{
    if digit == 0 {
        '0'
    } else if digit == 1 {
        '1'
    } else if digit == 2 {
        '2'
    } else if digit == 3 {
        '3'
    } else if digit == 4 {
        '4'
    } else if digit == 5 {
        '5'
    } else if digit == 6 {
        '6'
    } else if digit == 7 {
        '7'
    } else if digit == 8 {
        '8'
    } else {
        '9'
    }
}

/// Appends the decimal digits of a number to a text.
pub fn push_decimal(out: &mut Vec<char>, n: u64)
    ensures
        final(out)@ == old(out)@ + decimal(n as nat),
    decreases n,
{
    if n < 10 {
        out.push(digit_of(n));
        assert(out@ =~= old(out)@ + decimal(n as nat));
    } else {
        push_decimal(out, n / 10);
        out.push(digit_of(n % 10));
        assert(out@ =~= old(out)@ + decimal(n as nat));
    }
}

/// Appends the last `digits` decimal digits of a number to a text.
pub fn push_last_digits(out: &mut Vec<char>, n: u64, digits: u32)
    ensures
        final(out)@ == old(out)@ + last_digits(n as nat, digits as nat),
    decreases digits,
{
    if digits == 0 {
        assert(out@ =~= old(out)@ + last_digits(n as nat, digits as nat));
    } else {
        push_last_digits(out, n / 10, digits - 1);
        out.push(digit_of(n % 10));
        assert(out@ =~= old(out)@ + last_digits(n as nat, digits as nat));
    }
}

/// The power of ten with the given exponent, where it fits.
pub fn power_of_ten(exponent: u32) -> (power: u64)
    requires
        exponent <= 19,
    ensures
        power == pow10(exponent as nat),
        power >= 1,
{
    let mut power: u64 = 1;
    let mut i: u32 = 0;
    proof {
        lemma_pow10_monotonic(0, 19);
    }
    while i < exponent
        invariant
            i <= exponent <= 19,
            power == pow10(i as nat),
            1 <= power,
            power <= pow10(19),
            pow10(19) == 10000000000000000000,
        decreases exponent - i,
    {
        proof {
            lemma_pow10_monotonic(i as nat + 1, 19);
        }
        power = power * 10;
        i += 1;
    }
    power
}

/// Powers of ten grow with their exponent.
pub proof fn lemma_pow10_monotonic(a: nat, b: nat)
    requires
        a <= b,
    ensures
        1 <= pow10(a) <= pow10(b),
        pow10(19) == 10000000000000000000,
    decreases b,
{
    assert(pow10(19) == 10000000000000000000) by {
        reveal_with_fuel(pow10, 20);
    }
    if b == 0 {
    } else if a == b {
        lemma_pow10_monotonic((a - 1) as nat, (b - 1) as nat);
    } else {
        lemma_pow10_monotonic(a, (b - 1) as nat);
    }
}

/// Appends a number of units of `10^-decimals` as a decimal fraction.
pub fn push_fixed_point(out: &mut Vec<char>, n: u64, decimals: u32)
    requires
        decimals <= 19,
    ensures
        final(out)@ == old(out)@ + fixed_point(n as nat, decimals as nat),
{
    let power: u64 = power_of_ten(decimals);
    push_decimal(out, n / power);
    out.push('.');
    push_last_digits(out, n, decimals);
    assert(out@ =~= old(out)@ + fixed_point(n as nat, decimals as nat));
}

/// Appends a list of characters to a text.
pub fn push_chars(out: &mut Vec<char>, more: &Vec<char>)
    ensures
        final(out)@ == old(out)@ + more@,
{
    let mut i: usize = 0;
    while i < more.len()
        invariant
            i <= more@.len(),
            out@ == old(out)@ + more@.take(i as int),
        decreases more@.len() - i,
    {
        out.push(more[i]);
        assert(out@ =~= old(out)@ + more@.take(i + 1));
        i += 1;
    }
    assert(more@.take(more@.len() as int) =~= more@);
}

/// Appends a string to a text.
pub fn push_str(out: &mut Vec<char>, more: &str)
    ensures
        final(out)@ == old(out)@ + more@,
{
    let chars = chars_of(more);
    push_chars(out, &chars);
}

/// The parts joined into one text, with `sep` between each two of them.
pub fn join_chars(parts: &Vec<Vec<char>>, sep: &Vec<char>) -> (out: Vec<char>)
    ensures
        out@ == join(views(parts@), sep@),
{
    let mut out: Vec<char> = Vec::new();
    let mut i: usize = 0;
    let ghost all = views(parts@);
    while i < parts.len()
        invariant
            i <= parts@.len(),
            all == views(parts@),
            out@ == join(all.take(i as int), sep@),
        decreases parts@.len() - i,
    {
        proof {
            assert(all.take(i + 1).drop_last() =~= all.take(i as int));
            assert(all.take(i + 1).last() == parts@[i as int]@);
        }
        if i > 0 {
            push_chars(&mut out, sep);
        }
        push_chars(&mut out, &parts[i]);
        proof {
            if i == 0 {
                assert(all.take(1)[0] == parts@[0]@);
                assert(out@ =~= join(all.take(1), sep@));
            }
        }
        i += 1;
    }
    assert(all.take(parts@.len() as int) =~= all);
    out
}

/// The items of `a` and `b` in turn, beginning with `a`.
pub fn interleave_lists(a: Vec<Vec<char>>, b: Vec<Vec<char>>) -> (out: Vec<Vec<char>>)
    ensures
        views(out@) == interleave(views(a@), views(b@)),
{
    let mut out: Vec<Vec<char>> = Vec::new();
    let mut i: usize = 0;
    let ghost x = views(a@);
    let ghost y = views(b@);
    let na: usize = a.len();
    let nb: usize = b.len();
    let common: usize = if na < nb {
        na
    } else {
        nb
    };
    proof {
        assert(x.skip(0) =~= x);
        assert(y.skip(0) =~= y);
        assert(views(out@) =~= Seq::<Seq<char>>::empty());
        assert(views(out@) + interleave(x, y) =~= interleave(x, y));
    }
    while i < common
        invariant
            i <= common,
            common <= na,
            common <= nb,
            na == a@.len(),
            nb == b@.len(),
            x == views(a@),
            y == views(b@),
            views(out@) + interleave(x.skip(i as int), y.skip(i as int)) == interleave(x, y),
        decreases common - i,
    {
        let ghost held = out@;
        out.push(copy_chars(&a[i]));
        let ghost mid = out@;
        out.push(copy_chars(&b[i]));
        proof {
            lemma_views_push(held, mid[mid.len() - 1]);
            lemma_views_push(mid, out@[out@.len() - 1]);
            assert(mid =~= held.push(mid[mid.len() - 1]));
            assert(out@ =~= mid.push(out@[out@.len() - 1]));
            let xs = x.skip(i as int);
            let ys = y.skip(i as int);
            assert(xs.drop_first() =~= x.skip(i + 1));
            assert(ys.drop_first() =~= y.skip(i + 1));
            assert(interleave(xs, ys) == seq![xs.first()] + interleave(ys, xs.drop_first()));
            assert(interleave(ys, xs.drop_first()) == seq![ys.first()] + interleave(
                xs.drop_first(),
                ys.drop_first(),
            ));
            assert(views(out@) + interleave(x.skip(i + 1), y.skip(i + 1)) =~= views(held)
                + interleave(xs, ys));
        }
        i += 1;
    }
    let mut j: usize = common;
    while j < na
        invariant
            common <= j <= na,
            na == a@.len(),
            nb == b@.len(),
            common == nb || common == na,
            common <= nb,
            x == views(a@),
            y == views(b@),
            views(out@) + interleave(x.skip(j as int), y.skip(common as int)) == interleave(x, y),
        decreases na - j,
    {
        let ghost held = out@;
        out.push(copy_chars(&a[j]));
        proof {
            lemma_views_push(held, out@[out@.len() - 1]);
            assert(out@ =~= held.push(out@[out@.len() - 1]));
            let xs = x.skip(j as int);
            let ys = y.skip(common as int);
            assert(ys =~= Seq::<Seq<char>>::empty());
            lemma_interleave_empty(xs);
            lemma_interleave_empty(x.skip(j + 1));
            assert(xs =~= seq![xs.first()] + x.skip(j + 1));
            assert(views(out@) + interleave(x.skip(j + 1), ys) =~= views(held) + interleave(xs, ys));
        }
        j += 1;
    }
    let mut k: usize = common;
    while k < nb
        invariant
            common <= k <= nb,
            na == a@.len(),
            nb == b@.len(),
            j == na,
            x == views(a@),
            y == views(b@),
            views(out@) + interleave(x.skip(j as int), y.skip(k as int)) == interleave(x, y),
        decreases nb - k,
    {
        let ghost held = out@;
        out.push(copy_chars(&b[k]));
        proof {
            lemma_views_push(held, out@[out@.len() - 1]);
            assert(out@ =~= held.push(out@[out@.len() - 1]));
            let xs = x.skip(j as int);
            let ys = y.skip(k as int);
            assert(xs.len() == 0);
            assert(interleave(xs, ys) == ys);
            assert(interleave(xs, y.skip(k + 1)) == y.skip(k + 1));
            assert(ys =~= seq![ys.first()] + y.skip(k + 1));
            assert(views(out@) + interleave(xs, y.skip(k + 1)) =~= views(held) + interleave(xs, ys));
        }
        k += 1;
    }
    proof {
        assert(x.skip(j as int).len() == 0);
        assert(interleave(x.skip(j as int), y.skip(k as int)) =~= Seq::<Seq<char>>::empty());
        assert(views(out@) =~= interleave(x, y));
    }
    out
}

/// Interleaving a list with an empty list gives the list.
pub proof fn lemma_interleave_empty<T>(a: Seq<T>)
    ensures
        interleave(a, Seq::<T>::empty()) == a,
{
    if a.len() > 0 {
        assert(interleave(a, Seq::<T>::empty()) == seq![a.first()] + interleave(
            Seq::<T>::empty(),
            a.drop_first(),
        ));
        assert(seq![a.first()] + a.drop_first() =~= a);
    }
}

/// A copy of a list of characters.
pub fn copy_chars(list: &Vec<char>) -> (copy: Vec<char>)
    ensures
        copy@ == list@,
{
    let mut copy: Vec<char> = Vec::new();
    push_chars(&mut copy, list);
    assert(copy@ =~= list@);
    copy
}

} // verus!
