//! Small pieces of text.
use vstd::prelude::*;
use vstd::string::*;

verus! {

/// The digit character of a number below ten.
pub open spec fn digit_char(d: int) -> char {
    if d == 0 {
        '0'
    } else if d == 1 {
        '1'
    } else if d == 2 {
        '2'
    } else if d == 3 {
        '3'
    } else if d == 4 {
        '4'
    } else if d == 5 {
        '5'
    } else if d == 6 {
        '6'
    } else if d == 7 {
        '7'
    } else if d == 8 {
        '8'
    } else {
        '9'
    }
}

/// The decimal digits of `n`.
pub open spec fn decimal_spec(n: nat) -> Seq<char>
    decreases n,
{
    if n < 10 {
        seq![digit_char(n as int)]
    } else {
        decimal_spec(n / 10).push(digit_char(n as int % 10))
    }
}

/// Adds a character to the end of a string, by the standard library's `String::push`.
#[verifier::external_body]
pub(crate) fn push_char(s: &mut String, c: char)
    ensures
        final(s)@ == old(s)@.push(c),
{
    s.push(c)
}

fn digit(d: usize) -> (c: char)
    requires
        d < 10,
    ensures
        c == digit_char(d as int),
{
    if d == 0 {
        '0'
    } else if d == 1 {
        '1'
    } else if d == 2 {
        '2'
    } else if d == 3 {
        '3'
    } else if d == 4 {
        '4'
    } else if d == 5 {
        '5'
    } else if d == 6 {
        '6'
    } else if d == 7 {
        '7'
    } else if d == 8 {
        '8'
    } else {
        '9'
    }
}

/// A number in decimal.
pub fn decimal(n: usize) -> (s: String)
    ensures
        s@ == decimal_spec(n as nat),
    decreases n,
{
    if n < 10 {
        let mut s: String = String::new();
        push_char(&mut s, digit(n));
        assert(s@ =~= seq![digit_char(n as int)]);
        s
    } else {
        let mut s: String = decimal(n / 10);
        push_char(&mut s, digit(n % 10));
        s
    }
}

/// The characters of a string, one by one.
pub(crate) fn characters(s: &str) -> (chars: Vec<char>)
    ensures
        chars@ == s@,
{
    let mut chars: Vec<char> = Vec::new();
    for c in iter: s.chars()
        invariant
            iter.seq() == s@,
            chars@ == s@.take(iter.index() as int),
    {
        chars.push(c);
        assert(chars@ =~= s@.take(iter.index() + 1));
    }
    assert(chars@ =~= s@);
    chars
}

/// Whether a character separates the fields of a text: the white space of Unicode.
pub open spec fn is_space(c: char) -> bool {
    let n = c as u32;
    ||| 0x9 <= n <= 0xd
    ||| n == 0x20
    ||| n == 0x85
    ||| n == 0xa0
    ||| n == 0x1680
    ||| 0x2000 <= n <= 0x200a
    ||| n == 0x2028
    ||| n == 0x2029
    ||| n == 0x202f
    ||| n == 0x205f
    ||| n == 0x3000
}

fn is_space_char(c: char) -> (space: bool)
    ensures
        space == is_space(c),
{
    let n: u32 = c as u32;
    (0x9 <= n && n <= 0xd) || n == 0x20 || n == 0x85 || n == 0xa0 || n == 0x1680 || (0x2000 <= n && n
        <= 0x200a) || n == 0x2028 || n == 0x2029 || n == 0x202f || n == 0x205f || n == 0x3000
}

/// The first place from `from` on that is white space, or is none.
pub open spec fn run_end(text: Seq<char>, from: int, space: bool) -> int
    decreases text.len() - from,
{
    if from >= text.len() || is_space(text[from]) != space {
        from
    } else {
        run_end(text, from + 1, space)
    }
}

/// Field `n` of a text, counted from 0 and from the place `from` on; empty where there is
/// none.
pub open spec fn field(text: Seq<char>, from: int, n: nat) -> Seq<char>
    decreases n,
{
    let start = run_end(text, from, true);
    let end = run_end(text, start, false);
    if n == 0 {
        text.subrange(start, end)
    } else {
        field(text, end, (n - 1) as nat)
    }
}

/// The digit that a character stands for.
pub open spec fn digit_value(c: char) -> int {
    c as u32 - 0x30
}

/// Whether every character is a decimal digit.
pub open spec fn all_digits(s: Seq<char>) -> bool {
    forall|i: int| 0 <= i < s.len() ==> '0' <= #[trigger] s[i] && s[i] <= '9'
}

/// The number that decimal digits stand for.
pub open spec fn digits_value(s: Seq<char>) -> int
    decreases s.len(),
{
    if s.len() == 0 {
        0
    } else {
        10 * digits_value(s.drop_last()) + digit_value(s.last())
    }
}

/// The number that a text stands for: decimal digits, after a plus sign if there is one, and
/// no more than 32 bits. None where it stands for no such number.
pub open spec fn number_spec(s: Seq<char>) -> Option<u32> {
    let digits = if s.len() > 0 && s[0] == '+' {
        s.skip(1)
    } else {
        s
    };
    if digits.len() > 0 && all_digits(digits) && digits_value(digits) <= u32::MAX {
        Some(digits_value(digits) as u32)
    } else {
        None
    }
}

/// The number that a text stands for, or 0 where it stands for none.
pub open spec fn number_or_zero(s: Seq<char>) -> u32 {
    match number_spec(s) {
        Some(n) => n,
        None => 0,
    }
}

proof fn lemma_run_end(text: Seq<char>, from: int, space: bool)
    requires
        0 <= from <= text.len(),
    ensures
        from <= run_end(text, from, space) <= text.len(),
    decreases text.len() - from,
{
    if from < text.len() && is_space(text[from]) == space {
        lemma_run_end(text, from + 1, space);
    }
}

pub(crate) fn skip_run(chars: &Vec<char>, from: usize, space: bool) -> (end: usize)
    requires
        from <= chars@.len(),
    ensures
        end == run_end(chars@, from as int, space),
        from <= end <= chars@.len(),
{
    let mut end: usize = from;
    while end < chars.len() && is_space_char(chars[end]) == space
        invariant
            from <= end <= chars@.len(),
            run_end(chars@, end as int, space) == run_end(chars@, from as int, space),
        decreases chars@.len() - end,
    {
        end = end + 1;
    }
    end
}

proof fn lemma_digits_grow(s: Seq<char>, n: int)
    requires
        all_digits(s),
        0 <= n <= s.len(),
    ensures
        0 <= digits_value(s.take(n)) <= digits_value(s),
    decreases s.len(),
{
    if s.len() == 0 {
        assert(s.take(n) =~= s);
    } else if n < s.len() {
        assert(all_digits(s.drop_last()));
        lemma_digits_grow(s.drop_last(), n);
        assert(s.drop_last().take(n) =~= s.take(n));
        assert('0' <= s[s.len() - 1] && s[s.len() - 1] <= '9');
    } else {
        assert(s.take(n) =~= s);
        assert(all_digits(s.drop_last()));
        lemma_digits_grow(s.drop_last(), 0);
        assert(s.drop_last().take(0) =~= Seq::<char>::empty());
        assert('0' <= s[s.len() - 1] && s[s.len() - 1] <= '9');
    }
}

/// The number that a part of a text stands for.
pub(crate) fn read_number(chars: &Vec<char>, start: usize, end: usize) -> (number: Option<u32>)
    requires
        start <= end <= chars@.len(),
    ensures
        number == number_spec(chars@.subrange(start as int, end as int)),
{
    let ghost text = chars@.subrange(start as int, end as int);
    let mut i: usize = start;
    if i < end && chars[i] == '+' {
        i = i + 1;
    }
    let ghost first = i as int;
    let ghost digits = chars@.subrange(first, end as int);
    proof {
        if first > start {
            assert(text[0] == '+');
            assert(text.skip(1) =~= digits);
        } else {
            assert(text =~= digits);
            if text.len() > 0 {
                assert(text[0] == chars@[start as int]);
            }
        }
    }
    if i == end {
        return None;
    }
    let mut value: u32 = 0;
    assert(digits.take(0) =~= Seq::<char>::empty());
    while i < end
        invariant
            0 <= first <= i <= end <= chars@.len(),
            first < end,
            digits == chars@.subrange(first, end as int),
            number_spec(text) == (if digits.len() > 0 && all_digits(digits) && digits_value(
                digits,
            ) <= u32::MAX {
                Some(digits_value(digits) as u32)
            } else {
                None
            }),
            text == chars@.subrange(start as int, end as int),
            all_digits(digits.take(i - first)),
            value == digits_value(digits.take(i - first)),
        decreases end - i,
    {
        let c: char = chars[i];
        let ghost k = i - first;
        assert(digits[k] == c);
        if c < '0' || c > '9' {
            assert(!all_digits(digits));
            return None;
        }
        proof {
            let longer = digits.take(k + 1);
            assert(longer.drop_last() =~= digits.take(k));
            assert(longer.last() == c);
            assert forall|j: int| 0 <= j < longer.len() implies '0' <= #[trigger] longer[j]
                && longer[j] <= '9' by {
                if j < k {
                    assert(longer[j] == digits.take(k)[j]);
                }
            }
            if all_digits(digits) {
                lemma_digits_grow(digits, k + 1);
            }
        }
        let digit: u32 = c as u32 - 0x30;
        let wide: u64 = 10 * (value as u64) + digit as u64;
        if wide > 0xffff_ffff {
            return None;
        }
        value = wide as u32;
        i = i + 1;
    }
    assert(digits.take(end - first) =~= digits);
    Some(value)
}

/// The number that a text stands for.
pub fn parse_number(text: &str) -> (number: Option<u32>)
    ensures
        number == number_spec(text@),
{
    let chars: Vec<char> = characters(text);
    assert(chars@.subrange(0, chars@.len() as int) =~= text@);
    read_number(&chars, 0, chars.len())
}

/// The words of a text from a place on: what white space separates.
pub open spec fn words_spec(text: Seq<char>, from: int) -> Seq<Seq<char>>
    decreases text.len() - from,
{
    let start = run_end(text, from, true);
    let end = run_end(text, start, false);
    if start >= text.len() || !(from < end <= text.len()) {
        Seq::empty()
    } else {
        seq![text.subrange(start, end)] + words_spec(text, end)
    }
}

/// A part of a text, as a text of its own.
pub(crate) fn part(chars: &Vec<char>, start: usize, end: usize) -> (s: String)
    requires
        start <= end <= chars@.len(),
    ensures
        s@ == chars@.subrange(start as int, end as int),
{
    let mut s: String = String::new();
    let mut i: usize = start;
    while i < end
        invariant
            start <= i <= end <= chars@.len(),
            s@ == chars@.subrange(start as int, i as int),
        decreases end - i,
    {
        push_char(&mut s, chars[i]);
        i = i + 1;
        assert(s@ =~= chars@.subrange(start as int, i as int));
    }
    s
}

/// The contents of texts.
pub open spec fn contents(texts: Seq<String>) -> Seq<Seq<char>> {
    Seq::new(texts.len(), |i: int| texts[i]@)
}

/// The words of a text: what white space separates.
pub fn words(text: &str) -> (list: Vec<String>)
    ensures
        contents(list@) == words_spec(text@, 0),
{
    let chars: Vec<char> = characters(text);
    let mut list: Vec<String> = Vec::new();
    let mut at: usize = 0;
    let mut more: bool = true;
    let ghost all = words_spec(text@, 0);
    assert(contents(list@) + words_spec(text@, 0) =~= all);
    while more
        invariant
            chars@ == text@,
            at <= chars@.len(),
            more ==> contents(list@) + words_spec(text@, at as int) == all,
            !more ==> contents(list@) == all,
        decreases chars@.len() - at, if more {
            1int
        } else {
            0int
        },
    {
        let start: usize = skip_run(&chars, at, true);
        let ghost before = list@;
        if start >= chars.len() {
            more = false;
            assert(contents(list@) + Seq::<Seq<char>>::empty() =~= contents(list@));
        } else {
            let end: usize = skip_run(&chars, start, false);
            proof {
                lemma_word_ends(chars@, at as int);
            }
            let word: String = part(&chars, start, end);
            list.push(word);
            proof {
                assert(contents(list@) =~= contents(before).push(word@));
                assert(contents(list@) + words_spec(text@, end as int) =~= contents(before) + (
                seq![word@] + words_spec(text@, end as int)));
            }
            at = end;
        }
    }
    list
}

/// A word has at least one character.
proof fn lemma_word_ends(text: Seq<char>, from: int)
    requires
        0 <= from <= text.len(),
        run_end(text, from, true) < text.len(),
    ensures
        run_end(text, run_end(text, from, true), false) > run_end(text, from, true),
        run_end(text, from, true) >= from,
{
    let start = run_end(text, from, true);
    lemma_run_end(text, from, true);
    lemma_run_stops(text, from, true);
    lemma_run_end(text, start + 1, false);
}

/// A run ends before a character of the other sort.
proof fn lemma_run_stops(text: Seq<char>, from: int, space: bool)
    requires
        0 <= from <= text.len(),
        run_end(text, from, space) < text.len(),
    ensures
        is_space(text[run_end(text, from, space)]) != space,
    decreases text.len() - from,
{
    if from < text.len() && is_space(text[from]) == space {
        lemma_run_stops(text, from + 1, space);
    }
}

/// Whether two texts are the same.
pub(crate) fn same_text(a: &str, b: &str) -> (same: bool)
    ensures
        same == (a@ == b@),
{
    let x: Vec<char> = characters(a);
    let y: Vec<char> = characters(b);
    if x.len() != y.len() {
        return false;
    }
    let mut i: usize = 0;
    while i < x.len()
        invariant
            i <= x@.len(),
            x@ == a@,
            y@ == b@,
            x@.len() == y@.len(),
            forall|j: int| 0 <= j < i ==> x@[j] == y@[j],
        decreases x@.len() - i,
    {
        if x[i] != y[i] {
            assert(x@[i as int] != y@[i as int]);
            return false;
        }
        i = i + 1;
    }
    assert(x@ =~= y@);
    true
}

/// A number in decimal is read back as the number. It is made of digits alone, and starts with
/// a zero only where it is zero.
pub proof fn decimals_are_read_back(n: nat)
    ensures
        decimal_spec(n).len() > 0,
        all_digits(decimal_spec(n)),
        digits_value(decimal_spec(n)) == n,
        decimal_spec(n)[0] == '0' <==> n == 0,
        n <= u32::MAX ==> number_spec(decimal_spec(n)) == Some(n as u32),
        n <= u32::MAX ==> number_spec(seq!['+'] + decimal_spec(n)) == Some(n as u32),
    decreases n,
{
    let s = decimal_spec(n);
    if n < 10 {
        assert(s.drop_last() =~= Seq::<char>::empty());
        assert(s.last() == digit_char(n as int));
        assert(digits_value(s.drop_last()) == 0);
    } else {
        decimals_are_read_back(n / 10);
        let front = decimal_spec(n / 10);
        assert(s.drop_last() =~= front);
        assert forall|i: int| 0 <= i < s.len() implies '0' <= #[trigger] s[i] && s[i] <= '9' by {
            if i < front.len() {
                assert(s[i] == front[i]);
            }
        }
        assert(s[0] == front[0]);
    }
    assert((seq!['+'] + s).skip(1) =~= s);
    assert('0' <= s[0] && s[0] <= '9');
}

/// A digit behind a number counts one for each, and what stands before it ten times as much.
pub proof fn digits_count_tenfold(s: Seq<char>, c: char)
    ensures
        digits_value(s.push(c)) == 10 * digits_value(s) + (c as u32 - '0' as u32),
        digits_value(Seq::empty()) == 0,
{
    assert(s.push(c).drop_last() =~= s);
}

/// Only digits after at most one plus sign stand for a number, and only where 32 bits hold it.
pub proof fn numbers_are_digits(s: Seq<char>)
    ensures
        number_spec(s) is Some ==> s.len() > 0,
        forall|i: int| 1 <= i < s.len() && number_spec(s) is Some ==> '0' <= #[trigger] s[i] && s[i]
            <= '9',
        number_spec(s) is Some && s[0] != '+' ==> '0' <= s[0] && s[0] <= '9' && number_spec(
            s,
        )->0 == digits_value(s),
        number_spec(s) is Some && s[0] == '+' ==> s.len() >= 2 && number_spec(s)->0
            == digits_value(s.skip(1)),
        s.len() > 0 && all_digits(s) ==> (number_spec(s) is Some <==> digits_value(s)
            < 0x1_0000_0000),
        number_or_zero(s) == if number_spec(s) is Some {
            number_spec(s)->0
        } else {
            0
        },
{
    if all_digits(s) {
        lemma_digits_grow(s, 0);
    }
    if s.len() > 0 && all_digits(s.skip(1)) {
        lemma_digits_grow(s.skip(1), 0);
    }
    if number_spec(s) is Some && s[0] == '+' {
        assert forall|i: int| 1 <= i < s.len() implies '0' <= #[trigger] s[i] && s[i] <= '9' by {
            assert(s.skip(1)[i - 1] == s[i]);
        }
    }
}

/// A run of characters of one sort, from where it starts to where it ends.
proof fn lemma_run(text: Seq<char>, from: int, space: bool)
    requires
        0 <= from <= text.len(),
    ensures
        from <= run_end(text, from, space) <= text.len(),
        forall|i: int|
            from <= i < run_end(text, from, space) ==> is_space(#[trigger] text[i]) == space,
        run_end(text, from, space) < text.len() ==> is_space(
            text[run_end(text, from, space)],
        ) != space,
    decreases text.len() - from,
{
    if from < text.len() && is_space(text[from]) == space {
        lemma_run(text, from + 1, space);
    }
}

/// A run ends where the first character of the other sort stands.
proof fn lemma_run_is(text: Seq<char>, from: int, space: bool, end: int)
    requires
        0 <= from <= end <= text.len(),
        forall|i: int| from <= i < end ==> is_space(#[trigger] text[i]) == space,
        end < text.len() ==> is_space(text[end]) != space,
    ensures
        run_end(text, from, space) == end,
    decreases end - from,
{
    if from < end {
        assert(is_space(text[from]) == space);
        lemma_run_is(text, from + 1, space, end);
    }
}

/// A word has characters, and none of them is white space; a text without white space is one
/// word, and a text of nothing but white space has none.
pub proof fn words_hold_no_space(text: Seq<char>, from: int)
    requires
        0 <= from <= text.len(),
    ensures
        forall|k: int| #![trigger words_spec(text, from)[k]]
            0 <= k < words_spec(text, from).len() ==> words_spec(text, from)[k].len() > 0 && (
            forall|i: int|
                0 <= i < words_spec(text, from)[k].len() ==> !is_space(
                    #[trigger] words_spec(text, from)[k][i],
                )),
        from < text.len() && (forall|i: int|
            from <= i < text.len() ==> !is_space(#[trigger] text[i])) ==> words_spec(text, from)
            == seq![text.skip(from)],
        (forall|i: int| from <= i < text.len() ==> is_space(#[trigger] text[i])) ==> words_spec(
            text,
            from,
        ).len() == 0,
    decreases text.len() - from,
{
    let start = run_end(text, from, true);
    let end = run_end(text, start, false);
    lemma_run(text, from, true);
    lemma_run(text, start, false);
    if start < text.len() {
        lemma_word_ends(text, from);
        words_hold_no_space(text, end);
        let list = words_spec(text, from);
        assert forall|k: int| #![trigger list[k]] 0 <= k < list.len() implies list[k].len() > 0 && (
        forall|i: int| 0 <= i < list[k].len() ==> !is_space(#[trigger] list[k][i])) by {
            if k > 0 {
                assert(list[k] == words_spec(text, end)[k - 1]);
            } else {
                assert forall|i: int| 0 <= i < list[0].len() implies !is_space(
                    #[trigger] list[0][i],
                ) by {
                    assert(list[0][i] == text[start + i]);
                }
            }
        }
        if forall|i: int| from <= i < text.len() ==> !is_space(#[trigger] text[i]) {
            lemma_run_is(text, from, true, from);
            lemma_run_is(text, from, false, text.len() as int);
            assert(run_end(text, end, true) == end);
            assert(words_spec(text, end) =~= Seq::empty());
            assert(text.subrange(start, end) =~= text.skip(from));
            assert(list =~= seq![text.skip(from)]);
        }
    }
}

/// The words of two texts with white space between them are those of the one and then those
/// of the other.
pub proof fn space_parts_words(a: Seq<char>, space: char, b: Seq<char>)
    requires
        is_space(space),
    ensures
        words_spec(a.push(space) + b, 0) == words_spec(a, 0) + words_spec(b, 0),
{
    lemma_words_before(a, space, b, 0);
}

/// The words of a text behind a place do not depend on what stands before it.
proof fn lemma_words_behind(front: Seq<char>, b: Seq<char>, k: int)
    requires
        0 <= k <= b.len(),
    ensures
        words_spec(front + b, front.len() + k) == words_spec(b, k),
    decreases b.len() - k,
{
    let text = front + b;
    let n = front.len() as int;
    let start = run_end(b, k, true);
    let end = run_end(b, start, false);
    lemma_run(b, k, true);
    lemma_run(b, start, false);
    assert forall|i: int| n + k <= i < n + start implies is_space(#[trigger] text[i]) by {
        assert(text[i] == b[i - n]);
    }
    lemma_run_is(text, n + k, true, n + start);
    assert forall|i: int| n + start <= i < n + end implies !is_space(#[trigger] text[i]) by {
        assert(text[i] == b[i - n]);
    }
    lemma_run_is(text, n + start, false, n + end);
    if start < b.len() {
        lemma_word_ends(b, k);
        lemma_words_behind(front, b, end);
        assert(text.subrange(n + start, n + end) =~= b.subrange(start, end));
    }
}

proof fn lemma_words_before(a: Seq<char>, space: char, b: Seq<char>, k: int)
    requires
        is_space(space),
        0 <= k <= a.len(),
    ensures
        words_spec(a.push(space) + b, k) == words_spec(a, k) + words_spec(b, 0),
    decreases a.len() - k,
{
    let text = a.push(space) + b;
    let front = a.push(space);
    let start = run_end(a, k, true);
    let end = run_end(a, start, false);
    lemma_run(a, k, true);
    lemma_run(a, start, false);
    assert(text[a.len() as int] == space);
    if start < a.len() {
        lemma_word_ends(a, k);
        assert forall|i: int| k <= i < start implies is_space(#[trigger] text[i]) by {
            assert(text[i] == a[i]);
        }
        assert(text[start] == a[start]);
        lemma_run_is(text, k, true, start);
        assert forall|i: int| start <= i < end implies !is_space(#[trigger] text[i]) by {
            assert(text[i] == a[i]);
        }
        if end < a.len() {
            assert(text[end] == a[end]);
        }
        lemma_run_is(text, start, false, end);
        lemma_words_before(a, space, b, end);
        assert(text.subrange(start, end) =~= a.subrange(start, end));
        assert(words_spec(text, k) =~= words_spec(a, k) + words_spec(b, 0));
    } else {
        let n = a.len() as int + 1;
        lemma_run(b, 0, true);
        let next = run_end(b, 0, true);
        assert forall|i: int| k <= i < n + next implies is_space(#[trigger] text[i]) by {
            if i < a.len() {
                assert(text[i] == a[i]);
            } else if i >= n {
                assert(text[i] == b[i - n]);
            }
        }
        if next < b.len() {
            assert(text[n + next] == b[next]);
        }
        lemma_run_is(text, k, true, n + next);
        lemma_run_is(text, n, true, n + next);
        lemma_words_behind(front, b, 0);
        if n + next < text.len() {
            lemma_word_ends(text, n);
            lemma_run(text, n + next, false);
        }
        assert(words_spec(text, k) =~= words_spec(text, n));
        assert(words_spec(a, k) =~= Seq::empty());
        assert(words_spec(text, k) =~= words_spec(a, k) + words_spec(b, 0));
    }
}

/// The fields of a text are its words, in their order, and behind them there are empty ones.
pub proof fn fields_are_words(text: Seq<char>, from: int, n: nat)
    requires
        0 <= from <= text.len(),
    ensures
        field(text, from, n) == if n < words_spec(text, from).len() {
            words_spec(text, from)[n as int]
        } else {
            Seq::empty()
        },
    decreases n,
{
    let start = run_end(text, from, true);
    let end = run_end(text, start, false);
    lemma_run(text, from, true);
    lemma_run(text, start, false);
    if start < text.len() {
        lemma_word_ends(text, from);
    }
    if n > 0 {
        fields_are_words(text, end, (n - 1) as nat);
        if start >= text.len() {
            assert(run_end(text, end, true) == end);
        }
    }
}

/// Blanks, tabs and line ends are white space; nothing else of ASCII that can be seen is.
pub proof fn visible_characters_are_no_space(c: char)
    ensures
        c == ' ' || c == '\t' || c == '\n' || c == '\r' ==> is_space(c),
        '!' <= c && c <= '~' ==> !is_space(c),
{
}

} // verus!
