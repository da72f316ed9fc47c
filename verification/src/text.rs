//! Characters, words and numbers, as the line protocol reads and writes them.

use vstd::prelude::*;
use vstd::string::StringExecFns;

verus! {

/// Whether `c` separates words: space, tab, line feed, form feed or carriage
/// return.
pub open spec fn is_space(c: char) -> bool {
    c == ' ' || c == '\t' || c == '\n' || c == '\x0C' || c == '\r'
}

/// Whether `c` separates words.
pub fn separates(c: char) -> (b: bool)
    ensures
        b == is_space(c),
{
    c == ' ' || c == '\t' || c == '\n' || c == '\x0C' || c == '\r'
}

/// The words that end inside `s`, and the word that is still open at its end
/// (empty where `s` is empty or ends with a separator).
pub open spec fn scan(s: Seq<char>) -> (Seq<Seq<char>>, Seq<char>)
    decreases s.len(),
{
    if s.len() == 0 {
        (Seq::empty(), Seq::empty())
    } else {
        let (done, open) = scan(s.drop_last());
        if !is_space(s.last()) {
            (done, open.push(s.last()))
        } else if open.len() > 0 {
            (done.push(open), Seq::empty())
        } else {
            (done, open)
        }
    }
}

/// The words of `s`: its longest runs of characters that are not separators,
/// in their order.
pub open spec fn words(s: Seq<char>) -> Seq<Seq<char>> {
    let (done, open) = scan(s);
    if open.len() > 0 {
        done.push(open)
    } else {
        done
    }
}

/// Whether `word` is a word: not empty, and without a separator.
pub open spec fn is_word(word: Seq<char>) -> bool {
    word.len() > 0 && forall|i: int| 0 <= i < word.len() ==> !is_space(#[trigger] word[i])
}

/// The words that end inside a text are words, and the word that is open at
/// its end holds no separator.
pub proof fn lemma_scan_yields_words(s: Seq<char>)
    ensures
        forall|k: int| 0 <= k < scan(s).0.len() ==> is_word(#[trigger] scan(s).0[k]),
        forall|i: int| 0 <= i < scan(s).1.len() ==> !is_space(#[trigger] scan(s).1[i]),
    decreases s.len(),
{
    if s.len() > 0 {
        lemma_scan_yields_words(s.drop_last());
        let (done, open) = scan(s.drop_last());
        let (after, still) = scan(s);
        if !is_space(s.last()) {
            assert(still == open.push(s.last()));
            assert forall|i: int| 0 <= i < still.len() implies !is_space(#[trigger] still[i]) by {
                if i < open.len() {
                    assert(still[i] == open[i]);
                }
            }
        } else if open.len() > 0 {
            assert(after == done.push(open));
            assert forall|k: int| 0 <= k < after.len() implies is_word(#[trigger] after[k]) by {
                if k < done.len() {
                    assert(after[k] == done[k]);
                } else {
                    assert(after[k] == open);
                }
            }
        }
    }
}

/// Each of the words of a text is not empty and holds no separator.
pub proof fn lemma_words_are_words(s: Seq<char>)
    ensures
        forall|k: int| 0 <= k < words(s).len() ==> is_word(#[trigger] words(s)[k]),
{
    lemma_scan_yields_words(s);
}

/// The words that the ranges `spans` cut out of `s`.
pub open spec fn cut(s: Seq<char>, spans: Seq<(usize, usize)>) -> Seq<Seq<char>> {
    Seq::new(spans.len(), |k: int| s.subrange(spans[k].0 as int, spans[k].1 as int))
}

/// Where the words of `chars` begin and end.
pub fn split(chars: &Vec<char>) -> (spans: Vec<(usize, usize)>)
    ensures
        cut(chars@, spans@) == words(chars@),
        forall|k: int|
            0 <= k < spans.len() ==> (#[trigger] spans[k]).0 < spans[k].1 <= chars.len(),
{
    let mut spans: Vec<(usize, usize)> = Vec::new();
    let mut start: usize = 0;
    let mut i: usize = 0;
    while i < chars.len()
        invariant
            start <= i <= chars.len(),
            scan(chars@.take(i as int)) == (
                cut(chars@, spans@),
                chars@.subrange(start as int, i as int),
            ),
            forall|k: int|
                0 <= k < spans.len() ==> (#[trigger] spans[k]).0 < spans[k].1 <= chars.len(),
        decreases chars.len() - i,
    {
        let ghost before = cut(chars@, spans@);
        assert(chars@.take(i + 1).drop_last() =~= chars@.take(i as int));
        if !separates(chars[i]) {
            assert(chars@.subrange(start as int, i + 1) =~= chars@.subrange(
                start as int,
                i as int,
            ).push(chars@[i as int]));
        } else {
            if start < i {
                spans.push((start, i));
                assert(cut(chars@, spans@) =~= before.push(
                    chars@.subrange(start as int, i as int),
                ));
            }
            start = i + 1;
            assert(chars@.subrange(start as int, i + 1) =~= Seq::<char>::empty());
        }
        i += 1;
    }
    assert(chars@.take(i as int) =~= chars@);
    if start < i {
        let ghost before = cut(chars@, spans@);
        spans.push((start, i));
        assert(cut(chars@, spans@) =~= before.push(chars@.subrange(start as int, i as int)));
    }
    spans
}

/// The code of `c`, with the small letters a to z taken for their capitals.
pub open spec fn fold_case(c: char) -> u32 {
    if 'a' <= c <= 'z' {
        (c as u32 - 32) as u32
    } else {
        c as u32
    }
}

/// Whether `a` and `b` are the same word but for the case of the letters a to
/// z.
pub open spec fn same_word(a: Seq<char>, b: Seq<char>) -> bool {
    a.len() == b.len() && forall|i: int| 0 <= i < a.len() ==> fold_case(a[i]) == fold_case(b[i])
}

/// The code of `c`, with the small letters a to z taken for their capitals.
fn folded(c: char) -> (code: u32)
    ensures
        code == fold_case(c),
{
    if 'a' <= c && c <= 'z' {
        c as u32 - 32
    } else {
        c as u32
    }
}

/// Whether the characters of `chars` from `from` up to `to` spell `word`, the
/// case of the letters a to z apart.
pub fn spells(chars: &Vec<char>, from: usize, to: usize, word: &str) -> (b: bool)
    requires
        from <= to <= chars.len(),
    ensures
        b == same_word(chars@.subrange(from as int, to as int), word@),
{
    let letters = crate::text::chars_of(word);
    if letters.len() != to - from {
        return false;
    }
    let ghost token = chars@.subrange(from as int, to as int);
    let mut i: usize = 0;
    while i < letters.len()
        invariant
            i <= letters.len(),
            letters.len() == to - from,
            to <= chars.len(),
            letters@ == word@,
            token == chars@.subrange(from as int, to as int),
            forall|j: int| 0 <= j < i ==> fold_case(token[j]) == fold_case(letters[j]),
        decreases letters.len() - i,
    {
        if folded(chars[from + i]) != folded(letters[i]) {
            assert(token[i as int] == chars[from + i]);
            return false;
        }
        assert(token[i as int] == chars[from + i]);
        i += 1;
    }
    true
}

/// The characters of `s`, one by one.
pub fn chars_of(s: &str) -> (chars: Vec<char>)
    ensures
        chars@ == s@,
{
    let mut chars: Vec<char> = Vec::new();
    for c in it: s.chars()
        invariant
            it.seq() == s@,
            chars@ == it.seq().take(it.index()),
    {
        chars.push(c);
    }
    chars
}

/// Whether `c` is one of the digits 0 to 9.
pub open spec fn is_digit(c: char) -> bool {
    '0' <= c <= '9'
}

/// The number that the digits of `digits` write in base ten.
pub open spec fn number(digits: Seq<char>) -> nat
    decreases digits.len(),
{
    if digits.len() == 0 {
        0
    } else {
        (number(digits.drop_last()) * 10 + (digits.last() as u32 - '0' as u32)) as nat
    }
}

/// The 64-bit integer that `text` writes: a sign or none, then one digit or
/// more, and nothing else. Nothing where `text` is not of that form or the
/// number does not fit.
pub open spec fn integer(text: Seq<char>) -> Option<i64> {
    let digits = unsigned(text);
    let value = if text.len() > 0 && text[0] == '-' {
        -(number(digits) as int)
    } else {
        number(digits) as int
    };
    if digits.len() > 0 && all_digits(digits) && i64::MIN <= value <= i64::MAX {
        Some(value as i64)
    } else {
        None
    }
}

/// What is left of `text` without the sign it begins with, if it begins with
/// one.
pub open spec fn unsigned(text: Seq<char>) -> Seq<char> {
    if text.len() > 0 && (text[0] == '-' || text[0] == '+') {
        text.drop_first()
    } else {
        text
    }
}

/// Whether `digits` holds digits only.
pub open spec fn all_digits(digits: Seq<char>) -> bool {
    forall|i: int| 0 <= i < digits.len() ==> is_digit(#[trigger] digits[i])
}

/// Digits written behind a number do not make it smaller.
pub proof fn lemma_number_grows(digits: Seq<char>, k: int)
    requires
        0 <= k <= digits.len(),
        all_digits(digits),
    ensures
        number(digits.take(k)) <= number(digits),
    decreases digits.len() - k,
{
    if k < digits.len() {
        lemma_number_grows(digits, k + 1);
        assert(digits.take(k + 1).drop_last() =~= digits.take(k));
    } else {
        assert(digits.take(k) =~= digits);
    }
}

/// Reads the characters of `chars` from `from` up to `to` as a 64-bit integer.
#[verifier::loop_isolation(false)]
pub fn parse_integer(chars: &Vec<char>, from: usize, to: usize) -> (value: Option<i64>)
    requires
        from <= to <= chars.len(),
    ensures
        value == integer(chars@.subrange(from as int, to as int)),
{
    let ghost text = chars@.subrange(from as int, to as int);
    if from == to {
        return None;
    }
    assert(text[0] == chars[from as int]);
    let negative = chars[from] == '-';
    let signed = negative || chars[from] == '+';
    let first: usize = if signed {
        from + 1
    } else {
        from
    };
    let ghost digits = chars@.subrange(first as int, to as int);
    assert(digits =~= unsigned(text));
    if first == to {
        return None;
    }
    let limit: u64 = 9223372036854775808;
    let mut total: u64 = 0;
    let mut i: usize = first;
    while i < to
        invariant
            first <= i <= to <= chars.len(),
            digits == chars@.subrange(first as int, to as int),
            forall|j: int| 0 <= j < i - first ==> is_digit(digits[j]),
            total == number(digits.take(i - first)),
            total <= limit,
            limit == 9223372036854775808,
        decreases to - i,
    {
        let c = chars[i];
        assert(digits[i - first] == c);
        if !('0' <= c && c <= '9') {
            assert(!is_digit(digits[i - first]));
            return None;
        }
        let digit: u64 = (c as u32 - '0' as u32) as u64;
        assert(digits.take(i - first + 1).drop_last() =~= digits.take(i - first));
        assert(digits.take(i - first + 1).last() == c);
        if total > (limit - digit) / 10 {
            proof {
                assert(number(digits.take(i - first + 1)) == total * 10 + digit);
                if all_digits(digits) {
                    lemma_number_grows(digits, i - first + 1);
                }
            }
            return None;
        }
        total = total * 10 + digit;
        i += 1;
    }
    assert(digits.take(i - first) =~= digits);
    if negative {
        if total == limit {
            Some(i64::MIN)
        } else {
            Some(-(total as i64))
        }
    } else if total == limit {
        None
    } else {
        Some(total as i64)
    }
}

/// The character that writes the digit `d`.
pub open spec fn digit_char(d: int) -> char {
    if d == 0 {
        '0'
    } else if d == 1 {
        '1'
    } else if d == 2 {
        '2'
    } else if d == 3 {
        '3'
    } else if d == 4 {
        '4'
    } else if d == 5 {
        '5'
    } else if d == 6 {
        '6'
    } else if d == 7 {
        '7'
    } else if d == 8 {
        '8'
    } else {
        '9'
    }
}

/// The digits that write `n` in base ten, without leading zeros.
pub open spec fn digits_of(n: nat) -> Seq<char>
    decreases n,
{
    if n < 10 {
        seq![digit_char(n as int)]
    } else {
        digits_of(n / 10).push(digit_char((n % 10) as int))
    }
}

/// How `n` is written in base ten: a minus sign where it is negative, then
/// its digits.
pub open spec fn decimal(n: int) -> Seq<char> {
    if n < 0 {
        seq!['-'] + digits_of((-n) as nat)
    } else {
        digits_of(n as nat)
    }
}

/// The text that writes the digit `d`.
fn digit_text(d: u64) -> (text: &'static str)
    requires
        d < 10,
    ensures
        text@ == seq![digit_char(d as int)],
{
    proof {
        reveal_strlit("0");
        reveal_strlit("1");
        reveal_strlit("2");
        reveal_strlit("3");
        reveal_strlit("4");
        reveal_strlit("5");
        reveal_strlit("6");
        reveal_strlit("7");
        reveal_strlit("8");
        reveal_strlit("9");
    }
    let text = if d == 0 {
        "0"
    } else if d == 1 {
        "1"
    } else if d == 2 {
        "2"
    } else if d == 3 {
        "3"
    } else if d == 4 {
        "4"
    } else if d == 5 {
        "5"
    } else if d == 6 {
        "6"
    } else if d == 7 {
        "7"
    } else if d == 8 {
        "8"
    } else {
        "9"
    };
    assert(text@ =~= seq![digit_char(d as int)]);
    text
}

/// The digits of `lowest_first` as characters, the last one first.
pub open spec fn reversed_digits(lowest_first: Seq<u64>) -> Seq<char> {
    Seq::new(
        lowest_first.len(),
        |i: int| digit_char(lowest_first[lowest_first.len() - 1 - i] as int),
    )
}

/// Writes `n` behind what `out` holds, in base ten.
pub fn write_decimal(out: &mut String, n: i64)
    ensures
        final(out)@ == old(out)@ + decimal(n as int),
{
    let ghost start = out@;
    let mut rest: u64 = if n < 0 {
        proof {
            reveal_strlit("-");
        }
        out.append("-");
        if n == i64::MIN {
            9223372036854775808
        } else {
            (-n) as u64
        }
    } else {
        n as u64
    };
    let ghost sign: Seq<char> = if n < 0 {
        seq!['-']
    } else {
        Seq::empty()
    };
    let ghost magnitude: nat = rest as nat;
    assert(out@ =~= start + sign);
    assert(decimal(n as int) == sign + digits_of(magnitude));
    let mut lowest_first: Vec<u64> = Vec::new();
    while rest >= 10
        invariant
            digits_of(magnitude) == digits_of(rest as nat) + reversed_digits(lowest_first@),
            forall|i: int| 0 <= i < lowest_first.len() ==> lowest_first[i] < 10,
        decreases rest,
    {
        let ghost before = lowest_first@;
        lowest_first.push(rest % 10);
        assert(digits_of(rest as nat) == digits_of((rest / 10) as nat).push(
            digit_char((rest % 10) as int),
        ));
        assert(reversed_digits(lowest_first@) =~= seq![digit_char((rest % 10) as int)]
            + reversed_digits(before));
        assert(digits_of(rest as nat) + reversed_digits(before) =~= digits_of((rest / 10) as nat)
            + reversed_digits(lowest_first@));
        rest = rest / 10;
    }
    out.append(digit_text(rest));
    assert(digits_of(rest as nat) =~= seq![digit_char(rest as int)]);
    let mut left: usize = lowest_first.len();
    while left > 0
        invariant
            left <= lowest_first.len(),
            forall|i: int| 0 <= i < lowest_first.len() ==> lowest_first[i] < 10,
            out@ == start + sign + digits_of(rest as nat) + reversed_digits(lowest_first@).take(
                lowest_first.len() - left,
            ),
        decreases left,
    {
        let ghost written = out@;
        left -= 1;
        out.append(digit_text(lowest_first[left]));
        assert(reversed_digits(lowest_first@).take(lowest_first.len() - left) =~= reversed_digits(
            lowest_first@,
        ).take(lowest_first.len() - left - 1).push(digit_char(lowest_first[left as int] as int)));
        assert(out@ =~= start + sign + digits_of(rest as nat) + reversed_digits(
            lowest_first@,
        ).take(lowest_first.len() - left));
    }
    assert(reversed_digits(lowest_first@).take(lowest_first.len() as int) =~= reversed_digits(
        lowest_first@,
    ));
    assert(out@ =~= start + (sign + digits_of(magnitude)));
}

/// The digits that write a number are digits, and they write that number.
pub proof fn lemma_digits_write_the_number(n: nat)
    ensures
        digits_of(n).len() > 0,
        all_digits(digits_of(n)),
        number(digits_of(n)) == n,
    decreases n,
{
    let digits = digits_of(n);
    if n < 10 {
        assert(digits.drop_last() =~= Seq::<char>::empty());
        assert(number(digits.drop_last()) == 0);
    } else {
        lemma_digits_write_the_number(n / 10);
        assert(digits.drop_last() =~= digits_of(n / 10));
        assert(digits.last() == digit_char((n % 10) as int));
        assert forall|i: int| 0 <= i < digits.len() implies is_digit(#[trigger] digits[i]) by {
            if i < digits.len() - 1 {
                assert(digits[i] == digits_of(n / 10)[i]);
            }
        }
    }
}

/// A 64-bit integer that is written and read again is the same integer.
pub proof fn law_written_is_read_back(n: i64)
    ensures
        integer(decimal(n as int)) == Some(n),
{
    let text = decimal(n as int);
    if n < 0 {
        let digits = digits_of((-n) as nat);
        lemma_digits_write_the_number((-n) as nat);
        assert(text[0] == '-');
        assert(text.drop_first() =~= digits);
    } else {
        lemma_digits_write_the_number(n as nat);
        assert(is_digit(text[0]));
    }
}

} // verus!
