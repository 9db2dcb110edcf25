//! Reading and writing small pieces of text: words, lines and numbers.

use vstd::prelude::*;

verus! {

/// The characters that Unicode calls white space.
pub open spec fn white_space(c: char) -> bool {
    ||| '\u{9}' <= c <= '\u{d}'
    ||| c == ' '
    ||| c == '\u{85}'
    ||| c == '\u{a0}'
    ||| c == '\u{1680}'
    ||| '\u{2000}' <= c <= '\u{200a}'
    ||| c == '\u{2028}'
    ||| c == '\u{2029}'
    ||| c == '\u{202f}'
    ||| c == '\u{205f}'
    ||| c == '\u{3000}'
}

/// Whether `c` is white space.
pub fn is_white_space(c: char) -> (result: bool)
    ensures
        result == white_space(c),
{
    ('\u{9}' <= c && c <= '\u{d}') || c == ' ' || c == '\u{85}' || c == '\u{a0}' || c == '\u{1680}'
        || ('\u{2000}' <= c && c <= '\u{200a}') || c == '\u{2028}' || c == '\u{2029}' || c
        == '\u{202f}' || c == '\u{205f}' || c == '\u{3000}'
}

/// How many characters stand before the first one that `stop` picks.
pub open spec fn length_before(text: Seq<char>, stop: spec_fn(char) -> bool) -> nat
    decreases text.len(),
{
    if text.len() == 0 || stop(text[0]) {
        0
    } else {
        1 + length_before(text.skip(1), stop)
    }
}

/// The pieces of `text` between the line feeds.
pub open spec fn lines(text: Seq<char>) -> Seq<Seq<char>>
    decreases text.len(),
{
    let n = length_before(text, |c: char| c == '\n') as int;
    if 0 <= n < text.len() {
        seq![text.take(n)] + lines(text.skip(n + 1))
    } else {
        seq![text.take(n)]
    }
}

/// `text` without leading white space.
pub open spec fn trimmed_start(text: Seq<char>) -> Seq<char>
    decreases text.len(),
{
    if text.len() > 0 && white_space(text[0]) {
        trimmed_start(text.skip(1))
    } else {
        text
    }
}

/// `text` without trailing white space.
pub open spec fn trimmed_end(text: Seq<char>) -> Seq<char>
    decreases text.len(),
{
    if text.len() > 0 && white_space(text.last()) {
        trimmed_end(text.drop_last())
    } else {
        text
    }
}

/// The value of a decimal digit.
pub open spec fn digit_value(c: char) -> Option<nat> {
    if '0' <= c <= '9' {
        Some((c as nat - '0' as nat) as nat)
    } else {
        None
    }
}

/// The number that a sequence of decimal digits stands for.
pub open spec fn digits_value(digits: Seq<char>) -> Option<nat>
    decreases digits.len(),
{
    if digits.len() == 0 {
        Some(0)
    } else {
        match (digits_value(digits.drop_last()), digit_value(digits.last())) {
            (Some(high), Some(low)) => Some(10 * high + low),
            _ => None,
        }
    }
}

/// The `usize` that a text spells in decimal: digits, at least one, after an
/// optional plus sign.
pub open spec fn number_value(text: Seq<char>) -> Option<usize> {
    let digits = if text.len() > 0 && text[0] == '+' {
        text.skip(1)
    } else {
        text
    };
    match digits_value(digits) {
        Some(value) if digits.len() > 0 && value <= usize::MAX => Some(value as usize),
        _ => None,
    }
}

/// The decimal digit for a number below ten.
pub open spec fn digit(value: nat) -> char {
    ('0' as nat + value % 10) as char
}

/// A number in decimal, without leading zeros.
pub open spec fn decimal(value: nat) -> Seq<char>
    decreases value,
{
    if value < 10 {
        seq![digit(value)]
    } else {
        decimal(value / 10).push(digit(value))
    }
}

/// The characters of a string.
pub fn characters(text: &str) -> (chars: Vec<char>)
    ensures
        chars@ == text@,
{
    let mut chars: Vec<char> = Vec::new();
    for c in it: text.chars()
        invariant
            it.seq() == text@,
            chars@ == it.seq().take(it.index()),
    {
        chars.push(c);
    }
    chars
}

/// The end of the run of characters from `from` on that are no `stop`.
pub fn find(chars: &Vec<char>, from: usize, to: usize, stop: char) -> (end: usize)
    requires
        from <= to <= chars.len(),
    ensures
        from <= end <= to,
        end - from == length_before(
            chars@.subrange(from as int, to as int),
            |c: char| c == stop,
        ),
{
    let ghost rule = |c: char| c == stop;
    let mut i: usize = from;
    while i < to
        invariant
            from <= i <= to <= chars.len(),
            rule == (|c: char| c == stop),
            length_before(chars@.subrange(from as int, to as int), rule) == i - from
                + length_before(chars@.subrange(i as int, to as int), rule),
        decreases to - i,
    {
        if chars[i] == stop {
            assert(chars@.subrange(i as int, to as int)[0] == stop);
            return i;
        }
        assert(chars@.subrange(i as int, to as int).skip(1) =~= chars@.subrange(
            i + 1,
            to as int,
        ));
        i += 1;
    }
    i
}

/// The end of the word that starts at `from`.
pub fn find_white_space(chars: &Vec<char>, from: usize, to: usize) -> (end: usize)
    requires
        from <= to <= chars.len(),
    ensures
        from <= end <= to,
        end - from == length_before(
            chars@.subrange(from as int, to as int),
            |c: char| white_space(c),
        ),
{
    let ghost rule = |c: char| white_space(c);
    let mut i: usize = from;
    while i < to
        invariant
            from <= i <= to <= chars.len(),
            rule == (|c: char| white_space(c)),
            length_before(chars@.subrange(from as int, to as int), rule) == i - from
                + length_before(chars@.subrange(i as int, to as int), rule),
        decreases to - i,
    {
        if is_white_space(chars[i]) {
            assert(rule(chars@.subrange(i as int, to as int)[0]));
            return i;
        }
        assert(chars@.subrange(i as int, to as int).skip(1) =~= chars@.subrange(
            i + 1,
            to as int,
        ));
        i += 1;
    }
    i
}

/// Narrows a stretch of text to what is left without the white space around.
pub fn trim(chars: &Vec<char>, from: usize, to: usize) -> (range: (usize, usize))
    requires
        from <= to <= chars.len(),
    ensures
        from <= range.0 <= range.1 <= to,
        chars@.subrange(range.0 as int, range.1 as int) == trimmed_end(
            trimmed_start(chars@.subrange(from as int, to as int)),
        ),
{
    let mut low: usize = from;
    while low < to && is_white_space(chars[low])
        invariant
            from <= low <= to <= chars.len(),
            trimmed_start(chars@.subrange(from as int, to as int)) == trimmed_start(
                chars@.subrange(low as int, to as int),
            ),
        decreases to - low,
    {
        assert(chars@.subrange(low as int, to as int).skip(1) =~= chars@.subrange(
            low + 1,
            to as int,
        ));
        low += 1;
    }
    let ghost start = chars@.subrange(low as int, to as int);
    assert(trimmed_start(start) == start);
    let mut high: usize = to;
    while low < high && is_white_space(chars[high - 1])
        invariant
            low <= high <= to <= chars.len(),
            trimmed_end(start) == trimmed_end(chars@.subrange(low as int, high as int)),
        decreases high,
    {
        assert(chars@.subrange(low as int, high as int).drop_last() =~= chars@.subrange(
            low as int,
            high - 1,
        ));
        high -= 1;
    }
    (low, high)
}

/// Whether a stretch of text is the given word.
pub fn is_word(chars: &Vec<char>, from: usize, to: usize, word: &str) -> (result: bool)
    requires
        from <= to <= chars.len(),
    ensures
        result == (chars@.subrange(from as int, to as int) == word@),
{
    let length = word.unicode_len();
    let ghost stretch = chars@.subrange(from as int, to as int);
    if to - from != length {
        return false;
    }
    let mut i: usize = 0;
    while i < length
        invariant
            from + length == to,
            to <= chars.len(),
            length == word@.len(),
            i <= length,
            stretch == chars@.subrange(from as int, to as int),
            forall|j: int| 0 <= j < i ==> stretch[j] == word@[j],
        decreases length - i,
    {
        if chars[from + i] != word.get_char(i) {
            assert(stretch[i as int] != word@[i as int]);
            return false;
        }
        i += 1;
    }
    assert(stretch =~= word@);
    true
}

/// No digit appended to a number makes it smaller, and no text that starts
/// with something else than digits is a number.
proof fn lemma_digits_value_grows(digits: Seq<char>, n: int)
    requires
        0 <= n <= digits.len(),
        digits_value(digits) is Some,
    ensures
        digits_value(digits.take(n)) is Some,
        digits_value(digits.take(n))->0 <= digits_value(digits)->0,
    decreases digits.len(),
{
    if n < digits.len() {
        lemma_digits_value_grows(digits.drop_last(), n);
        assert(digits.drop_last().take(n) =~= digits.take(n));
    } else {
        assert(digits.take(n) =~= digits);
    }
}

/// Reads a number.
pub fn parse_number(chars: &Vec<char>, from: usize, to: usize) -> (number: Option<usize>)
    requires
        from <= to <= chars.len(),
    ensures
        number == number_value(chars@.subrange(from as int, to as int)),
{
    let ghost text = chars@.subrange(from as int, to as int);
    let mut low: usize = from;
    if from < to && chars[from] == '+' {
        low = from + 1;
        assert(text.skip(1) =~= chars@.subrange(low as int, to as int));
    }
    let ghost digits = chars@.subrange(low as int, to as int);
    if low == to {
        return None;
    }
    let mut value: usize = 0;
    let mut i: usize = low;
    assert(digits.take(0) =~= seq![]);
    while i < to
        invariant
            low <= i <= to <= chars.len(),
            text == chars@.subrange(from as int, to as int),
            digits == chars@.subrange(low as int, to as int),
            digits_value(digits.take(i - low)) == Some(value as nat),
            low < to,
            number_value(text) == (match digits_value(digits) {
                Some(value) if digits.len() > 0 && value <= usize::MAX => Some(value as usize),
                _ => None,
            }),
        decreases to - i,
    {
        let c = chars[i];
        let ghost next = digits.take(i + 1 - low);
        proof {
            assert(next.drop_last() =~= digits.take(i - low));
            assert(next.last() == c);
            if digits_value(digits) is Some {
                lemma_digits_value_grows(digits, i + 1 - low);
            }
        }
        if c < '0' || '9' < c {
            return None;
        }
        let low_digit: usize = (c as u32 - '0' as u32) as usize;
        if value > (usize::MAX - low_digit) / 10 {
            return None;
        }
        value = 10 * value + low_digit;
        i += 1;
    }
    assert(digits.take(to - low) =~= digits);
    Some(value)
}

/// Appends a number in decimal.
pub fn append_decimal(text: &mut String, value: usize)
    ensures
        final(text)@ == old(text)@ + decimal(value as nat),
    decreases value,
{
    let ghost before = text@;
    if value >= 10 {
        append_decimal(text, value / 10);
    }
    let ghost high = text@;
    let low = value % 10;
    proof {
        reveal_strlit("0");
        reveal_strlit("1");
        reveal_strlit("2");
        reveal_strlit("3");
        reveal_strlit("4");
        reveal_strlit("5");
        reveal_strlit("6");
        reveal_strlit("7");
        reveal_strlit("8");
        reveal_strlit("9");
    }
    if low == 0 {
        text.append("0");
    } else if low == 1 {
        text.append("1");
    } else if low == 2 {
        text.append("2");
    } else if low == 3 {
        text.append("3");
    } else if low == 4 {
        text.append("4");
    } else if low == 5 {
        text.append("5");
    } else if low == 6 {
        text.append("6");
    } else if low == 7 {
        text.append("7");
    } else if low == 8 {
        text.append("8");
    } else {
        text.append("9");
    }
    assert(text@ =~= high.push(digit(value as nat)));
    assert(text@ =~= before + decimal(value as nat));
}

/// Where the first character that `stop` picks stands, if there is one.
pub proof fn lemma_length_before_first(text: Seq<char>, stop: spec_fn(char) -> bool)
    ensures
        length_before(text, stop) <= text.len(),
        length_before(text, stop) < text.len() ==> stop(text[length_before(text, stop) as int]),
        forall|i: int| 0 <= i < length_before(text, stop) ==> !stop(#[trigger] text[i]),
    decreases text.len(),
{
    if text.len() > 0 && !stop(text[0]) {
        let rest = text.skip(1);
        let n = length_before(rest, stop) as int;
        lemma_length_before_first(rest, stop);
        assert forall|i: int| 0 <= i < n + 1 implies !stop(#[trigger] text[i]) by {
            if i > 0 {
                assert(rest[i - 1] == text[i]);
            }
        }
        if n < rest.len() {
            assert(rest[n] == text[n + 1]);
        }
    }
}

/// The length before the first character that `stop` picks is the number of
/// characters before it, all of which it does not pick.
pub proof fn law_length_before_is_first(text: Seq<char>, stop: spec_fn(char) -> bool, n: nat)
    requires
        n <= text.len(),
        n < text.len() ==> stop(text[n as int]),
        forall|i: int| 0 <= i < n ==> !stop(#[trigger] text[i]),
    ensures
        length_before(text, stop) == n,
{
    lemma_length_before_first(text, stop);
    let found = length_before(text, stop);
    if found < n {
        assert(stop(text[found as int]));
    } else if n < found {
        assert(!stop(text[n as int]));
    }
}

/// A text is cut at its line feeds, and nowhere else: what stands before the
/// first one is the first line, and what follows it is cut in the same way.
pub proof fn law_lines_end_at_line_feeds(line: Seq<char>, rest: Seq<char>)
    requires
        !line.contains('\n'),
    ensures
        lines(line) == seq![line],
        lines(line + seq!['\n'] + rest) == seq![line] + lines(rest),
{
    let stop = |c: char| c == '\n';
    let whole = line + seq!['\n'] + rest;
    let n = line.len() as int;
    assert forall|i: int| 0 <= i < n implies !stop(#[trigger] line[i]) by {
        assert(line.contains(line[i]));
    }
    law_length_before_is_first(line, stop, line.len());
    assert(line.take(n) =~= line);
    assert forall|i: int| 0 <= i < n implies !stop(#[trigger] whole[i]) by {
        assert(whole[i] == line[i]);
    }
    law_length_before_is_first(whole, stop, line.len());
    assert(whole.take(n) =~= line);
    assert(whole.skip(n + 1) =~= rest);
}

/// Trimming the start takes away white space, and leaves none there.
pub proof fn lemma_trimmed_start_leaves(text: Seq<char>) -> (n: int)
    ensures
        0 <= n <= text.len(),
        trimmed_start(text) == text.skip(n),
        forall|i: int| 0 <= i < n ==> white_space(#[trigger] text[i]),
        n < text.len() ==> !white_space(text[n]),
    decreases text.len(),
{
    if text.len() > 0 && white_space(text[0]) {
        let rest = text.skip(1);
        let n = lemma_trimmed_start_leaves(rest);
        assert(rest.skip(n) =~= text.skip(n + 1));
        assert forall|i: int| 0 <= i < n + 1 implies white_space(#[trigger] text[i]) by {
            if i > 0 {
                assert(rest[i - 1] == text[i]);
            }
        }
        if n < rest.len() {
            assert(rest[n] == text[n + 1]);
        }
        n + 1
    } else {
        assert(text.skip(0) =~= text);
        0
    }
}

/// Trimming the end takes away white space, and leaves none there.
pub proof fn lemma_trimmed_end_leaves(text: Seq<char>) -> (n: int)
    ensures
        0 <= n <= text.len(),
        trimmed_end(text) == text.take(n),
        forall|i: int| n <= i < text.len() ==> white_space(#[trigger] text[i]),
        n > 0 ==> !white_space(text[n - 1]),
    decreases text.len(),
{
    if text.len() > 0 && white_space(text.last()) {
        let rest = text.drop_last();
        let n = lemma_trimmed_end_leaves(rest);
        assert(rest.take(n) =~= text.take(n));
        assert forall|i: int| n <= i < text.len() implies white_space(#[trigger] text[i]) by {
            if i < rest.len() {
                assert(rest[i] == text[i]);
            }
        }
        n
    } else {
        assert(text.take(text.len() as int) =~= text);
        text.len() as int
    }
}

/// Another digit makes a number ten times as great and adds the value of the
/// digit; anything but a digit makes it no number.
pub proof fn law_digits_count_tenfold(digits: Seq<char>, c: char)
    ensures
        digits_value(seq![]) == Some(0nat),
        digits_value(digits.push(c)) == if '0' <= c <= '9' && digits_value(digits) is Some {
            Some((10 * digits_value(digits)->0 + (c as nat - 48)) as nat)
        } else {
            None
        },
{
    assert(digits.push(c).drop_last() =~= digits);
}

proof fn lemma_digits_value_of(digits: Seq<char>, i: int)
    requires
        digits_value(digits) is Some,
        0 <= i < digits.len(),
    ensures
        '0' <= digits[i] <= '9',
    decreases digits.len(),
{
    if i < digits.len() - 1 {
        lemma_digits_value_of(digits.drop_last(), i);
    }
}

proof fn lemma_decimal(value: nat)
    ensures
        decimal(value).len() > 0,
        digits_value(decimal(value)) == Some(value),
        '0' <= decimal(value)[0] <= '9',
        value > 0 ==> decimal(value)[0] != '0',
    decreases value,
{
    let c = digit(value);
    let low = value % 10;
    assert(c as nat == 48 + low);
    if value < 10 {
        assert(seq![c] =~= Seq::<char>::empty().push(c));
        law_digits_count_tenfold(seq![], c);
    } else {
        lemma_decimal(value / 10);
        law_digits_count_tenfold(decimal(value / 10), c);
    }
}

/// A number written in decimal reads as itself if it fits, and as no number if
/// it does not. It has digits only, and no leading zero unless it is zero.
pub proof fn law_decimal_reads_as_itself(value: nat)
    ensures
        number_value(decimal(value)) == if value <= usize::MAX {
            Some(value as usize)
        } else {
            None
        },
        forall|i: int|
            0 <= i < decimal(value).len() ==> '0' <= #[trigger] decimal(value)[i] <= '9',
        decimal(value).len() > 0,
        value > 0 ==> decimal(value)[0] != '0',
{
    lemma_decimal(value);
    assert forall|i: int| 0 <= i < decimal(value).len() implies '0' <= #[trigger] decimal(value)[i]
        <= '9' by {
        lemma_digits_value_of(decimal(value), i);
    }
}

proof fn lemma_leading_zero(digits: Seq<char>)
    ensures
        digits_value(seq!['0'] + digits) == digits_value(digits),
    decreases digits.len(),
{
    let whole = seq!['0'] + digits;
    if digits.len() == 0 {
        assert(whole =~= Seq::<char>::empty().push('0'));
        law_digits_count_tenfold(seq![], '0');
        assert(digits =~= seq![]);
    } else {
        lemma_leading_zero(digits.drop_last());
        assert(whole =~= (seq!['0'] + digits.drop_last()).push(digits.last()));
        assert(digits =~= digits.drop_last().push(digits.last()));
        law_digits_count_tenfold(seq!['0'] + digits.drop_last(), digits.last());
        law_digits_count_tenfold(digits.drop_last(), digits.last());
    }
}

/// Leading zeros and one plus sign in front do not change a number. A sign
/// alone, two signs and nothing at all are no numbers, and neither is a text
/// with anything but digits behind an optional sign.
pub proof fn law_number_forms(text: Seq<char>, i: int)
    ensures
        text.len() > 0 && text[0] != '+' ==> number_value(seq!['+'] + text) == number_value(text),
        text.len() > 0 && text[0] != '+' ==> number_value(seq!['0'] + text) == number_value(text),
        text.len() > 0 && text[0] == '+' ==> number_value(seq!['+'] + text) is None,
        number_value(seq![]) is None,
        number_value(seq!['+']) is None,
        0 < i < text.len() && !('0' <= text[i] <= '9') ==> number_value(text) is None,
        text.len() > 0 && text[0] != '+' && !('0' <= text[0] <= '9') ==> number_value(text) is None,
{
    let plus = seq!['+'] + text;
    let zero = seq!['0'] + text;
    assert(plus.skip(1) =~= text);
    assert(seq!['+'].skip(1) =~= seq![]);
    lemma_leading_zero(text);
    if digits_value(text) is Some && text.len() > 0 {
        lemma_digits_value_of(text, 0);
        if 0 < i < text.len() {
            lemma_digits_value_of(text, i);
        }
    }
    if text.len() > 0 && digits_value(text.skip(1)) is Some && 0 < i < text.len() {
        lemma_digits_value_of(text.skip(1), i - 1);
    }
}

} // verus!
