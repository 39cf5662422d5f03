use vstd::prelude::*;
use vstd::string::*;

verus! {

/// The characters of a string, in order.
pub fn chars_of(s: &str) -> (v: Vec<char>)
    ensures
        v@ == s@,
{
    let mut v: Vec<char> = Vec::new();
    let it = s.chars();
    for c in iter: it
        invariant
            iter.seq() == s@,
            v@ == s@.take(iter.index()),
    {
        v.push(c);
    }
    assert(s@.take(s@.len() as int) == s@);
    v
}

/// Whether two strings hold the same characters.
pub fn same_text(a: &str, b: &str) -> (r: bool)
    ensures
        r == (a@ == b@),
{
    let x = String::from_str(a);
    let y = String::from_str(b);
    x == y
}

/// The characters that separate words: the white space of Unicode.
pub open spec fn is_blank(c: char) -> bool {
    let u = c as u32;
    (0x09 <= u <= 0x0D) || u == 0x20 || u == 0x85 || u == 0xA0 || u == 0x1680 || (0x2000 <= u
        <= 0x200A) || u == 0x2028 || u == 0x2029 || u == 0x202F || u == 0x205F || u == 0x3000
}

/// Tests a character for being white space.
pub fn is_space(c: char) -> (r: bool)
    ensures
        r == is_blank(c),
{
    let u: u32 = c as u32;
    (0x09 <= u && u <= 0x0D) || u == 0x20 || u == 0x85 || u == 0xA0 || u == 0x1680 || (0x2000 <= u
        && u <= 0x200A) || u == 0x2028 || u == 0x2029 || u == 0x202F || u == 0x205F || u == 0x3000
}

/// The words of a text: its maximal runs of characters that are not white
/// space, from left to right. A character that is not blank either
/// lengthens the word that its neighbour on the left belongs to, or
/// starts a new word.
pub open spec fn split_words(s: Seq<char>) -> Seq<Seq<char>>
    decreases s.len(),
{
    if s.len() == 0 {
        Seq::empty()
    } else {
        let before = split_words(s.drop_last());
        let c = s.last();
        if is_blank(c) {
            before
        } else if s.len() >= 2 && !is_blank(s[s.len() - 2]) && before.len() > 0 {
            before.drop_last().push(before.last().push(c))
        } else {
            before.push(seq![c])
        }
    }
}

/// Whether a text is a word: not empty, and without white space.
pub open spec fn is_word(w: Seq<char>) -> bool {
    w.len() > 0 && forall|j: int| 0 <= j < w.len() ==> !is_blank(#[trigger] w[j])
}

/// Each word of a text is not empty and holds no white space, a text
/// without white space that is not empty is its own only word, and a text
/// of white space has no words.
pub proof fn lemma_split_words_gives_words(s: Seq<char>)
    ensures
        forall|i: int| 0 <= i < split_words(s).len() ==> is_word(#[trigger] split_words(s)[i]),
        is_word(s) ==> split_words(s) == seq![s],
        (forall|j: int| 0 <= j < s.len() ==> is_blank(#[trigger] s[j])) ==> split_words(s).len()
            == 0,
    decreases s.len(),
{
    if s.len() > 0 {
        let init = s.drop_last();
        let c = s.last();
        lemma_split_words_gives_words(init);
        let before = split_words(init);
        if is_word(s) {
            assert forall|j: int| 0 <= j < init.len() implies !is_blank(#[trigger] init[j]) by {
                assert(init[j] == s[j]);
            }
            if init.len() > 0 {
                assert(before == seq![init]);
                assert(init.push(c) =~= s);
                assert(before.drop_last().push(before.last().push(c)) =~= seq![s]);
            } else {
                assert(before.len() == 0);
                assert(seq![c] =~= s);
                assert(before.push(seq![c]) =~= seq![s]);
            }
        }
        if forall|j: int| 0 <= j < s.len() ==> is_blank(#[trigger] s[j]) {
            assert(is_blank(s[s.len() - 1]));
            assert forall|j: int| 0 <= j < init.len() implies is_blank(#[trigger] init[j]) by {
                assert(init[j] == s[j]);
            }
        }
    }
}

/// The characters of each string of a sequence.
pub open spec fn texts(v: Seq<String>) -> Seq<Seq<char>> {
    v.map_values(|w: String| w@)
}

/// Splits a line into its words.
pub fn words_of(line: &str) -> (words: Vec<String>)
    ensures
        texts(words@) == split_words(line@),
{
    let chars = chars_of(line);
    let n = chars.len();
    let mut words: Vec<String> = Vec::new();
    let mut start: usize = 0;
    let mut in_word = false;
    let mut i: usize = 0;
    while i < n
        invariant
            n == chars.len(),
            chars@ == line@,
            i <= n,
            in_word ==> start < i && !is_blank(chars@[i - 1]) && split_words(
                line@.take(i as int),
            ) == texts(words@).push(line@.subrange(start as int, i as int)),
            !in_word ==> (i > 0 ==> is_blank(chars@[i - 1])) && split_words(line@.take(i as int))
                == texts(words@),
        decreases n - i,
    {
        let c = chars[i];
        let blank = is_space(c);
        proof {
            assert(line@.take(i + 1).drop_last() == line@.take(i as int));
            assert(line@.take(i + 1).last() == c);
        }
        if blank {
            if in_word {
                let ghost before = words@;
                let word = String::from_str(line.substring_char(start, i));
                words.push(word);
                in_word = false;
                assert(texts(words@) =~= texts(before).push(word@));
            }
        } else {
            if in_word {
                proof {
                    let t = texts(words@);
                    let w = line@.subrange(start as int, i as int);
                    assert(t.push(w).drop_last() =~= t);
                    assert(w.push(c) =~= line@.subrange(start as int, i + 1));
                }
            } else {
                start = i;
                in_word = true;
                assert(seq![c] =~= line@.subrange(i as int, i + 1));
            }
        }
        i += 1;
    }
    assert(line@.take(n as int) == line@);
    if in_word {
        let ghost before = words@;
        let word = String::from_str(line.substring_char(start, n));
        words.push(word);
        assert(texts(words@) =~= texts(before).push(word@));
    }
    words
}

/// How many characters stand before the first line feed of a text; its
/// length, if it has none.
pub open spec fn first_newline(s: Seq<char>) -> nat
    decreases s.len(),
{
    if s.len() == 0 || s[0] == '\n' {
        0
    } else {
        1 + first_newline(s.drop_first())
    }
}

/// A line without the carriage return that may stand at its end.
pub open spec fn without_cr(line: Seq<char>) -> Seq<char> {
    if line.len() > 0 && line.last() == '\r' {
        line.drop_last()
    } else {
        line
    }
}

/// The lines of a text. A line ends at a line feed, or at a carriage
/// return with a line feed behind it; the last line needs no such end.
pub open spec fn split_lines(s: Seq<char>) -> Seq<Seq<char>>
    decreases s.len(),
{
    if s.len() == 0 {
        Seq::empty()
    } else {
        let n = first_newline(s);
        if n >= s.len() {
            seq![s]
        } else {
            seq![without_cr(s.take(n as int))] + split_lines(s.skip(n as int + 1))
        }
    }
}

/// The first line feed of a text is where a line feed stands with none
/// before it.
pub proof fn lemma_first_newline(s: Seq<char>, n: int)
    requires
        0 <= n <= s.len(),
        forall|k: int| 0 <= k < n ==> s[k] != '\n',
        n == s.len() || s[n] == '\n',
    ensures
        first_newline(s) == n,
    decreases s.len(),
{
    if n > 0 {
        let rest = s.drop_first();
        assert forall|k: int| 0 <= k < n - 1 implies rest[k] != '\n' by {
            assert(rest[k] == s[k + 1]);
        }
        lemma_first_newline(rest, n - 1);
    }
}

/// Splits a text into its lines.
pub fn lines_of(code: &str) -> (lines: Vec<String>)
    ensures
        texts(lines@) == split_lines(code@),
{
    let chars = chars_of(code);
    let n = chars.len();
    let mut lines: Vec<String> = Vec::new();
    let mut start: usize = 0;
    let mut i: usize = 0;
    assert(code@.skip(0) =~= code@);
    assert(texts(lines@) + split_lines(code@) =~= split_lines(code@));
    while i < n
        invariant
            n == chars.len(),
            chars@ == code@,
            start <= i <= n,
            forall|k: int| start <= k < i ==> code@[k] != '\n',
            split_lines(code@) == texts(lines@) + split_lines(code@.skip(start as int)),
        decreases n - i,
    {
        if chars[i] == '\n' {
            let end: usize = if i > start && chars[i - 1] == '\r' {
                i - 1
            } else {
                i
            };
            let ghost before = lines@;
            let ghost tail = code@.skip(start as int);
            let line = String::from_str(code.substring_char(start, end));
            lines.push(line);
            proof {
                lemma_first_newline(tail, i - start);
                assert(tail.take(i - start) =~= code@.subrange(start as int, i as int));
                assert(line@ =~= without_cr(tail.take(i - start)));
                assert(tail.skip(i - start + 1) =~= code@.skip(i + 1));
                assert(texts(lines@) =~= texts(before).push(line@));
                assert(texts(before) + (seq![line@] + split_lines(code@.skip(i + 1))) =~= texts(
                    lines@,
                ) + split_lines(code@.skip(i + 1)));
            }
            start = i + 1;
        }
        i += 1;
    }
    if start < n {
        let ghost before = lines@;
        let ghost tail = code@.skip(start as int);
        let line = String::from_str(code.substring_char(start, n));
        lines.push(line);
        proof {
            lemma_first_newline(tail, n - start);
            assert(line@ =~= tail);
            assert(texts(lines@) =~= texts(before).push(line@));
            assert(texts(before) + seq![tail] =~= texts(lines@));
        }
    } else {
        assert(code@.skip(start as int).len() == 0);
        assert(texts(lines@) + Seq::<Seq<char>>::empty() =~= texts(lines@));
    }
    lines
}

/// Whether a character is a decimal digit.
pub open spec fn is_digit(c: char) -> bool {
    48 <= c as u32 <= 57
}

/// Whether every character of a text is a decimal digit.
pub open spec fn all_digits(s: Seq<char>) -> bool {
    forall|i: int| 0 <= i < s.len() ==> is_digit(#[trigger] s[i])
}

/// The number that a text of decimal digits writes.
pub open spec fn digits_value(s: Seq<char>) -> nat
    decreases s.len(),
{
    if s.len() == 0 {
        0
    } else {
        (digits_value(s.drop_last()) * 10 + (s.last() as u32 - 48)) as nat
    }
}

/// A text without the plus sign that may stand in front of a number.
pub open spec fn without_plus(s: Seq<char>) -> Seq<char> {
    if s.len() > 0 && s[0] == '+' {
        s.skip(1)
    } else {
        s
    }
}

/// The unsigned number that a text writes, if it writes one that is at
/// most `max`: an optional plus sign and then one or more decimal digits.
pub open spec fn unsigned_of(s: Seq<char>, max: nat) -> Option<nat> {
    let body = without_plus(s);
    if body.len() > 0 && all_digits(body) && digits_value(body) <= max {
        Some(digits_value(body))
    } else {
        None
    }
}

/// The digit that writes a number from 0 to 9.
pub open spec fn digit_char(d: nat) -> char {
    if d == 0 {
        '0'
    } else if d == 1 {
        '1'
    } else if d == 2 {
        '2'
    } else if d == 3 {
        '3'
    } else if d == 4 {
        '4'
    } else if d == 5 {
        '5'
    } else if d == 6 {
        '6'
    } else if d == 7 {
        '7'
    } else if d == 8 {
        '8'
    } else {
        '9'
    }
}

/// The digits that write a number, without zeros in front.
pub open spec fn digits_of(n: nat) -> Seq<char>
    decreases n,
{
    if n < 10 {
        seq![digit_char(n)]
    } else {
        digits_of(n / 10).push(digit_char(n % 10))
    }
}

/// The digits that write a number are read back as that number.
pub proof fn lemma_digits_read_back(n: nat, max: nat)
    requires
        n <= max,
    ensures
        unsigned_of(digits_of(n), max) == Some(n),
    decreases n,
{
    lemma_digits_of(n);
}

/// The digits that write a number are digits, and their value is the
/// number.
pub proof fn lemma_digits_of(n: nat)
    ensures
        digits_of(n).len() > 0,
        all_digits(digits_of(n)),
        digits_value(digits_of(n)) == n,
    decreases n,
{
    if n < 10 {
        let s = seq![digit_char(n)];
        assert(s.drop_last() =~= Seq::<char>::empty());
        assert(digits_value(s.drop_last()) == 0);
        assert(s.last() == digit_char(n));
    } else {
        lemma_digits_of(n / 10);
        let p = digits_of(n / 10);
        let c = digit_char(n % 10);
        assert(p.push(c).drop_last() =~= p);
        assert(p.push(c).last() == c);
        assert forall|i: int| 0 <= i < p.push(c).len() implies is_digit(#[trigger] p.push(c)[i]) by {
            if i < p.len() {
                assert(p.push(c)[i] == p[i]);
            }
        }
    }
}

/// The number written by the first digits of a text is at most the number
/// written by all of them.
pub proof fn lemma_prefix_value(s: Seq<char>, k: int)
    requires
        0 <= k <= s.len(),
        all_digits(s),
    ensures
        digits_value(s.take(k)) <= digits_value(s),
    decreases s.len(),
{
    if k == s.len() {
        assert(s.take(k) == s);
    } else {
        let init = s.drop_last();
        assert(init.take(k) == s.take(k));
        assert(is_digit(s[s.len() - 1]));
        lemma_prefix_value(init, k);
    }
}

/// Reads an unsigned number that is at most `max`.
pub fn parse_unsigned(text: &str, max: u32) -> (r: Option<u32>)
    ensures
        match unsigned_of(text@, max as nat) {
            Some(v) => r == Some(v as u32),
            None => r is None,
        },
{
    let chars = chars_of(text);
    let n = chars.len();
    let first: usize = if n > 0 && chars[0] == '+' {
        1
    } else {
        0
    };
    if first == n {
        return None;
    }
    let ghost body = without_plus(text@);
    let mut acc: u64 = 0;
    let mut i: usize = first;
    while i < n
        invariant
            n == chars.len(),
            chars@ == text@,
            first <= i <= n,
            first <= 1,
            body == chars@.skip(first as int),
            body == without_plus(text@),
            all_digits(body.take(i - first)),
            acc == digits_value(body.take(i - first)),
            acc <= max,
        decreases n - i,
    {
        let u: u32 = chars[i] as u32;
        if u < 48 || u > 57 {
            assert(!is_digit(body[i - first]));
            return None;
        }
        let next: u64 = acc * 10 + (u - 48) as u64;
        proof {
            assert(body.take(i + 1 - first).drop_last() == body.take(i - first));
            assert(body.take(i + 1 - first).last() == chars@[i as int]);
        }
        if next > max as u64 {
            proof {
                if all_digits(body) {
                    lemma_prefix_value(body, i + 1 - first);
                }
            }
            return None;
        }
        acc = next;
        i += 1;
    }
    assert(body.take(n - first) == body);
    Some(acc as u32)
}

/// How many points a text holds.
pub open spec fn count_dots(s: Seq<char>) -> nat
    decreases s.len(),
{
    if s.len() == 0 {
        0
    } else {
        count_dots(s.drop_last()) + if s.last() == '.' {
            1nat
        } else {
            0nat
        }
    }
}

/// A text without the sign that may stand in front of a decimal number.
pub open spec fn without_sign(s: Seq<char>) -> Seq<char> {
    if s.len() > 0 && (s[0] == '+' || s[0] == '-') {
        s.skip(1)
    } else {
        s
    }
}

/// Whether a character marks the exponent of a decimal number.
pub open spec fn is_e(c: char) -> bool {
    c == 'e' || c == 'E'
}

/// How many characters stand before the first exponent mark of a text;
/// its length, if it has none.
pub open spec fn first_e(s: Seq<char>) -> nat
    decreases s.len(),
{
    if s.len() == 0 || is_e(s[0]) {
        0
    } else {
        1 + first_e(s.drop_first())
    }
}

/// The first exponent mark of a text is where such a mark stands with
/// none before it.
pub proof fn lemma_first_e(s: Seq<char>, n: int)
    requires
        0 <= n <= s.len(),
        forall|k: int| 0 <= k < n ==> !is_e(s[k]),
        n == s.len() || is_e(s[n]),
    ensures
        first_e(s) == n,
    decreases s.len(),
{
    if n > 0 {
        let rest = s.drop_first();
        assert forall|k: int| 0 <= k < n - 1 implies !is_e(rest[k]) by {
            assert(rest[k] == s[k + 1]);
        }
        lemma_first_e(rest, n - 1);
    }
}

/// Whether a text is the part of a decimal number before its exponent:
/// digits with at most one point among them, and at least one digit.
pub open spec fn is_mantissa(m: Seq<char>) -> bool {
    &&& forall|i: int| 0 <= i < m.len() ==> is_digit(#[trigger] m[i]) || m[i] == '.'
    &&& count_dots(m) <= 1
    &&& m.len() > count_dots(m)
}

/// Whether a text is the exponent of a decimal number: an optional sign
/// and then one or more digits.
pub open spec fn is_exponent(e: Seq<char>) -> bool {
    without_sign(e).len() > 0 && all_digits(without_sign(e))
}

/// Whether a character is the given small letter or its capital.
pub open spec fn is_letter(c: char, small: char) -> bool {
    c == small || c as u32 + 32 == small as u32
}

/// Whether a text is one of the words `inf`, `infinity` and `nan`, in
/// small letters, capitals, or both.
pub open spec fn is_special(b: Seq<char>) -> bool {
    ||| b.len() == 3 && is_letter(b[0], 'i') && is_letter(b[1], 'n') && is_letter(b[2], 'f')
    ||| b.len() == 3 && is_letter(b[0], 'n') && is_letter(b[1], 'a') && is_letter(b[2], 'n')
    ||| b.len() == 8 && is_letter(b[0], 'i') && is_letter(b[1], 'n') && is_letter(b[2], 'f')
        && is_letter(b[3], 'i') && is_letter(b[4], 'n') && is_letter(b[5], 'i') && is_letter(
        b[6],
        't',
    ) && is_letter(b[7], 'y')
}

/// Whether a text writes a decimal number: an optional sign, and then
/// either one of the words for a number that is not finite, or digits
/// with at most one point among them and at least one digit, which an
/// exponent may follow (`e` or `E`, an optional sign, digits).
pub open spec fn is_decimal(s: Seq<char>) -> bool {
    let body = without_sign(s);
    let k = first_e(body) as int;
    is_special(body) || (is_mantissa(body.take(k)) && (k >= body.len() || is_exponent(
        body.skip(k + 1),
    )))
}

/// Tests a character for being a small letter or its capital.
fn letter(c: char, small: char) -> (r: bool)
    requires
        97 <= small as u32 <= 122,
    ensures
        r == is_letter(c, small),
{
    c == small || c as u32 + 32 == small as u32
}

/// Tests the part of `chars` from `from` on for being one of the words for
/// a number that is not finite.
fn special_from(chars: &Vec<char>, from: usize) -> (r: bool)
    requires
        from <= chars.len(),
    ensures
        r == is_special(chars@.skip(from as int)),
{
    let n = chars.len() - from;
    let ghost b = chars@.skip(from as int);
    if n == 3 {
        assert(b[0] == chars@[from as int] && b[1] == chars@[from + 1] && b[2] == chars@[from
            + 2]);
        (letter(chars[from], 'i') && letter(chars[from + 1], 'n') && letter(chars[from + 2], 'f'))
            || (letter(chars[from], 'n') && letter(chars[from + 1], 'a') && letter(
            chars[from + 2],
            'n',
        ))
    } else if n == 8 {
        assert(b[0] == chars@[from as int] && b[1] == chars@[from + 1] && b[2] == chars@[from
            + 2] && b[3] == chars@[from + 3] && b[4] == chars@[from + 4] && b[5] == chars@[from
            + 5] && b[6] == chars@[from + 6] && b[7] == chars@[from + 7]);
        letter(chars[from], 'i') && letter(chars[from + 1], 'n') && letter(chars[from + 2], 'f')
            && letter(chars[from + 3], 'i') && letter(chars[from + 4], 'n') && letter(
            chars[from + 5],
            'i',
        ) && letter(chars[from + 6], 't') && letter(chars[from + 7], 'y')
    } else {
        false
    }
}

/// Tests the part of `chars` from `from` up to `to` for being the part of
/// a decimal number before its exponent.
fn mantissa_in(chars: &Vec<char>, from: usize, to: usize) -> (r: bool)
    requires
        from <= to <= chars.len(),
    ensures
        r == is_mantissa(chars@.subrange(from as int, to as int)),
{
    let ghost m = chars@.subrange(from as int, to as int);
    let mut dots: usize = 0;
    let mut clean = true;
    let mut i: usize = from;
    while i < to
        invariant
            from <= i <= to <= chars.len(),
            m == chars@.subrange(from as int, to as int),
            dots == count_dots(m.take(i - from)),
            dots <= i - from,
            clean == (forall|j: int| 0 <= j < i - from ==> is_digit(#[trigger] m[j]) || m[j] == '.'),
        decreases to - i,
    {
        let c = chars[i];
        let u: u32 = c as u32;
        proof {
            assert(m.take(i + 1 - from).drop_last() == m.take(i - from));
            assert(m.take(i + 1 - from).last() == c);
            assert(m[i - from] == c);
        }
        if c == '.' {
            dots += 1;
        } else if u < 48 || u > 57 {
            clean = false;
        }
        i += 1;
    }
    assert(m.take(to - from) == m);
    clean && dots <= 1 && to - from > dots
}

/// Tests the part of `chars` from `from` on for being the exponent of a
/// decimal number.
fn exponent_from(chars: &Vec<char>, from: usize) -> (r: bool)
    requires
        from <= chars.len(),
    ensures
        r == is_exponent(chars@.skip(from as int)),
{
    let n = chars.len();
    let ghost e = chars@.skip(from as int);
    let first: usize = if from < n && (chars[from] == '+' || chars[from] == '-') {
        from + 1
    } else {
        from
    };
    let ghost d = without_sign(e);
    assert(d =~= chars@.skip(first as int));
    let mut i: usize = first;
    while i < n
        invariant
            first <= i <= n,
            n == chars.len(),
            d == chars@.skip(first as int),
            d == without_sign(chars@.skip(from as int)),
            forall|j: int| 0 <= j < i - first ==> is_digit(#[trigger] d[j]),
        decreases n - i,
    {
        let u: u32 = chars[i] as u32;
        if u < 48 || u > 57 {
            assert(!is_digit(d[i - first]));
            return false;
        }
        i += 1;
    }
    n > first
}

/// Tests a text for writing a decimal number.
pub fn is_decimal_text(text: &str) -> (r: bool)
    ensures
        r == is_decimal(text@),
{
    let chars = chars_of(text);
    let n = chars.len();
    let first: usize = if n > 0 && (chars[0] == '+' || chars[0] == '-') {
        1
    } else {
        0
    };
    let ghost body = without_sign(text@);
    assert(body =~= chars@.skip(first as int));
    if special_from(&chars, first) {
        return true;
    }
    let mut k: usize = first;
    while k < n && chars[k] != 'e' && chars[k] != 'E'
        invariant
            first <= k <= n,
            n == chars.len(),
            body == chars@.skip(first as int),
            forall|j: int| 0 <= j < k - first ==> !is_e(#[trigger] body[j]),
        decreases n - k,
    {
        k += 1;
    }
    proof {
        lemma_first_e(body, k - first);
        assert(body.take(k - first) =~= chars@.subrange(first as int, k as int));
        if k < n {
            assert(body.skip(k - first + 1) =~= chars@.skip(k + 1));
        }
    }
    if !mantissa_in(&chars, first, k) {
        return false;
    }
    if k == n {
        return true;
    }
    exponent_from(&chars, k + 1)
}

/// Whether a character is a hexadecimal digit, in either case.
pub open spec fn is_hex_digit(c: char) -> bool {
    let u = c as u32;
    (48 <= u <= 57) || (65 <= u <= 70) || (97 <= u <= 102)
}

/// The number from 0 to 15 that a hexadecimal digit writes.
pub open spec fn hex_value(c: char) -> int {
    let u = c as u32;
    if 48 <= u <= 57 {
        u - 48
    } else if 65 <= u <= 70 {
        u - 55
    } else {
        u - 87
    }
}

/// Reads one hexadecimal digit.
pub fn hex_digit(c: char) -> (r: Option<u8>)
    ensures
        is_hex_digit(c) ==> r == Some(hex_value(c) as u8) && hex_value(c) < 16,
        !is_hex_digit(c) ==> r is None,
{
    let u: u32 = c as u32;
    if 48 <= u && u <= 57 {
        Some((u - 48) as u8)
    } else if 65 <= u && u <= 70 {
        Some((u - 55) as u8)
    } else if 97 <= u && u <= 102 {
        Some((u - 87) as u8)
    } else {
        None
    }
}

} // verus!
