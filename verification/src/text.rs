//! Character sequences: whitespace, words, lines, substring search, and decimal
//! numbers.
//!
//! Every function here works on the `Seq<char>` view of a string, so contracts
//! speak of Unicode scalar values and never of UTF-8 offsets.

use vstd::prelude::*;
use vstd::string::StringExecFns;

verus! {

/// `String::push` appends one character to the end of the string.
pub assume_specification[ String::push ](s: &mut String, c: char)
    ensures
        final(s)@ == old(s)@.push(c),
;

/// The characters with the Unicode property `White_Space`.
pub open spec fn is_white(c: char) -> bool {
    ||| '\u{9}' <= c <= '\u{d}'
    ||| c == ' '
    ||| c == '\u{85}'
    ||| c == '\u{a0}'
    ||| c == '\u{1680}'
    ||| '\u{2000}' <= c <= '\u{200a}'
    ||| c == '\u{2028}'
    ||| c == '\u{2029}'
    ||| c == '\u{202f}'
    ||| c == '\u{205f}'
    ||| c == '\u{3000}'
}

/// Whether `c` is whitespace.
pub fn is_whitespace(c: char) -> (r: bool)
    ensures
        r == is_white(c),
{
    ('\u{9}' <= c && c <= '\u{d}') || c == ' ' || c == '\u{85}' || c == '\u{a0}'
        || c == '\u{1680}' || ('\u{2000}' <= c && c <= '\u{200a}') || c == '\u{2028}'
        || c == '\u{2029}' || c == '\u{202f}' || c == '\u{205f}' || c == '\u{3000}'
}

/// The characters of `s`, in order.
pub fn chars_of(s: &str) -> (r: Vec<char>)
    ensures
        r@ == s@,
{
    let mut out: Vec<char> = Vec::new();
    for c in it: s.chars()
        invariant
            it.seq() == s@,
            out@ == s@.take(it.index() as int),
    {
        out.push(c);
    }
    out
}

/// The string made of `chars[from..to]`.
pub fn slice_string(chars: &Vec<char>, from: usize, to: usize) -> (r: String)
    requires
        from <= to <= chars.len(),
    ensures
        r@ == chars@.subrange(from as int, to as int),
{
    let mut out: String = String::new();
    let mut i: usize = from;
    while i < to
        invariant
            from <= i <= to <= chars.len(),
            out@ == chars@.subrange(from as int, i as int),
        decreases to - i,
    {
        out.push(chars[i]);
        i += 1;
    }
    out
}

/// The first position from `i` on whose character is not white (for `white`) or
/// is white (for `!white`); the length if there is none.
pub open spec fn skip_while(s: Seq<char>, i: int, white: bool) -> int
    decreases s.len() - i,
{
    if i >= s.len() {
        s.len() as int
    } else if is_white(s[i]) != white {
        i
    } else {
        skip_while(s, i + 1, white)
    }
}

pub proof fn lemma_skip_while(s: Seq<char>, i: int, white: bool)
    requires
        0 <= i <= s.len(),
    ensures
        i <= skip_while(s, i, white) <= s.len(),
        forall|j: int| i <= j < skip_while(s, i, white) ==> is_white(#[trigger] s[j]) == white,
        skip_while(s, i, white) < s.len() ==> is_white(s[skip_while(s, i, white)]) != white,
    decreases s.len() - i,
{
    if i < s.len() && is_white(s[i]) == white {
        lemma_skip_while(s, i + 1, white);
    }
}

/// The words of `s` from `i` on: its maximal runs of characters that are not
/// white.
pub open spec fn words_from(s: Seq<char>, i: int) -> Seq<Seq<char>>
    decreases s.len() - i,
    when 0 <= i <= s.len()
{
    let a = skip_while(s, i, true);
    if a >= s.len() {
        Seq::empty()
    } else {
        let b = skip_while(s, a, false);
        proof {
            lemma_skip_while(s, i, true);
            lemma_skip_while(s, a, false);
        }
        seq![s.subrange(a, b)] + words_from(s, b)
    }
}

/// The words of `s`.
pub open spec fn words(s: Seq<char>) -> Seq<Seq<char>> {
    words_from(s, 0)
}

fn skip_chars(chars: &Vec<char>, from: usize, white: bool) -> (r: usize)
    requires
        from <= chars.len(),
    ensures
        r == skip_while(chars@, from as int, white),
        from <= r <= chars.len(),
{
    let mut i: usize = from;
    while i < chars.len() && is_whitespace(chars[i]) == white
        invariant
            from <= i <= chars.len(),
            skip_while(chars@, from as int, white) == skip_while(chars@, i as int, white),
        decreases chars.len() - i,
    {
        i += 1;
    }
    i
}

/// The views of a list of strings.
pub open spec fn views(list: Seq<String>) -> Seq<Seq<char>> {
    list.map_values(|s: String| s@)
}

/// The words of `s`, in order.
pub fn split_whitespace(s: &str) -> (r: Vec<String>)
    ensures
        views(r@) == words(s@),
{
    let chars = chars_of(s);
    let mut out: Vec<String> = Vec::new();
    let mut i: usize = skip_chars(&chars, 0, true);
    proof {
        lemma_skip_while(chars@, 0, true);
    }
    while i < chars.len()
        invariant
            chars@ == s@,
            i <= chars.len(),
            i < chars.len() ==> !is_white(chars@[i as int]),
            views(out@) + words_from(s@, i as int) == words(s@),
        decreases chars.len() - i,
    {
        let ghost before = views(out@);
        let end: usize = skip_chars(&chars, i, false);
        let next: usize = skip_chars(&chars, end, true);
        proof {
            lemma_skip_while(chars@, i as int, false);
            lemma_skip_while(chars@, end as int, true);
            lemma_skip_while(chars@, next as int, true);
            assert(skip_while(s@, next as int, true) == next);
        }
        let word = slice_string(&chars, i, end);
        out.push(word);
        proof {
            assert(views(out@) =~= before.push(word@));
            assert(words_from(s@, i as int) == seq![word@] + words_from(s@, end as int));
            assert(words_from(s@, end as int) == words_from(s@, next as int));
            assert(before + (seq![word@] + words_from(s@, end as int)) =~= before.push(word@)
                + words_from(s@, end as int));
        }
        i = next;
    }
    assert(words_from(s@, i as int) =~= Seq::empty());
    assert(views(out@) + Seq::empty() =~= views(out@));
    out
}

/// No character of `s` is white.
pub open spec fn no_white(s: Seq<char>) -> bool {
    forall|i: int| 0 <= i < s.len() ==> !is_white(#[trigger] s[i])
}

/// All characters of `s` are white.
pub open spec fn all_white(s: Seq<char>) -> bool {
    forall|i: int| 0 <= i < s.len() ==> is_white(#[trigger] s[i])
}

proof fn lemma_skip_while_shift(s: Seq<char>, k: int, i: int, white: bool)
    requires
        0 <= k <= s.len(),
        0 <= i <= s.len() - k,
    ensures
        skip_while(s.skip(k), i, white) + k == skip_while(s, i + k, white),
    decreases s.len() - k - i,
{
    if i < s.len() - k {
        assert(s.skip(k)[i] == s[i + k]);
        if is_white(s[i + k]) == white {
            lemma_skip_while_shift(s, k, i + 1, white);
        }
    }
}

proof fn lemma_words_shift(s: Seq<char>, k: int, i: int)
    requires
        0 <= k <= s.len(),
        0 <= i <= s.len() - k,
    ensures
        words_from(s, i + k) == words_from(s.skip(k), i),
    decreases s.len() - k - i,
{
    let t = s.skip(k);
    let a = skip_while(t, i, true);
    lemma_skip_while_shift(s, k, i, true);
    lemma_skip_while(t, i, true);
    if a < t.len() {
        let b = skip_while(t, a, false);
        lemma_skip_while_shift(s, k, a, false);
        lemma_skip_while(t, a, false);
        assert(t.subrange(a, b) =~= s.subrange(a + k, b + k));
        lemma_words_shift(s, k, b);
    }
}

/// A text that begins with a word has it as its first word, and the words of what
/// follows after it.
pub proof fn first_word(word: Seq<char>, rest: Seq<char>)
    requires
        word.len() > 0,
        no_white(word),
        rest.len() > 0 ==> is_white(rest[0]),
    ensures
        words(word + rest) == seq![word] + words(rest),
{
    let s = word + rest;
    let b = skip_while(s, 0, false);
    lemma_skip_while(s, 0, false);
    assert(s[0] == word[0]);
    assert(skip_while(s, 0, true) == 0);
    if b < word.len() {
        assert(s[b] == word[b]);
    }
    if b > word.len() {
        assert(s[word.len() as int] == rest[0]);
    }
    assert(s.subrange(0, b) =~= word);
    lemma_words_shift(s, b, 0);
    assert(s.skip(b) =~= rest);
}

/// Whitespace before a text does not change its words.
pub proof fn leading_whitespace(gap: Seq<char>, rest: Seq<char>)
    requires
        all_white(gap),
    ensures
        words(gap + rest) == words(rest),
    decreases gap.len(),
{
    let s = gap + rest;
    if gap.len() == 0 {
        assert(s =~= rest);
    } else {
        let t = gap.skip(1) + rest;
        assert forall|i: int| 0 <= i < gap.skip(1).len() implies is_white(
            #[trigger] gap.skip(1)[i],
        ) by {
            assert(gap.skip(1)[i] == gap[i + 1]);
        }
        leading_whitespace(gap.skip(1), rest);
        assert(s[0] == gap[0]);
        assert(s.skip(1) =~= t);
        lemma_words_shift(s, 1, 0);
        assert(skip_while(s, 0, true) == skip_while(s, 1, true));
    }
}

/// No word is empty, and none contains whitespace.
pub proof fn words_are_words(s: Seq<char>, i: int)
    requires
        0 <= i <= s.len(),
    ensures
        forall|k: int|
            0 <= k < words_from(s, i).len() ==> (#[trigger] words_from(s, i)[k]).len() > 0
                && no_white(words_from(s, i)[k]),
    decreases s.len() - i,
{
    let a = skip_while(s, i, true);
    lemma_skip_while(s, i, true);
    if a < s.len() {
        let b = skip_while(s, a, false);
        lemma_skip_while(s, a, false);
        words_are_words(s, b);
        let all = words_from(s, i);
        let rest = words_from(s, b);
        assert forall|k: int| 0 <= k < all.len() implies (#[trigger] all[k]).len() > 0 && no_white(
            all[k],
        ) by {
            if k > 0 {
                assert(all[k] == rest[k - 1]);
            } else {
                assert(all[0] == s.subrange(a, b));
            }
        }
    }
}

// ---------------------------------------------------------------- numbers

pub open spec fn digit(d: nat) -> char {
    (48 + d) as char
}

/// The decimal notation of `n`.
pub open spec fn decimal(n: nat) -> Seq<char>
    decreases n,
{
    if n < 10 {
        seq![digit(n)]
    } else {
        decimal(n / 10).push(digit(n % 10))
    }
}

/// The decimal notation of `n`, filled up with zeros on the left to `width`
/// characters.
pub open spec fn padded(n: nat, width: nat) -> Seq<char> {
    let d = decimal(n);
    if d.len() >= width {
        d
    } else {
        Seq::new((width - d.len()) as nat, |i: int| '0') + d
    }
}

pub open spec fn is_digit(c: char) -> bool {
    '0' <= c <= '9'
}

pub open spec fn all_digits(s: Seq<char>) -> bool {
    forall|i: int| 0 <= i < s.len() ==> is_digit(#[trigger] s[i])
}

/// The number that a run of digits stands for.
pub open spec fn digits_value(s: Seq<char>) -> nat
    decreases s.len(),
{
    if s.len() == 0 {
        0
    } else {
        digits_value(s.drop_last()) * 10 + (s.last() as nat - 48) as nat
    }
}

/// The number written in `s`: digits, at least one, after an optional plus sign,
/// for a number that is not above `max`.
pub open spec fn parsed(s: Seq<char>, max: nat) -> Option<nat> {
    let d = if s.len() > 0 && s[0] == '+' {
        s.skip(1)
    } else {
        s
    };
    if d.len() > 0 && all_digits(d) && digits_value(d) <= max {
        Some(digits_value(d))
    } else {
        None
    }
}

/// Appends the decimal notation of `n`.
pub fn push_decimal(out: &mut String, n: u64)
    ensures
        final(out)@ == old(out)@ + decimal(n as nat),
    decreases n,
{
    if n >= 10 {
        push_decimal(out, n / 10);
    }
    out.push((48u8 + (n % 10) as u8) as char);
}

/// The decimal notation of `n`.
pub fn decimal_string(n: u64) -> (r: String)
    ensures
        r@ == decimal(n as nat),
{
    let mut out: String = String::new();
    push_decimal(&mut out, n);
    out
}

/// The number of digits of `n`.
fn digit_count(n: u64) -> (r: u64)
    ensures
        r == decimal(n as nat).len(),
        1 <= r <= n / 10 + 1,
    decreases n,
{
    if n < 10 {
        1
    } else {
        1 + digit_count(n / 10)
    }
}

/// Appends the decimal notation of `n`, padded with zeros to `width` characters.
pub fn push_padded(out: &mut String, n: u64, width: u64)
    ensures
        final(out)@ == old(out)@ + padded(n as nat, width as nat),
{
    let digits: u64 = digit_count(n);
    let mut k: u64 = digits;
    while k < width
        invariant
            digits <= k,
            k <= width || k == digits,
            out@ == old(out)@ + Seq::new((k - digits) as nat, |i: int| '0'),
        decreases width - k,
    {
        let ghost before = out@;
        out.push('0');
        k += 1;
        assert(out@ =~= old(out)@ + Seq::new((k - digits) as nat, |i: int| '0'));
    }
    push_decimal(out, n);
    assert(out@ =~= old(out)@ + padded(n as nat, width as nat));
}

proof fn lemma_digits_prefix(s: Seq<char>, k: int)
    requires
        0 <= k <= s.len(),
    ensures
        digits_value(s.take(k)) <= digits_value(s),
    decreases s.len() - k,
{
    if k == s.len() {
        assert(s.take(k) =~= s);
    } else {
        lemma_digits_prefix(s, k + 1);
        assert(s.take(k + 1).drop_last() =~= s.take(k));
    }
}

/// The number written in `chars`, as [`parsed`] says.
fn parse_chars(chars: &Vec<char>, max: u64) -> (r: Option<u64>)
    ensures
        parsed(chars@, max as nat) == (match r {
            Some(v) => Some(v as nat),
            None => None,
        }),
{
    let n: usize = chars.len();
    let start: usize = if n > 0 && chars[0] == '+' { 1 } else { 0 };
    let ghost d = chars@.skip(start as int);
    assert(chars@.skip(0) =~= chars@);
    if start >= n {
        return None;
    }
    let mut value: u64 = 0;
    let mut i: usize = start;
    while i < n
        invariant
            start <= i <= n == chars.len(),
            d == chars@.skip(start as int),
            start < n,
            d == (if chars@.len() > 0 && chars@[0] == '+' { chars@.skip(1) } else { chars@ }),
            all_digits(d.take(i - start)),
            value == digits_value(d.take(i - start)),
            value <= max,
        decreases n - i,
    {
        let c = chars[i];
        proof {
            assert(d[i - start] == c);
            assert(d.take(i - start + 1).drop_last() =~= d.take(i - start));
            assert(d.take(i - start + 1).last() == c);
        }
        if c < '0' || c > '9' {
            assert(!is_digit(d[i - start]));
            return None;
        }
        let digit: u64 = (c as u32 - 48) as u64;
        if digit > max || value > (max - digit) / 10 {
            proof {
                assert(digits_value(d.take(i - start + 1)) > max);
                lemma_digits_prefix(d, i - start + 1);
            }
            return None;
        }
        value = value * 10 + digit;
        i += 1;
    }
    assert(d.take(n - start) =~= d);
    Some(value)
}

/// The unsigned 64-bit number written in `s`.
pub fn parse_u64(s: &str) -> (r: Option<u64>)
    ensures
        parsed(s@, u64::MAX as nat) == (match r {
            Some(v) => Some(v as nat),
            None => None,
        }),
{
    parse_chars(&chars_of(s), u64::MAX)
}

/// The unsigned 32-bit number written in `s`.
pub fn parse_u32(s: &str) -> (r: Option<u32>)
    ensures
        parsed(s@, u32::MAX as nat) == (match r {
            Some(v) => Some(v as nat),
            None => None,
        }),
{
    match parse_chars(&chars_of(s), u32::MAX as u64) {
        Some(v) => Some(v as u32),
        None => None,
    }
}

pub proof fn lemma_decimal(n: nat)
    ensures
        no_white(decimal(n)),
        decimal(n).len() > 0,
        all_digits(decimal(n)),
        digits_value(decimal(n)) == n,
        decimal(n)[0] != '+',
    decreases n,
{
    if n < 10 {
        let s = seq![digit(n)];
        assert(s.drop_last() =~= Seq::empty());
        assert(digits_value(s.drop_last()) == 0);
        assert(s.last() == digit(n));
    } else {
        lemma_decimal(n / 10);
        assert(decimal(n).drop_last() =~= decimal(n / 10));
    }
}

/// Reading back the decimal notation of a number gives the number.
pub proof fn decimal_reads_back(n: nat, max: nat)
    requires
        n <= max,
    ensures
        parsed(decimal(n), max) == Some(n),
{
    lemma_decimal(n);
}

// ---------------------------------------------------------------- parts of a text

/// The position of the first line feed from `i` on; the length if there is none.
pub open spec fn line_feed(s: Seq<char>, i: int) -> int
    decreases s.len() - i,
{
    if i >= s.len() {
        s.len() as int
    } else if s[i] == '\n' {
        i
    } else {
        line_feed(s, i + 1)
    }
}

pub proof fn lemma_line_feed(s: Seq<char>, i: int)
    requires
        0 <= i <= s.len(),
    ensures
        i <= line_feed(s, i) <= s.len(),
        forall|j: int| i <= j < line_feed(s, i) ==> s[j] != '\n',
        line_feed(s, i) < s.len() ==> s[line_feed(s, i)] == '\n',
    decreases s.len() - i,
{
    if i < s.len() && s[i] != '\n' {
        lemma_line_feed(s, i + 1);
    }
}

/// Where the line from `from` ends that is ended by the line feed at `feed`: a
/// carriage return right before the line feed is part of the line's ending.
pub open spec fn line_end(s: Seq<char>, from: int, feed: int) -> int {
    if from < feed < s.len() && s[feed - 1] == '\r' {
        feed - 1
    } else {
        feed
    }
}

/// The lines of `s` from `i` on, without their endings. The last line needs no
/// ending; an empty one without ending is no line.
pub open spec fn lines_from(s: Seq<char>, i: int) -> Seq<Seq<char>>
    decreases s.len() + 1 - i,
    when 0 <= i
{
    if i >= s.len() {
        Seq::empty()
    } else {
        let feed = line_feed(s, i);
        proof {
            lemma_line_feed(s, i);
        }
        seq![s.subrange(i, line_end(s, i, feed))] + lines_from(s, feed + 1)
    }
}

/// The lines of `s`.
pub open spec fn lines_of(s: Seq<char>) -> Seq<Seq<char>> {
    lines_from(s, 0)
}

/// The lines of `s`, in order.
pub fn split_lines(s: &str) -> (r: Vec<String>)
    ensures
        views(r@) == lines_of(s@),
{
    let chars = chars_of(s);
    let n: usize = chars.len();
    let mut out: Vec<String> = Vec::new();
    let mut i: usize = 0;
    while i < n
        invariant
            n == chars.len(),
            chars@ == s@,
            i <= n,
            views(out@) + lines_from(s@, i as int) == lines_of(s@),
        decreases n - i,
    {
        let ghost before = views(out@);
        let mut feed: usize = i;
        while feed < n && chars[feed] != '\n'
            invariant
                n == chars.len(),
                i <= feed <= n,
                line_feed(chars@, i as int) == line_feed(chars@, feed as int),
            decreases n - feed,
        {
            feed += 1;
        }
        let end: usize = if i < feed && feed < n && chars[feed - 1] == '\r' { feed - 1 } else {
            feed
        };
        let line = slice_string(&chars, i, end);
        out.push(line);
        proof {
            assert(views(out@) =~= before.push(line@));
            assert(before + (seq![line@] + lines_from(s@, feed + 1)) =~= before.push(line@)
                + lines_from(s@, feed + 1));
            assert(lines_from(s@, n as int) =~= Seq::empty());
            assert(lines_from(s@, n + 1) =~= Seq::empty());
        }
        i = if feed < n { feed + 1 } else { n };
    }
    assert(lines_from(s@, n as int) =~= Seq::empty());
    assert(views(out@) + Seq::empty() =~= views(out@));
    out
}

/// No line contains a line feed.
pub proof fn lines_have_no_line_feed(s: Seq<char>, i: int)
    requires
        0 <= i,
    ensures
        forall|k: int|
            0 <= k < lines_from(s, i).len() ==> !(#[trigger] lines_from(s, i)[k]).contains('\n'),
    decreases s.len() + 1 - i,
{
    if i < s.len() {
        let feed = line_feed(s, i);
        lemma_line_feed(s, i);
        lines_have_no_line_feed(s, feed + 1);
        let all = lines_from(s, i);
        let rest = lines_from(s, feed + 1);
        assert forall|k: int| 0 <= k < all.len() implies !(#[trigger] all[k]).contains('\n') by {
            if k > 0 {
                assert(all[k] == rest[k - 1]);
            } else {
                assert(all[0] == s.subrange(i, line_end(s, i, feed)));
            }
        }
    }
}

/// `part` stands in `s` at position `i`.
pub open spec fn occurs_at(s: Seq<char>, part: Seq<char>, i: int) -> bool {
    0 <= i <= s.len() - part.len() && s.subrange(i, i + part.len()) == part
}

/// `part` stands somewhere in `s`.
pub open spec fn contains_part(s: Seq<char>, part: Seq<char>) -> bool {
    exists|i: int| occurs_at(s, part, i)
}

/// Whether `part` stands in `chars` at position `at`.
fn matches_at(chars: &Vec<char>, part: &Vec<char>, at: usize) -> (r: bool)
    requires
        at + part.len() <= chars.len(),
    ensures
        r == occurs_at(chars@, part@, at as int),
{
    let mut k: usize = 0;
    while k < part.len()
        invariant
            at + part.len() <= chars.len(),
            k <= part.len(),
            forall|j: int| 0 <= j < k ==> chars@[at + j] == part@[j],
        decreases part.len() - k,
    {
        if chars[at + k] != part[k] {
            assert(chars@.subrange(at as int, at + part.len())[k as int] != part@[k as int]);
            return false;
        }
        k += 1;
    }
    assert(chars@.subrange(at as int, at + part.len()) =~= part@);
    true
}

/// Whether `part` stands somewhere in `s`.
pub fn contains(s: &str, part: &str) -> (r: bool)
    ensures
        r == contains_part(s@, part@),
{
    let chars = chars_of(s);
    let wanted = chars_of(part);
    if wanted.len() > chars.len() {
        return false;
    }
    let last: usize = chars.len() - wanted.len();
    let mut i: usize = 0;
    while i <= last
        invariant
            chars@ == s@,
            wanted@ == part@,
            last + wanted.len() == chars.len(),
            i <= last + 1,
            forall|j: int| 0 <= j < i ==> !occurs_at(s@, part@, j),
        decreases last + 1 - i,
    {
        if matches_at(&chars, &wanted, i) {
            return true;
        }
        if i == last {
            return false;
        }
        i += 1;
    }
    false
}

/// `s` begins with `prefix`.
pub open spec fn begins_with(s: Seq<char>, prefix: Seq<char>) -> bool {
    occurs_at(s, prefix, 0)
}

/// Whether `s` begins with `prefix`.
pub fn starts_with(s: &str, prefix: &str) -> (r: bool)
    ensures
        r == begins_with(s@, prefix@),
{
    let chars = chars_of(s);
    let wanted = chars_of(prefix);
    wanted.len() <= chars.len() && matches_at(&chars, &wanted, 0)
}

/// `s` without the whitespace at its end.
pub open spec fn trimmed_end(s: Seq<char>) -> Seq<char>
    decreases s.len(),
{
    if s.len() > 0 && is_white(s.last()) {
        trimmed_end(s.drop_last())
    } else {
        s
    }
}

/// `s` without the whitespace at its ends.
pub open spec fn trimmed(s: Seq<char>) -> Seq<char> {
    let t = trimmed_end(s);
    t.skip(skip_while(t, 0, true))
}

fn end_of_text(chars: &Vec<char>) -> (r: usize)
    ensures
        r <= chars.len(),
        trimmed_end(chars@) == chars@.take(r as int),
{
    let mut end: usize = chars.len();
    assert(chars@.take(end as int) =~= chars@);
    while end > 0 && is_whitespace(chars[end - 1])
        invariant
            end <= chars.len(),
            trimmed_end(chars@) == trimmed_end(chars@.take(end as int)),
        decreases end,
    {
        end -= 1;
        assert(chars@.take(end + 1).drop_last() =~= chars@.take(end as int));
    }
    end
}

/// `s` without the whitespace at its end.
pub fn trim_end(s: &str) -> (r: String)
    ensures
        r@ == trimmed_end(s@),
{
    let chars = chars_of(s);
    let end: usize = end_of_text(&chars);
    slice_string(&chars, 0, end)
}

/// `s` without the whitespace at its ends.
pub fn trim(s: &str) -> (r: String)
    ensures
        r@ == trimmed(s@),
{
    let text = chars_of(trim_end(s).as_str());
    let start: usize = skip_chars(&text, 0, true);
    slice_string(&text, start, text.len())
}

/// `s` between `prefix` and `suffix`, where it begins with the one and what
/// follows ends with the other.
pub open spec fn between(s: Seq<char>, prefix: Seq<char>, suffix: Seq<char>) -> Option<Seq<char>> {
    let rest = s.skip(prefix.len() as int);
    if begins_with(s, prefix) && occurs_at(rest, suffix, rest.len() - suffix.len()) {
        Some(rest.take(rest.len() - suffix.len()))
    } else {
        None
    }
}

/// `s` without `prefix` at its beginning and, after that, `suffix` at its end;
/// `None` where either is missing.
pub fn strip_both(s: &str, prefix: &str, suffix: &str) -> (r: Option<String>)
    ensures
        match r {
            Some(v) => between(s@, prefix@, suffix@) == Some(v@),
            None => between(s@, prefix@, suffix@) is None,
        },
{
    let chars = chars_of(s);
    let head = chars_of(prefix);
    let tail = chars_of(suffix);
    if head.len() > chars.len() || !matches_at(&chars, &head, 0) {
        return None;
    }
    let ghost rest = s@.skip(prefix@.len() as int);
    if tail.len() > chars.len() - head.len() {
        return None;
    }
    let end: usize = chars.len() - tail.len();
    proof {
        assert(rest.subrange(rest.len() - tail@.len(), rest.len() as int) =~= chars@.subrange(
            end as int,
            end + tail@.len(),
        ));
    }
    if !matches_at(&chars, &tail, end) {
        return None;
    }
    assert(rest.take(rest.len() - tail@.len()) =~= chars@.subrange(head@.len() as int, end as int));
    Some(slice_string(&chars, head.len(), end))
}

/// The texts of `list` with `separator` between each two.
pub open spec fn joined(list: Seq<Seq<char>>, separator: Seq<char>) -> Seq<char>
    decreases list.len(),
{
    if list.len() == 0 {
        Seq::empty()
    } else if list.len() == 1 {
        list[0]
    } else {
        joined(list.drop_last(), separator) + separator + list.last()
    }
}

/// The texts of `list` with `separator` between each two.
pub fn join(list: &Vec<String>, separator: &str) -> (r: String)
    ensures
        r@ == joined(views(list@), separator@),
{
    let mut out: String = String::new();
    let mut i: usize = 0;
    while i < list.len()
        invariant
            i <= list.len(),
            out@ == joined(views(list@).take(i as int), separator@),
        decreases list.len() - i,
    {
        if i > 0 {
            out.append(separator);
        }
        out.append(list[i].as_str());
        proof {
            let all = views(list@);
            assert(all.take(i + 1).drop_last() =~= all.take(i as int));
            assert(all.take(i + 1).last() == list@[i as int]@);
            if i == 0 {
                assert(out@ =~= all.take(1)[0]);
            }
        }
        i += 1;
    }
    assert(views(list@).take(i as int) =~= views(list@));
    out
}

/// All characters of `s` are ASCII.
pub open spec fn ascii_only(s: Seq<char>) -> bool {
    forall|i: int| 0 <= i < s.len() ==> #[trigger] s[i] < '\u{80}'
}

/// `s` with the letters `A` to `Z` mapped to `a` to `z`.
pub open spec fn ascii_lower(s: Seq<char>) -> Seq<char> {
    s.map_values(
        |c: char|
            if 'A' <= c <= 'Z' {
                (c as nat + 32) as char
            } else {
                c
            },
    )
}

/// `s` with the letters `a` to `z` mapped to `A` to `Z`.
pub open spec fn ascii_upper(s: Seq<char>) -> Seq<char> {
    s.map_values(
        |c: char|
            if 'a' <= c <= 'z' {
                (c as nat - 32) as char
            } else {
                c
            },
    )
}

/// The lowercase equivalent of a text, as the Unicode case mappings define it.
pub uninterp spec fn lowercase(s: Seq<char>) -> Seq<char>;

/// `str::to_lowercase` gives the lowercase equivalent of the text, by the Unicode
/// case mappings and independently of any locale. Of a text that is all ASCII, as
/// the documentation of `str::to_ascii_lowercase` says of both, it maps the letters
/// `A` to `Z` to `a` to `z` and leaves the rest as it is.
pub assume_specification[ str::to_lowercase ](s: &str) -> (r: String)
    ensures
        r@ == lowercase(s@),
        ascii_only(s@) ==> r@ == ascii_lower(s@),
;

/// The lowercase equivalent of a text, spelt out where the text is all ASCII.
pub open spec fn lowered(s: Seq<char>) -> Seq<char> {
    if ascii_only(s) {
        ascii_lower(s)
    } else {
        lowercase(s)
    }
}

/// An ASCII text and its upper case have the same lower case.
pub proof fn upper_case_lowers_alike(s: Seq<char>)
    requires
        ascii_only(s),
    ensures
        lowered(ascii_upper(s)) == lowered(s),
{
    let upper = ascii_upper(s);
    assert forall|i: int| 0 <= i < upper.len() implies #[trigger] upper[i] < '\u{80}' by {
        assert(s[i] < '\u{80}');
    }
    assert(ascii_lower(upper) =~= ascii_lower(s));
}

/// What stands in a part of a text stands in the text.
pub proof fn parts_of_parts(s: Seq<char>, part: Seq<char>, inner: Seq<char>)
    requires
        contains_part(s, part),
        contains_part(part, inner),
    ensures
        contains_part(s, inner),
{
    let i = choose|i: int| occurs_at(s, part, i);
    let j = choose|j: int| occurs_at(part, inner, j);
    assert(s.subrange(i + j, i + j + inner.len()) =~= part.subrange(j, j + inner.len()));
    assert(occurs_at(s, inner, i + j));
}

// ---------------------------------------------------------------- laws

/// Whitespace is what the Unicode standard lists under `White_Space`, by code
/// point.
pub proof fn whitespace_by_code_point(c: char)
    ensures
        is_white(c) <==> (9 <= c as nat <= 13 || 0x2000 <= c as nat <= 0x200a || seq![
            0x20nat,
            0x85nat,
            0xa0nat,
            0x1680nat,
            0x2028nat,
            0x2029nat,
            0x202fnat,
            0x205fnat,
            0x3000nat,
        ].contains(c as nat)),
{
    let others = seq![
        0x20nat,
        0x85nat,
        0xa0nat,
        0x1680nat,
        0x2028nat,
        0x2029nat,
        0x202fnat,
        0x205fnat,
        0x3000nat,
    ];
    if is_white(c) && !(9 <= c as nat <= 13) && !(0x2000 <= c as nat <= 0x200a) {
        assert(others[0] == c as nat || others[1] == c as nat || others[2] == c as nat || others[3]
            == c as nat || others[4] == c as nat || others[5] == c as nat || others[6] == c as nat
            || others[7] == c as nat || others[8] == c as nat);
    }
}

/// The views of a list are the texts of its strings, one for one.
pub proof fn views_are_texts(list: Seq<String>)
    ensures
        views(list).len() == list.len(),
        forall|i: int| 0 <= i < list.len() ==> #[trigger] views(list)[i] == list[i]@,
{
}

/// A text of whitespace alone has no words.
pub proof fn blank_texts_have_no_words(s: Seq<char>)
    requires
        forall|i: int| 0 <= i < s.len() ==> is_white(#[trigger] s[i]),
    ensures
        words(s).len() == 0,
{
    lemma_skip_while(s, 0, true);
}

/// Text, whitespace, text: the words of the whole are those of the two texts, one
/// after the other.
pub proof fn words_of_two_texts(a: Seq<char>, gap: char, b: Seq<char>)
    requires
        is_white(gap),
    ensures
        words(a + seq![gap] + b) == words(a) + words(b),
    decreases a.len(),
{
    let s = a + seq![gap] + b;
    let n = skip_while(a, 0, true);
    lemma_skip_while(a, 0, true);
    if n > 0 {
        // whitespace first
        let white = a.take(n);
        let rest = a.skip(n);
        assert(a =~= white + rest);
        assert(s =~= white + (rest + seq![gap] + b));
        leading_whitespace(white, rest);
        leading_whitespace(white, rest + seq![gap] + b);
        words_of_two_texts(rest, gap, b);
    } else if a.len() == 0 {
        assert(s =~= seq![gap] + b);
        leading_whitespace(seq![gap], b);
        assert(words(a) + words(b) =~= words(b));
    } else {
        let m = skip_while(a, 0, false);
        lemma_skip_while(a, 0, false);
        assert(m > 0);
        let word = a.take(m);
        let rest = a.skip(m);
        assert(a =~= word + rest);
        assert(rest.len() > 0 ==> rest[0] == a[m]);
        first_word(word, rest);
        let after = rest + seq![gap] + b;
        assert(s =~= word + after);
        assert(after[0] == if rest.len() > 0 {
            rest[0]
        } else {
            gap
        });
        first_word(word, after);
        words_of_two_texts(rest, gap, b);
        assert(seq![word] + (words(rest) + words(b)) =~= seq![word] + words(rest) + words(b));
    }
}

/// A word alone is its own only word.
pub proof fn a_word_is_a_word(word: Seq<char>)
    requires
        word.len() > 0,
        forall|i: int| 0 <= i < word.len() ==> !is_white(#[trigger] word[i]),
    ensures
        words(word) == seq![word],
{
    first_word(word, Seq::empty());
    blank_texts_have_no_words(Seq::empty());
    assert(word + Seq::<char>::empty() =~= word);
    assert(seq![word] + words(Seq::empty()) =~= seq![word]);
}

/// Decimal notation: a digit stands for itself, and any other number is written as
/// its tenth part followed by its last digit.
pub proof fn decimal_by_digits(n: nat)
    ensures
        n < 10 ==> decimal(n) == seq![('0' as nat + n) as char],
        n >= 10 ==> decimal(n) == decimal(n / 10) + seq![('0' as nat + n % 10) as char],
{
    if n >= 10 {
        assert(decimal(n) =~= decimal(n / 10) + seq![('0' as nat + n % 10) as char]);
    }
}

/// Different numbers are written differently.
pub proof fn decimals_differ(a: nat, b: nat)
    ensures
        decimal(a) == decimal(b) ==> a == b,
{
    lemma_decimal(a);
    lemma_decimal(b);
}

/// `n` zeros.
pub open spec fn zeros(n: nat) -> Seq<char> {
    Seq::new(n, |i: int| '0')
}

/// A padded number is the number with zeros before it, at least as long as asked,
/// and with no zero more than that needs.
pub proof fn padding_is_zeros(n: nat, width: nat)
    ensures
        padded(n, width).len() >= width,
        exists|k: nat| #[trigger]
            zeros(k) + decimal(n) == padded(n, width) && (k > 0 ==> padded(n, width).len()
                == width),
{
    let d = decimal(n);
    if d.len() >= width {
        assert(zeros(0) + d =~= padded(n, width));
    } else {
        let k = (width - d.len()) as nat;
        assert(zeros(k) + d =~= padded(n, width));
    }
}

proof fn lemma_leading_zeros(k: nat, t: Seq<char>)
    ensures
        digits_value(zeros(k) + t) == digits_value(t),
        all_digits(t) ==> all_digits(zeros(k) + t),
    decreases k + t.len(),
{
    let s = zeros(k) + t;
    if t.len() > 0 {
        lemma_leading_zeros(k, t.drop_last());
        assert(s.drop_last() =~= zeros(k) + t.drop_last());
    } else if k > 0 {
        lemma_leading_zeros((k - 1) as nat, t);
        assert(s.drop_last() =~= zeros((k - 1) as nat) + t);
        assert(s.last() == '0');
    } else {
        assert(s =~= t);
    }
    if all_digits(t) {
        assert forall|i: int| 0 <= i < s.len() implies is_digit(#[trigger] s[i]) by {
            if i >= k {
                assert(s[i] == t[i - k]);
            }
        }
    }
}

proof fn lemma_digits_are_decimal(s: Seq<char>) -> (k: nat)
    requires
        s.len() > 0,
        all_digits(s),
    ensures
        s == zeros(k) + decimal(digits_value(s)),
    decreases s.len(),
{
    let front = s.drop_last();
    let d = (s.last() as nat - 48) as nat;
    assert(is_digit(s[s.len() - 1]));
    assert(d < 10);
    if front.len() == 0 {
        assert(digits_value(front) == 0);
        assert(s =~= zeros(0) + decimal(d));
        0
    } else {
        assert forall|i: int| 0 <= i < front.len() implies is_digit(#[trigger] front[i]) by {
            assert(front[i] == s[i]);
        }
        let k = lemma_digits_are_decimal(front);
        let v = digits_value(front);
        assert(digits_value(s) == v * 10 + d);
        if v > 0 {
            assert((v * 10 + d) / 10 == v && (v * 10 + d) % 10 == d);
            assert(s =~= front.push(s.last()));
            assert(s =~= zeros(k) + decimal(v * 10 + d));
            k
        } else {
            assert(decimal(0) =~= seq!['0']);
            assert(decimal(d) =~= seq![s.last()]);
            assert(s =~= front.push(s.last()));
            assert(front =~= zeros(k + 1));
            assert(s =~= zeros(k + 1) + decimal(d));
            k + 1
        }
    }
}

/// A text reads as the number `n` exactly when it is the decimal notation of `n`,
/// perhaps after zeros, perhaps after a plus sign, and `n` is not above the limit.
pub proof fn numbers_are_read(s: Seq<char>, max: nat, n: nat)
    ensures
        parsed(s, max) == Some(n) <==> n <= max && exists|k: nat|
            s == #[trigger] zeros(k) + decimal(n) || s == seq!['+'] + (zeros(k) + decimal(n)),
{
    lemma_decimal(n);
    let d = if s.len() > 0 && s[0] == '+' {
        s.skip(1)
    } else {
        s
    };
    if parsed(s, max) == Some(n) {
        let k = lemma_digits_are_decimal(d);
        if s.len() > 0 && s[0] == '+' {
            assert(s =~= seq!['+'] + d);
        }
        assert(s == zeros(k) + decimal(n) || s == seq!['+'] + (zeros(k) + decimal(n)));
    }
    if n <= max && exists|k: nat|
        s == #[trigger] zeros(k) + decimal(n) || s == seq!['+'] + (zeros(k) + decimal(n)) {
        let k = choose|k: nat|
            s == #[trigger] zeros(k) + decimal(n) || s == seq!['+'] + (zeros(k) + decimal(n));
        let t = zeros(k) + decimal(n);
        lemma_leading_zeros(k, decimal(n));
        assert(t[0] != '+') by {
            if k > 0 {
                assert(t[0] == '0');
            } else {
                assert(t[0] == decimal(n)[0]);
            }
        }
        assert((seq!['+'] + t).skip(1) =~= t);
        assert(d == t);
    }
}

proof fn lemma_line_feed_shift(s: Seq<char>, k: int, i: int)
    requires
        0 <= k <= s.len(),
        0 <= i <= s.len() - k,
    ensures
        line_feed(s.skip(k), i) + k == line_feed(s, i + k),
    decreases s.len() - k - i,
{
    if i < s.len() - k {
        assert(s.skip(k)[i] == s[i + k]);
        if s[i + k] != '\n' {
            lemma_line_feed_shift(s, k, i + 1);
        }
    }
}

proof fn lemma_lines_shift(s: Seq<char>, k: int, i: int)
    requires
        0 <= k <= s.len(),
        0 <= i,
    ensures
        lines_from(s, i + k) == lines_from(s.skip(k), i),
    decreases s.len() + 1 - k - i,
{
    let t = s.skip(k);
    if i < t.len() {
        let feed = line_feed(t, i);
        lemma_line_feed(t, i);
        lemma_line_feed_shift(s, k, i);
        assert(line_end(t, i, feed) + k == line_end(s, i + k, feed + k)) by {
            if i < feed {
                assert(t[feed - 1] == s[feed + k - 1]);
            }
        }
        assert(t.subrange(i, line_end(t, i, feed)) =~= s.subrange(
            i + k,
            line_end(s, i + k, feed + k),
        ));
        lemma_lines_shift(s, k, feed + 1);
    }
}

/// A line and its ending in front of a text add that line to the lines of the
/// text. The ending is a line feed, or a carriage return and a line feed.
pub proof fn lines_of_two_texts(line: Seq<char>, rest: Seq<char>)
    requires
        !line.contains('\n'),
    ensures
        lines_of(line + seq!['\n'] + rest) == seq![
            if line.len() > 0 && line.last() == '\r' {
                line.drop_last()
            } else {
                line
            },
        ] + lines_of(rest),
{
    let s = line + seq!['\n'] + rest;
    let n = line.len() as int;
    let feed = line_feed(s, 0);
    lemma_line_feed(s, 0);
    assert(s[n] == '\n');
    if feed < n {
        assert(s[feed] == line[feed]);
    }
    if feed > n {
        assert(s[n] != '\n');
    }
    assert(feed == n);
    if n > 0 {
        assert(s[n - 1] == line.last());
    }
    assert(s.subrange(0, line_end(s, 0, feed)) =~= if line.len() > 0 && line.last() == '\r' {
        line.drop_last()
    } else {
        line
    });
    assert(s.skip(n + 1) =~= rest);
    lemma_lines_shift(s, n + 1, 0);
}

/// A text without line feeds is a single line, unless it is empty, which is none.
pub proof fn a_line_is_a_line(line: Seq<char>)
    requires
        !line.contains('\n'),
    ensures
        lines_of(line) == if line.len() > 0 {
            seq![line]
        } else {
            Seq::empty()
        },
{
    if line.len() > 0 {
        let feed = line_feed(line, 0);
        lemma_line_feed(line, 0);
        assert(feed == line.len()) by {
            if feed < line.len() {
                assert(line[feed] == '\n');
                assert(line.contains('\n'));
            }
        }
        assert(line.subrange(0, feed) =~= line);
        assert(lines_from(line, feed + 1) =~= Seq::empty());
        assert(lines_of(line) =~= seq![line]);
    }
}

/// A text contains another exactly when it is that text with something before and
/// something after it.
pub proof fn containing_is_being_around(s: Seq<char>, part: Seq<char>)
    ensures
        contains_part(s, part) <==> exists|a: Seq<char>, b: Seq<char>| #[trigger]
            (a + part + b) == s,
{
    if contains_part(s, part) {
        let i = choose|i: int| occurs_at(s, part, i);
        let a = s.take(i);
        let b = s.skip(i + part.len());
        assert(a + part + b =~= s) by {
            assert forall|j: int| 0 <= j < s.len() implies (a + part + b)[j] == s[j] by {
                if i <= j < i + part.len() {
                    assert(s.subrange(i, i + part.len())[j - i] == part[j - i]);
                }
            }
        }
    }
    if exists|a: Seq<char>, b: Seq<char>| #[trigger] (a + part + b) == s {
        let (a, b) = choose|a: Seq<char>, b: Seq<char>| #[trigger] (a + part + b) == s;
        assert(s.subrange(a.len() as int, (a.len() + part.len()) as int) =~= part);
        assert(occurs_at(s, part, a.len() as int));
    }
}

/// A text begins with another exactly when it is that text with something after
/// it.
pub proof fn beginning_is_being_before(s: Seq<char>, prefix: Seq<char>)
    ensures
        begins_with(s, prefix) <==> exists|rest: Seq<char>| #[trigger] (prefix + rest) == s,
{
    if begins_with(s, prefix) {
        let rest = s.skip(prefix.len() as int);
        assert(prefix + rest =~= s) by {
            assert forall|j: int| 0 <= j < prefix.len() implies prefix[j] == s[j] by {
                assert(s.subrange(0, prefix.len() as int)[j] == prefix[j]);
            }
        }
    }
    if exists|rest: Seq<char>| #[trigger] (prefix + rest) == s {
        let rest = choose|rest: Seq<char>| #[trigger] (prefix + rest) == s;
        assert(s.subrange(0, prefix.len() as int) =~= prefix);
    }
}

/// What stands between a prefix and a suffix makes, with the two, the whole text.
pub proof fn between_prefix_and_suffix(
    s: Seq<char>,
    prefix: Seq<char>,
    suffix: Seq<char>,
    middle: Seq<char>,
)
    ensures
        between(s, prefix, suffix) == Some(middle) <==> s == prefix + middle + suffix,
{
    let rest = s.skip(prefix.len() as int);
    if between(s, prefix, suffix) == Some(middle) {
        assert(s =~= prefix + middle + suffix) by {
            assert forall|j: int| 0 <= j < s.len() implies (prefix + middle + suffix)[j]
                == s[j] by {
                if j < prefix.len() {
                    assert(s.subrange(0, prefix.len() as int)[j] == prefix[j]);
                } else if j < prefix.len() + middle.len() {
                    assert(rest[j - prefix.len()] == s[j]);
                } else {
                    let from = rest.len() - suffix.len();
                    let l = j - prefix.len() - from;
                    assert(rest.subrange(from, from + suffix.len())[l] == suffix[l]);
                }
            }
        }
    }
    if s == prefix + middle + suffix {
        assert(s.subrange(0, prefix.len() as int) =~= prefix);
        assert(rest =~= middle + suffix);
        assert(rest.subrange(rest.len() - suffix.len(), rest.len() as int) =~= suffix);
        assert(rest.take(rest.len() - suffix.len()) =~= middle);
    }
}

proof fn lemma_trimmed_end(s: Seq<char>)
    ensures
        trimmed_end(s).len() <= s.len(),
        trimmed_end(s) == s.take(trimmed_end(s).len() as int),
        forall|i: int| trimmed_end(s).len() <= i < s.len() ==> is_white(#[trigger] s[i]),
        trimmed_end(s).len() > 0 ==> !is_white(trimmed_end(s).last()),
    decreases s.len(),
{
    if s.len() > 0 && is_white(s.last()) {
        let front = s.drop_last();
        lemma_trimmed_end(front);
        let n = trimmed_end(s).len() as int;
        assert(front.take(n) =~= s.take(n));
        assert forall|i: int| n <= i < s.len() implies is_white(#[trigger] s[i]) by {
            if i < front.len() {
                assert(front[i] == s[i]);
            }
        }
    } else {
        assert(s.take(s.len() as int) =~= s);
    }
}

/// Trimming at the end takes away the whitespace at the end and nothing else.
pub proof fn trimming_at_the_end(s: Seq<char>)
    ensures
        exists|gap: Seq<char>|
            #![trigger trimmed_end(s) + gap]
            trimmed_end(s) + gap == s && forall|i: int|
                0 <= i < gap.len() ==> is_white(#[trigger] gap[i]),
        trimmed_end(s).len() > 0 ==> !is_white(trimmed_end(s).last()),
{
    lemma_trimmed_end(s);
    let n = trimmed_end(s).len() as int;
    let gap = s.skip(n);
    assert(trimmed_end(s) + gap =~= s);
    assert forall|i: int| 0 <= i < gap.len() implies is_white(#[trigger] gap[i]) by {
        assert(gap[i] == s[n + i]);
    }
}

/// Trimming takes away the whitespace at both ends and nothing else.
pub proof fn trimming_at_both_ends(s: Seq<char>)
    ensures
        exists|before: Seq<char>, after: Seq<char>|
            #![trigger before + trimmed(s) + after]
            before + trimmed(s) + after == s && (forall|i: int|
                0 <= i < before.len() ==> is_white(#[trigger] before[i])) && (forall|i: int|
                0 <= i < after.len() ==> is_white(#[trigger] after[i])),
        trimmed(s).len() > 0 ==> !is_white(trimmed(s).first()) && !is_white(trimmed(s).last()),
{
    lemma_trimmed_end(s);
    let t = trimmed_end(s);
    let a = skip_while(t, 0, true);
    lemma_skip_while(t, 0, true);
    let n = t.len() as int;
    let before = t.take(a);
    let after = s.skip(n);
    assert(before + trimmed(s) + after =~= s);
    assert forall|i: int| 0 <= i < after.len() implies is_white(#[trigger] after[i]) by {
        assert(after[i] == s[n + i]);
    }
    if trimmed(s).len() > 0 {
        assert(trimmed(s).first() == t[a]);
        assert(trimmed(s).last() == t.last());
    }
}

/// Joining: a text alone stays as it is, and two lists joined are the two joined
/// texts with the separator between them.
pub proof fn joining_lists(a: Seq<Seq<char>>, b: Seq<Seq<char>>, separator: Seq<char>)
    requires
        a.len() > 0,
        b.len() > 0,
    ensures
        a.len() == 1 ==> joined(a, separator) == a[0],
        joined(a + b, separator) == joined(a, separator) + separator + joined(b, separator),
    decreases b.len(),
{
    let all = a + b;
    assert(all.last() == b.last());
    assert(all.drop_last() =~= a + b.drop_last());
    if b.len() == 1 {
        assert(a + b.drop_last() =~= a);
    } else {
        joining_lists(a, b.drop_last(), separator);
        assert(joined(all, separator) =~= joined(a, separator) + separator + joined(b, separator));
    }
}

/// Joining nothing gives the empty text.
pub proof fn joining_nothing(separator: Seq<char>)
    ensures
        joined(Seq::empty(), separator).len() == 0,
{
}

/// The lower case of an ASCII text keeps its length; capital letters move up by 32
/// code points and the rest stays. The lower case of any other text is as Unicode
/// has it.
pub proof fn lower_case_by_code_point(s: Seq<char>)
    ensures
        (forall|i: int| 0 <= i < s.len() ==> (#[trigger] s[i]) as int <= 127) ==> {
            &&& lowered(s).len() == s.len()
            &&& forall|i: int|
                0 <= i < s.len() ==> (#[trigger] lowered(s)[i]) as int == if 65 <= s[i] as int
                    && s[i] as int <= 90 {
                    s[i] as int + 32
                } else {
                    s[i] as int
                }
        },
        (exists|i: int| 0 <= i < s.len() && (#[trigger] s[i]) as int > 127) ==> lowered(s)
            == lowercase(s),
{
    if forall|i: int| 0 <= i < s.len() ==> (#[trigger] s[i]) as int <= 127 {
        assert forall|i: int| 0 <= i < s.len() implies #[trigger] s[i] < '\u{80}' by {
            assert(s[i] as int <= 127);
        }
        assert(ascii_only(s));
    }
    if exists|i: int| 0 <= i < s.len() && (#[trigger] s[i]) as int > 127 {
        let i = choose|i: int| 0 <= i < s.len() && (#[trigger] s[i]) as int > 127;
        assert(!(s[i] < '\u{80}'));
    }
}

} // verus!
