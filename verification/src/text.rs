//! Text as sequences of characters: searching, trimming, splitting into lines and writing numbers.

use vstd::prelude::*;
use vstd::utf8::*;

verus! {

/// `String::push` of std: appends one character.
pub assume_specification[ String::push ](s: &mut String, c: char)
    ensures
        final(s)@ == old(s)@.push(c),
;

/// The characters of a text, in order.
pub fn chars_of(s: &str) -> (v: Vec<char>)
    ensures
        v@ == s@,
{
    let mut v: Vec<char> = Vec::new();
    for c in it: s.chars()
        invariant
            it.seq() == s@,
            v@ == s@.take(it.index() as int),
    {
        v.push(c);
    }
    v
}

/// The text of the characters from `from` up to `to`.
pub fn text_of(v: &Vec<char>, from: usize, to: usize) -> (s: String)
    requires
        from <= to <= v@.len(),
    ensures
        s@ == v@.subrange(from as int, to as int),
{
    let mut s = String::new();
    let mut i: usize = from;
    while i < to
        invariant
            from <= i <= to <= v@.len(),
            s@ == v@.subrange(from as int, i as int),
        decreases to - i,
    {
        s.push(v[i]);
        i = i + 1;
        assert(s@ == v@.subrange(from as int, i as int));
    }
    s
}

/// The number of bytes that a text takes in UTF-8.
pub open spec fn byte_count(s: Seq<char>) -> nat {
    encode_utf8(s).len()
}

/// The bytes of one text behind another are those of the one and those of the other, and the place
/// where they meet lies between two characters.
pub proof fn lemma_encode_add(a: Seq<char>, b: Seq<char>)
    ensures
        encode_utf8(a + b) == encode_utf8(a) + encode_utf8(b),
        is_char_boundary(encode_utf8(a + b), byte_count(a) as int),
    decreases a.len(),
{
    broadcast use encode_utf8_valid_utf8;

    if a.len() == 0 {
        assert(a + b =~= b);
        assert(encode_utf8(a) + encode_utf8(b) =~= encode_utf8(b));
    } else {
        let rest = a.drop_first();
        let bytes = encode_utf8(a + b);
        assert((a + b).drop_first() =~= rest + b);
        lemma_encode_add(rest, b);
        assert(bytes =~= encode_utf8(a) + encode_utf8(b));
        encode_utf8_first_scalar(a + b);
        assert(pop_first_scalar(bytes) =~= encode_utf8(rest + b));
    }
}

/// The number of bytes of a text.
pub fn byte_len(s: &str) -> (n: usize)
    ensures
        n == byte_count(s@),
{
    s.as_bytes().len()
}

/// Whether two texts are the same.
pub fn same_text(a: &str, b: &str) -> (r: bool)
    ensures
        r == (a@ == b@),
{
    let x = chars_of(a);
    let y = chars_of(b);
    if x.len() != y.len() {
        return false;
    }
    let mut i: usize = 0;
    while i < x.len()
        invariant
            i <= x@.len(),
            x@.len() == y@.len(),
            x@ == a@,
            y@ == b@,
            forall|j: int| 0 <= j < i ==> x@[j] == y@[j],
        decreases x@.len() - i,
    {
        if x[i] != y[i] {
            return false;
        }
        i = i + 1;
    }
    assert(a@ =~= b@);
    true
}

/// `str::to_lowercase` of std: the lower-case form of a text under Unicode's rules.
pub uninterp spec fn lowercase(s: Seq<char>) -> Seq<char>;

/// The lower-case form of an ASCII character.
pub open spec fn ascii_lower(c: char) -> char {
    if 'A' <= c && c <= 'Z' {
        (c as u32 + 32) as char
    } else {
        c
    }
}

/// A text of ASCII characters in lower case.
pub open spec fn ascii_lowered(s: Seq<char>) -> Seq<char> {
    s.map_values(|c: char| ascii_lower(c))
}

/// Calls `str::to_lowercase` of std. Its result is a function of the text alone, named
/// `lowercase`; on a text of ASCII characters it lowers the letters `A` to `Z` and leaves the
/// others as they are.
#[verifier::external_body]
pub(crate) fn to_lowercase(s: &str) -> (r: String)
    ensures
        r@ == lowercase(s@),
        is_ascii_chars(s@) ==> r@ == ascii_lowered(s@),
{
    s.to_lowercase()
}

/// Whether `part` stands in `s` at position `at`.
pub open spec fn stands_at(s: Seq<char>, part: Seq<char>, at: int) -> bool {
    0 <= at && at + part.len() <= s.len() && s.subrange(at, at + part.len()) == part
}

/// Whether `part` stands somewhere in `s`.
pub open spec fn contains_text(s: Seq<char>, part: Seq<char>) -> bool {
    exists|at: int| stands_at(s, part, at)
}

/// Whether `part` stands in `s` at position `at`.
fn found_at(s: &Vec<char>, part: &Vec<char>, at: usize) -> (r: bool)
    ensures
        r == stands_at(s@, part@, at as int),
{
    if at > s.len() || part.len() > s.len() - at {
        return false;
    }
    let n: usize = s.len();
    let mut i: usize = 0;
    while i < part.len()
        invariant
            i <= part@.len(),
            at + part@.len() <= s@.len(),
            n == s@.len(),
            forall|j: int| 0 <= j < i ==> s@[at + j] == part@[j],
        decreases part@.len() - i,
    {
        if s[at + i] != part[i] {
            assert(s@.subrange(at as int, at + part@.len())[i as int] != part@[i as int]);
            return false;
        }
        i = i + 1;
    }
    assert(s@.subrange(at as int, at + part@.len()) =~= part@);
    true
}

/// Whether `part` stands somewhere in `s`.
pub fn has_part(s: &str, part: &str) -> (r: bool)
    ensures
        r == contains_text(s@, part@),
{
    let x = chars_of(s);
    let y = chars_of(part);
    let mut at: usize = 0;
    loop
        invariant
            x@ == s@,
            y@ == part@,
            at <= x@.len(),
            forall|j: int| 0 <= j < at ==> !stands_at(s@, part@, j),
        decreases x@.len() - at,
    {
        if found_at(&x, &y, at) {
            assert(stands_at(s@, part@, at as int));
            return true;
        }
        if at == x.len() {
            assert(forall|j: int| !stands_at(s@, part@, j));
            return false;
        }
        at = at + 1;
    }
}

/// Whether `s` begins with `head`.
pub fn starts_with(s: &str, head: &str) -> (r: bool)
    ensures
        r == head@.is_prefix_of(s@),
{
    let x = chars_of(s);
    let y = chars_of(head);
    found_at(&x, &y, 0)
}

/// Whether a character has Unicode's `White_Space` property.
pub open spec fn white_space(c: char) -> bool {
    ||| '\u{9}' <= c <= '\u{d}'
    ||| c == '\u{20}'
    ||| c == '\u{85}'
    ||| c == '\u{a0}'
    ||| c == '\u{1680}'
    ||| '\u{2000}' <= c <= '\u{200a}'
    ||| c == '\u{2028}'
    ||| c == '\u{2029}'
    ||| c == '\u{202f}'
    ||| c == '\u{205f}'
    ||| c == '\u{3000}'
}

/// Whether a character is white space.
pub fn is_white(c: char) -> (r: bool)
    ensures
        r == white_space(c),
{
    ('\u{9}' <= c && c <= '\u{d}') || c == '\u{20}' || c == '\u{85}' || c == '\u{a0}'
        || c == '\u{1680}' || ('\u{2000}' <= c && c <= '\u{200a}') || c == '\u{2028}'
        || c == '\u{2029}' || c == '\u{202f}' || c == '\u{205f}' || c == '\u{3000}'
}

/// A text without the white space in front.
pub open spec fn trim_start(s: Seq<char>) -> Seq<char>
    decreases s.len(),
{
    if s.len() > 0 && white_space(s[0]) {
        trim_start(s.drop_first())
    } else {
        s
    }
}

/// A text without the white space at its end.
pub open spec fn trim_end(s: Seq<char>) -> Seq<char>
    decreases s.len(),
{
    if s.len() > 0 && white_space(s.last()) {
        trim_end(s.drop_last())
    } else {
        s
    }
}

/// A text without the white space around it.
pub open spec fn trim(s: Seq<char>) -> Seq<char> {
    trim_end(trim_start(s))
}

/// The characters of a text without the white space around it.
pub fn trimmed(s: &str) -> (v: Vec<char>)
    ensures
        v@ == trim(s@),
{
    let all = chars_of(s);
    let mut from: usize = 0;
    assert(all@.skip(0) =~= all@);
    while from < all.len() && is_white(all[from])
        invariant
            from <= all@.len(),
            trim_start(all@) == trim_start(all@.skip(from as int)),
        decreases all@.len() - from,
    {
        assert(all@.skip(from as int).drop_first() =~= all@.skip(from + 1));
        from = from + 1;
    }
    assert(trim_start(all@) == all@.skip(from as int));
    let mut v: Vec<char> = Vec::new();
    let mut i: usize = from;
    while i < all.len()
        invariant
            from <= i <= all@.len(),
            v@ == all@.subrange(from as int, i as int),
        decreases all@.len() - i,
    {
        v.push(all[i]);
        i = i + 1;
        assert(v@ =~= all@.subrange(from as int, i as int));
    }
    assert(v@ =~= all@.skip(from as int));
    while v.len() > 0 && is_white(v[v.len() - 1])
        invariant
            trim_end(v@) == trim(s@),
        decreases v@.len(),
    {
        let ghost before = v@;
        v.pop();
        assert(v@ =~= before.drop_last());
    }
    v
}

/// The character of a decimal digit.
pub open spec fn digit(d: int) -> char {
    (d + 48) as char
}

/// A number written in decimal, without leading zeros.
pub open spec fn decimal(n: nat) -> Seq<char>
    decreases n,
{
    if n < 10 {
        seq![digit(n as int)]
    } else {
        decimal(n / 10).push(digit((n % 10) as int))
    }
}

/// The character of a decimal digit.
pub fn digit_char(d: u8) -> (c: char)
    requires
        d < 10,
    ensures
        c == digit(d as int),
{
    (d + 48) as char
}

/// A number written in decimal, without leading zeros.
pub fn decimal_text(n: u64) -> (s: String)
    ensures
        s@ == decimal(n as nat),
    decreases n,
{
    if n < 10 {
        let mut s = String::new();
        s.push(digit_char(n as u8));
        assert(s@ =~= decimal(n as nat));
        s
    } else {
        let mut s = decimal_text(n / 10);
        s.push(digit_char((n % 10) as u8));
        s
    }
}

/// Whether a character is a decimal digit.
pub open spec fn is_digit(c: char) -> bool {
    '0' <= c && c <= '9'
}

/// Whether a text holds decimal digits alone, at least one.
pub open spec fn all_digits(s: Seq<char>) -> bool {
    s.len() > 0 && forall|i: int| 0 <= i < s.len() ==> is_digit(#[trigger] s[i])
}

/// The number that a row of decimal digits stands for.
pub open spec fn digits_value(s: Seq<char>) -> nat
    decreases s.len(),
{
    if s.len() == 0 {
        0
    } else {
        digits_value(s.drop_last()) * 10 + (s.last() as nat - 48) as nat
    }
}

/// The integer that a text stands for: decimal digits, with `+` or `-` in front or not; `None`
/// where the text is anything else or the integer does not fit in 64 bits.
pub open spec fn integer(s: Seq<char>) -> Option<int> {
    let signed = s.len() > 0 && (s[0] == '+' || s[0] == '-');
    let digits = if signed { s.drop_first() } else { s };
    let value = if signed && s[0] == '-' { -digits_value(digits) } else { digits_value(digits) as int };
    if all_digits(digits) && i64::MIN <= value <= i64::MAX {
        Some(value)
    } else {
        None
    }
}

/// A longer row of digits stands for no smaller a number.
proof fn lemma_digits_value_grows(s: Seq<char>, i: int)
    requires
        0 <= i <= s.len(),
    ensures
        digits_value(s.take(i)) <= digits_value(s),
    decreases s.len() - i,
{
    if i == s.len() {
        assert(s.take(i) =~= s);
    } else {
        lemma_digits_value_grows(s, i + 1);
        assert(s.take(i + 1).drop_last() =~= s.take(i));
    }
}

/// The integer that the first `to` characters stand for.
pub fn parse_integer(v: &Vec<char>, to: usize) -> (r: Option<i64>)
    requires
        to <= v@.len(),
    ensures
        match r {
            Some(n) => integer(v@.take(to as int)) == Some(n as int),
            None => integer(v@.take(to as int)) is None,
        },
{
    let ghost s = v@.take(to as int);
    let signed = to > 0 && (v[0] == '+' || v[0] == '-');
    let negative = to > 0 && v[0] == '-';
    let from: usize = if signed { 1 } else { 0 };
    let ghost digits = if signed { s.drop_first() } else { s };
    assert(digits =~= v@.subrange(from as int, to as int));
    if from == to {
        return None;
    }
    let limit: u64 = 0x8000_0000_0000_0000;
    let mut value: u64 = 0;
    let mut i: usize = from;
    while i < to
        invariant
            from <= i <= to <= v@.len(),
            digits == v@.subrange(from as int, to as int),
            value == digits_value(digits.take(i - from)),
            value <= limit,
            limit == 0x8000_0000_0000_0000u64,
            s == v@.take(to as int),
            signed == (s.len() > 0 && (s[0] == '+' || s[0] == '-')),
            digits == (if signed { s.drop_first() } else { s }),
            forall|j: int| 0 <= j < i - from ==> is_digit(#[trigger] digits[j]),
        decreases to - i,
    {
        let c: char = v[i];
        assert(digits[i - from] == c);
        if c < '0' || c > '9' {
            return None;
        }
        let d: u64 = (c as u32 - 48) as u64;
        assert(digits.take(i - from + 1).drop_last() =~= digits.take(i - from));
        assert(digits_value(digits.take(i - from + 1)) == value * 10 + d);
        let next: u128 = value as u128 * 10 + d as u128;
        if next > limit as u128 {
            proof {
                lemma_digits_value_grows(digits, i - from + 1);
            }
            return None;
        }
        value = next as u64;
        i = i + 1;
    }
    assert(digits.take(to - from) =~= digits);
    if negative {
        if value == limit {
            Some(i64::MIN)
        } else {
            Some(-(value as i64))
        }
    } else if value == limit {
        None
    } else {
        Some(value as i64)
    }
}

/// A row of `n` spaces.
pub open spec fn spaces(n: int) -> Seq<char> {
    Seq::new(if n > 0 { n as nat } else { 0 }, |i: int| ' ')
}

/// Appends `n` spaces.
pub fn push_spaces(s: &mut String, n: u128)
    ensures
        final(s)@ == old(s)@ + spaces(n as int),
{
    let mut i: u128 = 0;
    assert(s@ =~= old(s)@ + spaces(0));
    while i < n
        invariant
            i <= n,
            s@ == old(s)@ + spaces(i as int),
        decreases n - i,
    {
        s.push(' ');
        i = i + 1;
        assert(s@ =~= old(s)@ + spaces(i as int));
    }
}

/// Where the first line feed stands at or behind `from`, or the length where there is none.
pub open spec fn line_end(s: Seq<char>, from: int) -> int
    decreases s.len() - from,
{
    if from >= s.len() || s[from] == '\n' {
        from
    } else {
        line_end(s, from + 1)
    }
}

/// A line without the carriage return at its end.
pub open spec fn without_return(s: Seq<char>) -> Seq<char> {
    if s.len() > 0 && s.last() == '\r' {
        s.drop_last()
    } else {
        s
    }
}

/// The lines of the text that begins at `from`. A line ends at a line feed, and loses the carriage
/// return in front of it; the last line may have no line feed.
pub open spec fn lines_from(s: Seq<char>, from: int) -> Seq<Seq<char>>
    decreases s.len() - from,
{
    if 0 <= from < s.len() {
        let end = line_end(s, from);
        if end < from || end >= s.len() {
            seq![s.skip(from)]
        } else {
            seq![without_return(s.subrange(from, end))] + lines_from(s, end + 1)
        }
    } else {
        Seq::empty()
    }
}

/// The lines of a text.
pub open spec fn lines(s: Seq<char>) -> Seq<Seq<char>> {
    lines_from(s, 0)
}

proof fn lemma_line_end(s: Seq<char>, from: int)
    requires
        0 <= from <= s.len(),
    ensures
        from <= line_end(s, from) <= s.len(),
        line_end(s, from) < s.len() ==> s[line_end(s, from)] == '\n',
        forall|j: int| from <= j < line_end(s, from) ==> s[j] != '\n',
    decreases s.len() - from,
{
    if from < s.len() && s[from] != '\n' {
        lemma_line_end(s, from + 1);
    }
}

/// The texts of a list.
pub open spec fn texts(v: Seq<String>) -> Seq<Seq<char>> {
    v.map_values(|s: String| s@)
}

/// The lines of a text.
pub fn split_lines(s: &str) -> (r: Vec<String>)
    ensures
        texts(r@) == lines(s@),
{
    let v = chars_of(s);
    let n: usize = v.len();
    let mut r: Vec<String> = Vec::new();
    let mut from: usize = 0;
    assert(texts(r@) + lines_from(s@, 0) =~= lines(s@));
    while from < n
        invariant
            v@ == s@,
            n == v@.len(),
            from <= n,
            texts(r@) + lines_from(s@, from as int) == lines(s@),
        decreases n - from,
    {
        let mut end: usize = from;
        while end < n && v[end] != '\n'
            invariant
                v@ == s@,
                n == v@.len(),
                from <= end <= n,
                line_end(s@, from as int) == line_end(s@, end as int),
            decreases n - end,
        {
            end = end + 1;
        }
        proof {
            lemma_line_end(s@, from as int);
        }
        assert(line_end(s@, from as int) == end);
        let ghost before = r@;
        if end == n {
            r.push(text_of(&v, from, n));
            assert(r@.last()@ =~= s@.skip(from as int));
            assert(texts(r@) =~= texts(before) + seq![s@.skip(from as int)]);
            from = n;
            assert(texts(r@) + lines_from(s@, n as int) =~= texts(r@));
        } else {
            let cut: usize = if end > from && v[end - 1] == '\r' { (end - 1) as usize } else { end };
            r.push(text_of(&v, from, cut));
            let ghost line = without_return(s@.subrange(from as int, end as int));
            assert(s@.subrange(from as int, cut as int) =~= line);
            assert(texts(r@) =~= texts(before) + seq![line]);
            assert(texts(before) + (seq![line] + lines_from(s@, end + 1)) =~= (texts(before) + seq![line])
                + lines_from(s@, end + 1));
            from = end + 1;
        }
    }
    assert(texts(r@) + lines_from(s@, from as int) =~= texts(r@));
    r
}

/// No line of a text holds a line feed.
pub proof fn law_lines_hold_no_line_feed(s: Seq<char>, from: int, k: int, i: int)
    requires
        0 <= k < lines_from(s, from).len(),
        0 <= i < lines_from(s, from)[k].len(),
    ensures
        lines_from(s, from)[k][i] != '\n',
    decreases s.len() - from,
{
    let end = line_end(s, from);
    lemma_line_end(s, from);
    if end < s.len() && k > 0 {
        assert(lines_from(s, from)[k] == lines_from(s, end + 1)[k - 1]);
        law_lines_hold_no_line_feed(s, end + 1, k - 1, i);
    } else {
        assert(lines_from(s, from)[k][i] == s[from + i]);
    }
}

proof fn lemma_line_end_in_longer(s: Seq<char>, more: Seq<char>, from: int)
    requires
        0 <= from <= s.len(),
        line_end(s, from) < s.len(),
    ensures
        line_end(s + more, from) == line_end(s, from),
    decreases s.len() - from,
{
    if s[from] != '\n' {
        lemma_line_end_in_longer(s, more, from + 1);
    }
}

proof fn lemma_lines_from_append(s: Seq<char>, line: Seq<char>, from: int)
    requires
        0 <= from <= s.len(),
        s.len() > 0 ==> s.last() == '\n',
        forall|i: int| 0 <= i < line.len() ==> line[i] != '\n',
    ensures
        lines_from(s + line.push('\n'), from) == lines_from(s, from).push(without_return(line)),
    decreases s.len() - from,
{
    let all = s + line.push('\n');
    if from == s.len() {
        lemma_line_end(all, from);
        let end = line_end(all, from);
        assert(end == all.len() - 1) by {
            if end < all.len() - 1 {
                assert(all[end] == line[end - s.len()]);
            }
            assert(all[all.len() - 1] == '\n');
        }
        assert(all.subrange(from, end) =~= line);
        assert(lines_from(all, end + 1) =~= Seq::<Seq<char>>::empty());
        assert(lines_from(all, from) =~= lines_from(s, from).push(without_return(line)));
    } else {
        lemma_line_end(s, from);
        let end = line_end(s, from);
        assert(s[s.len() - 1] == '\n');
        assert(end < s.len());
        lemma_line_end_in_longer(s, line.push('\n'), from);
        assert(all.subrange(from, end) =~= s.subrange(from, end));
        lemma_lines_from_append(s, line, end + 1);
        assert(lines_from(all, from) =~= lines_from(s, from).push(without_return(line)));
    }
}

/// A line written behind a text whose last line is complete is read back as one line more.
pub proof fn law_line_appended(s: Seq<char>, line: Seq<char>)
    requires
        s.len() > 0 ==> s.last() == '\n',
        forall|i: int| 0 <= i < line.len() ==> line[i] != '\n',
    ensures
        lines(s + line.push('\n')) == lines(s).push(without_return(line)),
{
    lemma_lines_from_append(s, line, 0);
}

/// A number written in decimal is read back as that number.
pub proof fn law_decimal_read_back(n: nat)
    ensures
        all_digits(decimal(n)),
        digits_value(decimal(n)) == n,
        n <= i64::MAX ==> integer(decimal(n)) == Some(n as int),
    decreases n,
{
    if n < 10 {
        assert(decimal(n).drop_last() =~= Seq::<char>::empty());
        reveal_with_fuel(digits_value, 2);
    } else {
        law_decimal_read_back(n / 10);
        assert(decimal(n).drop_last() =~= decimal(n / 10));
        assert forall|i: int| 0 <= i < decimal(n).len() implies is_digit(#[trigger] decimal(n)[i]) by {
            if i < decimal(n / 10).len() {
                assert(decimal(n)[i] == decimal(n / 10)[i]);
            }
        }
    }
    assert(is_digit(decimal(n)[0]));
}

/// A text that neither begins nor ends with white space is trimmed to itself.
pub proof fn law_trimmed_stays(s: Seq<char>)
    requires
        s.len() > 0 ==> !white_space(s[0]) && !white_space(s.last()),
    ensures
        trim(s) == s,
{
}

/// The bytes of a text are counted in UTF-8.
pub proof fn law_bytes_are_those_of_utf8(s: Seq<char>)
    ensures
        byte_count(s) == encode_utf8(s).len(),
{
}

/// A text is found wherever it stands, whatever is in front of it and behind it.
pub proof fn law_part_is_found(front: Seq<char>, part: Seq<char>, back: Seq<char>)
    ensures
        contains_text(front + part + back, part),
{
    let s = front + part + back;
    assert(s.subrange(front.len() as int, (front.len() + part.len()) as int) =~= part);
    assert(stands_at(s, part, front.len() as int));
}

/// A text that is found stands there: with something in front of it and something behind it, it is
/// the whole text.
pub proof fn law_found_part_stands_there(s: Seq<char>, part: Seq<char>) -> (r: (Seq<char>, Seq<char>))
    requires
        contains_text(s, part),
    ensures
        s == r.0 + part + r.1,
{
    let at = choose|at: int| stands_at(s, part, at);
    let r = (s.take(at), s.skip(at + part.len()));
    assert(s =~= r.0 + s.subrange(at, at + part.len()) + r.1);
    r
}

proof fn lemma_trim_start(front: Seq<char>, rest: Seq<char>)
    requires
        forall|i: int| 0 <= i < front.len() ==> white_space(#[trigger] front[i]),
    ensures
        trim_start(front + rest) == trim_start(rest),
    decreases front.len(),
{
    if front.len() == 0 {
        assert(front + rest =~= rest);
    } else {
        assert((front + rest).drop_first() =~= front.drop_first() + rest);
        lemma_trim_start(front.drop_first(), rest);
    }
}

proof fn lemma_trim_end(rest: Seq<char>, back: Seq<char>)
    requires
        forall|i: int| 0 <= i < back.len() ==> white_space(#[trigger] back[i]),
    ensures
        trim_end(rest + back) == trim_end(rest),
    decreases back.len(),
{
    if back.len() == 0 {
        assert(rest + back =~= rest);
    } else {
        assert((rest + back).drop_last() =~= rest + back.drop_last());
        lemma_trim_end(rest, back.drop_last());
    }
}

/// White space around a text is trimmed, however much there is, and nothing else.
pub proof fn law_white_space_is_trimmed(front: Seq<char>, s: Seq<char>, back: Seq<char>)
    requires
        forall|i: int| 0 <= i < front.len() ==> white_space(#[trigger] front[i]),
        forall|i: int| 0 <= i < back.len() ==> white_space(#[trigger] back[i]),
        s.len() > 0 ==> !white_space(s[0]) && !white_space(s.last()),
    ensures
        trim(front + s + back) == s,
{
    assert(front + s + back =~= front + (s + back));
    lemma_trim_start(front, s + back);
    if s.len() == 0 {
        assert(s + back =~= back);
        lemma_trim_start(back, s);
        assert(back + s =~= back);
    } else {
        assert((s + back)[0] == s[0]);
        lemma_trim_end(s, back);
    }
}

/// A number ends in its last digit, and has the digits of its tenth part in front of it.
pub proof fn law_decimal_by_digits(n: nat)
    ensures
        decimal(n).len() > 0,
        decimal(n).last() as int == 48 + n % 10,
        n < 10 ==> decimal(n).len() == 1,
        n >= 10 ==> decimal(n).drop_last() == decimal(n / 10),
{
    if n >= 10 {
        assert(decimal(n).drop_last() =~= decimal(n / 10));
    }
}

/// A row of digits stands for ten times what it stands for without the last, and the last.
pub proof fn law_digits_by_tens(s: Seq<char>, c: char)
    requires
        '0' <= c <= '9',
    ensures
        digits_value(Seq::empty()) == 0,
        digits_value(s.push(c)) == digits_value(s) * 10 + (c as int - 48),
{
    assert(s.push(c).drop_last() =~= s);
}

/// Digits stand for an integer, with a sign in front or not, as far as 64 bits go.
pub proof fn law_digits_are_an_integer(digits: Seq<char>)
    requires
        digits.len() > 0,
        forall|i: int| #![trigger digits[i]] 0 <= i < digits.len() ==> '0' <= digits[i] && digits[i] <= '9',
    ensures
        integer(digits) == (if digits_value(digits) <= 0x7fff_ffff_ffff_ffff {
            Some(digits_value(digits) as int)
        } else {
            None
        }),
        integer(seq!['+'] + digits) == integer(digits),
        integer(seq!['-'] + digits) == (if digits_value(digits) <= 0x8000_0000_0000_0000 {
            Some(-digits_value(digits))
        } else {
            None
        }),
{
    assert(digits[0] <= '9' && digits[0] >= '0');
    assert((seq!['+'] + digits).drop_first() =~= digits);
    assert((seq!['-'] + digits).drop_first() =~= digits);
}

/// Nothing but digits, with a sign in front or not, stands for an integer.
pub proof fn law_integer_is_of_digits(s: Seq<char>)
    requires
        integer(s) is Some,
    ensures
        s.len() > 0,
        s[0] == '+' || s[0] == '-' ==> s.len() > 1,
        s[0] == '+' || s[0] == '-' || ('0' <= s[0] && s[0] <= '9'),
        forall|i: int| #![trigger s[i]] 1 <= i < s.len() ==> '0' <= s[i] && s[i] <= '9',
{
    let signed = s.len() > 0 && (s[0] == '+' || s[0] == '-');
    let digits = if signed { s.drop_first() } else { s };
    assert(all_digits(digits));
    assert forall|i: int| #![trigger s[i]] 1 <= i < s.len() implies '0' <= s[i] && s[i] <= '9' by {
        assert(is_digit(digits[if signed { i - 1 } else { i }]));
    }
    if !signed {
        assert(is_digit(digits[0]));
    }
}

/// Text without lines has none; what stands behind the last line feed is a line, carriage returns
/// and all.
pub proof fn law_last_line_needs_no_line_feed(s: Seq<char>, line: Seq<char>)
    requires
        s.len() > 0 ==> s.last() == '\n',
        line.len() > 0,
        forall|i: int| 0 <= i < line.len() ==> line[i] != '\n',
    ensures
        lines(Seq::empty()) == Seq::<Seq<char>>::empty(),
        lines(s + line) == lines(s).push(line),
{
    lemma_lines_from_rest(s, line, 0);
}

proof fn lemma_lines_from_rest(s: Seq<char>, line: Seq<char>, from: int)
    requires
        0 <= from <= s.len(),
        s.len() > 0 ==> s.last() == '\n',
        line.len() > 0,
        forall|i: int| 0 <= i < line.len() ==> line[i] != '\n',
    ensures
        lines_from(s + line, from) == lines_from(s, from).push(line),
    decreases s.len() - from,
{
    let all = s + line;
    lemma_line_end(all, from);
    if from == s.len() {
        let end = line_end(all, from);
        assert(end == all.len()) by {
            if end < all.len() {
                assert(all[end] == line[end - s.len()]);
            }
        }
        assert(all.skip(from) =~= line);
        assert(lines_from(all, from) =~= lines_from(s, from).push(line));
    } else {
        lemma_line_end(s, from);
        let end = line_end(s, from);
        assert(s[s.len() - 1] == '\n');
        assert(end < s.len());
        lemma_line_end_in_longer(s, line, from);
        assert(all.subrange(from, end) =~= s.subrange(from, end));
        lemma_lines_from_rest(s, line, end + 1);
        assert(lines_from(all, from) =~= lines_from(s, from).push(line));
    }
}

/// A line loses one carriage return at its end, and nothing else.
pub proof fn law_one_return_is_lost(line: Seq<char>)
    ensures
        without_return(line.push('\r')) == line,
        line.len() == 0 || line.last() != '\r' ==> without_return(line) == line,
{
    assert(line.push('\r').drop_last() =~= line);
}

/// A row of spaces has as many as asked for, and holds spaces alone.
pub proof fn law_spaces(n: int)
    ensures
        n >= 0 ==> spaces(n).len() == n,
        n < 0 ==> spaces(n).len() == 0,
        forall|i: int| 0 <= i < spaces(n).len() ==> #[trigger] spaces(n)[i] == ' ',
{
}

/// The texts of a list are those of its items, one by one.
pub proof fn law_texts_of_a_list(v: Seq<String>)
    ensures
        texts(v).len() == v.len(),
        forall|i: int| 0 <= i < v.len() ==> #[trigger] texts(v)[i] == v[i]@,
{
}

proof fn lemma_line_end_shifted(front: Seq<char>, s: Seq<char>, from: int)
    requires
        0 <= from <= s.len(),
    ensures
        line_end(front + s, front.len() + from) == front.len() + line_end(s, from),
    decreases s.len() - from,
{
    if from < s.len() {
        assert((front + s)[front.len() + from] == s[from]);
        if s[from] != '\n' {
            lemma_line_end_shifted(front, s, from + 1);
        }
    }
}

proof fn lemma_lines_shifted(front: Seq<char>, s: Seq<char>, from: int)
    requires
        0 <= from <= s.len(),
    ensures
        lines_from(front + s, front.len() + from) == lines_from(s, from),
    decreases s.len() - from,
{
    let all = front + s;
    let n = front.len() as int;
    if from < s.len() {
        let end = line_end(s, from);
        lemma_line_end(s, from);
        lemma_line_end_shifted(front, s, from);
        if end < s.len() {
            assert(all.subrange(n + from, n + end) =~= s.subrange(from, end));
            lemma_lines_shifted(front, s, end + 1);
        } else {
            assert(all.skip(n + from) =~= s.skip(from));
        }
    }
}

/// What stands in front of the first line feed is the first line, and behind it follow the lines of
/// the rest.
pub proof fn law_first_line_comes_first(line: Seq<char>, rest: Seq<char>)
    requires
        forall|i: int| 0 <= i < line.len() ==> line[i] != '\n',
    ensures
        lines(line.push('\n') + rest) == seq![without_return(line)] + lines(rest),
{
    let front = line.push('\n');
    let all = front + rest;
    lemma_line_end(all, 0);
    let end = line_end(all, 0);
    assert(end == line.len()) by {
        assert(all[line.len() as int] == '\n');
        if end < line.len() {
            assert(all[end] == line[end]);
        }
    }
    assert(all.subrange(0, end) =~= line);
    lemma_lines_shifted(front, rest, 0);
}

} // verus!
