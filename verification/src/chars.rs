//! Character-level text primitives.
//!
//! A string is a sequence of `char`s throughout the library: the engine lays
//! out one symbol per cell, so columns are counted in characters and never in
//! bytes or in display widths.

use vstd::prelude::*;

verus! {

broadcast use vstd::string::group_string_axioms;

/// `String::push` appends one character to the end of the string.
pub assume_specification[ String::push ](s: &mut String, c: char)
    ensures
        final(s)@ == old(s)@.push(c),
;

/// The characters with the Unicode `White_Space` property.
pub open spec fn is_white_space(c: char) -> bool {
    let code = c as int;
    ||| 0x09 <= code <= 0x0d
    ||| code == 0x20
    ||| code == 0x85
    ||| code == 0xa0
    ||| code == 0x1680
    ||| 0x2000 <= code <= 0x200a
    ||| code == 0x2028
    ||| code == 0x2029
    ||| code == 0x202f
    ||| code == 0x205f
    ||| code == 0x3000
}

/// Whether `c` separates words: the Unicode `White_Space` property.
pub fn is_whitespace(c: char) -> (r: bool)
    ensures
        r == is_white_space(c),
{
    let code: u32 = c as u32;
    (0x09 <= code && code <= 0x0d) || code == 0x20 || code == 0x85 || code == 0xa0 || code == 0x1680
        || (0x2000 <= code && code <= 0x200a) || code == 0x2028 || code == 0x2029 || code == 0x202f
        || code == 0x205f || code == 0x3000
}

/// `s` without its leading white space.
pub open spec fn trimmed_start(s: Seq<char>) -> Seq<char>
    decreases s.len(),
{
    if s.len() > 0 && is_white_space(s[0]) {
        trimmed_start(s.skip(1))
    } else {
        s
    }
}

/// `s` without its trailing white space.
pub open spec fn trimmed_end(s: Seq<char>) -> Seq<char>
    decreases s.len(),
{
    if s.len() > 0 && is_white_space(s.last()) {
        trimmed_end(s.drop_last())
    } else {
        s
    }
}

/// `s` without white space on either side.
pub open spec fn trimmed(s: Seq<char>) -> Seq<char> {
    trimmed_start(trimmed_end(s))
}

/// Drop trailing white space.
pub fn trim_end(s: &[char]) -> (r: &[char])
    ensures
        r@ == trimmed_end(s@),
{
    let mut end: usize = s.len();
    proof {
        assert(s@.take(end as int) =~= s@);
    }
    while end > 0 && is_whitespace(s[end - 1])
        invariant
            end <= s@.len(),
            trimmed_end(s@.take(end as int)) == trimmed_end(s@),
        decreases end,
    {
        proof {
            assert(s@.take(end as int).drop_last() =~= s@.take(end - 1));
            assert(s@.take(end as int).last() == s@[end - 1]);
        }
        end -= 1;
    }
    proof {
        if end > 0 {
            assert(s@.take(end as int).last() == s@[end - 1]);
        }
        assert(s@.take(end as int) =~= s@.subrange(0, end as int));
    }
    vstd::slice::slice_subrange(s, 0, end)
}

/// Drop leading white space.
pub fn trim_start(s: &[char]) -> (r: &[char])
    ensures
        r@ == trimmed_start(s@),
{
    let mut start: usize = 0;
    proof {
        assert(s@.skip(0) =~= s@);
    }
    while start < s.len() && is_whitespace(s[start])
        invariant
            start <= s@.len(),
            trimmed_start(s@.skip(start as int)) == trimmed_start(s@),
        decreases s@.len() - start,
    {
        proof {
            assert(s@.skip(start as int).skip(1) =~= s@.skip(start + 1));
        }
        start += 1;
    }
    proof {
        assert(s@.skip(start as int) =~= s@.subrange(start as int, s@.len() as int));
    }
    vstd::slice::slice_subrange(s, start, s.len())
}

/// Drop white space on both sides.
pub fn trim(s: &[char]) -> (r: &[char])
    ensures
        r@ == trimmed(s@),
{
    trim_start(trim_end(s))
}

/// The characters of a string, in order.
pub fn to_chars(s: &str) -> (v: Vec<char>)
    ensures
        v@ == s@,
{
    let mut v: Vec<char> = Vec::new();
    for c in it: s.chars()
        invariant
            v@ == it.seq().take(it.index() as int),
    {
        v.push(c);
    }
    v
}

/// Append a run of characters to a string.
pub fn push_chars(out: &mut String, s: &[char])
    ensures
        final(out)@ == old(out)@ + s@,
{
    let mut i: usize = 0;
    while i < s.len()
        invariant
            i <= s@.len(),
            out@ == old(out)@ + s@.take(i as int),
        decreases s@.len() - i,
    {
        out.push(s[i]);
        i += 1;
        proof {
            assert(s@.take(i as int) =~= s@.take(i - 1).push(s@[i - 1]));
        }
    }
    proof {
        assert(s@.take(s@.len() as int) =~= s@);
    }
}

/// Append a string to a string.
pub fn push_text(out: &mut String, s: &str)
    ensures
        final(out)@ == old(out)@ + s@,
{
    let v = to_chars(s);
    push_chars(out, v.as_slice());
}

/// The string a run of characters spells.
pub fn to_text(s: &[char]) -> (r: String)
    ensures
        r@ == s@,
{
    let mut out = String::new();
    push_chars(&mut out, s);
    proof {
        assert(Seq::<char>::empty() + s@ =~= s@);
    }
    out
}

/// Whether two strings spell the same.
pub fn same_text(a: &str, b: &str) -> (r: bool)
    ensures
        r == (a@ == b@),
{
    a.to_owned() == b.to_owned()
}

/// How many characters a string has.
pub fn char_count(s: &str) -> (n: usize)
    ensures
        n == s@.len(),
{
    let v = to_chars(s);
    v.len()
}

/// Whether a character is one of the ten ASCII digits.
pub open spec fn is_decimal_digit(c: char) -> bool {
    '0' <= c <= '9'
}

/// The number that a run of decimal digits spells; `None` for an empty run and
/// for one that holds anything else.
pub open spec fn decimal(s: Seq<char>) -> Option<int>
    decreases s.len(),
{
    if s.len() == 0 || !is_decimal_digit(s.last()) {
        None
    } else if s.len() == 1 {
        Some(s.last() as int - '0' as int)
    } else {
        match decimal(s.drop_last()) {
            Some(v) => Some(v * 10 + (s.last() as int - '0' as int)),
            None => None,
        }
    }
}

/// The number that a text spells: decimal digits, with or without a plus sign
/// in front. `None` where it spells none, or one above `max`.
pub open spec fn numeral(s: Seq<char>, max: int) -> Option<int> {
    let digits = if s.len() > 0 && s[0] == '+' {
        s.skip(1)
    } else {
        s
    };
    match decimal(digits) {
        Some(v) if v <= max => Some(v),
        _ => None,
    }
}

/// More digits never make a number smaller.
proof fn lemma_decimal_grows(s: Seq<char>, i: int, j: int)
    requires
        0 < i <= j <= s.len(),
        decimal(s.take(j)) is Some,
    ensures
        decimal(s.take(i)) is Some,
        0 <= decimal(s.take(i))->0 <= decimal(s.take(j))->0,
    decreases j,
{
    assert(s.take(j).last() == s[j - 1]);
    if j > 1 {
        assert(s.take(j).drop_last() =~= s.take(j - 1));
        if i < j {
            lemma_decimal_grows(s, i, j - 1);
        } else {
            lemma_decimal_grows(s, 1, j - 1);
            lemma_decimal_grows(s, j - 1, j - 1);
        }
    }
}

/// The number a text spells, if it spells one that is at most `max`.
pub fn parse_number(s: &[char], max: u32) -> (r: Option<u32>)
    ensures
        match r {
            Some(v) => numeral(s@, max as int) == Some(v as int),
            None => numeral(s@, max as int) is None,
        },
{
    let start: usize = if s.len() > 0 && s[0] == '+' {
        1
    } else {
        0
    };
    let ghost digits = s@.skip(start as int);
    proof {
        assert(s@.skip(0) =~= s@);
    }
    if start >= s.len() {
        return None;
    }
    let mut v: u64 = 0;
    let mut i: usize = start;
    while i < s.len()
        invariant
            start <= i <= s@.len(),
            digits == s@.skip(start as int),
            numeral(s@, max as int) == (match decimal(digits) {
                Some(v) if v <= max => Some(v),
                _ => None,
            }),
            i == start ==> v == 0,
            i > start ==> decimal(digits.take(i - start)) == Some(v as int),
            v <= max,
        decreases s@.len() - i,
    {
        let c = s[i];
        let ghost n = i + 1 - start;
        proof {
            assert(digits.take(n).last() == c);
            assert(digits.take(n).drop_last() =~= digits.take(n - 1));
            assert(digits.take(digits.len() as int) =~= digits);
            if decimal(digits) is Some {
                lemma_decimal_grows(digits, n, digits.len() as int);
            }
        }
        if c < '0' || '9' < c {
            return None;
        }
        v = v * 10 + (c as u64 - '0' as u64);
        if v > max as u64 {
            return None;
        }
        i += 1;
    }
    proof {
        assert(digits.take(digits.len() as int) =~= digits);
    }
    Some(v as u32)
}

/// The fields of a text, cut at every separator.
pub open spec fn fields(s: Seq<char>, separator: char) -> Seq<Seq<char>>
    decreases s.len(),
{
    if s.len() == 0 {
        seq![Seq::empty()]
    } else {
        let before = fields(s.drop_last(), separator);
        if s.last() == separator {
            before.push(Seq::empty())
        } else {
            before.drop_last().push(before.last().push(s.last()))
        }
    }
}

/// What a list of texts holds.
pub open spec fn texts(v: Seq<Vec<char>>) -> Seq<Seq<char>> {
    v.map_values(|t: Vec<char>| t@)
}

/// Cut a text at every separator.
pub fn split(s: &[char], separator: char) -> (r: Vec<Vec<char>>)
    ensures
        texts(r@) == fields(s@, separator),
{
    let mut out: Vec<Vec<char>> = Vec::new();
    let mut field: Vec<char> = Vec::new();
    let mut i: usize = 0;
    proof {
        assert(texts(out@).push(field@) =~= fields(s@.take(0), separator));
    }
    while i < s.len()
        invariant
            i <= s@.len(),
            texts(out@).push(field@) == fields(s@.take(i as int), separator),
        decreases s@.len() - i,
    {
        let c = s[i];
        let ghost before = texts(out@);
        let ghost held = field@;
        proof {
            assert(s@.take(i + 1).drop_last() =~= s@.take(i as int));
            assert(s@.take(i + 1).last() == c);
            assert(before.push(held).drop_last() =~= before);
        }
        if c == separator {
            out.push(field);
            field = Vec::new();
            proof {
                assert(texts(out@) =~= before.push(held));
            }
        } else {
            field.push(c);
        }
        i += 1;
        proof {
            assert(texts(out@).push(field@) =~= fields(s@.take(i as int), separator));
        }
    }
    let ghost before = texts(out@);
    let ghost held = field@;
    out.push(field);
    proof {
        assert(s@.take(i as int) =~= s@);
        assert(texts(out@) =~= before.push(held));
    }
    out
}

/// What a list of strings holds.
pub open spec fn strings(v: Seq<String>) -> Seq<Seq<char>> {
    v.map_values(|t: String| t@)
}

/// `s` without one carriage return at its end.
pub open spec fn without_return(s: Seq<char>) -> Seq<char> {
    if s.len() > 0 && s.last() == '\r' {
        s.drop_last()
    } else {
        s
    }
}

/// The lines of a text: what newlines end, without the newline and without a
/// carriage return in front of it, and what follows the last newline, if that
/// is anything.
pub open spec fn lines(s: Seq<char>) -> Seq<Seq<char>> {
    let cut = fields(s, '\n');
    let ended = cut.drop_last().map_values(|line: Seq<char>| without_return(line));
    if cut.last().len() == 0 {
        ended
    } else {
        ended.push(cut.last())
    }
}

/// Every text has a field.
pub proof fn lemma_fields_nonempty(s: Seq<char>, separator: char)
    ensures
        fields(s, separator).len() > 0,
    decreases s.len(),
{
    if s.len() > 0 {
        lemma_fields_nonempty(s.drop_last(), separator);
    }
}

/// Split a text into lines.
pub fn split_lines(s: &[char]) -> (r: Vec<Vec<char>>)
    ensures
        texts(r@) == lines(s@),
{
    let mut out = split(s, '\n');
    let ghost cut = fields(s@, '\n');
    proof {
        lemma_fields_nonempty(s@, '\n');
        assert(texts(out@).len() == out@.len());
    }
    let n: usize = out.len() - 1;
    let mut i: usize = 0;
    while i < n
        invariant
            i <= n,
            out@.len() == n + 1,
            cut.len() == n + 1,
            forall|k: int| 0 <= k < i ==> (#[trigger] out@[k])@ == without_return(cut[k]),
            forall|k: int| i <= k <= n ==> (#[trigger] out@[k])@ == cut[k],
        decreases n - i,
    {
        let ghost before = out@;
        let len: usize = out[i].len();
        if len > 0 && out[i][len - 1] == '\r' {
            let line = vstd::slice::slice_subrange(out[i].as_slice(), 0, len - 1);
            let kept = copied(line);
            proof {
                assert(kept@ =~= without_return(cut[i as int]));
            }
            out.set(i, kept);
        }
        i += 1;
    }
    if out[n].len() == 0 {
        out.truncate(n);
    }
    proof {
        assert(texts(out@) =~= lines(s@));
    }
    out
}

/// A run of characters of its own.
pub fn copied(s: &[char]) -> (v: Vec<char>)
    ensures
        v@ == s@,
{
    let mut v: Vec<char> = Vec::new();
    let mut i: usize = 0;
    while i < s.len()
        invariant
            i <= s@.len(),
            v@ == s@.take(i as int),
        decreases s@.len() - i,
    {
        v.push(s[i]);
        i += 1;
    }
    proof {
        assert(s@.take(i as int) =~= s@);
    }
    v
}

/// Whether `part` occurs in `s` at index `i`.
pub open spec fn occurs_at(s: Seq<char>, part: Seq<char>, i: int) -> bool {
    0 <= i && i + part.len() <= s.len() && s.subrange(i, i + part.len()) == part
}

/// The last index at which `part` occurs in `s`, of those below `n`.
pub open spec fn last_occurrence(s: Seq<char>, part: Seq<char>, n: int) -> Option<int>
    decreases n,
{
    if n <= 0 {
        None
    } else if occurs_at(s, part, n - 1) {
        Some(n - 1)
    } else {
        last_occurrence(s, part, n - 1)
    }
}

/// Whether `part` occurs in `s` at index `i`.
fn matches_at(s: &[char], part: &[char], i: usize) -> (r: bool)
    requires
        i <= s@.len(),
    ensures
        r == occurs_at(s@, part@, i as int),
{
    let len: usize = s.len();
    if part.len() > len - i {
        return false;
    }
    let mut k: usize = 0;
    while k < part.len()
        invariant
            k <= part@.len(),
            i + part@.len() <= s@.len(),
            s@.len() == len,
            s@.subrange(i as int, i + k) == part@.take(k as int),
        decreases part@.len() - k,
    {
        if s[i + k] != part[k] {
            proof {
                let cut = s@.subrange(i as int, i + part@.len());
                assert(cut[k as int] == s@[i + k]);
            }
            return false;
        }
        k += 1;
        proof {
            assert(s@.subrange(i as int, i + k) =~= s@.subrange(i as int, i + k - 1).push(
                s@[i + k - 1],
            ));
            assert(part@.take(k as int) =~= part@.take(k - 1).push(part@[k - 1]));
        }
    }
    proof {
        assert(part@.take(k as int) =~= part@);
    }
    true
}

/// The last index at which `part` occurs in `s`.
pub fn find_last(s: &[char], part: &[char]) -> (r: Option<usize>)
    requires
        part@.len() > 0,
    ensures
        match r {
            Some(i) => last_occurrence(s@, part@, s@.len() as int) == Some(i as int)
                && occurs_at(s@, part@, i as int),
            None => last_occurrence(s@, part@, s@.len() as int) is None,
        },
{
    let mut n: usize = s.len();
    while n > 0
        invariant
            n <= s@.len(),
            last_occurrence(s@, part@, s@.len() as int) == last_occurrence(s@, part@, n as int),
        decreases n,
    {
        if matches_at(s, part, n - 1) {
            return Some(n - 1);
        }
        n -= 1;
    }
    None
}

/// The words of a text: its maximal runs of anything but white space.
pub open spec fn words(s: Seq<char>) -> Seq<Seq<char>>
    decreases s.len(),
{
    if s.len() == 0 {
        Seq::empty()
    } else {
        let head = s.drop_last();
        let before = words(head);
        if is_white_space(s.last()) {
            before
        } else if head.len() > 0 && !is_white_space(head.last()) {
            before.drop_last().push(before.last().push(s.last()))
        } else {
            before.push(seq![s.last()])
        }
    }
}

/// Split a text into words.
pub fn split_words(s: &[char]) -> (r: Vec<Vec<char>>)
    ensures
        texts(r@) == words(s@),
{
    let mut out: Vec<Vec<char>> = Vec::new();
    let mut word: Vec<char> = Vec::new();
    let mut i: usize = 0;
    proof {
        assert(texts(out@) =~= words(s@.take(0)));
    }
    while i < s.len()
        invariant
            i <= s@.len(),
            word@.len() > 0 <==> (i > 0 && !is_white_space(s@[i - 1])),
            words(s@.take(i as int)) == if word@.len() > 0 {
                texts(out@).push(word@)
            } else {
                texts(out@)
            },
        decreases s@.len() - i,
    {
        let c = s[i];
        let ghost before = texts(out@);
        let ghost held = word@;
        proof {
            assert(s@.take(i + 1).drop_last() =~= s@.take(i as int));
            assert(s@.take(i + 1).last() == c);
            if i > 0 {
                assert(s@.take(i as int).last() == s@[i - 1]);
            }
            assert(before.push(held).drop_last() =~= before);
        }
        if is_whitespace(c) {
            if word.len() > 0 {
                out.push(word);
                word = Vec::new();
                proof {
                    assert(texts(out@) =~= before.push(held));
                }
            }
        } else {
            word.push(c);
            proof {
                if held.len() == 0 {
                    assert(word@ =~= seq![c]);
                }
            }
        }
        i += 1;
    }
    proof {
        assert(s@.take(i as int) =~= s@);
    }
    if word.len() > 0 {
        let ghost before = texts(out@);
        let ghost held = word@;
        out.push(word);
        proof {
            assert(texts(out@) =~= before.push(held));
        }
    }
    out
}

/// The character of a hexadecimal digit, in lower case.
pub open spec fn digit_char(d: int) -> char {
    if d < 10 {
        ('0' as int + d) as char
    } else {
        ('a' as int + (d - 10)) as char
    }
}

/// The character of a hexadecimal digit, in lower case.
fn char_of(d: u8) -> (c: char)
    requires
        d < 16,
    ensures
        c == digit_char(d as int),
{
    if d < 10 {
        (48u8 + d) as char
    } else {
        (97u8 + (d - 10)) as char
    }
}

/// A number in decimal digits, without leading zeros.
pub open spec fn decimal_text(n: nat) -> Seq<char>
    decreases n,
{
    if n < 10 {
        seq![digit_char(n as int)]
    } else {
        decimal_text(n / 10).push(digit_char((n % 10) as int))
    }
}

/// Append a number in decimal digits.
pub fn push_decimal(out: &mut String, n: u64)
    ensures
        final(out)@ == old(out)@ + decimal_text(n as nat),
    decreases n,
{
    if n >= 10 {
        push_decimal(out, n / 10);
    } else {
        proof {
            assert(old(out)@ + Seq::<char>::empty() =~= old(out)@);
        }
    }
    let ghost before = out@;
    out.push(char_of((n % 10) as u8));
    proof {
        assert(out@ =~= old(out)@ + decimal_text(n as nat));
    }
}

/// A number in a fixed count of hexadecimal digits, the highest first.
pub open spec fn hex_text(n: nat, digits: nat) -> Seq<char>
    decreases digits,
{
    if digits == 0 {
        Seq::empty()
    } else {
        hex_text(n / 16, (digits - 1) as nat).push(digit_char((n % 16) as int))
    }
}

/// Append a number in a fixed count of hexadecimal digits.
pub fn push_hex(out: &mut String, n: u64, digits: u32)
    ensures
        final(out)@ == old(out)@ + hex_text(n as nat, digits as nat),
    decreases digits,
{
    if digits == 0 {
        proof {
            assert(old(out)@ + Seq::<char>::empty() =~= old(out)@);
        }
        return;
    }
    push_hex(out, n / 16, digits - 1);
    out.push(char_of((n % 16) as u8));
    proof {
        assert(out@ =~= old(out)@ + hex_text(n as nat, digits as nat));
    }
}

/// A number reads back from its digits.
pub proof fn a_number_reads_back(n: nat)
    ensures
        decimal(decimal_text(n)) == Some(n as int),
    decreases n,
{
    let s = decimal_text(n);
    if n >= 10 {
        a_number_reads_back(n / 10);
        assert(s.drop_last() =~= decimal_text(n / 10));
    }
}

/// Appending a text without separators makes the last field longer.
pub proof fn lemma_fields_append(s: Seq<char>, t: Seq<char>, separator: char)
    requires
        forall|j: int| 0 <= j < t.len() ==> #[trigger] t[j] != separator,
    ensures
        fields(s, separator).len() > 0,
        fields(s + t, separator) == fields(s, separator).drop_last().push(
            fields(s, separator).last() + t,
        ),
    decreases t.len(),
{
    lemma_fields_nonempty(s, separator);
    let f = fields(s, separator);
    if t.len() == 0 {
        assert(s + t =~= s);
        assert(f.last() + t =~= f.last());
        assert(f =~= f.drop_last().push(f.last()));
    } else {
        let head = t.drop_last();
        assert(t[t.len() - 1] != separator);
        assert forall|j: int| 0 <= j < head.len() implies #[trigger] head[j] != separator by {
            assert(head[j] == t[j]);
        }
        lemma_fields_append(s, head, separator);
        assert((s + t).drop_last() =~= s + head);
        assert((s + t).last() == t.last());
        let g = fields(s + head, separator);
        assert(g.drop_last() =~= f.drop_last());
        assert((f.last() + head).push(t.last()) =~= f.last() + t);
        assert(fields(s + t, separator) =~= f.drop_last().push(f.last() + t));
    }
}

/// What is left of a text without its trailing white space is a prefix of it.
pub proof fn lemma_trimmed_end_prefix(s: Seq<char>)
    ensures
        trimmed_end(s).len() <= s.len(),
        trimmed_end(s) == s.take(trimmed_end(s).len() as int),
    decreases s.len(),
{
    if s.len() > 0 && is_white_space(s.last()) {
        let head = s.drop_last();
        lemma_trimmed_end_prefix(head);
        assert(trimmed_end(s) =~= s.take(trimmed_end(s).len() as int));
    } else {
        assert(s =~= s.take(s.len() as int));
    }
}

/// White space at the end of a text does not change what it is without it.
proof fn lemma_trimmed_end_trail(s: Seq<char>, trail: Seq<char>)
    requires
        forall|i: int| 0 <= i < trail.len() ==> is_white_space(#[trigger] trail[i]),
    ensures
        trimmed_end(s + trail) == trimmed_end(s),
    decreases trail.len(),
{
    if trail.len() == 0 {
        assert(s + trail =~= s);
    } else {
        let head = trail.drop_last();
        assert(is_white_space(trail[trail.len() - 1]));
        assert forall|i: int| 0 <= i < head.len() implies is_white_space(#[trigger] head[i]) by {
            assert(head[i] == trail[i]);
        }
        assert((s + trail).drop_last() =~= s + head);
        lemma_trimmed_end_trail(s, head);
    }
}

/// White space at the start of a text does not change what it is without it.
proof fn lemma_trimmed_start_lead(lead: Seq<char>, s: Seq<char>)
    requires
        forall|i: int| 0 <= i < lead.len() ==> is_white_space(#[trigger] lead[i]),
    ensures
        trimmed_start(lead + s) == trimmed_start(s),
    decreases lead.len(),
{
    if lead.len() == 0 {
        assert(lead + s =~= s);
    } else {
        let rest = lead.skip(1);
        assert(is_white_space(lead[0]));
        assert forall|i: int| 0 <= i < rest.len() implies is_white_space(#[trigger] rest[i]) by {
            assert(rest[i] == lead[i + 1]);
        }
        assert((lead + s).skip(1) =~= rest + s);
        lemma_trimmed_start_lead(rest, s);
    }
}

/// Trimming takes the white space on the sides and nothing else.
pub proof fn trimming_takes_the_sides_and_nothing_else(
    lead: Seq<char>,
    core: Seq<char>,
    trail: Seq<char>,
)
    requires
        forall|i: int| 0 <= i < lead.len() ==> is_white_space(#[trigger] lead[i]),
        forall|i: int| 0 <= i < trail.len() ==> is_white_space(#[trigger] trail[i]),
        core.len() > 0 ==> !is_white_space(core[0]) && !is_white_space(core.last()),
    ensures
        trimmed(lead + core + trail) == core,
        core.len() > 0 ==> trimmed_end(lead + core + trail) == lead + core,
        core.len() > 0 ==> trimmed_start(lead + core + trail) == core + trail,
{
    lemma_trimmed_end_trail(lead + core, trail);
    if core.len() > 0 {
        assert((lead + core).last() == core.last());
        lemma_trimmed_start_lead(lead, core);
        assert(lead + core + trail =~= lead + (core + trail));
        lemma_trimmed_start_lead(lead, core + trail);
    } else {
        assert(lead + core =~= Seq::<char>::empty() + lead);
        lemma_trimmed_end_trail(Seq::empty(), lead);
        assert(core =~= Seq::<char>::empty());
    }
}

/// A text is cut at its separators: two texts with a separator between them
/// have the fields of the one and then those of the other.
pub proof fn a_text_is_cut_at_its_separators(a: Seq<char>, separator: char, b: Seq<char>)
    ensures
        fields(a.push(separator) + b, separator) == fields(a, separator) + fields(b, separator),
    decreases b.len(),
{
    let all = a.push(separator) + b;
    if b.len() == 0 {
        assert(all =~= a.push(separator));
        assert(a.push(separator).drop_last() =~= a);
        assert(fields(a, separator).push(Seq::empty()) =~= fields(a, separator) + fields(
            b,
            separator,
        ));
    } else {
        a_text_is_cut_at_its_separators(a, separator, b.drop_last());
        lemma_fields_nonempty(b.drop_last(), separator);
        assert(all.drop_last() =~= a.push(separator) + b.drop_last());
        assert(all.last() == b.last());
        assert(fields(all, separator) =~= fields(a, separator) + fields(b, separator));
    }
}

/// A text without separators is one field.
pub proof fn a_text_without_separators_is_one_field(s: Seq<char>, separator: char)
    requires
        forall|i: int| 0 <= i < s.len() ==> #[trigger] s[i] != separator,
    ensures
        fields(s, separator) == seq![s],
{
    lemma_fields_append(Seq::empty(), s, separator);
    assert(Seq::<char>::empty() + s =~= s);
    assert(fields(Seq::<char>::empty(), separator) =~= seq![Seq::<char>::empty()]);
    assert(fields(s, separator) =~= seq![s]);
}

/// A line ends at its newline, or at the carriage return in front of it, and
/// the lines of the rest follow.
pub proof fn a_line_ends_at_its_newline(line: Seq<char>, rest: Seq<char>)
    requires
        forall|i: int| 0 <= i < line.len() ==> #[trigger] line[i] != '\n',
    ensures
        lines(line.push('\n') + rest) == seq![
            if line.len() > 0 && line.last() == '\r' {
                line.drop_last()
            } else {
                line
            },
        ] + lines(rest),
{
    a_text_is_cut_at_its_separators(line, '\n', rest);
    a_text_without_separators_is_one_field(line, '\n');
    lemma_fields_nonempty(rest, '\n');
    let cut = fields(rest, '\n');
    assert((seq![line] + cut).drop_last() =~= seq![line] + cut.drop_last());
    assert(lines(line.push('\n') + rest) =~= seq![without_return(line)] + lines(rest));
}

/// What no newline ends is a line if it is anything at all, as it stands.
pub proof fn a_last_line_needs_no_newline(line: Seq<char>)
    requires
        forall|i: int| 0 <= i < line.len() ==> #[trigger] line[i] != '\n',
    ensures
        line.len() > 0 ==> lines(line) == seq![line],
        line.len() == 0 ==> lines(line) == Seq::<Seq<char>>::empty(),
{
    a_text_without_separators_is_one_field(line, '\n');
    assert(seq![line].drop_last() =~= Seq::<Seq<char>>::empty());
    if line.len() > 0 {
        assert(lines(line) =~= seq![line]);
    } else {
        assert(lines(line) =~= Seq::<Seq<char>>::empty());
    }
}

/// Digits spell no number together with anything else.
proof fn lemma_decimal_digits(s: Seq<char>, i: int)
    requires
        decimal(s) is Some,
        0 <= i < s.len(),
    ensures
        '0' <= s[i] <= '9',
    decreases s.len(),
{
    if i < s.len() - 1 {
        lemma_decimal_digits(s.drop_last(), i);
        assert(s.drop_last()[i] == s[i]);
    }
}

/// The digits of a number are digits.
pub proof fn lemma_decimal_text_digits(n: nat)
    ensures
        decimal_text(n).len() > 0,
        forall|i: int| 0 <= i < decimal_text(n).len() ==> '0' <= #[trigger] decimal_text(n)[i]
            <= '9',
    decreases n,
{
    if n >= 10 {
        lemma_decimal_text_digits(n / 10);
        let head = decimal_text(n / 10);
        assert forall|i: int| 0 <= i < decimal_text(n).len() implies '0'
            <= #[trigger] decimal_text(n)[i] <= '9' by {
            if i < head.len() {
                assert(decimal_text(n)[i] == head[i]);
            }
        }
    }
}

/// A number up to a bound reads as itself, with or without a plus sign, and one
/// above it does not read at all.
pub proof fn a_numeral_reads_as_its_number(n: nat, max: int)
    ensures
        numeral(decimal_text(n), max) == if n <= max {
            Some(n as int)
        } else {
            None
        },
        numeral(seq!['+'] + decimal_text(n), max) == numeral(decimal_text(n), max),
{
    a_number_reads_back(n);
    lemma_decimal_text_digits(n);
    assert(decimal_text(n)[0] != '+');
    assert((seq!['+'] + decimal_text(n)).skip(1) =~= decimal_text(n));
}

/// A digit of a number below ten is its own character, and further digits
/// follow the ones of the tenth part.
pub proof fn digits_are_written_highest_first(n: nat, d: nat)
    requires
        d < 10,
    ensures
        decimal_text(d) == seq![(48 + d) as char],
        n > 0 ==> decimal_text(n * 10 + d) == decimal_text(n).push((48 + d) as char),
{
    if n > 0 {
        assert((n * 10 + d) / 10 == n && (n * 10 + d) % 10 == d);
    }
}

/// What holds anything but digits, behind a plus sign at most, is no number,
/// and neither is what holds nothing.
pub proof fn what_holds_more_than_digits_is_no_number(s: Seq<char>, i: int, max: int)
    requires
        s.len() == 0 || (0 <= i < s.len() && !('0' <= s[i] <= '9') && !(i == 0 && s[i] == '+'))
            || s == seq!['+'],
    ensures
        numeral(s, max) is None,
{
    if s.len() > 0 && numeral(s, max) is Some {
        if s[0] == '+' {
            if s.len() > 1 {
                lemma_decimal_digits(s.skip(1), i - 1);
                assert(s.skip(1)[i - 1] == s[i]);
            }
        } else {
            lemma_decimal_digits(s, i);
        }
    }
}

/// The number that a run of hexadecimal digits in lower case spells.
pub open spec fn hex_number(s: Seq<char>) -> int
    decreases s.len(),
{
    if s.len() == 0 {
        0
    } else {
        hex_number(s.drop_last()) * 16 + if s.last() <= '9' {
            s.last() as int - 48
        } else {
            s.last() as int - 97 + 10
        }
    }
}

/// One more than the largest number with a count of hexadecimal digits.
pub open spec fn hex_limit(digits: nat) -> nat
    decreases digits,
{
    if digits == 0 {
        1
    } else {
        16 * hex_limit((digits - 1) as nat)
    }
}

/// A number in hexadecimal digits has as many digits as it was given, all in
/// lower case, and reads back.
pub proof fn a_hexadecimal_number_reads_back(n: nat, digits: nat)
    requires
        n < hex_limit(digits),
    ensures
        hex_text(n, digits).len() == digits,
        hex_number(hex_text(n, digits)) == n,
        forall|i: int|
            0 <= i < digits ==> '0' <= #[trigger] hex_text(n, digits)[i] <= '9' || 'a' <= hex_text(
                n,
                digits,
            )[i] <= 'f',
    decreases digits,
{
    if digits > 0 {
        let head = hex_text(n / 16, (digits - 1) as nat);
        a_hexadecimal_number_reads_back(n / 16, (digits - 1) as nat);
        assert(hex_text(n, digits).drop_last() =~= head);
        assert forall|i: int| 0 <= i < digits implies '0' <= #[trigger] hex_text(n, digits)[i]
            <= '9' || 'a' <= hex_text(n, digits)[i] <= 'f' by {
            if i < head.len() {
                assert(hex_text(n, digits)[i] == head[i]);
            }
        }
    }
}

/// White space is what Unicode calls so: these twenty-five characters, and no
/// others.
pub proof fn white_space_is_what_unicode_calls_so(c: char)
    ensures
        is_white_space(c) <==> seq![
            '\u{9}', '\u{a}', '\u{b}', '\u{c}', '\u{d}', ' ', '\u{85}', '\u{a0}', '\u{1680}',
            '\u{2000}', '\u{2001}', '\u{2002}', '\u{2003}', '\u{2004}', '\u{2005}', '\u{2006}',
            '\u{2007}', '\u{2008}', '\u{2009}', '\u{200a}', '\u{2028}', '\u{2029}', '\u{202f}',
            '\u{205f}', '\u{3000}',
        ].contains(c),
{
    let all = seq![
        '\u{9}', '\u{a}', '\u{b}', '\u{c}', '\u{d}', ' ', '\u{85}', '\u{a0}', '\u{1680}',
        '\u{2000}', '\u{2001}', '\u{2002}', '\u{2003}', '\u{2004}', '\u{2005}', '\u{2006}',
        '\u{2007}', '\u{2008}', '\u{2009}', '\u{200a}', '\u{2028}', '\u{2029}', '\u{202f}',
        '\u{205f}', '\u{3000}',
    ];
    if is_white_space(c) {
        let i: int = if 0x09 <= c as int <= 0x0d {
            c as int - 0x09
        } else if c as int == 0x20 {
            5
        } else if c as int == 0x85 {
            6
        } else if c as int == 0xa0 {
            7
        } else if c as int == 0x1680 {
            8
        } else if 0x2000 <= c as int <= 0x200a {
            c as int - 0x2000 + 9
        } else if c as int == 0x2028 {
            20
        } else if c as int == 0x2029 {
            21
        } else if c as int == 0x202f {
            22
        } else if c as int == 0x205f {
            23
        } else {
            24
        };
        assert(all[i] == c);
    }
}

/// What is trimmed off the end is white space, and what is left does not end
/// in any.
pub proof fn only_white_space_is_trimmed_off_the_end(s: Seq<char>)
    ensures
        ({
            let t = trimmed_end(s);
            &&& t.len() <= s.len()
            &&& forall|i: int| 0 <= i < t.len() ==> #[trigger] t[i] == s[i]
            &&& forall|i: int| t.len() <= i < s.len() ==> is_white_space(#[trigger] s[i])
            &&& t.len() > 0 ==> !is_white_space(t.last())
        }),
    decreases s.len(),
{
    if s.len() > 0 && is_white_space(s.last()) {
        let head = s.drop_last();
        only_white_space_is_trimmed_off_the_end(head);
        assert forall|i: int| trimmed_end(s).len() <= i < s.len() implies is_white_space(
            #[trigger] s[i],
        ) by {
            if i < head.len() {
                assert(is_white_space(head[i]));
            }
        }
    }
}

/// A number in hexadecimal is written in digits.
pub proof fn lemma_hex_text_digits(n: nat, digits: nat)
    ensures
        hex_text(n, digits).len() == digits,
        forall|i: int|
            0 <= i < digits ==> '0' <= #[trigger] hex_text(n, digits)[i] <= '9' || 'a' <= hex_text(
                n,
                digits,
            )[i] <= 'f',
    decreases digits,
{
    if digits > 0 {
        lemma_hex_text_digits(n / 16, (digits - 1) as nat);
        let head = hex_text(n / 16, (digits - 1) as nat);
        assert forall|i: int| 0 <= i < digits implies '0' <= #[trigger] hex_text(n, digits)[i]
            <= '9' || 'a' <= hex_text(n, digits)[i] <= 'f' by {
            if i < digits - 1 {
                assert(hex_text(n, digits)[i] == head[i]);
            }
        }
    }
}

/// A list of texts holds each text in its own place.
pub proof fn a_list_holds_each_text_in_its_place(v: Seq<String>, w: Seq<Vec<char>>, i: int)
    ensures
        strings(v).len() == v.len(),
        texts(w).len() == w.len(),
        0 <= i < v.len() ==> strings(v)[i] == v[i]@,
        0 <= i < w.len() ==> texts(w)[i] == w[i]@,
{
}

} // verus!
