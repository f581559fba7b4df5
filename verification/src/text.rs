//! Character-level text handling: whitespace, trimming, lines, ASCII case,
//! decimal numbers and joining.

use vstd::prelude::*;

verus! {

/// `String::push`: appends one character to the end of the string.
pub assume_specification[ String::push ](s: &mut String, c: char)
    ensures
        final(s)@ == old(s)@.push(c),
;

/// `char::from_u32`: the character with the given code point, or `None` where
/// the number is a surrogate or lies beyond `0x10FFFF`.
pub assume_specification[ char::from_u32 ](i: u32) -> (r: Option<char>)
    ensures
        r == if i < 0xD800 || 0xE000 <= i <= 0x10FFFF {
            Some(i as char)
        } else {
            None::<char>
        },
;

/// The contents of each string of a list.
pub open spec fn texts(list: Seq<String>) -> Seq<Seq<char>> {
    Seq::new(list.len(), |i: int| list[i]@)
}

/// The contents of each character slice of a list.
pub open spec fn slices(list: Seq<&[char]>) -> Seq<Seq<char>> {
    Seq::new(list.len(), |i: int| list[i]@)
}

/// The characters of `s`, in order.
pub fn chars_of(s: &str) -> (out: Vec<char>)
    ensures
        out@ == s@,
{
    let mut out: Vec<char> = Vec::new();
    for c in it: s.chars()
        invariant
            out@ == s@.take(it.index()),
            it.seq() == s@,
    {
        out.push(c);
        assert(out@ == s@.take(it.index() + 1));
    }
    assert(s@.take(s@.len() as int) == s@);
    out
}

/// The string with the characters `chars`, in order.
pub fn string_of(chars: &[char]) -> (out: String)
    ensures
        out@ == chars@,
{
    let mut out = String::new();
    let mut i: usize = 0;
    while i < chars.len()
        invariant
            i <= chars.len(),
            out@ == chars@.take(i as int),
        decreases chars.len() - i,
    {
        out.push(chars[i]);
        assert(chars@.take(i + 1) == chars@.take(i as int).push(chars[i as int]));
        i += 1;
    }
    assert(chars@.take(chars@.len() as int) == chars@);
    out
}

/// Whether `chars` spells exactly the text `word`.
pub fn spells(chars: &[char], word: &str) -> (same: bool)
    ensures
        same == (chars@ == word@),
{
    let letters = chars_of(word);
    if chars.len() != letters.len() {
        return false;
    }
    let mut i: usize = 0;
    while i < chars.len()
        invariant
            i <= chars.len(),
            chars.len() == letters.len(),
            letters@ == word@,
            chars@.take(i as int) == letters@.take(i as int),
        decreases chars.len() - i,
    {
        if chars[i] != letters[i] {
            assert(chars@[i as int] != word@[i as int]);
            return false;
        }
        assert(chars@.take(i + 1) == chars@.take(i as int).push(chars[i as int]));
        assert(letters@.take(i + 1) == letters@.take(i as int).push(letters[i as int]));
        i += 1;
    }
    assert(chars@.take(chars@.len() as int) == chars@);
    assert(letters@.take(letters@.len() as int) == letters@);
    true
}

// ---------------------------------------------------------------------------
// Whitespace and trimming
// ---------------------------------------------------------------------------

/// The characters with the Unicode property `White_Space`.
pub open spec fn whitespace(c: char) -> bool {
    ||| '\u{9}' <= c <= '\u{D}'
    ||| c == '\u{20}'
    ||| c == '\u{85}'
    ||| c == '\u{A0}'
    ||| c == '\u{1680}'
    ||| '\u{2000}' <= c <= '\u{200A}'
    ||| c == '\u{2028}'
    ||| c == '\u{2029}'
    ||| c == '\u{202F}'
    ||| c == '\u{205F}'
    ||| c == '\u{3000}'
}

/// Whether `c` is whitespace.
pub fn is_whitespace(c: char) -> (b: bool)
    ensures
        b == whitespace(c),
{
    ('\u{9}' <= c && c <= '\u{D}') || c == '\u{20}' || c == '\u{85}' || c == '\u{A0}' || c
        == '\u{1680}' || ('\u{2000}' <= c && c <= '\u{200A}') || c == '\u{2028}' || c == '\u{2029}'
        || c == '\u{202F}' || c == '\u{205F}' || c == '\u{3000}'
}

/// `s` without the whitespace at its start.
pub open spec fn trimmed_start(s: Seq<char>) -> Seq<char>
    decreases s.len(),
{
    if s.len() > 0 && whitespace(s[0]) {
        trimmed_start(s.drop_first())
    } else {
        s
    }
}

/// `s` without the whitespace at its end.
pub open spec fn trimmed_end(s: Seq<char>) -> Seq<char>
    decreases s.len(),
{
    if s.len() > 0 && whitespace(s.last()) {
        trimmed_end(s.drop_last())
    } else {
        s
    }
}

/// `s` without the whitespace at both ends.
pub open spec fn trimmed(s: Seq<char>) -> Seq<char> {
    trimmed_end(trimmed_start(s))
}

/// The part of `s` that follows its leading whitespace.
pub fn trim_start<'a>(s: &'a [char]) -> (r: &'a [char])
    ensures
        r@ == trimmed_start(s@),
{
    let mut i: usize = 0;
    assert(s@.skip(0) == s@);
    while i < s.len() && is_whitespace(s[i])
        invariant
            i <= s.len(),
            trimmed_start(s@) == trimmed_start(s@.skip(i as int)),
        decreases s.len() - i,
    {
        assert(s@.skip(i as int).drop_first() == s@.skip(i + 1));
        i += 1;
    }
    assert(s@.subrange(i as int, s@.len() as int) == s@.skip(i as int));
    &s[i..s.len()]
}

/// The part of `s` that precedes its trailing whitespace.
pub fn trim_end<'a>(s: &'a [char]) -> (r: &'a [char])
    ensures
        r@ == trimmed_end(s@),
{
    let mut n: usize = s.len();
    assert(s@.take(n as int) == s@);
    while n > 0 && is_whitespace(s[n - 1])
        invariant
            n <= s.len(),
            trimmed_end(s@) == trimmed_end(s@.take(n as int)),
        decreases n,
    {
        assert(s@.take(n as int).drop_last() == s@.take(n - 1));
        n -= 1;
    }
    assert(s@.subrange(0, n as int) == s@.take(n as int));
    &s[0..n]
}

/// The part of `s` between its leading and its trailing whitespace.
pub fn trim<'a>(s: &'a [char]) -> (r: &'a [char])
    ensures
        r@ == trimmed(s@),
{
    trim_end(trim_start(s))
}

/// The first whitespace-delimited word of `s`, empty where there is none.
pub open spec fn first_word(s: Seq<char>) -> Seq<char> {
    let t = trimmed_start(s);
    t.take(word_length(t) as int)
}

/// How many characters precede the first whitespace of `s`.
pub open spec fn word_length(s: Seq<char>) -> nat
    decreases s.len(),
{
    if s.len() == 0 || whitespace(s[0]) {
        0
    } else {
        1 + word_length(s.drop_first())
    }
}

/// The first whitespace-delimited word of `s`, empty where there is none.
pub fn take_first_word<'a>(s: &'a [char]) -> (r: &'a [char])
    ensures
        r@ == first_word(s@),
{
    let t = trim_start(s);
    let mut n: usize = 0;
    assert(t@.skip(0) == t@);
    while n < t.len() && !is_whitespace(t[n])
        invariant
            n <= t.len(),
            word_length(t@) == n + word_length(t@.skip(n as int)),
        decreases t.len() - n,
    {
        assert(t@.skip(n as int).drop_first() == t@.skip(n + 1));
        n += 1;
    }
    assert(t@.subrange(0, n as int) == t@.take(n as int));
    &t[0..n]
}

// ---------------------------------------------------------------------------
// Lines
// ---------------------------------------------------------------------------

/// The position of the first line feed of `s`, or its length.
pub open spec fn newline_at(s: Seq<char>) -> nat
    decreases s.len(),
{
    if s.len() == 0 || s[0] == '\n' {
        0
    } else {
        1 + newline_at(s.drop_first())
    }
}

/// `s` without one carriage return at its end.
pub open spec fn without_return(s: Seq<char>) -> Seq<char> {
    if s.len() > 0 && s.last() == '\r' {
        s.drop_last()
    } else {
        s
    }
}

/// The lines of `s`. A line ends at a line feed, or at a carriage return and
/// a line feed; the end of the last line is optional.
pub open spec fn lines(s: Seq<char>) -> Seq<Seq<char>>
    decreases s.len(),
{
    if s.len() == 0 {
        Seq::empty()
    } else if newline_at(s) >= s.len() {
        seq![s]
    } else {
        seq![without_return(s.take(newline_at(s) as int))] + lines(s.skip(newline_at(s) as int + 1))
    }
}

/// The position of the first line feed at or behind `from`, or the length.
fn find_newline(s: &[char], from: usize) -> (at: usize)
    requires
        from <= s.len(),
    ensures
        from <= at <= s.len(),
        at == from + newline_at(s@.skip(from as int)),
        at < s.len() ==> s@[at as int] == '\n',
{
    let mut i: usize = from;
    while i < s.len() && s[i] != '\n'
        invariant
            from <= i <= s.len(),
            newline_at(s@.skip(from as int)) == (i - from) + newline_at(s@.skip(i as int)),
        decreases s.len() - i,
    {
        assert(s@.skip(i as int).drop_first() == s@.skip(i + 1));
        i += 1;
    }
    i
}

/// The lines of `s`.
pub fn split_lines<'a>(s: &'a [char]) -> (out: Vec<&'a [char]>)
    ensures
        slices(out@) == lines(s@),
{
    let mut out: Vec<&'a [char]> = Vec::new();
    let mut start: usize = 0;
    assert(s@.skip(0) == s@);
    assert(slices(out@) + lines(s@) == lines(s@));
    while start < s.len()
        invariant
            start <= s.len(),
            slices(out@) + lines(s@.skip(start as int)) == lines(s@),
        decreases s.len() - start,
    {
        let ghost rest = s@.skip(start as int);
        let ghost before = slices(out@);
        let at: usize = find_newline(s, start);
        if at >= s.len() {
            let line: &'a [char] = &s[start..s.len()];
            assert(line@ == rest);
            out.push(line);
            assert(slices(out@) == before.push(rest));
            assert(before.push(rest) == before + seq![rest]);
            return out;
        }
        let end: usize = if at > start && s[at - 1] == '\r' {
            at - 1
        } else {
            at
        };
        let line: &'a [char] = &s[start..end];
        proof {
            let head = rest.take(newline_at(rest) as int);
            if at > start {
                assert(head.last() == s@[at - 1]);
            }
            assert(line@ == without_return(head));
            assert(rest.skip(newline_at(rest) as int + 1) == s@.skip(at + 1));
        }
        out.push(line);
        assert(slices(out@) == before.push(line@));
        assert(before + lines(rest) == before.push(line@) + lines(s@.skip(at + 1)));
        start = at + 1;
    }
    assert(slices(out@) + lines(s@.skip(start as int)) == slices(out@));
    out
}

// ---------------------------------------------------------------------------
// ASCII case
// ---------------------------------------------------------------------------

/// `c`, with the letters `A` to `Z` replaced by `a` to `z`.
pub open spec fn lower(c: char) -> char {
    if 'A' <= c <= 'Z' {
        (c as u32 + 32) as char
    } else {
        c
    }
}

/// `s`, with the letters `A` to `Z` replaced by `a` to `z`.
pub open spec fn lowered(s: Seq<char>) -> Seq<char> {
    s.map_values(|c: char| lower(c))
}

/// `s` in ASCII lower case.
pub fn to_lower(s: &[char]) -> (out: Vec<char>)
    ensures
        out@ == lowered(s@),
{
    let mut out: Vec<char> = Vec::new();
    let mut i: usize = 0;
    while i < s.len()
        invariant
            i <= s.len(),
            out@ == lowered(s@.take(i as int)),
        decreases s.len() - i,
    {
        let c: char = s[i];
        let d: char = if 'A' <= c && c <= 'Z' {
            (c as u8 + 32) as char
        } else {
            c
        };
        out.push(d);
        assert(out@ == lowered(s@.take(i + 1)));
        i += 1;
    }
    assert(s@.take(s@.len() as int) == s@);
    out
}

// ---------------------------------------------------------------------------
// Numbers and joining
// ---------------------------------------------------------------------------

/// The decimal digit of a number below ten.
pub open spec fn digit(n: nat) -> char {
    (48 + n) as char
}

/// `n` in decimal, without leading zeros.
pub open spec fn decimal(n: nat) -> Seq<char>
    decreases n,
{
    if n < 10 {
        seq![digit(n)]
    } else {
        decimal(n / 10).push(digit(n % 10))
    }
}

/// Appends `n` in decimal to `out`.
pub fn push_decimal(out: &mut String, n: u128)
    ensures
        final(out)@ == old(out)@ + decimal(n as nat),
    decreases n,
{
    if n >= 10 {
        push_decimal(out, n / 10);
    }
    let d: u8 = (n % 10) as u8;
    out.push((48 + d) as char);
    assert(n < 10 ==> out@ == old(out)@ + seq![digit(n as nat)]);
}

/// The texts `parts`, with `sep` between each two of them.
pub open spec fn joined(parts: Seq<Seq<char>>, sep: Seq<char>) -> Seq<char>
    decreases parts.len(),
{
    if parts.len() == 0 {
        Seq::empty()
    } else if parts.len() == 1 {
        parts[0]
    } else {
        joined(parts.drop_last(), sep) + sep + parts.last()
    }
}

/// The strings `parts`, with `sep` between each two of them.
pub fn join(parts: &Vec<String>, sep: &str) -> (out: String)
    ensures
        out@ == joined(texts(parts@), sep@),
{
    let mut out = String::new();
    let mut i: usize = 0;
    while i < parts.len()
        invariant
            i <= parts.len(),
            out@ == joined(texts(parts@).take(i as int), sep@),
        decreases parts.len() - i,
    {
        let ghost done = texts(parts@).take(i + 1);
        assert(done.drop_last() == texts(parts@).take(i as int));
        assert(done.last() == parts@[i as int]@);
        if i > 0 {
            out.append(sep);
        }
        out.append(parts[i].as_str());
        assert(i == 0 ==> out@ == done[0]);
        i += 1;
    }
    assert(texts(parts@).take(parts@.len() as int) == texts(parts@));
    out
}

// ---------------------------------------------------------------------------
// Laws
// ---------------------------------------------------------------------------

/// Whitespace at the end of a text does not count once it is trimmed.
pub proof fn trailing_whitespace_is_trimmed(s: Seq<char>, c: char)
    requires
        whitespace(c),
    ensures
        trimmed(s.push(c)) == trimmed(s),
{
    trimmed_start_of_push(s, c);
    if trimmed_start(s).len() == 0 {
        assert(trimmed_end(Seq::<char>::empty()) == Seq::<char>::empty());
    } else {
        assert(trimmed_start(s).push(c).drop_last() == trimmed_start(s));
    }
}

proof fn trimmed_start_of_push(s: Seq<char>, c: char)
    requires
        whitespace(c),
    ensures
        trimmed_start(s).len() == 0 ==> trimmed_start(s.push(c)).len() == 0,
        trimmed_start(s).len() > 0 ==> trimmed_start(s.push(c)) == trimmed_start(s).push(c),
    decreases s.len(),
{
    if s.len() == 0 {
        assert(s.push(c).drop_first() == Seq::<char>::empty());
        assert(trimmed_start(Seq::<char>::empty()) == Seq::<char>::empty());
    } else {
        assert(s.push(c)[0] == s[0]);
        if whitespace(s[0]) {
            assert(s.push(c).drop_first() == s.drop_first().push(c));
            trimmed_start_of_push(s.drop_first(), c);
        }
    }
}

/// A trimmed text has no whitespace at its ends, so trimming it again changes
/// nothing; and it has no characters but those of the text.
pub proof fn trimming_is_done_once(s: Seq<char>)
    ensures
        trimmed(s).len() > 0 ==> !whitespace(trimmed(s)[0]) && !whitespace(trimmed(s).last()),
        trimmed(trimmed(s)) == trimmed(s),
        forall|i: int| 0 <= i < trimmed(s).len() ==> s.contains(#[trigger] trimmed(s)[i]),
{
    let t = trimmed_start(s);
    start_is_trimmed(s);
    end_is_trimmed(t);
    assert forall|i: int| 0 <= i < trimmed(s).len() implies s.contains(#[trigger] trimmed(s)[i]) by {
        assert(t[i] == trimmed(s)[i]);
        assert(s.contains(t[i]));
    }
    if trimmed(s).len() > 0 {
        assert(trimmed(s)[0] == t[0]);
    }
    assert(trimmed_start(trimmed(s)) == trimmed(s));
    assert(trimmed_end(trimmed(s)) == trimmed(s));
}

proof fn start_is_trimmed(s: Seq<char>)
    ensures
        trimmed_start(s).len() > 0 ==> !whitespace(trimmed_start(s)[0]),
        forall|i: int| 0 <= i < trimmed_start(s).len() ==> s.contains(#[trigger] trimmed_start(s)[i]),
    decreases s.len(),
{
    if s.len() > 0 && whitespace(s[0]) {
        let rest = s.drop_first();
        start_is_trimmed(rest);
        assert forall|i: int| 0 <= i < trimmed_start(s).len() implies s.contains(
            #[trigger] trimmed_start(s)[i],
        ) by {
            assert(rest.contains(trimmed_start(rest)[i]));
            let k = choose|k: int| 0 <= k < rest.len() && rest[k] == trimmed_start(rest)[i];
            assert(s[k + 1] == trimmed_start(s)[i]);
        }
    }
}

proof fn end_is_trimmed(s: Seq<char>)
    ensures
        trimmed_end(s).len() <= s.len(),
        trimmed_end(s) == s.take(trimmed_end(s).len() as int),
        trimmed_end(s).len() > 0 ==> !whitespace(trimmed_end(s).last()),
    decreases s.len(),
{
    if s.len() > 0 && whitespace(s.last()) {
        end_is_trimmed(s.drop_last());
        assert(s.drop_last().take(trimmed_end(s).len() as int) == s.take(trimmed_end(s).len() as int));
    } else {
        assert(s.take(s.len() as int) == s);
    }
}

/// The first line feed is where it is said to be.
pub proof fn newline_is_first(s: Seq<char>)
    ensures
        newline_at(s) <= s.len(),
        newline_at(s) < s.len() ==> s[newline_at(s) as int] == '\n',
        forall|i: int| 0 <= i < newline_at(s) ==> #[trigger] s[i] != '\n',
    decreases s.len(),
{
    if s.len() > 0 && s[0] != '\n' {
        let rest = s.drop_first();
        newline_is_first(rest);
        assert forall|i: int| 0 <= i < newline_at(s) implies #[trigger] s[i] != '\n' by {
            if i > 0 {
                assert(rest[i - 1] == s[i]);
            }
        }
    }
}

/// A line feed behind characters that are none is the first one.
pub proof fn newline_is_found(s: Seq<char>, at: int)
    requires
        0 <= at <= s.len(),
        forall|i: int| 0 <= i < at ==> #[trigger] s[i] != '\n',
        at < s.len() ==> s[at] == '\n',
    ensures
        newline_at(s) == at,
{
    newline_is_first(s);
    if newline_at(s) < at {
        assert(s[newline_at(s) as int] != '\n');
    } else if at < newline_at(s) {
        assert(s[at] != '\n');
    }
}

/// The first of several parts comes first, and the separator and the rest
/// follow it.
pub proof fn first_part_comes_first(first: Seq<char>, rest: Seq<Seq<char>>, sep: Seq<char>)
    ensures
        joined(seq![first] + rest, sep) == if rest.len() == 0 {
            first
        } else {
            first + sep + joined(rest, sep)
        },
    decreases rest.len(),
{
    let all = seq![first] + rest;
    if rest.len() > 0 {
        assert(all.drop_last() == seq![first] + rest.drop_last());
        assert(all.last() == rest.last());
        first_part_comes_first(first, rest.drop_last(), sep);
        if rest.len() == 1 {
            assert(joined(rest, sep) == rest.last());
        } else {
            assert(joined(rest, sep) == joined(rest.drop_last(), sep) + sep + rest.last());
        }
        assert(joined(all, sep) == first + sep + joined(rest, sep));
    }
}

/// Joining the lines of a text gives it back, but for carriage returns and for
/// a line feed at its end.
pub proof fn joined_lines_are_the_text(s: Seq<char>)
    requires
        forall|i: int| 0 <= i < s.len() ==> #[trigger] s[i] != '\r',
        s.len() > 0 ==> s.last() != '\n',
    ensures
        joined(lines(s), "\n"@) == s,
    decreases s.len(),
{
    reveal_strlit("\n");
    let at = newline_at(s) as int;
    newline_is_first(s);
    if s.len() > 0 && at < s.len() {
        let head = s.take(at);
        let tail = s.skip(at + 1);
        if at > 0 {
            assert(head.last() == s[at - 1]);
        }
        assert(without_return(head) == head);
        assert(tail.len() > 0);
        assert(tail.last() == s.last());
        assert forall|i: int| 0 <= i < tail.len() implies #[trigger] tail[i] != '\r' by {
            assert(s[at + 1 + i] != '\r');
        }
        joined_lines_are_the_text(tail);
        first_part_comes_first(head, lines(tail), "\n"@);
        assert(head + "\n"@ + tail == s);
    }
}

/// Trimming a text at its start takes off whitespace, all of it, and nothing
/// else: `lo` characters.
pub proof fn start_loses_only_whitespace(s: Seq<char>) -> (lo: int)
    ensures
        0 <= lo <= s.len(),
        trimmed_start(s) == s.skip(lo),
        forall|i: int| 0 <= i < lo ==> whitespace(#[trigger] s[i]),
        lo < s.len() ==> !whitespace(s[lo]),
    decreases s.len(),
{
    if s.len() > 0 && whitespace(s[0]) {
        let rest = s.drop_first();
        let lo = start_loses_only_whitespace(rest);
        assert(rest.skip(lo) == s.skip(lo + 1));
        assert forall|i: int| 0 <= i < lo + 1 implies whitespace(#[trigger] s[i]) by {
            if i > 0 {
                assert(whitespace(rest[i - 1]));
            }
        }
        lo + 1
    } else {
        assert(s.skip(0) == s);
        0
    }
}

/// Trimming a text at its end takes off whitespace, all of it, and nothing
/// else: what is left are the first `hi` characters.
pub proof fn end_loses_only_whitespace(s: Seq<char>) -> (hi: int)
    ensures
        0 <= hi <= s.len(),
        trimmed_end(s) == s.take(hi),
        forall|i: int| hi <= i < s.len() ==> whitespace(#[trigger] s[i]),
        hi > 0 ==> !whitespace(s[hi - 1]),
    decreases s.len(),
{
    if s.len() > 0 && whitespace(s.last()) {
        let rest = s.drop_last();
        let hi = end_loses_only_whitespace(rest);
        assert(rest.take(hi) == s.take(hi));
        assert forall|i: int| hi <= i < s.len() implies whitespace(#[trigger] s[i]) by {
            if i < s.len() - 1 {
                assert(whitespace(rest[i]));
            }
        }
        hi
    } else {
        assert(s.take(s.len() as int) == s);
        s.len() as int
    }
}

/// Trimming a text takes whitespace off its ends, all of it, and nothing else:
/// what is left is the part from `lo` up to `hi`.
pub proof fn trimming_takes_only_whitespace(s: Seq<char>) -> (bounds: (int, int))
    ensures
        ({
            let (lo, hi) = bounds;
            &&& 0 <= lo <= hi <= s.len()
            &&& trimmed(s) == s.subrange(lo, hi)
            &&& forall|i: int| 0 <= i < lo ==> whitespace(#[trigger] s[i])
            &&& forall|i: int| hi <= i < s.len() ==> whitespace(#[trigger] s[i])
            &&& lo < hi ==> !whitespace(s[lo]) && !whitespace(s[hi - 1])
        }),
{
    let lo = start_loses_only_whitespace(s);
    let rest = s.skip(lo);
    let n = end_loses_only_whitespace(rest);
    assert(rest.take(n) == s.subrange(lo, lo + n));
    assert forall|i: int| lo + n <= i < s.len() implies whitespace(#[trigger] s[i]) by {
        assert(whitespace(rest[i - lo]));
    }
    if n > 0 {
        assert(rest[n - 1] == s[lo + n - 1]);
    }
    (lo, lo + n)
}

/// The first word begins behind the leading whitespace and goes on up to the
/// next whitespace or the end: it is the part from `lo` up to `hi`.
pub proof fn first_word_is_between_whitespace(s: Seq<char>) -> (bounds: (int, int))
    ensures
        ({
            let (lo, hi) = bounds;
            &&& 0 <= lo <= hi <= s.len()
            &&& first_word(s) == s.subrange(lo, hi)
            &&& forall|i: int| 0 <= i < lo ==> whitespace(#[trigger] s[i])
            &&& forall|i: int| lo <= i < hi ==> !whitespace(#[trigger] s[i])
            &&& hi < s.len() ==> lo < hi && whitespace(s[hi])
        }),
{
    let lo = start_loses_only_whitespace(s);
    let rest = s.skip(lo);
    word_ends_at_whitespace(rest);
    let n = word_length(rest) as int;
    assert(rest.take(n) == s.subrange(lo, lo + n));
    assert forall|i: int| lo <= i < lo + n implies !whitespace(#[trigger] s[i]) by {
        assert(!whitespace(rest[i - lo]));
    }
    if lo + n < s.len() {
        assert(rest[n] == s[lo + n]);
        assert(rest[0] == s[lo]);
    }
    (lo, lo + n)
}

proof fn word_ends_at_whitespace(s: Seq<char>)
    ensures
        word_length(s) <= s.len(),
        forall|i: int| 0 <= i < word_length(s) ==> !whitespace(#[trigger] s[i]),
        word_length(s) < s.len() ==> whitespace(s[word_length(s) as int]),
    decreases s.len(),
{
    if s.len() > 0 && !whitespace(s[0]) {
        let rest = s.drop_first();
        word_ends_at_whitespace(rest);
        assert forall|i: int| 0 <= i < word_length(s) implies !whitespace(#[trigger] s[i]) by {
            if i > 0 {
                assert(!whitespace(rest[i - 1]));
            }
        }
    }
}

/// A text without a line feed is one line, or none where it is empty.
pub proof fn text_without_line_feed_is_one_line(s: Seq<char>)
    requires
        forall|i: int| 0 <= i < s.len() ==> #[trigger] s[i] != '\n',
    ensures
        lines(s) == if s.len() == 0 {
            Seq::<Seq<char>>::empty()
        } else {
            seq![s]
        },
{
    newline_is_found(s, s.len() as int);
}

/// A line feed ends a line, with or without one carriage return before it, and
/// what follows it are the other lines.
pub proof fn line_feed_ends_a_line(line: Seq<char>, rest: Seq<char>)
    requires
        forall|i: int| 0 <= i < line.len() ==> #[trigger] line[i] != '\n',
    ensures
        lines(line + seq!['\r', '\n'] + rest) == seq![line] + lines(rest),
        !(line.len() > 0 && line.last() == '\r') ==> lines(line + seq!['\n'] + rest) == seq![line]
            + lines(rest),
{
    let n = line.len() as int;
    let with_return = line + seq!['\r', '\n'] + rest;
    newline_is_found(with_return, n + 1);
    assert(with_return.take(n + 1) == line.push('\r'));
    assert(line.push('\r').drop_last() == line);
    assert(with_return.skip(n + 2) == rest);
    let without = line + seq!['\n'] + rest;
    newline_is_found(without, n);
    assert(without.take(n) == line);
    assert(without.skip(n + 1) == rest);
}

/// Lower case changes the 26 capital letters of ASCII into the small ones, and
/// no other character.
pub proof fn only_capital_letters_are_lowered(s: Seq<char>, i: int)
    requires
        0 <= i < s.len(),
    ensures
        lowered(s).len() == s.len(),
        65 <= s[i] as int <= 90 ==> lowered(s)[i] as int == s[i] as int + 32,
        !(65 <= s[i] as int <= 90) ==> lowered(s)[i] == s[i],
{
}

/// A number in decimal ends with its last digit, and before it stands the
/// number without that digit.
pub proof fn digits_follow_each_other(n: nat, d: nat)
    requires
        d < 10,
    ensures
        decimal(d) == seq![(48 + d) as char],
        n > 0 ==> decimal(10 * n + d) == decimal(n).push((48 + d) as char),
{
    if n > 0 {
        assert((10 * n + d) / 10 == n);
        assert((10 * n + d) % 10 == d);
    }
}

/// Nothing joined is nothing.
pub proof fn no_parts_make_an_empty_text(sep: Seq<char>)
    ensures
        joined(Seq::<Seq<char>>::empty(), sep) == Seq::<char>::empty(),
{
}

/// The contents of a list are those of its entries, one for one.
pub proof fn contents_are_those_of_the_entries(list: Seq<String>, parts: Seq<&[char]>, i: int)
    ensures
        texts(list).len() == list.len(),
        0 <= i < list.len() ==> texts(list)[i] == list[i]@,
        slices(parts).len() == parts.len(),
        0 <= i < parts.len() ==> slices(parts)[i] == parts[i]@,
{
}

} // verus!
