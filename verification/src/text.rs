//! Text: characters, trimming and searching.

use vstd::prelude::*;
use vstd::string::*;

verus! {

/// `String::push` puts one character at the end.
pub assume_specification[ String::push ](s: &mut String, c: char)
    ensures
        final(s)@ == old(s)@.push(c),
;

/// What an optional text holds.
pub open spec fn optional(o: Option<String>) -> Option<Seq<char>> {
    match o {
        Some(s) => Some(s@),
        None => None,
    }
}

/// What a list of texts holds.
pub open spec fn texts(v: Seq<String>) -> Seq<Seq<char>> {
    v.map_values(|s: String| s@)
}

/// The characters of a text, one by one.
pub fn chars_of(s: &str) -> (r: Vec<char>)
    ensures
        r@ == s@,
{
    let mut r: Vec<char> = Vec::new();
    for c in it: s.chars()
        invariant
            r@ == it.seq().take(it.index() as int),
            it.seq() == s@,
    {
        r.push(c);
    }
    r
}

/// The text made of the characters from `from` up to `to`.
pub fn text_of(chars: &Vec<char>, from: usize, to: usize) -> (r: String)
    requires
        from <= to <= chars@.len(),
    ensures
        r@ == chars@.subrange(from as int, to as int),
{
    let mut r = String::new();
    let mut i = from;
    while i < to
        invariant
            from <= i <= to <= chars@.len(),
            r@ == chars@.subrange(from as int, i as int),
        decreases to - i,
    {
        r.push(chars[i]);
        i = i + 1;
        assert(chars@.subrange(from as int, i as int) =~= chars@.subrange(from as int, i - 1).push(
            chars@[i - 1],
        ));
    }
    r
}

/// Whether two texts are the same.
pub fn same_text(a: &str, b: &str) -> (r: bool)
    ensures
        r == (a@ == b@),
{
    a.to_owned() == b.to_owned()
}

/// Whether a text holds no character.
pub fn is_empty_text(s: &str) -> (r: bool)
    ensures
        r == (s@.len() == 0),
{
    chars_of(s).len() == 0
}

/// The characters that count as white space.
pub open spec fn is_white_spec(c: char) -> bool {
    ||| '\u{9}' <= c <= '\u{d}'
    ||| c == ' '
    ||| c == '\u{85}'
    ||| c == '\u{a0}'
    ||| c == '\u{1680}'
    ||| '\u{2000}' <= c <= '\u{200a}'
    ||| c == '\u{2028}'
    ||| c == '\u{2029}'
    ||| c == '\u{202f}'
    ||| c == '\u{205f}'
    ||| c == '\u{3000}'
}

/// Whether a character is white space.
#[verifier::when_used_as_spec(is_white_spec)]
pub fn is_white(c: char) -> (r: bool)
    ensures
        r == is_white_spec(c),
{
    ('\u{9}' <= c && c <= '\u{d}') || c == ' ' || c == '\u{85}' || c == '\u{a0}' || c == '\u{1680}' || (
    '\u{2000}' <= c && c <= '\u{200a}') || c == '\u{2028}' || c == '\u{2029}' || c == '\u{202f}' || c
        == '\u{205f}' || c == '\u{3000}'
}

/// The text without the white space that it begins with.
pub open spec fn without_leading(s: Seq<char>) -> Seq<char>
    decreases s.len(),
{
    if s.len() > 0 && is_white(s[0]) {
        without_leading(s.drop_first())
    } else {
        s
    }
}

/// The text without the white space that it ends with.
pub open spec fn without_trailing(s: Seq<char>) -> Seq<char>
    decreases s.len(),
{
    if s.len() > 0 && is_white(s.last()) {
        without_trailing(s.drop_last())
    } else {
        s
    }
}

/// The text without white space at either end.
pub open spec fn trimmed(s: Seq<char>) -> Seq<char> {
    without_trailing(without_leading(s))
}

/// A text without white space at either end.
pub fn trim(s: &str) -> (r: String)
    ensures
        r@ == trimmed(s@),
{
    let chars = chars_of(s);
    let mut from: usize = 0;
    let mut to: usize = chars.len();
    assert(s@.skip(0) =~= s@);
    while from < to && is_white(chars[from])
        invariant
            from <= to == chars@.len(),
            chars@ == s@,
            without_leading(s@) == without_leading(s@.skip(from as int)),
        decreases to - from,
    {
        assert(s@.skip(from as int).drop_first() =~= s@.skip(from + 1));
        from = from + 1;
    }
    assert(without_leading(s@) == s@.skip(from as int));
    assert(s@.skip(from as int) =~= s@.subrange(from as int, to as int));
    while from < to && is_white(chars[to - 1])
        invariant
            from <= to <= chars@.len(),
            chars@ == s@,
            trimmed(s@) == without_trailing(s@.subrange(from as int, to as int)),
        decreases to - from,
    {
        assert(s@.subrange(from as int, to as int).drop_last() =~= s@.subrange(from as int, to - 1));
        to = to - 1;
    }
    text_of(&chars, from, to)
}

/// An ASCII capital as a small letter, any other character as it is.
pub open spec fn ascii_lower_spec(c: char) -> char {
    if 'A' <= c <= 'Z' {
        (c as u8 + 32) as char
    } else {
        c
    }
}

#[verifier::when_used_as_spec(ascii_lower_spec)]
pub fn ascii_lower(c: char) -> (r: char)
    ensures
        r == ascii_lower_spec(c),
{
    if 'A' <= c && c <= 'Z' {
        (c as u8 + 32) as char
    } else {
        c
    }
}

/// Equal but for the case of ASCII letters.
pub open spec fn same_ignoring_case(a: Seq<char>, b: Seq<char>) -> bool {
    a.len() == b.len() && forall|i: int|
        0 <= i < a.len() ==> ascii_lower(#[trigger] a[i]) == ascii_lower(b[i])
}

/// Whether two texts are equal but for the case of ASCII letters.
pub fn eq_ignore_ascii_case(a: &str, b: &str) -> (r: bool)
    ensures
        r == same_ignoring_case(a@, b@),
{
    let x = chars_of(a);
    let y = chars_of(b);
    if x.len() != y.len() {
        return false;
    }
    let mut i: usize = 0;
    while i < x.len()
        invariant
            x@.len() == y@.len(),
            i <= x@.len(),
            x@ == a@,
            y@ == b@,
            forall|j: int| 0 <= j < i ==> ascii_lower(#[trigger] a@[j]) == ascii_lower(b@[j]),
        decreases x@.len() - i,
    {
        if ascii_lower(x[i]) != ascii_lower(y[i]) {
            assert(ascii_lower(a@[i as int]) != ascii_lower(b@[i as int]));
            return false;
        }
        i = i + 1;
    }
    true
}

/// Whether a text begins with a character.
pub fn starts_with_char(s: &str, c: char) -> (r: bool)
    ensures
        r == (s@.len() > 0 && s@[0] == c),
{
    let chars = chars_of(s);
    chars.len() > 0 && chars[0] == c
}

/// The order of texts: by the first character in which they differ, a text before its
/// continuations.
pub open spec fn before(a: Seq<char>, b: Seq<char>) -> bool
    decreases a.len(),
{
    if b.len() == 0 {
        false
    } else if a.len() == 0 {
        true
    } else if a[0] != b[0] {
        a[0] < b[0]
    } else {
        before(a.drop_first(), b.drop_first())
    }
}

/// The order of texts is strict, transitive and total.
pub proof fn lemma_before(a: Seq<char>, b: Seq<char>, c: Seq<char>)
    ensures
        !before(a, a),
        before(a, b) && before(b, c) ==> before(a, c),
        before(a, b) || before(b, a) || a == b,
        !(before(a, b) && before(b, a)),
    decreases a.len() + b.len() + c.len(),
{
    if a.len() > 0 {
        lemma_before(a.drop_first(), seq![], seq![]);
    }
    if a.len() > 0 && b.len() > 0 {
        let c1 = if c.len() > 0 {
            c.drop_first()
        } else {
            c
        };
        lemma_before(a.drop_first(), b.drop_first(), c1);
        if a[0] == b[0] && a.drop_first() == b.drop_first() {
            assert(a =~= seq![a[0]] + a.drop_first());
            assert(b =~= seq![b[0]] + b.drop_first());
        }
    } else if a.len() == 0 && b.len() == 0 {
        assert(a =~= b);
    }
}

/// Whether one text comes before another.
pub fn comes_before(a: &str, b: &str) -> (r: bool)
    ensures
        r == before(a@, b@),
{
    let x = chars_of(a);
    let y = chars_of(b);
    let mut i: usize = 0;
    assert(a@.skip(0) =~= a@);
    assert(b@.skip(0) =~= b@);
    while i < x.len() && i < y.len() && x[i] == y[i]
        invariant
            i <= x@.len(),
            i <= y@.len(),
            x@ == a@,
            y@ == b@,
            before(a@, b@) == before(a@.skip(i as int), b@.skip(i as int)),
        decreases x@.len() - i,
    {
        assert(a@.skip(i as int).drop_first() =~= a@.skip(i + 1));
        assert(b@.skip(i as int).drop_first() =~= b@.skip(i + 1));
        i = i + 1;
    }
    if i == y.len() {
        false
    } else if i == x.len() {
        true
    } else {
        x[i] < y[i]
    }
}

/// Whether `p` stands in `s` at `i`.
pub open spec fn occurs_at(s: Seq<char>, p: Seq<char>, i: int) -> bool {
    0 <= i <= s.len() - p.len() && s.subrange(i, i + p.len()) == p
}

/// The first place from `i` on where `p` stands in `s`.
pub open spec fn found_from(s: Seq<char>, p: Seq<char>, i: int) -> Option<int>
    decreases s.len() - p.len() - i + 1,
{
    if i > s.len() - p.len() {
        None
    } else if occurs_at(s, p, i) {
        Some(i)
    } else {
        found_from(s, p, i + 1)
    }
}

/// The first place where `p` stands in `s`.
pub open spec fn found(s: Seq<char>, p: Seq<char>) -> Option<int> {
    found_from(s, p, 0)
}

fn stands_at(s: &Vec<char>, p: &Vec<char>, i: usize) -> (r: bool)
    requires
        i + p@.len() <= s@.len(),
    ensures
        r == occurs_at(s@, p@, i as int),
{
    let n = s.len();
    let mut k: usize = 0;
    while k < p.len()
        invariant
            k <= p@.len(),
            n == s@.len(),
            i + p@.len() <= s@.len(),
            forall|j: int| 0 <= j < k ==> s@[i + j] == p@[j],
        decreases p@.len() - k,
    {
        if s[i + k] != p[k] {
            assert(s@.subrange(i as int, i + p@.len())[k as int] != p@[k as int]);
            return false;
        }
        k = k + 1;
    }
    assert(s@.subrange(i as int, i + p@.len()) =~= p@);
    true
}

/// The first place where a pattern stands in a run of characters.
pub fn find_text(s: &Vec<char>, pattern: &str) -> (r: Option<usize>)
    ensures
        match r {
            Some(i) => found(s@, pattern@) == Some(i as int) && i + pattern@.len() <= s@.len(),
            None => found(s@, pattern@) is None,
        },
{
    let p = chars_of(pattern);
    if p.len() > s.len() {
        return None;
    }
    let last = s.len() - p.len();
    let mut i: usize = 0;
    loop
        invariant
            last + p@.len() == s@.len(),
            i <= last,
            p@ == pattern@,
            found(s@, pattern@) == found_from(s@, pattern@, i as int),
        decreases last - i,
    {
        if stands_at(s, &p, i) {
            return Some(i);
        }
        if i == last {
            assert(found_from(s@, pattern@, i + 1) is None);
            return None;
        }
        i = i + 1;
    }
}

/// The last place where a character stands.
pub open spec fn last_place(s: Seq<char>, c: char) -> Option<int>
    decreases s.len(),
{
    if s.len() == 0 {
        None
    } else if s.last() == c {
        Some(s.len() - 1)
    } else {
        last_place(s.drop_last(), c)
    }
}

/// The last place where a character stands in a run of characters.
pub fn find_last(s: &Vec<char>, c: char) -> (r: Option<usize>)
    ensures
        match r {
            Some(i) => last_place(s@, c) == Some(i as int) && i < s@.len(),
            None => last_place(s@, c) is None,
        },
{
    let mut n = s.len();
    assert(s@.take(n as int) =~= s@);
    while n > 0
        invariant
            n <= s@.len(),
            last_place(s@, c) == last_place(s@.take(n as int), c),
        decreases n,
    {
        if s[n - 1] == c {
            return Some(n - 1);
        }
        assert(s@.take(n as int).drop_last() =~= s@.take(n - 1));
        n = n - 1;
    }
    None
}

/// The length of the first line.
pub open spec fn line_length(s: Seq<char>) -> nat
    decreases s.len(),
{
    if s.len() == 0 || s[0] == '\n' {
        0
    } else {
        1 + line_length(s.drop_first())
    }
}

/// The first line that is not blank, without white space at either end.
pub open spec fn headline(s: Seq<char>) -> Option<Seq<char>>
    decreases s.len(),
{
    let n = line_length(s) as int;
    let line = trimmed(s.take(n));
    if line.len() > 0 {
        Some(line)
    } else if n >= s.len() {
        None
    } else {
        headline(s.skip(n + 1))
    }
}

pub proof fn lemma_line_length(s: Seq<char>, n: int)
    requires
        0 <= n <= s.len(),
        forall|i: int| 0 <= i < n ==> s[i] != '\n',
        n < s.len() ==> s[n] == '\n',
    ensures
        line_length(s) == n,
    decreases n,
{
    if n > 0 {
        lemma_line_length(s.drop_first(), n - 1);
    }
}

/// The first line that is not blank, without white space at either end.
pub fn find_headline(s: &str) -> (r: Option<String>)
    ensures
        optional(r) == headline(s@),
{
    let chars = chars_of(s);
    let mut from: usize = 0;
    assert(s@.skip(0) =~= s@);
    loop
        invariant
            from <= chars@.len(),
            chars@ == s@,
            headline(s@) == headline(s@.skip(from as int)),
        decreases chars@.len() - from,
    {
        let mut to = from;
        while to < chars.len() && chars[to] != '\n'
            invariant
                from <= to <= chars@.len(),
                chars@ == s@,
                forall|i: int| from <= i < to ==> chars@[i] != '\n',
            decreases chars@.len() - to,
        {
            to = to + 1;
        }
        let ghost rest = s@.skip(from as int);
        proof {
            lemma_line_length(rest, to - from);
            assert(rest.take(to - from) =~= s@.subrange(from as int, to as int));
        }
        let line = trim(&text_of(&chars, from, to));
        if !is_empty_text(&line) {
            return Some(line);
        }
        if to >= chars.len() {
            return None;
        }
        assert(rest.skip(to - from + 1) =~= s@.skip(to + 1));
        from = to + 1;
    }
}

/// A trimmed text neither begins nor ends with white space.
pub proof fn law_trimmed_ends(s: Seq<char>)
    ensures
        trimmed(s).len() > 0 ==> !is_white(trimmed(s)[0]) && !is_white(trimmed(s).last()),
        trimmed(s).len() <= s.len(),
{
    lemma_without_leading(s);
    lemma_without_trailing(without_leading(s));
}

/// Trimming a trimmed text changes nothing.
pub proof fn law_trimming_twice(s: Seq<char>)
    ensures
        trimmed(trimmed(s)) == trimmed(s),
{
    law_trimmed_ends(s);
}

proof fn lemma_without_leading(s: Seq<char>)
    ensures
        without_leading(s).len() > 0 ==> !is_white(without_leading(s)[0]),
        without_leading(s).len() <= s.len(),
    decreases s.len(),
{
    if s.len() > 0 && is_white(s[0]) {
        lemma_without_leading(s.drop_first());
    }
}

proof fn lemma_without_trailing(s: Seq<char>)
    ensures
        without_trailing(s).len() > 0 ==> !is_white(without_trailing(s).last())
            && without_trailing(s)[0] == s[0],
        without_trailing(s).len() <= s.len(),
    decreases s.len(),
{
    if s.len() > 0 && is_white(s.last()) {
        lemma_without_trailing(s.drop_last());
    }
}

/// `c` stands in `s` without a break.
pub open spec fn is_part(c: Seq<char>, s: Seq<char>) -> bool {
    exists|i: int, j: int| 0 <= i <= j <= s.len() && c == #[trigger] s.subrange(i, j)
}

/// A part of a part is a part.
pub proof fn lemma_part_of_part(a: Seq<char>, b: Seq<char>, c: Seq<char>)
    requires
        is_part(a, b),
        is_part(b, c),
    ensures
        is_part(a, c),
{
    let (i, j) = choose|i: int, j: int| 0 <= i <= j <= b.len() && a == #[trigger] b.subrange(i, j);
    let (k, l) = choose|k: int, l: int| 0 <= k <= l <= c.len() && b == #[trigger] c.subrange(k, l);
    assert(a =~= c.subrange(k + i, k + j));
}

proof fn lemma_leading_part(s: Seq<char>)
    ensures
        exists|i: int| 0 <= i <= s.len() && without_leading(s) == #[trigger] s.subrange(i, s.len() as int),
    decreases s.len(),
{
    if s.len() > 0 && is_white(s[0]) {
        let t = s.drop_first();
        lemma_leading_part(t);
        let i = choose|i: int|
            0 <= i <= t.len() && without_leading(t) == #[trigger] t.subrange(i, t.len() as int);
        assert(without_leading(s) =~= s.subrange(i + 1, s.len() as int));
    } else {
        assert(s =~= s.subrange(0, s.len() as int));
    }
}

proof fn lemma_trailing_part(s: Seq<char>)
    ensures
        exists|j: int| 0 <= j <= s.len() && without_trailing(s) == #[trigger] s.subrange(0, j),
    decreases s.len(),
{
    if s.len() > 0 && is_white(s.last()) {
        let t = s.drop_last();
        lemma_trailing_part(t);
        let j = choose|j: int| 0 <= j <= t.len() && without_trailing(t) == #[trigger] t.subrange(0, j);
        assert(without_trailing(s) =~= s.subrange(0, j));
    } else {
        assert(s =~= s.subrange(0, s.len() as int));
    }
}

/// Trimming leaves a part of the text.
pub proof fn law_trimmed_is_part(s: Seq<char>)
    ensures
        is_part(trimmed(s), s),
{
    lemma_leading_part(s);
    let t = without_leading(s);
    lemma_trailing_part(t);
    assert(is_part(t, s));
    assert(is_part(without_trailing(t), t));
    lemma_part_of_part(without_trailing(t), t, s);
}

proof fn lemma_leading_white(s: Seq<char>)
    ensures
        exists|a: int|
            0 <= a <= s.len() && without_leading(s) == #[trigger] s.skip(a) && forall|i: int|
                0 <= i < a ==> is_white(#[trigger] s[i]),
    decreases s.len(),
{
    if s.len() > 0 && is_white(s[0]) {
        let t = s.drop_first();
        lemma_leading_white(t);
        let a = choose|a: int|
            0 <= a <= t.len() && without_leading(t) == #[trigger] t.skip(a) && forall|i: int|
                0 <= i < a ==> is_white(#[trigger] t[i]);
        assert(s.skip(a + 1) =~= t.skip(a));
        assert forall|i: int| 0 <= i < a + 1 implies is_white(#[trigger] s[i]) by {
            if i > 0 {
                assert(t[i - 1] == s[i]);
            }
        }
    } else {
        assert(s.skip(0) =~= s);
    }
}

proof fn lemma_trailing_white(s: Seq<char>)
    ensures
        exists|b: int|
            0 <= b <= s.len() && without_trailing(s) == #[trigger] s.take(b) && forall|i: int|
                b <= i < s.len() ==> is_white(#[trigger] s[i]),
    decreases s.len(),
{
    if s.len() > 0 && is_white(s.last()) {
        let t = s.drop_last();
        lemma_trailing_white(t);
        let b = choose|b: int|
            0 <= b <= t.len() && without_trailing(t) == #[trigger] t.take(b) && forall|i: int|
                b <= i < t.len() ==> is_white(#[trigger] t[i]);
        assert(s.take(b) =~= t.take(b));
        assert forall|i: int| b <= i < s.len() implies is_white(#[trigger] s[i]) by {
            if i < t.len() {
                assert(t[i] == s[i]);
            }
        }
    } else {
        assert(s.take(s.len() as int) =~= s);
    }
}

/// Trimming takes off white space and nothing else: a text is white space, its trimmed part and white
/// space, and the trimmed part neither begins nor ends with any.
pub proof fn law_trimming_takes_off_white_space(s: Seq<char>)
    ensures
        exists|a: int, b: int|
            0 <= a <= b <= s.len() && trimmed(s) == #[trigger] s.subrange(a, b) && (forall|i: int|
                0 <= i < a || b <= i < s.len() ==> is_white(#[trigger] s[i])),
        trimmed(s).len() > 0 ==> !is_white(trimmed(s)[0]) && !is_white(trimmed(s).last()),
{
    law_trimmed_ends(s);
    lemma_leading_white(s);
    let a = choose|a: int|
        0 <= a <= s.len() && without_leading(s) == #[trigger] s.skip(a) && forall|i: int|
            0 <= i < a ==> is_white(#[trigger] s[i]);
    let t = s.skip(a);
    lemma_trailing_white(t);
    let b = choose|b: int|
        0 <= b <= t.len() && without_trailing(t) == #[trigger] t.take(b) && forall|i: int|
            b <= i < t.len() ==> is_white(#[trigger] t[i]);
    assert(s.subrange(a, a + b) =~= t.take(b));
    assert forall|i: int| 0 <= i < a || a + b <= i < s.len() implies is_white(#[trigger] s[i]) by {
        if i >= a {
            assert(t[i - a] == s[i]);
        }
    }
}

/// White space is the tab, the breaks of lines and pages, the blank, and the other spaces of Unicode; no
/// letter, digit, comma, brace or quote is.
pub proof fn law_white_space(c: char)
    ensures
        is_white(' ') && is_white('\n') && is_white('\t') && is_white('\r'),
        '!' <= c <= '~' ==> !is_white(c),
{
}

/// A pattern is found at the first place where all of its characters stand, and nowhere exactly where
/// it stands nowhere.
pub proof fn law_found_first(s: Seq<char>, p: Seq<char>)
    ensures
        match found(s, p) {
            Some(k) => 0 <= k <= s.len() - p.len() && s.subrange(k, k + p.len()) == p && forall|
                j: int,
            |
                0 <= j < k ==> #[trigger] s.subrange(j, j + p.len()) != p,
            None => forall|j: int|
                0 <= j <= s.len() - p.len() ==> #[trigger] s.subrange(j, j + p.len()) != p,
        },
{
    lemma_found_from(s, p, 0);
}

proof fn lemma_found_from(s: Seq<char>, p: Seq<char>, i: int)
    requires
        0 <= i,
    ensures
        match found_from(s, p, i) {
            Some(k) => i <= k <= s.len() - p.len() && s.subrange(k, k + p.len()) == p && forall|
                j: int,
            |
                i <= j < k ==> #[trigger] s.subrange(j, j + p.len()) != p,
            None => forall|j: int|
                i <= j <= s.len() - p.len() ==> #[trigger] s.subrange(j, j + p.len()) != p,
        },
    decreases s.len() - p.len() - i + 1,
{
    if i <= s.len() - p.len() && !occurs_at(s, p, i) {
        lemma_found_from(s, p, i + 1);
    }
}

/// The last place of a character holds it, and no later place does; there is none exactly where the
/// text does not hold it.
pub proof fn law_last_place(s: Seq<char>, c: char)
    ensures
        match last_place(s, c) {
            Some(k) => 0 <= k < s.len() && s[k] == c && forall|j: int|
                k < j < s.len() ==> #[trigger] s[j] != c,
            None => !s.contains(c),
        },
    decreases s.len(),
{
    if s.len() > 0 && s.last() != c {
        let t = s.drop_last();
        law_last_place(t, c);
        match last_place(t, c) {
            Some(k) => {
                assert forall|j: int| k < j < s.len() implies #[trigger] s[j] != c by {
                    if j < t.len() {
                        assert(t[j] == s[j]);
                    }
                }
            },
            None => {
                if s.contains(c) {
                    let i = choose|i: int| 0 <= i < s.len() && s[i] == c;
                    assert(t[i] == c);
                }
            },
        }
    }
}

/// The headline of a text is its first line that is not blank, trimmed: everything before that line is
/// white space; there is none exactly where the whole text is white space.
pub proof fn law_headline_is_the_first_line(s: Seq<char>)
    ensures
        match headline(s) {
            Some(h) => h.len() > 0 && exists|a: int, b: int|
                0 <= a <= b <= s.len() && h == trimmed(#[trigger] s.subrange(a, b)) && (forall|i: int|
                    0 <= i < a ==> is_white(#[trigger] s[i])) && (forall|i: int|
                    a <= i < b ==> #[trigger] s[i] != '\n') && (b == s.len() || s[b] == '\n') && (a
                    == 0 || s[a - 1] == '\n'),
            None => forall|i: int| 0 <= i < s.len() ==> is_white(#[trigger] s[i]),
        },
    decreases s.len(),
{
    let n = line_length(s) as int;
    lemma_line_end(s);
    let line = s.take(n);
    assert(line =~= s.subrange(0, n));
    if trimmed(line).len() == 0 {
        law_trimming_takes_off_white_space(line);
        assert forall|i: int| 0 <= i < n implies is_white(#[trigger] s[i]) by {
            assert(line[i] == s[i]);
        }
        if n < s.len() {
            let t = s.skip(n + 1);
            law_headline_is_the_first_line(t);
            assert(is_white(s[n]));
            match headline(t) {
                Some(h) => {
                    let (a, b) = choose|a: int, b: int|
                        0 <= a <= b <= t.len() && h == trimmed(#[trigger] t.subrange(a, b)) && (
                        forall|i: int| 0 <= i < a ==> is_white(#[trigger] t[i])) && (forall|i: int|
                            a <= i < b ==> #[trigger] t[i] != '\n') && (b == t.len() || t[b] == '\n')
                            && (a == 0 || t[a - 1] == '\n');
                    assert(s.subrange(n + 1 + a, n + 1 + b) =~= t.subrange(a, b));
                    assert forall|i: int| 0 <= i < n + 1 + a implies is_white(#[trigger] s[i]) by {
                        if i > n {
                            assert(t[i - n - 1] == s[i]);
                        }
                    }
                    assert forall|i: int| n + 1 + a <= i < n + 1 + b implies #[trigger] s[i]
                        != '\n' by {
                        assert(t[i - n - 1] == s[i]);
                    }
                    assert(a > 0 ==> t[a - 1] == s[n + a]);
                },
                None => {
                    assert forall|i: int| 0 <= i < s.len() implies is_white(#[trigger] s[i]) by {
                        if i > n {
                            assert(t[i - n - 1] == s[i]);
                        }
                    }
                },
            }
        }
    }
}

proof fn lemma_line_end(s: Seq<char>)
    ensures
        line_length(s) <= s.len(),
        forall|i: int| 0 <= i < line_length(s) ==> #[trigger] s[i] != '\n',
        line_length(s) < s.len() ==> s[line_length(s) as int] == '\n',
    decreases s.len(),
{
    if s.len() > 0 && s[0] != '\n' {
        let t = s.drop_first();
        lemma_line_end(t);
        assert forall|i: int| 0 <= i < line_length(s) implies #[trigger] s[i] != '\n' by {
            if i > 0 {
                assert(t[i - 1] == s[i]);
            }
        }
    }
}

/// One text comes before another exactly where they agree up to some place at which the first ends and
/// the other goes on, or at which the first has the lesser character.
pub proof fn law_order_of_texts(a: Seq<char>, b: Seq<char>)
    ensures
        before(a, b) <==> exists|k: int|
            0 <= k <= a.len() && k < b.len() && #[trigger] a.take(k) == b.take(k) && (k == a.len()
                || a[k] < b[k]),
    decreases a.len(),
{
    if a.len() > 0 && b.len() > 0 && a[0] == b[0] {
        let (c, d) = (a.drop_first(), b.drop_first());
        law_order_of_texts(c, d);
        if before(a, b) {
            let k = choose|k: int|
                0 <= k <= c.len() && k < d.len() && #[trigger] c.take(k) == d.take(k) && (k
                    == c.len() || c[k] < d[k]);
            assert forall|i: int| 0 <= i < k + 1 implies a[i] == b[i] by {
                if i > 0 {
                    assert(c.take(k)[i - 1] == d.take(k)[i - 1]);
                }
            }
            assert(a.take(k + 1) =~= b.take(k + 1));
        }
        if exists|k: int|
            0 <= k <= a.len() && k < b.len() && #[trigger] a.take(k) == b.take(k) && (k == a.len()
                || a[k] < b[k]) {
            let k = choose|k: int|
                0 <= k <= a.len() && k < b.len() && #[trigger] a.take(k) == b.take(k) && (k
                    == a.len() || a[k] < b[k]);
            assert(k > 0);
            assert forall|i: int| 0 <= i < k - 1 implies c[i] == d[i] by {
                assert(a.take(k)[i + 1] == b.take(k)[i + 1]);
            }
            assert(c.take(k - 1) =~= d.take(k - 1));
        }
    } else {
        if before(a, b) {
            assert(a.take(0) =~= b.take(0));
        }
        if exists|k: int|
            0 <= k <= a.len() && k < b.len() && #[trigger] a.take(k) == b.take(k) && (k == a.len()
                || a[k] < b[k]) {
            let k = choose|k: int|
                0 <= k <= a.len() && k < b.len() && #[trigger] a.take(k) == b.take(k) && (k
                    == a.len() || a[k] < b[k]);
            if k > 0 {
                assert(a.take(k)[0] == b.take(k)[0]);
            }
        }
    }
}

/// Texts are equal but for the case of ASCII letters exactly where they are as long and at each place
/// hold the same character, or a capital and its small letter.
pub proof fn law_equal_but_for_case(a: Seq<char>, b: Seq<char>)
    ensures
        same_ignoring_case(a, b) <==> a.len() == b.len() && forall|i: int|
            0 <= i < a.len() ==> {
                let (x, y) = ((#[trigger] a[i]) as int, b[i] as int);
                ||| x == y
                ||| 65 <= x <= 90 && y == x + 32
                ||| 65 <= y <= 90 && x == y + 32
            },
{
    if same_ignoring_case(a, b) {
        assert forall|i: int| 0 <= i < a.len() implies {
            let (x, y) = ((#[trigger] a[i]) as int, b[i] as int);
            ||| x == y
            ||| 65 <= x <= 90 && y == x + 32
            ||| 65 <= y <= 90 && x == y + 32
        } by {
            assert(ascii_lower(a[i]) == ascii_lower(b[i]));
            lemma_lower(a[i]);
            lemma_lower(b[i]);
        }
    }
    if a.len() == b.len() && forall|i: int|
        0 <= i < a.len() ==> {
            let (x, y) = ((#[trigger] a[i]) as int, b[i] as int);
            ||| x == y
            ||| 65 <= x <= 90 && y == x + 32
            ||| 65 <= y <= 90 && x == y + 32
        } {
        assert forall|i: int| 0 <= i < a.len() implies ascii_lower(#[trigger] a[i]) == ascii_lower(
            b[i],
        ) by {
            lemma_lower(a[i]);
            lemma_lower(b[i]);
        }
    }
}

proof fn lemma_lower(c: char)
    ensures
        ascii_lower(c) as int == if 65 <= c as int <= 90 {
            c as int + 32
        } else {
            c as int
        },
{
}

/// What texts hold is what each of them holds, in order.
pub proof fn law_texts_hold_their_characters(v: Seq<String>, i: int)
    ensures
        texts(v).len() == v.len(),
        0 <= i < v.len() ==> texts(v)[i] == v[i]@,
{
}

} // verus!
