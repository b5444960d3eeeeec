//! Text as sequences of characters: splitting, trimming, numbers in decimal,
//! and placeholder substitution.

use vstd::prelude::*;

verus! {

/// The position of the first `c` in `s`, or the length of `s` where there is none.
pub open spec fn position(s: Seq<char>, c: char) -> int
    decreases s.len(),
{
    if s.len() == 0 {
        0
    } else if s[0] == c {
        0
    } else {
        1 + position(s.drop_first(), c)
    }
}

/// The parts of `s` between the occurrences of `c`; one part more than there are
/// occurrences.
pub open spec fn split(s: Seq<char>, c: char) -> Seq<Seq<char>>
    decreases s.len(),
{
    let i = position(s, c);
    if 0 <= i < s.len() {
        seq![s.take(i)] + split(s.skip(i + 1), c)
    } else {
        seq![s]
    }
}

/// The two sides of the first `c` in `s`.
pub open spec fn split_once(s: Seq<char>, c: char) -> Option<(Seq<char>, Seq<char>)> {
    let i = position(s, c);
    if 0 <= i < s.len() {
        Some((s.take(i), s.skip(i + 1)))
    } else {
        None
    }
}

/// The characters with the Unicode property `White_Space`.
pub open spec fn is_white_space(c: char) -> bool {
    let u = c as u32;
    ||| 0x9 <= u <= 0xd
    ||| u == 0x20
    ||| u == 0x85
    ||| u == 0xa0
    ||| u == 0x1680
    ||| 0x2000 <= u <= 0x200a
    ||| u == 0x2028
    ||| u == 0x2029
    ||| u == 0x202f
    ||| u == 0x205f
    ||| u == 0x3000
}

/// `s` without the white space that it starts with.
pub open spec fn trim_start(s: Seq<char>) -> Seq<char>
    decreases s.len(),
{
    if s.len() > 0 && is_white_space(s[0]) {
        trim_start(s.drop_first())
    } else {
        s
    }
}

/// `s` without the white space that it ends with.
pub open spec fn trim_end(s: Seq<char>) -> Seq<char>
    decreases s.len(),
{
    if s.len() > 0 && is_white_space(s.last()) {
        trim_end(s.drop_last())
    } else {
        s
    }
}

/// `s` without surrounding white space.
pub open spec fn trim(s: Seq<char>) -> Seq<char> {
    trim_end(trim_start(s))
}

/// `c` in lower case where it is an ASCII letter.
pub open spec fn lower_char(c: char) -> char {
    if 'A' <= c <= 'Z' {
        ((c as u32 + 32) as u32) as char
    } else {
        c
    }
}

/// `s` with its ASCII letters in lower case.
pub open spec fn lower(s: Seq<char>) -> Seq<char> {
    s.map_values(|c: char| lower_char(c))
}

/// The character of the decimal digit `d`.
pub open spec fn digit_char(d: nat) -> char {
    (0x30 + d) as char
}

/// `n` in decimal, without leading zeros.
pub open spec fn decimal(n: nat) -> Seq<char>
    decreases n,
{
    if n < 10 {
        seq![digit_char(n)]
    } else {
        decimal(n / 10).push(digit_char(n % 10))
    }
}

/// `n` in decimal, with a minus sign where it is negative.
pub open spec fn integer_text(n: int) -> Seq<char> {
    if n < 0 {
        seq!['-'] + decimal((-n) as nat)
    } else {
        decimal(n as nat)
    }
}

/// `n` in decimal, filled up with leading zeros to `width` digits.
pub open spec fn padded(n: nat, width: nat) -> Seq<char> {
    let d = decimal(n);
    if d.len() < width {
        Seq::new((width - d.len()) as nat, |i: int| '0') + d
    } else {
        d
    }
}

/// Whether `c` is one of the ten ASCII digits.
pub open spec fn is_digit(c: char) -> bool {
    '0' <= c <= '9'
}

/// Whether `s` is made of ASCII digits, one at least.
pub open spec fn is_number(s: Seq<char>) -> bool {
    s.len() > 0 && forall|i: int| 0 <= i < s.len() ==> is_digit(#[trigger] s[i])
}

/// The number that the digits of `s` spell.
pub open spec fn number(s: Seq<char>) -> nat
    decreases s.len(),
{
    if s.len() == 0 {
        0
    } else {
        number(s.drop_last()) * 10 + (s.last() as u32 - 0x30) as nat
    }
}

/// The integer from `lo` to `hi` that `s` spells: digits after an optional sign, where
/// a minus sign is for ranges with negative numbers alone.
pub open spec fn parse_integer(s: Seq<char>, lo: int, hi: int) -> Option<int> {
    let minus = lo < 0 && s.len() > 0 && s[0] == '-';
    let digits = if minus || (s.len() > 0 && s[0] == '+') {
        s.skip(1)
    } else {
        s
    };
    let value = if minus {
        -(number(digits) as int)
    } else {
        number(digits) as int
    };
    if is_number(digits) && lo <= value <= hi {
        Some(value)
    } else {
        None
    }
}

/// `s` with each `pattern` in it, found from the left, replaced by `by`.
pub open spec fn replace(s: Seq<char>, pattern: Seq<char>, by: Seq<char>) -> Seq<char>
    decreases s.len(),
{
    if pattern.len() == 0 || s.len() < pattern.len() {
        s
    } else if s.take(pattern.len() as int) == pattern {
        by + replace(s.skip(pattern.len() as int), pattern, by)
    } else {
        seq![s[0]] + replace(s.drop_first(), pattern, by)
    }
}

/// The texts of some strings.
pub open spec fn texts(strings: Seq<String>) -> Seq<Seq<char>> {
    strings.map_values(|s: String| s@)
}

/// The texts of the cells of some rows.
pub open spec fn row_texts(rows: Seq<Vec<String>>) -> Seq<Seq<Seq<char>>> {
    rows.map_values(|row: Vec<String>| texts(row@))
}

/// The text of a string, if there is one.
pub open spec fn optional_text(s: Option<String>) -> Option<Seq<char>> {
    match s {
        Some(s) => Some(s@),
        None => None,
    }
}

/// Appends a character: `String::push`.
#[verifier::external_body]
pub(crate) fn push_char(s: &mut String, c: char)
    ensures
        final(s)@ == old(s)@.push(c),
{
    s.push(c);
}

/// The characters of a text.
pub(crate) fn to_chars(s: &str) -> (r: Vec<char>)
    ensures
        r@ == s@,
{
    let mut out: Vec<char> = Vec::new();
    for c in iter: s.chars()
        invariant
            out@ == iter.seq().take(iter.index()),
            iter.seq() == s@,
    {
        out.push(c);
    }
    out
}

/// The text of the characters from `start` to `end`.
pub(crate) fn from_chars(chars: &Vec<char>, start: usize, end: usize) -> (r: String)
    requires
        start <= end <= chars.len(),
    ensures
        r@ == chars@.subrange(start as int, end as int),
{
    let mut out = String::new();
    let mut i: usize = start;
    while i < end
        invariant
            start <= i <= end <= chars.len(),
            out@ == chars@.subrange(start as int, i as int),
        decreases end - i,
    {
        push_char(&mut out, chars[i]);
        i += 1;
    }
    out
}

/// Whether two texts are the same.
pub(crate) fn equal(a: &str, b: &str) -> (r: bool)
    ensures
        r == (a@ == b@),
{
    a.to_owned() == b.to_owned()
}

proof fn lemma_position(s: Seq<char>, c: char)
    ensures
        0 <= position(s, c) <= s.len(),
        forall|i: int| 0 <= i < position(s, c) ==> s[i] != c,
        position(s, c) < s.len() ==> s[position(s, c)] == c,
    decreases s.len(),
{
    if s.len() > 0 && s[0] != c {
        lemma_position(s.drop_first(), c);
        assert forall|i: int| 0 <= i < position(s, c) implies s[i] != c by {
            if i > 0 {
                assert(s.drop_first()[i - 1] == s[i]);
            }
        }
    }
}

proof fn lemma_position_is(s: Seq<char>, c: char, p: int)
    requires
        0 <= p <= s.len(),
        forall|i: int| 0 <= i < p ==> s[i] != c,
        p < s.len() ==> s[p] == c,
    ensures
        position(s, c) == p,
{
    lemma_position(s, c);
    let q = position(s, c);
    if q < p {
        assert(s[q] != c);
    } else if p < q {
        assert(s[p] != c);
    }
}

/// The position of the first `c` at or after `from`.
fn find_from(chars: &Vec<char>, from: usize, c: char) -> (p: usize)
    requires
        from <= chars.len(),
    ensures
        from <= p <= chars.len(),
        p - from == position(chars@.skip(from as int), c),
{
    let mut i: usize = from;
    while i < chars.len() && chars[i] != c
        invariant
            from <= i <= chars.len(),
            forall|j: int| from <= j < i ==> chars@[j] != c,
        decreases chars.len() - i,
    {
        i += 1;
    }
    proof {
        let s = chars@.skip(from as int);
        assert forall|j: int| 0 <= j < i - from implies s[j] != c by {
            assert(s[j] == chars@[j + from]);
        }
        lemma_position_is(s, c, i - from);
    }
    i
}

/// The parts of `s` between the occurrences of `c`.
pub fn split_text(s: &str, c: char) -> (r: Vec<String>)
    ensures
        r@.map_values(|part: String| part@) == split(s@, c),
{
    let chars = to_chars(s);
    let mut parts: Vec<String> = Vec::new();
    let mut start: usize = 0;
    let ghost views = |part: String| part@;
    proof {
        assert(s@.skip(0) =~= s@);
        assert(parts@.map_values(views) + split(s@.skip(0), c) =~= split(s@, c));
    }
    loop
        invariant
            chars@ == s@,
            start <= chars.len(),
            views == (|part: String| part@),
            parts@.map_values(views) + split(s@.skip(start as int), c) == split(s@, c),
        decreases chars.len() - start,
    {
        let p = find_from(&chars, start, c);
        let part = from_chars(&chars, start, p);
        let ghost rest = s@.skip(start as int);
        let ghost before = parts@;
        parts.push(part);
        proof {
            assert(parts@.map_values(views) =~= before.map_values(views).push(part@));
            assert(part@ =~= rest.take(p - start));
        }
        if p == chars.len() {
            proof {
                assert(rest.take(p - start) =~= rest);
                assert(split(rest, c) =~= seq![rest]);
                assert(before.map_values(views).push(rest) =~= before.map_values(views)
                    + seq![rest]);
            }
            return parts;
        }
        proof {
            assert(rest.skip(p - start + 1) =~= s@.skip(p + 1));
            assert(split(rest, c) == seq![rest.take(p - start)] + split(s@.skip(p + 1), c));
            assert(before.map_values(views).push(part@) + split(s@.skip(p + 1), c)
                =~= before.map_values(views) + (seq![part@] + split(s@.skip(p + 1), c)));
        }
        start = p + 1;
    }
}

/// The two sides of the first `c` in `s`, if there is one.
pub fn split_text_once(s: &str, c: char) -> (r: Option<(String, String)>)
    ensures
        match r {
            Some((a, b)) => split_once(s@, c) == Some((a@, b@)),
            None => split_once(s@, c) is None,
        },
{
    let chars = to_chars(s);
    let p = find_from(&chars, 0, c);
    proof {
        assert(s@.skip(0) =~= s@);
    }
    if p == chars.len() {
        return None;
    }
    let before = from_chars(&chars, 0, p);
    let after = from_chars(&chars, p + 1, chars.len());
    proof {
        assert(before@ =~= s@.take(p as int));
        assert(after@ =~= s@.skip(p + 1));
    }
    Some((before, after))
}

/// Whether `c` is white space.
fn white_space(c: char) -> (r: bool)
    ensures
        r == is_white_space(c),
{
    let u: u32 = c as u32;
    (0x9 <= u && u <= 0xd) || u == 0x20 || u == 0x85 || u == 0xa0 || u == 0x1680 || (0x2000 <= u
        && u <= 0x200a) || u == 0x2028 || u == 0x2029 || u == 0x202f || u == 0x205f || u == 0x3000
}

/// `s` without surrounding white space.
pub fn trim_text(s: &str) -> (r: String)
    ensures
        r@ == trim(s@),
{
    let chars = to_chars(s);
    let mut start: usize = 0;
    proof {
        assert(s@.skip(0) =~= s@);
    }
    while start < chars.len() && white_space(chars[start])
        invariant
            chars@ == s@,
            start <= chars.len(),
            trim_start(s@.skip(start as int)) == trim_start(s@),
        decreases chars.len() - start,
    {
        proof {
            assert(s@.skip(start as int).drop_first() =~= s@.skip(start + 1));
        }
        start += 1;
    }
    let mut end: usize = chars.len();
    proof {
        assert(s@.subrange(start as int, end as int) =~= s@.skip(start as int));
    }
    while end > start && white_space(chars[end - 1])
        invariant
            chars@ == s@,
            start <= end <= chars.len(),
            trim_end(s@.subrange(start as int, end as int)) == trim(s@),
        decreases end,
    {
        proof {
            let t = s@.subrange(start as int, end as int);
            assert(t.drop_last() =~= s@.subrange(start as int, end - 1));
        }
        end -= 1;
    }
    from_chars(&chars, start, end)
}

/// `s` with its ASCII letters in lower case.
pub fn lower_text(s: &str) -> (r: String)
    ensures
        r@ == lower(s@),
{
    let mut out = String::new();
    for c in iter: s.chars()
        invariant
            iter.seq() == s@,
            out@ == lower(s@.take(iter.index())),
    {
        let l = if 'A' <= c && c <= 'Z' {
            (c as u8 + 32) as char
        } else {
            c
        };
        proof {
            let i = iter.index();
            assert(s@.take(i + 1) =~= s@.take(i).push(c));
            assert(lower(s@.take(i + 1)) =~= lower(s@.take(i)).push(lower_char(c)));
        }
        push_char(&mut out, l);
    }
    proof {
        assert(s@.take(s@.len() as int) =~= s@);
    }
    out
}

/// Appends `n` in decimal.
fn push_decimal(out: &mut String, n: u64)
    ensures
        final(out)@ == old(out)@ + decimal(n as nat),
    decreases n,
{
    let ghost before = out@;
    if n >= 10 {
        push_decimal(out, n / 10);
    }
    let d: u8 = (n % 10) as u8;
    push_char(out, (48u8 + d) as char);
    proof {
        if n >= 10 {
            assert(out@ =~= before + decimal(n as nat));
        } else {
            assert(out@ =~= before + seq![digit_char(n as nat)]);
        }
    }
}

/// `n` in decimal.
pub fn unsigned_to_text(n: u64) -> (r: String)
    ensures
        r@ == integer_text(n as int),
{
    let mut out = String::new();
    push_decimal(&mut out, n);
    proof {
        assert(out@ =~= decimal(n as nat));
    }
    out
}

/// `n` in decimal.
pub fn integer_to_text(n: i64) -> (r: String)
    ensures
        r@ == integer_text(n as int),
{
    if n >= 0 {
        unsigned_to_text(n as u64)
    } else {
        let mut out = String::new();
        push_char(&mut out, '-');
        let magnitude: u64 = (-(n + 1)) as u64 + 1;
        push_decimal(&mut out, magnitude);
        proof {
            assert(out@ =~= seq!['-'] + decimal((-n) as nat));
        }
        out
    }
}

/// `n` in decimal, filled up with leading zeros to five digits.
pub fn index_to_text(n: u64) -> (r: String)
    ensures
        r@ == padded(n as nat, 5),
{
    let mut out = String::new();
    if n < 10 {
        out.append("0000");
    } else if n < 100 {
        out.append("000");
    } else if n < 1000 {
        out.append("00");
    } else if n < 10000 {
        out.append("0");
    }
    let ghost zeros = out@;
    push_decimal(&mut out, n);
    proof {
        reveal_strlit("0000");
        reveal_strlit("000");
        reveal_strlit("00");
        reveal_strlit("0");
        lemma_decimal_len(n as nat);
        assert(out@ =~= padded(n as nat, 5));
    }
    out
}

proof fn lemma_decimal_len(n: nat)
    ensures
        decimal(n).len() >= 1,
        n < 10 <==> decimal(n).len() == 1,
        10 <= n < 100 <==> decimal(n).len() == 2,
        100 <= n < 1000 <==> decimal(n).len() == 3,
        1000 <= n < 10000 <==> decimal(n).len() == 4,
        n >= 10000 <==> decimal(n).len() >= 5,
    decreases n,
{
    if n >= 10 {
        lemma_decimal_len(n / 10);
    }
}

/// A number is read back from its decimal text.
pub proof fn law_decimal_is_read_back(n: nat)
    ensures
        is_number(decimal(n)),
        number(decimal(n)) == n,
    decreases n,
{
    if n < 10 {
        let s = seq![digit_char(n)];
        assert(decimal(n) == s);
        assert(s.drop_last() =~= Seq::<char>::empty());
        assert(number(s.drop_last()) == 0);
    } else {
        let s = decimal(n);
        law_decimal_is_read_back(n / 10);
        assert(s.drop_last() =~= decimal(n / 10));
        assert forall|i: int| 0 <= i < s.len() implies is_digit(#[trigger] s[i]) by {
            if i < s.len() - 1 {
                assert(s[i] == decimal(n / 10)[i]);
            }
        }
    }
}

proof fn lemma_number_of_zeros(k: nat, s: Seq<char>)
    ensures
        number(Seq::new(k, |i: int| '0') + s) == number(s),
    decreases s.len(), k,
{
    let zeros = Seq::new(k, |i: int| '0');
    let t = zeros + s;
    if s.len() > 0 {
        assert(t.drop_last() =~= zeros + s.drop_last());
        lemma_number_of_zeros(k, s.drop_last());
    } else if k > 0 {
        let fewer = Seq::new((k - 1) as nat, |i: int| '0');
        assert(t.drop_last() =~= fewer + s);
        lemma_number_of_zeros((k - 1) as nat, s);
    }
}

/// A number is read back from its padded text, so two numbers never share one.
pub proof fn law_padded_is_read_back(n: nat, width: nat)
    ensures
        is_number(padded(n, width)),
        number(padded(n, width)) == n,
{
    law_decimal_is_read_back(n);
    let d = decimal(n);
    if d.len() < width {
        lemma_number_of_zeros((width - d.len()) as nat, d);
    }
}

/// The number that the digits from `start` on spell, where there are digits and
/// nothing else, and the number fits.
fn parse_digits(chars: &Vec<char>, start: usize) -> (r: Option<u64>)
    requires
        start <= chars.len(),
    ensures
        ({
            let digits = chars@.skip(start as int);
            match r {
                Some(n) => is_number(digits) && number(digits) == n,
                None => !is_number(digits) || number(digits) > u64::MAX,
            }
        }),
{
    let ghost digits = chars@.skip(start as int);
    if start == chars.len() {
        return None;
    }
    let mut value: u64 = 0;
    let mut fits = true;
    let mut i: usize = start;
    while i < chars.len()
        invariant
            start <= i <= chars.len(),
            digits == chars@.skip(start as int),
            forall|j: int| 0 <= j < i - start ==> is_digit(#[trigger] digits[j]),
            fits ==> value == number(digits.take(i - start)),
            !fits ==> number(digits.take(i - start)) > u64::MAX,
        decreases chars.len() - i,
    {
        let c = chars[i];
        assert(digits[i - start] == c);
        if !('0' <= c && c <= '9') {
            assert(!is_digit(digits[i - start]));
            return None;
        }
        let d: u64 = (c as u8 - 48) as u64;
        let ghost k = i - start;
        assert(digits.take(k + 1).drop_last() =~= digits.take(k));
        assert(digits.take(k + 1).last() == c);
        assert(number(digits.take(k + 1)) == number(digits.take(k)) * 10 + d);
        if fits {
            if value <= (u64::MAX - d) / 10 {
                value = value * 10 + d;
            } else {
                fits = false;
            }
        }
        i += 1;
    }
    assert(digits.take(i - start) =~= digits);
    if fits {
        Some(value)
    } else {
        None
    }
}

/// The integer that `s` spells, if it lies from `lo` to `hi`.
fn parse_in_range(s: &str, lo: i64, hi: u64) -> (r: Option<i128>)
    ensures
        match r {
            Some(n) => parse_integer(s@, lo as int, hi as int) == Some(n as int),
            None => parse_integer(s@, lo as int, hi as int) is None,
        },
{
    let chars = to_chars(s);
    let minus = lo < 0 && chars.len() > 0 && chars[0] == '-';
    let plus = chars.len() > 0 && chars[0] == '+';
    let start: usize = if minus || plus {
        1
    } else {
        0
    };
    proof {
        assert(s@.skip(0) =~= s@);
    }
    match parse_digits(&chars, start) {
        Some(n) => {
            let value: i128 = if minus {
                -(n as i128)
            } else {
                n as i128
            };
            if lo as i128 <= value && value <= hi as i128 {
                Some(value)
            } else {
                None
            }
        },
        None => None,
    }
}

/// The 32-bit integer that `s` spells.
pub fn parse_i32(s: &str) -> (r: Option<i32>)
    ensures
        match r {
            Some(n) => parse_integer(s@, i32::MIN as int, i32::MAX as int) == Some(n as int),
            None => parse_integer(s@, i32::MIN as int, i32::MAX as int) is None,
        },
{
    match parse_in_range(s, i32::MIN as i64, i32::MAX as u64) {
        Some(n) => Some(n as i32),
        None => None,
    }
}

/// The 64-bit integer that `s` spells.
pub fn parse_i64(s: &str) -> (r: Option<i64>)
    ensures
        match r {
            Some(n) => parse_integer(s@, i64::MIN as int, i64::MAX as int) == Some(n as int),
            None => parse_integer(s@, i64::MIN as int, i64::MAX as int) is None,
        },
{
    match parse_in_range(s, i64::MIN, i64::MAX as u64) {
        Some(n) => Some(n as i64),
        None => None,
    }
}

/// The array index that `s` spells.
pub fn parse_index(s: &str) -> (r: Option<usize>)
    ensures
        match r {
            Some(n) => parse_integer(s@, 0, usize::MAX as int) == Some(n as int),
            None => parse_integer(s@, 0, usize::MAX as int) is None,
        },
{
    match parse_in_range(s, 0, usize::MAX as u64) {
        Some(n) => Some(n as usize),
        None => None,
    }
}

/// Whether `pattern` stands in `chars` at `at`.
fn stands_at(chars: &Vec<char>, at: usize, pattern: &Vec<char>) -> (r: bool)
    requires
        at <= chars.len(),
    ensures
        r == (chars.len() - at >= pattern.len() && chars@.skip(at as int).take(
            pattern.len() as int,
        ) == pattern@),
{
    if chars.len() - at < pattern.len() {
        return false;
    }
    let ghost window = chars@.skip(at as int).take(pattern.len() as int);
    let mut i: usize = 0;
    while i < pattern.len()
        invariant
            at <= chars.len(),
            chars.len() - at >= pattern.len(),
            i <= pattern.len(),
            window == chars@.skip(at as int).take(pattern.len() as int),
            forall|j: int| 0 <= j < i ==> window[j] == pattern@[j],
        decreases pattern.len() - i,
    {
        assert(window[i as int] == chars@[at + i]);
        if chars[at + i] != pattern[i] {
            return false;
        }
        i += 1;
    }
    assert(window =~= pattern@);
    true
}

/// `s` with each `pattern` in it replaced by `by`.
pub fn replace_text(s: &str, pattern: &str, by: &str) -> (r: String)
    requires
        pattern@.len() > 0,
    ensures
        r@ == replace(s@, pattern@, by@),
{
    let chars = to_chars(s);
    let wanted = to_chars(pattern);
    let mut out = String::new();
    let mut i: usize = 0;
    proof {
        assert(s@.skip(0) =~= s@);
        assert(out@ + replace(s@, pattern@, by@) =~= replace(s@, pattern@, by@));
    }
    while i < chars.len()
        invariant
            chars@ == s@,
            wanted@ == pattern@,
            wanted.len() > 0,
            i <= chars.len(),
            out@ + replace(s@.skip(i as int), pattern@, by@) == replace(s@, pattern@, by@),
        decreases chars.len() - i,
    {
        let ghost rest = s@.skip(i as int);
        let ghost before = out@;
        if stands_at(&chars, i, &wanted) {
            out.append(by);
            i += wanted.len();
            proof {
                assert(rest.skip(pattern@.len() as int) =~= s@.skip(i as int));
                assert(out@ + replace(s@.skip(i as int), pattern@, by@) =~= before + (by@
                    + replace(s@.skip(i as int), pattern@, by@)));
            }
        } else {
            push_char(&mut out, chars[i]);
            i += 1;
            proof {
                assert(rest.drop_first() =~= s@.skip(i as int));
                if rest.len() < pattern@.len() {
                    assert(replace(rest, pattern@, by@) == rest);
                    assert(replace(rest.drop_first(), pattern@, by@) == rest.drop_first());
                    assert(rest =~= seq![rest[0]] + rest.drop_first());
                }
                assert(out@ + replace(s@.skip(i as int), pattern@, by@) =~= before + (seq![rest[0]]
                    + replace(s@.skip(i as int), pattern@, by@)));
            }
        }
    }
    proof {
        assert(s@.skip(i as int) =~= Seq::<char>::empty());
        assert(replace(s@.skip(i as int), pattern@, by@) =~= Seq::<char>::empty());
        assert(out@ + Seq::<char>::empty() =~= out@);
    }
    out
}

/// Whether `pattern` stands somewhere in `s`.
pub open spec fn occurs(s: Seq<char>, pattern: Seq<char>) -> bool {
    exists|i: int|
        0 <= i <= s.len() - pattern.len() && #[trigger] s.subrange(i, i + pattern.len()) == pattern
}

/// A text in which the pattern does not stand is left as it is.
pub proof fn law_nothing_to_replace(s: Seq<char>, pattern: Seq<char>, by: Seq<char>)
    requires
        !occurs(s, pattern),
    ensures
        replace(s, pattern, by) == s,
    decreases s.len(),
{
    let n = pattern.len() as int;
    if n > 0 && s.len() >= n {
        assert(s.take(n) =~= s.subrange(0, 0 + n));
        let rest = s.drop_first();
        assert forall|i: int| 0 <= i <= rest.len() - n implies #[trigger] rest.subrange(i, i + n)
            != pattern by {
            assert(rest.subrange(i, i + n) =~= s.subrange(i + 1, i + 1 + n));
        }
        law_nothing_to_replace(rest, pattern, by);
        assert(seq![s[0]] + rest =~= s);
    }
}

/// Text before a pattern is kept where it does not hold the character that the pattern
/// begins with, and the pattern after it is replaced.
pub proof fn law_pattern_is_replaced(
    before: Seq<char>,
    pattern: Seq<char>,
    after: Seq<char>,
    by: Seq<char>,
)
    requires
        pattern.len() > 0,
        !before.contains(pattern[0]),
    ensures
        replace(before + pattern + after, pattern, by) == before + by + replace(
            after,
            pattern,
            by,
        ),
    decreases before.len(),
{
    let s = before + pattern + after;
    let n = pattern.len() as int;
    if before.len() == 0 {
        assert(s.take(n) =~= pattern);
        assert(s.skip(n) =~= after);
        assert(before + by + replace(after, pattern, by) =~= by + replace(after, pattern, by));
    } else {
        assert(before.contains(before[0]));
        assert(s.take(n)[0] == before[0]);
        let rest = before.drop_first();
        assert forall|i: int| 0 <= i < rest.len() implies rest[i] != pattern[0] by {
            assert(before.contains(before[i + 1]));
        }
        law_pattern_is_replaced(rest, pattern, after, by);
        assert(s.drop_first() =~= rest + pattern + after);
        assert(before + by + replace(after, pattern, by) =~= seq![before[0]] + (rest + by
            + replace(after, pattern, by)));
    }
}

/// A text that is made of two sides with the separator between them is split into the
/// parts of the one and those of the other.
pub proof fn law_parts_of_both_sides(a: Seq<char>, b: Seq<char>, c: char)
    ensures
        split(a + seq![c] + b, c) == split(a, c) + split(b, c),
    decreases a.len(),
{
    let s = a + seq![c] + b;
    let i = position(a, c);
    lemma_position(a, c);
    lemma_position_is(s, c, i);
    if i < a.len() {
        law_parts_of_both_sides(a.skip(i + 1), b, c);
        assert(s.take(i) =~= a.take(i));
        assert(s.skip(i + 1) =~= a.skip(i + 1) + seq![c] + b);
        assert(seq![a.take(i)] + (split(a.skip(i + 1), c) + split(b, c)) =~= split(a, c) + split(
            b,
            c,
        ));
    } else {
        assert(s.take(i) =~= a);
        assert(s.skip(i + 1) =~= b);
    }
}

/// The two sides of a separator are read back where the first side does not hold it.
pub proof fn law_sides_are_read_back(a: Seq<char>, b: Seq<char>, c: char)
    requires
        !a.contains(c),
    ensures
        split_once(a + seq![c] + b, c) == Some((a, b)),
{
    let s = a + seq![c] + b;
    lemma_position_is(s, c, a.len() as int);
    assert(s.take(a.len() as int) =~= a);
    assert(s.skip(a.len() as int + 1) =~= b);
}

proof fn lemma_trim_start(s: Seq<char>)
    ensures
        trim_start(s).len() > 0 ==> !is_white_space(trim_start(s)[0]),
    decreases s.len(),
{
    if s.len() > 0 && is_white_space(s[0]) {
        lemma_trim_start(s.drop_first());
    }
}

proof fn lemma_trim_end(s: Seq<char>)
    ensures
        trim_end(s).len() > 0 ==> !is_white_space(trim_end(s).last()),
        trim_end(s).is_prefix_of(s),
    decreases s.len(),
{
    if s.len() > 0 && is_white_space(s.last()) {
        lemma_trim_end(s.drop_last());
    }
}

/// A trimmed text has nothing left to trim.
pub proof fn law_trimmed_text_stays(s: Seq<char>)
    ensures
        trim(trim(s)) == trim(s),
        trim(s).len() > 0 ==> !is_white_space(trim(s)[0]) && !is_white_space(trim(s).last()),
{
    lemma_trim_start(s);
    lemma_trim_end(trim_start(s));
}

/// An integer is read back from its text, in any range that it lies in.
pub proof fn law_integer_text_is_parsed_back(n: int, lo: int, hi: int)
    requires
        lo <= n <= hi,
    ensures
        parse_integer(integer_text(n), lo, hi) == Some(n),
{
    let s = integer_text(n);
    if n < 0 {
        law_decimal_is_read_back((-n) as nat);
        assert(s.skip(1) =~= decimal((-n) as nat));
    } else {
        law_decimal_is_read_back(n as nat);
        assert(is_digit(s[0]));
    }
}

/// Different integers have different texts.
pub proof fn law_integer_texts_differ(a: int, b: int)
    requires
        integer_text(a) == integer_text(b),
    ensures
        a == b,
{
    let (lo, hi) = if a < b {
        (a, b)
    } else {
        (b, a)
    };
    law_integer_text_is_parsed_back(a, lo, hi);
    law_integer_text_is_parsed_back(b, lo, hi);
}

/// Whether `a` comes before `b` in the order of texts: at the first place where they
/// differ `a` has the smaller character, or has ended.
pub open spec fn sorts_before(a: Seq<char>, b: Seq<char>) -> bool {
    exists|k: int| #[trigger] differ_first_at(a, b, k)
}

/// Whether `a` and `b` agree up to place `k`, and `a` is the smaller one there.
pub open spec fn differ_first_at(a: Seq<char>, b: Seq<char>, k: int) -> bool {
    &&& 0 <= k <= a.len()
    &&& k < b.len()
    &&& a.take(k) == b.take(k)
    &&& k == a.len() || a[k] < b[k]
}

proof fn lemma_equal_numbers(a: Seq<char>, b: Seq<char>)
    requires
        a.len() == b.len(),
        forall|i: int| 0 <= i < a.len() ==> is_digit(#[trigger] a[i]),
        forall|i: int| 0 <= i < b.len() ==> is_digit(#[trigger] b[i]),
        number(a) == number(b),
    ensures
        a == b,
    decreases a.len(),
{
    if a.len() > 0 {
        assert(is_digit(a.last()) && is_digit(b.last()));
        lemma_equal_numbers(a.drop_last(), b.drop_last());
        assert(a =~= a.drop_last().push(a.last()));
        assert(b =~= b.drop_last().push(b.last()));
    } else {
        assert(a =~= b);
    }
}

proof fn lemma_smaller_number(a: Seq<char>, b: Seq<char>) -> (k: int)
    requires
        a.len() == b.len(),
        forall|i: int| 0 <= i < a.len() ==> is_digit(#[trigger] a[i]),
        forall|i: int| 0 <= i < b.len() ==> is_digit(#[trigger] b[i]),
        number(a) < number(b),
    ensures
        k < a.len(),
        differ_first_at(a, b, k),
    decreases a.len(),
{
    let x = a.drop_last();
    let y = b.drop_last();
    assert(is_digit(a.last()) && is_digit(b.last()));
    if number(x) == number(y) {
        lemma_equal_numbers(x, y);
        assert(a.take(a.len() - 1) =~= b.take(a.len() - 1));
        a.len() - 1
    } else {
        let k = lemma_smaller_number(x, y);
        assert(a.take(k) =~= x.take(k));
        assert(b.take(k) =~= y.take(k));
        k
    }
}

proof fn lemma_decimal_len_grows(i: nat, j: nat)
    requires
        i <= j,
    ensures
        decimal(i).len() <= decimal(j).len(),
    decreases j,
{
    lemma_decimal_len(j);
    if i >= 10 {
        lemma_decimal_len_grows(i / 10, j / 10);
    }
}

/// Numbers that are padded to the same width, which the larger one fits in, sort as texts
/// in the order of the numbers; whatever stands before them and after them.
pub proof fn law_padded_numbers_sort(
    i: nat,
    j: nat,
    width: nat,
    before: Seq<char>,
    after: Seq<char>,
)
    requires
        i < j,
        decimal(j).len() <= width,
    ensures
        sorts_before(before + padded(i, width) + after, before + padded(j, width) + after),
{
    let a = padded(i, width);
    let b = padded(j, width);
    lemma_decimal_len_grows(i, j);
    law_padded_is_read_back(i, width);
    law_padded_is_read_back(j, width);
    let k = lemma_smaller_number(a, b);
    let x = before + a + after;
    let y = before + b + after;
    let n = before.len() + k;
    assert forall|m: int| 0 <= m < k implies a[m] == b[m] by {
        assert(a.take(k)[m] == b.take(k)[m]);
    }
    assert(x.take(n) =~= y.take(n));
    assert(differ_first_at(x, y, n));
}

/// Numbers up to 99999 have five digits at most.
pub proof fn law_five_digits(n: nat)
    ensures
        n <= 99999 <==> decimal(n).len() <= 5,
{
    lemma_decimal_len(n / 10);
    lemma_decimal_len(n);
}

/// A text without the separator is its own only part; so the parts of any text are what
/// stands between the separators, the empty parts among them.
pub proof fn law_text_without_separator_is_one_part(s: Seq<char>, c: char)
    requires
        !s.contains(c),
    ensures
        split(s, c) == seq![s],
        split_once(s, c) is None,
{
    lemma_position(s, c);
    let i = position(s, c);
    if i < s.len() {
        assert(s.contains(s[i]));
    }
}

/// No part holds the separator, and the parts with separators between them are the text
/// again: it has as many characters as the parts together and the separators.
pub proof fn law_parts_make_the_text_again(s: Seq<char>, c: char)
    ensures
        split(s, c).len() > 0,
        with_separators(split(s, c), c) == s,
        forall|i: int|
            0 <= i < split(s, c).len() ==> !(#[trigger] split(s, c)[i]).contains(c),
    decreases s.len(),
{
    lemma_position(s, c);
    let i = position(s, c);
    let parts = split(s, c);
    if i < s.len() {
        let rest = s.skip(i + 1);
        law_parts_make_the_text_again(rest, c);
        assert(parts.drop_first() =~= split(rest, c));
        assert(s.take(i) + seq![c] + rest =~= s);
        assert forall|j: int| 0 <= j < parts.len() implies !(#[trigger] parts[j]).contains(c) by {
            if j > 0 {
                assert(parts[j] == split(rest, c)[j - 1]);
            }
        }
    } else {
        assert(with_separators(seq![s], c) == s);
    }
}

/// Parts with a separator between each two of them.
pub open spec fn with_separators(parts: Seq<Seq<char>>, c: char) -> Seq<char>
    decreases parts.len(),
{
    if parts.len() == 0 {
        Seq::empty()
    } else if parts.len() == 1 {
        parts[0]
    } else {
        parts[0] + seq![c] + with_separators(parts.drop_first(), c)
    }
}

/// A text that holds the separator is cut at the first one: the sides and the separator
/// are the text again, and the first side does not hold the separator.
pub proof fn law_first_separator_cuts(s: Seq<char>, c: char)
    requires
        s.contains(c),
    ensures
        split_once(s, c) matches Some((a, b)) && s == a + seq![c] + b && !a.contains(c),
{
    lemma_position(s, c);
    let i = position(s, c);
    let k = choose|k: int| 0 <= k < s.len() && s[k] == c;
    assert(i < s.len());
    assert(s =~= s.take(i) + seq![c] + s.skip(i + 1));
}

/// What trimming takes away is white space, at the two ends of the text alone, and what it
/// leaves neither begins nor ends with any.
pub proof fn law_white_space_is_trimmed(s: Seq<char>)
    ensures
        exists|i: int, j: int|
            #![trigger s.subrange(i, j)]
            0 <= i <= j <= s.len() && trim(s) == s.subrange(i, j) && (forall|k: int|
                0 <= k < i || j <= k < s.len() ==> is_white_space(#[trigger] s[k])),
        trim(s).len() > 0 ==> !is_white_space(trim(s)[0]) && !is_white_space(trim(s).last()),
{
    law_trimmed_text_stays(s);
    let i = lemma_start_is_white(s);
    let t = s.skip(i);
    let n = lemma_end_is_white(t);
    let j = i + n;
    assert(trim(s) =~= s.subrange(i, j));
    assert forall|k: int| 0 <= k < i || j <= k < s.len() implies is_white_space(
        #[trigger] s[k],
    ) by {
        if k >= j {
            assert(t[k - i] == s[k]);
        }
    }
}

proof fn lemma_start_is_white(s: Seq<char>) -> (i: int)
    ensures
        0 <= i <= s.len(),
        trim_start(s) == s.skip(i),
        forall|k: int| 0 <= k < i ==> is_white_space(#[trigger] s[k]),
    decreases s.len(),
{
    if s.len() > 0 && is_white_space(s[0]) {
        let rest = s.drop_first();
        let i = lemma_start_is_white(rest);
        assert(rest.skip(i) =~= s.skip(i + 1));
        assert forall|k: int| 0 <= k < i + 1 implies is_white_space(#[trigger] s[k]) by {
            if k > 0 {
                assert(rest[k - 1] == s[k]);
            }
        }
        i + 1
    } else {
        assert(s.skip(0) =~= s);
        0
    }
}

proof fn lemma_end_is_white(s: Seq<char>) -> (n: int)
    ensures
        0 <= n <= s.len(),
        trim_end(s) == s.take(n),
        forall|k: int| n <= k < s.len() ==> is_white_space(#[trigger] s[k]),
    decreases s.len(),
{
    if s.len() > 0 && is_white_space(s.last()) {
        let rest = s.drop_last();
        let n = lemma_end_is_white(rest);
        assert(rest.take(n) =~= s.take(n));
        assert forall|k: int| n <= k < s.len() implies is_white_space(#[trigger] s[k]) by {
            if k < s.len() - 1 {
                assert(rest[k] == s[k]);
            }
        }
        n
    } else {
        assert(s.take(s.len() as int) =~= s);
        s.len() as int
    }
}

/// Blanks, tabs, line ends and the other Unicode spaces are white space; letters, digits,
/// punctuation and every other character are not.
pub proof fn law_white_space_characters(c: char)
    ensures
        is_white_space(c) == (c == '\t' || c == '\n' || c == '\u{b}' || c == '\u{c}' || c == '\r'
            || c == ' ' || c == '\u{85}' || c == '\u{a0}' || c == '\u{1680}' || ('\u{2000}' <= c
            && c <= '\u{200a}') || c == '\u{2028}' || c == '\u{2029}' || c == '\u{202f}' || c
            == '\u{205f}' || c == '\u{3000}'),
{
}

/// Lowering keeps the length and every character but the capital letters of ASCII, each of
/// which becomes the letter that follows it by 32; no capital letter is left.
pub proof fn law_capital_letters_are_lowered(s: Seq<char>)
    ensures
        lower(s).len() == s.len(),
        forall|i: int|
            0 <= i < s.len() ==> (if 'A' <= #[trigger] s[i] && s[i] <= 'Z' {
                lower(s)[i] as u32 == s[i] as u32 + 32
            } else {
                lower(s)[i] == s[i]
            }),
        forall|i: int| 0 <= i < s.len() ==> !('A' <= #[trigger] lower(s)[i] && lower(s)[i] <= 'Z'),
        lower(lower(s)) == lower(s),
{
    assert(lower(lower(s)) =~= lower(s));
}

/// A number is read digit by digit from the left: one more digit multiplies by ten and
/// adds the digit.
pub proof fn law_digits_are_read_in_tens(s: Seq<char>, d: char)
    ensures
        number(Seq::empty()) == 0,
        '0' <= d <= '9' ==> number(s.push(d)) == 10 * number(s) + (d as u32 - '0' as u32),
        is_digit(d) == ('0' <= d <= '9'),
{
    assert(s.push(d).drop_last() =~= s);
}

/// The decimal text of a number is the only one without needless zeros: any digits that do
/// not begin with a zero, or are just one, are the text of the number that they spell.
pub proof fn law_decimal_has_no_leading_zeros(s: Seq<char>)
    requires
        is_number(s),
        s.len() == 1 || s[0] != '0',
    ensures
        decimal(number(s)) == s,
    decreases s.len(),
{
    let x = s.drop_last();
    assert(is_digit(s.last()));
    assert(s =~= x.push(s.last()));
    if s.len() == 1 {
        assert(x =~= Seq::<char>::empty());
        assert(number(x) == 0);
        assert(decimal(number(s)) =~= s);
    } else {
        assert(x[0] == s[0]);
        assert forall|i: int| 0 <= i < x.len() implies is_digit(#[trigger] x[i]) by {
            assert(is_digit(s[i]));
        }
        lemma_number_is_positive(x);
        law_decimal_has_no_leading_zeros(x);
        let n = number(s);
        assert(n / 10 == number(x) && n % 10 == s.last() as u32 - 0x30);
        assert(decimal(n) =~= s);
    }
}

proof fn lemma_number_is_positive(s: Seq<char>)
    requires
        is_number(s),
        s[0] != '0',
    ensures
        number(s) > 0,
    decreases s.len(),
{
    let x = s.drop_last();
    assert(is_digit(s.last()));
    if s.len() > 1 {
        assert(x[0] == s[0]);
        assert forall|i: int| 0 <= i < x.len() implies is_digit(#[trigger] x[i]) by {
            assert(is_digit(s[i]));
        }
        lemma_number_is_positive(x);
    } else {
        assert(x =~= Seq::<char>::empty());
    }
}

/// The text of an integer is that of its magnitude, after a minus sign where it is
/// negative, and nothing else.
pub proof fn law_sign_stands_before_the_magnitude(n: nat)
    ensures
        integer_text(n as int) == decimal(n),
        n > 0 ==> integer_text(-(n as int)) == seq!['-'] + decimal(n),
{
}

/// A padded number is zeros and then the number, just as many zeros as the width asks for.
pub proof fn law_padding_is_zeros(n: nat, width: nat)
    ensures
        padded(n, width).len() == if decimal(n).len() < width {
            width
        } else {
            decimal(n).len()
        },
        exists|k: int|
            #![trigger padded(n, width).skip(k)]
            0 <= k <= padded(n, width).len() && padded(n, width).skip(k) == decimal(n) && (forall|
                i: int,
            |
                0 <= i < k ==> #[trigger] padded(n, width)[i] == '0'),
{
    let k = padded(n, width).len() - decimal(n).len();
    assert(padded(n, width).skip(k) =~= decimal(n));
}

/// Digits parse to the number that they spell, also after a plus sign, and after a minus
/// sign to its negative where the range has negative numbers; in each case only if the
/// number lies in the range.
pub proof fn law_signed_digits_are_parsed(digits: Seq<char>, lo: int, hi: int)
    requires
        is_number(digits),
    ensures
        ({
            let n = number(digits) as int;
            let fits = lo <= n && n <= hi;
            let minus_fits = lo <= -n && -n <= hi;
            &&& parse_integer(digits, lo, hi) == (if fits {
                Some(n)
            } else {
                None
            })
            &&& parse_integer(seq!['+'] + digits, lo, hi) == (if fits {
                Some(n)
            } else {
                None
            })
            &&& parse_integer(seq!['-'] + digits, lo, hi) == (if lo < 0 && minus_fits {
                Some(-n)
            } else {
                None
            })
        }),
{
    assert(is_digit(digits[0]));
    let plus = seq!['+'] + digits;
    let minus = seq!['-'] + digits;
    assert(plus.skip(1) =~= digits);
    assert(minus.skip(1) =~= digits);
    if lo >= 0 {
        assert(minus[0] == '-' && !is_digit('-'));
        assert(!is_number(minus));
    }
}

/// What parses to an integer is digits, at least one, after one sign or none; the integer
/// lies in the range, and without a minus sign it is not negative.
pub proof fn law_only_signed_digits_are_parsed(s: Seq<char>, lo: int, hi: int)
    requires
        parse_integer(s, lo, hi) is Some,
    ensures
        s.len() > 0,
        lo <= parse_integer(s, lo, hi)->0 <= hi,
        is_number(s) || (is_number(s.skip(1)) && (s[0] == '+' || (s[0] == '-' && lo < 0))),
        s[0] != '-' ==> parse_integer(s, lo, hi)->0 >= 0,
        parse_integer(s, lo, hi)->0 < 0 ==> s[0] == '-',
{
}

/// The first place where a pattern stands is replaced, and replacing goes on behind it: what
/// stands before it is kept.
pub proof fn law_first_occurrence_is_replaced(
    s: Seq<char>,
    pattern: Seq<char>,
    by: Seq<char>,
    at: int,
)
    requires
        pattern.len() > 0,
        0 <= at <= s.len() - pattern.len(),
        s.subrange(at, at + pattern.len()) == pattern,
        forall|i: int| 0 <= i < at ==> #[trigger] s.subrange(i, i + pattern.len()) != pattern,
    ensures
        replace(s, pattern, by) == s.take(at) + by + replace(
            s.skip(at + pattern.len()),
            pattern,
            by,
        ),
    decreases at,
{
    let n = pattern.len() as int;
    let behind = s.skip(at + n);
    if at == 0 {
        assert(s.take(n) =~= s.subrange(0, 0 + n));
        assert(s.skip(n) =~= behind);
        assert(s.take(0) + by + replace(behind, pattern, by) =~= by + replace(
            behind,
            pattern,
            by,
        ));
    } else {
        assert(s.take(n) =~= s.subrange(0, 0 + n));
        let rest = s.drop_first();
        assert(rest.subrange(at - 1, at - 1 + n) =~= s.subrange(at, at + n));
        assert forall|i: int| 0 <= i < at - 1 implies #[trigger] rest.subrange(i, i + n)
            != pattern by {
            assert(rest.subrange(i, i + n) =~= s.subrange(i + 1, i + 1 + n));
        }
        law_first_occurrence_is_replaced(rest, pattern, by, at - 1);
        assert(rest.skip(at - 1 + n) =~= behind);
        assert(seq![s[0]] + (rest.take(at - 1) + by + replace(behind, pattern, by)) =~= s.take(at)
            + by + replace(behind, pattern, by));
    }
}

/// The texts of strings, of rows of them and of one that may be absent are those of each
/// string, whole and in its place.
pub proof fn law_strings_are_seen_whole(
    strings: Seq<String>,
    rows: Seq<Vec<String>>,
    one: Option<String>,
    i: int,
    j: int,
)
    ensures
        texts(strings).len() == strings.len(),
        0 <= i < strings.len() ==> texts(strings)[i] == strings[i]@,
        row_texts(rows).len() == rows.len(),
        0 <= i < rows.len() ==> row_texts(rows)[i].len() == rows[i]@.len(),
        0 <= i < rows.len() && 0 <= j < rows[i]@.len() ==> row_texts(rows)[i][j] == rows[i]@[j]@,
        match one {
            Some(s) => optional_text(one) == Some(s@),
            None => optional_text(one) is None,
        },
{
}

} // verus!
