//! Character-level helpers: conversions between `&str`, `String` and
//! `Vec<char>`, Unicode whitespace, and hexadecimal / decimal digits.

use vstd::prelude::*;

verus! {

// ---------------------------------------------------------------------------
// Conversions
// ---------------------------------------------------------------------------

/// The characters of `s`, in order.
pub fn str_chars(s: &str) -> (v: Vec<char>)
    ensures
        v@ == s@,
{
    let mut v: Vec<char> = Vec::new();
    for c in it: s.chars()
        invariant
            v@ == it.seq().take(it.index() as int),
            it.seq() == s@,
    {
        v.push(c);
    }
    v
}

/// Builds a `String` from characters. Calls std's
/// `FromIterator<char> for String`, which appends every character in order;
/// the contract claims the string's characters are exactly `v`.
#[verifier::external_body]
pub(crate) fn string_from_chars(v: &Vec<char>) -> (s: String)
    ensures
        s@ == v@,
{
    v.iter().collect::<String>()
}

/// The characters of `v` from `lo` (inclusive) to `hi` (exclusive).
pub fn copy_range<T: Copy>(v: &Vec<T>, lo: usize, hi: usize) -> (r: Vec<T>)
    requires
        lo <= hi <= v@.len(),
    ensures
        r@ == v@.subrange(lo as int, hi as int),
{
    let mut r: Vec<T> = Vec::new();
    let mut i: usize = lo;
    while i < hi
        invariant
            lo <= i <= hi <= v@.len(),
            r@ == v@.subrange(lo as int, i as int),
        decreases hi - i,
    {
        r.push(v[i]);
        i += 1;
    }
    r
}

/// Whether `a` and `b` hold the same characters.
pub fn chars_equal(a: &Vec<char>, b: &Vec<char>) -> (r: bool)
    ensures
        r == (a@ == b@),
{
    if a.len() != b.len() {
        return false;
    }
    let mut i: usize = 0;
    while i < a.len()
        invariant
            a@.len() == b@.len(),
            i <= a@.len(),
            forall|j: int| 0 <= j < i ==> a@[j] == b@[j],
        decreases a.len() - i,
    {
        if a[i] != b[i] {
            return false;
        }
        i += 1;
    }
    assert(a@ =~= b@);
    true
}

// ---------------------------------------------------------------------------
// Substrings
// ---------------------------------------------------------------------------

/// `needle` occurs in `hay` starting at position `i`.
pub open spec fn occurs_at(hay: Seq<char>, needle: Seq<char>, i: int) -> bool {
    0 <= i && i + needle.len() <= hay.len() && hay.subrange(i, i + needle.len()) == needle
}

/// `needle` occurs somewhere in `hay` (as `str::contains` with a string pattern).
pub open spec fn contains_seq(hay: Seq<char>, needle: Seq<char>) -> bool {
    exists|i: int| occurs_at(hay, needle, i)
}

/// Whether `needle` occurs in `hay`.
pub fn contains_chars(hay: &Vec<char>, needle: &Vec<char>) -> (r: bool)
    ensures
        r == contains_seq(hay@, needle@),
{
    if needle.len() == 0 {
        assert(hay@.subrange(0, 0) =~= needle@);
        assert(occurs_at(hay@, needle@, 0));
        return true;
    }
    if needle.len() > hay.len() {
        assert(!contains_seq(hay@, needle@));
        return false;
    }
    let last = hay.len() - needle.len();
    let mut i: usize = 0;
    while i <= last
        invariant
            last + needle@.len() == hay@.len(),
            hay@.len() <= usize::MAX,
            needle@.len() > 0,
            forall|k: int| 0 <= k < i ==> !occurs_at(hay@, needle@, k),
        decreases last + 1 - i,
    {
        let mut j: usize = 0;
        let mut ok = true;
        while j < needle.len()
            invariant
                i <= last,
                last + needle@.len() == hay@.len(),
                hay@.len() <= usize::MAX,
                j <= needle@.len(),
                ok ==> forall|m: int| 0 <= m < j ==> hay@[i + m] == needle@[m],
                !ok ==> !occurs_at(hay@, needle@, i as int),
            decreases needle.len() - j,
        {
            if hay[i + j] != needle[j] {
                ok = false;
                assert(hay@.subrange(i as int, i + needle@.len())[j as int] != needle@[j as int]);
            }
            j += 1;
        }
        if ok {
            assert(hay@.subrange(i as int, i + needle@.len()) =~= needle@);
            assert(occurs_at(hay@, needle@, i as int));
            return true;
        }
        i += 1;
    }
    assert forall|k: int| !occurs_at(hay@, needle@, k) by {
        if 0 <= k && k + needle@.len() <= hay@.len() {
            assert(k < i);
        }
    }
    false
}

// ---------------------------------------------------------------------------
// Whitespace
// ---------------------------------------------------------------------------

/// The Unicode `White_Space` property, which `char::is_whitespace`,
/// `str::trim` and `str::split_whitespace` go by.
pub open spec fn is_ws(c: char) -> bool {
    let u = c as u32;
    ||| 0x09 <= u <= 0x0D
    ||| u == 0x20
    ||| u == 0x85
    ||| u == 0xA0
    ||| u == 0x1680
    ||| 0x2000 <= u <= 0x200A
    ||| u == 0x2028
    ||| u == 0x2029
    ||| u == 0x202F
    ||| u == 0x205F
    ||| u == 0x3000
}

/// Whether `c` is Unicode whitespace.
pub fn is_whitespace(c: char) -> (r: bool)
    ensures
        r == is_ws(c),
{
    let u = c as u32;
    (0x09 <= u && u <= 0x0D) || u == 0x20 || u == 0x85 || u == 0xA0 || u == 0x1680 || (0x2000
        <= u && u <= 0x200A) || u == 0x2028 || u == 0x2029 || u == 0x202F || u == 0x205F || u
        == 0x3000
}

/// `s` without leading whitespace.
pub open spec fn trim_start(s: Seq<char>) -> Seq<char>
    decreases s.len(),
{
    if s.len() > 0 && is_ws(s[0]) {
        trim_start(s.drop_first())
    } else {
        s
    }
}

/// `s` without trailing whitespace.
pub open spec fn trim_end(s: Seq<char>) -> Seq<char>
    decreases s.len(),
{
    if s.len() > 0 && is_ws(s.last()) {
        trim_end(s.drop_last())
    } else {
        s
    }
}

/// `s` without leading and trailing whitespace (`str::trim`).
pub open spec fn trim(s: Seq<char>) -> Seq<char> {
    trim_end(trim_start(s))
}

/// Removes leading and trailing whitespace.
pub fn trim_chars(s: &Vec<char>) -> (r: Vec<char>)
    ensures
        r@ == trim(s@),
{
    let mut i: usize = 0;
    assert(s@.skip(0) =~= s@);
    while i < s.len() && is_whitespace(s[i])
        invariant
            i <= s@.len(),
            trim_start(s@) == trim_start(s@.skip(i as int)),
        decreases s.len() - i,
    {
        assert(s@.skip(i as int).drop_first() =~= s@.skip(i + 1));
        i += 1;
    }
    let ghost t = s@.skip(i as int);
    assert(trim_start(t) == t);
    let mut j: usize = s.len();
    while j > i && is_whitespace(s[j - 1])
        invariant
            i <= j <= s@.len(),
            t == s@.skip(i as int),
            trim_end(t) == trim_end(s@.subrange(i as int, j as int)),
        decreases j,
    {
        assert(s@.subrange(i as int, j as int).drop_last() =~= s@.subrange(i as int, j - 1));
        j -= 1;
    }
    assert(trim_end(s@.subrange(i as int, j as int)) == s@.subrange(i as int, j as int));
    assert(s@.skip(i as int) =~= s@.subrange(i as int, s@.len() as int));
    copy_range(s, i, j)
}

/// Length of the run of non-whitespace characters that starts `s`.
pub open spec fn word_len(s: Seq<char>) -> nat
    decreases s.len(),
{
    if s.len() == 0 || is_ws(s[0]) {
        0
    } else {
        1 + word_len(s.drop_first())
    }
}

/// The maximal runs of non-whitespace characters of `s`, in order
/// (`str::split_whitespace`).
pub open spec fn words(s: Seq<char>) -> Seq<Seq<char>>
    decreases s.len(),
{
    if s.len() == 0 {
        seq![]
    } else if is_ws(s[0]) {
        words(s.drop_first())
    } else {
        let k = word_len(s);
        proof {
            lemma_word_len_bounds(s);
        }
        seq![s.take(k as int)] + words(s.skip(k as int))
    }
}

/// `word_len` is positive on a non-whitespace start and never exceeds the length.
pub proof fn lemma_word_len_bounds(s: Seq<char>)
    ensures
        word_len(s) <= s.len(),
        s.len() > 0 && !is_ws(s[0]) ==> word_len(s) > 0,
        forall|m: int| 0 <= m < word_len(s) ==> !is_ws(#[trigger] s[m]),
        word_len(s) < s.len() ==> is_ws(s[word_len(s) as int]),
    decreases s.len(),
{
    if s.len() > 0 && !is_ws(s[0]) {
        lemma_word_len_bounds(s.drop_first());
        assert forall|m: int| 0 <= m < word_len(s) implies !is_ws(#[trigger] s[m]) by {
            if m > 0 {
                assert(s[m] == s.drop_first()[m - 1]);
            }
        }
    }
}

/// Text that follows a word's end (or is whitespace-led) does not lengthen
/// the word at the start.
proof fn lemma_word_len_append(a: Seq<char>, t: Seq<char>)
    requires
        t.len() == 0 || is_ws(t[0]),
    ensures
        word_len(a + t) == word_len(a),
    decreases a.len(),
{
    if a.len() == 0 {
        assert(a + t =~= t);
    } else {
        assert((a + t)[0] == a[0]);
        if !is_ws(a[0]) {
            assert((a + t).drop_first() =~= a.drop_first() + t);
            lemma_word_len_append(a.drop_first(), t);
        }
    }
}

/// The words of two texts joined by a whitespace character are the words of
/// the first followed by those of the second.
pub proof fn lemma_words_join(a: Seq<char>, c: char, b: Seq<char>)
    requires
        is_ws(c),
    ensures
        words(a + seq![c] + b) == words(a) + words(b),
    decreases a.len(),
{
    let s = a + seq![c] + b;
    if a.len() == 0 {
        assert(s.drop_first() =~= b);
        assert(words(a) =~= Seq::<Seq<char>>::empty());
        assert(words(a) + words(b) =~= words(b));
    } else if is_ws(a[0]) {
        assert(s[0] == a[0]);
        assert(s.drop_first() =~= a.drop_first() + seq![c] + b);
        lemma_words_join(a.drop_first(), c, b);
    } else {
        assert(s[0] == a[0]);
        lemma_word_len_append(a, seq![c] + b);
        assert(s =~= a + (seq![c] + b));
        lemma_word_len_bounds(a);
        let k = word_len(a) as int;
        assert(s.take(k) =~= a.take(k));
        assert(s.skip(k) =~= a.skip(k) + seq![c] + b);
        lemma_words_join(a.skip(k), c, b);
        assert(words(s) == seq![a.take(k)] + words(s.skip(k)));
        assert(words(a) == seq![a.take(k)] + words(a.skip(k)));
        assert(seq![a.take(k)] + (words(a.skip(k)) + words(b)) =~= (seq![a.take(k)] + words(
            a.skip(k),
        )) + words(b));
    }
}

/// Splits `s` into its whitespace-separated words.
pub fn split_whitespace_chars(s: &Vec<char>) -> (r: Vec<Vec<char>>)
    ensures
        r@.len() == words(s@).len(),
        forall|w: int| 0 <= w < r@.len() ==> (#[trigger] r@[w])@ == words(s@)[w],
{
    let mut r: Vec<Vec<char>> = Vec::new();
    let ghost done: Seq<Seq<char>> = seq![];
    let mut i: usize = 0;
    assert(s@.skip(0) =~= s@);
    assert(done + words(s@) =~= words(s@));
    while i < s.len()
        invariant
            i <= s@.len(),
            r@.len() == done.len(),
            forall|w: int| 0 <= w < r@.len() ==> (#[trigger] r@[w])@ == done[w],
            words(s@) == done + words(s@.skip(i as int)),
        decreases s.len() - i,
    {
        let ghost t = s@.skip(i as int);
        if is_whitespace(s[i]) {
            assert(t.drop_first() =~= s@.skip(i + 1));
            i += 1;
        } else {
            proof {
                lemma_word_len_bounds(t);
            }
            let mut j: usize = i;
            while j < s.len() && !is_whitespace(s[j])
                invariant
                    i <= j <= s@.len(),
                    t == s@.skip(i as int),
                    j - i <= word_len(t),
                    forall|m: int| i <= m < j ==> !is_ws(#[trigger] s@[m]),
                decreases s.len() - j,
            {
                proof {
                    lemma_word_len_bounds(t);
                    if j - i == word_len(t) {
                        assert(t[(j - i) as int] == s@[j as int]);
                    }
                }
                j += 1;
            }
            proof {
                lemma_word_len_bounds(t);
                if j - i < word_len(t) {
                    assert(!is_ws(t[(j - i) as int]));
                    assert(t[(j - i) as int] == s@[j as int]);
                }
            }
            assert(j - i == word_len(t));
            let word = copy_range(s, i, j);
            assert(t.take((j - i) as int) =~= s@.subrange(i as int, j as int));
            assert(t.skip((j - i) as int) =~= s@.skip(j as int));
            proof {
                done = done.push(word@);
            }
            r.push(word);
            assert(words(s@) == done + words(s@.skip(j as int))) by {
                assert(words(t) == seq![t.take((j - i) as int)] + words(t.skip((j - i) as int)));
            }
            i = j;
        }
    }
    assert(s@.skip(i as int) =~= Seq::<char>::empty());
    assert(done + seq![] =~= done);
    r
}

// ---------------------------------------------------------------------------
// Digits
// ---------------------------------------------------------------------------

/// The upper-case hexadecimal digit for `d` (`d < 16`).
pub open spec fn hex_digit(d: nat) -> char {
    if d == 0 {
        '0'
    } else if d == 1 {
        '1'
    } else if d == 2 {
        '2'
    } else if d == 3 {
        '3'
    } else if d == 4 {
        '4'
    } else if d == 5 {
        '5'
    } else if d == 6 {
        '6'
    } else if d == 7 {
        '7'
    } else if d == 8 {
        '8'
    } else if d == 9 {
        '9'
    } else if d == 10 {
        'A'
    } else if d == 11 {
        'B'
    } else if d == 12 {
        'C'
    } else if d == 13 {
        'D'
    } else if d == 14 {
        'E'
    } else {
        'F'
    }
}

/// The upper-case hexadecimal digit for `d`.
pub fn hex_digit_char(d: u64) -> (c: char)
    requires
        d < 16,
    ensures
        c == hex_digit(d as nat),
{
    if d == 0 {
        '0'
    } else if d == 1 {
        '1'
    } else if d == 2 {
        '2'
    } else if d == 3 {
        '3'
    } else if d == 4 {
        '4'
    } else if d == 5 {
        '5'
    } else if d == 6 {
        '6'
    } else if d == 7 {
        '7'
    } else if d == 8 {
        '8'
    } else if d == 9 {
        '9'
    } else if d == 10 {
        'A'
    } else if d == 11 {
        'B'
    } else if d == 12 {
        'C'
    } else if d == 13 {
        'D'
    } else if d == 14 {
        'E'
    } else {
        'F'
    }
}

/// `n` in upper-case hexadecimal without leading zeros (`format!("{:X}", n)`).
pub open spec fn hex_seq(n: nat) -> Seq<char>
    decreases n,
{
    if n < 16 {
        seq![hex_digit(n)]
    } else {
        hex_seq(n / 16).push(hex_digit(n % 16))
    }
}

/// `n` in decimal without leading zeros (`format!("{}", n)`).
pub open spec fn dec_seq(n: nat) -> Seq<char>
    decreases n,
{
    if n < 10 {
        seq![hex_digit(n)]
    } else {
        dec_seq(n / 10).push(hex_digit(n % 10))
    }
}

/// The lower-case hexadecimal digit for `d` (`d < 16`).
pub open spec fn hex_digit_lower(d: nat) -> char {
    if d < 10 {
        hex_digit(d)
    } else if d == 10 {
        'a'
    } else if d == 11 {
        'b'
    } else if d == 12 {
        'c'
    } else if d == 13 {
        'd'
    } else if d == 14 {
        'e'
    } else {
        'f'
    }
}

/// `n` in lower-case hexadecimal without leading zeros (`format!("{:x}", n)`).
pub open spec fn hex_lower_seq(n: nat) -> Seq<char>
    decreases n,
{
    if n < 16 {
        seq![hex_digit_lower(n)]
    } else {
        hex_lower_seq(n / 16).push(hex_digit_lower(n % 16))
    }
}

/// Upper-case hexadecimal digits of `n`.
pub fn hex_chars(n: u64) -> (r: Vec<char>)
    ensures
        r@ == hex_seq(n as nat),
    decreases n,
{
    if n < 16 {
        vec![hex_digit_char(n)]
    } else {
        let mut r = hex_chars(n / 16);
        r.push(hex_digit_char(n % 16));
        r
    }
}

/// Decimal digits of `n`.
pub fn dec_chars(n: u64) -> (r: Vec<char>)
    ensures
        r@ == dec_seq(n as nat),
    decreases n,
{
    if n < 10 {
        vec![hex_digit_char(n)]
    } else {
        let mut r = dec_chars(n / 10);
        r.push(hex_digit_char(n % 10));
        r
    }
}

/// `n` in upper-case hexadecimal (`format!("{:X}", n)`).
pub fn hex_string(n: u64) -> (s: String)
    ensures
        s@ == hex_seq(n as nat),
{
    string_from_chars(&hex_chars(n))
}

/// A byte as exactly two upper-case hexadecimal digits (`format!("{:02X}", b)`).
pub open spec fn byte_hex(b: u8) -> Seq<char> {
    seq![hex_digit((b / 16) as nat), hex_digit((b % 16) as nat)]
}

/// Bytes as two-digit upper-case hexadecimal, separated by single spaces.
pub open spec fn hex_bytes_spaced(bytes: Seq<u8>) -> Seq<char>
    decreases bytes.len(),
{
    if bytes.len() == 0 {
        seq![]
    } else if bytes.len() == 1 {
        byte_hex(bytes[0])
    } else {
        hex_bytes_spaced(bytes.drop_last()) + seq![' '] + byte_hex(bytes.last())
    }
}

/// Formats bytes as two-digit upper-case hexadecimal separated by spaces.
pub fn hex_bytes_string(bytes: &[u8]) -> (s: String)
    ensures
        s@ == hex_bytes_spaced(bytes@),
{
    let mut v: Vec<char> = Vec::new();
    let mut i: usize = 0;
    while i < bytes.len()
        invariant
            i <= bytes@.len(),
            v@ == hex_bytes_spaced(bytes@.take(i as int)),
        decreases bytes.len() - i,
    {
        let b = bytes[i];
        if i > 0 {
            v.push(' ');
        }
        v.push(hex_digit_char((b / 16) as u64));
        v.push(hex_digit_char((b % 16) as u64));
        assert(bytes@.take(i + 1).drop_last() =~= bytes@.take(i as int));
        assert(v@ =~= hex_bytes_spaced(bytes@.take(i + 1)));
        i += 1;
    }
    assert(bytes@.take(bytes@.len() as int) =~= bytes@);
    string_from_chars(&v)
}

/// Value of `c` as a digit in `radix` (`char::to_digit`, radix at most 16).
pub open spec fn digit_value(c: char, radix: nat) -> Option<nat> {
    let u = c as u32;
    if 0x30 <= u <= 0x39 && u - 0x30 < radix {
        Some((u - 0x30) as nat)
    } else if 0x61 <= u <= 0x7A && u - 0x61 + 10 < radix {
        Some((u - 0x61 + 10) as nat)
    } else if 0x41 <= u <= 0x5A && u - 0x41 + 10 < radix {
        Some((u - 0x41 + 10) as nat)
    } else {
        None
    }
}

/// Value of `c` as a digit in `radix`.
pub fn char_digit(c: char, radix: u64) -> (r: Option<u64>)
    requires
        2 <= radix <= 16,
    ensures
        match r {
            Some(d) => digit_value(c, radix as nat) == Some(d as nat) && d < radix,
            None => digit_value(c, radix as nat) is None,
        },
{
    let u = c as u32;
    if 0x30 <= u && u <= 0x39 && ((u - 0x30) as u64) < radix {
        Some((u - 0x30) as u64)
    } else if 0x61 <= u && u <= 0x7A && ((u - 0x61) as u64) + 10 < radix {
        Some((u - 0x61) as u64 + 10)
    } else if 0x41 <= u && u <= 0x5A && ((u - 0x41) as u64) + 10 < radix {
        Some((u - 0x41) as u64 + 10)
    } else {
        None
    }
}

/// Why an integer could not be parsed (the kinds of std's `ParseIntError`
/// that unsigned parsing can produce).
#[derive(Clone, Copy, Debug, PartialEq, Eq, Structural)]
pub enum IntErrorKind {
    /// The text was empty.
    Empty,
    /// A character is not a digit of the radix (or a lone sign).
    InvalidDigit,
    /// The value exceeds the target type's maximum.
    PosOverflow,
}

/// Digits read left to right: the first invalid digit or overflow wins.
pub open spec fn scan_digits(d: Seq<char>, radix: nat, max: nat) -> Result<nat, IntErrorKind>
    decreases d.len(),
{
    if d.len() == 0 {
        Ok(0)
    } else {
        match scan_digits(d.drop_last(), radix, max) {
            Err(e) => Err(e),
            Ok(v) => match digit_value(d.last(), radix) {
                None => Err(IntErrorKind::InvalidDigit),
                Some(x) => if v * radix + x > max {
                    Err(IntErrorKind::PosOverflow)
                } else {
                    Ok(v * radix + x)
                },
            },
        }
    }
}

/// Unsigned `from_str_radix`: an optional leading `+`, then digits.
pub open spec fn parse_radix(s: Seq<char>, radix: nat, max: nat) -> Result<nat, IntErrorKind> {
    if s.len() == 0 {
        Err(IntErrorKind::Empty)
    } else if s.len() == 1 && (s[0] == '+' || s[0] == '-') {
        Err(IntErrorKind::InvalidDigit)
    } else if s[0] == '+' {
        scan_digits(s.drop_first(), radix, max)
    } else {
        scan_digits(s, radix, max)
    }
}

/// Once a prefix fails, the whole scan fails the same way.
pub proof fn lemma_scan_err_extends(d: Seq<char>, k: int, radix: nat, max: nat)
    requires
        0 <= k <= d.len(),
        scan_digits(d.take(k), radix, max) is Err,
    ensures
        scan_digits(d, radix, max) == scan_digits(d.take(k), radix, max),
    decreases d.len() - k,
{
    if k < d.len() {
        assert(d.drop_last().take(k) =~= d.take(k));
        lemma_scan_err_extends(d.drop_last(), k, radix, max);
    } else {
        assert(d.take(k) =~= d);
    }
}

/// Parses `s` as an unsigned integer in `radix` no greater than `max`
/// (`u64::from_str_radix` and friends).
pub fn parse_radix_chars(s: &Vec<char>, radix: u64, max: u64) -> (r: Result<u64, IntErrorKind>)
    requires
        2 <= radix <= 16,
    ensures
        match r {
            Ok(v) => parse_radix(s@, radix as nat, max as nat) == Ok::<nat, IntErrorKind>(
                v as nat,
            ),
            Err(e) => parse_radix(s@, radix as nat, max as nat) == Err::<nat, IntErrorKind>(e),
        },
{
    if s.len() == 0 {
        return Err(IntErrorKind::Empty);
    }
    if s.len() == 1 && (s[0] == '+' || s[0] == '-') {
        return Err(IntErrorKind::InvalidDigit);
    }
    let start: usize = if s[0] == '+' {
        1
    } else {
        0
    };
    let ghost d = s@.skip(start as int);
    assert(s[0] == '+' ==> d =~= s@.drop_first());
    assert(s[0] != '+' ==> d =~= s@);
    let mut acc: u64 = 0;
    let mut i: usize = start;
    assert(d.take(0) =~= Seq::<char>::empty());
    while i < s.len()
        invariant
            2 <= radix <= 16,
            start <= i <= s@.len(),
            d == s@.skip(start as int),
            parse_radix(s@, radix as nat, max as nat) == scan_digits(d, radix as nat, max as nat),
            scan_digits(d.take(i - start), radix as nat, max as nat) == Ok::<nat, IntErrorKind>(
                acc as nat,
            ),
        decreases s.len() - i,
    {
        let ghost k: int = i - start;
        assert(d.take(k + 1).drop_last() =~= d.take(k));
        assert(d.take(k + 1).last() == s@[i as int]);
        match char_digit(s[i], radix) {
            None => {
                proof {
                    lemma_scan_err_extends(d, k + 1, radix as nat, max as nat);
                }
                return Err(IntErrorKind::InvalidDigit);
            },
            Some(x) => {
                assert((acc as int) * (radix as int) <= 0xFFFF_FFFF_FFFF_FFFF * 16) by (
                nonlinear_arith)
                    requires
                        acc <= 0xFFFF_FFFF_FFFF_FFFF,
                        radix <= 16,
                ;
                let t: u128 = (acc as u128) * (radix as u128) + (x as u128);
                if t > max as u128 {
                    proof {
                        lemma_scan_err_extends(d, k + 1, radix as nat, max as nat);
                    }
                    return Err(IntErrorKind::PosOverflow);
                }
                acc = t as u64;
            },
        }
        i += 1;
    }
    assert(d.take(i - start) =~= d);
    Ok(acc)
}

/// Facts about a single hexadecimal digit character.
pub proof fn lemma_hex_digit(d: nat)
    requires
        d < 16,
    ensures
        digit_value(hex_digit(d), 16) == Some(d),
        d < 10 ==> digit_value(hex_digit(d), 10) == Some(d),
        !is_ws(hex_digit(d)),
        hex_digit(d) != '+',
        hex_digit(d) != '-',
        hex_digit(d) != 'x',
        hex_digit(d) != 'X',
{
}

/// Every character of `hex_seq(n)` is a hexadecimal digit, and there is at
/// least one.
pub proof fn lemma_hex_seq_digits(n: nat)
    ensures
        hex_seq(n).len() >= 1,
        forall|i: int|
            0 <= i < hex_seq(n).len() ==> exists|d: nat|
                d < 16 && #[trigger] hex_seq(n)[i] == hex_digit(d),
    decreases n,
{
    if n >= 16 {
        lemma_hex_seq_digits(n / 16);
        let s = hex_seq(n);
        assert forall|i: int| 0 <= i < s.len() implies exists|d: nat|
            d < 16 && #[trigger] s[i] == hex_digit(d) by {
            if i < s.len() - 1 {
                assert(s[i] == hex_seq(n / 16)[i]);
            } else {
                assert(s[i] == hex_digit(n % 16));
            }
        }
    } else {
        assert(hex_seq(n)[0] == hex_digit(n));
    }
}

/// Reading `hex_seq(n)` back as hexadecimal gives `n`.
pub proof fn lemma_scan_hex(n: nat, max: nat)
    requires
        n <= max,
    ensures
        scan_digits(hex_seq(n), 16, max) == Ok::<nat, IntErrorKind>(n),
    decreases n,
{
    let s = hex_seq(n);
    if n < 16 {
        lemma_hex_digit(n);
        assert(s.drop_last() =~= Seq::<char>::empty());
    } else {
        lemma_scan_hex(n / 16, max);
        lemma_hex_digit(n % 16);
        assert(s.drop_last() =~= hex_seq(n / 16));
    }
}

/// Parsing the hexadecimal form of `n` gives back `n`.
pub proof fn lemma_parse_hex_seq(n: nat, max: nat)
    requires
        n <= max,
    ensures
        parse_radix(hex_seq(n), 16, max) == Ok::<nat, IntErrorKind>(n),
        trim(hex_seq(n)) == hex_seq(n),
{
    lemma_hex_seq_digits(n);
    lemma_scan_hex(n, max);
    let s = hex_seq(n);
    let d0 = choose|d: nat| d < 16 && s[0] == hex_digit(d);
    lemma_hex_digit(d0);
    let dl = choose|d: nat| d < 16 && s[s.len() - 1] == hex_digit(d);
    lemma_hex_digit(dl);
    assert(trim_start(s) == s);
    assert(trim_end(s) == s);
}

/// Facts about a single lower-case hexadecimal digit character.
pub proof fn lemma_hex_digit_lower(d: nat)
    requires
        d < 16,
    ensures
        digit_value(hex_digit_lower(d), 16) == Some(d),
        !is_ws(hex_digit_lower(d)),
        hex_digit_lower(d) != '+',
        hex_digit_lower(d) != '-',
        hex_digit_lower(d) != 'x',
        hex_digit_lower(d) != 'X',
{
    if d < 10 {
        lemma_hex_digit(d);
    }
}

/// Every character of `hex_lower_seq(n)` is a lower-case hexadecimal digit,
/// and there is at least one.
pub proof fn lemma_hex_lower_seq_digits(n: nat)
    ensures
        hex_lower_seq(n).len() >= 1,
        forall|i: int|
            0 <= i < hex_lower_seq(n).len() ==> exists|d: nat|
                d < 16 && #[trigger] hex_lower_seq(n)[i] == hex_digit_lower(d),
    decreases n,
{
    if n >= 16 {
        lemma_hex_lower_seq_digits(n / 16);
        let s = hex_lower_seq(n);
        assert forall|i: int| 0 <= i < s.len() implies exists|d: nat|
            d < 16 && #[trigger] s[i] == hex_digit_lower(d) by {
            if i < s.len() - 1 {
                assert(s[i] == hex_lower_seq(n / 16)[i]);
            } else {
                assert(s[i] == hex_digit_lower(n % 16));
            }
        }
    } else {
        assert(hex_lower_seq(n)[0] == hex_digit_lower(n));
    }
}

/// Reading `hex_lower_seq(n)` back as hexadecimal gives `n`.
pub proof fn lemma_scan_hex_lower(n: nat, max: nat)
    requires
        n <= max,
    ensures
        scan_digits(hex_lower_seq(n), 16, max) == Ok::<nat, IntErrorKind>(n),
    decreases n,
{
    let s = hex_lower_seq(n);
    if n < 16 {
        lemma_hex_digit_lower(n);
        assert(s.drop_last() =~= Seq::<char>::empty());
    } else {
        lemma_scan_hex_lower(n / 16, max);
        lemma_hex_digit_lower(n % 16);
        assert(s.drop_last() =~= hex_lower_seq(n / 16));
    }
}

/// Every character of `dec_seq(n)` is a decimal digit, and there is at
/// least one.
pub proof fn lemma_dec_seq_digits(n: nat)
    ensures
        dec_seq(n).len() >= 1,
        forall|i: int|
            0 <= i < dec_seq(n).len() ==> exists|d: nat|
                d < 10 && #[trigger] dec_seq(n)[i] == hex_digit(d),
    decreases n,
{
    if n >= 10 {
        lemma_dec_seq_digits(n / 10);
        let s = dec_seq(n);
        assert forall|i: int| 0 <= i < s.len() implies exists|d: nat|
            d < 10 && #[trigger] s[i] == hex_digit(d) by {
            if i < s.len() - 1 {
                assert(s[i] == dec_seq(n / 10)[i]);
            } else {
                assert(s[i] == hex_digit(n % 10));
            }
        }
    } else {
        assert(dec_seq(n)[0] == hex_digit(n));
    }
}

/// Reading `dec_seq(n)` back as decimal gives `n`.
pub proof fn lemma_scan_dec(n: nat, max: nat)
    requires
        n <= max,
    ensures
        scan_digits(dec_seq(n), 10, max) == Ok::<nat, IntErrorKind>(n),
    decreases n,
{
    let s = dec_seq(n);
    if n < 10 {
        lemma_hex_digit(n);
        assert(s.drop_last() =~= Seq::<char>::empty());
    } else {
        lemma_scan_dec(n / 10, max);
        lemma_hex_digit(n % 10);
        assert(s.drop_last() =~= dec_seq(n / 10));
    }
}

/// Parsing the decimal form of `n` gives back `n`.
pub proof fn lemma_parse_dec_seq(n: nat, max: nat)
    requires
        n <= max,
    ensures
        parse_radix(dec_seq(n), 10, max) == Ok::<nat, IntErrorKind>(n),
{
    lemma_dec_seq_digits(n);
    lemma_scan_dec(n, max);
    let s = dec_seq(n);
    let d0 = choose|d: nat| d < 10 && s[0] == hex_digit(d);
    lemma_hex_digit(d0);
}

} // verus!
