//! Byte patterns with wildcards: parsing them from text, and finding them in
//! a region's bytes. Also the parsing of user-entered addresses.

use vstd::prelude::*;
use crate::text::{
    byte_hex, copy_range, dec_seq, digit_value, hex_bytes_spaced, hex_digit, hex_digit_lower,
    hex_lower_seq, hex_seq, is_ws, lemma_hex_digit, lemma_hex_digit_lower,
    lemma_dec_seq_digits, lemma_hex_lower_seq_digits, lemma_hex_seq_digits, lemma_parse_dec_seq,
    lemma_parse_hex_seq, lemma_scan_hex_lower,
    lemma_words_join, parse_radix, parse_radix_chars, scan_digits, split_whitespace_chars,
    str_chars, string_from_chars, trim, trim_chars, trim_end, trim_start, word_len, words,
    IntErrorKind,
};

verus! {

// ---------------------------------------------------------------------------
// Addresses
// ---------------------------------------------------------------------------

/// `s` with every leading two-character prefix `a b` removed, repeatedly
/// (`str::trim_start_matches` with a two-character pattern).
pub open spec fn strip_prefix_all(s: Seq<char>, a: char, b: char) -> Seq<char>
    decreases s.len(),
{
    if s.len() >= 2 && s[0] == a && s[1] == b {
        strip_prefix_all(s.skip(2), a, b)
    } else {
        s
    }
}

/// The hexadecimal digits of a user-entered address: surrounding whitespace
/// removed, then every leading `0x`, then every leading `0X`.
pub open spec fn address_digits(s: Seq<char>) -> Seq<char> {
    strip_prefix_all(strip_prefix_all(trim(s), '0', 'x'), '0', 'X')
}

/// The value of a user-entered hexadecimal address.
pub open spec fn address_value(s: Seq<char>) -> Result<nat, IntErrorKind> {
    parse_radix(address_digits(s), 16, 0xFFFF_FFFF_FFFF_FFFF)
}

/// An address that could not be parsed: the text as entered and why.
#[derive(Clone, Debug)]
pub struct AddressError {
    pub text: String,
    pub kind: IntErrorKind,
}

/// Removes every leading occurrence of the two characters `a b`.
fn strip_prefix_all_chars(s: &Vec<char>, a: char, b: char) -> (r: Vec<char>)
    ensures
        r@ == strip_prefix_all(s@, a, b),
{
    let mut i: usize = 0;
    assert(s@.skip(0) =~= s@);
    while s.len() - i >= 2 && s[i] == a && s[i + 1] == b
        invariant
            i <= s@.len(),
            strip_prefix_all(s@, a, b) == strip_prefix_all(s@.skip(i as int), a, b),
        decreases s.len() - i,
    {
        assert(s@.skip(i as int).skip(2) =~= s@.skip(i + 2));
        i += 2;
    }
    assert(s@.skip(i as int) =~= s@.subrange(i as int, s@.len() as int));
    copy_range(s, i, s.len())
}

/// Parses a hexadecimal address as entered by a user: surrounding whitespace
/// and any number of `0x` and then `0X` prefixes are ignored.
pub fn parse_address(s: &str) -> (r: Result<u64, AddressError>)
    ensures
        match r {
            Ok(v) => address_value(s@) == Ok::<nat, IntErrorKind>(v as nat),
            Err(e) => address_value(s@) == Err::<nat, IntErrorKind>(e.kind) && e.text@ == s@,
        },
{
    let chars = str_chars(s);
    let trimmed = trim_chars(&chars);
    let a = strip_prefix_all_chars(&trimmed, '0', 'x');
    let b = strip_prefix_all_chars(&a, '0', 'X');
    match parse_radix_chars(&b, 16, 0xFFFF_FFFF_FFFF_FFFF) {
        Ok(v) => Ok(v),
        Err(kind) => Err(AddressError { text: string_from_chars(&chars), kind }),
    }
}

/// Digits that hold no whitespace and no `x`/`X` read as an address the same
/// way bare and behind a `0x` or `0X` prefix.
proof fn lemma_address_digits_prefixed(s: Seq<char>, n: nat)
    requires
        s.len() >= 1,
        forall|i: int| 0 <= i < s.len() ==> !is_ws(#[trigger] s[i]) && s[i] != 'x' && s[i] != 'X',
        parse_radix(s, 16, 0xFFFF_FFFF_FFFF_FFFF) == Ok::<nat, IntErrorKind>(n),
    ensures
        address_value(s) == Ok::<nat, IntErrorKind>(n),
        address_value(seq!['0', 'x'] + s) == Ok::<nat, IntErrorKind>(n),
        address_value(seq!['0', 'X'] + s) == Ok::<nat, IntErrorKind>(n),
{
    assert(!is_ws(s[0]));
    assert(!is_ws(s[s.len() - 1]));
    assert(trim_start(s) == s);
    assert(trim_end(s) == s);
    assert(s.len() >= 2 ==> s[1] != 'x' && s[1] != 'X');
    assert(strip_prefix_all(s, '0', 'x') == s);
    assert(strip_prefix_all(s, '0', 'X') == s);
    let px = seq!['0', 'x'] + s;
    let pu = seq!['0', 'X'] + s;
    assert(!is_ws('0'));
    assert(px[0] == '0' && px[1] == 'x' && px.last() == s.last());
    assert(pu[0] == '0' && pu[1] == 'X' && pu.last() == s.last());
    assert(trim_start(px) == px);
    assert(trim_end(px) == px);
    assert(trim_start(pu) == pu);
    assert(trim_end(pu) == pu);
    assert(px.skip(2) =~= s);
    assert(pu.skip(2) =~= s);
    assert(strip_prefix_all(px, '0', 'x') == s);
    assert(strip_prefix_all(pu, '0', 'x') == pu);
    assert(strip_prefix_all(pu, '0', 'X') == s);
}

/// A formatted address reads back as itself: as a stored base address, and
/// as user input in upper- or lower-case hexadecimal, bare or behind a `0x`
/// or `0X` prefix.
pub proof fn lemma_address_roundtrip(n: u64)
    ensures
        address_value(hex_seq(n as nat)) == Ok::<nat, IntErrorKind>(n as nat),
        address_value(seq!['0', 'x'] + hex_seq(n as nat)) == Ok::<nat, IntErrorKind>(n as nat),
        address_value(seq!['0', 'X'] + hex_seq(n as nat)) == Ok::<nat, IntErrorKind>(n as nat),
        address_value(hex_lower_seq(n as nat)) == Ok::<nat, IntErrorKind>(n as nat),
        address_value(seq!['0', 'x'] + hex_lower_seq(n as nat)) == Ok::<nat, IntErrorKind>(
            n as nat,
        ),
        address_value(seq!['0', 'X'] + hex_lower_seq(n as nat)) == Ok::<nat, IntErrorKind>(
            n as nat,
        ),
        stored_address(hex_seq(n as nat)) == n as nat,
{
    let s = hex_seq(n as nat);
    lemma_parse_hex_seq(n as nat, 0xFFFF_FFFF_FFFF_FFFF);
    lemma_hex_seq_digits(n as nat);
    assert forall|i: int| 0 <= i < s.len() implies !is_ws(#[trigger] s[i]) && s[i] != 'x' && s[i]
        != 'X' by {
        let d = choose|d: nat| d < 16 && s[i] == hex_digit(d);
        lemma_hex_digit(d);
    }
    lemma_address_digits_prefixed(s, n as nat);

    let l = hex_lower_seq(n as nat);
    lemma_hex_lower_seq_digits(n as nat);
    lemma_scan_hex_lower(n as nat, 0xFFFF_FFFF_FFFF_FFFF);
    assert forall|i: int| 0 <= i < l.len() implies !is_ws(#[trigger] l[i]) && l[i] != 'x' && l[i]
        != 'X' && l[i] != '+' && l[i] != '-' by {
        let d = choose|d: nat| d < 16 && l[i] == hex_digit_lower(d);
        lemma_hex_digit_lower(d);
    }
    assert(l[0] != '+' && l[0] != '-');
    assert(parse_radix(l, 16, 0xFFFF_FFFF_FFFF_FFFF) == Ok::<nat, IntErrorKind>(n as nat));
    lemma_address_digits_prefixed(l, n as nat);
}

/// Parses a region's base address as stored (plain upper-case hexadecimal);
/// text that is not a valid address reads as 0.
pub open spec fn stored_address(s: Seq<char>) -> nat {
    match parse_radix(s, 16, 0xFFFF_FFFF_FFFF_FFFF) {
        Ok(v) => v,
        Err(_) => 0,
    }
}

/// The value of a stored base address, 0 when it does not parse.
pub fn parse_stored_address(s: &String) -> (r: u64)
    ensures
        r as nat == stored_address(s@),
{
    let chars = str_chars(s.as_str());
    match parse_radix_chars(&chars, 16, 0xFFFF_FFFF_FFFF_FFFF) {
        Ok(v) => v,
        Err(_) => 0,
    }
}

// ---------------------------------------------------------------------------
// Pattern text
// ---------------------------------------------------------------------------

/// What went wrong in a pattern.
#[derive(Clone, Copy, Debug, PartialEq, Eq, Structural)]
pub enum PatternErrorKind {
    /// The pattern text holds no token at all.
    NoTokens,
    /// Two characters that do not form a hexadecimal byte.
    InvalidByte(IntErrorKind),
    /// A token ends in a single leftover character.
    IncompleteHex,
    /// The pattern parsed to no element.
    EmptyPattern,
}

/// A pattern error: its kind and the text it concerns (the offending byte
/// text, the offending token, or nothing).
#[derive(Clone, Debug)]
pub struct PatternError {
    pub kind: PatternErrorKind,
    pub text: String,
}

/// A pattern parse outcome, as the contracts speak of it.
pub type PatternOutcome = Result<Seq<Option<u8>>, (PatternErrorKind, Seq<char>)>;

/// The first `}` at or after position `i`.
pub open spec fn first_close(t: Seq<char>, i: int) -> Option<int>
    decreases t.len() - i,
{
    if i < 0 || i >= t.len() {
        None
    } else if t[i] == '}' {
        Some(i)
    } else {
        first_close(t, i + 1)
    }
}

/// `first_close` finds a `}` at or after `i`, and none before it.
pub proof fn lemma_first_close(t: Seq<char>, i: int)
    ensures
        first_close(t, i) matches Some(j) ==> i <= j < t.len() && t[j] == '}' && forall|k: int|
            i <= k < j ==> t[k] != '}',
        first_close(t, i) is None ==> forall|k: int| 0 <= i <= k < t.len() ==> t[k] != '}',
    decreases t.len() - i,
{
    if 0 <= i < t.len() && t[i] != '}' {
        lemma_first_close(t, i + 1);
    }
}

/// A `{n}` repetition starting at `i`: where it closes and its count.
pub open spec fn brace_at(t: Seq<char>, i: int) -> Option<(int, nat)> {
    if 0 <= i && t[i] == '{' && i + 2 < t.len() {
        match first_close(t, i) {
            Some(j) => match parse_radix(t.subrange(i + 1, j), 10, usize::MAX as nat) {
                Ok(n) => Some((j, n)),
                Err(_) => None,
            },
            None => None,
        }
    } else {
        None
    }
}

/// `n` wildcards.
pub open spec fn wildcards(n: nat) -> Seq<Option<u8>> {
    Seq::new(n, |k: int| None::<u8>)
}

/// `prefix` before a successful outcome; failures pass through.
pub open spec fn prepend_outcome(prefix: Seq<Option<u8>>, r: PatternOutcome) -> PatternOutcome {
    match r {
        Ok(rest) => Ok(prefix + rest),
        Err(e) => Err(e),
    }
}

/// Prepending twice is prepending the concatenation.
pub proof fn lemma_prepend_twice(a: Seq<Option<u8>>, b: Seq<Option<u8>>, r: PatternOutcome)
    ensures
        prepend_outcome(a, prepend_outcome(b, r)) == prepend_outcome(a + b, r),
{
    if let Ok(x) = r {
        assert(a + (b + x) =~= (a + b) + x);
    }
}

/// The elements of hexadecimal token `t` from position `i` on: pairs of hex
/// digits are bytes, `{n}` is `n` wildcards.
pub open spec fn token_from(t: Seq<char>, i: int) -> PatternOutcome
    decreases t.len() - i,
{
    if i < 0 || i >= t.len() {
        Ok(seq![])
    } else {
        match brace_at(t, i) {
            Some((j, n)) => {
                proof {
                    lemma_first_close(t, i);
                }
                prepend_outcome(wildcards(n), token_from(t, j + 1))
            },
            None => if i + 1 < t.len() {
                match parse_radix(seq![t[i], t[i + 1]], 16, 255) {
                    Ok(b) => prepend_outcome(seq![Some(b as u8)], token_from(t, i + 2)),
                    Err(k) => Err((PatternErrorKind::InvalidByte(k), seq![t[i], t[i + 1]])),
                }
            } else {
                Err((PatternErrorKind::IncompleteHex, t))
            },
        }
    }
}

/// The wildcard tokens `??`, `**`, `..` and `__`.
pub open spec fn is_wildcard_token(t: Seq<char>) -> bool {
    t.len() == 2 && t[0] == t[1] && (t[0] == '?' || t[0] == '*' || t[0] == '.' || t[0] == '_')
}

/// The elements one token stands for.
pub open spec fn token_value(t: Seq<char>) -> PatternOutcome {
    if is_wildcard_token(t) {
        Ok(seq![None])
    } else {
        token_from(t, 0)
    }
}

/// The elements of a sequence of tokens; the first failing token decides.
pub open spec fn tokens_value(toks: Seq<Seq<char>>) -> PatternOutcome
    decreases toks.len(),
{
    if toks.len() == 0 {
        Ok(seq![])
    } else {
        match token_value(toks[0]) {
            Err(e) => Err(e),
            Ok(v) => prepend_outcome(v, tokens_value(toks.drop_first())),
        }
    }
}

/// The pattern that text `s` denotes: its whitespace-separated tokens, in order.
pub open spec fn pattern_value(s: Seq<char>) -> PatternOutcome {
    if words(s).len() == 0 {
        Err((PatternErrorKind::NoTokens, seq![]))
    } else {
        tokens_value(words(s))
    }
}

/// The outcome that an exec result stands for.
pub open spec fn outcome_of(r: Result<Vec<Option<u8>>, PatternError>) -> PatternOutcome {
    match r {
        Ok(v) => Ok(v@),
        Err(e) => Err((e.kind, e.text@)),
    }
}

/// Token lists that each parse, one after the other, parse to the elements
/// of the first followed by those of the second.
proof fn lemma_tokens_value_append(
    u: Seq<Seq<char>>,
    v: Seq<Seq<char>>,
    x: Seq<Option<u8>>,
    y: Seq<Option<u8>>,
)
    requires
        tokens_value(u) == Ok::<Seq<Option<u8>>, (PatternErrorKind, Seq<char>)>(x),
        tokens_value(v) == Ok::<Seq<Option<u8>>, (PatternErrorKind, Seq<char>)>(y),
    ensures
        tokens_value(u + v) == Ok::<Seq<Option<u8>>, (PatternErrorKind, Seq<char>)>(x + y),
    decreases u.len(),
{
    if u.len() == 0 {
        assert(u + v =~= v);
        assert(x + y =~= y);
    } else {
        assert((u + v)[0] == u[0]);
        assert((u + v).drop_first() =~= u.drop_first() + v);
        let first = token_value(u[0])->Ok_0;
        let rest = tokens_value(u.drop_first())->Ok_0;
        lemma_tokens_value_append(u.drop_first(), v, rest, y);
        assert(x == first + rest);
        assert(first + (rest + y) =~= x + y);
    }
}

/// Two patterns that each parse, joined by whitespace, parse to the elements
/// of the first followed by those of the second.
pub proof fn lemma_pattern_join(
    a: Seq<char>,
    c: char,
    b: Seq<char>,
    x: Seq<Option<u8>>,
    y: Seq<Option<u8>>,
)
    requires
        is_ws(c),
        pattern_value(a) == Ok::<Seq<Option<u8>>, (PatternErrorKind, Seq<char>)>(x),
        pattern_value(b) == Ok::<Seq<Option<u8>>, (PatternErrorKind, Seq<char>)>(y),
    ensures
        pattern_value(a + seq![c] + b) == Ok::<Seq<Option<u8>>, (PatternErrorKind, Seq<char>)>(
            x + y,
        ),
{
    lemma_words_join(a, c, b);
    lemma_tokens_value_append(words(a), words(b), x, y);
}

/// Position of the first `}` at or after `i`, if any.
fn find_close(t: &Vec<char>, i: usize) -> (r: Option<usize>)
    requires
        i <= t@.len(),
    ensures
        match r {
            Some(j) => first_close(t@, i as int) == Some(j as int),
            None => first_close(t@, i as int) is None,
        },
{
    let mut k = i;
    while k < t.len()
        invariant
            i <= k <= t@.len(),
            first_close(t@, i as int) == first_close(t@, k as int),
        decreases t.len() - k,
    {
        if t[k] == '}' {
            return Some(k);
        }
        k += 1;
    }
    None
}

/// The `{n}` repetition at `i`, if there is one.
fn brace_at_exec(t: &Vec<char>, i: usize) -> (r: Option<(usize, u64)>)
    requires
        i < t@.len(),
    ensures
        match r {
            Some((j, n)) => brace_at(t@, i as int) == Some((j as int, n as nat)) && n <= usize::MAX,
            None => brace_at(t@, i as int) is None,
        },
{
    if t[i] == '{' && t.len() > 2 && i < t.len() - 2 {
        match find_close(t, i) {
            Some(j) => {
                proof {
                    lemma_first_close(t@, i as int);
                }
                let num = copy_range(t, i + 1, j);
                match parse_radix_chars(&num, 10, usize::MAX as u64) {
                    Ok(n) => Some((j, n)),
                    Err(_) => None,
                }
            },
            None => None,
        }
    } else {
        None
    }
}

/// Parses one hexadecimal token: pairs of hex digits are bytes, and `{n}`
/// (with `n` in decimal) stands for `n` wildcards.
pub fn parse_hex_token(t: &str) -> (r: Result<Vec<Option<u8>>, PatternError>)
    ensures
        outcome_of(r) == token_from(t@, 0),
{
    let chars = str_chars(t);
    parse_hex_token_chars(&chars)
}

fn parse_hex_token_chars(t: &Vec<char>) -> (r: Result<Vec<Option<u8>>, PatternError>)
    ensures
        outcome_of(r) == token_from(t@, 0),
{
    let mut res: Vec<Option<u8>> = Vec::new();
    let mut i: usize = 0;
    while i < t.len()
        invariant
            i <= t@.len(),
            token_from(t@, 0) == prepend_outcome(res@, token_from(t@, i as int)),
        decreases t.len() - i,
    {
        let ghost old_res = res@;
        match brace_at_exec(t, i) {
            Some((j, n)) => {
                proof {
                    lemma_first_close(t@, i as int);
                }
                let mut k: u64 = 0;
                while k < n
                    invariant
                        k <= n,
                        res@ == old_res + wildcards(k as nat),
                        token_from(t@, 0) == prepend_outcome(old_res, token_from(t@, i as int)),
                    decreases n - k,
                {
                    res.push(None);
                    k += 1;
                    assert(res@ =~= old_res + wildcards(k as nat));
                }
                proof {
                    lemma_prepend_twice(old_res, wildcards(n as nat), token_from(t@, j + 1));
                }
                assert(token_from(t@, i as int) == prepend_outcome(
                    wildcards(n as nat),
                    token_from(t@, j + 1),
                ));
                assert(token_from(t@, 0) == prepend_outcome(old_res, token_from(t@, i as int)));
                assert(res@ == old_res + wildcards(n as nat));
                assert(token_from(t@, 0) == prepend_outcome(res@, token_from(t@, j + 1)));
                i = j + 1;
            },
            None => {
                if i + 1 < t.len() {
                    let pair = vec![t[i], t[i + 1]];
                    assert(pair@ =~= seq![t@[i as int], t@[i + 1]]);
                    match parse_radix_chars(&pair, 16, 255) {
                        Ok(b) => {
                            res.push(Some(b as u8));
                            proof {
                                lemma_prepend_twice(
                                    old_res,
                                    seq![Some(b as u8)],
                                    token_from(t@, i + 2),
                                );
                            }
                            assert(token_from(t@, i as int) == prepend_outcome(
                                seq![Some(b as u8)],
                                token_from(t@, i + 2),
                            ));
                            assert(res@ == old_res + seq![Some(b as u8)]);
                            assert(token_from(t@, 0) == prepend_outcome(res@, token_from(t@, i + 2)));
                            i += 2;
                        },
                        Err(kind) => {
                            return Err(
                                PatternError {
                                    kind: PatternErrorKind::InvalidByte(kind),
                                    text: string_from_chars(&pair),
                                },
                            );
                        },
                    }
                } else {
                    return Err(
                        PatternError {
                            kind: PatternErrorKind::IncompleteHex,
                            text: string_from_chars(t),
                        },
                    );
                }
            },
        }
    }
    assert(res@ + seq![] =~= res@);
    assert(token_from(t@, i as int) == Ok::<Seq<Option<u8>>, (PatternErrorKind, Seq<char>)>(seq![]));
    Ok(res)
}

/// A `}` found in a token is found at the same place when more text follows.
proof fn lemma_first_close_prefix(a: Seq<char>, b: Seq<char>, i: int)
    requires
        first_close(a, i) is Some,
    ensures
        first_close(a + b, i) == first_close(a, i),
    decreases a.len() - i,
{
    lemma_first_close(a, i);
    if 0 <= i < a.len() && a[i] != '}' {
        lemma_first_close_prefix(a, b, i + 1);
    }
}

/// Looking for a `}` in text that follows a prefix finds it shifted by the
/// prefix's length.
proof fn lemma_first_close_shift(a: Seq<char>, b: Seq<char>, j: int)
    requires
        0 <= j,
    ensures
        first_close(a + b, a.len() + j) == match first_close(b, j) {
            Some(k) => Some(k + a.len()),
            None => None::<int>,
        },
    decreases b.len() - j,
{
    if j < b.len() {
        assert((a + b)[a.len() + j] == b[j]);
        if b[j] != '}' {
            lemma_first_close_shift(a, b, j + 1);
        }
    }
}

/// A token parses the same way when a prefix stands before it, as long as
/// it parses at all.
proof fn lemma_token_from_shift(a: Seq<char>, b: Seq<char>, j: int)
    requires
        0 <= j,
        token_from(b, j) is Ok,
    ensures
        token_from(a + b, a.len() + j) == token_from(b, j),
    decreases b.len() - j,
{
    let t = a + b;
    let i = a.len() + j;
    if j < b.len() {
        assert(t[i] == b[j]);
        lemma_first_close_shift(a, b, j);
        lemma_first_close(b, j);
        match first_close(b, j) {
            Some(k) => {
                if b[j] == '{' {
                    assert(t.subrange(i + 1, k + a.len()) =~= b.subrange(j + 1, k));
                }
            },
            None => {},
        }
        assert(brace_at(t, i) == match brace_at(b, j) {
            Some((k, n)) => Some((k + a.len(), n)),
            None => None::<(int, nat)>,
        });
        match brace_at(b, j) {
            Some((k, n)) => {
                lemma_token_from_shift(a, b, k + 1);
                assert(a.len() + (k + 1) == k + a.len() + 1);
            },
            None => {
                if j + 1 < b.len() {
                    assert(t[i + 1] == b[j + 1]);
                    assert(seq![t[i], t[i + 1]] =~= seq![b[j], b[j + 1]]);
                    if parse_radix(seq![b[j], b[j + 1]], 16, 255) is Ok {
                        lemma_token_from_shift(a, b, j + 2);
                        assert(a.len() + (j + 2) == i + 2);
                    }
                }
            },
        }
    }
}

/// A `{` cannot start a hexadecimal byte.
proof fn lemma_brace_not_byte(c: char)
    ensures
        parse_radix(seq!['{', c], 16, 255) is Err,
{
    let s = seq!['{', c];
    assert(s.drop_last() =~= seq!['{']);
    assert(seq!['{'].drop_last() =~= Seq::<char>::empty());
    assert(digit_value('{', 16) is None);
    assert(scan_digits(seq!['{'], 16, 255) is Err);
}

/// A token that parses from `i` on parses the same way with more text after
/// it, followed by what that text parses to.
proof fn lemma_token_from_append(
    a: Seq<char>,
    b: Seq<char>,
    i: int,
    x: Seq<Option<u8>>,
    y: Seq<Option<u8>>,
)
    requires
        0 <= i <= a.len(),
        token_from(a, i) == Ok::<Seq<Option<u8>>, (PatternErrorKind, Seq<char>)>(x),
        token_from(b, 0) == Ok::<Seq<Option<u8>>, (PatternErrorKind, Seq<char>)>(y),
    ensures
        token_from(a + b, i) == Ok::<Seq<Option<u8>>, (PatternErrorKind, Seq<char>)>(x + y),
    decreases a.len() - i,
{
    let t = a + b;
    if i == a.len() {
        lemma_token_from_shift(a, b, 0);
        assert(x =~= Seq::<Option<u8>>::empty());
        assert(x + y =~= y);
    } else {
        assert(t[i] == a[i]);
        lemma_first_close(a, i);
        match brace_at(a, i) {
            Some((k, n)) => {
                lemma_first_close_prefix(a, b, i);
                assert(t.subrange(i + 1, k) =~= a.subrange(i + 1, k));
                assert(brace_at(t, i) == brace_at(a, i));
                let rest = token_from(a, k + 1)->Ok_0;
                lemma_token_from_append(a, b, k + 1, rest, y);
                assert(x == wildcards(n) + rest);
                assert(wildcards(n) + (rest + y) =~= x + y);
            },
            None => {
                if a[i] == '{' {
                    lemma_brace_not_byte(a[i + 1]);
                    assert(seq![a[i], a[i + 1]] =~= seq!['{', a[i + 1]]);
                }
                assert(a[i] != '{');
                assert(brace_at(t, i) is None);
                assert(i + 1 < a.len());
                assert(t[i + 1] == a[i + 1]);
                assert(seq![t[i], t[i + 1]] =~= seq![a[i], a[i + 1]]);
                let b0 = parse_radix(seq![a[i], a[i + 1]], 16, 255)->Ok_0;
                let rest = token_from(a, i + 2)->Ok_0;
                lemma_token_from_append(a, b, i + 2, rest, y);
                assert(x == seq![Some(b0 as u8)] + rest);
                assert(seq![Some(b0 as u8)] + (rest + y) =~= x + y);
            },
        }
    }
}

/// Two hexadecimal tokens that each parse, written one after the other,
/// parse to the elements of the first followed by those of the second.
pub proof fn lemma_token_concat(a: Seq<char>, b: Seq<char>, x: Seq<Option<u8>>, y: Seq<Option<u8>>)
    requires
        token_from(a, 0) == Ok::<Seq<Option<u8>>, (PatternErrorKind, Seq<char>)>(x),
        token_from(b, 0) == Ok::<Seq<Option<u8>>, (PatternErrorKind, Seq<char>)>(y),
    ensures
        token_from(a + b, 0) == Ok::<Seq<Option<u8>>, (PatternErrorKind, Seq<char>)>(x + y),
{
    lemma_token_from_append(a, b, 0, x, y);
}

/// A repetition `{n}` with `n` written in decimal stands for exactly `n`
/// wildcards.
pub proof fn lemma_brace_decimal_count(n: nat)
    requires
        n <= usize::MAX,
    ensures
        token_from(seq!['{'] + dec_seq(n) + seq!['}'], 0) == Ok::<
            Seq<Option<u8>>,
            (PatternErrorKind, Seq<char>),
        >(wildcards(n)),
{
    let d = dec_seq(n);
    let t = seq!['{'] + d + seq!['}'];
    let j = t.len() - 1;
    lemma_dec_seq_digits(n);
    lemma_parse_dec_seq(n, usize::MAX as nat);
    assert forall|k: int| 0 <= k < d.len() implies #[trigger] d[k] != '}' by {
        let x = choose|x: nat| x < 10 && d[k] == hex_digit(x);
        lemma_hex_digit(x);
    }
    assert forall|k: int| 0 <= k < j implies t[k] != '}' by {
        if k > 0 {
            assert(t[k] == d[k - 1]);
        }
    }
    assert(t[j] == '}');
    lemma_first_close(t, 0);
    assert(first_close(t, 0) == Some(j)) by {
        if first_close(t, 0) is None {
            assert(t[j] != '}');
        } else {
            let c = first_close(t, 0)->0;
            if c < j {
                assert(t[c] != '}');
            }
            if c > j {
                assert(t[j] != '}');
            }
        }
    }
    assert(t.subrange(1, j) =~= d);
    assert(brace_at(t, 0) == Some((j, n)));
    assert(token_from(t, j + 1) == Ok::<Seq<Option<u8>>, (PatternErrorKind, Seq<char>)>(seq![]));
    assert(wildcards(n) + seq![] =~= wildcards(n));
}

/// Whether `t` is one of the wildcard tokens.
fn is_wildcard_token_exec(t: &Vec<char>) -> (r: bool)
    ensures
        r == is_wildcard_token(t@),
{
    t.len() == 2 && t[0] == t[1] && (t[0] == '?' || t[0] == '*' || t[0] == '.' || t[0] == '_')
}

/// Parses a pattern: whitespace-separated tokens, each a wildcard (`??`,
/// `**`, `..`, `__`) or a hexadecimal token (see `parse_hex_token`).
pub fn parse_pattern(s: &str) -> (r: Result<Vec<Option<u8>>, PatternError>)
    ensures
        outcome_of(r) == pattern_value(s@),
{
    let chars = str_chars(s);
    let tokens = split_whitespace_chars(&chars);
    let ghost toks = words(chars@);
    if tokens.len() == 0 {
        return Err(PatternError { kind: PatternErrorKind::NoTokens, text: String::new() });
    }
    let mut result: Vec<Option<u8>> = Vec::new();
    let mut i: usize = 0;
    assert(toks.skip(0) =~= toks);
    while i < tokens.len()
        invariant
            i <= tokens@.len(),
            tokens@.len() == toks.len(),
            toks == words(s@),
            forall|w: int| 0 <= w < tokens@.len() ==> (#[trigger] tokens@[w])@ == toks[w],
            tokens_value(toks) == prepend_outcome(result@, tokens_value(toks.skip(i as int))),
        decreases tokens.len() - i,
    {
        let tok = &tokens[i];
        assert(tok@ == toks[i as int]);
        assert(toks.skip(i as int).drop_first() =~= toks.skip(i + 1));
        assert(toks.skip(i as int)[0] == toks[i as int]);
        let ghost old_result = result@;
        if is_wildcard_token_exec(tok) {
            result.push(None);
            proof {
                lemma_prepend_twice(old_result, seq![None], tokens_value(toks.skip(i + 1)));
            }
            assert(tokens_value(toks.skip(i as int)) == prepend_outcome(
                seq![None],
                tokens_value(toks.skip(i + 1)),
            ));
            assert(result@ =~= old_result + seq![None]);
            assert(tokens_value(toks) == prepend_outcome(result@, tokens_value(toks.skip(i + 1))));
        } else {
            match parse_hex_token_chars(tok) {
                Ok(bytes) => {
                    let mut k: usize = 0;
                    while k < bytes.len()
                        invariant
                            k <= bytes@.len(),
                            result@ == old_result + bytes@.take(k as int),
                            tokens_value(toks) == prepend_outcome(
                                old_result,
                                tokens_value(toks.skip(i as int)),
                            ),
                        decreases bytes.len() - k,
                    {
                        result.push(bytes[k]);
                        k += 1;
                        assert(result@ =~= old_result + bytes@.take(k as int));
                    }
                    assert(bytes@.take(k as int) =~= bytes@);
                    proof {
                        lemma_prepend_twice(old_result, bytes@, tokens_value(toks.skip(i + 1)));
                    }
                    assert(token_value(tok@) == Ok::<Seq<Option<u8>>, (PatternErrorKind, Seq<char>)>(bytes@));
                    assert(tokens_value(toks.skip(i as int)) == prepend_outcome(
                        bytes@,
                        tokens_value(toks.skip(i + 1)),
                    ));
                    assert(result@ == old_result + bytes@);
                    assert(tokens_value(toks) == prepend_outcome(
                        result@,
                        tokens_value(toks.skip(i + 1)),
                    ));
                },
                Err(e) => {
                    return Err(e);
                },
            }
        }
        i += 1;
    }
    assert(toks.skip(i as int) =~= Seq::<Seq<char>>::empty());
    assert(result@ + seq![] =~= result@);
    Ok(result)
}

/// Spaced hexadecimal is built front to back as well: the first byte, a
/// space, then the rest.
proof fn lemma_hex_bytes_spaced_front(b: Seq<u8>)
    requires
        b.len() >= 2,
    ensures
        hex_bytes_spaced(b) == byte_hex(b[0]) + seq![' '] + hex_bytes_spaced(b.drop_first()),
    decreases b.len(),
{
    if b.len() == 2 {
        assert(b.drop_last()[0] == b[0]);
        assert(b.drop_first()[0] == b[1]);
        assert(hex_bytes_spaced(b.drop_last()) == byte_hex(b[0]));
        assert(hex_bytes_spaced(b.drop_first()) == byte_hex(b[1]));
        assert(b.last() == b[1]);
        assert(hex_bytes_spaced(b) == hex_bytes_spaced(b.drop_last()) + seq![' '] + byte_hex(
            b.last(),
        ));
    } else {
        lemma_hex_bytes_spaced_front(b.drop_last());
        assert(b.drop_last().drop_first() =~= b.drop_first().drop_last());
        assert(b.drop_first().last() == b.last());
        assert(b.drop_last()[0] == b[0]);
        let head = byte_hex(b[0]) + seq![' '];
        let mid = hex_bytes_spaced(b.drop_first().drop_last());
        let tail = seq![' '] + byte_hex(b.last());
        assert(hex_bytes_spaced(b.drop_first()) == mid + seq![' '] + byte_hex(b.last()));
        assert(hex_bytes_spaced(b.drop_last()) == head + mid);
        assert(head + mid + tail =~= head + (mid + tail));
        assert(mid + tail =~= mid + seq![' '] + byte_hex(b.last()));
        assert(hex_bytes_spaced(b) =~= head + mid + tail);
    }
}

/// A run of non-whitespace characters followed by the end or by whitespace
/// is one word long.
proof fn lemma_word_len_prefix(w: Seq<char>, t: Seq<char>)
    requires
        forall|k: int| 0 <= k < w.len() ==> !is_ws(#[trigger] w[k]),
        t.len() == 0 || is_ws(t[0]),
    ensures
        word_len(w + t) == w.len(),
    decreases w.len(),
{
    if w.len() > 0 {
        assert((w + t)[0] == w[0]);
        assert((w + t).drop_first() =~= w.drop_first() + t);
        lemma_word_len_prefix(w.drop_first(), t);
    } else {
        assert(w + t =~= t);
    }
}

/// The words of spaced hexadecimal are the bytes' two-digit forms.
proof fn lemma_words_hex_bytes(b: Seq<u8>)
    ensures
        words(hex_bytes_spaced(b)) == Seq::new(b.len(), |i: int| byte_hex(b[i])),
    decreases b.len(),
{
    let target = Seq::new(b.len(), |i: int| byte_hex(b[i]));
    if b.len() == 0 {
        assert(words(hex_bytes_spaced(b)) =~= target);
    } else {
        let w = byte_hex(b[0]);
        lemma_hex_digit((b[0] / 16) as nat);
        lemma_hex_digit((b[0] % 16) as nat);
        let rest: Seq<char> = if b.len() == 1 {
            seq![]
        } else {
            seq![' '] + hex_bytes_spaced(b.drop_first())
        };
        if b.len() >= 2 {
            lemma_hex_bytes_spaced_front(b);
            assert(hex_bytes_spaced(b) =~= w + rest);
        } else {
            assert(hex_bytes_spaced(b) =~= w + rest);
        }
        let s = w + rest;
        lemma_word_len_prefix(w, rest);
        assert(s.take(2) =~= w);
        assert(s.skip(2) =~= rest);
        assert(words(s) == seq![w] + words(rest));
        lemma_words_hex_bytes(b.drop_first());
        if b.len() >= 2 {
            assert(rest.drop_first() =~= hex_bytes_spaced(b.drop_first()));
            assert(words(rest) == words(hex_bytes_spaced(b.drop_first())));
        } else {
            assert(words(rest) =~= Seq::<Seq<char>>::empty());
            assert(b.drop_first().len() == 0);
        }
        assert(words(s) =~= target);
    }
}

/// A byte's two-digit form, as a token, stands for that byte.
proof fn lemma_byte_token(b: u8)
    ensures
        token_value(byte_hex(b)) == Ok::<Seq<Option<u8>>, (PatternErrorKind, Seq<char>)>(
            seq![Some(b)],
        ),
{
    let t = byte_hex(b);
    let hi = (b / 16) as nat;
    let lo = (b % 16) as nat;
    lemma_hex_digit(hi);
    lemma_hex_digit(lo);
    assert(t.drop_last() =~= seq![hex_digit(hi)]);
    assert(seq![hex_digit(hi)].drop_last() =~= Seq::<char>::empty());
    assert(hi * 16 + lo == b);
    assert(scan_digits(Seq::<char>::empty(), 16, 255) == Ok::<nat, IntErrorKind>(0));
    assert(scan_digits(seq![hex_digit(hi)], 16, 255) == Ok::<nat, IntErrorKind>(hi));
    assert(t.last() == hex_digit(lo));
    assert(scan_digits(t, 16, 255) == Ok::<nat, IntErrorKind>(b as nat));
    assert(parse_radix(t, 16, 255) == Ok::<nat, IntErrorKind>(b as nat));
    assert(seq![t[0], t[1]] =~= t);
    assert(brace_at(t, 0) is None);
    assert(token_from(t, 2) == Ok::<Seq<Option<u8>>, (PatternErrorKind, Seq<char>)>(seq![]));
    assert(seq![Some(b)] + seq![] =~= seq![Some(b)]);
}

/// Two-digit byte tokens stand for their bytes, in order.
proof fn lemma_byte_tokens(b: Seq<u8>)
    ensures
        tokens_value(Seq::new(b.len(), |i: int| byte_hex(b[i]))) == Ok::<
            Seq<Option<u8>>,
            (PatternErrorKind, Seq<char>),
        >(Seq::new(b.len(), |i: int| Some(b[i]))),
    decreases b.len(),
{
    let toks = Seq::new(b.len(), |i: int| byte_hex(b[i]));
    if b.len() > 0 {
        lemma_byte_token(b[0]);
        lemma_byte_tokens(b.drop_first());
        assert(toks.drop_first() =~= Seq::new(
            b.drop_first().len(),
            |i: int| byte_hex(b.drop_first()[i]),
        ));
        assert(seq![Some(b[0])] + Seq::new(b.drop_first().len(), |i: int| Some(b.drop_first()[i]))
            =~= Seq::new(b.len(), |i: int| Some(b[i])));
    } else {
        assert(Seq::new(b.len(), |i: int| Some(b[i])) =~= Seq::<Option<u8>>::empty());
    }
}

/// Bytes shown as spaced two-digit hexadecimal, the way a scan shows the
/// context of a match, read back as a pattern of exactly those bytes.
pub proof fn lemma_hex_bytes_pattern_roundtrip(b: Seq<u8>)
    requires
        b.len() > 0,
    ensures
        pattern_value(hex_bytes_spaced(b)) == Ok::<
            Seq<Option<u8>>,
            (PatternErrorKind, Seq<char>),
        >(Seq::new(b.len(), |i: int| Some(b[i]))),
{
    lemma_words_hex_bytes(b);
    lemma_byte_tokens(b);
}

// ---------------------------------------------------------------------------
// Searching
// ---------------------------------------------------------------------------

/// The most positions reported when a pattern has no fixed byte.
pub const MAX_WILDCARD_HITS: usize = 5000;

/// `pattern` matches `data` at `pos`: it fits, and every fixed byte agrees.
pub open spec fn matches_at(data: Seq<u8>, pattern: Seq<Option<u8>>, pos: int) -> bool {
    &&& 0 <= pos
    &&& pos + pattern.len() <= data.len()
    &&& forall|k: int|
        0 <= k < pattern.len() ==> (#[trigger] pattern[k] matches Some(b) ==> data[pos + k] == b)
}

/// Index of the first fixed (non-wildcard) element at or after `i`.
pub open spec fn first_fixed_from(pattern: Seq<Option<u8>>, i: int) -> Option<int>
    decreases pattern.len() - i,
{
    if i < 0 || i >= pattern.len() {
        None
    } else if pattern[i] is Some {
        Some(i)
    } else {
        first_fixed_from(pattern, i + 1)
    }
}

/// Index of the first fixed element of `pattern`.
pub open spec fn first_fixed(pattern: Seq<Option<u8>>) -> Option<int> {
    first_fixed_from(pattern, 0)
}

/// `first_fixed_from` finds the first fixed element at or after `i`.
pub proof fn lemma_first_fixed_from(pattern: Seq<Option<u8>>, i: int)
    requires
        0 <= i,
    ensures
        first_fixed_from(pattern, i) matches Some(f) ==> i <= f < pattern.len()
            && pattern[f] is Some && forall|k: int| i <= k < f ==> pattern[k] is None,
        first_fixed_from(pattern, i) is None ==> forall|k: int|
            i <= k < pattern.len() ==> pattern[k] is None,
    decreases pattern.len() - i,
{
    if i < pattern.len() && pattern[i] is None {
        lemma_first_fixed_from(pattern, i + 1);
    }
}

/// The byte the search looks for: the first fixed element.
pub open spec fn anchor_byte(pattern: Seq<Option<u8>>, ff: int) -> u8 {
    pattern[ff]->0
}

/// The last position at which the whole pattern still fits.
pub open spec fn last_start(data: Seq<u8>, pattern: Seq<Option<u8>>) -> int {
    data.len() - pattern.len()
}

/// Position `s` holds the anchor byte.
pub open spec fn is_anchor(data: Seq<u8>, pattern: Seq<Option<u8>>, ff: int, s: int) -> bool {
    0 <= s < data.len() && data[s] == anchor_byte(pattern, ff)
}

/// The search examines anchor occurrence `s`: it goes on from an occurrence
/// only while the next position still leaves room for the pattern, so it
/// examines every occurrence up to and including the first one at or past
/// `last_start`.
pub open spec fn examined(data: Seq<u8>, pattern: Seq<Option<u8>>, ff: int, s: int) -> bool {
    &&& is_anchor(data, pattern, ff, s)
    &&& forall|t: int| 0 <= t < s && is_anchor(data, pattern, ff, t) ==> t < last_start(data, pattern)
}

/// Where the search checks for a match around anchor occurrence `s`: the
/// anchor's offset is subtracted when it fits, else `s` itself is used.
pub open spec fn candidate(ff: int, s: int) -> int {
    if s >= ff {
        s - ff
    } else {
        s
    }
}

/// Anchor occurrence `s` yields a reported position.
pub open spec fn reports(data: Seq<u8>, pattern: Seq<Option<u8>>, ff: int, s: int) -> bool {
    &&& examined(data, pattern, ff, s)
    &&& matches_at(data, pattern, candidate(ff, s))
}

/// The positions reported for the anchor occurrences below `n`, in order.
pub open spec fn anchored_hits(data: Seq<u8>, pattern: Seq<Option<u8>>, ff: int, n: int) -> Seq<usize>
    decreases n,
{
    if n <= 0 {
        seq![]
    } else if reports(data, pattern, ff, n - 1) {
        anchored_hits(data, pattern, ff, n - 1).push(candidate(ff, n - 1) as usize)
    } else {
        anchored_hits(data, pattern, ff, n - 1)
    }
}

/// What `search_pattern` returns.
pub open spec fn search_result(data: Seq<u8>, pattern: Seq<Option<u8>>) -> Seq<usize> {
    if pattern.len() == 0 || data.len() < pattern.len() {
        seq![]
    } else {
        match first_fixed(pattern) {
            Some(ff) => anchored_hits(data, pattern, ff, data.len() as int),
            None => {
                let n = if last_start(data, pattern) + 1 < MAX_WILDCARD_HITS {
                    last_start(data, pattern) + 1
                } else {
                    MAX_WILDCARD_HITS as int
                };
                Seq::new(n as nat, |k: int| k as usize)
            },
        }
    }
}

/// Whether `pattern` matches `data` at `pos`.
pub fn match_at(data: &[u8], pattern: &[Option<u8>], pos: usize) -> (r: bool)
    requires
        pos + pattern@.len() <= usize::MAX,
    ensures
        r == matches_at(data@, pattern@, pos as int),
{
    if pos + pattern.len() > data.len() {
        return false;
    }
    let mut i: usize = 0;
    while i < pattern.len()
        invariant
            i <= pattern@.len(),
            pos + pattern@.len() <= data@.len(),
            data@.len() <= usize::MAX,
            forall|k: int|
                0 <= k < i ==> (#[trigger] pattern@[k] matches Some(b) ==> data@[pos + k] == b),
        decreases pattern.len() - i,
    {
        match pattern[i] {
            Some(expected) => {
                if data[pos + i] != expected {
                    return false;
                }
            },
            None => {},
        }
        i += 1;
    }
    true
}

/// Positions beyond `i` that report nothing leave the hits unchanged.
proof fn lemma_hits_unchanged(data: Seq<u8>, pattern: Seq<Option<u8>>, ff: int, i: int, n: int)
    requires
        0 <= i <= n,
        forall|s: int| i <= s < n ==> !reports(data, pattern, ff, s),
    ensures
        anchored_hits(data, pattern, ff, n) == anchored_hits(data, pattern, ff, i),
    decreases n - i,
{
    if n > i {
        lemma_hits_unchanged(data, pattern, ff, i, n - 1);
    }
}

/// Every anchored hit is a match.
proof fn lemma_anchored_sound(data: Seq<u8>, pattern: Seq<Option<u8>>, ff: int, n: int)
    requires
        data.len() <= usize::MAX,
    ensures
        forall|k: int|
            0 <= k < anchored_hits(data, pattern, ff, n).len() ==> matches_at(
                data,
                pattern,
                #[trigger] anchored_hits(data, pattern, ff, n)[k] as int,
            ),
    decreases n,
{
    if n > 0 {
        lemma_anchored_sound(data, pattern, ff, n - 1);
        let prev = anchored_hits(data, pattern, ff, n - 1);
        if reports(data, pattern, ff, n - 1) {
            let h = anchored_hits(data, pattern, ff, n);
            assert forall|k: int| 0 <= k < h.len() implies matches_at(
                data,
                pattern,
                #[trigger] h[k] as int,
            ) by {
                if k < prev.len() {
                    assert(h[k] == prev[k]);
                }
            }
        }
    }
}

/// Every reported position is a position where the pattern matches.
pub proof fn lemma_search_sound(data: Seq<u8>, pattern: Seq<Option<u8>>)
    requires
        data.len() <= usize::MAX,
    ensures
        forall|k: int|
            0 <= k < search_result(data, pattern).len() ==> matches_at(
                data,
                pattern,
                #[trigger] search_result(data, pattern)[k] as int,
            ),
{
    if pattern.len() == 0 || data.len() < pattern.len() {
    } else {
        lemma_first_fixed_from(pattern, 0);
        match first_fixed(pattern) {
            Some(ff) => {
                lemma_anchored_sound(data, pattern, ff, data.len() as int);
            },
            None => {
                let r = search_result(data, pattern);
                assert forall|k: int| 0 <= k < r.len() implies matches_at(
                    data,
                    pattern,
                    #[trigger] r[k] as int,
                ) by {
                    assert(r[k] == k);
                }
            },
        }
    }
}

/// Position of the first fixed element of `pattern`, if any.
fn find_first_fixed(pattern: &[Option<u8>]) -> (r: Option<usize>)
    ensures
        match r {
            Some(f) => first_fixed(pattern@) == Some(f as int),
            None => first_fixed(pattern@) is None,
        },
{
    let mut i: usize = 0;
    while i < pattern.len()
        invariant
            i <= pattern@.len(),
            first_fixed(pattern@) == first_fixed_from(pattern@, i as int),
        decreases pattern.len() - i,
    {
        if pattern[i].is_some() {
            return Some(i);
        }
        i += 1;
    }
    None
}

/// The positions at which `pattern` is reported in `data`.
///
/// With a fixed byte in the pattern, the search jumps from one occurrence of
/// the first fixed byte to the next and checks the pattern at the position
/// that lines that byte up; every reported position is a match. With no
/// fixed byte, every position where the pattern fits is reported, at most
/// `MAX_WILDCARD_HITS` of them.
pub fn search_pattern(data: &[u8], pattern: &[Option<u8>]) -> (r: Vec<usize>)
    requires
        data@.len() + pattern@.len() <= usize::MAX,
    ensures
        r@ == search_result(data@, pattern@),
        forall|k: int| 0 <= k < r@.len() ==> matches_at(data@, pattern@, #[trigger] r@[k] as int),
{
    let ghost d = data@;
    let ghost p = pattern@;
    if pattern.len() == 0 || data.len() < pattern.len() {
        return Vec::new();
    }
    let mut results: Vec<usize> = Vec::new();
    match find_first_fixed(pattern) {
        Some(ff) => {
            proof {
                lemma_first_fixed_from(p, 0);
            }
            let first_byte = match pattern[ff] {
                Some(b) => b,
                None => 0,
            };
            assert(first_byte == anchor_byte(p, ff as int));
            let plen = pattern.len();
            let dlen = data.len();
            let mut i: usize = 0;
            loop
                invariant_except_break
                    plen == p.len(),
                    dlen == d.len(),
                    d == data@,
                    p == pattern@,
                    0 < plen <= dlen,
                    dlen + plen <= usize::MAX,
                    first_fixed(p) == Some(ff as int),
                    first_byte == anchor_byte(p, ff as int),
                    i <= dlen,
                    results@ == anchored_hits(d, p, ff as int, i as int),
                    i + plen <= dlen ==> forall|t: int|
                        0 <= t < i && is_anchor(d, p, ff as int, t) ==> t < last_start(d, p),
                    i + plen > dlen ==> i >= 1 && is_anchor(d, p, ff as int, i - 1) && i - 1
                        >= last_start(d, p),
                ensures
                    results@ == search_result(d, p),
                decreases dlen - i,
            {
                if i + plen > dlen {
                    proof {
                        assert forall|s: int| i <= s < dlen implies !reports(
                            d,
                            p,
                            ff as int,
                            s,
                        ) by {
                            if examined(d, p, ff as int, s) {
                                assert(is_anchor(d, p, ff as int, i - 1));
                            }
                        }
                        lemma_hits_unchanged(d, p, ff as int, i as int, dlen as int);
                    }
                    break;
                }
                let mut k: usize = i;
                while k < dlen && data[k] != first_byte
                    invariant
                        i <= k <= dlen,
                        dlen == d.len(),
                        d == data@,
                        first_byte == anchor_byte(p, ff as int),
                        forall|t: int| i <= t < k ==> !is_anchor(d, p, ff as int, t),
                    decreases dlen - k,
                {
                    k += 1;
                }
                if k == dlen {
                    proof {
                        lemma_hits_unchanged(d, p, ff as int, i as int, dlen as int);
                    }
                    break;
                }
                let start = k;
                assert(examined(d, p, ff as int, start as int));
                let check_start = if start >= ff {
                    start - ff
                } else {
                    start
                };
                proof {
                    lemma_hits_unchanged(d, p, ff as int, i as int, start as int);
                }
                if check_start + plen <= dlen {
                    if match_at(data, pattern, check_start) {
                        results.push(check_start);
                    }
                }
                assert(results@ == anchored_hits(d, p, ff as int, start + 1));
                i = start + 1;
            }
        },
        None => {
            let last = data.len() - pattern.len();
            let n = if last + 1 < MAX_WILDCARD_HITS {
                last + 1
            } else {
                MAX_WILDCARD_HITS
            };
            let mut i: usize = 0;
            while i < n
                invariant
                    i <= n,
                    results@ == Seq::new(i as nat, |k: int| k as usize),
                decreases n - i,
            {
                results.push(i);
                assert(results@ =~= Seq::new((i + 1) as nat, |k: int| k as usize));
                i += 1;
            }
            proof {
                lemma_first_fixed_from(pattern@, 0);
            }
            assert(results@ =~= search_result(data@, pattern@));
        },
    }
    proof {
        lemma_search_sound(d, p);
    }
    results
}

/// An anchor occurrence that reports leaves its position in the hits.
proof fn lemma_anchored_contains(data: Seq<u8>, pattern: Seq<Option<u8>>, ff: int, s: int, n: int)
    requires
        0 <= s < n,
        reports(data, pattern, ff, s),
    ensures
        anchored_hits(data, pattern, ff, n).contains(candidate(ff, s) as usize),
    decreases n,
{
    if s < n - 1 {
        lemma_anchored_contains(data, pattern, ff, s, n - 1);
        let prev = anchored_hits(data, pattern, ff, n - 1);
        let i = choose|i: int| 0 <= i < prev.len() && prev[i] == candidate(ff, s) as usize;
        assert(anchored_hits(data, pattern, ff, n)[i] == prev[i]);
    } else {
        let h = anchored_hits(data, pattern, ff, n);
        assert(h[h.len() - 1] == candidate(ff, s) as usize);
    }
}

/// The search misses no match unless an earlier copy of the pattern's first
/// fixed byte already lies at or past the last position where the pattern
/// fits: a match whose first fixed byte (at index `ff` of the pattern) sits
/// at `pos + ff` is reported when no byte in `[data.len - pattern.len,
/// pos + ff)` equals that fixed byte. In particular every match whose fixed
/// byte lies at or before that last position is reported, and so is a match
/// whose fixed byte occurs nowhere else in the data. With no fixed byte the
/// search misses no match among the first `MAX_WILDCARD_HITS` positions.
pub proof fn lemma_search_complete(data: Seq<u8>, pattern: Seq<Option<u8>>, pos: int)
    requires
        pattern.len() > 0,
        matches_at(data, pattern, pos),
        match first_fixed(pattern) {
            Some(ff) => forall|t: int|
                data.len() - pattern.len() <= t < pos + ff && 0 <= t ==> #[trigger] data[t]
                    != pattern[ff]->0,
            None => pos < MAX_WILDCARD_HITS,
        },
    ensures
        search_result(data, pattern).contains(pos as usize),
{
    lemma_first_fixed_from(pattern, 0);
    match first_fixed(pattern) {
        Some(ff) => {
            let s = pos + ff;
            assert(pattern[ff] matches Some(b) ==> data[pos + ff] == b);
            assert(is_anchor(data, pattern, ff, s));
            assert(candidate(ff, s) == pos);
            assert(reports(data, pattern, ff, s));
            lemma_anchored_contains(data, pattern, ff, s, data.len() as int);
        },
        None => {
            let r = search_result(data, pattern);
            assert(r[pos] == pos as usize);
        },
    }
}


/// Every position below `n` at which `pattern` matches `data`, in ascending
/// order.
pub open spec fn match_positions(data: Seq<u8>, pattern: Seq<Option<u8>>, n: int) -> Seq<usize>
    decreases n,
{
    if n <= 0 {
        seq![]
    } else if matches_at(data, pattern, n - 1) {
        match_positions(data, pattern, n - 1).push((n - 1) as usize)
    } else {
        match_positions(data, pattern, n - 1)
    }
}

/// The positions in `match_positions` lie below `n` and strictly ascend.
proof fn lemma_match_positions_ascending(data: Seq<u8>, pattern: Seq<Option<u8>>, n: int)
    requires
        n <= usize::MAX + 1,
    ensures
        forall|k: int|
            0 <= k < match_positions(data, pattern, n).len() ==> #[trigger] match_positions(
                data,
                pattern,
                n,
            )[k] < n,
        forall|i: int, j: int|
            0 <= i < j < match_positions(data, pattern, n).len() ==> match_positions(
                data,
                pattern,
                n,
            )[i] < match_positions(data, pattern, n)[j],
    decreases n,
{
    if n > 0 {
        lemma_match_positions_ascending(data, pattern, n - 1);
        let prev = match_positions(data, pattern, n - 1);
        let cur = match_positions(data, pattern, n);
        if matches_at(data, pattern, n - 1) {
            assert forall|k: int| 0 <= k < cur.len() implies #[trigger] cur[k] < n by {
                if k < prev.len() {
                    assert(cur[k] == prev[k]);
                }
            }
            assert forall|i: int, j: int| 0 <= i < j < cur.len() implies cur[i] < cur[j] by {
                assert(cur[i] == prev[i]);
                if j < prev.len() {
                    assert(cur[j] == prev[j]);
                }
            }
        }
    }
}

/// With a fixed first element, the anchored search reports exactly the
/// matching positions.
proof fn lemma_anchored_hits_leading(data: Seq<u8>, pattern: Seq<Option<u8>>, n: int)
    requires
        pattern.len() > 0,
        pattern[0] is Some,
    ensures
        anchored_hits(data, pattern, 0, n) == match_positions(data, pattern, n),
    decreases n,
{
    if n > 0 {
        lemma_anchored_hits_leading(data, pattern, n - 1);
        let s = n - 1;
        assert(candidate(0, s) == s);
        if matches_at(data, pattern, s) {
            assert(pattern[0] matches Some(b) ==> data[s + 0] == b);
            assert(is_anchor(data, pattern, 0, s));
            assert(examined(data, pattern, 0, s));
        }
        assert(reports(data, pattern, 0, s) == matches_at(data, pattern, s));
    }
}

/// When the pattern's first element is a fixed byte, the search reports
/// every position where the pattern matches, each once, in strictly
/// ascending order, with no cap on their number.
pub proof fn lemma_search_leading_fixed(data: Seq<u8>, pattern: Seq<Option<u8>>)
    requires
        pattern.len() > 0,
        pattern[0] is Some,
        data.len() <= usize::MAX,
    ensures
        search_result(data, pattern) == match_positions(data, pattern, data.len() as int),
        forall|i: int, j: int|
            0 <= i < j < search_result(data, pattern).len() ==> search_result(data, pattern)[i]
                < search_result(data, pattern)[j],
        forall|p: int|
            0 <= p < data.len() ==> (search_result(data, pattern).contains(p as usize)
                <==> #[trigger] matches_at(data, pattern, p)),
{
    let n = data.len() as int;
    lemma_first_fixed_from(pattern, 0);
    assert(first_fixed(pattern) == Some(0int));
    if data.len() < pattern.len() {
        lemma_no_match_positions(data, pattern, n);
    } else {
        lemma_anchored_hits_leading(data, pattern, n);
    }
    lemma_match_positions_ascending(data, pattern, n);
    assert forall|p: int| 0 <= p < data.len() implies (search_result(data, pattern).contains(
        p as usize,
    ) <==> #[trigger] matches_at(data, pattern, p)) by {
        lemma_match_positions_contains(data, pattern, n, p);
    }
}

/// With no position that matches, there are no match positions.
proof fn lemma_no_match_positions(data: Seq<u8>, pattern: Seq<Option<u8>>, n: int)
    requires
        data.len() < pattern.len(),
    ensures
        match_positions(data, pattern, n) == Seq::<usize>::empty(),
    decreases n,
{
    if n > 0 {
        lemma_no_match_positions(data, pattern, n - 1);
    }
}

/// A position below `n` is among `match_positions` exactly when the pattern
/// matches there.
proof fn lemma_match_positions_contains(data: Seq<u8>, pattern: Seq<Option<u8>>, n: int, p: int)
    requires
        0 <= p < n <= usize::MAX + 1,
    ensures
        match_positions(data, pattern, n).contains(p as usize) <==> matches_at(data, pattern, p),
    decreases n,
{
    let cur = match_positions(data, pattern, n);
    let prev = match_positions(data, pattern, n - 1);
    lemma_match_positions_ascending(data, pattern, n - 1);
    if p < n - 1 {
        lemma_match_positions_contains(data, pattern, n - 1, p);
        if matches_at(data, pattern, n - 1) {
            if prev.contains(p as usize) {
                let i = choose|i: int| 0 <= i < prev.len() && prev[i] == p as usize;
                assert(cur[i] == prev[i]);
            }
            if cur.contains(p as usize) {
                let i = choose|i: int| 0 <= i < cur.len() && cur[i] == p as usize;
                if i < prev.len() {
                    assert(cur[i] == prev[i]);
                }
                assert(prev.contains(p as usize));
            }
        }
    } else {
        if matches_at(data, pattern, p) {
            assert(cur[cur.len() - 1] == p as usize);
        } else {
            if cur.contains(p as usize) {
                let i = choose|i: int| 0 <= i < cur.len() && cur[i] == p as usize;
                assert(prev[i] < n - 1);
            }
        }
    }
}

} // verus!
