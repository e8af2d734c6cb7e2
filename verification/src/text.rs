//! Reading whitespace-separated decimal integers from a line of text.
//!
//! A line is a sequence of characters. Its *words* are the maximal runs of
//! characters that are not white space. A word denotes an integer when it is
//! an optional sign followed by one or more decimal digits.

use vstd::prelude::*;

verus! {

/// Whether `c` is white space: a character with the Unicode property
/// `White_Space`.
pub open spec fn is_space(c: char) -> bool {
    let u = c as u32;
    ||| 0x09 <= u <= 0x0D
    ||| u == 0x20
    ||| u == 0x85
    ||| u == 0xA0
    ||| u == 0x1680
    ||| 0x2000 <= u <= 0x200A
    ||| u == 0x2028
    ||| u == 0x2029
    ||| u == 0x202F
    ||| u == 0x205F
    ||| u == 0x3000
}

/// Whether `c` is one of the digits `0` to `9`.
pub open spec fn is_digit(c: char) -> bool {
    0x30 <= c as u32 <= 0x39
}

/// The number that the digit `c` stands for.
pub open spec fn digit_value(c: char) -> nat {
    (c as u32 - 0x30) as nat
}

/// Whether `s` holds digits only.
pub open spec fn all_digits(s: Seq<char>) -> bool {
    forall|i: int| 0 <= i < s.len() ==> is_digit(#[trigger] s[i])
}

/// The number that the digits `s` denote in base ten, most significant first.
pub open spec fn decimal_value(s: Seq<char>) -> nat
    decreases s.len(),
{
    if s.len() == 0 {
        0
    } else {
        decimal_value(s.drop_last()) * 10 + digit_value(s.last())
    }
}

/// The number of characters of the sign that `word` begins with: 1 or 0.
pub open spec fn sign_len(word: Seq<char>) -> int {
    if word.len() > 0 && (word[0] == '-' || word[0] == '+') {
        1
    } else {
        0
    }
}

/// The integer that `word` denotes, if it is an optional sign (`+` or `-`)
/// followed by at least one digit and nothing else.
pub open spec fn integer_value(word: Seq<char>) -> Option<int> {
    let digits = word.skip(sign_len(word));
    if digits.len() > 0 && all_digits(digits) {
        if word[0] == '-' {
            Some(-(decimal_value(digits) as int))
        } else {
            Some(decimal_value(digits) as int)
        }
    } else {
        None
    }
}

/// The `i128` that `word` denotes, if it denotes an integer in that range.
pub open spec fn parse_i128(word: Seq<char>) -> Option<i128> {
    match integer_value(word) {
        Some(v) => if i128::MIN <= v <= i128::MAX {
            Some(v as i128)
        } else {
            None
        },
        None => None,
    }
}

/// The length of the longest prefix of `s` without white space.
pub open spec fn word_len(s: Seq<char>) -> nat
    decreases s.len(),
{
    if s.len() == 0 || is_space(s[0]) {
        0
    } else {
        1 + word_len(s.drop_first())
    }
}

/// The words of `s`, in order.
pub open spec fn words(s: Seq<char>) -> Seq<Seq<char>>
    decreases s.len(),
    via words_terminates
{
    if s.len() == 0 {
        Seq::empty()
    } else if is_space(s[0]) {
        words(s.drop_first())
    } else {
        seq![s.take(word_len(s) as int)] + words(s.skip(word_len(s) as int))
    }
}

#[via_fn]
proof fn words_terminates(s: Seq<char>) {
    lemma_word_len_bound(s);
}

/// The integers that the words of `s` denote, if each of them denotes an
/// `i128`.
pub open spec fn integers(s: Seq<char>) -> Option<Seq<i128>> {
    let ws = words(s);
    if forall|i: int| 0 <= i < ws.len() ==> parse_i128(#[trigger] ws[i]) is Some {
        Some(Seq::new(ws.len(), |i: int| parse_i128(ws[i])->0))
    } else {
        None
    }
}

/// The character sequences that the vectors of `ws` hold.
pub open spec fn word_views(ws: Seq<Vec<char>>) -> Seq<Seq<char>> {
    Seq::new(ws.len(), |i: int| ws[i]@)
}

/// A word is no longer than the text that it starts.
pub proof fn lemma_word_len_bound(s: Seq<char>)
    ensures
        word_len(s) <= s.len(),
    decreases s.len(),
{
    if s.len() > 0 && !is_space(s[0]) {
        lemma_word_len_bound(s.drop_first());
    }
}

/// A prefix of a run of digits denotes no more than the whole run.
pub proof fn lemma_decimal_value_prefix(s: Seq<char>, k: int)
    requires
        0 <= k <= s.len(),
    ensures
        decimal_value(s.take(k)) <= decimal_value(s),
    decreases s.len(),
{
    if k == s.len() {
        assert(s.take(k) =~= s);
    } else {
        lemma_decimal_value_prefix(s.drop_last(), k);
        assert(s.drop_last().take(k) =~= s.take(k));
    }
}

/// Whether `c` is white space.
pub fn is_space_char(c: char) -> (b: bool)
    ensures
        b == is_space(c),
{
    let u: u32 = c as u32;
    (0x09 <= u && u <= 0x0D) || u == 0x20 || u == 0x85 || u == 0xA0 || u == 0x1680 || (0x2000 <= u
        && u <= 0x200A) || u == 0x2028 || u == 0x2029 || u == 0x202F || u == 0x205F || u == 0x3000
}

/// The characters of `line`.
pub fn chars_of(line: &str) -> (chars: Vec<char>)
    ensures
        chars@ == line@,
{
    let mut chars: Vec<char> = Vec::new();
    for c in it: line.chars()
        invariant
            it.seq() == line@,
            chars@ == it.seq().take(it.index()),
    {
        chars.push(c);
    }
    chars
}

/// Reads `word` as a decimal integer.
pub fn parse_integer(word: &Vec<char>) -> (r: Option<i128>)
    ensures
        r == parse_i128(word@),
{
    let n: usize = word.len();
    if n == 0 {
        return None;
    }
    let negative: bool = word[0] == '-';
    let start: usize = if negative || word[0] == '+' {
        1
    } else {
        0
    };
    let ghost digits = word@.skip(start as int);
    if start == n {
        return None;
    }
    let limit: u128 = if negative {
        0x8000_0000_0000_0000_0000_0000_0000_0000
    } else {
        0x7fff_ffff_ffff_ffff_ffff_ffff_ffff_ffff
    };
    let mut magnitude: u128 = 0;
    let mut i: usize = start;
    while i < n
        invariant
            start <= i <= n,
            n == word@.len(),
            digits == word@.skip(start as int),
            all_digits(digits.take(i - start)),
            magnitude == decimal_value(digits.take(i - start)),
            magnitude <= limit,
            0x7fff_ffff_ffff_ffff_ffff_ffff_ffff_ffff <= limit
                <= 0x8000_0000_0000_0000_0000_0000_0000_0000,
            negative <==> limit == 0x8000_0000_0000_0000_0000_0000_0000_0000,
            negative == (word@[0] == '-'),
            start == sign_len(word@),
        decreases n - i,
    {
        let u: u32 = word[i] as u32;
        assert(digits[i - start] == word@[i as int]);
        if u < 0x30 || u > 0x39 {
            assert(!is_digit(digits[i - start]));
            return None;
        }
        let d: u128 = (u - 0x30) as u128;
        let ghost longer = digits.take(i - start + 1);
        assert(longer.drop_last() =~= digits.take(i - start));
        assert(longer.last() == word@[i as int]);
        if magnitude > (limit - d) / 10 {
            proof {
                if all_digits(digits) {
                    lemma_decimal_value_prefix(digits, i - start + 1);
                }
            }
            return None;
        }
        magnitude = magnitude * 10 + d;
        i += 1;
    }
    assert(digits.take(i - start) =~= digits);
    if negative {
        if magnitude == 0x8000_0000_0000_0000_0000_0000_0000_0000 {
            Some(i128::MIN)
        } else {
            Some(-(magnitude as i128))
        }
    } else {
        Some(magnitude as i128)
    }
}

/// Splits `line` into its words.
pub fn split_words(line: &Vec<char>) -> (out: Vec<Vec<char>>)
    ensures
        word_views(out@) == words(line@),
{
    let n: usize = line.len();
    let mut out: Vec<Vec<char>> = Vec::new();
    let mut i: usize = 0;
    assert(line@.skip(0) =~= line@);
    assert(word_views(out@) =~= Seq::<Seq<char>>::empty());
    while i < n
        invariant
            i <= n,
            n == line@.len(),
            word_views(out@) + words(line@.skip(i as int)) == words(line@),
        decreases n - i,
    {
        let ghost rest = line@.skip(i as int);
        if is_space_char(line[i]) {
            assert(rest.drop_first() =~= line@.skip(i + 1));
            i += 1;
        } else {
            let start: usize = i;
            let mut word: Vec<char> = Vec::new();
            let mut more: bool = true;
            while more
                invariant
                    start <= i <= n,
                    n == line@.len(),
                    rest == line@.skip(start as int),
                    word@ == line@.subrange(start as int, i as int),
                    word_len(rest) == (i - start) + word_len(line@.skip(i as int)),
                    more ==> i < n && !is_space(line@[i as int]),
                    !more ==> i > start && word_len(line@.skip(i as int)) == 0,
                decreases n - i + (if more { 1nat } else { 0nat }),
            {
                assert(line@.skip(i as int).drop_first() =~= line@.skip(i + 1));
                word.push(line[i]);
                i += 1;
                if i == n {
                    more = false;
                } else if is_space_char(line[i]) {
                    more = false;
                }
            }
            assert(rest.take(word_len(rest) as int) =~= word@);
            assert(rest.skip(word_len(rest) as int) =~= line@.skip(i as int));
            let ghost before = word_views(out@);
            out.push(word);
            assert(word_views(out@) =~= before + seq![word@]);
            assert(word_views(out@) + words(line@.skip(i as int)) =~= before + words(rest));
        }
    }
    assert(words(line@.skip(i as int)) =~= Seq::<Seq<char>>::empty());
    out
}

/// Reads `line` as a list of integers separated by white space.
pub fn read_integers(line: &str) -> (r: Option<Vec<i128>>)
    ensures
        match r {
            Some(values) => integers(line@) == Some(values@),
            None => integers(line@) is None,
        },
{
    let chars: Vec<char> = chars_of(line);
    let ws: Vec<Vec<char>> = split_words(&chars);
    let mut values: Vec<i128> = Vec::new();
    let mut i: usize = 0;
    while i < ws.len()
        invariant
            i <= ws.len(),
            word_views(ws@) == words(line@),
            values@.len() == i,
            forall|k: int| 0 <= k < i ==> parse_i128(#[trigger] words(line@)[k]) == Some(values@[k]),
        decreases ws.len() - i,
    {
        assert(word_views(ws@)[i as int] == ws@[i as int]@);
        match parse_integer(&ws[i]) {
            Some(v) => {
                values.push(v);
            },
            None => {
                return None;
            },
        }
        i += 1;
    }
    assert(word_views(ws@).len() == ws@.len());
    assert(values@ =~= integers(line@)->0);
    Some(values)
}

} // verus!
