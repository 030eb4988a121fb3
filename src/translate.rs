//! Translation of a short phrase into a structured filter.
//!
//! The phrase is split into words and scanned left to right. At each
//! position the first rule that fits decides how many words are consumed
//! and which filter field is set; a word that no rule knows is skipped.

use vstd::prelude::*;
use crate::filter::{empty_filter, filter_valid, FilterQuery, FilterView};
use crate::text::{chars_of, lower_of, lowercase_chars, split_words, string_from_chars, words_of};

verus! {

/// Value of a sequence of decimal digits.
pub open spec fn digits_value(d: Seq<char>) -> int
    decreases d.len(),
{
    if d.len() == 0 {
        0
    } else {
        digits_value(d.drop_last()) * 10 + (d.last() as int - 48)
    }
}

/// Whether every character is an ASCII decimal digit.
pub open spec fn all_digits(d: Seq<char>) -> bool {
    forall|i: int| 0 <= i < d.len() ==> '0' <= #[trigger] d[i] <= '9'
}

/// The digits of a number text, after an optional leading `+`.
pub open spec fn unsigned_digits(s: Seq<char>) -> Seq<char> {
    if s.len() > 0 && s[0] == '+' {
        s.drop_first()
    } else {
        s
    }
}

/// The `usize` that a text denotes as `str::parse::<usize>` reads it: an
/// optional `+`, then one or more decimal digits, with a value that fits.
pub open spec fn parse_usize(s: Seq<char>) -> Option<usize> {
    let d = unsigned_digits(s);
    if d.len() > 0 && all_digits(d) && digits_value(d) <= usize::MAX {
        Some(digits_value(d) as usize)
    } else {
        None
    }
}

/// Extending a digit sequence never lowers its value.
proof fn lemma_digits_value_grows(d: Seq<char>, k: int, j: int)
    requires
        0 <= k <= j <= d.len(),
        all_digits(d),
    ensures
        digits_value(d.take(k)) <= digits_value(d.take(j)),
    decreases j - k,
{
    if k < j {
        lemma_digits_value_grows(d, k, j - 1);
        lemma_digits_value_nonneg(d.take(j - 1));
        assert(d.take(j).drop_last() =~= d.take(j - 1));
        assert(d.take(j).last() == d[j - 1]);
    }
}

/// Digits have a value of at least zero.
proof fn lemma_digits_value_nonneg(d: Seq<char>)
    requires
        all_digits(d),
    ensures
        digits_value(d) >= 0,
    decreases d.len(),
{
    if d.len() > 0 {
        let p = d.drop_last();
        assert(all_digits(p)) by {
            assert forall|i: int| 0 <= i < p.len() implies '0' <= #[trigger] p[i] <= '9' by {
                assert(p[i] == d[i]);
            }
        }
        lemma_digits_value_nonneg(p);
        assert('0' <= d[d.len() - 1]);
    }
}

/// Reads a `usize` written in decimal.
pub fn parse_decimal(s: &Vec<char>) -> (r: Option<usize>)
    ensures
        r == parse_usize(s@),
{
    let start: usize = if s.len() > 0 && s[0] == '+' {
        1
    } else {
        0
    };
    let ghost d = unsigned_digits(s@);
    assert(d =~= s@.skip(start as int));
    if start >= s.len() {
        return None;
    }
    let mut i: usize = start;
    while i < s.len()
        invariant
            start <= i <= s@.len(),
            d == s@.skip(start as int),
            d == unsigned_digits(s@),
            forall|j: int| start <= j < i ==> '0' <= #[trigger] s@[j] <= '9',
        decreases s@.len() - i,
    {
        if s[i] < '0' || s[i] > '9' {
            assert(d[i - start] == s@[i as int]);
            assert(!all_digits(d));
            return None;
        }
        i = i + 1;
    }
    assert(all_digits(d)) by {
        assert forall|j: int| 0 <= j < d.len() implies '0' <= #[trigger] d[j] <= '9' by {
            assert(d[j] == s@[j + start]);
        }
    }
    let mut acc: usize = 0;
    let mut i: usize = start;
    while i < s.len()
        invariant
            start <= i <= s@.len(),
            d == s@.skip(start as int),
            d == unsigned_digits(s@),
            all_digits(d),
            acc as nat == digits_value(d.take(i - start)),
        decreases s@.len() - i,
    {
        let ghost k = i - start;
        assert(d[k] == s@[i as int]);
        let digit = (s[i] as u32 - 48) as usize;
        assert(d.take(k + 1).drop_last() =~= d.take(k));
        assert(d.take(k + 1).last() == s@[i as int]);
        if acc > (usize::MAX - digit) / 10 {
            proof {
                let a = acc as int;
                let g = digit as int;
                assert(a * 10 + g > usize::MAX) by (nonlinear_arith)
                    requires
                        a > (usize::MAX - g) / 10,
                        0 <= g <= 9,
                ;
                lemma_digits_value_grows(d, k + 1, d.len() as int);
                assert(d.take(d.len() as int) =~= d);
            }
            return None;
        }
        acc = acc * 10 + digit;
        i = i + 1;
    }
    assert(d.take(d.len() as int) =~= d);
    Some(acc)
}

/// One more than the number a word denotes, where that fits in a `usize`.
pub open spec fn successor_of(s: Seq<char>) -> Option<usize> {
    match parse_usize(s) {
        Some(m) => if m < usize::MAX {
            Some((m + 1) as usize)
        } else {
            None
        },
        None => None,
    }
}

/// The filter with one field replaced.
pub open spec fn with_word_count(f: FilterView, n: usize) -> FilterView {
    FilterView { word_count: Some(n), ..f }
}

pub open spec fn with_palindrome(f: FilterView) -> FilterView {
    FilterView { is_palindrome: Some(true), ..f }
}

pub open spec fn with_min_length(f: FilterView, n: usize) -> FilterView {
    FilterView { min_length: Some(n), ..f }
}

pub open spec fn with_character(f: FilterView, c: Seq<char>) -> FilterView {
    FilterView { contains_character: Some(c), ..f }
}

/// One step of the scan at position `i` of the words `w`, whose lowercase
/// forms are `low`: the next position and the updated filter.
pub open spec fn step(w: Seq<Seq<char>>, low: Seq<Seq<char>>, i: int, f: FilterView) -> (
    int,
    FilterView,
) {
    let n = low.len();
    let t = low[i];
    if t == seq!['a', 'l', 'l'] {
        (i + 1, f)
    } else if t == seq!['s', 'i', 'n', 'g', 'l', 'e'] {
        if n - i > 1 && low[i + 1] == seq!['w', 'o', 'r', 'd'] {
            (i + 2, with_word_count(f, 1))
        } else {
            (i + 1, f)
        }
    } else if t == seq!['p', 'a', 'l', 'i', 'n', 'd', 'r', 'o', 'm', 'e'] || t == seq![
        'p',
        'a',
        'l',
        'i',
        'n',
        'd',
        'r',
        'o',
        'm',
        'i',
        'c',
    ] {
        if i > 0 && low[i - 1] == seq!['n', 'o', 'n'] {
            (i + 1, f)
        } else {
            (i + 1, with_palindrome(f))
        }
    } else if t == seq!['l', 'o', 'n', 'g', 'e', 'r'] {
        if n - i > 2 && low[i + 1] == seq!['t', 'h', 'a', 'n'] && successor_of(w[i + 2]) is Some {
            (i + 3, with_min_length(f, successor_of(w[i + 2])->Some_0))
        } else {
            (i + 1, f)
        }
    } else if t == seq!['c', 'o', 'n', 't', 'a', 'i', 'n', 'i', 'n', 'g'] || t == seq![
        'c',
        'o',
        'n',
        't',
        'a',
        'i',
        'n',
    ] {
        if n - i > 3 && low[i + 1] == seq!['t', 'h', 'e'] && low[i + 2] == seq![
            'l',
            'e',
            't',
            't',
            'e',
            'r',
        ] && w[i + 3].len() == 1 {
            (i + 4, with_character(f, w[i + 3]))
        } else {
            (i + 1, f)
        }
    } else if t == seq!['f', 'i', 'r', 's', 't'] {
        if n - i > 1 && low[i + 1] == seq!['v', 'o', 'w', 'e', 'l'] {
            (i + 2, with_character(f, seq!['a']))
        } else {
            (i + 1, f)
        }
    } else {
        (i + 1, f)
    }
}

/// The filter that scanning from position `i` with filter `f` ends with.
pub open spec fn run(w: Seq<Seq<char>>, low: Seq<Seq<char>>, i: int, f: FilterView) -> FilterView
    decreases low.len() - i,
{
    if 0 <= i < low.len() {
        let (j, g) = step(w, low, i, f);
        if i < j <= low.len() {
            run(w, low, j, g)
        } else {
            f
        }
    } else {
        f
    }
}

/// The filter that a scan of the words `w`, with lowercase forms `low`,
/// produces.
pub open spec fn interpret(w: Seq<Seq<char>>, low: Seq<Seq<char>>) -> FilterView {
    run(w, low, 0, empty_filter())
}

/// The filter that a phrase translates to.
pub open spec fn translation(s: Seq<char>) -> FilterView {
    interpret(words_of(s), words_of(s).map_values(|t: Seq<char>| lower_of(t)))
}

/// Whether a word equals a keyword.
fn same_word(w: &Vec<char>, kw: &[char]) -> (r: bool)
    ensures
        r == (w@ == kw@),
{
    if w.len() != kw.len() {
        return false;
    }
    let mut i: usize = 0;
    while i < w.len()
        invariant
            i <= w@.len(),
            w@.len() == kw@.len(),
            forall|j: int| 0 <= j < i ==> w@[j] == kw@[j],
        decreases w@.len() - i,
    {
        if w[i] != kw[i] {
            return false;
        }
        i = i + 1;
    }
    assert(w@ =~= kw@);
    true
}

/// The words of a list of words, as sequences.
proof fn lemma_deep_view_words(v: &Vec<Vec<char>>)
    ensures
        v.deep_view().len() == v@.len(),
        forall|i: int| 0 <= i < v@.len() ==> #[trigger] v.deep_view()[i] == v@[i]@,
{
    assert forall|i: int| 0 <= i < v@.len() implies #[trigger] v.deep_view()[i] == v@[i]@ by {
        assert(v.deep_view()[i] =~= v@[i]@);
    }
}

/// Performs one step of the scan at position `i`, updating the filter,
/// and returns the next position.
fn scan_step(words: &Vec<Vec<char>>, low: &Vec<Vec<char>>, i: usize, f: &mut FilterQuery) -> (next:
    usize)
    requires
        words@.len() == low@.len(),
        i < low@.len(),
    ensures
        (next as int, final(f)@) == step(words.deep_view(), low.deep_view(), i as int, old(f)@),
        i < next <= low@.len(),
{
    proof {
        lemma_deep_view_words(words);
        lemma_deep_view_words(low);
    }
    let n = low.len();
    let t = &low[i];
    let next = if same_word(t, &['a', 'l', 'l']) {
        i + 1
    } else if same_word(t, &['s', 'i', 'n', 'g', 'l', 'e']) {
        if n - i > 1 && same_word(&low[i + 1], &['w', 'o', 'r', 'd']) {
            f.word_count = Some(1);
            i + 2
        } else {
            i + 1
        }
    } else if same_word(t, &['p', 'a', 'l', 'i', 'n', 'd', 'r', 'o', 'm', 'e']) || same_word(
        t,
        &['p', 'a', 'l', 'i', 'n', 'd', 'r', 'o', 'm', 'i', 'c'],
    ) {
        let negated = i > 0 && same_word(&low[i - 1], &['n', 'o', 'n']);
        if !negated {
            f.is_palindrome = Some(true);
        }
        i + 1
    } else if same_word(t, &['l', 'o', 'n', 'g', 'e', 'r']) {
        if n - i > 2 && same_word(&low[i + 1], &['t', 'h', 'a', 'n']) {
            match parse_decimal(&words[i + 2]) {
                Some(m) => {
                    if m < usize::MAX {
                        f.min_length = Some(m + 1);
                        i + 3
                    } else {
                        i + 1
                    }
                },
                None => i + 1,
            }
        } else {
            i + 1
        }
    } else if same_word(t, &['c', 'o', 'n', 't', 'a', 'i', 'n', 'i', 'n', 'g']) || same_word(
        t,
        &['c', 'o', 'n', 't', 'a', 'i', 'n'],
    ) {
        if n - i > 3 && same_word(&low[i + 1], &['t', 'h', 'e']) && same_word(
            &low[i + 2],
            &['l', 'e', 't', 't', 'e', 'r'],
        ) && words[i + 3].len() == 1 {
            f.contains_character = Some(string_from_chars(&words[i + 3]));
            i + 4
        } else {
            i + 1
        }
    } else if same_word(t, &['f', 'i', 'r', 's', 't']) {
        if n - i > 1 && same_word(&low[i + 1], &['v', 'o', 'w', 'e', 'l']) {
            let a: Vec<char> = vec!['a'];
            f.contains_character = Some(string_from_chars(&a));
            i + 2
        } else {
            i + 1
        }
    } else {
        i + 1
    };
    proof {
        let g = step(words.deep_view(), low.deep_view(), i as int, old(f)@).1;
        assert(f@.is_palindrome == g.is_palindrome);
        assert(f@.min_length == g.min_length);
        assert(f@.max_length == g.max_length);
        assert(f@.word_count == g.word_count);
        assert(f@.contains_character == g.contains_character);
    }
    next
}

/// Scans words, given with their lowercase forms, into a filter.
pub fn interpret_words(words: &Vec<Vec<char>>, low: &Vec<Vec<char>>) -> (r: FilterQuery)
    requires
        words@.len() == low@.len(),
    ensures
        r@ == interpret(words.deep_view(), low.deep_view()),
{
    proof {
        lemma_deep_view_words(low);
    }
    let mut f = FilterQuery::empty();
    let mut i: usize = 0;
    while i < low.len()
        invariant
            words@.len() == low@.len(),
            low.deep_view().len() == low@.len(),
            i <= low@.len(),
            run(words.deep_view(), low.deep_view(), i as int, f@) == interpret(
                words.deep_view(),
                low.deep_view(),
            ),
        decreases low@.len() - i,
    {
        i = scan_step(words, low, i, &mut f);
    }
    f
}

/// Translates a phrase into a structured filter. Every phrase has a
/// translation, possibly the filter with no field set.
pub fn parse_natural_language_query(query: &str) -> (r: Result<FilterQuery, String>)
    ensures
        r matches Ok(f) && f@ == translation(query@),
{
    let cs = chars_of(query);
    let words = split_words(&cs);
    let mut low: Vec<Vec<char>> = Vec::new();
    let mut i: usize = 0;
    while i < words.len()
        invariant
            i <= words@.len(),
            words.deep_view() == words_of(query@),
            low@.len() == i,
            forall|j: int| 0 <= j < i ==> (#[trigger] low@[j])@ == lower_of(words@[j]@),
        decreases words@.len() - i,
    {
        low.push(lowercase_chars(&words[i]));
        i = i + 1;
    }
    proof {
        lemma_deep_view_words(&words);
        lemma_deep_view_words(&low);
        assert(low.deep_view() =~= words_of(query@).map_values(|t: Seq<char>| lower_of(t)));
    }
    Ok(interpret_words(&words, &low))
}

/// A scan only ever asks for single characters.
proof fn lemma_run_valid(w: Seq<Seq<char>>, low: Seq<Seq<char>>, i: int, f: FilterView)
    requires
        filter_valid(f),
    ensures
        filter_valid(run(w, low, i, f)),
    decreases low.len() - i,
{
    if 0 <= i < low.len() {
        let (j, g) = step(w, low, i, f);
        if i < j <= low.len() {
            lemma_run_valid(w, low, j, g);
        }
    }
}

/// Every phrase translates to a well-formed filter: a character it asks
/// for is exactly one character.
pub proof fn lemma_translation_valid(s: Seq<char>)
    ensures
        filter_valid(translation(s)),
{
    let w = words_of(s);
    lemma_run_valid(w, w.map_values(|t: Seq<char>| lower_of(t)), 0, empty_filter());
}

} // verus!
