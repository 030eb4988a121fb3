//! Character-level helpers: splitting into words, hexadecimal encoding,
//! mirror checks, and the trusted calls into std and `sha2` they build on.

use vstd::prelude::*;

verus! {

/// What `str::to_lowercase` gives for a text with these characters.
pub uninterp spec fn lower_of(s: Seq<char>) -> Seq<char>;

/// Whether `char::is_alphabetic` holds of a character.
pub uninterp spec fn is_alpha(c: char) -> bool;

/// Whether a character is whitespace: one with the Unicode `White_Space`
/// property, the set that `char::is_whitespace` tests.
pub open spec fn is_space(c: char) -> bool {
    let v = c as u32;
    ||| 0x09 <= v <= 0x0D
    ||| v == 0x20
    ||| v == 0x85
    ||| v == 0xA0
    ||| v == 0x1680
    ||| 0x2000 <= v <= 0x200A
    ||| v == 0x2028
    ||| v == 0x2029
    ||| v == 0x202F
    ||| v == 0x205F
    ||| v == 0x3000
}

/// The SHA-256 digest of a byte sequence, as `sha2::Sha256::digest` gives it.
pub uninterp spec fn sha256_of(b: Seq<u8>) -> Seq<u8>;

/// Relies on `str::to_lowercase` (after collecting the characters into a
/// `String`): the result is the lowercase text of the characters.
#[verifier::external_body]
pub(crate) fn lowercase_chars(cs: &Vec<char>) -> (r: Vec<char>)
    ensures
        r@ == lower_of(cs@),
{
    let s: String = cs.iter().collect();
    s.to_lowercase().chars().collect()
}

/// Relies on `char::is_alphabetic`.
#[verifier::external_body]
pub(crate) fn char_is_alphabetic(c: char) -> (r: bool)
    ensures
        r == is_alpha(c),
{
    c.is_alphabetic()
}

/// Whether a character is whitespace.
pub fn char_is_whitespace(c: char) -> (r: bool)
    ensures
        r == is_space(c),
{
    let v = c as u32;
    (0x09 <= v && v <= 0x0D) || v == 0x20 || v == 0x85 || v == 0xA0 || v == 0x1680 || (0x2000 <= v
        && v <= 0x200A) || v == 0x2028 || v == 0x2029 || v == 0x202F || v == 0x205F || v == 0x3000
}

/// Relies on `sha2::Sha256::digest`: the digest of the given bytes, whose
/// output type holds 32 bytes.
#[verifier::external_body]
fn sha256_digest(bytes: &[u8]) -> (r: Vec<u8>)
    ensures
        r@ == sha256_of(bytes@),
        r@.len() == 32,
{
    <sha2::Sha256 as sha2::Digest>::digest(bytes).to_vec()
}

/// Relies on `String`'s `FromIterator<char>`: the string holds exactly
/// these characters, in order.
#[verifier::external_body]
pub(crate) fn string_from_chars(cs: &Vec<char>) -> (r: String)
    ensures
        r@ == cs@,
{
    cs.iter().collect()
}

/// The characters of a string slice, in order.
pub fn chars_of(s: &str) -> (r: Vec<char>)
    ensures
        r@ == s@,
{
    let n = s.unicode_len();
    let mut r: Vec<char> = Vec::new();
    let mut i: usize = 0;
    while i < n
        invariant
            n == s@.len(),
            i <= n,
            r@ == s@.take(i as int),
        decreases n - i,
    {
        r.push(s.get_char(i));
        i = i + 1;
        assert(r@ =~= s@.take(i as int));
    }
    assert(r@ =~= s@);
    r
}

/// Lowercase hexadecimal digit for a value below sixteen.
pub open spec fn hex_digit(n: u8) -> char {
    if n < 10 {
        (n + 48) as char
    } else {
        (n + 87) as char
    }
}

/// Lowercase hexadecimal text of a byte sequence, two digits per byte,
/// high nibble first.
pub open spec fn hex_of(b: Seq<u8>) -> Seq<char> {
    Seq::new(
        2 * b.len(),
        |i: int|
            if i % 2 == 0 {
                hex_digit(b[i / 2] / 16)
            } else {
                hex_digit(b[i / 2] % 16)
            },
    )
}

fn hex_digit_exec(n: u8) -> (r: char)
    requires
        n < 16,
    ensures
        r == hex_digit(n),
{
    if n < 10 {
        (n + 48) as char
    } else {
        (n + 87) as char
    }
}

/// Lowercase hexadecimal encoding of bytes.
pub fn hex_encode(b: &[u8]) -> (r: String)
    ensures
        r@ == hex_of(b@),
{
    let mut cs: Vec<char> = Vec::new();
    let mut i: usize = 0;
    while i < b.len()
        invariant
            i <= b@.len(),
            cs@ =~= hex_of(b@.take(i as int)),
        decreases b@.len() - i,
    {
        let x = b[i];
        cs.push(hex_digit_exec(x / 16));
        cs.push(hex_digit_exec(x % 16));
        i = i + 1;
        assert(cs@ =~= hex_of(b@.take(i as int)));
    }
    assert(b@.take(b@.len() as int) =~= b@);
    string_from_chars(&cs)
}

/// Content address of a text: the lowercase hex SHA-256 digest of its
/// UTF-8 bytes.
pub open spec fn content_id(s: Seq<char>) -> Seq<char> {
    hex_of(sha256_of(vstd::utf8::encode_utf8(s)))
}

/// Computes the content address of a text.
pub fn content_address(s: &str) -> (r: String)
    ensures
        r@ == content_id(s@),
        r@.len() == 64,
{
    let digest = sha256_digest(s.as_bytes());
    hex_encode(digest.as_slice())
}

/// Scans a text left to right: the words completed so far, and the word
/// being read (empty between words). Words are runs of non-whitespace.
pub open spec fn scan_words(s: Seq<char>) -> (Seq<Seq<char>>, Seq<char>)
    decreases s.len(),
{
    if s.len() == 0 {
        (seq![], seq![])
    } else {
        let (done, cur) = scan_words(s.drop_last());
        let c = s.last();
        if is_space(c) {
            if cur.len() > 0 {
                (done.push(cur), seq![])
            } else {
                (done, cur)
            }
        } else {
            (done, cur.push(c))
        }
    }
}

/// The whitespace-delimited words of a text, as `str::split_whitespace`
/// yields them.
pub open spec fn words_of(s: Seq<char>) -> Seq<Seq<char>> {
    let (done, cur) = scan_words(s);
    if cur.len() > 0 {
        done.push(cur)
    } else {
        done
    }
}

/// Splits characters into whitespace-delimited words.
pub fn split_words(cs: &Vec<char>) -> (r: Vec<Vec<char>>)
    ensures
        r.deep_view() == words_of(cs@),
{
    let mut done: Vec<Vec<char>> = Vec::new();
    let mut cur: Vec<char> = Vec::new();
    let mut i: usize = 0;
    while i < cs.len()
        invariant
            i <= cs@.len(),
            (done.deep_view(), cur@) == scan_words(cs@.take(i as int)),
        decreases cs@.len() - i,
    {
        let c = cs[i];
        assert(cs@.take(i + 1).drop_last() =~= cs@.take(i as int));
        if char_is_whitespace(c) {
            if cur.len() > 0 {
                let ghost before = done.deep_view();
                assert(cur.deep_view() =~= cur@);
                done.push(cur);
                assert(done.deep_view() =~= before.push(cur@));
                cur = Vec::new();
                assert(cur@ =~= seq![]);
            }
        } else {
            cur.push(c);
        }
        i = i + 1;
    }
    assert(cs@.take(cs@.len() as int) =~= cs@);
    if cur.len() > 0 {
        let ghost before = done.deep_view();
        assert(cur.deep_view() =~= cur@);
        done.push(cur);
        assert(done.deep_view() =~= before.push(cur@));
    }
    done
}

/// Whether a character sequence equals its own reverse.
pub fn is_mirror(cs: &Vec<char>) -> (r: bool)
    ensures
        r == (cs@ == cs@.reverse()),
{
    let n = cs.len();
    let mut i: usize = 0;
    while i < n / 2
        invariant
            n == cs@.len(),
            i <= n / 2,
            forall|j: int| 0 <= j < i ==> #[trigger] cs@[j] == cs@[n - 1 - j],
        decreases n / 2 - i,
    {
        if cs[i] != cs[n - 1 - i] {
            assert(cs@.reverse()[n - 1 - i] == cs@[i as int]);
            return false;
        }
        i = i + 1;
    }
    assert(cs@ =~= cs@.reverse()) by {
        assert forall|j: int| 0 <= j < n implies #[trigger] cs@[j] == cs@[n - 1 - j] by {
            if j >= n / 2 && j < n - n / 2 {
                assert(j == n - 1 - j);
            } else if j >= n - n / 2 {
                assert(cs@[n - 1 - j] == cs@[n - 1 - (n - 1 - j)]);
            }
        }
    }
    true
}

/// Number of times a character occurs in a text.
pub open spec fn count_in(s: Seq<char>, c: char) -> nat
    decreases s.len(),
{
    if s.len() == 0 {
        0
    } else {
        count_in(s.drop_last(), c) + if s.last() == c {
            1nat
        } else {
            0nat
        }
    }
}

/// A character occurs no more often than the text is long.
pub proof fn lemma_count_in_bound(s: Seq<char>, c: char)
    ensures
        count_in(s, c) <= s.len(),
    decreases s.len(),
{
    if s.len() > 0 {
        lemma_count_in_bound(s.drop_last(), c);
    }
}

/// Whether a character occurs anywhere in a character sequence.
pub fn contains_char(cs: &Vec<char>, c: char) -> (r: bool)
    ensures
        r == cs@.contains(c),
{
    let mut i: usize = 0;
    while i < cs.len()
        invariant
            i <= cs@.len(),
            forall|j: int| 0 <= j < i ==> cs@[j] != c,
        decreases cs@.len() - i,
    {
        if cs[i] == c {
            return true;
        }
        i = i + 1;
    }
    false
}

} // verus!
