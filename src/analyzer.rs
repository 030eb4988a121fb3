//! The analyzer: derives the properties of a text, its content address
//! among them.

use vstd::prelude::*;
use vstd::string::StringSliceAdditionalSpecFns;
use crate::text::{
    chars_of, char_is_alphabetic, content_address, content_id, count_in, is_alpha, is_mirror,
    lemma_count_in_bound, lower_of, hex_of, sha256_of, lowercase_chars, split_words, words_of,
};

verus! {

/// Properties derived from a text.
#[derive(Clone, Debug)]
pub struct StringProperties {
    /// Length in UTF-8 bytes.
    pub length: usize,
    /// Whether the lowercase text reads the same backwards.
    pub is_palindrome: bool,
    /// Number of distinct alphabetic characters, case-sensitive.
    pub unique_characters: usize,
    /// Number of whitespace-delimited words.
    pub word_count: usize,
    /// Lowercase hex SHA-256 digest of the text's bytes.
    pub sha256_hash: String,
    /// Each alphabetic character with its number of occurrences, one entry
    /// per character.
    pub character_frequency_map: Vec<(char, usize)>,
}

/// The properties as mathematical values.
pub struct PropertiesView {
    pub length: nat,
    pub is_palindrome: bool,
    pub unique_characters: nat,
    pub word_count: nat,
    pub sha256_hash: Seq<char>,
    pub character_frequency_map: Seq<(char, usize)>,
}

impl View for StringProperties {
    type V = PropertiesView;

    open spec fn view(&self) -> PropertiesView {
        PropertiesView {
            length: self.length as nat,
            is_palindrome: self.is_palindrome,
            unique_characters: self.unique_characters as nat,
            word_count: self.word_count as nat,
            sha256_hash: self.sha256_hash@,
            character_frequency_map: self.character_frequency_map@,
        }
    }
}

impl StringProperties {
    /// A copy of these properties.
    pub fn duplicate(&self) -> (r: StringProperties)
        ensures
            r@ == self@,
    {
        let mut table: Vec<(char, usize)> = Vec::new();
        let mut i: usize = 0;
        while i < self.character_frequency_map.len()
            invariant
                i <= self.character_frequency_map@.len(),
                table@ == self.character_frequency_map@.take(i as int),
            decreases self.character_frequency_map@.len() - i,
        {
            table.push(self.character_frequency_map[i]);
            i = i + 1;
            assert(table@ =~= self.character_frequency_map@.take(i as int));
        }
        assert(table@ =~= self.character_frequency_map@);
        StringProperties {
            length: self.length,
            is_palindrome: self.is_palindrome,
            unique_characters: self.unique_characters,
            word_count: self.word_count,
            sha256_hash: self.sha256_hash.clone(),
            character_frequency_map: table,
        }
    }
}

/// `c` is an alphabetic character of `s`.
pub open spec fn is_letter_of(s: Seq<char>, c: char) -> bool {
    s.contains(c) && is_alpha(c)
}

/// The distinct alphabetic characters of a text.
pub open spec fn distinct_letters(s: Seq<char>) -> Set<char> {
    Set::new(|c: char| is_letter_of(s, c))
}

/// `t` lists each alphabetic character of `s` once, with its number of
/// occurrences, and nothing else.
pub open spec fn frequency_table(s: Seq<char>, t: Seq<(char, usize)>) -> bool {
    &&& forall|j: int, k: int| 0 <= j < k < t.len() ==> #[trigger] t[j].0 != #[trigger] t[k].0
    &&& forall|j: int|
        0 <= j < t.len() ==> is_letter_of(s, #[trigger] t[j].0) && t[j].1 == count_in(s, t[j].0)
    &&& forall|c: char| is_letter_of(s, c) ==> exists|j: int| 0 <= j < t.len() && #[trigger] t[j].0 == c
}

/// Index of the entry for `c`, if the table has one.
fn find_entry(t: &Vec<(char, usize)>, c: char) -> (r: Option<usize>)
    ensures
        match r {
            Some(k) => k < t@.len() && t@[k as int].0 == c,
            None => forall|j: int| 0 <= j < t@.len() ==> #[trigger] t@[j].0 != c,
        },
{
    let mut k: usize = 0;
    while k < t.len()
        invariant
            k <= t@.len(),
            forall|j: int| 0 <= j < k ==> #[trigger] t@[j].0 != c,
        decreases t@.len() - k,
    {
        if t[k].0 == c {
            return Some(k);
        }
        k = k + 1;
    }
    None
}

/// Counts the occurrences of each alphabetic character.
pub fn letter_frequencies(cs: &Vec<char>) -> (r: Vec<(char, usize)>)
    ensures
        frequency_table(cs@, r@),
{
    let mut t: Vec<(char, usize)> = Vec::new();
    let mut i: usize = 0;
    while i < cs.len()
        invariant
            i <= cs@.len(),
            frequency_table(cs@.take(i as int), t@),
        decreases cs@.len() - i,
    {
        let c = cs[i];
        let ghost p = cs@.take(i as int);
        let ghost q = cs@.take(i + 1);
        assert(q =~= p.push(c));
        assert(q.drop_last() =~= p);
        assert forall|x: char| #[trigger] q.contains(x) <==> p.contains(x) || x == c by {
            if p.contains(x) {
                let j = choose|j: int| 0 <= j < p.len() && p[j] == x;
                assert(q[j] == x);
            }
            if q.contains(x) && x != c {
                let j = choose|j: int| 0 <= j < q.len() && q[j] == x;
                assert(p[j] == x);
            }
            if x == c {
                assert(q[q.len() - 1] == x);
            }
        }
        let ghost t0 = t@;
        assert forall|x: char| x != c implies count_in(q, x) == count_in(p, x) by {}
        assert forall|x: char| x != c && is_letter_of(q, x) implies is_letter_of(p, x) by {}
        if char_is_alphabetic(c) {
            match find_entry(&t, c) {
                Some(k) => {
                    proof {
                        lemma_count_in_bound(p, c);
                    }
                    let n = t[k].1;
                    t.set(k, (c, n + 1));
                    assert forall|x: char| is_letter_of(q, x) implies exists|j: int|
                        0 <= j < t@.len() && #[trigger] t@[j].0 == x by {
                        if x != c {
                            let j = choose|j: int| 0 <= j < t0.len() && #[trigger] t0[j].0 == x;
                            assert(t@[j].0 == x);
                        } else {
                            assert(t@[k as int].0 == x);
                        }
                    }
                    assert forall|j: int| 0 <= j < t@.len() implies is_letter_of(q, #[trigger] t@[j].0)
                        && t@[j].1 == count_in(q, t@[j].0) by {
                        if j != k {
                            assert(t@[j] == t0[j]);
                        }
                    }
                },
                None => {
                    t.push((c, 1));
                    assert(count_in(p, c) == 0) by {
                        if count_in(p, c) > 0 {
                            lemma_count_positive(p, c);
                            assert(is_letter_of(p, c));
                            let j = choose|j: int| 0 <= j < t0.len() && #[trigger] t0[j].0 == c;
                            assert(t0[j].0 == c);
                        }
                    }
                    assert forall|x: char| is_letter_of(q, x) implies exists|j: int|
                        0 <= j < t@.len() && #[trigger] t@[j].0 == x by {
                        if x != c {
                            let j = choose|j: int| 0 <= j < t0.len() && #[trigger] t0[j].0 == x;
                            assert(t@[j].0 == x);
                        } else {
                            assert(t@[t@.len() - 1].0 == x);
                        }
                    }
                    assert forall|j: int| 0 <= j < t@.len() implies is_letter_of(q, #[trigger] t@[j].0)
                        && t@[j].1 == count_in(q, t@[j].0) by {
                        if j < t0.len() {
                            assert(t@[j] == t0[j]);
                        }
                    }
                },
            }
        } else {
            assert forall|x: char| is_letter_of(q, x) implies exists|j: int|
                0 <= j < t@.len() && #[trigger] t@[j].0 == x by {
                let j = choose|j: int| 0 <= j < t0.len() && #[trigger] t0[j].0 == x;
                assert(t@[j].0 == x);
            }
        }
        i = i + 1;
    }
    assert(cs@.take(cs@.len() as int) =~= cs@);
    t
}

/// A character that is counted at least once occurs in the text.
proof fn lemma_count_positive(s: Seq<char>, c: char)
    requires
        count_in(s, c) > 0,
    ensures
        s.contains(c),
    decreases s.len(),
{
    if s.last() == c {
        assert(s[s.len() - 1] == c);
    } else {
        lemma_count_positive(s.drop_last(), c);
        let j = choose|j: int| 0 <= j < s.len() - 1 && s.drop_last()[j] == c;
        assert(s[j] == c);
    }
}

/// A frequency table has one entry per distinct letter.
proof fn lemma_table_size(s: Seq<char>, t: Seq<(char, usize)>)
    requires
        frequency_table(s, t),
    ensures
        t.len() == distinct_letters(s).len(),
{
    let keys = t.map_values(|e: (char, usize)| e.0);
    assert(keys.no_duplicates()) by {
        assert forall|j: int, k: int| 0 <= j < keys.len() && 0 <= k < keys.len() && j != k
            implies keys[j] != keys[k] by {
            if j < k {
                assert(t[j].0 != t[k].0);
            } else {
                assert(t[k].0 != t[j].0);
            }
        }
    }
    assert(keys.to_set() =~= distinct_letters(s)) by {
        assert forall|c: char| keys.to_set().contains(c) <==> distinct_letters(s).contains(c) by {
            if keys.contains(c) {
                let j = choose|j: int| 0 <= j < keys.len() && keys[j] == c;
                assert(t[j].0 == c);
            }
            if is_letter_of(s, c) {
                let j = choose|j: int| 0 <= j < t.len() && #[trigger] t[j].0 == c;
                assert(keys[j] == c);
            }
        }
    }
    keys.unique_seq_to_set();
}

/// `p` holds exactly the properties of the text `s`.
pub open spec fn properties_of(s: Seq<char>, p: PropertiesView) -> bool {
    &&& p.length == vstd::utf8::encode_utf8(s).len()
    &&& p.is_palindrome == (lower_of(s) == lower_of(s).reverse())
    &&& p.unique_characters == distinct_letters(s).len()
    &&& p.word_count == words_of(s).len()
    &&& p.sha256_hash == content_id(s)
    &&& frequency_table(s, p.character_frequency_map)
}

/// Derives the properties of a text.
pub fn analyze_string(s: &str) -> (r: StringProperties)
    ensures
        properties_of(s@, r@),
        r.sha256_hash@.len() == 64,
{
    let length = s.as_bytes().len();
    let cs = chars_of(s);
    let lowered = lowercase_chars(&cs);
    let is_palindrome = is_mirror(&lowered);
    let table = letter_frequencies(&cs);
    proof {
        lemma_table_size(s@, table@);
    }
    let words = split_words(&cs);
    assert(words.deep_view().len() == words@.len());
    StringProperties {
        length,
        is_palindrome,
        unique_characters: table.len(),
        word_count: words.len(),
        sha256_hash: content_address(s),
        character_frequency_map: table,
    }
}

/// The hash an analysis reports is the content address of the text, and
/// two analyses of one text agree on it.
pub proof fn lemma_hash_is_content_address(s: &str, a: PropertiesView, b: PropertiesView)
    requires
        properties_of(s@, a),
        properties_of(s@, b),
    ensures
        a.sha256_hash == hex_of(sha256_of(s.spec_bytes())),
        a.sha256_hash == b.sha256_hash,
{
}

/// The length an analysis reports is the number of UTF-8 bytes of the
/// text, which can exceed its number of characters.
pub proof fn lemma_length_is_byte_length(s: &str, a: PropertiesView)
    requires
        properties_of(s@, a),
    ensures
        a.length == s.spec_bytes().len(),
        a.length >= s@.len(),
{
    lemma_encode_len(s@);
}

/// Every character takes at least one byte.
proof fn lemma_encode_len(s: Seq<char>)
    ensures
        vstd::utf8::encode_utf8(s).len() >= s.len(),
    decreases s.len(),
{
    if s.len() > 0 {
        lemma_encode_len(s.drop_first());
    }
}

} // verus!
