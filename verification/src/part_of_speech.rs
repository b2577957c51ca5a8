//! The four classic word categories and the parsing of their headers.

use vstd::prelude::*;

use crate::dictionary::DictionaryError;
use crate::text::str_to_chars;

verus! {

/// Represents a word category.
#[derive(Clone, Copy, PartialEq, Eq, Structural, Debug, Hash)]
pub enum PartOfSpeech {
    Verb,
    Noun,
    Adjective,
    Adverb,
}

/// The Unicode `White_Space` characters, the set that `str::trim` removes.
pub open spec fn is_space(c: char) -> bool {
    ||| c == '\u{0009}'
    ||| c == '\u{000A}'
    ||| c == '\u{000B}'
    ||| c == '\u{000C}'
    ||| c == '\u{000D}'
    ||| c == ' '
    ||| c == '\u{0085}'
    ||| c == '\u{00A0}'
    ||| c == '\u{1680}'
    ||| ('\u{2000}' <= c && c <= '\u{200A}')
    ||| c == '\u{2028}'
    ||| c == '\u{2029}'
    ||| c == '\u{202F}'
    ||| c == '\u{205F}'
    ||| c == '\u{3000}'
}

/// Whether `c` is a Unicode `White_Space` character.
fn is_space_char(c: char) -> (r: bool)
    ensures
        r == is_space(c),
{
    c == '\u{0009}' || c == '\u{000A}' || c == '\u{000B}' || c == '\u{000C}' || c == '\u{000D}'
        || c == ' ' || c == '\u{0085}' || c == '\u{00A0}' || c == '\u{1680}' || (c >= '\u{2000}'
        && c <= '\u{200A}') || c == '\u{2028}' || c == '\u{2029}' || c == '\u{202F}' || c
        == '\u{205F}' || c == '\u{3000}'
}

pub open spec fn is_plural_s(c: char) -> bool {
    c == 's' || c == 'S'
}

/// Whether `a` is `b` up to ASCII case, `b` being lower case.
pub open spec fn lower_eq_char(a: char, b: char) -> bool {
    a == b || ('A' <= a <= 'Z' && a as u32 + 32 == b as u32)
}

pub open spec fn trim_front(s: Seq<char>) -> Seq<char>
    decreases s.len(),
{
    if s.len() > 0 && is_space(s[0]) {
        trim_front(s.drop_first())
    } else {
        s
    }
}

pub open spec fn trim_back(s: Seq<char>) -> Seq<char>
    decreases s.len(),
{
    if s.len() > 0 && is_space(s.last()) {
        trim_back(s.drop_last())
    } else {
        s
    }
}

pub open spec fn strip_plural(s: Seq<char>) -> Seq<char>
    decreases s.len(),
{
    if s.len() > 0 && is_plural_s(s.last()) {
        strip_plural(s.drop_last())
    } else {
        s
    }
}

/// The key that header matching uses: surrounding whitespace removed,
/// then any run of trailing plural `s` removed.
pub open spec fn class_key(s: Seq<char>) -> Seq<char> {
    strip_plural(trim_back(trim_front(s)))
}

/// Whether `s` reads as the lower-case name `t` up to ASCII case.
pub open spec fn matches_name(s: Seq<char>, t: Seq<char>) -> bool {
    s.len() == t.len() && forall|i: int|
        0 <= i < s.len() ==> #[trigger] lower_eq_char(s[i], t[i])
}

proof fn lemma_trim_front_skip(s: Seq<char>, lo: int)
    requires
        0 <= lo <= s.len(),
        forall|j: int| 0 <= j < lo ==> is_space(#[trigger] s[j]),
        lo < s.len() ==> !is_space(s[lo]),
    ensures
        trim_front(s) == s.skip(lo),
    decreases lo,
{
    if lo == 0 {
        assert(s.skip(0) =~= s);
    } else {
        assert(is_space(s[0]));
        let d = s.drop_first();
        assert(forall|j: int| 0 <= j < lo - 1 ==> is_space(#[trigger] d[j]));
        lemma_trim_front_skip(d, lo - 1);
        assert(d.skip(lo - 1) =~= s.skip(lo));
    }
}

proof fn lemma_trim_back_take(s: Seq<char>, hi: int)
    requires
        0 <= hi <= s.len(),
        forall|j: int| hi <= j < s.len() ==> is_space(#[trigger] s[j]),
        hi > 0 ==> !is_space(s[hi - 1]),
    ensures
        trim_back(s) == s.take(hi),
    decreases s.len(),
{
    if hi == s.len() {
        assert(s.take(hi) =~= s);
    } else {
        assert(is_space(s.last()));
        let d = s.drop_last();
        assert(forall|j: int| hi <= j < d.len() ==> is_space(#[trigger] d[j]));
        lemma_trim_back_take(d, hi);
        assert(d.take(hi) =~= s.take(hi));
    }
}

proof fn lemma_strip_plural_take(s: Seq<char>, hi: int)
    requires
        0 <= hi <= s.len(),
        forall|j: int| hi <= j < s.len() ==> is_plural_s(#[trigger] s[j]),
        hi > 0 ==> !is_plural_s(s[hi - 1]),
    ensures
        strip_plural(s) == s.take(hi),
    decreases s.len(),
{
    if hi == s.len() {
        assert(s.take(hi) =~= s);
    } else {
        assert(is_plural_s(s.last()));
        let d = s.drop_last();
        assert(forall|j: int| hi <= j < d.len() ==> is_plural_s(#[trigger] d[j]));
        lemma_strip_plural_take(d, hi);
        assert(d.take(hi) =~= s.take(hi));
    }
}

/// Compares `a` with the lower-case target `b`, up to ASCII case of `a`.
fn lower_eq(a: char, b: char) -> (r: bool)
    ensures
        r == lower_eq_char(a, b),
{
    if a == b {
        true
    } else {
        a >= 'A' && a <= 'Z' && (a as u32) + 32 == (b as u32)
    }
}

/// Whether the characters of `chars` between `lo` and `hi` read as the
/// lower-case name `name` up to ASCII case.
fn matches_key(chars: &Vec<char>, lo: usize, hi: usize, name: &str) -> (r: bool)
    requires
        lo <= hi <= chars@.len(),
    ensures
        r == matches_name(chars@.subrange(lo as int, hi as int), name@),
{
    let ghost region = chars@.subrange(lo as int, hi as int);
    let m = name.unicode_len();
    if hi - lo != m {
        return false;
    }
    let mut i: usize = 0;
    while i < m
        invariant
            i <= m,
            m == name@.len(),
            lo <= hi <= chars@.len(),
            hi - lo == m,
            region == chars@.subrange(lo as int, hi as int),
            forall|j: int| 0 <= j < i ==> #[trigger] lower_eq_char(region[j], name@[j]),
        decreases m - i,
    {
        if !lower_eq(chars[lo + i], name.get_char(i)) {
            proof {
                assert(region[i as int] == chars@[lo + i]);
            }
            return false;
        }
        proof {
            assert(region[i as int] == chars@[lo + i]);
        }
        i = i + 1;
    }
    true
}

impl PartOfSpeech {
    /// The lower-case name of the category.
    pub open spec fn name_spec(&self) -> Seq<char> {
        match self {
            PartOfSpeech::Verb => "verb"@,
            PartOfSpeech::Noun => "noun"@,
            PartOfSpeech::Adjective => "adjective"@,
            PartOfSpeech::Adverb => "adverb"@,
        }
    }

    /// Returns the category's name as text.
    pub fn text(&self) -> (r: String)
        ensures
            r@ == self.name_spec(),
    {
        match self {
            PartOfSpeech::Verb => String::from_str("verb"),
            PartOfSpeech::Noun => String::from_str("noun"),
            PartOfSpeech::Adjective => String::from_str("adjective"),
            PartOfSpeech::Adverb => String::from_str("adverb"),
        }
    }

    /// Parses a class header: the category whose name the header reads
    /// as, ignoring ASCII case, surrounding whitespace and any trailing
    /// plural `s`.  Any other header is rejected.
    pub fn try_from(value: &str) -> (r: Result<PartOfSpeech, DictionaryError>)
        ensures
            match r {
                Ok(p) => matches_name(class_key(value@), p.name_spec()),
                Err(e) => {
                    &&& e matches DictionaryError::InvalidHeader(h) && h@ == value@
                    &&& !exists|p: PartOfSpeech|
                        matches_name(class_key(value@), #[trigger] p.name_spec())
                },
            },
    {
        let chars = str_to_chars(value);
        let n = chars.len();
        let mut lo: usize = 0;
        while lo < n && is_space_char(chars[lo])
            invariant
                lo <= n,
                n == chars@.len(),
                forall|j: int| 0 <= j < lo ==> is_space(#[trigger] chars@[j]),
            decreases n - lo,
        {
            lo = lo + 1;
        }
        let mut hi: usize = n;
        while hi > lo && is_space_char(chars[hi - 1])
            invariant
                lo <= hi <= n,
                n == chars@.len(),
                forall|j: int| hi <= j < n ==> is_space(#[trigger] chars@[j]),
            decreases hi,
        {
            hi = hi - 1;
        }
        let mut hi2: usize = hi;
        while hi2 > lo && (chars[hi2 - 1] == 's' || chars[hi2 - 1] == 'S')
            invariant
                lo <= hi2 <= hi <= n,
                n == chars@.len(),
                forall|j: int| hi2 <= j < hi ==> is_plural_s(#[trigger] chars@[j]),
            decreases hi2,
        {
            hi2 = hi2 - 1;
        }
        proof {
            let s = value@;
            lemma_trim_front_skip(s, lo as int);
            let s1 = s.skip(lo as int);
            assert(forall|j: int|
                hi - lo <= j < s1.len() ==> is_space(#[trigger] s1[j]));
            if hi > lo {
                assert(s1[hi - lo - 1] == s[hi - 1]);
            }
            lemma_trim_back_take(s1, hi - lo);
            let s2 = s1.take(hi - lo);
            assert(forall|j: int|
                hi2 - lo <= j < s2.len() ==> is_plural_s(#[trigger] s2[j]));
            if hi2 > lo {
                assert(s2[hi2 - lo - 1] == s[hi2 - 1]);
            }
            lemma_strip_plural_take(s2, hi2 - lo);
            assert(s2.take(hi2 - lo) =~= s.subrange(lo as int, hi2 as int));
            assert(class_key(value@) == s.subrange(lo as int, hi2 as int));
        }
        if matches_key(&chars, lo, hi2, "verb") {
            Ok(PartOfSpeech::Verb)
        } else if matches_key(&chars, lo, hi2, "noun") {
            Ok(PartOfSpeech::Noun)
        } else if matches_key(&chars, lo, hi2, "adjective") {
            Ok(PartOfSpeech::Adjective)
        } else if matches_key(&chars, lo, hi2, "adverb") {
            Ok(PartOfSpeech::Adverb)
        } else {
            proof {
                assert forall|p: PartOfSpeech| !matches_name(
                    class_key(value@),
                    #[trigger] p.name_spec(),
                ) by {
                    match p {
                        PartOfSpeech::Verb => assert(p.name_spec() == "verb"@),
                        PartOfSpeech::Noun => assert(p.name_spec() == "noun"@),
                        PartOfSpeech::Adjective => assert(p.name_spec() == "adjective"@),
                        PartOfSpeech::Adverb => assert(p.name_spec() == "adverb"@),
                    }
                }
            }
            Err(DictionaryError::InvalidHeader(String::from_str(value)))
        }
    }
}

} // verus!
