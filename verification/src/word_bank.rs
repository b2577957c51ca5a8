//! The class-name to word-list mapping that phrase generation draws from.

use vstd::prelude::*;

use crate::text::str_eq;

verus! {

/// One word class: a name together with its candidate words.
struct WordClass {
    name: String,
    words: Vec<String>,
}

/// The mapping described by a sequence of classes; a later entry for the
/// same name shadows an earlier one, as with repeated map insertion.
spec fn classes_map(entries: Seq<WordClass>) -> Map<Seq<char>, Seq<Seq<char>>>
    decreases entries.len(),
{
    if entries.len() == 0 {
        Map::empty()
    } else {
        classes_map(entries.drop_last()).insert(
            entries.last().name@,
            entries.last().words.deep_view(),
        )
    }
}

proof fn lemma_classes_map_last_match(entries: Seq<WordClass>, k: Seq<char>, i: int)
    requires
        0 <= i < entries.len(),
        entries[i].name@ == k,
        forall|j: int| i < j < entries.len() ==> entries[j].name@ != k,
    ensures
        classes_map(entries).contains_key(k),
        classes_map(entries)[k] == entries[i].words.deep_view(),
    decreases entries.len(),
{
    if i < entries.len() - 1 {
        lemma_classes_map_last_match(entries.drop_last(), k, i);
    }
}

proof fn lemma_classes_map_no_match(entries: Seq<WordClass>, k: Seq<char>)
    requires
        forall|j: int| 0 <= j < entries.len() ==> entries[j].name@ != k,
    ensures
        !classes_map(entries).contains_key(k),
    decreases entries.len(),
{
    if entries.len() > 0 {
        lemma_classes_map_no_match(entries.drop_last(), k);
    }
}

/// An immutable-after-construction mapping from class name to an ordered
/// list of candidate words.  Word lists may legitimately be empty; an empty
/// list is only discovered at generation time.
pub struct WordBank {
    entries: Vec<WordClass>,
}

impl View for WordBank {
    type V = Map<Seq<char>, Seq<Seq<char>>>;

    closed spec fn view(&self) -> Map<Seq<char>, Seq<Seq<char>>> {
        classes_map(self.entries@)
    }
}

impl WordBank {
    /// Creates a bank with no classes.
    pub fn new() -> (r: WordBank)
        ensures
            r@ == Map::<Seq<char>, Seq<Seq<char>>>::empty(),
    {
        WordBank { entries: Vec::new() }
    }

    /// Adds a class, replacing the word list of an existing class of the
    /// same name.
    pub fn insert(&mut self, name: String, words: Vec<String>)
        ensures
            final(self)@ == old(self)@.insert(name@, words.deep_view()),
    {
        let ghost before = self.entries@;
        let entry = WordClass { name, words };
        self.entries.push(entry);
        proof {
            assert(self.entries@.drop_last() =~= before);
        }
    }

    /// Looks a class up by name, returning its word list, or `None` when no
    /// class of that name exists.
    pub fn get<'a>(&'a self, name: &str) -> (r: Option<&'a Vec<String>>)
        ensures
            match r {
                Some(words) => self@.contains_key(name@) && self@[name@]
                    == words.deep_view(),
                None => !self@.contains_key(name@),
            },
    {
        let n = self.entries.len();
        let mut i: usize = n;
        while i > 0
            invariant
                i <= n,
                n == self.entries.len(),
                forall|j: int| i <= j < n ==> self.entries@[j].name@ != name@,
            decreases i,
    {
            i = i - 1;
            if str_eq(self.entries[i].name.as_str(), name) {
                proof {
                    lemma_classes_map_last_match(self.entries@, name@, i as int);
                }
                return Some(&self.entries[i].words);
            }
        }
        proof {
            lemma_classes_map_no_match(self.entries@, name@);
        }
        None
    }
}

} // verus!
