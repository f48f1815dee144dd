use vstd::prelude::*;

use crate::lang_map::{strings_view, LangMap};

verus! {

/// The mathematical content of a `Word`.
pub struct WordView {
    pub uuid: Seq<char>,
    pub definitions: Map<Seq<char>, Seq<Seq<char>>>,
    pub synonyms: Map<Seq<char>, Seq<Seq<char>>>,
    pub antonyms: Map<Seq<char>, Seq<Seq<char>>>,
    pub dependencies: Seq<Seq<char>>,
    pub dependers: Seq<Seq<char>>,
    pub description: Seq<char>,
}

/// One dictionary and thesaurus entry.
pub struct Word {
    pub uuid: String,
    /// Definitions, by language.
    pub definitions: LangMap,
    /// Identifiers of words of like meaning, by language.
    pub synonyms: LangMap,
    /// Identifiers of words of opposite meaning, by language.
    pub antonyms: LangMap,
    /// Identifiers of the words this word depends on, such as its roots.
    pub dependencies: Vec<String>,
    /// Identifiers of the words that depend on this word.
    pub dependers: Vec<String>,
    pub description: String,
}

impl View for Word {
    type V = WordView;

    open spec fn view(&self) -> WordView {
        WordView {
            uuid: self.uuid@,
            definitions: self.definitions@,
            synonyms: self.synonyms@,
            antonyms: self.antonyms@,
            dependencies: strings_view(self.dependencies@),
            dependers: strings_view(self.dependers@),
            description: self.description@,
        }
    }
}

impl Word {
    /// The three language maps each have one entry per language.
    pub open spec fn wf(&self) -> bool {
        &&& self.definitions.wf()
        &&& self.synonyms.wf()
        &&& self.antonyms.wf()
    }

    /// A word with an empty identifier, no definitions, no relations and an
    /// empty description.
    pub fn new() -> (r: Word)
        ensures
            r.wf(),
            r@.uuid.len() == 0,
            r@.definitions.is_empty(),
            r@.synonyms.is_empty(),
            r@.antonyms.is_empty(),
            r@.dependencies.len() == 0,
            r@.dependers.len() == 0,
            r@.description.len() == 0,
    {
        Word {
            uuid: String::new(),
            definitions: LangMap::new(),
            synonyms: LangMap::new(),
            antonyms: LangMap::new(),
            dependencies: Vec::new(),
            dependers: Vec::new(),
            description: String::new(),
        }
    }
}

impl Clone for Word {
    fn clone(&self) -> (r: Self)
        ensures
            r@ == self@,
            self.wf() ==> r.wf(),
    {
        let r = Word {
            uuid: self.uuid.clone(),
            definitions: self.definitions.clone(),
            synonyms: self.synonyms.clone(),
            antonyms: self.antonyms.clone(),
            dependencies: self.dependencies.clone(),
            dependers: self.dependers.clone(),
            description: self.description.clone(),
        };
        proof {
            assert(strings_view(r.dependencies@) =~= strings_view(self.dependencies@));
            assert(strings_view(r.dependers@) =~= strings_view(self.dependers@));
        }
        r
    }
}

/// A condition that selects words of a dictionary.
pub enum Query {
    /// The word whose identifier is this one.
    Uuid(String),
    /// The words that list `text` among their definitions in language `lang`.
    Definition { lang: String, text: String },
}

/// Whether `w` lists `text` as one of its definitions in language `lang`. A
/// word with no definitions in that language lists nothing.
pub open spec fn defines(w: WordView, lang: Seq<char>, text: Seq<char>) -> bool {
    w.definitions.contains_key(lang) && w.definitions[lang].contains(text)
}

impl Query {
    pub open spec fn selects(&self, w: WordView) -> bool {
        match self {
            Query::Uuid(id) => w.uuid == id@,
            Query::Definition { lang, text } => defines(w, lang@, text@),
        }
    }

    /// Whether this condition selects `w`.
    pub fn matches(&self, w: &Word) -> (r: bool)
        ensures
            r == self.selects(w@),
    {
        match self {
            Query::Uuid(id) => w.uuid.eq(id),
            Query::Definition { lang, text } => match w.definitions.get(lang) {
                Some(defs) => contains_string(defs, text),
                None => false,
            },
        }
    }
}

/// Whether `v` holds a string equal to `s`.
fn contains_string(v: &Vec<String>, s: &String) -> (r: bool)
    ensures
        r == strings_view(v@).contains(s@),
{
    let mut i: usize = 0;
    while i < v.len()
        invariant
            i <= v@.len(),
            forall|j: int| 0 <= j < i ==> v@[j]@ != s@,
        decreases v@.len() - i,
    {
        if v[i].eq(s) {
            assert(strings_view(v@)[i as int] == s@);
            return true;
        }
        i = i + 1;
    }
    assert(!strings_view(v@).contains(s@)) by {
        if strings_view(v@).contains(s@) {
            let j = choose|j: int| 0 <= j < strings_view(v@).len() && strings_view(v@)[j] == s@;
            assert(v@[j]@ == s@);
        }
    }
    false
}

} // verus!
