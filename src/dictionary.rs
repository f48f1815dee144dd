use vstd::prelude::*;

use crate::word::{defines, Query, Word, WordView};

verus! {

broadcast use vstd::seq_lib::group_seq_properties, vstd::seq_lib::group_filter_ensures;

/// The words of `ws` that list `text` among their definitions in `lang`, in
/// their order in `ws`.
pub open spec fn defined_by(ws: Seq<WordView>, lang: Seq<char>, text: Seq<char>) -> Seq<WordView> {
    ws.filter(|w: WordView| defines(w, lang, text))
}

/// The views of a list of words.
pub open spec fn words_view(ws: Seq<Word>) -> Seq<WordView> {
    ws.map_values(|w: Word| w@)
}

/// An ordered collection of words, read-only once built.
pub struct Dictionary {
    pub words: Vec<Word>,
}

impl View for Dictionary {
    type V = Seq<WordView>;

    open spec fn view(&self) -> Seq<WordView> {
        words_view(self.words@)
    }
}

impl Dictionary {
    /// Every word is well formed.
    pub open spec fn wf(&self) -> bool {
        forall|i: int| 0 <= i < self.words@.len() ==> #[trigger] self.words@[i].wf()
    }

    /// The dictionary with no words.
    pub fn new() -> (r: Dictionary)
        ensures
            r.wf(),
            r@ == Seq::<WordView>::empty(),
    {
        let r = Dictionary { words: Vec::new() };
        assert(r@ =~= Seq::<WordView>::empty());
        r
    }

    /// The dictionary that holds `words`, in their order.
    pub fn from_words(words: Vec<Word>) -> (r: Dictionary)
        ensures
            r.words@ == words@,
            r@ == words_view(words@),
    {
        Dictionary { words }
    }

    /// The number of words.
    pub fn len(&self) -> (r: usize)
        ensures
            r == self@.len(),
    {
        self.words.len()
    }

    /// The first word that `query` selects, if any.
    pub fn find(&self, query: &Query) -> (r: Option<Word>)
        ensures
            match r {
                None => forall|i: int| 0 <= i < self@.len() ==> !query.selects(#[trigger] self@[i]),
                Some(w) => exists|i: int|
                    0 <= i < self@.len() && w@ == self@[i] && query.selects(self@[i]) && (forall|
                        j: int,
                    | 0 <= j < i ==> !query.selects(#[trigger] self@[j])),
            },
            self.wf() && r is Some ==> r->Some_0.wf(),
    {
        let mut i: usize = 0;
        while i < self.words.len()
            invariant
                i <= self.words@.len(),
                forall|j: int| 0 <= j < i ==> !query.selects(#[trigger] self@[j]),
            decreases self.words@.len() - i,
        {
            if query.matches(&self.words[i]) {
                let w = self.words[i].clone();
                assert(w@ == self@[i as int]);
                return Some(w);
            }
            i = i + 1;
        }
        None
    }

    /// All the words that `query` selects, in their order in the dictionary.
    pub fn find_all(&self, query: &Query) -> (r: Vec<Word>)
        ensures
            words_view(r@) == self@.filter(|w: WordView| query.selects(w)),
            self.wf() ==> forall|i: int| 0 <= i < r@.len() ==> #[trigger] r@[i].wf(),
    {
        let ghost p = |w: WordView| query.selects(w);
        let mut out: Vec<Word> = Vec::new();
        let mut i: usize = 0;
        while i < self.words.len()
            invariant
                i <= self.words@.len(),
                p == (|w: WordView| query.selects(w)),
                words_view(out@) == self@.subrange(0, i as int).filter(p),
                self.wf() ==> forall|j: int| 0 <= j < out@.len() ==> #[trigger] out@[j].wf(),
            decreases self.words@.len() - i,
        {
            let ghost before = out@;
            proof {
                let pre = self@.subrange(0, i as int);
                assert(self@.subrange(0, i + 1) =~= pre.push(self@[i as int]));
                pre.lemma_filter_push(self@[i as int], p);
                assert(self@[i as int] == self.words@[i as int]@);
            }
            if query.matches(&self.words[i]) {
                out.push(self.words[i].clone());
                assert(words_view(out@) =~= words_view(before).push(self@[i as int]));
            }
            i = i + 1;
        }
        assert(self@.subrange(0, i as int) =~= self@);
        out
    }
}

/// The word whose identifier is `uuid`: the first one, should several share it.
pub fn search_uuid(dict: &Dictionary, uuid: String) -> (r: Option<Word>)
    ensures
        match r {
            None => forall|i: int| 0 <= i < dict@.len() ==> #[trigger] dict@[i].uuid != uuid@,
            Some(w) => {
                &&& w@.uuid == uuid@
                &&& exists|i: int|
                    0 <= i < dict@.len() && w@ == dict@[i] && (forall|j: int|
                        0 <= j < i ==> #[trigger] dict@[j].uuid != uuid@)
            },
        },
{
    let query = Query::Uuid(uuid);
    let r = dict.find(&query);
    r
}

/// The words that list `word` among their definitions in language `lang`, in
/// their order in the dictionary. Words without definitions in `lang` are
/// passed over.
pub fn search_word(dict: &Dictionary, lang: String, word: String) -> (r: Vec<Word>)
    ensures
        words_view(r@) == defined_by(dict@, lang@, word@),
{
    let ghost l = lang@;
    let ghost t = word@;
    let query = Query::Definition { lang, text: word };
    let r = dict.find_all(&query);
    assert((|w: WordView| query.selects(w)) =~= (|w: WordView| defines(w, l, t)));
    r
}

/// A search by definition finds nothing when no word lists the text among
/// its definitions in that language.
pub proof fn lemma_search_word_none(ws: Seq<WordView>, lang: Seq<char>, text: Seq<char>)
    requires
        forall|i: int| 0 <= i < ws.len() ==> !defines(#[trigger] ws[i], lang, text),
    ensures
        defined_by(ws, lang, text).len() == 0,
{
    let p = |w: WordView| defines(w, lang, text);
    let r = defined_by(ws, lang, text);
    if r.len() > 0 {
        ws.lemma_filter_pred(p, 0);
        assert(r.contains(r[0]));
        ws.lemma_filter_contains_rev(p, r[0]);
    }
}

/// A search by definition finds every word that lists the text in that
/// language, and only such words of the dictionary.
pub proof fn lemma_search_word_complete(ws: Seq<WordView>, lang: Seq<char>, text: Seq<char>)
    ensures
        forall|i: int|
            0 <= i < ws.len() && defines(ws[i], lang, text) ==> defined_by(ws, lang, text).contains(
                #[trigger] ws[i],
            ),
        forall|k: int|
            0 <= k < defined_by(ws, lang, text).len() ==> defines(
                #[trigger] defined_by(ws, lang, text)[k],
                lang,
                text,
            ) && ws.contains(defined_by(ws, lang, text)[k]),
{
    let p = |w: WordView| defines(w, lang, text);
    assert forall|i: int| 0 <= i < ws.len() && defines(ws[i], lang, text) implies defined_by(
        ws,
        lang,
        text,
    ).contains(#[trigger] ws[i]) by {
        ws.lemma_filter_contains(p, i);
    }
    assert forall|k: int| 0 <= k < defined_by(ws, lang, text).len() implies defines(
        #[trigger] defined_by(ws, lang, text)[k],
        lang,
        text,
    ) && ws.contains(defined_by(ws, lang, text)[k]) by {
        let r = defined_by(ws, lang, text);
        ws.lemma_filter_pred(p, k);
        assert(r.contains(r[k]));
        ws.lemma_filter_contains_rev(p, r[k]);
    }
}

/// Searching the results of a search by definition again, with the same
/// language and text, gives the same results.
pub proof fn lemma_search_word_idempotent(ws: Seq<WordView>, lang: Seq<char>, text: Seq<char>)
    ensures
        defined_by(defined_by(ws, lang, text), lang, text) == defined_by(ws, lang, text),
    decreases ws.len(),
{
    let p = |w: WordView| defines(w, lang, text);
    if ws.len() > 0 {
        let rest = ws.drop_last();
        assert(ws =~= rest.push(ws.last()));
        lemma_search_word_idempotent(rest, lang, text);
        rest.lemma_filter_push(ws.last(), p);
        rest.filter(p).lemma_filter_push(ws.last(), p);
    } else {
        reveal(Seq::filter);
    }
}

/// A word with no definitions in the searched language takes no part in a
/// search by definition: without it, the results are the same.
pub proof fn lemma_search_word_skips_missing_language(
    ws: Seq<WordView>,
    i: int,
    lang: Seq<char>,
    text: Seq<char>,
)
    requires
        0 <= i < ws.len(),
        !ws[i].definitions.contains_key(lang),
    ensures
        defined_by(ws.remove(i), lang, text) == defined_by(ws, lang, text),
    decreases ws.len(),
{
    let p = |w: WordView| defines(w, lang, text);
    let rest = ws.drop_last();
    assert(ws =~= rest.push(ws.last()));
    rest.lemma_filter_push(ws.last(), p);
    if i == ws.len() - 1 {
        assert(ws.remove(i) =~= rest);
    } else {
        assert(ws.remove(i) =~= rest.remove(i).push(ws.last()));
        lemma_search_word_skips_missing_language(rest, i, lang, text);
        rest.remove(i).lemma_filter_push(ws.last(), p);
    }
}

} // verus!
