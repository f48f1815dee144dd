use vstd::prelude::*;

verus! {

/// The view of a list of strings: the character sequence of each.
pub open spec fn strings_view(v: Seq<String>) -> Seq<Seq<char>> {
    v.map_values(|s: String| s@)
}

/// The strings that one language maps to.
pub struct LangList {
    pub lang: String,
    pub items: Vec<String>,
}

impl View for LangList {
    type V = (Seq<char>, Seq<Seq<char>>);

    open spec fn view(&self) -> (Seq<char>, Seq<Seq<char>>) {
        (self.lang@, strings_view(self.items@))
    }
}

impl Clone for LangList {
    fn clone(&self) -> (r: Self)
        ensures
            r@ == self@,
    {
        let r = LangList { lang: self.lang.clone(), items: self.items.clone() };
        proof {
            assert(strings_view(r.items@) =~= strings_view(self.items@));
        }
        r
    }
}

/// What a list of entries maps `k` to: the last entry for `k` decides.
pub open spec fn lookup(s: Seq<(Seq<char>, Seq<Seq<char>>)>, k: Seq<char>) -> Option<Seq<Seq<char>>>
    decreases s.len(),
{
    if s.len() == 0 {
        None
    } else if s.last().0 == k {
        Some(s.last().1)
    } else {
        lookup(s.drop_last(), k)
    }
}

/// A map from language identifiers to lists of strings, kept as a list of
/// entries with distinct languages.
pub struct LangMap {
    pub entries: Vec<LangList>,
}

impl View for LangMap {
    type V = Map<Seq<char>, Seq<Seq<char>>>;

    open spec fn view(&self) -> Map<Seq<char>, Seq<Seq<char>>> {
        Map::new(
            |k: Seq<char>| lookup(self.entries_view(), k) is Some,
            |k: Seq<char>| lookup(self.entries_view(), k)->Some_0,
        )
    }
}

impl LangMap {
    pub open spec fn entries_view(&self) -> Seq<(Seq<char>, Seq<Seq<char>>)> {
        self.entries@.map_values(|e: LangList| e@)
    }

    /// No language has two entries.
    pub open spec fn wf(&self) -> bool {
        forall|i: int, j: int|
            0 <= i < j < self.entries@.len() ==> self.entries@[i].lang@ != self.entries@[j].lang@
    }

    pub fn new() -> (r: LangMap)
        ensures
            r.wf(),
            r@ == Map::<Seq<char>, Seq<Seq<char>>>::empty(),
    {
        let r = LangMap { entries: Vec::new() };
        assert(r@ =~= Map::<Seq<char>, Seq<Seq<char>>>::empty());
        r
    }

    /// The position of the last entry for `lang`, if there is one.
    fn position(&self, lang: &String) -> (r: Option<usize>)
        ensures
            match r {
                Some(i) => {
                    &&& i < self.entries@.len()
                    &&& self.entries@[i as int].lang@ == lang@
                    &&& forall|j: int|
                        i < j < self.entries@.len() ==> self.entries@[j].lang@ != lang@
                },
                None => forall|j: int|
                    0 <= j < self.entries@.len() ==> self.entries@[j].lang@ != lang@,
            },
    {
        let mut i: usize = self.entries.len();
        while i > 0
            invariant
                i <= self.entries@.len(),
                forall|j: int| i <= j < self.entries@.len() ==> self.entries@[j].lang@ != lang@,
            decreases i,
        {
            if self.entries[i - 1].lang.eq(lang) {
                return Some(i - 1);
            }
            i = i - 1;
        }
        None
    }

    /// The lookup over a prefix of the entries, up to and including the last
    /// entry for `k`, is the lookup over all of them.
    proof fn lemma_lookup_suffix(s: Seq<(Seq<char>, Seq<Seq<char>>)>, n: int, k: Seq<char>)
        requires
            0 <= n <= s.len(),
            forall|j: int| n <= j < s.len() ==> s[j].0 != k,
        ensures
            lookup(s, k) == lookup(s.subrange(0, n), k),
        decreases s.len(),
    {
        if s.len() > n {
            assert(s.drop_last() =~= s.drop_last().subrange(0, s.len() - 1));
            Self::lemma_lookup_suffix(s.drop_last(), n, k);
            assert(s.drop_last().subrange(0, n) =~= s.subrange(0, n));
        } else {
            assert(s.subrange(0, n) =~= s);
        }
    }

    /// Replacing the last entry for a language changes what that language
    /// maps to, and nothing else.
    proof fn lemma_lookup_update(
        s: Seq<(Seq<char>, Seq<Seq<char>>)>,
        i: int,
        e: (Seq<char>, Seq<Seq<char>>),
        k: Seq<char>,
    )
        requires
            0 <= i < s.len(),
            s[i].0 == e.0,
            forall|j: int| i < j < s.len() ==> s[j].0 != e.0,
        ensures
            lookup(s.update(i, e), k) == if k == e.0 {
                Some(e.1)
            } else {
                lookup(s, k)
            },
        decreases s.len(),
    {
        let t = s.update(i, e);
        if i == s.len() - 1 {
            assert(t.drop_last() =~= s.drop_last());
        } else {
            assert(t.drop_last() =~= s.drop_last().update(i, e));
            Self::lemma_lookup_update(s.drop_last(), i, e, k);
        }
    }

    /// The strings that `lang` maps to, if any.
    pub fn get(&self, lang: &String) -> (r: Option<&Vec<String>>)
        ensures
            match r {
                Some(v) => self@.contains_key(lang@) && self@[lang@] == strings_view(v@),
                None => !self@.contains_key(lang@),
            },
    {
        let ghost s = self.entries_view();
        match self.position(lang) {
            Some(i) => {
                proof {
                    Self::lemma_lookup_suffix(s, i + 1, lang@);
                    assert(s.subrange(0, i + 1).last() == s[i as int]);
                }
                Some(&self.entries[i].items)
            },
            None => {
                proof {
                    Self::lemma_lookup_suffix(s, 0, lang@);
                }
                None
            },
        }
    }

    /// Makes `lang` map to `items`, in place of what it mapped to before.
    pub fn insert(&mut self, lang: String, items: Vec<String>)
        ensures
            old(self).wf() ==> final(self).wf(),
            final(self)@ == old(self)@.insert(lang@, strings_view(items@)),
    {
        let ghost s = self.entries_view();
        let ghost k = lang@;
        let ghost e = (lang@, strings_view(items@));
        match self.position(&lang) {
            Some(i) => {
                self.entries.set(i, LangList { lang, items });
                proof {
                    assert(self.entries_view() =~= s.update(i as int, e));
                    assert forall|k2: Seq<char>|
                        lookup(self.entries_view(), k2) == if k2 == k {
                            Some(e.1)
                        } else {
                            lookup(s, k2)
                        } by {
                        Self::lemma_lookup_update(s, i as int, e, k2);
                    }
                }
            },
            None => {
                self.entries.push(LangList { lang, items });
                proof {
                    assert(self.entries_view() =~= s.push(e));
                    assert(self.entries_view().drop_last() =~= s);
                }
            },
        }
        assert(self@ =~= old(self)@.insert(k, e.1));
    }
}

impl Clone for LangMap {
    fn clone(&self) -> (r: Self)
        ensures
            r@ == self@,
            r.entries_view() == self.entries_view(),
            self.wf() ==> r.wf(),
    {
        let r = LangMap { entries: self.entries.clone() };
        proof {
            assert(r.entries_view() =~= self.entries_view());
            assert forall|i: int| 0 <= i < r.entries@.len() implies r.entries@[i].lang@
                == self.entries@[i].lang@ by {
                assert(r.entries_view()[i] == self.entries_view()[i]);
            }
            assert(r@ =~= self@);
        }
        r
    }
}

} // verus!
