//! Localisation tables: for each language, texts by key. Texts may refer to
//! other keys as `$key`; such references are replaced when a text is
//! registered.
use crate::advini::{
    has_error, ini_has_error, ini_items, pair_views, parse_for_props,
    parse_for_sections, parse_for_sections_with, props_of, section_entries, section_pairs,
    sections_of, sections_view, RawValues, Section, ValueFilter,
};
use crate::room::{find, lemma_find_at, names, position_of};
use crate::text::{chars_of, copy_string, owned, push_char, str_eq};
use vstd::prelude::*;

verus! {

/// The texts of one language.
#[derive(Debug)]
struct LangTable {
    lang: String,
    keys: Vec<String>,
    values: Vec<String>,
}

/// The texts of one language as a map.
spec fn table_map(t: LangTable) -> Map<Seq<char>, Seq<char>> {
    Map::new(
        |k: Seq<char>| find(names(t.keys@), k) >= 0,
        |k: Seq<char>| t.values@[find(names(t.keys@), k)]@,
    )
}

spec fn table_wf(t: LangTable) -> bool {
    &&& t.keys@.len() == t.values@.len()
    &&& names(t.keys@).no_duplicates()
}

spec fn langs_of(v: Seq<LangTable>) -> Seq<Seq<char>> {
    v.map_values(|t: LangTable| t.lang@)
}

/// Texts by language and key.
#[derive(Debug)]
pub struct Tables {
    langs: Vec<LangTable>,
}

impl Tables {
    /// The texts: for each language, a map from key to text.
    pub closed spec fn texts(&self) -> Map<Seq<char>, Map<Seq<char>, Seq<char>>> {
        Map::new(
            |l: Seq<char>| find(langs_of(self.langs@), l) >= 0,
            |l: Seq<char>| table_map(self.langs@[find(langs_of(self.langs@), l)]),
        )
    }

    /// No language or key appears twice.
    pub closed spec fn wf(&self) -> bool {
        &&& langs_of(self.langs@).no_duplicates()
        &&& forall|i: int| 0 <= i < self.langs@.len() ==> table_wf(#[trigger] self.langs@[i])
    }

    pub fn new() -> (r: Self)
        ensures
            r.wf(),
            r.texts() == Map::<Seq<char>, Map<Seq<char>, Seq<char>>>::empty(),
    {
        let r = Tables { langs: Vec::new() };
        assert(r.texts() =~= Map::<Seq<char>, Map<Seq<char>, Seq<char>>>::empty());
        r
    }

    /// Index of the table of `lang`.
    fn lang_index(&self, lang: &str) -> (r: Option<usize>)
        ensures
            match r {
                Some(i) => i < self.langs@.len() && find(langs_of(self.langs@), lang@) == i
                    && self.langs@[i as int].lang@ == lang@,
                None => find(langs_of(self.langs@), lang@) == -1,
            },
    {
        let mut i: usize = 0;
        while i < self.langs.len()
            invariant
                i <= self.langs@.len(),
                forall|k: int| 0 <= k < i ==> langs_of(self.langs@)[k] != lang@,
            decreases self.langs.len() - i,
        {
            if crate::text::str_eq(self.langs[i].lang.as_str(), lang) {
                proof {
                    lemma_find_at(langs_of(self.langs@), lang@, i as int);
                }
                return Some(i);
            }
            i = i + 1;
        }
        proof {
            lemma_find_at(langs_of(self.langs@), lang@, i as int);
        }
        None
    }

    /// Whether there is a table for `lang`.
    pub fn has_lang(&self, lang: &str) -> (r: bool)
        ensures
            r == self.texts().contains_key(lang@),
    {
        self.lang_index(lang).is_some()
    }

    /// The text of `key` in `lang`.
    pub fn lookup(&self, lang: &str, key: &str) -> (r: Option<String>)
        requires
            self.wf(),
        ensures
            match r {
                Some(v) => self.texts().contains_key(lang@) && self.texts()[lang@].contains_key(
                    key@,
                ) && v@ == self.texts()[lang@][key@],
                None => !(self.texts().contains_key(lang@) && self.texts()[lang@].contains_key(
                    key@,
                )),
            },
    {
        match self.lang_index(lang) {
            None => None,
            Some(i) => {
                let t = &self.langs[i];
                proof {
                    assert(table_wf(self.langs@[i as int]));
                    assert(self.texts().contains_key(lang@));
                    assert(self.texts()[lang@] == table_map(*t));
                }
                match position_of(&t.keys, key) {
                    Some(j) => {
                        assert(table_map(*t).contains_key(key@));
                        Some(copy_string(&t.values[j]))
                    },
                    None => None,
                }
            },
        }
    }

    /// Sets the text of `key` in `lang` (creating the language's table).
    pub fn insert(&mut self, lang: &str, key: &str, value: &str)
        requires
            old(self).wf(),
        ensures
            final(self).wf(),
            final(self).texts() == old(self).texts().insert(
                lang@,
                (if old(self).texts().contains_key(lang@) {
                    old(self).texts()[lang@]
                } else {
                    Map::empty()
                }).insert(key@, value@),
            ),
    {
        let ghost old_texts = self.texts();
        match self.lang_index(lang) {
            None => {
                let mut keys: Vec<String> = Vec::new();
                keys.push(owned(key));
                let mut values: Vec<String> = Vec::new();
                values.push(owned(value));
                let t = LangTable { lang: owned(lang), keys, values };
                let ghost before = self.langs@;
                self.langs.push(t);
                proof {
                    assert(names(t.keys@) =~= seq![key@]);
                    assert(langs_of(self.langs@) =~= langs_of(before).push(lang@));
                    assert(!langs_of(before).contains(lang@)) by {
                        lemma_find_contains(langs_of(before), lang@);
                    }
                    lemma_push_nodup(langs_of(before), lang@);
                    assert forall|i: int| 0 <= i < self.langs@.len() implies table_wf(#[trigger] self.langs@[i]) by {
                        if i < before.len() {
                            assert(self.langs@[i] == before[i]);
                        }
                    }
                    lemma_find_push(langs_of(before), lang@);
                    assert(find(names(t.keys@), key@) == 0);
                    assert(table_map(t) =~= Map::<Seq<char>, Seq<char>>::empty().insert(key@, value@)) by {
                        assert forall|k: Seq<char>| table_map(t).contains_key(k) <==> k == key@ by {
                            lemma_find_contains(names(t.keys@), k);
                        }
                    }
                    assert forall|l: Seq<char>| l != lang@ implies (find(langs_of(self.langs@), l) >= 0
                        <==> find(langs_of(before), l) >= 0) && (find(langs_of(before), l) >= 0
                        ==> find(langs_of(self.langs@), l) == find(langs_of(before), l)) by {
                        lemma_find_push_other(langs_of(before), lang@, l);
                    }
                    assert(self.texts() =~= old_texts.insert(lang@, Map::empty().insert(key@, value@))) by {
                        assert forall|l: Seq<char>| #[trigger] self.texts().contains_key(l) implies
                            self.texts()[l] == old_texts.insert(lang@, Map::empty().insert(key@, value@))[l] by {
                            if l != lang@ {
                                lemma_find_contains(langs_of(before), l);
                                let a = find(langs_of(before), l);
                                assert(self.langs@[a] == before[a]);
                            }
                        }
                    }
                }
            },
            Some(i) => {
                let ghost before = self.langs@;
                let mut t = self.langs.remove(i);
                let ghost t0 = t;
                proof {
                    assert(table_wf(before[i as int]));
                }
                match position_of(&t.keys, key) {
                    Some(j) => {
                        t.values.set(j, owned(value));
                        proof {
                            assert(table_map(t) =~= table_map(t0).insert(key@, value@)) by {
                                assert forall|k: Seq<char>| #[trigger] table_map(t).contains_key(k) implies
                                    table_map(t)[k] == table_map(t0).insert(key@, value@)[k] by {
                                    lemma_find_contains(names(t.keys@), k);
                                    if k == key@ {
                                        assert(find(names(t.keys@), k) == j);
                                    } else {
                                        assert(find(names(t.keys@), k) != j);
                                    }
                                }
                            }
                        }
                    },
                    None => {
                        let ghost kb = t.keys@;
                        t.keys.push(owned(key));
                        t.values.push(owned(value));
                        proof {
                            assert(names(t.keys@) =~= names(kb).push(key@));
                            lemma_push_nodup(names(kb), key@);
                            lemma_find_push(names(kb), key@);
                            assert(table_map(t) =~= table_map(t0).insert(key@, value@)) by {
                                assert forall|k: Seq<char>| k != key@ implies (find(names(t.keys@), k) >= 0
                                    <==> find(names(kb), k) >= 0) && (find(names(kb), k) >= 0
                                    ==> find(names(t.keys@), k) == find(names(kb), k)) by {
                                    lemma_find_push_other(names(kb), key@, k);
                                }
                                assert forall|k: Seq<char>| #[trigger] table_map(t).contains_key(k) implies
                                    table_map(t)[k] == table_map(t0).insert(key@, value@)[k] by {
                                    if k != key@ {
                                        lemma_find_contains(names(kb), k);
                                        let a = find(names(kb), k);
                                        assert(t.values@[a] == t0.values@[a]);
                                    }
                                }
                            }
                        }
                    },
                }
                self.langs.insert(i, t);
                proof {
                    assert(self.langs@ =~= before.update(i as int, t));
                    assert(langs_of(self.langs@) =~= langs_of(before));
                    assert forall|k: int| 0 <= k < self.langs@.len() implies table_wf(#[trigger] self.langs@[k]) by {
                        if k != i {
                            assert(self.langs@[k] == before[k]);
                        }
                    }
                    assert(t0 == before[i as int]);
                    assert(self.texts() =~= old_texts.insert(lang@, old_texts[lang@].insert(key@, value@))) by {
                        assert forall|l: Seq<char>| #[trigger] self.texts().contains_key(l) implies
                            self.texts()[l] == old_texts.insert(lang@, old_texts[lang@].insert(key@, value@))[l] by {
                            if l != lang@ {
                                lemma_find_contains(langs_of(before), l);
                                let a = find(langs_of(before), l);
                                assert(langs_of(before)[a] == l);
                                assert(langs_of(before)[i as int] == lang@);
                                assert(a != i);
                                assert(self.langs@[a] == before[a]);
                            }
                        }
                    }
                }
            },
        }
    }
}

proof fn lemma_find_contains(s: Seq<Seq<char>>, x: Seq<char>)
    ensures
        find(s, x) >= 0 <==> s.contains(x),
        find(s, x) >= 0 ==> find(s, x) < s.len() && s[find(s, x)] == x,
        find(s, x) >= 0 ==> forall|k: int| 0 <= k < find(s, x) ==> s[k] != x,
    decreases s.len(),
{
    if s.len() > 0 {
        lemma_find_contains(s.drop_first(), x);
        if s[0] != x {
            if s.drop_first().contains(x) {
                let k = choose|k: int| 0 <= k < s.drop_first().len() && s.drop_first()[k] == x;
                assert(s[k + 1] == x);
            }
            if s.contains(x) {
                let k = choose|k: int| 0 <= k < s.len() && s[k] == x;
                assert(s.drop_first()[k - 1] == x);
            }
            if find(s, x) >= 0 {
                assert forall|k: int| 0 <= k < find(s, x) implies s[k] != x by {
                    if k > 0 {
                        assert(s[k] == s.drop_first()[k - 1]);
                    }
                }
            }
        }
    }
}

proof fn lemma_push_nodup(s: Seq<Seq<char>>, x: Seq<char>)
    requires
        s.no_duplicates(),
        !s.contains(x),
    ensures
        s.push(x).no_duplicates(),
{
    assert forall|i: int, j: int| 0 <= i < s.len() + 1 && 0 <= j < s.len() + 1 && i != j implies s.push(
        x,
    )[i] != s.push(x)[j] by {
        if i == s.len() {
            assert(s[j] == s.push(x)[j]);
        } else if j == s.len() {
            assert(s[i] == s.push(x)[i]);
        }
    }
}

proof fn lemma_find_push(s: Seq<Seq<char>>, x: Seq<char>)
    requires
        !s.contains(x),
    ensures
        find(s.push(x), x) == s.len(),
{
    assert forall|k: int| 0 <= k < s.len() implies s.push(x)[k] != x by {
        assert(s.push(x)[k] == s[k]);
    }
    lemma_find_at(s.push(x), x, s.len() as int);
}

proof fn lemma_find_push_other(s: Seq<Seq<char>>, x: Seq<char>, y: Seq<char>)
    requires
        y != x,
    ensures
        find(s.push(x), y) >= 0 <==> find(s, y) >= 0,
        find(s, y) >= 0 ==> find(s.push(x), y) == find(s, y),
{
    lemma_find_contains(s, y);
    lemma_find_contains(s.push(x), y);
    if find(s, y) >= 0 {
        let i = find(s, y);
        assert forall|k: int| 0 <= k < i implies s.push(x)[k] != y by {
            assert(s.push(x)[k] == s[k]);
        }
        lemma_find_at(s.push(x), y, i);
    } else {
        assert forall|k: int| 0 <= k < s.len() + 1 implies s.push(x)[k] != y by {
            if k < s.len() {
                assert(s.push(x)[k] == s[k]);
            }
        }
        lemma_find_at(s.push(x), y, (s.len() + 1) as int);
    }
}

} // verus!

verus! {

impl Tables {
    /// Keys of the table of `a` that the table of `b` lacks (none if either
    /// table is missing).
    pub fn keys_missing(&self, a: &str, b: &str) -> (r: Vec<String>)
        requires
            self.wf(),
        ensures
            names(r@).no_duplicates(),
            self.texts().contains_key(a@) && self.texts().contains_key(b@) ==> names(r@).to_set()
                == self.texts()[a@].dom().difference(self.texts()[b@].dom()),
            !(self.texts().contains_key(a@) && self.texts().contains_key(b@)) ==> r@.len() == 0,
    {
        let ia = match self.lang_index(a) {
            Some(i) => i,
            None => {
                return Vec::new();
            },
        };
        let ib = match self.lang_index(b) {
            Some(i) => i,
            None => {
                return Vec::new();
            },
        };
        let ta = &self.langs[ia];
        let tb = &self.langs[ib];
        proof {
            assert(table_wf(*ta));
            assert(table_wf(*tb));
            assert(self.texts()[a@] == table_map(*ta));
            assert(self.texts()[b@] == table_map(*tb));
        }
        let mut r: Vec<String> = Vec::new();
        let mut i: usize = 0;
        while i < ta.keys.len()
            invariant
                i <= ta.keys@.len(),
                table_wf(*ta),
                names(r@).no_duplicates(),
                forall|x: Seq<char>| names(r@).contains(x) <==> (names(ta.keys@).subrange(0, i as int).contains(x)
                    && !names(tb.keys@).contains(x)),
            decreases ta.keys.len() - i,
        {
            let k = &ta.keys[i];
            let ghost before = r@;
            proof {
                assert(names(ta.keys@).subrange(0, i + 1) =~= names(ta.keys@).subrange(0, i as int).push(k@));
            }
            let found = position_of(&tb.keys, k.as_str());
            proof {
                if let Some(q) = found {
                    assert(names(tb.keys@)[q as int] == k@);
                    assert(names(tb.keys@).contains(k@));
                }
                assert forall|x: Seq<char>| names(ta.keys@).subrange(0, i + 1).contains(x) <==> (names(
                    ta.keys@,
                ).subrange(0, i as int).contains(x) || x == k@) by {
                    let p = names(ta.keys@).subrange(0, i as int);
                    if p.push(k@).contains(x) && x != k@ {
                        let q = choose|q: int| 0 <= q < p.push(k@).len() && p.push(k@)[q] == x;
                        assert(p[q] == x);
                    }
                    if p.contains(x) {
                        let q = choose|q: int| 0 <= q < p.len() && p[q] == x;
                        assert(p.push(k@)[q] == x);
                    }
                    if x == k@ {
                        assert(p.push(k@)[p.len() as int] == x);
                    }
                }
            }
            if found.is_none() {
                r.push(copy_string(k));
                proof {
                    assert(names(r@) =~= names(before).push(k@));
                    assert(!names(before).contains(k@)) by {
                        if names(before).contains(k@) {
                            let q = choose|q: int| 0 <= q < i && names(ta.keys@).subrange(0, i as int)[q] == k@;
                            assert(names(ta.keys@)[q] == names(ta.keys@)[i as int]);
                        }
                    }
                    lemma_push_nodup(names(before), k@);
                    assert forall|x: Seq<char>| names(r@).contains(x) <==> (names(before).contains(x) || x == k@) by {
                        if names(r@).contains(x) && x != k@ {
                            let q = choose|q: int| 0 <= q < names(r@).len() && names(r@)[q] == x;
                            assert(names(before)[q] == x);
                        }
                        if names(before).contains(x) {
                            let q = choose|q: int| 0 <= q < names(before).len() && names(before)[q] == x;
                            assert(names(r@)[q] == x);
                        }
                        if x == k@ {
                            assert(names(r@)[names(before).len() as int] == x);
                        }
                    }
                }
            }
            proof {
                assert forall|x: Seq<char>| names(r@).contains(x) <==> (names(ta.keys@).subrange(0, i + 1).contains(x)
                    && !names(tb.keys@).contains(x)) by {
                    assert(names(before).contains(x) <==> (names(ta.keys@).subrange(0, i as int).contains(x)
                        && !names(tb.keys@).contains(x)));
                    assert(names(ta.keys@).subrange(0, i + 1).contains(x) <==> (names(
                        ta.keys@,
                    ).subrange(0, i as int).contains(x) || x == k@));
                    if found.is_none() {
                        assert(names(r@).contains(x) <==> (names(before).contains(x) || x == k@));
                    } else {
                        assert(names(r@) == names(before));
                    }
                }
            }
            i = i + 1;
        }
        proof {
            assert(names(ta.keys@).subrange(0, ta.keys@.len() as int) =~= names(ta.keys@));
            assert(names(r@).to_set() =~= table_map(*ta).dom().difference(table_map(*tb).dom())) by {
                assert forall|x: Seq<char>| names(r@).to_set().contains(x) <==> table_map(*ta).dom().difference(table_map(*tb).dom()).contains(x) by {
                    lemma_find_contains(names(ta.keys@), x);
                    lemma_find_contains(names(tb.keys@), x);
                }
            }
        }
        r
    }
}

/// The text shown for `id`: its text in the main language; else, when the
/// main language has a table, its text in the additional language; else
/// `id` itself.
pub open spec fn locale_get(
    texts: Map<Seq<char>, Map<Seq<char>, Seq<char>>>,
    main: Seq<char>,
    add: Seq<char>,
    id: Seq<char>,
) -> Seq<char> {
    if !texts.contains_key(main) {
        id
    } else if texts[main].contains_key(id) {
        texts[main][id]
    } else if texts.contains_key(add) && texts[add].contains_key(id) {
        texts[add][id]
    } else {
        id
    }
}

/// `texts` with `key` of `lang` set to `value`.
pub open spec fn texts_insert(
    texts: Map<Seq<char>, Map<Seq<char>, Seq<char>>>,
    lang: Seq<char>,
    key: Seq<char>,
    value: Seq<char>,
) -> Map<Seq<char>, Map<Seq<char>, Seq<char>>> {
    texts.insert(
        lang,
        (if texts.contains_key(lang) {
            texts[lang]
        } else {
            Map::empty()
        }).insert(key, value),
    )
}

/// Localised texts with a main and an additional (fallback) language.
#[derive(Debug)]
pub struct Locale {
    map: Tables,
    pub main_lang: String,
    pub additional_lang: String,
}

impl Locale {
    /// The texts by language and key.
    pub closed spec fn texts(&self) -> Map<Seq<char>, Map<Seq<char>, Seq<char>>> {
        self.map.texts()
    }

    pub closed spec fn wf(&self) -> bool {
        self.map.wf()
    }

    /// The main language.
    pub closed spec fn main_of(&self) -> Seq<char> {
        self.main_lang@
    }

    /// The additional (fallback) language.
    pub closed spec fn additional(&self) -> Seq<char> {
        self.additional_lang@
    }

    /// Swaps the main and the additional language.
    pub fn switch_lang(&mut self)
        ensures
            final(self).texts() == old(self).texts(),
            final(self).wf() == old(self).wf(),
            final(self).main_of() == old(self).additional(),
            final(self).additional() == old(self).main_of(),
    {
        let main = copy_string(&self.main_lang);
        let add = copy_string(&self.additional_lang);
        self.main_lang = add;
        self.additional_lang = main;
    }

    /// Sets the main and the additional language.
    pub fn set_lang(&mut self, lang: (&String, &String))
        ensures
            final(self).texts() == old(self).texts(),
            final(self).wf() == old(self).wf(),
            final(self).main_of() == lang.0@,
            final(self).additional() == lang.1@,
    {
        self.main_lang = copy_string(lang.0);
        self.additional_lang = copy_string(lang.1);
    }

    /// Keys of the main language that the additional language lacks, each
    /// once, in no particular order (none if either language has no table).
    pub fn keys_lack(&mut self) -> (r: Vec<String>)
        requires
            old(self).wf(),
        ensures
            *final(self) == *old(self),
            names(r@).no_duplicates(),
            ({
                let t = old(self).texts();
                let (m, a) = (old(self).main_of(), old(self).additional());
                &&& t.contains_key(m) && t.contains_key(a) ==> names(r@).to_set() == t[m].dom().difference(t[a].dom())
                &&& !(t.contains_key(m) && t.contains_key(a)) ==> r@.len() == 0
            }),
    {
        self.map.keys_missing(self.main_lang.as_str(), self.additional_lang.as_str())
    }

    /// The text of `id` (see `locale_get`).
    pub fn get(&self, id: &str) -> (r: String)
        requires
            self.wf(),
        ensures
            r@ == locale_get(self.texts(), self.main_of(), self.additional(), id@),
    {
        if !self.map.has_lang(self.main_lang.as_str()) {
            return owned(id);
        }
        match self.map.lookup(self.main_lang.as_str(), id) {
            Some(v) => v,
            None => match self.map.lookup(self.additional_lang.as_str(), id) {
                Some(v) => v,
                None => owned(id),
            },
        }
    }

    /// Sets the text of `key` in `lang`.
    pub fn insert(&mut self, key: &str, value: &str, lang: &String)
        requires
            old(self).wf(),
        ensures
            final(self).wf(),
            final(self).texts() == texts_insert(old(self).texts(), lang@, key@, value@),
            final(self).main_of() == old(self).main_of(),
            final(self).additional() == old(self).additional(),
    {
        self.map.insert(lang.as_str(), key, value);
    }

    /// An empty locale.
    pub fn new(main_lang: String, additional_lang: String) -> (r: Self)
        ensures
            r.wf(),
            r.texts() == Map::<Seq<char>, Map<Seq<char>, Seq<char>>>::empty(),
            r.main_of() == main_lang@,
            r.additional() == additional_lang@,
    {
        Locale { map: Tables::new(), main_lang, additional_lang }
    }
}

} // verus!

verus! {

/// A letter of the Russian alphabet (`А`-`Я`, `а`-`я`, `Ё`, `ё`).
pub open spec fn is_rus_letter(c: char) -> bool {
    ('А' <= c && c <= 'Я') || ('а' <= c && c <= 'я') || c == 'ё' || c == 'Ё'
}

/// A character of a text key: ASCII letter or digit, Russian letter or `_`.
pub open spec fn is_ident_char(c: char) -> bool {
    ('a' <= c && c <= 'z') || ('A' <= c && c <= 'Z') || ('0' <= c && c <= '9') || is_rus_letter(c)
        || c == '_'
}

/// Whether `c` may appear in a text key.
pub fn is_identifier(c: char) -> (r: bool)
    ensures
        r == is_ident_char(c),
{
    ('a' <= c && c <= 'z') || ('A' <= c && c <= 'Z') || ('0' <= c && c <= '9') || ('А' <= c && c
        <= 'Я') || ('а' <= c && c <= 'я') || c == 'ё' || c == 'Ё' || c == '_'
}

/// How many characters of `s` from index `start` on satisfy `p`, in a row.
pub open spec fn run_len(s: Seq<char>, start: int, p: spec_fn(char) -> bool) -> nat
    decreases s.len() - start,
{
    if 0 <= start < s.len() && p(s[start]) {
        1 + run_len(s, start + 1, p)
    } else {
        0
    }
}

/// The references among the first `k` characters of `s`: for each `'$'`
/// followed by at least one character satisfying `p`, its index and one plus
/// the length of that run, in order.
pub open spec fn dollar_runs(s: Seq<char>, p: spec_fn(char) -> bool, k: int) -> Seq<(usize, usize)>
    decreases k,
{
    if k <= 0 {
        Seq::empty()
    } else {
        let r = dollar_runs(s, p, k - 1);
        let i = k - 1;
        if s[i] == '$' && run_len(s, i + 1, p) > 0 {
            r.push((i as usize, (1 + run_len(s, i + 1, p)) as usize))
        } else {
            r
        }
    }
}

pub(crate) proof fn lemma_run_len_bound(s: Seq<char>, start: int, p: spec_fn(char) -> bool)
    requires
        0 <= start,
    ensures
        start + run_len(s, start, p) <= if start < s.len() { s.len() as int } else { start },
    decreases s.len() - start,
{
    if 0 <= start < s.len() && p(s[start]) {
        lemma_run_len_bound(s, start + 1, p);
    }
}

/// The references in `string`: each `'$'` (by character index) followed by
/// characters satisfying `pat`, with one plus the number of those characters.
pub fn find_all_matches_in_string<F: Fn(char) -> bool>(string: &str, pat: F) -> (r: Vec<(usize, usize)>)
    requires
        forall|c: char| pat.requires((c,)),
        forall|c: char, a: bool, b: bool| pat.ensures((c,), a) && pat.ensures((c,), b) ==> a == b,
    ensures
        r@ == dollar_runs(string@, |c: char| pat.ensures((c,), true), string@.len() as int),
{
    let s = chars_of(string);
    let ghost p = |c: char| pat.ensures((c,), true);
    let n = s.len();
    let mut r: Vec<(usize, usize)> = Vec::new();
    let mut i: usize = 0;
    while i < n
        invariant
            n == s@.len(),
            s@ == string@,
            i <= n,
            p == (|c: char| pat.ensures((c,), true)),
            forall|c: char| pat.requires((c,)),
            forall|c: char, a: bool, b: bool| pat.ensures((c,), a) && pat.ensures((c,), b) ==> a == b,
            r@ == dollar_runs(s@, p, i as int),
        decreases n - i,
    {
        if s[i] == '$' {
            let mut counter: usize = 1;
            while i + counter < n && pat(s[i + counter])
                invariant
                    n == s@.len(),
                    i < n,
                    1 <= counter,
                    i + counter <= n,
                    p == (|c: char| pat.ensures((c,), true)),
                    forall|c: char| pat.requires((c,)),
                    forall|c: char, a: bool, b: bool| pat.ensures((c,), a) && pat.ensures((c,), b) ==> a == b,
                    run_len(s@, i + 1, p) == (counter - 1) + run_len(s@, (i + counter) as int, p),
                decreases n - i - counter,
            {
                counter = counter + 1;
            }
            proof {
                if i + counter < n {
                    assert(!p(s@[i + counter]));
                }
                assert(run_len(s@, (i + counter) as int, p) == 0);
            }
            if counter != 1 {
                r.push((i, counter));
            }
        }
        i = i + 1;
    }
    r
}

/// Bytes of the UTF-8 encoding of `c`.
pub open spec fn utf8_width(c: char) -> nat {
    if (c as u32) < 0x80 {
        1
    } else if (c as u32) < 0x800 {
        2
    } else if (c as u32) < 0x10000 {
        3
    } else {
        4
    }
}

/// The character index of `s` at byte offset `b`, scanning from character
/// `i` at byte offset `acc` (`None` unless `b` is a character boundary).
pub open spec fn char_at_byte_from(s: Seq<char>, i: int, acc: int, b: int) -> Option<int>
    decreases s.len() - i,
{
    if acc == b {
        Some(i)
    } else if acc > b || i < 0 || i >= s.len() {
        None
    } else {
        char_at_byte_from(s, i + 1, acc + utf8_width(s[i]), b)
    }
}

/// The character index of `s` at byte offset `b` of its UTF-8 encoding.
pub open spec fn char_at_byte(s: Seq<char>, b: int) -> Option<int> {
    char_at_byte_from(s, 0, 0, b)
}

/// `str::get(a..b)`: the characters between byte offsets `a` and `b`, when
/// both are character boundaries in order.
pub open spec fn byte_slice(s: Seq<char>, a: int, b: int) -> Option<Seq<char>> {
    match (char_at_byte(s, a), char_at_byte(s, b)) {
        (Some(i), Some(j)) => if i <= j {
            Some(s.subrange(i, j))
        } else {
            None
        },
        _ => None,
    }
}

/// `s[i..]` with each occurrence of `pat` (left to right, not overlapping)
/// replaced by `rep`.
pub open spec fn replace_from(s: Seq<char>, i: int, pat: Seq<char>, rep: Seq<char>) -> Seq<char>
    decreases s.len() - i,
{
    if i < 0 || i >= s.len() {
        Seq::empty()
    } else if pat.len() > 0 && i + pat.len() <= s.len() && s.subrange(i, i + pat.len()) == pat {
        rep + replace_from(s, i + pat.len(), pat, rep)
    } else {
        seq![s[i]] + replace_from(s, i + 1, pat, rep)
    }
}

/// `str::replace`: every occurrence of `pat` replaced by `rep`.
pub open spec fn replace_all(s: Seq<char>, pat: Seq<char>, rep: Seq<char>) -> Seq<char> {
    replace_from(s, 0, pat, rep)
}

/// One reference `(at, len)` resolved in `cur`: the bytes `at..at + len`
/// of `cur`, when they start with `'$'`, are replaced everywhere by the text
/// of the key that follows the `'$'`.
pub open spec fn resolve_one(
    cur: Seq<char>,
    at: usize,
    len: usize,
    texts: Map<Seq<char>, Map<Seq<char>, Seq<char>>>,
    main: Seq<char>,
    add: Seq<char>,
) -> Seq<char> {
    match byte_slice(cur, at as int, at + len) {
        Some(sub) => if sub.len() > 0 && sub[0] == '$' {
            replace_all(cur, sub, locale_get(texts, main, add, sub.drop_first()))
        } else {
            cur
        },
        None => cur,
    }
}

/// The references of `ids` resolved one after the other.
pub open spec fn resolve_all(
    cur: Seq<char>,
    ids: Seq<(usize, usize)>,
    texts: Map<Seq<char>, Map<Seq<char>, Seq<char>>>,
    main: Seq<char>,
    add: Seq<char>,
) -> Seq<char>
    decreases ids.len(),
{
    if ids.len() == 0 {
        cur
    } else {
        resolve_one(
            resolve_all(cur, ids.drop_last(), texts, main, add),
            ids.last().0,
            ids.last().1,
            texts,
            main,
            add,
        )
    }
}

/// A character of a plain text key: an ASCII letter, an ASCII digit or `_`.
pub open spec fn plain_key_char(c: char) -> bool {
    ('a' <= c && c <= 'z') || ('A' <= c && c <= 'Z') || ('0' <= c && c <= '9') || c == '_'
}

proof fn lemma_run_all_ident(s: Seq<char>, start: int)
    requires
        1 <= start <= s.len(),
        forall|i: int| 1 <= i < s.len() ==> plain_key_char(#[trigger] s[i]),
    ensures
        run_len(s, start, |c: char| is_ident_char(c)) == s.len() - start,
    decreases s.len() - start,
{
    if start < s.len() {
        assert(plain_key_char(s[start]));
        lemma_run_all_ident(s, start + 1);
    }
}

proof fn lemma_one_run(s: Seq<char>, m: int)
    requires
        1 <= m <= s.len(),
        s[0] == '$',
        s.len() >= 2,
        s.len() <= usize::MAX,
        forall|i: int| 1 <= i < s.len() ==> plain_key_char(#[trigger] s[i]),
    ensures
        dollar_runs(s, |c: char| is_ident_char(c), m) == seq![(0usize, s.len() as usize)],
    decreases m,
{
    lemma_run_all_ident(s, 1);
    if m > 1 {
        lemma_one_run(s, m - 1);
        assert(plain_key_char(s[m - 1]));
    } else {
        assert(dollar_runs(s, |c: char| is_ident_char(c), 0) == Seq::<(usize, usize)>::empty());
    }
}

proof fn lemma_ascii_bytes(s: Seq<char>, i: int)
    requires
        0 <= i <= s.len(),
        forall|k: int| 0 <= k < s.len() ==> (#[trigger] s[k] as u32) < 0x80,
    ensures
        char_at_byte_from(s, i, i, s.len() as int) == Some(s.len() as int),
    decreases s.len() - i,
{
    if i < s.len() {
        assert((s[i] as u32) < 0x80);
        lemma_ascii_bytes(s, i + 1);
    }
}

/// A reference to a plain key is resolved: for a non-empty key `k` of
/// ASCII letters, digits and `_`, the text `$k` becomes the text of `k`
/// (in the main language, else in the additional one, else `k` itself).
/// (A key of Russian letters is not covered: its references are cut by
/// byte offsets that count characters, as the game does.)
pub proof fn lemma_plain_key_resolves(
    k: Seq<char>,
    texts: Map<Seq<char>, Map<Seq<char>, Seq<char>>>,
    main: Seq<char>,
    add: Seq<char>,
)
    requires
        k.len() > 0,
        k.len() < usize::MAX,
        forall|i: int| 0 <= i < k.len() ==> plain_key_char(#[trigger] k[i]),
    ensures
        processed(seq!['$'] + k, texts, main, add) == locale_get(texts, main, add, k),
{
    let s = seq!['$'] + k;
    let n = s.len();
    assert forall|i: int| 1 <= i < n implies plain_key_char(#[trigger] s[i]) by {
        assert(s[i] == k[i - 1]);
    }
    lemma_one_run(s, n as int);
    let ids = dollar_runs(s, |c: char| is_ident_char(c), n as int);
    assert(ids.drop_last() =~= Seq::<(usize, usize)>::empty());
    assert(resolve_all(s, ids.drop_last(), texts, main, add) == s);
    assert forall|q: int| 0 <= q < n implies (#[trigger] s[q] as u32) < 0x80 by {
        if q > 0 {
            assert(plain_key_char(s[q]));
        }
    }
    lemma_ascii_bytes(s, 0);
    assert(char_at_byte(s, 0) == Some(0int));
    assert(s.subrange(0, n as int) =~= s);
    assert(byte_slice(s, 0, n as int) == Some(s));
    assert(s.drop_first() =~= k);
    let t = locale_get(texts, main, add, k);
    assert(replace_from(s, n as int, s, t) == Seq::<char>::empty());
    assert(replace_all(s, s, t) == t + Seq::<char>::empty());
    assert(t + Seq::<char>::empty() =~= t);
    assert(resolve_one(s, 0usize, n as usize, texts, main, add) == t);
    assert(ids.last() == (0usize, n as usize));
    assert(resolve_all(s, ids, texts, main, add) == t);
    assert(processed(s, texts, main, add) == resolve_all(s, ids, texts, main, add));
}

/// The text `s` with its `$key` references resolved against the texts.
pub open spec fn processed(
    s: Seq<char>,
    texts: Map<Seq<char>, Map<Seq<char>, Seq<char>>>,
    main: Seq<char>,
    add: Seq<char>,
) -> Seq<char> {
    resolve_all(s, dollar_runs(s, |c: char| is_ident_char(c), s.len() as int), texts, main, add)
}

proof fn lemma_dollar_runs_bound(s: Seq<char>, p: spec_fn(char) -> bool, k: int)
    requires
        0 <= k <= s.len(),
        s.len() <= usize::MAX,
    ensures
        forall|q: int| 0 <= q < dollar_runs(s, p, k).len() ==> (#[trigger] dollar_runs(s, p, k)[q]).0
            + dollar_runs(s, p, k)[q].1 <= s.len(),
    decreases k,
{
    if k > 0 {
        lemma_dollar_runs_bound(s, p, k - 1);
        lemma_run_len_bound(s, k, p);
        let r = dollar_runs(s, p, k - 1);
        let i = k - 1;
        if s[i] == '$' && run_len(s, i + 1, p) > 0 {
            let e = (i as usize, (1 + run_len(s, i + 1, p)) as usize);
            assert(e.0 == i);
            assert(e.1 == 1 + run_len(s, k, p));
            assert(dollar_runs(s, p, k) == r.push(e));
            assert forall|q: int| 0 <= q < r.push(e).len() implies (#[trigger] r.push(e)[q]).0 + r.push(
                e,
            )[q].1 <= s.len() by {
                if q < r.len() {
                    assert(r.push(e)[q] == r[q]);
                }
            }
        }
    }
}

/// The references of `s` whose keys are made of `is_ident_char` characters.
fn identifier_refs(s: &Vec<char>) -> (r: Vec<(usize, usize)>)
    ensures
        r@ == dollar_runs(s@, |c: char| is_ident_char(c), s@.len() as int),
{
    let ghost p = |c: char| is_ident_char(c);
    let n = s.len();
    let mut r: Vec<(usize, usize)> = Vec::new();
    let mut i: usize = 0;
    while i < n
        invariant
            n == s@.len(),
            i <= n,
            p == (|c: char| is_ident_char(c)),
            r@ == dollar_runs(s@, p, i as int),
        decreases n - i,
    {
        if s[i] == '$' {
            let mut counter: usize = 1;
            while i + counter < n && is_identifier(s[i + counter])
                invariant
                    n == s@.len(),
                    i < n,
                    1 <= counter,
                    i + counter <= n,
                    p == (|c: char| is_ident_char(c)),
                    run_len(s@, i + 1, p) == (counter - 1) + run_len(s@, (i + counter) as int, p),
                decreases n - i - counter,
            {
                counter = counter + 1;
            }
            if counter != 1 {
                r.push((i, counter));
            }
        }
        i = i + 1;
    }
    r
}

/// Bytes of the UTF-8 encoding of `c`.
pub(crate) fn width_of(c: char) -> (r: usize)
    ensures
        r == utf8_width(c),
{
    let v = c as u32;
    if v < 0x80 {
        1
    } else if v < 0x800 {
        2
    } else if v < 0x10000 {
        3
    } else {
        4
    }
}

/// The character index at byte offset `b` of `s`.
fn byte_to_char(s: &Vec<char>, b: usize) -> (r: Option<usize>)
    ensures
        match r {
            Some(i) => char_at_byte(s@, b as int) == Some(i as int) && i <= s@.len(),
            None => char_at_byte(s@, b as int) is None,
        },
{
    let mut i: usize = 0;
    let mut acc: usize = 0;
    loop
        invariant
            i <= s@.len(),
            acc <= b,
            char_at_byte(s@, b as int) == char_at_byte_from(s@, i as int, acc as int, b as int),
        decreases s@.len() - i,
    {
        if acc == b {
            return Some(i);
        }
        if i == s.len() {
            return None;
        }
        let w = width_of(s[i]);
        if w > b - acc {
            proof {
                assert(char_at_byte_from(s@, (i + 1) as int, acc + w, b as int) is None);
            }
            return None;
        }
        acc = acc + w;
        i = i + 1;
    }
}

/// Whether `pat` occurs in `s` at index `i`.
fn occurs_at(s: &Vec<char>, i: usize, pat: &Vec<char>) -> (r: bool)
    requires
        i <= s@.len(),
    ensures
        r == (i + pat@.len() <= s@.len() && s@.subrange(i as int, i + pat@.len()) == pat@),
{
    let n = s.len();
    if pat.len() > n - i {
        return false;
    }
    let mut k: usize = 0;
    while k < pat.len()
        invariant
            n == s@.len(),
            i <= s@.len(),
            i + pat@.len() <= s@.len(),
            k <= pat@.len(),
            forall|q: int| 0 <= q < k ==> s@[i + q] == pat@[q],
        decreases pat@.len() - k,
    {
        assert(i + k < n);
        if s[i + k] != pat[k] {
            proof {
                assert(s@.subrange(i as int, i + pat@.len())[k as int] != pat@[k as int]);
            }
            return false;
        }
        k = k + 1;
    }
    assert(s@.subrange(i as int, i + pat@.len()) =~= pat@);
    true
}

/// `s` with every occurrence of the non-empty `pat` replaced by `rep`.
pub(crate) fn replace_chars(s: &Vec<char>, pat: &Vec<char>, rep: &Vec<char>) -> (r: Vec<char>)
    requires
        pat@.len() > 0,
    ensures
        r@ == replace_all(s@, pat@, rep@),
{
    let mut out: Vec<char> = Vec::new();
    let mut i: usize = 0;
    while i < s.len()
        invariant
            pat@.len() > 0,
            i <= s@.len(),
            out@ + replace_from(s@, i as int, pat@, rep@) == replace_from(s@, 0, pat@, rep@),
        decreases s@.len() - i,
    {
        let ghost before = out@;
        if occurs_at(s, i, pat) {
            let mut k: usize = 0;
            while k < rep.len()
                invariant
                    k <= rep@.len(),
                    out@ == before + rep@.subrange(0, k as int),
                decreases rep@.len() - k,
            {
                out.push(rep[k]);
                assert(out@ =~= before + rep@.subrange(0, k + 1));
                k = k + 1;
            }
            assert(rep@.subrange(0, rep@.len() as int) =~= rep@);
            assert(out@ + replace_from(s@, i + pat@.len(), pat@, rep@) =~= before + replace_from(s@, i as int, pat@, rep@));
            i = i + pat.len();
        } else {
            out.push(s[i]);
            assert(out@ + replace_from(s@, i + 1, pat@, rep@) =~= before + replace_from(s@, i as int, pat@, rep@));
            i = i + 1;
        }
    }
    assert(out@ + replace_from(s@, i as int, pat@, rep@) =~= out@);
    out
}

/// A string of the characters `v`.
pub(crate) fn string_of(v: &Vec<char>) -> (r: String)
    ensures
        r@ == v@,
{
    let mut s = String::new();
    let mut i: usize = 0;
    while i < v.len()
        invariant
            i <= v@.len(),
            s@ == v@.subrange(0, i as int),
        decreases v@.len() - i,
    {
        push_char(&mut s, v[i]);
        assert(s@ =~= v@.subrange(0, i + 1));
        i = i + 1;
    }
    assert(v@.subrange(0, v@.len() as int) =~= v@);
    s
}

/// The text `locale` with its `$key` references resolved: each reference
/// found in `locale` is looked up as the byte range of the text being
/// built, and all its occurrences are replaced by the key's text.
pub fn process_locale(locale: &str, map_locale: &Locale) -> (r: String)
    requires
        map_locale.wf(),
    ensures
        r@ == processed(locale@, map_locale.texts(), map_locale.main_of(), map_locale.additional()),
{
    let mut cur = chars_of(locale);
    let ids = identifier_refs(&cur);
    let n0 = cur.len();
    proof {
        assert(locale@.len() == n0);
        lemma_dollar_runs_bound(locale@, |c: char| is_ident_char(c), locale@.len() as int);
    }
    let ghost texts = map_locale.texts();
    let ghost main = map_locale.main_of();
    let ghost add = map_locale.additional();
    let mut k: usize = 0;
    while k < ids.len()
        invariant
            map_locale.wf(),
            texts == map_locale.texts(),
            main == map_locale.main_of(),
            add == map_locale.additional(),
            k <= ids@.len(),
            ids@ == dollar_runs(locale@, |c: char| is_ident_char(c), locale@.len() as int),
            cur@ == resolve_all(locale@, ids@.subrange(0, k as int), texts, main, add),
            forall|q: int| 0 <= q < ids@.len() ==> (#[trigger] ids@[q]).0 + ids@[q].1 <= usize::MAX,
        decreases ids@.len() - k,
    {
        proof {
            assert(ids@.subrange(0, k + 1).drop_last() =~= ids@.subrange(0, k as int));
        }
        let (at, len) = ids[k];
        let ghost prev = cur@;
        let a = byte_to_char(&cur, at);
        let b = byte_to_char(&cur, at + len);
        match (a, b) {
            (Some(i), Some(j)) => {
                if i <= j && i < j && cur[i] == '$' {
                    let mut sub: Vec<char> = Vec::new();
                    let mut key = String::new();
                    let mut q: usize = i;
                    while q < j
                        invariant
                            i <= q <= j <= cur@.len(),
                            sub@ == cur@.subrange(i as int, q as int),
                            q > i ==> key@ == cur@.subrange(i + 1, q as int),
                            q == i ==> key@.len() == 0,
                        decreases j - q,
                    {
                        sub.push(cur[q]);
                        if q > i {
                            push_char(&mut key, cur[q]);
                        }
                        assert(sub@ =~= cur@.subrange(i as int, q + 1));
                        assert(q > i ==> key@ =~= cur@.subrange(i + 1, q + 1));
                        q = q + 1;
                    }
                    assert(key@ =~= cur@.subrange(i as int, j as int).drop_first());
                    let text = map_locale.get(key.as_str());
                    let rep = chars_of(text.as_str());
                    cur = replace_chars(&cur, &sub, &rep);
                } else {
                    proof {
                        if i <= j && i < j {
                            assert(cur@.subrange(i as int, j as int)[0] == cur@[i as int]);
                        }
                    }
                }
            },
            _ => {},
        }
        k = k + 1;
    }
    assert(ids@.subrange(0, ids@.len() as int) =~= ids@);
    string_of(&cur)
}

/// Registers the text `locale` under `locale_name` in `lang`, with its
/// references resolved first.
pub fn register_locale(locale_name: &str, locale: &str, lang: String, map_locale: &mut Locale)
    requires
        old(map_locale).wf(),
    ensures
        final(map_locale).wf(),
        final(map_locale).main_of() == old(map_locale).main_of(),
        final(map_locale).additional() == old(map_locale).additional(),
        final(map_locale).texts() == texts_insert(
            old(map_locale).texts(),
            lang@,
            locale_name@,
            processed(
                locale@,
                old(map_locale).texts(),
                old(map_locale).main_of(),
                old(map_locale).additional(),
            ),
        ),
{
    let end_string = process_locale(locale, map_locale);
    map_locale.insert(locale_name, end_string.as_str(), &lang);
}

} // verus!

verus! {

/// The texts after registering each property `(key, text)` of `props` in
/// `lang`, one after the other (see `register_locale`).
pub open spec fn registered_all(
    texts: Map<Seq<char>, Map<Seq<char>, Seq<char>>>,
    props: Seq<(Seq<char>, Seq<char>)>,
    lang: Seq<char>,
    main: Seq<char>,
    add: Seq<char>,
) -> Map<Seq<char>, Map<Seq<char>, Seq<char>>>
    decreases props.len(),
{
    if props.len() == 0 {
        texts
    } else {
        let t = registered_all(texts, props.drop_last(), lang, main, add);
        texts_insert(t, lang, props.last().0, processed(props.last().1, t, main, add))
    }
}

/// Registers every property of the ini document `ini_doc` as a text of
/// `language`, in document order (see `register_locale`).
pub fn parse_locale_doc(ini_doc: String, language: &String, locale: &mut Locale)
    requires
        old(locale).wf(),
        !has_error(ini_items(ini_doc@)),
    ensures
        final(locale).wf(),
        final(locale).main_of() == old(locale).main_of(),
        final(locale).additional() == old(locale).additional(),
        final(locale).texts() == registered_all(
            old(locale).texts(),
            props_of(ini_items(ini_doc@)),
            language@,
            old(locale).main_of(),
            old(locale).additional(),
        ),
{
    let props = parse_for_props(ini_doc.as_str());
    let ghost pv = pair_views(props@);
    let mut i: usize = 0;
    while i < props.len()
        invariant
            i <= props@.len(),
            pv == pair_views(props@),
            pv == props_of(ini_items(ini_doc@)),
            locale.wf(),
            locale.main_of() == old(locale).main_of(),
            locale.additional() == old(locale).additional(),
            locale.texts() == registered_all(
                old(locale).texts(),
                pv.subrange(0, i as int),
                language@,
                old(locale).main_of(),
                old(locale).additional(),
            ),
        decreases props.len() - i,
    {
        proof {
            assert(pv.subrange(0, i + 1).drop_last() =~= pv.subrange(0, i as int));
        }
        let (k, v) = &props[i];
        register_locale(k.as_str(), v.as_str(), copy_string(language), locale);
        i = i + 1;
    }
    assert(pv.subrange(0, props@.len() as int) =~= pv);
}

/// Registers the properties of `ini_doc` as `parse_locale_doc` does, unless
/// the document holds a malformed section header (then nothing changes and
/// the answer is `false`).
pub fn try_parse_locale_doc(ini_doc: String, language: &String, locale: &mut Locale) -> (r: bool)
    requires
        old(locale).wf(),
    ensures
        final(locale).wf(),
        r == !has_error(ini_items(ini_doc@)),
        !r ==> *final(locale) == *old(locale),
        r ==> final(locale).texts() == registered_all(
            old(locale).texts(),
            props_of(ini_items(ini_doc@)),
            language@,
            old(locale).main_of(),
            old(locale).additional(),
        ),
{
    if ini_has_error(ini_doc.as_str()) {
        return false;
    }
    parse_locale_doc(ini_doc, language, locale);
    true
}

impl ValueFilter for Locale {
    open spec fn ready(&self) -> bool {
        self.wf()
    }

    open spec fn filtered(&self, v: Seq<char>) -> Seq<char> {
        processed(v, self.texts(), self.main_of(), self.additional())
    }

    open spec fn accepts(&self, v: Seq<char>) -> bool {
        true
    }

    fn filter(&self, v: &str) -> (r: String) {
        process_locale(v, self)
    }

    fn can_filter(&self, v: &str) -> (r: bool) {
        true
    }
}

/// The sections of the ini document `ini_doc`, each property value with its
/// references resolved (see `process_locale`).
pub fn parse_for_sections_localised(ini_doc: &str, locale: &mut Locale) -> (r: Vec<(String, Section)>)
    requires
        old(locale).wf(),
        !has_error(ini_items(ini_doc@)),
    ensures
        *final(locale) == *old(locale),
        sections_view(r@) == sections_of(ini_items(ini_doc@), *old(locale)),
{
    parse_for_sections_with(ini_doc, &*locale)
}

/// The localised sections of `ini_doc` (see `parse_for_sections_localised`),
/// or `None` when the document holds a malformed section header.
pub fn try_parse_for_sections_localised(ini_doc: &str, locale: &mut Locale) -> (r: Option<Vec<(String, Section)>>)
    requires
        old(locale).wf(),
    ensures
        *final(locale) == *old(locale),
        match r {
            Some(v) => !has_error(ini_items(ini_doc@)) && sections_view(v@) == sections_of(
                ini_items(ini_doc@),
                *old(locale),
            ),
            None => has_error(ini_items(ini_doc@)),
        },
{
    if ini_has_error(ini_doc) {
        None
    } else {
        Some(parse_for_sections_localised(ini_doc, locale))
    }
}

/// The texts after registering, section by section, the properties of each
/// section whose name is one of `langs`, as texts of that language.
pub open spec fn map_registered(
    texts: Map<Seq<char>, Map<Seq<char>, Seq<char>>>,
    secs: Seq<(Seq<char>, Seq<(Seq<char>, Seq<char>)>)>,
    langs: Seq<Seq<char>>,
    main: Seq<char>,
    add: Seq<char>,
) -> Map<Seq<char>, Map<Seq<char>, Seq<char>>>
    decreases secs.len(),
{
    if secs.len() == 0 {
        texts
    } else {
        let t = map_registered(texts, secs.drop_last(), langs, main, add);
        if langs.contains(secs.last().0) {
            registered_all(t, secs.last().1, secs.last().0, main, add)
        } else {
            t
        }
    }
}

/// The names of `languages`.
pub open spec fn lang_names(languages: Seq<&String>) -> Seq<Seq<char>> {
    languages.map_values(|l: &String| l@)
}

/// Whether `name` is one of `languages`.
pub(crate) fn lang_listed(languages: &[&String], name: &String) -> (r: bool)
    ensures
        r == lang_names(languages@).contains(name@),
{
    let mut k: usize = 0;
    while k < languages.len()
        invariant
            k <= languages@.len(),
            forall|q: int| 0 <= q < k ==> lang_names(languages@)[q] != name@,
        decreases languages@.len() - k,
    {
        if str_eq(languages[k].as_str(), name.as_str()) {
            assert(lang_names(languages@)[k as int] == name@);
            return true;
        }
        k = k + 1;
    }
    false
}

/// Registers the texts of the ini document `ini_doc`: each section named
/// after one of `languages` holds texts of that language (see
/// `register_locale`).
pub fn parse_map_locale(ini_doc: &str, languages: &[&String], locale: &mut Locale)
    requires
        old(locale).wf(),
        !has_error(ini_items(ini_doc@)),
    ensures
        final(locale).wf(),
        final(locale).main_of() == old(locale).main_of(),
        final(locale).additional() == old(locale).additional(),
        final(locale).texts() == map_registered(
            old(locale).texts(),
            sections_of(ini_items(ini_doc@), RawValues),
            lang_names(languages@),
            old(locale).main_of(),
            old(locale).additional(),
        ),
{
    let secs = parse_for_sections(ini_doc);
    let ghost sv = sections_view(secs@);
    let ghost langs = lang_names(languages@);
    let ghost main = old(locale).main_of();
    let ghost add = old(locale).additional();
    let mut a: usize = 0;
    while a < secs.len()
        invariant
            a <= secs@.len(),
            sv == sections_view(secs@),
            sv == sections_of(ini_items(ini_doc@), RawValues),
            langs == lang_names(languages@),
            locale.wf(),
            main == old(locale).main_of(),
            add == old(locale).additional(),
            locale.main_of() == main,
            locale.additional() == add,
            locale.texts() == map_registered(old(locale).texts(), sv.subrange(0, a as int), langs, main, add),
        decreases secs.len() - a,
    {
        proof {
            assert(sv.subrange(0, a + 1).drop_last() =~= sv.subrange(0, a as int));
            assert(sv[a as int] == (secs@[a as int].0@, section_entries(secs@[a as int].1)));
        }
        let (sec, props) = &secs[a];
        if lang_listed(languages, sec) {
            let pairs = section_pairs(props);
            let ghost pv = pair_views(pairs@);
            let ghost t0 = locale.texts();
            let mut b: usize = 0;
            while b < pairs.len()
                invariant
                    b <= pairs@.len(),
                    pv == pair_views(pairs@),
                    pv == sv[a as int].1,
                    sec@ == sv[a as int].0,
                    locale.wf(),
                    locale.main_of() == main,
                    locale.additional() == add,
                    locale.texts() == registered_all(t0, pv.subrange(0, b as int), sec@, main, add),
                decreases pairs.len() - b,
            {
                proof {
                    assert(pv.subrange(0, b + 1).drop_last() =~= pv.subrange(0, b as int));
                }
                let (k, v) = &pairs[b];
                register_locale(k.as_str(), v.as_str(), copy_string(sec), locale);
                b = b + 1;
            }
            assert(pv.subrange(0, pairs@.len() as int) =~= pv);
        }
        a = a + 1;
    }
    assert(sv.subrange(0, secs@.len() as int) =~= sv);
}

/// Registers the texts of `ini_doc` as `parse_map_locale` does, unless the
/// document holds a malformed section header (then nothing changes and the
/// answer is `false`).
pub fn try_parse_map_locale(ini_doc: &str, languages: &[&String], locale: &mut Locale) -> (r: bool)
    requires
        old(locale).wf(),
    ensures
        final(locale).wf(),
        r == !has_error(ini_items(ini_doc@)),
        !r ==> *final(locale) == *old(locale),
        r ==> final(locale).texts() == map_registered(
            old(locale).texts(),
            sections_of(ini_items(ini_doc@), RawValues),
            lang_names(languages@),
            old(locale).main_of(),
            old(locale).additional(),
        ),
{
    if ini_has_error(ini_doc) {
        return false;
    }
    parse_map_locale(ini_doc, languages, locale);
    true
}

} // verus!

verus! {

/// Facts about `find`: it finds a first occurrence.
pub proof fn lemma_find_facts(s: Seq<Seq<char>>, x: Seq<char>)
    ensures
        find(s, x) >= 0 <==> s.contains(x),
        find(s, x) >= 0 ==> find(s, x) < s.len() && s[find(s, x)] == x,
        s.no_duplicates() ==> forall|k: int| 0 <= k < s.len() && s[k] == x ==> find(s, x) == k,
{
    lemma_find_contains(s, x);
    if s.no_duplicates() {
        assert forall|k: int| 0 <= k < s.len() && s[k] == x implies find(s, x) == k by {
            assert(s.contains(x));
        }
    }
}

/// Appending a new name keeps names unique and puts it last.
pub proof fn lemma_push_unique(s: Seq<Seq<char>>, x: Seq<char>)
    requires
        s.no_duplicates(),
        !s.contains(x),
    ensures
        s.push(x).no_duplicates(),
        find(s.push(x), x) == s.len(),
{
    lemma_push_nodup(s, x);
    lemma_find_push(s, x);
}

/// Appending `x` does not move another name.
pub proof fn lemma_find_other(s: Seq<Seq<char>>, x: Seq<char>, y: Seq<char>)
    requires
        y != x,
    ensures
        find(s.push(x), y) >= 0 <==> find(s, y) >= 0,
        find(s, y) >= 0 ==> find(s.push(x), y) == find(s, y),
{
    lemma_find_push_other(s, x, y);
}

/// A text set for the main language is the text shown for its key.
pub proof fn lemma_get_after_insert(
    texts: Map<Seq<char>, Map<Seq<char>, Seq<char>>>,
    main: Seq<char>,
    add: Seq<char>,
    key: Seq<char>,
    value: Seq<char>,
)
    ensures
        locale_get(texts_insert(texts, main, key, value), main, add, key) == value,
{
}

/// Setting a text for one key leaves the text shown for any other key as
/// it was.
pub proof fn lemma_insert_other_key(
    texts: Map<Seq<char>, Map<Seq<char>, Seq<char>>>,
    lang: Seq<char>,
    main: Seq<char>,
    add: Seq<char>,
    key: Seq<char>,
    value: Seq<char>,
    id: Seq<char>,
)
    requires
        id != key,
        texts.contains_key(main),
    ensures
        locale_get(texts_insert(texts, lang, key, value), main, add, id) == locale_get(texts, main, add, id),
{
}

} // verus!
