//! The launcher's localisation: texts by language with a fallback language,
//! and `$key` references resolved by the launcher's own scan of a text.
use crate::locale::{
    is_ident_char, is_identifier, lang_listed, lang_names, locale_get, replace_all, replace_chars,
    run_len, string_of, texts_insert, utf8_width, width_of, Tables,
};
use crate::advini::{
    has_error, ini_has_error, ini_items, sections_readable, try_parse_for_sections, pair_views, parse_for_props, parse_for_sections, parse_for_sections_with,
    props_of, section_entries, section_pairs, sections_of, sections_view, filter_accepts_all,
    RawValues, Section, ValueFilter,
};
use crate::text::{chars_of, copy_string, owned, str_eq};
use vstd::prelude::*;

verus! {

/// Localised texts of the launcher, with a main and an additional
/// (fallback) language.
#[derive(Debug)]
pub struct Locale {
    map: Tables,
    pub main_lang: String,
    pub additional_lang: String,
}

impl Locale {
    /// The texts by language and key.
    pub closed spec fn texts(&self) -> Map<Seq<char>, Map<Seq<char>, Seq<char>>> {
        self.map.texts()
    }

    pub closed spec fn wf(&self) -> bool {
        self.map.wf()
    }

    /// The main language.
    pub closed spec fn main_of(&self) -> Seq<char> {
        self.main_lang@
    }

    /// The additional (fallback) language.
    pub closed spec fn additional(&self) -> Seq<char> {
        self.additional_lang@
    }

    /// Swaps the main and the additional language.
    pub fn switch_lang(&mut self)
        ensures
            final(self).texts() == old(self).texts(),
            final(self).wf() == old(self).wf(),
            final(self).main_of() == old(self).additional(),
            final(self).additional() == old(self).main_of(),
    {
        let main = copy_string(&self.main_lang);
        let add = copy_string(&self.additional_lang);
        self.main_lang = add;
        self.additional_lang = main;
    }

    /// Sets the main and the additional language.
    pub fn set_lang(&mut self, lang: (&String, &String))
        ensures
            final(self).texts() == old(self).texts(),
            final(self).wf() == old(self).wf(),
            final(self).main_of() == lang.0@,
            final(self).additional() == lang.1@,
    {
        self.main_lang = copy_string(lang.0);
        self.additional_lang = copy_string(lang.1);
    }

    /// The text of `id`: in the main language; else, when the main language
    /// has a table, in the additional language; else `id` itself.
    pub fn get(&self, id: &str) -> (r: String)
        requires
            self.wf(),
        ensures
            r@ == locale_get(self.texts(), self.main_of(), self.additional(), id@),
    {
        if !self.map.has_lang(self.main_lang.as_str()) {
            return owned(id);
        }
        match self.map.lookup(self.main_lang.as_str(), id) {
            Some(v) => v,
            None => match self.map.lookup(self.additional_lang.as_str(), id) {
                Some(v) => v,
                None => owned(id),
            },
        }
    }

    /// Sets the text of `key` in `lang`.
    pub fn insert(&mut self, key: &str, value: &str, lang: &String)
        requires
            old(self).wf(),
        ensures
            final(self).wf(),
            final(self).texts() == texts_insert(old(self).texts(), lang@, key@, value@),
            final(self).main_of() == old(self).main_of(),
            final(self).additional() == old(self).additional(),
    {
        self.map.insert(lang.as_str(), key, value);
    }

    /// An empty locale.
    pub fn new(main_lang: String, additional_lang: String) -> (r: Self)
        ensures
            r.wf(),
            r.texts() == Map::<Seq<char>, Map<Seq<char>, Seq<char>>>::empty(),
            r.main_of() == main_lang@,
            r.additional() == additional_lang@,
    {
        Locale { map: Tables::new(), main_lang, additional_lang }
    }
}

/// The character index that the scan reads at step `i`: one shared
/// character iterator skips `i` characters before step `i` reads.
pub open spec fn probe(i: nat) -> nat
    decreases i,
{
    if i == 0 {
        0
    } else {
        probe((i - 1) as nat) + i + 1
    }
}

/// The length in bytes of the UTF-8 encoding of `s`.
pub open spec fn utf8_len(s: Seq<char>) -> nat
    decreases s.len(),
{
    if s.len() == 0 {
        0
    } else {
        utf8_len(s.drop_last()) + utf8_width(s.last())
    }
}

/// Where the key of step `i` ends: the number of key characters in a row
/// after character `i`, or one less than the byte length of `s` when that
/// run reaches the end of `s`.
pub open spec fn key_end(s: Seq<char>, i: nat) -> int {
    let r = run_len(s, i + 1int, |c: char| is_ident_char(c));
    if i + 1 + r < s.len() {
        r as int
    } else {
        utf8_len(s) - 1
    }
}

/// Step `i` reads a `'$'` and takes a key.
pub open spec fn names_key(s: Seq<char>, i: nat) -> bool {
    probe(i) < s.len() && s[probe(i) as int] == '$' && i + 1 != key_end(s, i)
}

/// Step `i` would compute a negative length for its key.
pub open spec fn scan_fails(s: Seq<char>, i: nat) -> bool {
    names_key(s, i) && key_end(s, i) < i
}

/// No step of the scan of `s` fails.
pub open spec fn scan_ok(s: Seq<char>) -> bool {
    forall|i: nat| #[trigger] probe(i) < s.len() ==> !scan_fails(s, i)
}

/// The key taken at step `i`: the characters after character `i`, up to
/// index `key_end + 2` or the end of `s`.
pub open spec fn key_at(s: Seq<char>, i: nat) -> Seq<char> {
    let stop = if key_end(s, i) + 2 < s.len() {
        key_end(s, i) + 2
    } else {
        s.len() as int
    };
    s.subrange(i + 1int, stop)
}

/// Step `i` of the scan of `s` applied to the text `cur`: when it takes a
/// key, every `'$'` followed by the key is replaced by the key's text.
pub open spec fn scan_step(
    s: Seq<char>,
    cur: Seq<char>,
    i: nat,
    texts: Map<Seq<char>, Map<Seq<char>, Seq<char>>>,
    main: Seq<char>,
    add: Seq<char>,
) -> Seq<char> {
    if names_key(s, i) {
        replace_all(cur, seq!['$'] + key_at(s, i), locale_get(texts, main, add, key_at(s, i)))
    } else {
        cur
    }
}

/// The steps of the scan from step `i` on, while they read inside `s`.
pub open spec fn scan_from(
    s: Seq<char>,
    cur: Seq<char>,
    i: nat,
    texts: Map<Seq<char>, Map<Seq<char>, Seq<char>>>,
    main: Seq<char>,
    add: Seq<char>,
) -> Seq<char>
    decreases if probe(i) < s.len() {
        s.len() - probe(i)
    } else {
        0
    },
{
    if probe(i) >= s.len() {
        cur
    } else {
        proof {
            assert(probe(i + 1) == probe(i) + i + 2);
        }
        scan_from(s, scan_step(s, cur, i, texts, main, add), i + 1, texts, main, add)
    }
}

/// The text `s` with its references resolved by the launcher's scan.
pub open spec fn scanned(
    s: Seq<char>,
    texts: Map<Seq<char>, Map<Seq<char>, Seq<char>>>,
    main: Seq<char>,
    add: Seq<char>,
) -> Seq<char> {
    scan_from(s, s, 0, texts, main, add)
}

proof fn lemma_probe_ge(i: nat)
    ensures
        probe(i) >= i,
    decreases i,
{
    if i > 0 {
        lemma_probe_ge((i - 1) as nat);
    }
}

/// The byte length of the UTF-8 encoding of `s`.
fn byte_len(s: &Vec<char>) -> (r: u128)
    ensures
        r == utf8_len(s@),
        r <= 4 * s@.len(),
{
    let mut acc: u128 = 0;
    let mut k: usize = 0;
    while k < s.len()
        invariant
            k <= s@.len(),
            acc == utf8_len(s@.subrange(0, k as int)),
            acc <= 4 * k,
        decreases s@.len() - k,
    {
        proof {
            assert(s@.subrange(0, k + 1).drop_last() =~= s@.subrange(0, k as int));
        }
        acc = acc + width_of(s[k]) as u128;
        k = k + 1;
    }
    assert(s@.subrange(0, s@.len() as int) =~= s@);
    acc
}

/// The text `locale` with its `$key` references resolved by the launcher's
/// scan (see `scanned`).
pub fn process_locale(locale: &str, map_locale: &mut Locale) -> (r: String)
    requires
        old(map_locale).wf(),
        scan_ok(locale@),
    ensures
        *final(map_locale) == *old(map_locale),
        r@ == scanned(
            locale@,
            old(map_locale).texts(),
            old(map_locale).main_of(),
            old(map_locale).additional(),
        ),
{
    resolve(locale, map_locale)
}

/// The scan of `process_locale`, on a shared locale.
fn resolve(locale: &str, map_locale: &Locale) -> (r: String)
    requires
        map_locale.wf(),
        scan_ok(locale@),
    ensures
        r@ == scanned(locale@, map_locale.texts(), map_locale.main_of(), map_locale.additional()),
{
    let s = chars_of(locale);
    let n = s.len();
    let blen = byte_len(&s);
    let ghost texts = map_locale.texts();
    let ghost main = map_locale.main_of();
    let ghost add = map_locale.additional();
    let ghost p = |c: char| is_ident_char(c);
    let mut cur = chars_of(locale);
    let mut i: usize = 0;
    let mut at: usize = 0;
    while at < n
        invariant
            n == s@.len(),
            s@ == locale@,
            blen == utf8_len(s@),
            blen <= 4 * n,
            scan_ok(s@),
            map_locale.wf(),
            texts == map_locale.texts(),
            main == map_locale.main_of(),
            add == map_locale.additional(),
            p == (|c: char| is_ident_char(c)),
            at < n ==> at == probe(i as nat),
            at >= n ==> at == n && probe(i as nat) >= n,
            scan_from(s@, cur@, i as nat, texts, main, add) == scanned(s@, texts, main, add),
        decreases n - at,
    {
        proof {
            lemma_probe_ge(i as nat);
        }
        let ghost before = cur@;
        if s[at] == '$' {
            let mut r: usize = 0;
            while i + 1 + r < n && is_identifier(s[i + 1 + r])
                invariant
                    n == s@.len(),
                    i < n,
                    i + 1 + r <= n,
                    p == (|c: char| is_ident_char(c)),
                    run_len(s@, i + 1, p) == r + run_len(s@, (i + 1 + r) as int, p),
                decreases n - i - 1 - r,
            {
                r = r + 1;
            }
            proof {
                if i + 1 + r < n {
                    assert(!p(s@[i + 1 + r]));
                }
                assert(run_len(s@, (i + 1 + r) as int, p) == 0);
                assert(run_len(s@, i + 1, p) == r);
            }
            let end: u128 = if i + 1 + r < n {
                r as u128
            } else {
                blen - 1
            };
            assert(end == key_end(s@, i as nat));
            if i as u128 + 1 != end {
                proof {
                    assert(probe(i as nat) < s@.len());
                    assert(!scan_fails(s@, i as nat));
                }
                let stop: usize = if end + 2 < n as u128 {
                    (end + 2) as usize
                } else {
                    n
                };
                let mut key = String::new();
                let mut pat: Vec<char> = Vec::new();
                pat.push('$');
                let mut q: usize = i + 1;
                while q < stop
                    invariant
                        i + 1 <= q <= stop <= n,
                        n == s@.len(),
                        key@ == s@.subrange(i + 1, q as int),
                        pat@ == seq!['$'] + key@,
                    decreases stop - q,
                {
                    crate::text::push_char(&mut key, s[q]);
                    pat.push(s[q]);
                    assert(key@ =~= s@.subrange(i + 1, q + 1));
                    assert(pat@ =~= seq!['$'] + key@);
                    q = q + 1;
                }
                assert(key@ == key_at(s@, i as nat));
                let text = map_locale.get(key.as_str());
                let rep = chars_of(text.as_str());
                cur = replace_chars(&cur, &pat, &rep);
            }
        }
        assert(cur@ == scan_step(s@, before, i as nat, texts, main, add));
        if i + 1 >= n - at - 1 {
            at = n;
        } else {
            at = at + i + 2;
        }
        i = i + 1;
        assert(probe(i as nat) == probe((i - 1) as nat) + i + 1);
    }
    string_of(&cur)
}

/// Registers the text `locale` under `locale_name` in `lang`, with its
/// references resolved first (see `process_locale`).
pub fn register_locale(locale_name: &str, locale: &str, lang: String, map_locale: &mut Locale)
    requires
        old(map_locale).wf(),
        scan_ok(locale@),
    ensures
        final(map_locale).wf(),
        final(map_locale).main_of() == old(map_locale).main_of(),
        final(map_locale).additional() == old(map_locale).additional(),
        final(map_locale).texts() == texts_insert(
            old(map_locale).texts(),
            lang@,
            locale_name@,
            scanned(
                locale@,
                old(map_locale).texts(),
                old(map_locale).main_of(),
                old(map_locale).additional(),
            ),
        ),
{
    let end_string = process_locale(locale, map_locale);
    map_locale.insert(locale_name, end_string.as_str(), &lang);
}

/// Whether the launcher's scan of `locale` runs through (see `scan_ok`).
pub fn scan_is_ok(locale: &str) -> (r: bool)
    ensures
        r == scan_ok(locale@),
{
    let s = chars_of(locale);
    let n = s.len();
    let blen = byte_len(&s);
    let ghost p = |c: char| is_ident_char(c);
    let mut i: usize = 0;
    let mut at: usize = 0;
    while at < n
        invariant
            n == s@.len(),
            s@ == locale@,
            blen == utf8_len(s@),
            blen <= 4 * n,
            p == (|c: char| is_ident_char(c)),
            at < n ==> at == probe(i as nat),
            at >= n ==> at == n && probe(i as nat) >= n,
            forall|j: nat| j < i && probe(j) < n ==> !scan_fails(s@, j),
        decreases n - at,
    {
        proof {
            lemma_probe_ge(i as nat);
        }
        if s[at] == '$' {
            let mut r: usize = 0;
            while i + 1 + r < n && is_identifier(s[i + 1 + r])
                invariant
                    n == s@.len(),
                    i < n,
                    i + 1 + r <= n,
                    p == (|c: char| is_ident_char(c)),
                    run_len(s@, i + 1, p) == r + run_len(s@, (i + 1 + r) as int, p),
                decreases n - i - 1 - r,
            {
                r = r + 1;
            }
            proof {
                if i + 1 + r < n {
                    assert(!p(s@[i + 1 + r]));
                }
                assert(run_len(s@, (i + 1 + r) as int, p) == 0);
            }
            let end: u128 = if i + 1 + r < n {
                r as u128
            } else {
                blen - 1
            };
            assert(end == key_end(s@, i as nat));
            if i as u128 + 1 != end && end < i as u128 {
                assert(scan_fails(s@, i as nat));
                return false;
            }
        }
        if i + 1 >= n - at - 1 {
            at = n;
        } else {
            at = at + i + 2;
        }
        i = i + 1;
        assert(probe(i as nat) == probe((i - 1) as nat) + i + 1);
    }
    proof {
        assert forall|j: nat| #[trigger] probe(j) < s@.len() implies !scan_fails(s@, j) by {
            if j >= i {
                lemma_probe_mono(i as nat, j);
            }
        }
    }
    true
}

proof fn lemma_probe_mono(i: nat, j: nat)
    requires
        i <= j,
    ensures
        probe(i) <= probe(j),
    decreases j - i,
{
    if i < j {
        lemma_probe_mono(i, (j - 1) as nat);
    }
}

/// The texts after inserting each `(key, text)` of `props` into `lang`, one
/// after the other.
pub open spec fn inserted_all(
    texts: Map<Seq<char>, Map<Seq<char>, Seq<char>>>,
    props: Seq<(Seq<char>, Seq<char>)>,
    lang: Seq<char>,
) -> Map<Seq<char>, Map<Seq<char>, Seq<char>>>
    decreases props.len(),
{
    if props.len() == 0 {
        texts
    } else {
        texts_insert(inserted_all(texts, props.drop_last(), lang), lang, props.last().0, props.last().1)
    }
}

/// Inserts every property of the ini document `path` as a text of
/// `language`, in document order, as it stands.
pub fn parse_locale(path: &str, language: &String, locale: &mut Locale)
    requires
        old(locale).wf(),
        !has_error(ini_items(path@)),
    ensures
        final(locale).wf(),
        final(locale).main_of() == old(locale).main_of(),
        final(locale).additional() == old(locale).additional(),
        final(locale).texts() == inserted_all(old(locale).texts(), props_of(ini_items(path@)), language@),
{
    let props = parse_for_props(path);
    let ghost pv = pair_views(props@);
    let mut i: usize = 0;
    while i < props.len()
        invariant
            i <= props@.len(),
            pv == pair_views(props@),
            pv == props_of(ini_items(path@)),
            locale.wf(),
            locale.main_of() == old(locale).main_of(),
            locale.additional() == old(locale).additional(),
            locale.texts() == inserted_all(old(locale).texts(), pv.subrange(0, i as int), language@),
        decreases props.len() - i,
    {
        proof {
            assert(pv.subrange(0, i + 1).drop_last() =~= pv.subrange(0, i as int));
        }
        let (k, v) = &props[i];
        locale.insert(k.as_str(), v.as_str(), language);
        i = i + 1;
    }
    assert(pv.subrange(0, props@.len() as int) =~= pv);
}

impl ValueFilter for Locale {
    open spec fn ready(&self) -> bool {
        self.wf()
    }

    open spec fn filtered(&self, v: Seq<char>) -> Seq<char> {
        scanned(v, self.texts(), self.main_of(), self.additional())
    }

    open spec fn accepts(&self, v: Seq<char>) -> bool {
        scan_ok(v)
    }

    fn filter(&self, v: &str) -> (r: String) {
        resolve(v, self)
    }

    fn can_filter(&self, v: &str) -> (r: bool) {
        scan_is_ok(v)
    }
}

/// The sections of the ini document `ini_doc`, each property value with
/// its references resolved by the launcher's scan.
pub fn parse_for_sections_localised(ini_doc: &str, locale: &mut Locale) -> (r: Vec<(String, Section)>)
    requires
        old(locale).wf(),
        !has_error(ini_items(ini_doc@)),
        filter_accepts_all(ini_items(ini_doc@), *old(locale)),
    ensures
        *final(locale) == *old(locale),
        sections_view(r@) == sections_of(ini_items(ini_doc@), *old(locale)),
{
    parse_for_sections_with(ini_doc, &*locale)
}

/// The texts after registering each `(key, text)` of `props` in `lang` (see
/// `register_locale`), one after the other.
pub open spec fn registered_all(
    texts: Map<Seq<char>, Map<Seq<char>, Seq<char>>>,
    props: Seq<(Seq<char>, Seq<char>)>,
    lang: Seq<char>,
    main: Seq<char>,
    add: Seq<char>,
) -> Map<Seq<char>, Map<Seq<char>, Seq<char>>>
    decreases props.len(),
{
    if props.len() == 0 {
        texts
    } else {
        let t = registered_all(texts, props.drop_last(), lang, main, add);
        texts_insert(t, lang, props.last().0, scanned(props.last().1, t, main, add))
    }
}

/// The texts after registering, section by section, the properties of
/// each section whose name is one of `langs`, as texts of that language.
pub open spec fn map_registered(
    texts: Map<Seq<char>, Map<Seq<char>, Seq<char>>>,
    secs: Seq<(Seq<char>, Seq<(Seq<char>, Seq<char>)>)>,
    langs: Seq<Seq<char>>,
    main: Seq<char>,
    add: Seq<char>,
) -> Map<Seq<char>, Map<Seq<char>, Seq<char>>>
    decreases secs.len(),
{
    if secs.len() == 0 {
        texts
    } else {
        let t = map_registered(texts, secs.drop_last(), langs, main, add);
        if langs.contains(secs.last().0) {
            registered_all(t, secs.last().1, secs.last().0, main, add)
        } else {
            t
        }
    }
}

/// Every text of a section named in `langs` can be scanned.
pub open spec fn map_texts_ok(
    secs: Seq<(Seq<char>, Seq<(Seq<char>, Seq<char>)>)>,
    langs: Seq<Seq<char>>,
) -> bool {
    forall|a: int, b: int|
        0 <= a < secs.len() && langs.contains(secs[a].0) && 0 <= b < secs[a].1.len() ==> scan_ok(
            #[trigger] secs[a].1[b].1,
        )
}

/// Registers the texts of the ini document `path`: each section named after
/// one of `languages` holds texts of that language (see `register_locale`).
pub fn parse_map_locale(path: &str, languages: &[&String], locale: &mut Locale)
    requires
        old(locale).wf(),
        !has_error(ini_items(path@)),
        map_texts_ok(sections_of(ini_items(path@), RawValues), lang_names(languages@)),
    ensures
        final(locale).wf(),
        final(locale).main_of() == old(locale).main_of(),
        final(locale).additional() == old(locale).additional(),
        final(locale).texts() == map_registered(
            old(locale).texts(),
            sections_of(ini_items(path@), RawValues),
            lang_names(languages@),
            old(locale).main_of(),
            old(locale).additional(),
        ),
{
    let secs = parse_for_sections(path);
    let ghost sv = sections_view(secs@);
    let ghost langs = lang_names(languages@);
    let ghost main = old(locale).main_of();
    let ghost add = old(locale).additional();
    let mut a: usize = 0;
    while a < secs.len()
        invariant
            a <= secs@.len(),
            sv == sections_view(secs@),
            sv == sections_of(ini_items(path@), RawValues),
            langs == lang_names(languages@),
            map_texts_ok(sv, langs),
            locale.wf(),
            main == old(locale).main_of(),
            add == old(locale).additional(),
            locale.main_of() == main,
            locale.additional() == add,
            locale.texts() == map_registered(old(locale).texts(), sv.subrange(0, a as int), langs, main, add),
        decreases secs.len() - a,
    {
        proof {
            assert(sv.subrange(0, a + 1).drop_last() =~= sv.subrange(0, a as int));
            assert(sv[a as int] == (secs@[a as int].0@, section_entries(secs@[a as int].1)));
        }
        let (sec, props) = &secs[a];
        if lang_listed(languages, sec) {
            let pairs = section_pairs(props);
            let ghost pv = pair_views(pairs@);
            let ghost t0 = locale.texts();
            let mut b: usize = 0;
            while b < pairs.len()
                invariant
                    b <= pairs@.len(),
                    pv == pair_views(pairs@),
                    pv == sv[a as int].1,
                    sec@ == sv[a as int].0,
                    langs.contains(sec@),
                    0 <= a < sv.len(),
                    map_texts_ok(sv, langs),
                    locale.wf(),
                    locale.main_of() == main,
                    locale.additional() == add,
                    locale.texts() == registered_all(t0, pv.subrange(0, b as int), sec@, main, add),
                decreases pairs.len() - b,
            {
                proof {
                    assert(pv.subrange(0, b + 1).drop_last() =~= pv.subrange(0, b as int));
                    assert(scan_ok(sv[a as int].1[b as int].1));
                }
                let (k, v) = &pairs[b];
                register_locale(k.as_str(), v.as_str(), copy_string(sec), locale);
                b = b + 1;
            }
            assert(pv.subrange(0, pairs@.len() as int) =~= pv);
        }
        a = a + 1;
    }
    assert(sv.subrange(0, secs@.len() as int) =~= sv);
}

/// Inserts the properties of `path` as `parse_locale` does, unless the
/// document holds a malformed section header (then nothing changes and the
/// answer is `false`).
pub fn try_parse_locale(path: &str, language: &String, locale: &mut Locale) -> (r: bool)
    requires
        old(locale).wf(),
    ensures
        final(locale).wf(),
        r == !has_error(ini_items(path@)),
        !r ==> *final(locale) == *old(locale),
        r ==> final(locale).texts() == inserted_all(old(locale).texts(), props_of(ini_items(path@)), language@),
{
    if ini_has_error(path) {
        return false;
    }
    parse_locale(path, language, locale);
    true
}

/// The localised sections of `ini_doc` (see `parse_for_sections_localised`),
/// or `None` when the document holds a malformed section header or a value
/// that the launcher's scan cannot take.
pub fn try_parse_for_sections_localised(ini_doc: &str, locale: &mut Locale) -> (r: Option<Vec<(String, Section)>>)
    requires
        old(locale).wf(),
    ensures
        *final(locale) == *old(locale),
        match r {
            Some(v) => !has_error(ini_items(ini_doc@)) && filter_accepts_all(ini_items(ini_doc@), *old(locale))
                && sections_view(v@) == sections_of(ini_items(ini_doc@), *old(locale)),
            None => has_error(ini_items(ini_doc@)) || !filter_accepts_all(ini_items(ini_doc@), *old(locale)),
        },
{
    if sections_readable(ini_doc, &*locale) {
        Some(parse_for_sections_localised(ini_doc, locale))
    } else {
        None
    }
}

/// Whether every text of a section named in `languages` can be scanned.
fn map_texts_scannable(secs: &Vec<(String, Section)>, languages: &[&String]) -> (r: bool)
    ensures
        r == map_texts_ok(sections_view(secs@), lang_names(languages@)),
{
    let ghost sv = sections_view(secs@);
    let ghost langs = lang_names(languages@);
    let mut a: usize = 0;
    while a < secs.len()
        invariant
            a <= secs@.len(),
            sv == sections_view(secs@),
            langs == lang_names(languages@),
            forall|x: int, b: int|
                0 <= x < a && langs.contains(sv[x].0) && 0 <= b < sv[x].1.len() ==> scan_ok(
                    #[trigger] sv[x].1[b].1,
                ),
        decreases secs.len() - a,
    {
        let (sec, props) = &secs[a];
        assert(sv[a as int] == (sec@, section_entries(*props)));
        if lang_listed(languages, sec) {
            let pairs = section_pairs(props);
            let mut b: usize = 0;
            while b < pairs.len()
                invariant
                    b <= pairs@.len(),
                    0 <= a < sv.len(),
                    sv == sections_view(secs@),
                    langs == lang_names(languages@),
                    langs.contains(sv[a as int].0),
                    pair_views(pairs@) == sv[a as int].1,
                    forall|q: int| 0 <= q < b ==> scan_ok(#[trigger] sv[a as int].1[q].1),
                decreases pairs.len() - b,
            {
                if !scan_is_ok(pairs[b].1.as_str()) {
                    assert(sv[a as int].1[b as int].1 == pairs@[b as int].1@);
                    assert(!scan_ok(sv[a as int].1[b as int].1));
                    assert(!map_texts_ok(sv, langs));
                    return false;
                }
                assert(sv[a as int].1[b as int].1 == pairs@[b as int].1@);
                b = b + 1;
            }
        }
        a = a + 1;
    }
    true
}

/// Registers the texts of `path` as `parse_map_locale` does, unless the
/// document holds a malformed section header or a text of a listed
/// language that the launcher's scan cannot take (then nothing changes and
/// the answer is `false`).
pub fn try_parse_map_locale(path: &str, languages: &[&String], locale: &mut Locale) -> (r: bool)
    requires
        old(locale).wf(),
    ensures
        final(locale).wf(),
        r == (!has_error(ini_items(path@)) && map_texts_ok(
            sections_of(ini_items(path@), RawValues),
            lang_names(languages@),
        )),
        !r ==> *final(locale) == *old(locale),
        r ==> final(locale).texts() == map_registered(
            old(locale).texts(),
            sections_of(ini_items(path@), RawValues),
            lang_names(languages@),
            old(locale).main_of(),
            old(locale).additional(),
        ),
{
    match try_parse_for_sections(path) {
        None => false,
        Some(secs) => {
            if !map_texts_scannable(&secs, languages) {
                return false;
            }
            parse_map_locale(path, languages, locale);
            true
        },
    }
}

/// The texts and base language of a mod's language file after the
/// properties `e` of section `sec`: in `Global`, `base_language` sets the
/// base language; in `Locale`, each property is a text of language
/// `name`; other sections change nothing.
pub open spec fn mod_lang_props(
    st: (Seq<char>, Map<Seq<char>, Map<Seq<char>, Seq<char>>>),
    sec: Seq<char>,
    e: Seq<(Seq<char>, Seq<char>)>,
    name: Seq<char>,
) -> (Seq<char>, Map<Seq<char>, Map<Seq<char>, Seq<char>>>)
    decreases e.len(),
{
    if e.len() == 0 {
        st
    } else {
        let p = mod_lang_props(st, sec, e.drop_last(), name);
        let (k, v) = e.last();
        if sec == "Global"@ {
            if k == "base_language"@ {
                (v, p.1)
            } else {
                p
            }
        } else if sec == "Locale"@ {
            (p.0, texts_insert(p.1, name, k, v))
        } else {
            p
        }
    }
}

/// `mod_lang_props` over every section in order.
pub open spec fn mod_lang_secs(
    st: (Seq<char>, Map<Seq<char>, Map<Seq<char>, Seq<char>>>),
    secs: Seq<(Seq<char>, Seq<(Seq<char>, Seq<char>)>)>,
    name: Seq<char>,
) -> (Seq<char>, Map<Seq<char>, Map<Seq<char>, Seq<char>>>)
    decreases secs.len(),
{
    if secs.len() == 0 {
        st
    } else {
        let p = mod_lang_secs(st, secs.drop_last(), name);
        mod_lang_props(p, secs.last().0, secs.last().1, name)
    }
}

/// The locale of a mod's language file `ini_doc`, in language `name`:
/// its main language is `name`, its base language and texts those the
/// file gives (see `mod_lang_props`).
pub fn parse_mod_lang(ini_doc: &str, name: String) -> (r: Locale)
    requires
        !has_error(ini_items(ini_doc@)),
    ensures
        r.wf(),
        r.main_of() == name@,
        (r.additional(), r.texts()) == mod_lang_secs(
            (Seq::empty(), Map::empty()),
            sections_of(ini_items(ini_doc@), RawValues),
            name@,
        ),
{
    let mut locale = Locale::new(copy_string(&name), String::new());
    let sections = parse_for_sections(ini_doc);
    let ghost sv = sections_view(sections@);
    let ghost start = (Seq::<char>::empty(), Map::<Seq<char>, Map<Seq<char>, Seq<char>>>::empty());
    let mut i: usize = 0;
    assert(sv.subrange(0, 0) =~= Seq::<(Seq<char>, Seq<(Seq<char>, Seq<char>)>)>::empty());
    while i < sections.len()
        invariant
            i <= sections@.len(),
            sv == sections_view(sections@),
            locale.wf(),
            locale.main_of() == name@,
            (locale.additional(), locale.texts()) == mod_lang_secs(start, sv.subrange(0, i as int), name@),
        decreases sections.len() - i,
    {
        let sec = &sections[i].0;
        let pairs = section_pairs(&sections[i].1);
        let ghost e = pair_views(pairs@);
        assert(sv[i as int] == (sec@, e));
        let ghost at_start = (locale.additional(), locale.texts());
        let global = str_eq(sec.as_str(), "Global");
        let texts = str_eq(sec.as_str(), "Locale");
        let mut j: usize = 0;
        assert(e.subrange(0, 0) =~= Seq::<(Seq<char>, Seq<char>)>::empty());
        while j < pairs.len()
            invariant
                j <= pairs@.len(),
                e == pair_views(pairs@),
                e.len() == pairs@.len(),
                global == (sec@ == "Global"@),
                texts == (sec@ == "Locale"@),
                locale.wf(),
                locale.main_of() == name@,
                (locale.additional(), locale.texts()) == mod_lang_props(at_start, sec@, e.subrange(0, j as int), name@),
            decreases pairs.len() - j,
        {
            let key = &pairs[j].0;
            let value = &pairs[j].1;
            assert(e[j as int] == (key@, value@));
            assert(e.subrange(0, j + 1).drop_last() =~= e.subrange(0, j as int));
            if global {
                if str_eq(key.as_str(), "base_language") {
                    locale.additional_lang = copy_string(value);
                }
            } else if texts {
                locale.insert(key.as_str(), value.as_str(), &name);
            }
            j = j + 1;
        }
        assert(e.subrange(0, pairs@.len() as int) =~= e);
        assert(sv.subrange(0, i + 1).drop_last() =~= sv.subrange(0, i as int));
        i = i + 1;
    }
    assert(sv.subrange(0, sections@.len() as int) =~= sv);
    locale
}

/// `parse_mod_lang` on a document without malformed section headers;
/// `None` otherwise.
pub fn try_parse_mod_lang(ini_doc: &str, name: String) -> (r: Option<Locale>)
    ensures
        match r {
            Some(l) => {
                &&& !has_error(ini_items(ini_doc@))
                &&& l.wf()
                &&& l.main_of() == name@
                &&& (l.additional(), l.texts()) == mod_lang_secs(
                    (Seq::empty(), Map::empty()),
                    sections_of(ini_items(ini_doc@), RawValues),
                    name@,
                )
            },
            None => has_error(ini_items(ini_doc@)),
        },
{
    if ini_has_error(ini_doc) {
        None
    } else {
        Some(parse_mod_lang(ini_doc, name))
    }
}

/// Whether `lang` is among the names `translations`.
pub open spec fn lists_lang(translations: Seq<String>, lang: Seq<char>) -> bool {
    exists|i: int| 0 <= i < translations.len() && #[trigger] translations[i]@ == lang
}

/// The text `parse_base_lang` hands to `parse_locale` for the base
/// language `lang`, and the language the texts go to: the translation of
/// that name when it is listed, else the Russian one.
pub open spec fn base_lang_source(translations: Seq<String>, lang: Seq<char>) -> (Seq<char>, Seq<char>) {
    if lists_lang(translations, lang) {
        ("./translations/"@ + lang, lang)
    } else {
        ("./tranlations/Russian.lang"@, "Russian"@)
    }
}

/// Whether `translations` lists `lang`.
fn find_lang(translations: &Vec<String>, lang: &String) -> (r: bool)
    ensures
        r == lists_lang(translations@, lang@),
{
    let mut i: usize = 0;
    while i < translations.len()
        invariant
            i <= translations@.len(),
            forall|k: int| 0 <= k < i ==> translations@[k]@ != lang@,
        decreases translations.len() - i,
    {
        if str_eq(translations[i].as_str(), lang.as_str()) {
            return true;
        }
        i = i + 1;
    }
    false
}

/// Loads the base (additional) language: when `translations` lists it,
/// `parse_locale` is called on `./translations/` and its name; else the
/// base language becomes `Russian` and `parse_locale` is called on the
/// Russian file's name (see `base_lang_source`).
pub fn parse_base_lang(translations: Vec<String>, locale: &mut Locale)
    requires
        old(locale).wf(),
        !has_error(ini_items(base_lang_source(translations@, old(locale).additional()).0)),
    ensures
        final(locale).wf(),
        final(locale).main_of() == old(locale).main_of(),
        final(locale).additional() == base_lang_source(translations@, old(locale).additional()).1,
        final(locale).texts() == inserted_all(
            old(locale).texts(),
            props_of(ini_items(base_lang_source(translations@, old(locale).additional()).0)),
            base_lang_source(translations@, old(locale).additional()).1,
        ),
{
    let lang_name = copy_string(&locale.additional_lang);
    if find_lang(&translations, &lang_name) {
        let mut path = owned("./translations/");
        path.append(lang_name.as_str());
        parse_locale(path.as_str(), &lang_name, locale);
    } else {
        locale.additional_lang = owned("Russian");
        let lang_name = copy_string(&locale.additional_lang);
        parse_locale("./tranlations/Russian.lang", &lang_name, locale);
    }
}

/// `parse_base_lang` when the text it would read has no malformed section
/// header (then `true`); else the locale is left as it is and the answer is
/// `false`.
pub fn try_parse_base_lang(translations: Vec<String>, locale: &mut Locale) -> (r: bool)
    requires
        old(locale).wf(),
    ensures
        final(locale).wf(),
        r == !has_error(ini_items(base_lang_source(translations@, old(locale).additional()).0)),
        !r ==> *final(locale) == *old(locale),
        r ==> final(locale).main_of() == old(locale).main_of(),
        r ==> final(locale).additional() == base_lang_source(translations@, old(locale).additional()).1,
        r ==> final(locale).texts() == inserted_all(
            old(locale).texts(),
            props_of(ini_items(base_lang_source(translations@, old(locale).additional()).0)),
            base_lang_source(translations@, old(locale).additional()).1,
        ),
{
    let lang_name = copy_string(&locale.additional_lang);
    let ok = if find_lang(&translations, &lang_name) {
        let mut path = owned("./translations/");
        path.append(lang_name.as_str());
        !ini_has_error(path.as_str())
    } else {
        !ini_has_error("./tranlations/Russian.lang")
    };
    if ok {
        parse_base_lang(translations, locale);
    }
    ok
}

} // verus!
