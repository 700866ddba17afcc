//! Ini documents: the properties of a document (read with the `ini_core`
//! parser) and the codec of single values (`Ini`: `eat` reads a value off
//! the front of a text, `vomit` writes it).
use crate::text::{chars_of, copy_string, dec, dec_int, digit_char, i128_to_string, owned, push_char, u128_to_string};
use crate::time::{dec_value, digit_value, is_digit};
use vstd::prelude::*;

verus! {

/// One line of an ini document, as the `ini_core` parser reports it (with
/// ASCII white space trimmed).
#[derive(Clone, Debug, PartialEq, Eq)]
pub enum IniItem {
    /// A malformed section header.
    Error(String),
    Section(String),
    Property(String, String),
    /// A line without `=`.
    Action(String),
    Comment(String),
    Blank,
}

/// Abstract value of an ini line.
pub enum IniItemView {
    Error(Seq<char>),
    Section(Seq<char>),
    Property(Seq<char>, Seq<char>),
    Action(Seq<char>),
    Comment(Seq<char>),
    Blank,
}

impl View for IniItem {
    type V = IniItemView;

    open spec fn view(&self) -> IniItemView {
        match self {
            IniItem::Error(s) => IniItemView::Error(s@),
            IniItem::Section(s) => IniItemView::Section(s@),
            IniItem::Property(k, v) => IniItemView::Property(k@, v@),
            IniItem::Action(s) => IniItemView::Action(s@),
            IniItem::Comment(s) => IniItemView::Comment(s@),
            IniItem::Blank => IniItemView::Blank,
        }
    }
}

/// The lines that `ini_core::Parser` (with auto-trim) reads from a document.
pub uninterp spec fn ini_items(doc: Seq<char>) -> Seq<IniItemView>;

/// The lines of `doc`, read by `ini_core::Parser::new(doc).auto_trim(true)`.
/// The contract names the result: it is a function of the document alone.
#[verifier::external_body]
fn read_ini_items(doc: &str) -> (r: Vec<IniItem>)
    ensures
        r@.map_values(|i: IniItem| i@) == ini_items(doc@),
{
    let mut out = Vec::new();
    for item in ini_core::Parser::new(doc).auto_trim(true) {
        out.push(match item {
            ini_core::Item::Error(e) => IniItem::Error(e.to_owned()),
            ini_core::Item::Section(s) => IniItem::Section(s.to_owned()),
            ini_core::Item::Property(k, v) => IniItem::Property(k.to_owned(), v.to_owned()),
            ini_core::Item::Action(a) => IniItem::Action(a.to_owned()),
            ini_core::Item::Comment(c) => IniItem::Comment(c.to_owned()),
            ini_core::Item::Blank => IniItem::Blank,
        });
    }
    out
}

/// Unicode lower case of a text, as `str::to_lowercase` computes it.
pub uninterp spec fn lowercase(s: Seq<char>) -> Seq<char>;

/// `str::to_lowercase`; the contract names the result (a function of the
/// text alone, given by the Unicode case tables).
#[verifier::external_body]
pub fn to_lowercase(s: &str) -> (r: String)
    ensures
        r@ == lowercase(s@),
{
    s.to_lowercase()
}

/// Whether a document holds a malformed section header.
pub open spec fn has_error(items: Seq<IniItemView>) -> bool {
    exists|i: int| 0 <= i < items.len() && items[i] is Error
}

/// The properties of a document, in order, with lower-cased keys; a line
/// without `=` continues the value of the property before it.
pub open spec fn props_of(items: Seq<IniItemView>) -> Seq<(Seq<char>, Seq<char>)>
    decreases items.len(),
{
    if items.len() == 0 {
        Seq::empty()
    } else {
        let p = props_of(items.drop_last());
        match items.last() {
            IniItemView::Property(k, v) => p.push((lowercase(k), v)),
            IniItemView::Action(v) => if p.len() > 0 {
                p.update(p.len() - 1, (p.last().0, p.last().1 + v))
            } else {
                p
            },
            _ => p,
        }
    }
}

/// The views of a list of string pairs.
pub open spec fn pair_views(v: Seq<(String, String)>) -> Seq<(Seq<char>, Seq<char>)> {
    v.map_values(|p: (String, String)| (p.0@, p.1@))
}

/// The properties of a document without malformed section headers
/// (see `props_of`).
pub fn parse_for_props(ini_doc: &str) -> (r: Vec<(String, String)>)
    requires
        !has_error(ini_items(ini_doc@)),
    ensures
        pair_views(r@) == props_of(ini_items(ini_doc@)),
{
    let items = read_ini_items(ini_doc);
    let ghost iv = items@.map_values(|i: IniItem| i@);
    let mut props: Vec<(String, String)> = Vec::new();
    let mut i: usize = 0;
    while i < items.len()
        invariant
            i <= items@.len(),
            iv == items@.map_values(|i: IniItem| i@),
            iv == ini_items(ini_doc@),
            !has_error(iv),
            pair_views(props@) == props_of(iv.subrange(0, i as int)),
        decreases items.len() - i,
    {
        proof {
            assert(iv.subrange(0, i + 1).drop_last() =~= iv.subrange(0, i as int));
            assert(iv.subrange(0, i + 1).last() == items@[i as int]@);
        }
        let ghost before = props@;
        match &items[i] {
            IniItem::Property(k, v) => {
                props.push((to_lowercase(k.as_str()), copy_string(v)));
                assert(pair_views(props@) =~= pair_views(before).push((lowercase(k@), v@)));
            },
            IniItem::Action(v) => {
                let n = props.len();
                if n > 0 {
                    let (k0, mut v0) = props.pop().unwrap();
                    v0.append(v.as_str());
                    props.push((k0, v0));
                    proof {
                        let p = pair_views(before);
                        assert(pair_views(props@) =~= p.update(p.len() - 1, (p.last().0, p.last().1 + v@)));
                    }
                }
            },
            IniItem::Error(_) => {
                proof {
                    assert(iv[i as int] is Error);
                }
            },
            _ => {},
        }
        i = i + 1;
    }
    assert(iv.subrange(0, items@.len() as int) =~= iv);
    props
}

/// Whether the lines hold a malformed section header.
fn find_error(items: &Vec<IniItem>) -> (r: bool)
    ensures
        r == has_error(items@.map_values(|i: IniItem| i@)),
{
    let ghost iv = items@.map_values(|i: IniItem| i@);
    let mut i: usize = 0;
    while i < items.len()
        invariant
            i <= items@.len(),
            iv == items@.map_values(|i: IniItem| i@),
            forall|k: int| 0 <= k < i ==> !(iv[k] is Error),
        decreases items.len() - i,
    {
        match &items[i] {
            IniItem::Error(_) => {
                assert(iv[i as int] is Error);
                return true;
            },
            _ => {},
        }
        i = i + 1;
    }
    false
}

/// Whether the document holds a malformed section header (on which
/// `parse_for_props` would fail).
pub fn ini_has_error(ini_doc: &str) -> (r: bool)
    ensures
        r == has_error(ini_items(ini_doc@)),
{
    let items = read_ini_items(ini_doc);
    find_error(&items)
}

/// The properties of a document, or `None` if it holds a malformed
/// section header.
pub fn try_parse_for_props(ini_doc: &str) -> (r: Option<Vec<(String, String)>>)
    ensures
        match r {
            Some(p) => !has_error(ini_items(ini_doc@)) && pair_views(p@) == props_of(
                ini_items(ini_doc@),
            ),
            None => has_error(ini_items(ini_doc@)),
        },
{
    if ini_has_error(ini_doc) {
        None
    } else {
        Some(parse_for_props(ini_doc))
    }
}

} // verus!

verus! {

/// Why a value could not be read.
#[derive(Clone, Debug, PartialEq, Eq)]
pub enum IniParseError {
    /// The text does not start with a value (with the parser's message).
    Error(String),
    /// The value does not fit its type.
    Empty,
}

impl IniParseError {
    /// The text shown for the error (what `Display` prints).
    pub fn message(&self) -> (r: String)
        ensures
            r@ == match self {
                IniParseError::Error(s) => s@,
                IniParseError::Empty => "just no chars"@,
            },
    {
        match self {
            IniParseError::Error(s) => copy_string(s),
            IniParseError::Empty => String::from_str("just no chars"),
        }
    }
}

/// A value that can be read from and written to the text of an ini value.
/// `rest` is what is left at the end of `input`.
pub open spec fn is_tail(rest: Seq<char>, input: Seq<char>) -> bool {
    rest.len() <= input.len() && rest == input.subrange(input.len() - rest.len(), input.len() as int)
}

pub trait Ini: Sized {
    /// Extra input of the codec.
    type Arg;

    /// `input` starts with the value `v`, followed by `rest`.
    spec fn eats(input: Seq<char>, arg: Self::Arg, rest: Seq<char>, v: Self) -> bool;

    /// `input` does not start with a value, for the reason `e`.
    spec fn refuses(input: Seq<char>, arg: Self::Arg, e: IniParseError) -> bool;

    /// The text written for the value.
    spec fn shows(&self, arg: Self::Arg) -> Seq<char>;

    /// Reading a value off `input` runs through (no arithmetic overflows).
    spec fn eat_ok(input: Seq<char>, arg: Self::Arg) -> bool;

    /// Reads a value off the front of `input`.
    fn eat<'a>(input: &'a str, additional: Self::Arg) -> (r: Result<(&'a str, Self), IniParseError>)
        requires
            Self::eat_ok(input@, additional),
        ensures
            match r {
                Ok((rest, v)) => Self::eats(input@, additional, rest@, v) && is_tail(rest@, input@),
                Err(e) => Self::refuses(input@, additional, e),
            },
    ;

    /// Writes the value.
    fn vomit(&self, additional: Self::Arg) -> (r: String)
        ensures
            r@ == self.shows(additional),
    ;
}

/// Index of the first occurrence of the non-empty `pat` in `s` at or after
/// `i`.
pub open spec fn find_from(s: Seq<char>, pat: Seq<char>, i: int) -> Option<int>
    decreases s.len() - i,
{
    if i < 0 || pat.len() == 0 || i + pat.len() > s.len() {
        None
    } else if s.subrange(i, i + pat.len()) == pat {
        Some(i)
    } else {
        find_from(s, pat, i + 1)
    }
}

/// Length of the run of `c` at the start of `s`.
pub open spec fn run_of(s: Seq<char>, c: char) -> nat
    decreases s.len(),
{
    if s.len() > 0 && s[0] == c {
        1 + run_of(s.drop_first(), c)
    } else {
        0
    }
}

/// Length of the run of quote characters (`"` or `'`) at the start of `s`.
pub open spec fn quotes_run(s: Seq<char>) -> nat
    decreases s.len(),
{
    if s.len() > 0 && (s[0] == '"' || s[0] == '\'') {
        1 + quotes_run(s.drop_first())
    } else {
        0
    }
}

/// A string value at the start of `s`, as `(rest, value)`: a leading `,`
/// gives the empty string; a value opened by a run of `"` (or else of `'`)
/// lasts up to the next occurrence of that run, and all quotes after it are
/// skipped; a bare value lasts up to the next `,`, which is skipped. A value
/// that is not closed lasts to the end.
pub open spec fn string_parse(s: Seq<char>) -> (Seq<char>, Seq<char>) {
    if s.len() > 0 && s[0] == ',' {
        (s.drop_first(), Seq::empty())
    } else {
        let q = if s.len() > 0 && s[0] == '"' {
            run_of(s, '"')
        } else if s.len() > 0 && s[0] == '\'' {
            run_of(s, '\'')
        } else {
            0
        };
        let inner = s.subrange(q as int, s.len() as int);
        if q == 0 {
            match find_from(inner, seq![','], 0) {
                Some(i) => (inner.subrange(i + 1, inner.len() as int), inner.subrange(0, i)),
                None => (Seq::empty(), inner),
            }
        } else {
            match find_from(inner, s.subrange(0, q as int), 0) {
                Some(i) => {
                    let after = inner.subrange(i, inner.len() as int);
                    (after.subrange(quotes_run(after) as int, after.len() as int), inner.subrange(0, i))
                },
                None => (Seq::empty(), inner),
            }
        }
    }
}

/// Quote counting of `String::vomit`: `(last, current, in_run)` after `s`.
pub open spec fn quote_scan(s: Seq<char>) -> (nat, nat, bool)
    decreases s.len(),
{
    if s.len() == 0 {
        (0, 0, false)
    } else {
        let (a, b, run) = quote_scan(s.drop_last());
        let c = s.last();
        if c == '"' && run {
            (a, b + 1, true)
        } else if run {
            (b, 0, false)
        } else if c == '"' {
            (a, 1, true)
        } else {
            (a, b, run)
        }
    }
}

/// `n` double quotes.
pub open spec fn dquotes(n: nat) -> Seq<char> {
    Seq::new(n, |i: int| '"')
}

/// A string written as a value: wrapped in one more `"` than the last run
/// of `"` inside it that is followed by another character.
pub open spec fn string_shown(s: Seq<char>) -> Seq<char> {
    let q = dquotes(quote_scan(s).0 + 1);
    q + s + q
}

proof fn lemma_run_of_bound(s: Seq<char>, c: char)
    ensures
        run_of(s, c) <= s.len(),
        forall|k: int| 0 <= k < run_of(s, c) ==> s[k] == c,
        run_of(s, c) < s.len() ==> s[run_of(s, c) as int] != c,
    decreases s.len(),
{
    if s.len() > 0 && s[0] == c {
        lemma_run_of_bound(s.drop_first(), c);
        assert forall|k: int| 0 <= k < run_of(s, c) implies s[k] == c by {
            if k > 0 {
                assert(s[k] == s.drop_first()[k - 1]);
            }
        }
    }
}

proof fn lemma_quotes_run_bound(s: Seq<char>)
    ensures
        quotes_run(s) <= s.len(),
        forall|k: int| 0 <= k < quotes_run(s) ==> (s[k] == '"' || s[k] == '\''),
        quotes_run(s) < s.len() ==> !(s[quotes_run(s) as int] == '"' || s[quotes_run(s) as int] == '\''),
    decreases s.len(),
{
    if s.len() > 0 && (s[0] == '"' || s[0] == '\'') {
        lemma_quotes_run_bound(s.drop_first());
        assert forall|k: int| 0 <= k < quotes_run(s) implies (s[k] == '"' || s[k] == '\'') by {
            if k > 0 {
                assert(s[k] == s.drop_first()[k - 1]);
            }
        }
    }
}

/// Length of the run of `c` at the start of `v[from..]`.
fn run_len_of(v: &Vec<char>, from: usize, c: char) -> (r: usize)
    requires
        from <= v@.len(),
    ensures
        r == run_of(v@.subrange(from as int, v@.len() as int), c),
        from + r <= v@.len(),
{
    let n = v.len();
    let mut k: usize = from;
    while k < n && v[k] == c
        invariant
            n == v@.len(),
            from <= k <= n,
            run_of(v@.subrange(from as int, n as int), c) == (k - from) + run_of(v@.subrange(k as int, n as int), c),
        decreases n - k,
    {
        proof {
            assert(v@.subrange(k as int, n as int).drop_first() =~= v@.subrange(k + 1, n as int));
        }
        k = k + 1;
    }
    proof {
        if k < n {
            assert(v@.subrange(k as int, n as int)[0] == v@[k as int]);
        }
    }
    k - from
}

/// Length of the run of quote characters at the start of `v[from..]`.
fn quotes_len(v: &Vec<char>, from: usize) -> (r: usize)
    requires
        from <= v@.len(),
    ensures
        r == quotes_run(v@.subrange(from as int, v@.len() as int)),
        from + r <= v@.len(),
{
    let n = v.len();
    let mut k: usize = from;
    while k < n && (v[k] == '"' || v[k] == '\'')
        invariant
            n == v@.len(),
            from <= k <= n,
            quotes_run(v@.subrange(from as int, n as int)) == (k - from) + quotes_run(v@.subrange(k as int, n as int)),
        decreases n - k,
    {
        proof {
            assert(v@.subrange(k as int, n as int).drop_first() =~= v@.subrange(k + 1, n as int));
        }
        k = k + 1;
    }
    proof {
        if k < n {
            assert(v@.subrange(k as int, n as int)[0] == v@[k as int]);
        }
    }
    k - from
}

/// First occurrence of `v[ps..pe]` in `v[from..]`, as an index of `v`.
fn find_in(v: &Vec<char>, from: usize, ps: usize, pe: usize) -> (r: Option<usize>)
    requires
        from <= v@.len(),
        ps < pe <= v@.len(),
    ensures
        match r {
            Some(i) => from <= i <= v@.len() && find_from(
                v@.subrange(from as int, v@.len() as int),
                v@.subrange(ps as int, pe as int),
                0,
            ) == Some(i - from),
            None => find_from(
                v@.subrange(from as int, v@.len() as int),
                v@.subrange(ps as int, pe as int),
                0,
            ) is None,
        },
{
    let n = v.len();
    let m = pe - ps;
    let ghost s = v@.subrange(from as int, n as int);
    let ghost pat = v@.subrange(ps as int, pe as int);
    let mut i: usize = from;
    while i <= n && m <= n - i
        invariant
            n == v@.len(),
            m == pe - ps,
            from <= i,
            ps < pe <= n,
            s == v@.subrange(from as int, n as int),
            pat == v@.subrange(ps as int, pe as int),
            find_from(s, pat, 0) == find_from(s, pat, i - from),
        decreases n - i,
    {
        let mut k: usize = 0;
        let mut same = true;
        assert(v@.subrange(i as int, i as int) =~= v@.subrange(ps as int, ps as int));
        while k < m
            invariant
                n == v@.len(),
                m == pe - ps,
                ps < pe <= n,
                i + m <= n,
                k <= m,
                same == (v@.subrange(i as int, i + k) == v@.subrange(ps as int, ps + k)),
            decreases m - k,
        {
            proof {
                if same {
                    assert(v@.subrange(i as int, i + k + 1) =~= v@.subrange(i as int, i + k).push(v@[i + k]));
                    assert(v@.subrange(ps as int, ps + k + 1) =~= v@.subrange(ps as int, ps + k).push(v@[ps + k]));
                } else {
                    assert(v@.subrange(i as int, i + k) =~= v@.subrange(i as int, i + k + 1).drop_last());
                    assert(v@.subrange(ps as int, ps + k) =~= v@.subrange(ps as int, ps + k + 1).drop_last());
                }
            }
            if v[i + k] != v[ps + k] {
                proof {
                    assert(v@.subrange(i as int, i + k + 1)[k as int] != v@.subrange(ps as int, ps + k + 1)[k as int]);
                }
                same = false;
            }
            k = k + 1;
        }
        proof {
            assert(s.subrange(i - from, i - from + pat.len()) =~= v@.subrange(i as int, i + m));
        }
        if same {
            return Some(i);
        }
        i = i + 1;
    }
    None
}

impl Ini for String {
    type Arg = ();

    open spec fn eat_ok(input: Seq<char>, arg: ()) -> bool {
        true
    }

    open spec fn eats(input: Seq<char>, arg: (), rest: Seq<char>, v: String) -> bool {
        string_parse(input) == (rest, v@)
    }

    open spec fn refuses(input: Seq<char>, arg: (), e: IniParseError) -> bool {
        false
    }

    open spec fn shows(&self, arg: ()) -> Seq<char> {
        string_shown(self@)
    }

    fn eat<'a>(input: &'a str, additional: ()) -> (r: Result<(&'a str, String), IniParseError>) {
        let v = chars_of(input);
        let n = v.len();
        assert(v@.subrange(0, n as int) =~= v@);
        if n > 0 && v[0] == ',' {
            assert(input@.subrange(1, n as int) =~= input@.drop_first());
            return Ok((input.substring_char(1, n), String::new()));
        }
        let q: usize = if n > 0 && v[0] == '"' {
            run_len_of(&v, 0, '"')
        } else if n > 0 && v[0] == '\'' {
            run_len_of(&v, 0, '\'')
        } else {
            0
        };
        proof {
            assert(v@.subrange(0, n as int) =~= input@);
        }
        let ghost inner = input@.subrange(q as int, n as int);
        if q == 0 {
            // a bare value: up to the next ','
            assert(inner =~= input@);
            let mut i: usize = 0;
            while i < n && v[i] != ','
                invariant
                    n == v@.len(),
                    i <= n,
                    forall|k: int| 0 <= k < i ==> v@[k] != ',',
                    find_from(inner, seq![','], 0) == find_from(inner, seq![','], i as int),
                    inner == v@,
                decreases n - i,
            {
                proof {
                    assert(inner.subrange(i as int, i + 1) != seq![',']) by {
                        assert(inner.subrange(i as int, i + 1)[0] != ',');
                    }
                }
                i = i + 1;
            }
            if i < n {
                proof {
                    assert(inner.subrange(i as int, i + 1) =~= seq![',']);
                }
                let value = input.substring_char(0, i);
                return Ok((input.substring_char(i + 1, n), value.to_owned()));
            } else {
                let rest = input.substring_char(n, n);
                assert(rest@ =~= Seq::<char>::empty());
                assert(find_from(inner, seq![','], n as int) is None);
                assert(string_parse(input@) == (rest@, input@));
                return Ok((rest, input.to_owned()));
            }
        }
        match find_in(&v, q, 0, q) {
            Some(i) => {
                let t = quotes_len(&v, i);
                proof {
                    let after = inner.subrange(i - q, inner.len() as int);
                    assert(after =~= v@.subrange(i as int, n as int));
                    assert(inner.subrange(0, i - q) =~= v@.subrange(q as int, i as int));
                    assert(after.subrange(t as int, after.len() as int) =~= v@.subrange(i + t, n as int));
                }
                let value = input.substring_char(q, i);
                let rest = input.substring_char(i + t, n);
                assert(string_parse(input@) == (rest@, value@));
                Ok((rest, value.to_owned()))
            },
            None => {
                let value = input.substring_char(q, n);
                let rest = input.substring_char(n, n);
                assert(rest@ =~= Seq::<char>::empty());
                assert(string_parse(input@) == (rest@, value@));
                Ok((rest, value.to_owned()))
            },
        }
    }

    fn vomit(&self, additional: ()) -> (r: String) {
        let v = chars_of(self.as_str());
        let mut a: usize = 0;
        let mut b: usize = 0;
        let mut run = false;
        let mut i: usize = 0;
        while i < v.len()
            invariant
                i <= v@.len(),
                a <= i,
                b <= i,
                quote_scan(v@.subrange(0, i as int)) == (a as nat, b as nat, run),
            decreases v@.len() - i,
        {
            proof {
                assert(v@.subrange(0, i + 1).drop_last() =~= v@.subrange(0, i as int));
            }
            let c = v[i];
            if c == '"' && run {
                b = b + 1;
            } else if run {
                a = b;
                b = 0;
                run = false;
            } else if c == '"' {
                b = 1;
                run = true;
            }
            i = i + 1;
        }
        assert(v@.subrange(0, v@.len() as int) =~= self@);
        let mut q = String::new();
        push_char(&mut q, '"');
        assert(q@ =~= dquotes(1));
        let mut k: usize = 0;
        while k < a
            invariant
                k <= a,
                q@ == dquotes((k + 1) as nat),
            decreases a - k,
        {
            push_char(&mut q, '"');
            assert(q@ =~= dquotes((k + 2) as nat));
            k = k + 1;
        }
        let mut res = copy_string(&q);
        res.append(self.as_str());
        res.append(q.as_str());
        res
    }
}

} // verus!

verus! {

/// A first character read as `true`.
pub open spec fn is_true_char(c: char) -> bool {
    c == 'y' || c == 'Y' || c == 't' || c == 'T' || c == '1'
}

/// A first character read as `false`.
pub open spec fn is_false_char(c: char) -> bool {
    c == 'f' || c == 'F' || c == 'n' || c == 'N' || c == '0'
}

/// Index of the first `,` of `s` at or after `i` (or the length of `s`).
pub open spec fn next_comma(s: Seq<char>, i: int) -> int
    decreases s.len() - i,
{
    if i < 0 || i >= s.len() || s[i] == ',' {
        if i < 0 {
            0
        } else if i >= s.len() {
            s.len() as int
        } else {
            i
        }
    } else {
        next_comma(s, i + 1)
    }
}

/// A flag at the start of `s`, as `(rest, value)`: a leading `,` reads as
/// `false`; otherwise the first letter decides (`y`, `t`, `1` for true;
/// `f`, `n`, `0` for false; either case) and the text up to the next `,`
/// is skipped.
pub open spec fn bool_parse(s: Seq<char>) -> Option<(Seq<char>, bool)> {
    if s.len() > 0 && s[0] == ',' {
        Some((s.drop_first(), false))
    } else if s.len() > 0 && (is_true_char(s[0]) || is_false_char(s[0])) {
        Some((s.subrange(next_comma(s, 1), s.len() as int), is_true_char(s[0])))
    } else {
        None
    }
}

/// The text of a parse error at `input` with error code `code`.
pub open spec fn error_message(input: Seq<char>, code: Seq<char>) -> Seq<char> {
    "Parsing Error: Error { input: \""@ + input + "\", code: "@ + code + " }"@
}

/// The message of a parse error at `input`.
pub(crate) fn parse_error(input: &str, code: &str) -> (r: IniParseError)
    ensures
        r matches IniParseError::Error(m) && m@ == error_message(input@, code@),
{
    let mut m = String::from_str("Parsing Error: Error { input: \"");
    m.append(input);
    m.append("\", code: ");
    m.append(code);
    m.append(" }");
    IniParseError::Error(m)
}

impl Ini for bool {
    type Arg = ();

    open spec fn eat_ok(input: Seq<char>, arg: ()) -> bool {
        true
    }

    open spec fn eats(input: Seq<char>, arg: (), rest: Seq<char>, v: bool) -> bool {
        bool_parse(input) == Some((rest, v))
    }

    open spec fn refuses(input: Seq<char>, arg: (), e: IniParseError) -> bool {
        bool_parse(input) is None && e is Error
    }

    open spec fn shows(&self, arg: ()) -> Seq<char> {
        if *self {
            "true"@
        } else {
            "false"@
        }
    }

    fn eat<'a>(input: &'a str, additional: ()) -> (r: Result<(&'a str, bool), IniParseError>) {
        let v = chars_of(input);
        let n = v.len();
        if n > 0 && v[0] == ',' {
            assert(input@.subrange(1, n as int) =~= input@.drop_first());
            return Ok((input.substring_char(1, n), false));
        }
        if n == 0 {
            return Err(parse_error(input, "Tag"));
        }
        let c = v[0];
        let t = c == 'y' || c == 'Y' || c == 't' || c == 'T' || c == '1';
        let f = c == 'f' || c == 'F' || c == 'n' || c == 'N' || c == '0';
        if !t && !f {
            return Err(parse_error(input, "Tag"));
        }
        let mut i: usize = 1;
        while i < n && v[i] != ','
            invariant
                n == v@.len(),
                v@ == input@,
                1 <= i <= n,
                next_comma(input@, 1) == next_comma(input@, i as int),
            decreases n - i,
        {
            i = i + 1;
        }
        Ok((input.substring_char(i, n), t))
    }

    fn vomit(&self, additional: ()) -> (r: String) {
        if *self {
            String::from_str("true")
        } else {
            String::from_str("false")
        }
    }
}

/// Length of the run of ASCII digits at the start of `s`.
pub open spec fn digit_run(s: Seq<char>) -> nat
    decreases s.len(),
{
    if s.len() > 0 && is_digit(s[0]) {
        1 + digit_run(s.drop_first())
    } else {
        0
    }
}

/// A number at the start of `s`, as `(rest, value)`: a leading `,` reads
/// as zero; otherwise the leading ASCII digits (`None` if there are none).
pub open spec fn number_parse(s: Seq<char>) -> Option<(Seq<char>, nat)> {
    if s.len() > 0 && s[0] == ',' {
        Some((s.drop_first(), 0))
    } else {
        let d = digit_run(s);
        if d == 0 {
            None
        } else {
            Some((s.subrange(d as int, s.len() as int), dec_value(s.subrange(0, d as int))))
        }
    }
}

/// `eats` of a number type whose values are `0..=max`.
pub open spec fn number_eats(input: Seq<char>, max: nat, rest: Seq<char>, v: int) -> bool {
    number_parse(input) matches Some((re, n)) && re == rest && n == v && n <= max
}

/// `refuses` of a number type whose values are `0..=max`.
pub open spec fn number_refuses(input: Seq<char>, max: nat, e: IniParseError) -> bool {
    match number_parse(input) {
        None => e is Error,
        Some((_, n)) => n > max && e == IniParseError::Empty,
    }
}

proof fn lemma_digit_run(s: Seq<char>)
    ensures
        digit_run(s) <= s.len(),
        forall|k: int| 0 <= k < digit_run(s) ==> is_digit(s[k]),
        digit_run(s) < s.len() ==> !is_digit(s[digit_run(s) as int]),
    decreases s.len(),
{
    if s.len() > 0 && is_digit(s[0]) {
        lemma_digit_run(s.drop_first());
        assert forall|k: int| 0 <= k < digit_run(s) implies is_digit(s[k]) by {
            if k > 0 {
                assert(s[k] == s.drop_first()[k - 1]);
            }
        }
    }
}

/// Reads a number in `0..=max` off the front of `input`.
fn eat_number<'a>(input: &'a str, max: u128) -> (r: Result<(&'a str, u128), IniParseError>)
    ensures
        match r {
            Ok((rest, v)) => number_eats(input@, max as nat, rest@, v as int) && is_tail(rest@, input@),
            Err(e) => number_refuses(input@, max as nat, e),
        },
{
    let v = chars_of(input);
    let n = v.len();
    if n > 0 && v[0] == ',' {
        assert(input@.subrange(1, n as int) =~= input@.drop_first());
        return Ok((input.substring_char(1, n), 0));
    }
    proof {
        lemma_digit_run(input@);
    }
    let mut d: usize = 0;
    let mut value: u128 = 0;
    let mut over = false;
    while d < n && '0' <= v[d] && v[d] <= '9'
        invariant
            n == v@.len(),
            v@ == input@,
            d <= n,
            d <= digit_run(input@),
            forall|k: int| 0 <= k < digit_run(input@) ==> is_digit(input@[k]),
            digit_run(input@) < input@.len() ==> !is_digit(input@[digit_run(input@) as int]),
            !over ==> value == dec_value(input@.subrange(0, d as int)) && value <= max,
            over ==> dec_value(input@.subrange(0, d as int)) > max,
        decreases n - d,
    {
        let c = v[d];
        proof {
            assert(input@.subrange(0, d + 1).drop_last() =~= input@.subrange(0, d as int));
            if d as int == digit_run(input@) && d < n {
                assert(!is_digit(input@[d as int]));
            }
        }
        let digit = (c as u32 - '0' as u32) as u128;
        if !over {
            if digit > max || value > (max - digit) / 10 {
                over = true;
                proof {
                    if digit <= max {
                        assert(value * 10 + digit > max) by (nonlinear_arith)
                            requires
                                value > (max - digit) / 10,
                                digit <= max,
                        ;
                    } else {
                        assert(value * 10 + digit > max) by (nonlinear_arith)
                            requires
                                digit > max,
                                value >= 0,
                        ;
                    }
                }
            } else {
                proof {
                    assert(value * 10 + digit <= max) by (nonlinear_arith)
                        requires
                            value <= (max - digit) / 10,
                            digit <= max,
                    ;
                }
                value = value * 10 + digit;
            }
        } else {
            proof {
                let prev = dec_value(input@.subrange(0, d as int));
                assert(prev * 10 + (digit as nat) >= prev) by (nonlinear_arith);
            }
        }
        d = d + 1;
    }
    proof {
        if d < digit_run(input@) {
            assert(is_digit(input@[d as int]));
        }
        assert(d == digit_run(input@));
    }
    if d == 0 {
        return Err(parse_error(input, "Digit"));
    }
    if over {
        return Err(IniParseError::Empty);
    }
    Ok((input.substring_char(d, n), value))
}

} // verus!

verus! {
impl Ini for u8 {
    type Arg = ();

    open spec fn eat_ok(input: Seq<char>, arg: ()) -> bool {
        true
    }

    open spec fn eats(input: Seq<char>, arg: (), rest: Seq<char>, v: u8) -> bool {
        number_eats(input, u8::MAX as nat, rest, v as int)
    }

    open spec fn refuses(input: Seq<char>, arg: (), e: IniParseError) -> bool {
        number_refuses(input, u8::MAX as nat, e)
    }

    open spec fn shows(&self, arg: ()) -> Seq<char> {
        dec(*self as nat)
    }

    fn eat<'a>(input: &'a str, additional: ()) -> (r: Result<(&'a str, u8), IniParseError>) {
        match eat_number(input, u8::MAX as u128) {
            Ok((rest, v)) => Ok((rest, v as u8)),
            Err(e) => Err(e),
        }
    }

    fn vomit(&self, additional: ()) -> (r: String) {
        u128_to_string(*self as u128)
    }
}

impl Ini for u16 {
    type Arg = ();

    open spec fn eat_ok(input: Seq<char>, arg: ()) -> bool {
        true
    }

    open spec fn eats(input: Seq<char>, arg: (), rest: Seq<char>, v: u16) -> bool {
        number_eats(input, u16::MAX as nat, rest, v as int)
    }

    open spec fn refuses(input: Seq<char>, arg: (), e: IniParseError) -> bool {
        number_refuses(input, u16::MAX as nat, e)
    }

    open spec fn shows(&self, arg: ()) -> Seq<char> {
        dec(*self as nat)
    }

    fn eat<'a>(input: &'a str, additional: ()) -> (r: Result<(&'a str, u16), IniParseError>) {
        match eat_number(input, u16::MAX as u128) {
            Ok((rest, v)) => Ok((rest, v as u16)),
            Err(e) => Err(e),
        }
    }

    fn vomit(&self, additional: ()) -> (r: String) {
        u128_to_string(*self as u128)
    }
}

impl Ini for u32 {
    type Arg = ();

    open spec fn eat_ok(input: Seq<char>, arg: ()) -> bool {
        true
    }

    open spec fn eats(input: Seq<char>, arg: (), rest: Seq<char>, v: u32) -> bool {
        number_eats(input, u32::MAX as nat, rest, v as int)
    }

    open spec fn refuses(input: Seq<char>, arg: (), e: IniParseError) -> bool {
        number_refuses(input, u32::MAX as nat, e)
    }

    open spec fn shows(&self, arg: ()) -> Seq<char> {
        dec(*self as nat)
    }

    fn eat<'a>(input: &'a str, additional: ()) -> (r: Result<(&'a str, u32), IniParseError>) {
        match eat_number(input, u32::MAX as u128) {
            Ok((rest, v)) => Ok((rest, v as u32)),
            Err(e) => Err(e),
        }
    }

    fn vomit(&self, additional: ()) -> (r: String) {
        u128_to_string(*self as u128)
    }
}

impl Ini for u64 {
    type Arg = ();

    open spec fn eat_ok(input: Seq<char>, arg: ()) -> bool {
        true
    }

    open spec fn eats(input: Seq<char>, arg: (), rest: Seq<char>, v: u64) -> bool {
        number_eats(input, u64::MAX as nat, rest, v as int)
    }

    open spec fn refuses(input: Seq<char>, arg: (), e: IniParseError) -> bool {
        number_refuses(input, u64::MAX as nat, e)
    }

    open spec fn shows(&self, arg: ()) -> Seq<char> {
        dec(*self as nat)
    }

    fn eat<'a>(input: &'a str, additional: ()) -> (r: Result<(&'a str, u64), IniParseError>) {
        match eat_number(input, u64::MAX as u128) {
            Ok((rest, v)) => Ok((rest, v as u64)),
            Err(e) => Err(e),
        }
    }

    fn vomit(&self, additional: ()) -> (r: String) {
        u128_to_string(*self as u128)
    }
}

impl Ini for u128 {
    type Arg = ();

    open spec fn eat_ok(input: Seq<char>, arg: ()) -> bool {
        true
    }

    open spec fn eats(input: Seq<char>, arg: (), rest: Seq<char>, v: u128) -> bool {
        number_eats(input, u128::MAX as nat, rest, v as int)
    }

    open spec fn refuses(input: Seq<char>, arg: (), e: IniParseError) -> bool {
        number_refuses(input, u128::MAX as nat, e)
    }

    open spec fn shows(&self, arg: ()) -> Seq<char> {
        dec(*self as nat)
    }

    fn eat<'a>(input: &'a str, additional: ()) -> (r: Result<(&'a str, u128), IniParseError>) {
        match eat_number(input, u128::MAX as u128) {
            Ok((rest, v)) => Ok((rest, v as u128)),
            Err(e) => Err(e),
        }
    }

    fn vomit(&self, additional: ()) -> (r: String) {
        u128_to_string(*self as u128)
    }
}

impl Ini for usize {
    type Arg = ();

    open spec fn eat_ok(input: Seq<char>, arg: ()) -> bool {
        true
    }

    open spec fn eats(input: Seq<char>, arg: (), rest: Seq<char>, v: usize) -> bool {
        number_eats(input, usize::MAX as nat, rest, v as int)
    }

    open spec fn refuses(input: Seq<char>, arg: (), e: IniParseError) -> bool {
        number_refuses(input, usize::MAX as nat, e)
    }

    open spec fn shows(&self, arg: ()) -> Seq<char> {
        dec(*self as nat)
    }

    fn eat<'a>(input: &'a str, additional: ()) -> (r: Result<(&'a str, usize), IniParseError>) {
        match eat_number(input, usize::MAX as u128) {
            Ok((rest, v)) => Ok((rest, v as usize)),
            Err(e) => Err(e),
        }
    }

    fn vomit(&self, additional: ()) -> (r: String) {
        u128_to_string(*self as u128)
    }
}

impl Ini for i8 {
    type Arg = ();

    open spec fn eat_ok(input: Seq<char>, arg: ()) -> bool {
        true
    }

    open spec fn eats(input: Seq<char>, arg: (), rest: Seq<char>, v: i8) -> bool {
        number_eats(input, i8::MAX as nat, rest, v as int)
    }

    open spec fn refuses(input: Seq<char>, arg: (), e: IniParseError) -> bool {
        number_refuses(input, i8::MAX as nat, e)
    }

    open spec fn shows(&self, arg: ()) -> Seq<char> {
        dec_int(*self as int)
    }

    fn eat<'a>(input: &'a str, additional: ()) -> (r: Result<(&'a str, i8), IniParseError>) {
        match eat_number(input, i8::MAX as u128) {
            Ok((rest, v)) => Ok((rest, v as i8)),
            Err(e) => Err(e),
        }
    }

    fn vomit(&self, additional: ()) -> (r: String) {
        i128_to_string(*self as i128)
    }
}

impl Ini for i16 {
    type Arg = ();

    open spec fn eat_ok(input: Seq<char>, arg: ()) -> bool {
        true
    }

    open spec fn eats(input: Seq<char>, arg: (), rest: Seq<char>, v: i16) -> bool {
        number_eats(input, i16::MAX as nat, rest, v as int)
    }

    open spec fn refuses(input: Seq<char>, arg: (), e: IniParseError) -> bool {
        number_refuses(input, i16::MAX as nat, e)
    }

    open spec fn shows(&self, arg: ()) -> Seq<char> {
        dec_int(*self as int)
    }

    fn eat<'a>(input: &'a str, additional: ()) -> (r: Result<(&'a str, i16), IniParseError>) {
        match eat_number(input, i16::MAX as u128) {
            Ok((rest, v)) => Ok((rest, v as i16)),
            Err(e) => Err(e),
        }
    }

    fn vomit(&self, additional: ()) -> (r: String) {
        i128_to_string(*self as i128)
    }
}

impl Ini for i32 {
    type Arg = ();

    open spec fn eat_ok(input: Seq<char>, arg: ()) -> bool {
        true
    }

    open spec fn eats(input: Seq<char>, arg: (), rest: Seq<char>, v: i32) -> bool {
        number_eats(input, i32::MAX as nat, rest, v as int)
    }

    open spec fn refuses(input: Seq<char>, arg: (), e: IniParseError) -> bool {
        number_refuses(input, i32::MAX as nat, e)
    }

    open spec fn shows(&self, arg: ()) -> Seq<char> {
        dec_int(*self as int)
    }

    fn eat<'a>(input: &'a str, additional: ()) -> (r: Result<(&'a str, i32), IniParseError>) {
        match eat_number(input, i32::MAX as u128) {
            Ok((rest, v)) => Ok((rest, v as i32)),
            Err(e) => Err(e),
        }
    }

    fn vomit(&self, additional: ()) -> (r: String) {
        i128_to_string(*self as i128)
    }
}

impl Ini for i64 {
    type Arg = ();

    open spec fn eat_ok(input: Seq<char>, arg: ()) -> bool {
        true
    }

    open spec fn eats(input: Seq<char>, arg: (), rest: Seq<char>, v: i64) -> bool {
        number_eats(input, i64::MAX as nat, rest, v as int)
    }

    open spec fn refuses(input: Seq<char>, arg: (), e: IniParseError) -> bool {
        number_refuses(input, i64::MAX as nat, e)
    }

    open spec fn shows(&self, arg: ()) -> Seq<char> {
        dec_int(*self as int)
    }

    fn eat<'a>(input: &'a str, additional: ()) -> (r: Result<(&'a str, i64), IniParseError>) {
        match eat_number(input, i64::MAX as u128) {
            Ok((rest, v)) => Ok((rest, v as i64)),
            Err(e) => Err(e),
        }
    }

    fn vomit(&self, additional: ()) -> (r: String) {
        i128_to_string(*self as i128)
    }
}

impl Ini for i128 {
    type Arg = ();

    open spec fn eat_ok(input: Seq<char>, arg: ()) -> bool {
        true
    }

    open spec fn eats(input: Seq<char>, arg: (), rest: Seq<char>, v: i128) -> bool {
        number_eats(input, i128::MAX as nat, rest, v as int)
    }

    open spec fn refuses(input: Seq<char>, arg: (), e: IniParseError) -> bool {
        number_refuses(input, i128::MAX as nat, e)
    }

    open spec fn shows(&self, arg: ()) -> Seq<char> {
        dec_int(*self as int)
    }

    fn eat<'a>(input: &'a str, additional: ()) -> (r: Result<(&'a str, i128), IniParseError>) {
        match eat_number(input, i128::MAX as u128) {
            Ok((rest, v)) => Ok((rest, v as i128)),
            Err(e) => Err(e),
        }
    }

    fn vomit(&self, additional: ()) -> (r: String) {
        i128_to_string(*self as i128)
    }
}

impl Ini for isize {
    type Arg = ();

    open spec fn eat_ok(input: Seq<char>, arg: ()) -> bool {
        true
    }

    open spec fn eats(input: Seq<char>, arg: (), rest: Seq<char>, v: isize) -> bool {
        number_eats(input, isize::MAX as nat, rest, v as int)
    }

    open spec fn refuses(input: Seq<char>, arg: (), e: IniParseError) -> bool {
        number_refuses(input, isize::MAX as nat, e)
    }

    open spec fn shows(&self, arg: ()) -> Seq<char> {
        dec_int(*self as int)
    }

    fn eat<'a>(input: &'a str, additional: ()) -> (r: Result<(&'a str, isize), IniParseError>) {
        match eat_number(input, isize::MAX as u128) {
            Ok((rest, v)) => Ok((rest, v as isize)),
            Err(e) => Err(e),
        }
    }

    fn vomit(&self, additional: ()) -> (r: String) {
        i128_to_string(*self as i128)
    }
}

} // verus!

verus! {

/// Whether `s` starts with `,`.
pub open spec fn starts_comma(s: Seq<char>) -> bool {
    s.len() > 0 && s[0] == ','
}

/// Whether `s` starts with `,` (and what follows it).
pub(crate) fn split_comma<'a>(s: &'a str) -> (r: Option<&'a str>)
    ensures
        match r {
            Some(rest) => starts_comma(s@) && rest@ == s@.drop_first(),
            None => !starts_comma(s@),
        },
{
    let n = s.unicode_len();
    if n > 0 && s.get_char(0) == ',' {
        let rest = s.substring_char(1, n);
        assert(rest@ =~= s@.drop_first());
        Some(rest)
    } else {
        None
    }
}

impl<T: Ini> Ini for Option<T> {
    type Arg = T::Arg;

    open spec fn eat_ok(input: Seq<char>, arg: T::Arg) -> bool {
        starts_comma(input) || T::eat_ok(input, arg)
    }

    open spec fn eats(input: Seq<char>, arg: T::Arg, rest: Seq<char>, v: Option<T>) -> bool {
        if starts_comma(input) {
            rest == input.drop_first() && v is None
        } else {
            v matches Some(x) && T::eats(input, arg, rest, x)
        }
    }

    open spec fn refuses(input: Seq<char>, arg: T::Arg, e: IniParseError) -> bool {
        !starts_comma(input) && T::refuses(input, arg, e)
    }

    open spec fn shows(&self, arg: T::Arg) -> Seq<char> {
        match self {
            Some(v) => v.shows(arg),
            None => Seq::empty(),
        }
    }

    fn eat<'a>(input: &'a str, additional: T::Arg) -> (r: Result<(&'a str, Option<T>), IniParseError>) {
        match split_comma(input) {
            Some(rest) => Ok((rest, None)),
            None => match T::eat(input, additional) {
                Ok((rest, v)) => Ok((rest, Some(v))),
                Err(e) => Err(e),
            },
        }
    }

    fn vomit(&self, additional: T::Arg) -> (r: String) {
        match self {
            Some(v) => v.vomit(additional),
            None => String::new(),
        }
    }
}

/// `input` is a list of values `v`, each followed by `,`, up to the end.
pub open spec fn vec_eats<T: Ini>(input: Seq<char>, arg: T::Arg, v: Seq<T>) -> bool
    decreases v.len(),
{
    if v.len() == 0 {
        input.len() == 0
    } else {
        input.len() > 0 && exists|r1: Seq<char>|
            #[trigger] T::eats(input, arg, r1, v[0]) && starts_comma(r1) && vec_eats::<T>(
                r1.drop_first(),
                arg,
                v.drop_first(),
            )
    }
}

/// `input` starts with `n` values each followed by `,`, and then neither
/// the end nor a value followed by `,` comes (for the reason `e`).
pub open spec fn vec_refuses<T: Ini>(input: Seq<char>, arg: T::Arg, e: IniParseError, n: nat) -> bool
    decreases n,
{
    &&& input.len() > 0
    &&& if n == 0 {
        ||| T::refuses(input, arg, e)
        ||| (e is Error && exists|r1: Seq<char>, x: T| #[trigger] T::eats(input, arg, r1, x) && !starts_comma(r1))
    } else {
        exists|r1: Seq<char>, x: T|
            #[trigger] T::eats(input, arg, r1, x) && starts_comma(r1) && vec_refuses::<T>(
                r1.drop_first(),
                arg,
                e,
                (n - 1) as nat,
            )
    }
}

/// The text of a list: each value followed by `,`.
pub open spec fn vec_shows<T: Ini>(v: Seq<T>, arg: T::Arg) -> Seq<char>
    decreases v.len(),
{
    if v.len() == 0 {
        Seq::empty()
    } else {
        vec_shows(v.drop_last(), arg) + v.last().shows(arg) + seq![',']
    }
}

impl<T: Ini> Ini for Vec<T> where T::Arg: Copy {
    type Arg = T::Arg;

    open spec fn eat_ok(input: Seq<char>, arg: T::Arg) -> bool {
        forall|k: int| 0 <= k <= input.len() ==> T::eat_ok(#[trigger] input.subrange(k, input.len() as int), arg)
    }

    open spec fn eats(input: Seq<char>, arg: T::Arg, rest: Seq<char>, v: Vec<T>) -> bool {
        rest.len() == 0 && vec_eats(input, arg, v@)
    }

    open spec fn refuses(input: Seq<char>, arg: T::Arg, e: IniParseError) -> bool {
        exists|n: nat| vec_refuses::<T>(input, arg, e, n)
    }

    open spec fn shows(&self, arg: T::Arg) -> Seq<char> {
        vec_shows(self@, arg)
    }

    fn eat<'a>(input: &'a str, additional: T::Arg) -> (r: Result<(&'a str, Vec<T>), IniParseError>) {
        let mut cur = input;
        let mut items: Vec<T> = Vec::new();
        assert(input@.subrange(0, input@.len() as int) =~= input@);
        loop
            invariant
                is_tail(cur@, input@),
                Self::eat_ok(input@, additional),
                forall|tail: Seq<T>| #[trigger] vec_eats(cur@, additional, tail) ==> vec_eats(
                    input@,
                    additional,
                    items@ + tail,
                ),
                forall|e: IniParseError, n: nat| #[trigger] vec_refuses::<T>(cur@, additional, e, n)
                    ==> vec_refuses::<T>(input@, additional, e, n + items@.len()),
            decreases cur@.len(),
        {
            if cur.unicode_len() == 0 {
                proof {
                    assert(vec_eats(cur@, additional, Seq::<T>::empty()));
                    assert(items@ + Seq::<T>::empty() =~= items@);
                }
                return Ok((cur, items));
            }
            match T::eat(cur, additional) {
                Err(e) => {
                    proof {
                        assert(vec_refuses::<T>(cur@, additional, e, 0));
                    }
                    return Err(e);
                },
                Ok((rest, x)) => match split_comma(rest) {
                    None => {
                        let err = parse_error(rest, "Tag");
                        proof {
                            assert(T::eats(cur@, additional, rest@, x) && !starts_comma(rest@));
                            assert(vec_refuses::<T>(cur@, additional, err, 0));
                        }
                        return Err(err);
                    },
                    Some(next) => {
                        let ghost before = items@;
                        let ghost c0 = cur@;
                        items.push(x);
                        proof {
                            assert forall|tail: Seq<T>| #[trigger] vec_eats(next@, additional, tail) implies vec_eats(
                                input@,
                                additional,
                                items@ + tail,
                            ) by {
                                let t2 = seq![x] + tail;
                                assert(t2[0] == x);
                                assert(t2.drop_first() =~= tail);
                                assert(T::eats(c0, additional, rest@, t2[0]));
                                assert(vec_eats(c0, additional, t2));
                                assert(before + t2 =~= items@ + tail);
                            }
                            assert forall|e: IniParseError, n: nat| #[trigger] vec_refuses::<T>(next@, additional, e, n)
                                implies vec_refuses::<T>(input@, additional, e, n + items@.len()) by {
                                assert(T::eats(c0, additional, rest@, x));
                                assert(vec_refuses::<T>(c0, additional, e, n + 1));
                            }
                        }
                        proof {
                            let (lc, lr) = (cur@.len() as int, rest@.len() as int);
                            let li = input@.len() as int;
                            assert(next@ =~= input@.subrange(li - next@.len(), li)) by {
                                assert(rest@ == cur@.subrange(lc - lr, lc));
                                assert(cur@ == input@.subrange(li - lc, li));
                                assert forall|q: int| 0 <= q < next@.len() implies next@[q] == input@[li - next@.len() + q] by {
                                    assert(next@[q] == rest@[q + 1]);
                                    assert(rest@[q + 1] == cur@[lc - lr + q + 1]);
                                    assert(cur@[lc - lr + q + 1] == input@[li - lc + lc - lr + q + 1]);
                                }
                            }
                        }
                        cur = next;
                    },
                },
            }
        }
    }

    fn vomit(&self, additional: T::Arg) -> (r: String) {
        let mut s = String::new();
        let mut i: usize = 0;
        while i < self.len()
            invariant
                i <= self@.len(),
                s@ == vec_shows(self@.subrange(0, i as int), additional),
            decreases self@.len() - i,
        {
            proof {
                assert(self@.subrange(0, i + 1).drop_last() =~= self@.subrange(0, i as int));
            }
            let t = self[i].vomit(additional);
            s.append(t.as_str());
            push_char(&mut s, ',');
            i = i + 1;
        }
        assert(self@.subrange(0, self@.len() as int) =~= self@);
        s
    }
}

} // verus!

verus! {

/// The `IndexMap` of the `indexmap` crate: a map that keeps the order in
/// which keys were first inserted.
#[verifier::external_type_specification]
#[verifier::external_body]
#[verifier::reject_recursive_types(K)]
#[verifier::reject_recursive_types(V)]
#[verifier::reject_recursive_types(S)]
pub struct ExIndexMap<K, V, S>(indexmap::IndexMap<K, V, S>);

/// The properties of one section, in order.
pub type Section = indexmap::IndexMap<String, String>;

/// The entries of a section map, in their order.
pub uninterp spec fn section_entries(m: indexmap::IndexMap<String, String>) -> Seq<(Seq<char>, Seq<char>)>;

/// Index of the entry with key `k`.
pub open spec fn entry_index(e: Seq<(Seq<char>, Seq<char>)>, k: Seq<char>) -> Option<int>
    decreases e.len(),
{
    if e.len() == 0 {
        None
    } else if e[0].0 == k {
        Some(0)
    } else {
        match entry_index(e.drop_first(), k) {
            Some(i) => Some(i + 1),
            None => None,
        }
    }
}

/// `IndexMap::insert` on entries: an existing key keeps its place and gets
/// the new value; a new key goes last.
pub open spec fn entry_insert(e: Seq<(Seq<char>, Seq<char>)>, k: Seq<char>, v: Seq<char>) -> Seq<
    (Seq<char>, Seq<char>),
> {
    match entry_index(e, k) {
        Some(i) => e.update(i, (k, v)),
        None => e.push((k, v)),
    }
}

/// `IndexMap::get` on entries.
pub open spec fn entry_get(e: Seq<(Seq<char>, Seq<char>)>, k: Seq<char>) -> Option<Seq<char>> {
    match entry_index(e, k) {
        Some(i) => Some(e[i].1),
        None => None,
    }
}

/// `IndexMap::new`: an empty map.
#[verifier::external_body]
fn section_new() -> (r: Section)
    ensures
        section_entries(r) == Seq::<(Seq<char>, Seq<char>)>::empty(),
{
    indexmap::IndexMap::new()
}

/// `IndexMap::insert`: an existing key keeps its place and gets the new
/// value; a new key is added last.
#[verifier::external_body]
fn section_insert(m: &mut Section, k: String, v: String)
    ensures
        section_entries(*final(m)) == entry_insert(section_entries(*old(m)), k@, v@),
{
    m.insert(k, v);
}

/// `IndexMap::get`: the value of key `k`, if present.
#[verifier::external_body]
pub(crate) fn section_get(m: &Section, k: &String) -> (r: Option<String>)
    ensures
        match r {
            Some(v) => entry_get(section_entries(*m), k@) == Some(v@),
            None => entry_get(section_entries(*m), k@) is None,
        },
{
    m.get(k).cloned()
}

/// `IndexMap::iter`: the entries in order.
#[verifier::external_body]
pub fn section_pairs(m: &Section) -> (r: Vec<(String, String)>)
    ensures
        pair_views(r@) == section_entries(*m),
{
    let mut out = Vec::new();
    for (k, v) in m.iter() {
        out.push((k.clone(), v.clone()));
    }
    out
}

/// A transformation of property values while sections are read.
pub trait ValueFilter {
    /// The filter can run.
    spec fn ready(&self) -> bool;

    /// The value kept for a raw value.
    spec fn filtered(&self, v: Seq<char>) -> Seq<char>;

    fn filter(&self, v: &str) -> (r: String)
        requires
            self.ready(),
            self.accepts(v@),
        ensures
            r@ == self.filtered(v@),
    ;

    /// The filter can run on `v`.
    spec fn accepts(&self, v: Seq<char>) -> bool;

    /// Whether the filter can run on `v`.
    fn can_filter(&self, v: &str) -> (r: bool)
        ensures
            r == self.accepts(v@),
    ;
}

/// Values kept as they are.
pub struct RawValues;

impl ValueFilter for RawValues {
    open spec fn ready(&self) -> bool {
        true
    }

    open spec fn filtered(&self, v: Seq<char>) -> Seq<char> {
        v
    }

    open spec fn accepts(&self, v: Seq<char>) -> bool {
        true
    }

    fn filter(&self, v: &str) -> (r: String) {
        owned(v)
    }

    fn can_filter(&self, v: &str) -> (r: bool) {
        true
    }
}

/// Reading state of sections: finished sections, the current section's
/// name, the last property key and the current properties.
pub struct SectionState {
    pub done: Seq<(Seq<char>, Seq<(Seq<char>, Seq<char>)>)>,
    pub name: Seq<char>,
    pub last: Seq<char>,
    pub props: Seq<(Seq<char>, Seq<char>)>,
}

/// One line read: a section header closes the current section if it has a
/// name (else the properties read so far move into the new section); a
/// property is stored under its lower-cased key; a line without `=` is
/// appended to the value of the last key, if that key is in the section.
pub open spec fn section_step<F: ValueFilter>(st: SectionState, item: IniItemView, f: F) -> SectionState {
    match item {
        IniItemView::Section(sec) => if st.name.len() > 0 {
            SectionState { done: st.done.push((st.name, st.props)), name: sec, last: st.last, props: Seq::empty() }
        } else {
            SectionState { name: sec, ..st }
        },
        IniItemView::Property(k, v) => SectionState {
            last: lowercase(k),
            props: entry_insert(st.props, lowercase(k), f.filtered(v)),
            ..st
        },
        IniItemView::Action(v) => match entry_get(st.props, st.last) {
            Some(old) => SectionState { props: entry_insert(st.props, st.last, old + v), ..st },
            None => st,
        },
        _ => st,
    }
}

/// The state after reading `items`.
pub open spec fn sections_run<F: ValueFilter>(items: Seq<IniItemView>, f: F) -> SectionState
    decreases items.len(),
{
    if items.len() == 0 {
        SectionState { done: Seq::empty(), name: Seq::empty(), last: Seq::empty(), props: Seq::empty() }
    } else {
        section_step(sections_run(items.drop_last(), f), items.last(), f)
    }
}

/// The sections of a document: each with its name and properties (the last
/// one too, even unnamed).
pub open spec fn sections_of<F: ValueFilter>(items: Seq<IniItemView>, f: F) -> Seq<(Seq<char>, Seq<(Seq<char>, Seq<char>)>)> {
    let st = sections_run(items, f);
    st.done.push((st.name, st.props))
}

/// The filter can run on every property value of the document.
pub open spec fn filter_accepts_all<F: ValueFilter>(items: Seq<IniItemView>, f: F) -> bool {
    forall|i: int| 0 <= i < items.len() ==> (#[trigger] items[i] matches IniItemView::Property(_, v) ==> f.accepts(v))
}

/// The views of a list of sections.
pub open spec fn sections_view(v: Seq<(String, Section)>) -> Seq<(Seq<char>, Seq<(Seq<char>, Seq<char>)>)> {
    v.map_values(|p: (String, Section)| (p.0@, section_entries(p.1)))
}

/// Reads the sections of `ini_doc`, passing each property value through `f`.
pub fn parse_for_sections_with<F: ValueFilter>(ini_doc: &str, f: &F) -> (r: Vec<(String, Section)>)
    requires
        f.ready(),
        !has_error(ini_items(ini_doc@)),
        filter_accepts_all(ini_items(ini_doc@), *f),
    ensures
        sections_view(r@) == sections_of(ini_items(ini_doc@), *f),
{
    let items = read_ini_items(ini_doc);
    let ghost iv = items@.map_values(|i: IniItem| i@);
    let mut result: Vec<(String, Section)> = Vec::new();
    let mut old_sec = String::new();
    let mut last_prop = String::new();
    let mut props = section_new();
    let mut i: usize = 0;
    assert(sections_view(result@) =~= Seq::empty());
    assert(iv.subrange(0, 0) =~= Seq::empty());
    while i < items.len()
        invariant
            f.ready(),
            i <= items@.len(),
            iv == items@.map_values(|i: IniItem| i@),
            iv == ini_items(ini_doc@),
            !has_error(iv),
            filter_accepts_all(iv, *f),
            sections_run(iv.subrange(0, i as int), *f) == (SectionState {
                done: sections_view(result@),
                name: old_sec@,
                last: last_prop@,
                props: section_entries(props),
            }),
        decreases items.len() - i,
    {
        proof {
            assert(iv.subrange(0, i + 1).drop_last() =~= iv.subrange(0, i as int));
            assert(iv.subrange(0, i + 1).last() == items@[i as int]@);
        }
        match &items[i] {
            IniItem::Section(sec) => {
                if old_sec.as_str().unicode_len() != 0 {
                    let finished = props;
                    props = section_new();
                    let name = old_sec;
                    old_sec = copy_string(sec);
                    let ghost before = result@;
                    result.push((name, finished));
                    assert(sections_view(result@) =~= sections_view(before).push((name@, section_entries(finished))));
                } else {
                    old_sec = copy_string(sec);
                }
            },
            IniItem::Property(k, v) => {
                proof {
                    assert(iv[i as int] matches IniItemView::Property(_, vv) ==> f.accepts(vv));
                }
                let prop = to_lowercase(k.as_str());
                let value = f.filter(v.as_str());
                section_insert(&mut props, copy_string(&prop), value);
                last_prop = prop;
            },
            IniItem::Action(v) => {
                match section_get(&props, &last_prop) {
                    Some(old) => {
                        let mut joined = old;
                        joined.append(v.as_str());
                        section_insert(&mut props, copy_string(&last_prop), joined);
                    },
                    None => {},
                }
            },
            IniItem::Error(_) => {
                proof {
                    assert(iv[i as int] is Error);
                }
            },
            _ => {},
        }
        i = i + 1;
    }
    assert(iv.subrange(0, items@.len() as int) =~= iv);
    let ghost before = result@;
    result.push((old_sec, props));
    assert(sections_view(result@) =~= sections_view(before).push((old_sec@, section_entries(props))));
    result
}

/// The sections of `ini_doc`, values kept as they are.
pub fn parse_for_sections(ini_doc: &str) -> (r: Vec<(String, Section)>)
    requires
        !has_error(ini_items(ini_doc@)),
    ensures
        sections_view(r@) == sections_of(ini_items(ini_doc@), RawValues),
{
    parse_for_sections_with(ini_doc, &RawValues)
}

/// Whether `ini_doc` has no malformed section header and `f` can run on
/// each of its property values.
pub fn sections_readable<F: ValueFilter>(ini_doc: &str, f: &F) -> (r: bool)
    ensures
        r == (!has_error(ini_items(ini_doc@)) && filter_accepts_all(ini_items(ini_doc@), *f)),
{
    let items = read_ini_items(ini_doc);
    let ghost iv = items@.map_values(|i: IniItem| i@);
    if find_error(&items) {
        return false;
    }
    let mut i: usize = 0;
    while i < items.len()
        invariant
            i <= items@.len(),
            iv == items@.map_values(|i: IniItem| i@),
            iv == ini_items(ini_doc@),
            forall|k: int| 0 <= k < i ==> (#[trigger] iv[k] matches IniItemView::Property(_, v) ==> f.accepts(v)),
        decreases items.len() - i,
    {
        match &items[i] {
            IniItem::Property(k, v) => {
                assert(iv[i as int] == IniItemView::Property(k@, v@));
                if !f.can_filter(v.as_str()) {
                    return false;
                }
            },
            _ => {},
        }
        i = i + 1;
    }
    true
}

/// The sections of `ini_doc` as `parse_for_sections_with` reads them, or
/// `None` when the document holds a malformed section header or a value
/// that `f` cannot take.
pub fn try_parse_for_sections_with<F: ValueFilter>(ini_doc: &str, f: &F) -> (r: Option<Vec<(String, Section)>>)
    requires
        f.ready(),
    ensures
        match r {
            Some(v) => !has_error(ini_items(ini_doc@)) && filter_accepts_all(ini_items(ini_doc@), *f)
                && sections_view(v@) == sections_of(ini_items(ini_doc@), *f),
            None => has_error(ini_items(ini_doc@)) || !filter_accepts_all(ini_items(ini_doc@), *f),
        },
{
    if sections_readable(ini_doc, f) {
        Some(parse_for_sections_with(ini_doc, f))
    } else {
        None
    }
}

/// The sections of `ini_doc` as `parse_for_sections` reads them, or `None`
/// when the document holds a malformed section header.
pub fn try_parse_for_sections(ini_doc: &str) -> (r: Option<Vec<(String, Section)>>)
    ensures
        match r {
            Some(v) => !has_error(ini_items(ini_doc@)) && sections_view(v@) == sections_of(
                ini_items(ini_doc@),
                RawValues,
            ),
            None => has_error(ini_items(ini_doc@)),
        },
{
    if ini_has_error(ini_doc) {
        None
    } else {
        Some(parse_for_sections(ini_doc))
    }
}

proof fn lemma_digit_char(d: nat)
    requires
        d < 10,
    ensures
        is_digit(digit_char(d)),
        digit_value(digit_char(d)) == d,
{
}

pub(crate) proof fn lemma_dec_reads_back(n: nat)
    ensures
        forall|k: int| 0 <= k < dec(n).len() ==> is_digit(#[trigger] dec(n)[k]),
        dec_value(dec(n)) == n,
    decreases n,
{
    if n < 10 {
        lemma_digit_char(n);
        assert(dec(n).drop_last() =~= Seq::<char>::empty());
        assert(dec_value(dec(n)) == dec_value(dec(n).drop_last()) * 10 + digit_value(dec(n).last()));
    } else {
        lemma_dec_reads_back(n / 10);
        lemma_digit_char(n % 10);
        assert(dec(n).drop_last() =~= dec(n / 10));
        assert(dec_value(dec(n)) == dec_value(dec(n).drop_last()) * 10 + digit_value(dec(n).last()));
        vstd::arithmetic::div_mod::lemma_fundamental_div_mod(n as int, 10);
        assert forall|k: int| 0 <= k < dec(n).len() implies is_digit(#[trigger] dec(n)[k]) by {
            if k < dec(n).len() - 1 {
                assert(dec(n)[k] == dec(n / 10)[k]);
            }
        }
    }
}

proof fn lemma_digit_run_all(s: Seq<char>)
    requires
        forall|k: int| 0 <= k < s.len() ==> is_digit(#[trigger] s[k]),
    ensures
        digit_run(s) == s.len(),
    decreases s.len(),
{
    if s.len() > 0 {
        assert forall|k: int| 0 <= k < s.drop_first().len() implies is_digit(#[trigger] s.drop_first()[k]) by {
            assert(s.drop_first()[k] == s[k + 1]);
        }
        lemma_digit_run_all(s.drop_first());
    }
}

/// A number written in decimal is read back whole, with nothing left.
pub proof fn lemma_number_roundtrip(n: nat)
    ensures
        number_parse(dec(n)) == Some((Seq::<char>::empty(), n)),
{
    lemma_dec_reads_back(n);
    lemma_digit_run_all(dec(n));
    crate::text::lemma_dec_len(n);
    assert(is_digit(dec(n)[0]));
    assert(dec(n).subrange(0, dec(n).len() as int) =~= dec(n));
    assert(dec(n).subrange(dec(n).len() as int, dec(n).len() as int) =~= Seq::<char>::empty());
}

/// What the `u64` codec writes, it reads back, with nothing left.
pub proof fn lemma_u64_roundtrip(v: u64)
    ensures
        <u64 as Ini>::eats(v.shows(()), (), Seq::empty(), v),
{
    lemma_number_roundtrip(v as nat);
}

/// What the `usize` codec writes, it reads back, with nothing left.
pub proof fn lemma_usize_roundtrip(v: usize)
    ensures
        <usize as Ini>::eats(v.shows(()), (), Seq::empty(), v),
{
    lemma_number_roundtrip(v as nat);
}

/// What the `i64` codec writes for a value from 0 on, it reads back, with
/// nothing left (negative values are written with `-`, which it does not
/// read).
pub proof fn lemma_i64_roundtrip(v: i64)
    requires
        v >= 0,
    ensures
        <i64 as Ini>::eats(v.shows(()), (), Seq::empty(), v),
{
    lemma_number_roundtrip(v as nat);
}

/// What the flag codec writes, it reads back, with nothing left.
pub proof fn lemma_bool_roundtrip(v: bool)
    ensures
        <bool as Ini>::eats(v.shows(()), (), Seq::empty(), v),
{
    reveal_strlit("true");
    reveal_strlit("false");
    let s = v.shows(());
    assert(next_comma(s, 1) == s.len()) by {
        let n = s.len() as int;
        assert(next_comma(s, n) == n);
        if v {
            assert(next_comma(s, 3) == n);
            assert(next_comma(s, 2) == n);
        } else {
            assert(next_comma(s, 4) == n);
            assert(next_comma(s, 3) == n);
            assert(next_comma(s, 2) == n);
        }
    }
    assert(s.subrange(s.len() as int, s.len() as int) =~= Seq::<char>::empty());
}

/// What is left after reading from what is left is left of the whole.
pub proof fn lemma_tail_trans(a: Seq<char>, b: Seq<char>, c: Seq<char>)
    requires
        is_tail(a, b),
        is_tail(b, c),
    ensures
        is_tail(a, c),
{
    assert(a =~= c.subrange(c.len() - a.len(), c.len() as int)) by {
        assert forall|q: int| 0 <= q < a.len() implies a[q] == c[c.len() - a.len() + q] by {
            assert(a[q] == b[b.len() - a.len() + q]);
            assert(b[b.len() - a.len() + q] == c[c.len() - b.len() + (b.len() - a.len() + q)]);
        }
    }
}

} // verus!
