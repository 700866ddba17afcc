//! Character-level helpers shared by the lobby, the locale and the ini readers:
//! whitespace trimming, decimal printing, literal comparison and search.
use vstd::prelude::*;

verus! {

/// The Unicode `White_Space` property, as `char::is_whitespace` tests it.
pub open spec fn is_ws(c: char) -> bool {
    ||| c == '\t'
    ||| c == '\n'
    ||| c == '\u{0B}'
    ||| c == '\u{0C}'
    ||| c == '\r'
    ||| c == ' '
    ||| c == '\u{85}'
    ||| c == '\u{A0}'
    ||| c == '\u{1680}'
    ||| ('\u{2000}' <= c && c <= '\u{200A}')
    ||| c == '\u{2028}'
    ||| c == '\u{2029}'
    ||| c == '\u{202F}'
    ||| c == '\u{205F}'
    ||| c == '\u{3000}'
}

/// Whether `c` is white space.
pub fn char_is_ws(c: char) -> (r: bool)
    ensures
        r == is_ws(c),
{
    c == '\t' || c == '\n' || c == '\u{0B}' || c == '\u{0C}' || c == '\r' || c == ' ' || c
        == '\u{85}' || c == '\u{A0}' || c == '\u{1680}' || ('\u{2000}' <= c && c <= '\u{200A}')
        || c == '\u{2028}' || c == '\u{2029}' || c == '\u{202F}' || c == '\u{205F}' || c
        == '\u{3000}'
}

/// Number of white-space characters at the start of `s`.
pub open spec fn lead_ws(s: Seq<char>) -> nat
    decreases s.len(),
{
    if s.len() == 0 {
        0
    } else if is_ws(s[0]) {
        1 + lead_ws(s.drop_first())
    } else {
        0
    }
}

/// Number of white-space characters at the end of `s`.
pub open spec fn trail_ws(s: Seq<char>) -> nat
    decreases s.len(),
{
    if s.len() == 0 {
        0
    } else if is_ws(s.last()) {
        1 + trail_ws(s.drop_last())
    } else {
        0
    }
}

/// `s` without its leading white space.
pub open spec fn trim_start(s: Seq<char>) -> Seq<char> {
    s.subrange(lead_ws(s) as int, s.len() as int)
}

/// `s` without its trailing white space.
pub open spec fn trim_end(s: Seq<char>) -> Seq<char> {
    s.subrange(0, s.len() - trail_ws(s))
}

/// `s` without leading and trailing white space (`str::trim`).
pub open spec fn trim(s: Seq<char>) -> Seq<char> {
    trim_end(trim_start(s))
}

pub proof fn lemma_lead_ws_bound(s: Seq<char>)
    ensures
        lead_ws(s) <= s.len(),
    decreases s.len(),
{
    if s.len() > 0 && is_ws(s[0]) {
        lemma_lead_ws_bound(s.drop_first());
    }
}

pub proof fn lemma_trail_ws_bound(s: Seq<char>)
    ensures
        trail_ws(s) <= s.len(),
    decreases s.len(),
{
    if s.len() > 0 && is_ws(s.last()) {
        lemma_trail_ws_bound(s.drop_last());
    }
}

/// `lead_ws` is the index of the first non-white-space character.
pub proof fn lemma_lead_ws_at(s: Seq<char>, i: int)
    requires
        0 <= i <= s.len(),
        forall|k: int| 0 <= k < i ==> is_ws(#[trigger] s[k]),
        i == s.len() || !is_ws(s[i]),
    ensures
        lead_ws(s) == i,
    decreases i,
{
    if i > 0 {
        let t = s.drop_first();
        assert forall|k: int| 0 <= k < i - 1 implies is_ws(#[trigger] t[k]) by {
            assert(t[k] == s[k + 1]);
        }
        if i - 1 < t.len() {
            assert(t[i - 1] == s[i]);
        }
        lemma_lead_ws_at(t, i - 1);
    }
}

/// `trail_ws` counts the white space after the last other character.
pub proof fn lemma_trail_ws_at(s: Seq<char>, j: int)
    requires
        0 <= j <= s.len(),
        forall|k: int| j <= k < s.len() ==> is_ws(#[trigger] s[k]),
        j == 0 || !is_ws(s[j - 1]),
    ensures
        trail_ws(s) == s.len() - j,
    decreases s.len() - j,
{
    if j < s.len() {
        let t = s.drop_last();
        assert forall|k: int| j <= k < t.len() implies is_ws(#[trigger] t[k]) by {
            assert(t[k] == s[k]);
        }
        if j > 0 {
            assert(t[j - 1] == s[j - 1]);
        }
        assert(is_ws(s.last()));
        lemma_trail_ws_at(t, j);
    }
}

/// Trims white space from both ends of `s`.
pub fn trim_str(s: &str) -> (r: &str)
    ensures
        r@ == trim(s@),
{
    let n = s.unicode_len();
    let mut i: usize = 0;
    while i < n && char_is_ws(s.get_char(i))
        invariant
            n == s@.len(),
            i <= n,
            forall|k: int| 0 <= k < i ==> is_ws(#[trigger] s@[k]),
        decreases n - i,
    {
        i = i + 1;
    }
    proof {
        lemma_lead_ws_at(s@, i as int);
    }
    let mut j: usize = n;
    while j > i && char_is_ws(s.get_char(j - 1))
        invariant
            n == s@.len(),
            i <= j <= n,
            forall|k: int| j <= k < n ==> is_ws(#[trigger] s@[k]),
        decreases j,
    {
        j = j - 1;
    }
    let ghost t = s@.subrange(i as int, n as int);
    proof {
        assert(trim_start(s@) == t);
        assert forall|k: int| (j - i) <= k < t.len() implies is_ws(#[trigger] t[k]) by {
            assert(t[k] == s@[k + i]);
        }
        if j > i {
            assert(t[j - i - 1] == s@[j - 1]);
        }
        lemma_trail_ws_at(t, (j - i) as int);
        assert(t.subrange(0, (j - i) as int) =~= s@.subrange(i as int, j as int));
    }
    s.substring_char(i, j)
}

/// Whether `s` is empty once trimmed.
pub fn is_blank(s: &str) -> (r: bool)
    ensures
        r == (trim(s@).len() == 0),
{
    let t = trim_str(s);
    t.unicode_len() == 0
}

/// An owned copy of `s`.
pub fn owned(s: &str) -> (r: String)
    ensures
        r@ == s@,
{
    s.to_owned()
}

/// A copy of `s`.
pub fn copy_string(s: &String) -> (r: String)
    ensures
        r@ == s@,
{
    s.clone()
}

/// Character-wise equality of two strings.
pub fn str_eq(a: &str, b: &str) -> (r: bool)
    ensures
        r == (a@ == b@),
{
    let n = a.unicode_len();
    let m = b.unicode_len();
    if n != m {
        return false;
    }
    let mut i: usize = 0;
    while i < n
        invariant
            n == a@.len(),
            m == b@.len(),
            n == m,
            i <= n,
            forall|k: int| 0 <= k < i ==> a@[k] == b@[k],
        decreases n - i,
    {
        if a.get_char(i) != b.get_char(i) {
            return false;
        }
        i = i + 1;
    }
    assert(a@ =~= b@);
    true
}

/// The characters of `s`.
pub fn chars_of(s: &str) -> (r: Vec<char>)
    ensures
        r@ == s@,
{
    let n = s.unicode_len();
    let mut r: Vec<char> = Vec::new();
    let mut i: usize = 0;
    while i < n
        invariant
            n == s@.len(),
            i <= n,
            r@ == s@.subrange(0, i as int),
        decreases n - i,
    {
        r.push(s.get_char(i));
        assert(r@ =~= s@.subrange(0, i + 1));
        i = i + 1;
    }
    r
}

/// Appends one character to `s` (`String::push`).
#[verifier::external_body]
pub fn push_char(s: &mut String, c: char)
    ensures
        final(s)@ == old(s)@.push(c),
{
    s.push(c);
}

/// The decimal digit character of `d`.
pub open spec fn digit_char(d: nat) -> char {
    if d == 0 {
        '0'
    } else if d == 1 {
        '1'
    } else if d == 2 {
        '2'
    } else if d == 3 {
        '3'
    } else if d == 4 {
        '4'
    } else if d == 5 {
        '5'
    } else if d == 6 {
        '6'
    } else if d == 7 {
        '7'
    } else if d == 8 {
        '8'
    } else {
        '9'
    }
}

/// The decimal representation of `n`, without leading zeros.
pub open spec fn dec(n: nat) -> Seq<char>
    decreases n,
{
    if n < 10 {
        seq![digit_char(n)]
    } else {
        dec(n / 10).push(digit_char(n % 10))
    }
}

/// The decimal representation of a signed number.
pub open spec fn dec_int(v: int) -> Seq<char> {
    if v < 0 {
        seq!['-'] + dec((-v) as nat)
    } else {
        dec(v as nat)
    }
}

fn digit_to_char(d: u64) -> (c: char)
    requires
        d < 10,
    ensures
        c == digit_char(d as nat),
{
    if d == 0 {
        '0'
    } else if d == 1 {
        '1'
    } else if d == 2 {
        '2'
    } else if d == 3 {
        '3'
    } else if d == 4 {
        '4'
    } else if d == 5 {
        '5'
    } else if d == 6 {
        '6'
    } else if d == 7 {
        '7'
    } else if d == 8 {
        '8'
    } else {
        '9'
    }
}

/// Appends the decimal representation of `n` to `s`.
pub fn push_dec(s: &mut String, n: u64)
    ensures
        final(s)@ == old(s)@ + dec(n as nat),
    decreases n,
{
    if n < 10 {
        push_char(s, digit_to_char(n));
        assert(old(s)@.push(digit_char(n as nat)) =~= old(s)@ + dec(n as nat));
    } else {
        push_dec(s, n / 10);
        push_char(s, digit_to_char(n % 10));
        assert(old(s)@ + dec((n / 10) as nat) + seq![digit_char((n % 10) as nat)] =~= old(s)@
            + dec(n as nat));
    }
}



} // verus!

verus! {

pub proof fn lemma_ws_prefix(s: Seq<char>, i: int)
    requires
        0 <= i <= lead_ws(s),
    ensures
        forall|k: int| 0 <= k < i ==> is_ws(#[trigger] s[k]),
        i < s.len() ==> (i < lead_ws(s) <==> is_ws(s[i])) || i < lead_ws(s),
    decreases i,
{
    lemma_lead_ws_bound(s);
    if i > 0 {
        assert(s.len() > 0 && is_ws(s[0]));
        let t = s.drop_first();
        lemma_ws_prefix(t, i - 1);
        assert forall|k: int| 0 <= k < i implies is_ws(#[trigger] s[k]) by {
            if k > 0 {
                assert(s[k] == t[k - 1]);
            }
        }
    }
}

/// Characterises `trim` by the first and last non-white-space positions.
pub proof fn lemma_trim_shape(s: Seq<char>)
    ensures
        trim(s).len() == 0 <==> (forall|k: int| 0 <= k < s.len() ==> is_ws(#[trigger] s[k])),
        trim(s).len() > 0 ==> !is_ws(trim(s)[0]) && !is_ws(trim(s).last()),
    decreases s.len(),
{
    lemma_lead_ws_bound(s);
    let a = lead_ws(s);
    let t = trim_start(s);
    lemma_trail_ws_bound(t);
    lemma_lead_facts(s);
    lemma_trail_facts(t);
    if trim(s).len() == 0 {
        assert forall|k: int| 0 <= k < s.len() implies is_ws(#[trigger] s[k]) by {
            if k >= a {
                assert(t[k - a] == s[k]);
            }
        }
    } else {
        assert(trim(s)[0] == t[0]);
        assert(trim(s).last() == t[t.len() - trail_ws(t) - 1]);
    }
}

pub proof fn lemma_lead_facts(s: Seq<char>)
    ensures
        lead_ws(s) <= s.len(),
        forall|k: int| 0 <= k < lead_ws(s) ==> is_ws(#[trigger] s[k]),
        lead_ws(s) < s.len() ==> !is_ws(s[lead_ws(s) as int]),
    decreases s.len(),
{
    lemma_lead_ws_bound(s);
    if s.len() > 0 && is_ws(s[0]) {
        let t = s.drop_first();
        lemma_lead_facts(t);
        assert forall|k: int| 0 <= k < lead_ws(s) implies is_ws(#[trigger] s[k]) by {
            if k > 0 {
                assert(s[k] == t[k - 1]);
            }
        }
        if lead_ws(s) < s.len() {
            assert(s[lead_ws(s) as int] == t[lead_ws(t) as int]);
        }
    }
}

pub proof fn lemma_trail_facts(s: Seq<char>)
    ensures
        trail_ws(s) <= s.len(),
        forall|k: int| s.len() - trail_ws(s) <= k < s.len() ==> is_ws(#[trigger] s[k]),
        trail_ws(s) < s.len() ==> !is_ws(s[s.len() - trail_ws(s) - 1]),
    decreases s.len(),
{
    lemma_trail_ws_bound(s);
    if s.len() > 0 && is_ws(s.last()) {
        let t = s.drop_last();
        lemma_trail_facts(t);
        assert forall|k: int| s.len() - trail_ws(s) <= k < s.len() implies is_ws(#[trigger] s[k]) by {
            if k < s.len() - 1 {
                assert(s[k] == t[k]);
            }
        }
        if trail_ws(s) < s.len() {
            assert(s[s.len() - trail_ws(s) - 1] == t[t.len() - trail_ws(t) - 1]);
        }
    }
}

/// Trimming twice is trimming once.
pub proof fn lemma_trim_idempotent(s: Seq<char>)
    ensures
        trim(trim(s)) == trim(s),
{
    let t = trim(s);
    lemma_trim_shape(s);
    if t.len() == 0 {
        assert(lead_ws(t) == 0);
        assert(trim(t) =~= t);
    } else {
        lemma_lead_ws_at(t, 0);
        assert(trim_start(t) =~= t);
        lemma_trail_ws_at(t, t.len() as int);
        assert(trim(t) =~= t);
    }
}

} // verus!

verus! {

proof fn lemma_digit_char_injective(a: nat, b: nat)
    requires
        a < 10,
        b < 10,
        digit_char(a) == digit_char(b),
    ensures
        a == b,
{
}

/// The decimal representation has at least two digits from 10 on.
pub proof fn lemma_dec_len(n: nat)
    ensures
        dec(n).len() >= 1,
        n >= 10 ==> dec(n).len() >= 2,
    decreases n,
{
    if n >= 10 {
        lemma_dec_len(n / 10);
    }
}

/// Different numbers are printed differently.
pub proof fn lemma_dec_injective(a: nat, b: nat)
    requires
        dec(a) == dec(b),
    ensures
        a == b,
    decreases a,
{
    lemma_dec_len(a);
    lemma_dec_len(b);
    if a < 10 && b < 10 {
        assert(dec(a) == seq![digit_char(a)]);
        assert(dec(b) == seq![digit_char(b)]);
        assert(dec(a)[0] == dec(b)[0]);
        assert(seq![digit_char(a)][0] == digit_char(a));
        assert(seq![digit_char(b)][0] == digit_char(b));
        lemma_digit_char_injective(a, b);
    } else if a < 10 {
        assert(dec(a).len() == 1);
    } else if b < 10 {
        assert(dec(b).len() == 1);
    } else {
        let da = dec(a / 10);
        let db = dec(b / 10);
        assert(dec(a).last() == digit_char(a % 10));
        assert(dec(b).last() == digit_char(b % 10));
        lemma_digit_char_injective(a % 10, b % 10);
        assert(dec(a).drop_last() =~= da);
        assert(dec(b).drop_last() =~= db);
        lemma_dec_injective(a / 10, b / 10);
    }
}

} // verus!

verus! {

fn digit_to_char_wide(d: u128) -> (c: char)
    requires
        d < 10,
    ensures
        c == digit_char(d as nat),
{
    if d == 0 {
        '0'
    } else if d == 1 {
        '1'
    } else if d == 2 {
        '2'
    } else if d == 3 {
        '3'
    } else if d == 4 {
        '4'
    } else if d == 5 {
        '5'
    } else if d == 6 {
        '6'
    } else if d == 7 {
        '7'
    } else if d == 8 {
        '8'
    } else {
        '9'
    }
}

/// Appends the decimal representation of `n` to `s`.
pub fn push_dec_wide(s: &mut String, n: u128)
    ensures
        final(s)@ == old(s)@ + dec(n as nat),
    decreases n,
{
    if n < 10 {
        push_char(s, digit_to_char_wide(n));
        assert(old(s)@.push(digit_char(n as nat)) =~= old(s)@ + dec(n as nat));
    } else {
        push_dec_wide(s, n / 10);
        push_char(s, digit_to_char_wide(n % 10));
        assert(old(s)@ + dec((n / 10) as nat) + seq![digit_char((n % 10) as nat)] =~= old(s)@
            + dec(n as nat));
    }
}

/// The decimal representation of `n`.
pub fn u128_to_string(n: u128) -> (r: String)
    ensures
        r@ == dec(n as nat),
{
    let mut s = String::new();
    push_dec_wide(&mut s, n);
    assert(Seq::<char>::empty() + dec(n as nat) =~= dec(n as nat));
    s
}

/// The decimal representation of a signed `v`.
pub fn i128_to_string(v: i128) -> (r: String)
    ensures
        r@ == dec_int(v as int),
{
    let mut s = String::new();
    if v < 0 {
        push_char(&mut s, '-');
        let m: u128 = if v == i128::MIN {
            170141183460469231731687303715884105728u128
        } else {
            (-v) as u128
        };
        push_dec_wide(&mut s, m);
        assert(seq!['-'] + dec(m as nat) =~= dec_int(v as int));
    } else {
        push_dec_wide(&mut s, v as u128);
        assert(Seq::<char>::empty() + dec(v as nat) =~= dec_int(v as int));
    }
    s
}

} // verus!
