//! Helpers of the game-data readers: errors of fields are collected as
//! texts instead of stopping the reading.
use crate::advini::{
    entry_get, has_error, ini_has_error, ini_items, lowercase, pair_views, parse_for_sections, section_entries,
    section_get, section_pairs,
    sections_of, sections_view, to_lowercase, RawValues, Section,
};
use crate::object::{ObjectInfo, ObjectInfoView, ObjectType};
use crate::registry::{Registry, Settings, SettingsView};
use crate::items::MagicVariants;
use crate::text::{chars_of, dec, owned, str_eq};
use crate::time::{dec_value, digit_runs, digit_value, is_digit, lemma_dec_value_prefix, lemma_runs_digits, split_runs};
use crate::units::{MagicDirection, MagicType};
use vstd::prelude::*;
use vstd::std_specs::cmp::PartialEqSpec;

verus! {

/// The text recorded for an error `info` with the note `additional`.
pub open spec fn error_text(info: Seq<char>, additional: Seq<char>) -> Seq<char> {
    "Error: "@ + info + "; additional: "@ + additional
}

/// The value of `for_check`, or `None` after recording its error (already
/// written out as text) with the note `additional`.
pub fn collect_errors<T>(for_check: Result<T, String>, collector: &mut Vec<String>, additional: &str) -> (r: Option<T>)
    ensures
        match for_check {
            Ok(v) => r == Some(v) && final(collector)@ == old(collector)@,
            Err(info) => r is None && final(collector)@.len() == old(collector)@.len() + 1
                && final(collector)@.drop_last() == old(collector)@
                && final(collector)@.last()@ == error_text(info@, additional@),
        },
{
    match for_check {
        Ok(value) => Some(value),
        Err(info) => {
            let mut m = owned("Error: ");
            m.append(info.as_str());
            m.append("; additional: ");
            m.append(additional);
            let ghost before = collector@;
            collector.push(m);
            assert(collector@.drop_last() =~= before);
            None
        },
    }
}

/// The school of magic named `s`: `LifeMagic`, `ElementalMagic` or
/// `DeathMagic` (`None` for anything else).
pub open spec fn magic_named(s: Seq<char>) -> Option<MagicType> {
    if s == "LifeMagic"@ {
        Some(MagicType::Life)
    } else if s == "ElementalMagic"@ {
        Some(MagicType::Elemental)
    } else if s == "DeathMagic"@ {
        Some(MagicType::Death)
    } else {
        None
    }
}

/// The name of no school: `NoMagic` or nothing.
pub open spec fn no_magic_name(s: Seq<char>) -> bool {
    s == "NoMagic"@ || s == ""@
}

/// The note recorded for an unknown school name.
pub open spec fn magic_error_text(s: Seq<char>) -> Seq<char> {
    error_text("parse.rs: cant match field;"@, "Field MagicType is invalid: "@ + s)
}

/// Reads the school of magic of a unit; an unknown name is recorded as an
/// error and read as no magic.
pub fn match_magictype(error_collector: &mut Vec<String>, magic_type: &str, direction: MagicDirection) -> (r: Option<MagicType>)
    ensures
        r == magic_named(magic_type@),
        magic_named(magic_type@) is None && !no_magic_name(magic_type@) ==> final(error_collector)@.len()
            == old(error_collector)@.len() + 1 && final(error_collector)@.drop_last() == old(
            error_collector,
        )@ && final(error_collector)@.last()@ == magic_error_text(magic_type@),
        magic_named(magic_type@) is Some || no_magic_name(magic_type@) ==> final(error_collector)@ == old(
            error_collector,
        )@,
{
    if str_eq(magic_type, "LifeMagic") {
        Some(MagicType::Life)
    } else if str_eq(magic_type, "ElementalMagic") {
        Some(MagicType::Elemental)
    } else if str_eq(magic_type, "DeathMagic") {
        Some(MagicType::Death)
    } else if str_eq(magic_type, "NoMagic") || str_eq(magic_type, "") {
        None
    } else {
        let mut note = owned("Field MagicType is invalid: ");
        note.append(magic_type);
        let e: Result<(), String> = Err(owned("parse.rs: cant match field;"));
        collect_errors(e, error_collector, note.as_str());
        None
    }
}

/// The magic an item asks for, by name: any magic for `NoMagic`, nothing
/// or an unknown name.
pub open spec fn magic_variant_named(s: Seq<char>) -> MagicVariants {
    if s == "LifeMagic"@ {
        MagicVariants::Life
    } else if s == "ElementalMagic"@ {
        MagicVariants::Elemental
    } else if s == "DeathMagic"@ {
        MagicVariants::Death
    } else {
        MagicVariants::Any
    }
}

/// Reads the magic an item asks for (see `magic_variant_named`).
pub fn match_magic_variants(magic_type: String) -> (r: MagicVariants)
    ensures
        r == magic_variant_named(magic_type@),
{
    if str_eq(magic_type.as_str(), "LifeMagic") {
        MagicVariants::Life
    } else if str_eq(magic_type.as_str(), "ElementalMagic") {
        MagicVariants::Elemental
    } else if str_eq(magic_type.as_str(), "DeathMagic") {
        MagicVariants::Death
    } else {
        MagicVariants::Any
    }
}

/// Whether a flag text means yes: `true`, `1`, `t` or `y`, in any case.
pub open spec fn flag_value(v: Seq<char>) -> bool {
    let l = lowercase(v);
    l == "true"@ || l == "1"@ || l == "t"@ || l == "y"@
}

/// Reads a flag text (see `flag_value`).
pub fn str_bool(v: String) -> (r: bool)
    ensures
        r == flag_value(v@),
{
    let l = to_lowercase(v.as_str());
    str_eq(l.as_str(), "true") || str_eq(l.as_str(), "1") || str_eq(l.as_str(), "t") || str_eq(l.as_str(), "y")
}

/// The number a piece of digits reads as, if it is not empty and fits in
/// 64 bits.
pub open spec fn piece_value(p: Seq<char>) -> Option<u64> {
    if p.len() == 0 || dec_value(p) > u64::MAX {
        None
    } else {
        Some(dec_value(p) as u64)
    }
}

/// Reads a piece of digits (see `piece_value`).
pub(crate) fn read_piece(p: &Vec<char>) -> (r: Option<u64>)
    requires
        forall|i: int| 0 <= i < p@.len() ==> is_digit(#[trigger] p@[i]),
    ensures
        r == piece_value(p@),
{
    if p.len() == 0 {
        return None;
    }
    let mut v: u64 = 0;
    let mut i: usize = 0;
    while i < p.len()
        invariant
            i <= p@.len(),
            p@.len() > 0,
            forall|k: int| 0 <= k < p@.len() ==> is_digit(#[trigger] p@[k]),
            v == dec_value(p@.subrange(0, i as int)),
        decreases p.len() - i,
    {
        let c = p[i];
        proof {
            assert(p@.subrange(0, i + 1).drop_last() =~= p@.subrange(0, i as int));
            assert(is_digit(p@[i as int]));
        }
        let d = (c as u32 - '0' as u32) as u64;
        match v.checked_mul(10) {
            Some(m) => match m.checked_add(d) {
                Some(t) => {
                    v = t;
                },
                None => {
                    proof {
                        lemma_dec_value_prefix(p@, i + 1);
                    }
                    return None;
                },
            },
            None => {
                proof {
                    lemma_dec_value_prefix(p@, i + 1);
                    assert(dec_value(p@.subrange(0, i + 1)) >= dec_value(p@.subrange(0, i as int)) * 10);
                }
                return None;
            },
        }
        i = i + 1;
    }
    assert(p@.subrange(0, p@.len() as int) =~= p@);
    Some(v)
}

/// The numbers of `string`: it is cut at every character that is not an
/// ASCII digit, and each piece is read as a number (0 for an empty piece or
/// one that does not fit in 64 bits).
pub fn split_and_parse(string: String) -> (r: Vec<u64>)
    ensures
        r@.len() == digit_runs(string@).len(),
        forall|i: int|
            0 <= i < r@.len() ==> #[trigger] r@[i] == match piece_value(digit_runs(string@)[i]) {
                Some(v) => v,
                None => 0,
            },
{
    let s = chars_of(string.as_str());
    let pieces = split_runs(&s);
    proof {
        lemma_runs_digits(s@);
    }
    let mut r: Vec<u64> = Vec::new();
    let mut i: usize = 0;
    while i < pieces.len()
        invariant
            i <= pieces@.len(),
            s@ == string@,
            pieces@.len() == digit_runs(s@).len(),
            forall|k: int| 0 <= k < pieces@.len() ==> #[trigger] pieces@[k]@ == digit_runs(s@)[k],
            forall|a: int, b: int|
                0 <= a < digit_runs(s@).len() && 0 <= b < digit_runs(s@)[a].len() ==> is_digit(
                    #[trigger] digit_runs(s@)[a][b],
                ),
            r@.len() == i,
            forall|k: int|
                0 <= k < i ==> #[trigger] r@[k] == match piece_value(digit_runs(s@)[k]) {
                    Some(v) => v,
                    None => 0,
                },
        decreases pieces.len() - i,
    {
        proof {
            assert(pieces@[i as int]@ == digit_runs(s@)[i as int]);
            assert forall|q: int| 0 <= q < pieces@[i as int]@.len() implies is_digit(#[trigger] pieces@[i as int]@[q]) by {
                assert(pieces@[i as int]@[q] == digit_runs(s@)[i as int][q]);
            }
        }
        let v = match read_piece(&pieces[i]) {
            Some(v) => v,
            None => 0,
        };
        r.push(v);
        i = i + 1;
    }
    r
}

/// Two numbers at the start of `v`, cut at non-digits: an error when the
/// first piece or the second is not a number that fits in 64 bits, or when
/// there is no second piece (then the message is empty).
pub fn parse_duo_tuple(v: &str) -> (r: Result<(u64, u64), &'static str>)
    ensures
        ({
            let ps = digit_runs(v@);
            match piece_value(ps[0]) {
                None => r matches Err(e) && e@ == "Couldn't parse given string"@,
                Some(a) => if ps.len() < 2 {
                    r matches Err(e) && e@ == ""@
                } else {
                    match piece_value(ps[1]) {
                        None => r matches Err(e) && e@ == "Couldn't parse given string"@,
                        Some(b) => r == Ok::<(u64, u64), &'static str>((a, b)),
                    }
                },
            }
        }),
{
    let s = chars_of(v);
    let pieces = split_runs(&s);
    proof {
        lemma_runs_digits(s@);
        assert forall|q: int| 0 <= q < pieces@[0]@.len() implies is_digit(#[trigger] pieces@[0]@[q]) by {
            assert(pieces@[0]@[q] == digit_runs(s@)[0][q]);
        }
    }
    let first = read_piece(&pieces[0]);
    let second = if pieces.len() >= 2 {
        proof {
            assert forall|q: int| 0 <= q < pieces@[1]@.len() implies is_digit(#[trigger] pieces@[1]@[q]) by {
                assert(pieces@[1]@[q] == digit_runs(s@)[1][q]);
            }
        }
        match read_piece(&pieces[1]) {
            Some(b) => Ok(b),
            None => Err("Couldn't parse given string"),
        }
    } else {
        Err("")
    };
    match first {
        None => Err("Couldn't parse given string"),
        Some(a) => match second {
            Ok(b) => Ok((a, b)),
            Err(e) => Err(e),
        },
    }
}

/// The digits of an unsigned number as `str::parse` reads it: a leading
/// `+` is dropped.
pub open spec fn unsigned_digits(s: Seq<char>) -> Seq<char> {
    if s.len() > 0 && s[0] == '+' {
        s.drop_first()
    } else {
        s
    }
}

/// `str::parse` of an unsigned number up to `max`: a `+` at most, then at
/// least one ASCII digit and nothing else, of value at most `max`.
pub open spec fn unsigned_value(s: Seq<char>, max: nat) -> Option<nat> {
    let d = unsigned_digits(s);
    if d.len() == 0 || !(forall|i: int| 0 <= i < d.len() ==> is_digit(#[trigger] d[i])) || dec_value(d) > max {
        None
    } else {
        Some(dec_value(d))
    }
}

/// Reads an unsigned number up to `max` as `str::parse` does (see
/// `unsigned_value`).
pub fn parse_unsigned(s: &str, max: u64) -> (r: Option<u64>)
    ensures
        match r {
            Some(v) => unsigned_value(s@, max as nat) == Some(v as nat),
            None => unsigned_value(s@, max as nat) is None,
        },
{
    let v = chars_of(s);
    let n = v.len();
    let start: usize = if n > 0 && v[0] == '+' { 1 } else { 0 };
    let ghost d = unsigned_digits(s@);
    assert(d =~= s@.subrange(start as int, n as int));
    if start == n {
        return None;
    }
    let mut value: u64 = 0;
    let mut over = false;
    let mut i: usize = start;
    while i < n
        invariant
            n == v@.len(),
            v@ == s@,
            start <= i <= n,
            d == s@.subrange(start as int, n as int),
            d == unsigned_digits(s@),
            forall|k: int| 0 <= k < i - start ==> is_digit(#[trigger] d[k]),
            !over ==> value == dec_value(d.subrange(0, i - start)) && value <= max,
            over ==> dec_value(d.subrange(0, i - start)) > max,
        decreases n - i,
    {
        let c = v[i];
        if !('0' <= c && c <= '9') {
            assert(d[i - start] == c);
            assert(!is_digit(d[i - start]));
            assert(unsigned_value(s@, max as nat) is None);
            return None;
        }
        let ghost prev = d.subrange(0, i - start);
        assert(d.subrange(0, i + 1 - start).drop_last() =~= prev);
        assert(d.subrange(0, i + 1 - start).last() == c);
        let digit = (c as u32 - '0' as u32) as u64;
        if !over {
            match value.checked_mul(10) {
                Some(m) => match m.checked_add(digit) {
                    Some(t) => {
                        if t > max {
                            over = true;
                        } else {
                            value = t;
                        }
                    },
                    None => {
                        over = true;
                    },
                },
                None => {
                    over = true;
                    assert(dec_value(prev) * 10 + digit_value(c) >= dec_value(prev) * 10);
                },
            }
        } else {
            assert(dec_value(prev) * 10 + digit_value(c) >= dec_value(prev)) by (nonlinear_arith);
        }
        i = i + 1;
    }
    assert(d.subrange(0, n - start) =~= d);
    if over {
        None
    } else {
        Some(value)
    }
}

/// Index of the first ASCII digit of `s`.
pub open spec fn first_digit(s: Seq<char>) -> Option<int>
    decreases s.len(),
{
    if s.len() == 0 {
        None
    } else {
        match first_digit(s.drop_last()) {
            Some(i) => Some(i),
            None => if is_digit(s.last()) {
                Some(s.len() - 1)
            } else {
                None
            },
        }
    }
}

/// Decimal digits padded with zeros in front to at least three.
pub open spec fn padded3(d: Seq<char>) -> Seq<char> {
    if d.len() < 3 {
        Seq::new((3 - d.len()) as nat, |i: int| '0') + d
    } else {
        d
    }
}

/// The sprite file of an object section: when the name has a digit and
/// everything from its first digit on is a number, the part before it and
/// the number padded to three digits; else the name itself; then `.png`.
pub open spec fn object_path(sec: Seq<char>) -> Seq<char> {
    match first_digit(sec) {
        None => sec + ".png"@,
        Some(at) => match unsigned_value(sec.subrange(at, sec.len() as int), usize::MAX as nat) {
            Some(n) => sec.subrange(0, at) + padded3(dec(n)) + ".png"@,
            None => sec + ".png"@,
        },
    }
}

proof fn lemma_first_digit(s: Seq<char>)
    ensures
        match first_digit(s) {
            Some(i) => 0 <= i < s.len() && is_digit(s[i]) && forall|k: int| 0 <= k < i ==> !is_digit(s[k]),
            None => forall|k: int| 0 <= k < s.len() ==> !is_digit(s[k]),
        },
    decreases s.len(),
{
    if s.len() > 0 {
        lemma_first_digit(s.drop_last());
        assert forall|k: int| 0 <= k < s.len() - 1 implies s.drop_last()[k] == s[k] by {}
    }
}

/// The sprite file of an object section (see `object_path`).
pub fn object_path_of(sec: &str) -> (r: String)
    ensures
        r@ == object_path(sec@),
{
    proof {
        reveal_strlit(".png");
        lemma_first_digit(sec@);
    }
    let v = chars_of(sec);
    let n = v.len();
    let mut at: usize = 0;
    while at < n && !('0' <= v[at] && v[at] <= '9')
        invariant
            n == v@.len(),
            v@ == sec@,
            at <= n,
            forall|k: int| 0 <= k < at ==> !is_digit(sec@[k]),
        decreases n - at,
    {
        at = at + 1;
    }
    let mut out = String::new();
    if at == n {
        assert(first_digit(sec@) is None) by {
            if let Some(i) = first_digit(sec@) {
                assert(!is_digit(sec@[i]));
            }
        }
        out.append(sec);
        out.append(".png");
        return out;
    }
    assert(first_digit(sec@) == Some(at as int)) by {
        if let Some(i) = first_digit(sec@) {
            if i < at {
                assert(!is_digit(sec@[i]));
            }
            if i > at {
                assert(is_digit(sec@[at as int]));
            }
        }
    }
    let rest = sec.substring_char(at, n);
    match parse_unsigned(rest, usize::MAX as u64) {
        Some(num) => {
            let head = sec.substring_char(0, at);
            out.append(head);
            let digits = crate::text::u128_to_string(num as u128);
            let dl = digits.as_str().unicode_len();
            let mut k: usize = dl;
            while k < 3
                invariant
                    dl <= k,
                    k <= 3 || k == dl,
                    dl == digits@.len(),
                    out@ == head@ + Seq::new((k - dl) as nat, |i: int| '0'),
                decreases 3 - k,
            {
                crate::text::push_char(&mut out, '0');
                assert(out@ =~= head@ + Seq::new((k + 1 - dl) as nat, |i: int| '0'));
                k = k + 1;
            }
            out.append(digits.as_str());
            out.append(".png");
            proof {
                assert(digits@ == dec(num as nat));
                if dl < 3 {
                    assert(out@ =~= sec@.subrange(0, at as int) + padded3(dec(num as nat)) + ".png"@);
                } else {
                    assert(Seq::new((k - dl) as nat, |i: int| '0') =~= Seq::<char>::empty());
                    assert(out@ =~= sec@.subrange(0, at as int) + padded3(dec(num as nat)) + ".png"@);
                }
            }
            out
        },
        None => {
            out.append(sec);
            out.append(".png");
            out
        },
    }
}

/// The entries of one section, in order.
pub type Entries = Seq<(Seq<char>, Seq<char>)>;

/// A numeric field that may be left out: absent, or a number up to `max`.
pub open spec fn field_ok(e: Entries, key: Seq<char>, max: nat) -> bool {
    match entry_get(e, key) {
        None => true,
        Some(v) => unsigned_value(v, max) is Some,
    }
}

/// The value of a numeric field that may be left out (0 when absent).
pub open spec fn field_or_zero(e: Entries, key: Seq<char>, max: nat) -> nat {
    match entry_get(e, key) {
        Some(v) => match unsigned_value(v, max) {
            Some(n) => n,
            None => 0,
        },
        None => 0,
    }
}

/// A footprint `WxH`: the text cut at every non-digit gives at least two
/// pieces, and the first two read as numbers up to 255.
pub open spec fn size_ok(v: Seq<char>) -> bool {
    let r = digit_runs(v);
    &&& r.len() >= 2
    &&& piece_value(r[0]) matches Some(a) && a <= 255
    &&& piece_value(r[1]) matches Some(b) && b <= 255
}

/// The footprint of a section: the first two numbers of `size`, else 1x1.
pub open spec fn size_of(e: Entries) -> (u8, u8) {
    match entry_get(e, "size"@) {
        Some(v) => (piece_value(digit_runs(v)[0]).unwrap() as u8, piece_value(digit_runs(v)[1]).unwrap() as u8),
        None => (1u8, 1u8),
    }
}

/// A section describes an object: it has an `index`, a `type` among
/// `MapDeco`, `Bridge` and `Building`, and every field it has reads as
/// the number it stands for (`size`; `id` for a decoration; `group` and
/// `variant` for the others).
pub open spec fn object_ok(e: Entries) -> bool {
    &&& entry_get(e, "index"@) matches Some(v) && unsigned_value(v, usize::MAX as nat) is Some
    &&& entry_get(e, "size"@) matches Some(v) ==> size_ok(v)
    &&& entry_get(e, "type"@) matches Some(t) && (t == "MapDeco"@ || t == "Bridge"@ || t == "Building"@)
    &&& entry_get(e, "type"@) == Some("MapDeco"@) ==> field_ok(e, "id"@, usize::MAX as nat)
    &&& entry_get(e, "type"@) != Some("MapDeco"@) ==> field_ok(e, "group"@, 255) && field_ok(e, "variant"@, 255)
}

/// The kind of object a section describes.
pub open spec fn object_type_of(e: Entries) -> ObjectType {
    let t = entry_get(e, "type"@).unwrap();
    if t == "MapDeco"@ {
        ObjectType::MapDeco { id: field_or_zero(e, "id"@, usize::MAX as nat) as usize }
    } else if t == "Building"@ {
        ObjectType::Building {
            group: field_or_zero(e, "group"@, 255) as u8,
            variant: field_or_zero(e, "variant"@, 255) as u8,
        }
    } else {
        ObjectType::Bridge {
            group: field_or_zero(e, "group"@, 255) as u8,
            variant: field_or_zero(e, "variant"@, 255) as u8,
        }
    }
}

/// The object that section `name` with entries `e` describes.
pub open spec fn object_of(name: Seq<char>, e: Entries) -> ObjectInfoView {
    ObjectInfoView {
        name,
        path: object_path(name),
        category: match entry_get(e, "category"@) {
            Some(c) => c,
            None => Seq::empty(),
        },
        obj_type: object_type_of(e),
        index: unsigned_value(entry_get(e, "index"@).unwrap(), usize::MAX as nat).unwrap() as usize,
        size: size_of(e),
    }
}

/// The number under `key`: `Ok(None)` when absent, `Ok(Some(n))` when it
/// reads as a number `n` up to `max`, `Err(())` otherwise.
fn field_number(props: &Section, key: &str, max: u64) -> (r: Result<Option<u64>, ()>)
    ensures
        match entry_get(section_entries(*props), key@) {
            None => r == Ok::<Option<u64>, ()>(None),
            Some(v) => match unsigned_value(v, max as nat) {
                Some(n) => r == Ok::<Option<u64>, ()>(Some(n as u64)),
                None => r is Err,
            },
        },
{
    match section_get(props, &owned(key)) {
        None => Ok(None),
        Some(v) => match parse_unsigned(v.as_str(), max) {
            Some(n) => Ok(Some(n)),
            None => Err(()),
        },
    }
}

/// Reads a footprint (see `size_ok`).
fn read_size(v: &String) -> (r: Option<(u8, u8)>)
    ensures
        match r {
            Some(p) => size_ok(v@) && p == (piece_value(digit_runs(v@)[0]).unwrap() as u8, piece_value(
                digit_runs(v@)[1],
            ).unwrap() as u8),
            None => !size_ok(v@),
        },
{
    let chars = chars_of(v.as_str());
    let pieces = split_runs(&chars);
    proof {
        lemma_runs_digits(chars@);
    }
    if pieces.len() < 2 {
        return None;
    }
    assert(forall|j: int| 0 <= j < pieces@[0]@.len() ==> is_digit(#[trigger] pieces@[0]@[j])) by {
        assert forall|j: int| 0 <= j < pieces@[0]@.len() implies is_digit(#[trigger] pieces@[0]@[j]) by {
            assert(digit_runs(chars@)[0][j] == pieces@[0]@[j]);
        }
    }
    assert(forall|j: int| 0 <= j < pieces@[1]@.len() ==> is_digit(#[trigger] pieces@[1]@[j])) by {
        assert forall|j: int| 0 <= j < pieces@[1]@.len() implies is_digit(#[trigger] pieces@[1]@[j]) by {
            assert(digit_runs(chars@)[1][j] == pieces@[1]@[j]);
        }
    }
    let w = read_piece(&pieces[0]);
    let h = read_piece(&pieces[1]);
    match (w, h) {
        (Some(a), Some(b)) => {
            if a <= 255 && b <= 255 {
                Some((a as u8, b as u8))
            } else {
                None
            }
        },
        _ => None,
    }
}

/// The object that a section describes, or `None` when the section does
/// not describe one (see `object_ok`).
pub fn read_object(name: &String, props: &Section) -> (r: Option<ObjectInfo>)
    ensures
        match r {
            Some(o) => object_ok(section_entries(*props)) && o@ == object_of(name@, section_entries(*props)),
            None => !object_ok(section_entries(*props)),
        },
{
    let ghost e = section_entries(*props);
    let index = match field_number(props, "index", usize::MAX as u64) {
        Ok(Some(n)) => n as usize,
        _ => return None,
    };
    let size = match section_get(props, &owned("size")) {
        Some(v) => match read_size(&v) {
            Some(p) => p,
            None => return None,
        },
        None => (1u8, 1u8),
    };
    let t = match section_get(props, &owned("type")) {
        Some(t) => t,
        None => return None,
    };
    let obj_type = if str_eq(t.as_str(), "MapDeco") {
        match field_number(props, "id", usize::MAX as u64) {
            Ok(Some(n)) => ObjectType::MapDeco { id: n as usize },
            Ok(None) => ObjectType::MapDeco { id: 0 },
            Err(()) => return None,
        }
    } else {
        let building = str_eq(t.as_str(), "Building");
        if !building && !str_eq(t.as_str(), "Bridge") {
            return None;
        }
        let group = match field_number(props, "group", 255) {
            Ok(Some(n)) => n as u8,
            Ok(None) => 0u8,
            Err(()) => return None,
        };
        let variant = match field_number(props, "variant", 255) {
            Ok(Some(n)) => n as u8,
            Ok(None) => 0u8,
            Err(()) => return None,
        };
        if building {
            ObjectType::Building { group, variant }
        } else {
            ObjectType::Bridge { group, variant }
        }
    };
    let category = match section_get(props, &owned("category")) {
        Some(c) => c,
        None => String::new(),
    };
    let path = object_path_of(name.as_str());
    let o = ObjectInfo { name: name.clone(), path, category, obj_type, index, size };
    assert(o@ == object_of(name@, e));
    Some(o)
}

/// Every section describes an object.
pub open spec fn objects_ok(secs: Seq<(Seq<char>, Entries)>) -> bool {
    forall|i: int| 0 <= i < secs.len() ==> object_ok(#[trigger] secs[i].1)
}

/// What a registry of objects holds: the objects and the names they were
/// registered under, by id.
pub open spec fn registry_view(reg: Registry<ObjectInfo>) -> (Seq<ObjectInfoView>, Seq<Seq<char>>) {
    (reg.entries().map_values(|o: ObjectInfo| o@), reg.names_of())
}

/// The registry after the object of each section is registered in turn
/// under the section's name; an object equal to one already there is
/// skipped.
pub open spec fn objects_registered(
    st: (Seq<ObjectInfoView>, Seq<Seq<char>>),
    secs: Seq<(Seq<char>, Entries)>,
) -> (Seq<ObjectInfoView>, Seq<Seq<char>>)
    decreases secs.len(),
{
    if secs.len() == 0 {
        st
    } else {
        let prev = objects_registered(st, secs.drop_last());
        let o = object_of(secs.last().0, secs.last().1);
        if prev.0.contains(o) {
            prev
        } else {
            (prev.0.push(o), prev.1.push(secs.last().0))
        }
    }
}

/// The sprite files of the sections, in order.
pub open spec fn object_paths(secs: Seq<(Seq<char>, Entries)>) -> Seq<Seq<char>> {
    secs.map_values(|s: (Seq<char>, Entries)| object_path(s.0))
}

/// Registers the object of each section, in order, and returns their
/// sprite files.
fn register_objects(secs: &Vec<(String, Section)>, registry: &mut Registry<ObjectInfo>) -> (r: Vec<String>)
    requires
        old(registry).wf(),
        objects_ok(sections_view(secs@)),
    ensures
        final(registry).wf(),
        r@.map_values(|p: String| p@) == object_paths(sections_view(secs@)),
        registry_view(*final(registry)) == objects_registered(registry_view(*old(registry)), sections_view(secs@)),
{
    let ghost sv = sections_view(secs@);
    let ghost start = registry_view(*registry);
    let mut paths: Vec<String> = Vec::new();
    let mut i: usize = 0;
    assert(sv.subrange(0, 0) =~= Seq::<(Seq<char>, Entries)>::empty());
    while i < secs.len()
        invariant
            i <= secs@.len(),
            sv == sections_view(secs@),
            objects_ok(sv),
            registry.wf(),
            paths@.map_values(|p: String| p@) == object_paths(sv.subrange(0, i as int)),
            registry_view(*registry) == objects_registered(start, sv.subrange(0, i as int)),
        decreases secs.len() - i,
    {
        let name = &secs[i].0;
        let props = &secs[i].1;
        assert(sv[i as int] == (name@, section_entries(*props)));
        assert(object_ok(sv[i as int].1));
        let o = match read_object(name, props) {
            Some(o) => o,
            None => {
                assert(false);
                return paths;
            },
        };
        let ghost before = *registry;
        let ghost before_paths = paths@;
        paths.push(o.path.clone());
        let r = registry.register(o, name.as_str());
        proof {
            let sub = sv.subrange(0, i + 1);
            assert(sub.drop_last() =~= sv.subrange(0, i as int));
            assert(sub.last() == sv[i as int]);
            assert(paths@.map_values(|p: String| p@) =~= before_paths.map_values(|p: String| p@).push(
                object_path(name@),
            ));
            assert(object_paths(sub) =~= object_paths(sv.subrange(0, i as int)).push(object_path(name@)));
            let views = before.entries().map_values(|x: ObjectInfo| x@);
            let ov = object_of(name@, section_entries(*props));
            match r {
                None => {
                    let k = choose|k: int| 0 <= k < before.entries().len() && #[trigger] before.entries()[k].eq_spec(&o);
                    assert(views[k] == ov);
                    assert(views.contains(ov));
                },
                Some(_) => {
                    if views.contains(ov) {
                        let k = choose|k: int| 0 <= k < views.len() && views[k] == ov;
                        assert(before.entries()[k].eq_spec(&o));
                    }
                    assert(registry.entries().map_values(|x: ObjectInfo| x@) =~= views.push(ov));
                },
            }
        }
        i = i + 1;
    }
    assert(sv.subrange(0, secs@.len() as int) =~= sv);
    paths
}

/// Whether every section describes an object.
fn objects_readable(sections: &Vec<(String, Section)>) -> (r: bool)
    ensures
        r == objects_ok(sections_view(sections@)),
{
    let ghost sv = sections_view(sections@);
    let mut i: usize = 0;
    while i < sections.len()
        invariant
            i <= sections@.len(),
            sv == sections_view(sections@),
            forall|k: int| 0 <= k < i ==> object_ok(#[trigger] sv[k].1),
        decreases sections.len() - i,
    {
        assert(sv[i as int].1 == section_entries(sections@[i as int].1));
        if read_object(&sections[i].0, &sections[i].1).is_none() {
            return false;
        }
        i = i + 1;
    }
    true
}

/// Reads the object descriptions of an `Objects.ini` document and
/// registers each under its section's name; gives back the directory of
/// the sprites and the sprite file of each section, in order.
pub fn parse_objects(ini_doc: &str, registry: &mut Registry<ObjectInfo>) -> (r: (&'static str, Vec<String>))
    requires
        old(registry).wf(),
        !has_error(ini_items(ini_doc@)),
        objects_ok(sections_of(ini_items(ini_doc@), RawValues)),
    ensures
        final(registry).wf(),
        r.0@ == "assets/Objects"@,
        r.1@.map_values(|p: String| p@) == object_paths(sections_of(ini_items(ini_doc@), RawValues)),
        registry_view(*final(registry)) == objects_registered(
            registry_view(*old(registry)),
            sections_of(ini_items(ini_doc@), RawValues),
        ),
{
    let sections = parse_for_sections(ini_doc);
    let assets = register_objects(&sections, registry);
    ("assets/Objects", assets)
}

/// `parse_objects` on a document that it can read; `None`, with the
/// registry left as it is, when the document holds a malformed section
/// header or a section that does not describe an object.
pub fn try_parse_objects(ini_doc: &str, registry: &mut Registry<ObjectInfo>) -> (r: Option<(&'static str, Vec<String>)>)
    requires
        old(registry).wf(),
    ensures
        final(registry).wf(),
        match r {
            Some(v) => {
                &&& !has_error(ini_items(ini_doc@))
                &&& objects_ok(sections_of(ini_items(ini_doc@), RawValues))
                &&& v.0@ == "assets/Objects"@
                &&& v.1@.map_values(|p: String| p@) == object_paths(sections_of(ini_items(ini_doc@), RawValues))
                &&& registry_view(*final(registry)) == objects_registered(
                    registry_view(*old(registry)),
                    sections_of(ini_items(ini_doc@), RawValues),
                )
            },
            None => *final(registry) == *old(registry) && (has_error(ini_items(ini_doc@)) || !objects_ok(
                sections_of(ini_items(ini_doc@), RawValues),
            )),
        },
{
    if ini_has_error(ini_doc) {
        return None;
    }
    let sections = parse_for_sections(ini_doc);
    if !objects_readable(&sections) {
        return None;
    }
    Some(parse_objects(ini_doc, registry))
}

/// What one property of `Settings.ini` does to the settings: `locale`,
/// `additional_locale`, `ip` and `port` set their field, `fullscreen` sets
/// the flag (see `flag_value`); anything else leaves them as they are.
pub open spec fn setting_step(st: SettingsView, k: Seq<char>, v: Seq<char>) -> SettingsView {
    if k == "locale"@ {
        SettingsView { locale: v, ..st }
    } else if k == "additional_locale"@ {
        SettingsView { additional_locale: v, ..st }
    } else if k == "fullscreen"@ {
        SettingsView { fullscreen: flag_value(v), ..st }
    } else if k == "port"@ {
        SettingsView { port: unsigned_value(v, u64::MAX as nat).unwrap() as u64, ..st }
    } else if k == "ip"@ {
        SettingsView { ip: v, ..st }
    } else {
        st
    }
}

/// A property of `Settings.ini` can be read: `max_troops` holds a `usize`
/// and `port` a `u64`.
pub open spec fn setting_ok(k: Seq<char>, v: Seq<char>) -> bool {
    &&& k == "max_troops"@ ==> unsigned_value(v, usize::MAX as nat) is Some
    &&& k == "port"@ ==> unsigned_value(v, u64::MAX as nat) is Some
}

/// Every property of every section can be read.
pub open spec fn settings_ok(secs: Seq<(Seq<char>, Entries)>) -> bool {
    forall|i: int, j: int|
        0 <= i < secs.len() && 0 <= j < secs[i].1.len() ==> setting_ok(#[trigger] secs[i].1[j].0, secs[i].1[j].1)
}

/// The settings after the properties `e` are applied in order.
pub open spec fn settings_props(st: SettingsView, e: Entries) -> SettingsView
    decreases e.len(),
{
    if e.len() == 0 {
        st
    } else {
        setting_step(settings_props(st, e.drop_last()), e.last().0, e.last().1)
    }
}

/// The settings after the properties of every section are applied in
/// order.
pub open spec fn settings_secs(st: SettingsView, secs: Seq<(Seq<char>, Entries)>) -> SettingsView
    decreases secs.len(),
{
    if secs.len() == 0 {
        st
    } else {
        settings_props(settings_secs(st, secs.drop_last()), secs.last().1)
    }
}

/// The settings before `Settings.ini` is read: no languages, windowed, the
/// local address and port 0.
pub open spec fn settings_start() -> SettingsView {
    SettingsView { locale: Seq::empty(), additional_locale: Seq::empty(), fullscreen: false, ip: "127.0.0.1"@, port: 0 }
}

/// Applies one property (see `setting_step`).
fn apply_setting(st: &mut Settings, k: &String, v: &String)
    requires
        setting_ok(k@, v@),
    ensures
        final(st)@ == setting_step(old(st)@, k@, v@),
{
    if str_eq(k.as_str(), "locale") {
        st.locale = v.clone();
    } else if str_eq(k.as_str(), "additional_locale") {
        st.additional_locale = v.clone();
    } else if str_eq(k.as_str(), "fullscreen") {
        st.fullscreen = str_bool(v.clone());
    } else if str_eq(k.as_str(), "port") {
        match parse_unsigned(v.as_str(), u64::MAX) {
            Some(p) => {
                st.port = p;
            },
            None => {},
        }
    } else if str_eq(k.as_str(), "ip") {
        st.ip = v.clone();
    }
}

/// Applies the properties of every section in order.
fn apply_settings(sections: &Vec<(String, Section)>) -> (r: Settings)
    requires
        settings_ok(sections_view(sections@)),
    ensures
        r@ == settings_secs(settings_start(), sections_view(sections@)),
{
    let ghost sv = sections_view(sections@);
    let mut st = Settings {
        locale: String::new(),
        additional_locale: String::new(),
        fullscreen: false,
        ip: owned("127.0.0.1"),
        port: 0,
    };
    let mut i: usize = 0;
    assert(sv.subrange(0, 0) =~= Seq::<(Seq<char>, Entries)>::empty());
    while i < sections.len()
        invariant
            i <= sections@.len(),
            sv == sections_view(sections@),
            settings_ok(sv),
            st@ == settings_secs(settings_start(), sv.subrange(0, i as int)),
        decreases sections.len() - i,
    {
        let pairs = section_pairs(&sections[i].1);
        let ghost e = pair_views(pairs@);
        assert(sv[i as int].1 == e);
        let ghost at_start = st@;
        let mut j: usize = 0;
        assert(e.subrange(0, 0) =~= Seq::<(Seq<char>, Seq<char>)>::empty());
        while j < pairs.len()
            invariant
                j <= pairs@.len(),
                e == pair_views(pairs@),
                e.len() == pairs@.len(),
                forall|k: int| 0 <= k < e.len() ==> setting_ok(#[trigger] e[k].0, e[k].1),
                st@ == settings_props(at_start, e.subrange(0, j as int)),
            decreases pairs.len() - j,
        {
            assert(e[j as int] == (pairs@[j as int].0@, pairs@[j as int].1@));
            assert(setting_ok(e[j as int].0, e[j as int].1));
            apply_setting(&mut st, &pairs[j].0, &pairs[j].1);
            assert(e.subrange(0, j + 1).drop_last() =~= e.subrange(0, j as int));
            j = j + 1;
        }
        assert(e.subrange(0, pairs@.len() as int) =~= e);
        assert(sv.subrange(0, i + 1).drop_last() =~= sv.subrange(0, i as int));
        i = i + 1;
    }
    assert(sv.subrange(0, sections@.len() as int) =~= sv);
    st
}

/// Reads `Settings.ini`: the properties of all sections are applied in
/// order from `settings_start` (see `setting_step`).
pub fn parse_settings(ini_doc: &str) -> (r: Settings)
    requires
        !has_error(ini_items(ini_doc@)),
        settings_ok(sections_of(ini_items(ini_doc@), RawValues)),
    ensures
        r@ == settings_secs(settings_start(), sections_of(ini_items(ini_doc@), RawValues)),
{
    let sections = parse_for_sections(ini_doc);
    apply_settings(&sections)
}

/// `parse_settings` on a document that it can read; `None` when the
/// document holds a malformed section header, a `max_troops` that is no
/// `usize` or a `port` that is no `u64`.
pub fn try_parse_settings(ini_doc: &str) -> (r: Option<Settings>)
    ensures
        match r {
            Some(s) => !has_error(ini_items(ini_doc@)) && settings_ok(sections_of(ini_items(ini_doc@), RawValues))
                && s@ == settings_secs(settings_start(), sections_of(ini_items(ini_doc@), RawValues)),
            None => has_error(ini_items(ini_doc@)) || !settings_ok(sections_of(ini_items(ini_doc@), RawValues)),
        },
{
    if ini_has_error(ini_doc) {
        return None;
    }
    let sections = parse_for_sections(ini_doc);
    if !settings_readable(&sections) {
        return None;
    }
    Some(parse_settings(ini_doc))
}

/// Whether every property of every section can be read (see
/// `setting_ok`).
fn settings_readable(sections: &Vec<(String, Section)>) -> (r: bool)
    ensures
        r == settings_ok(sections_view(sections@)),
{
    let ghost sv = sections_view(sections@);
    let mut i: usize = 0;
    while i < sections.len()
        invariant
            i <= sections@.len(),
            sv == sections_view(sections@),
            forall|a: int, b: int| 0 <= a < i && 0 <= b < sv[a].1.len() ==> setting_ok(#[trigger] sv[a].1[b].0, sv[a].1[b].1),
        decreases sections.len() - i,
    {
        let pairs = section_pairs(&sections[i].1);
        let ghost e = pair_views(pairs@);
        assert(sv[i as int].1 == e);
        let mut j: usize = 0;
        while j < pairs.len()
            invariant
                i < sections@.len(),
                sv == sections_view(sections@),
                sv[i as int].1 == e,
                j <= pairs@.len(),
                e == pair_views(pairs@),
                e.len() == pairs@.len(),
                forall|a: int, b: int| 0 <= a < i && 0 <= b < sv[a].1.len() ==> setting_ok(#[trigger] sv[a].1[b].0, sv[a].1[b].1),
                forall|b: int| 0 <= b < j ==> setting_ok(#[trigger] e[b].0, e[b].1),
            decreases pairs.len() - j,
        {
            let k = &pairs[j].0;
            let v = &pairs[j].1;
            assert(e[j as int] == (k@, v@));
            if str_eq(k.as_str(), "max_troops") && parse_unsigned(v.as_str(), usize::MAX as u64).is_none() {
                assert(!setting_ok(sv[i as int].1[j as int].0, sv[i as int].1[j as int].1));
                return false;
            }
            if str_eq(k.as_str(), "port") && parse_unsigned(v.as_str(), u64::MAX).is_none() {
                assert(!setting_ok(sv[i as int].1[j as int].0, sv[i as int].1[j as int].1));
                return false;
            }
            j = j + 1;
        }
        assert forall|a: int, b: int| 0 <= a < i + 1 && 0 <= b < sv[a].1.len() implies setting_ok(#[trigger] sv[a].1[b].0, sv[a].1[b].1) by {
            if a == i {
                assert(setting_ok(e[b].0, e[b].1));
            }
        }
        i = i + 1;
    }
    true
}

} // verus!
