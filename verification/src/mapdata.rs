//! The map data file: tile map, decorations, buildings and armies read
//! from the sections of an ini document.
use crate::advini::{has_error, ini_has_error, ini_items, parse_for_sections, sections_of, sections_view, RawValues, is_tail, number_parse, split_comma, starts_comma, Ini, entry_get, pair_views, section_entries, section_get, section_pairs, Section};
use crate::army::{empty_hitmap, layout, padded, troops_added_all, Army, ArmyStats, Control, Relations, TroopSlot};
use crate::items::Item;
use crate::map::{is_isqrt, MapDeco, TileMap};
use crate::locale::{process_locale, processed, Locale};
use crate::object::{HireTerms, BuildingVariant, MapBuildingdata, Market, ObjectInfo, RecruitUnit, Recruitment};
use crate::parse::{read_piece, flag_value, str_bool, parse_duo_tuple, parse_unsigned, piece_value, split_and_parse, unsigned_value, Entries};
use crate::text::{chars_of, owned, push_char, str_eq};
use crate::time::{dec_value, digit_runs, is_digit, lemma_runs_digits, split_runs};
use crate::units::{UnitPos, MAX_LINES, MAX_TROOPS};
use vstd::prelude::*;

verus! {

/// `s` cut at every `c` (as `str::split` does: at least one piece, and
/// pieces may be empty).
pub open spec fn char_pieces(s: Seq<char>, c: char) -> Seq<Seq<char>>
    decreases s.len(),
{
    if s.len() == 0 {
        seq![Seq::empty()]
    } else {
        let r = char_pieces(s.drop_last(), c);
        if s.last() == c {
            r.push(Seq::empty())
        } else {
            r.update(r.len() - 1, r.last().push(s.last()))
        }
    }
}

/// The views of a list of strings.
pub open spec fn views(v: Seq<String>) -> Seq<Seq<char>> {
    v.map_values(|x: String| x@)
}

/// Cuts `s` at every `c` (see `char_pieces`).
pub fn split_char(s: &str, c: char) -> (r: Vec<String>)
    ensures
        views(r@) == char_pieces(s@, c),
{
    let v = chars_of(s);
    let mut done: Vec<String> = Vec::new();
    let mut cur = String::new();
    let mut i: usize = 0;
    assert(s@.subrange(0, 0) =~= Seq::<char>::empty());
    assert(views(done@).push(cur@) =~= char_pieces(s@.subrange(0, 0), c));
    while i < v.len()
        invariant
            v@ == s@,
            i <= v@.len(),
            views(done@).push(cur@) == char_pieces(s@.subrange(0, i as int), c),
        decreases v.len() - i,
    {
        let ch = v[i];
        let ghost pre = s@.subrange(0, i + 1);
        assert(pre.drop_last() =~= s@.subrange(0, i as int));
        assert(pre.last() == ch);
        if ch == c {
            let ghost before = views(done@);
            done.push(cur);
            cur = String::new();
            assert(views(done@) =~= before.push(views(done@).last()));
            assert(views(done@).push(cur@) =~= char_pieces(pre, c));
        } else {
            let ghost old_cur = cur@;
            push_char(&mut cur, ch);
            assert(views(done@).push(cur@) =~= (views(done@).push(old_cur)).update(
                views(done@).len() as int,
                old_cur.push(ch),
            ));
        }
        i = i + 1;
    }
    assert(s@.subrange(0, v@.len() as int) =~= s@);
    done.push(cur);
    assert(views(done@) =~= char_pieces(s@, c));
    done
}

/// Index of the first character of `s` that is `c` (with `digit` false)
/// or that is no ASCII digit (with `digit` true).
pub open spec fn first_cut(s: Seq<char>, c: char, digit: bool) -> Option<int>
    decreases s.len(),
{
    if s.len() == 0 {
        None
    } else if (digit && !is_digit(s[0])) || (!digit && s[0] == c) {
        Some(0)
    } else {
        match first_cut(s.drop_first(), c, digit) {
            Some(k) => Some(k + 1),
            None => None,
        }
    }
}

proof fn lemma_first_cut(s: Seq<char>, c: char, digit: bool, i: int)
    requires
        0 <= i <= s.len(),
        forall|q: int| 0 <= q < i ==> !((digit && !is_digit(s[q])) || (!digit && s[q] == c)),
    ensures
        i < s.len() && ((digit && !is_digit(s[i])) || (!digit && s[i] == c)) ==> first_cut(s, c, digit) == Some(i),
        i == s.len() ==> first_cut(s, c, digit) is None,
    decreases s.len(),
{
    if s.len() > 0 {
        if i > 0 {
            lemma_first_cut(s.drop_first(), c, digit, i - 1);
        } else {
            lemma_first_cut(s.drop_first(), c, digit, 0);
        }
    }
}

/// `s` cut at its first cut character (see `first_cut`), as
/// `str::split_once` does.
pub fn split_once_at(s: &str, c: char, digit: bool) -> (r: Option<(String, String)>)
    ensures
        match first_cut(s@, c, digit) {
            Some(k) => r matches Some((a, b)) && a@ == s@.subrange(0, k) && b@ == s@.subrange(k + 1, s@.len() as int),
            None => r is None,
        },
{
    let v = chars_of(s);
    let n = v.len();
    let mut i: usize = 0;
    while i < n
        invariant
            v@ == s@,
            n == v@.len(),
            i <= n,
            forall|q: int| 0 <= q < i ==> !((digit && !is_digit(s@[q])) || (!digit && s@[q] == c)),
        decreases n - i,
    {
        let ch = v[i];
        if (digit && !('0' <= ch && ch <= '9')) || (!digit && ch == c) {
            proof {
                lemma_first_cut(s@, c, digit, i as int);
            }
            let a = owned(s.substring_char(0, i));
            let b = owned(s.substring_char(i + 1, n));
            return Some((a, b));
        }
        i = i + 1;
    }
    proof {
        lemma_first_cut(s@, c, digit, i as int);
    }
    None
}

/// A `usize` piece of a numbers list: the piece's value when it is a
/// number up to `usize::MAX`, else 0 (as `from_str_radix(..).unwrap_or(0)`).
pub open spec fn usize_piece(p: Seq<char>) -> usize {
    match piece_value(p) {
        Some(x) => if x <= usize::MAX {
            x as usize
        } else {
            0
        },
        None => 0,
    }
}

/// The `usize` numbers of `v`, cut at every non-digit.
pub open spec fn usize_numbers(v: Seq<char>) -> Seq<usize> {
    digit_runs(v).map_values(|p: Seq<char>| usize_piece(p))
}

/// Reads the `usize` numbers of `v` (see `usize_numbers`).
pub fn usize_list(v: String) -> (r: Vec<usize>)
    ensures
        r@ == usize_numbers(v@),
{
    let ghost vv = v@;
    let nums = split_and_parse(v);
    let mut r: Vec<usize> = Vec::new();
    let mut i: usize = 0;
    while i < nums.len()
        invariant
            i <= nums@.len(),
            nums@.len() == digit_runs(vv).len(),
            forall|q: int|
                0 <= q < nums@.len() ==> #[trigger] nums@[q] == match piece_value(digit_runs(vv)[q]) {
                    Some(x) => x,
                    None => 0,
                },
            r@ == usize_numbers(vv).subrange(0, i as int),
        decreases nums.len() - i,
    {
        let x = nums[i];
        let u: usize = if x <= usize::MAX as u64 {
            x as usize
        } else {
            0
        };
        r.push(u);
        assert(r@ =~= usize_numbers(vv).subrange(0, i + 1));
        i = i + 1;
    }
    assert(usize_numbers(vv).subrange(0, nums@.len() as int) =~= usize_numbers(vv));
    r
}

/// A recruitment offer `unit;count`: cut at its first `;`, both parts
/// read as `usize` numbers.
pub open spec fn recruit_piece(p: Seq<char>) -> Option<RecruitUnit> {
    match first_cut(p, ';', false) {
        Some(k) => match (
            unsigned_value(p.subrange(0, k), usize::MAX as nat),
            unsigned_value(p.subrange(k + 1, p.len() as int), usize::MAX as nat),
        ) {
            (Some(u), Some(c)) => Some(RecruitUnit { unit: u as usize, count: c as usize }),
            _ => None,
        },
        None => None,
    }
}

/// Every offer of a `recruit` list `v` (cut at `,`) can be read.
pub open spec fn recruit_ok(v: Seq<char>) -> bool {
    forall|i: int| 0 <= i < char_pieces(v, ',').len() ==> #[trigger] recruit_piece(char_pieces(v, ',')[i]) is Some
}

/// The offers of a `recruit` list.
pub open spec fn recruits_of(v: Seq<char>) -> Seq<RecruitUnit> {
    char_pieces(v, ',').map_values(|p: Seq<char>| recruit_piece(p).unwrap())
}

/// Reads one offer (see `recruit_piece`).
fn read_recruit(p: &String) -> (r: Option<RecruitUnit>)
    ensures
        r == recruit_piece(p@),
{
    match split_once_at(p.as_str(), ';', false) {
        None => None,
        Some((a, b)) => match (parse_unsigned(a.as_str(), usize::MAX as u64), parse_unsigned(b.as_str(), usize::MAX as u64)) {
            (Some(u), Some(c)) => Some(RecruitUnit { unit: u as usize, count: c as usize }),
            _ => None,
        },
    }
}

/// Reads a `recruit` list; `None` when an offer cannot be read.
fn read_recruits(v: &String) -> (r: Option<Vec<RecruitUnit>>)
    ensures
        match r {
            Some(u) => recruit_ok(v@) && u@ == recruits_of(v@),
            None => !recruit_ok(v@),
        },
{
    let pieces = split_char(v.as_str(), ',');
    let ghost ps = char_pieces(v@, ',');
    let mut out: Vec<RecruitUnit> = Vec::new();
    let mut i: usize = 0;
    while i < pieces.len()
        invariant
            views(pieces@) == ps,
            ps == char_pieces(v@, ','),
            i <= pieces@.len(),
            forall|q: int| 0 <= q < i ==> #[trigger] recruit_piece(ps[q]) is Some,
            out@ == recruits_of(v@).subrange(0, i as int),
        decreases pieces.len() - i,
    {
        assert(ps[i as int] == pieces@[i as int]@);
        match read_recruit(&pieces[i]) {
            None => return None,
            Some(u) => {
                out.push(u);
                assert(out@ =~= recruits_of(v@).subrange(0, i + 1));
            },
        }
        i = i + 1;
    }
    assert(recruits_of(v@).subrange(0, pieces@.len() as int) =~= recruits_of(v@));
    Some(out)
}

/// The number under `key` when it reads as one up to `max`, else `d`.
pub open spec fn num_or(e: Entries, key: Seq<char>, max: nat, d: nat) -> nat {
    match entry_get(e, key) {
        Some(v) => match unsigned_value(v, max) {
            Some(n) => n,
            None => d,
        },
        None => d,
    }
}

/// The number under `key`, if present and read as one up to `max`.
pub open spec fn num_opt(e: Entries, key: Seq<char>, max: nat) -> Option<nat> {
    match entry_get(e, key) {
        Some(v) => unsigned_value(v, max),
        None => None,
    }
}

/// The text under `key`, else the empty text.
pub open spec fn text_or(e: Entries, key: Seq<char>) -> Seq<char> {
    match entry_get(e, key) {
        Some(v) => v,
        None => Seq::empty(),
    }
}

/// Two numbers up to `max` at the start of `v`, cut at non-digits.
pub open spec fn duo(v: Seq<char>, max: nat) -> Option<(nat, nat)> {
    let ps = digit_runs(v);
    match piece_value(ps[0]) {
        Some(a) => if ps.len() >= 2 {
            match piece_value(ps[1]) {
                Some(b) => if a <= max && b <= max {
                    Some((a as nat, b as nat))
                } else {
                    None
                },
                None => None,
            }
        } else {
            None
        },
        None => None,
    }
}

/// The pair under `key` when it reads as one (see `duo`), else `d`.
pub open spec fn duo_or(e: Entries, key: Seq<char>, max: nat, d: (nat, nat)) -> (nat, nat) {
    match entry_get(e, key) {
        Some(v) => match duo(v, max) {
            Some(p) => p,
            None => d,
        },
        None => d,
    }
}

/// Position of the first object description named `name`.
pub open spec fn object_named(objects: Seq<ObjectInfo>, name: Seq<char>) -> Option<int>
    decreases objects.len(),
{
    if objects.len() == 0 {
        None
    } else if objects[0].name@ == name {
        Some(0)
    } else {
        match object_named(objects.drop_first(), name) {
            Some(k) => Some(k + 1),
            None => None,
        }
    }
}

proof fn lemma_object_named(objects: Seq<ObjectInfo>, name: Seq<char>, i: int)
    requires
        0 <= i <= objects.len(),
        forall|q: int| 0 <= q < i ==> objects[q].name@ != name,
    ensures
        i < objects.len() && objects[i].name@ == name ==> object_named(objects, name) == Some(i),
        i == objects.len() ==> object_named(objects, name) is None,
    decreases objects.len(),
{
    if objects.len() > 0 {
        if i > 0 {
            lemma_object_named(objects.drop_first(), name, i - 1);
        } else {
            lemma_object_named(objects.drop_first(), name, 0);
        }
    }
}

/// The recruitment offers and events of a building section after its
/// properties `e` are applied in order (a `recruit` or `events` value with
/// its references resolved; a later one replaces an earlier one).
pub open spec fn building_lists(
    e: Entries,
    texts: Map<Seq<char>, Map<Seq<char>, Seq<char>>>,
    main: Seq<char>,
    add: Seq<char>,
) -> (Seq<RecruitUnit>, Seq<usize>)
    decreases e.len(),
{
    if e.len() == 0 {
        (Seq::empty(), Seq::empty())
    } else {
        let p = building_lists(e.drop_last(), texts, main, add);
        let (k, v) = e.last();
        if k == "recruit"@ {
            (recruits_of(processed(v, texts, main, add)), p.1)
        } else if k == "events"@ {
            (p.0, usize_numbers(processed(v, texts, main, add)))
        } else {
            p
        }
    }
}

/// A building section can be read: its `object` names an object
/// description and every `recruit` list reads.
pub open spec fn building_ok(
    e: Entries,
    objects: Seq<ObjectInfo>,
    texts: Map<Seq<char>, Map<Seq<char>, Seq<char>>>,
    main: Seq<char>,
    add: Seq<char>,
) -> bool {
    &&& object_named(objects, text_or(e, "object"@)) is Some
    &&& forall|j: int| 0 <= j < e.len() && #[trigger] e[j].0 == "recruit"@ ==> recruit_ok(processed(e[j].1, texts, main, add))
}

/// `b` is the building that the section with properties `e` describes: a
/// castle with the named object's position as id, its `name`, `desc`,
/// `pos`, `owner`, `defense` and `income`; a market of the listed `items`
/// (with `itemcost_range`, and as many places as its `id` says, 10 by
/// default) when it lists items; a recruitment of the `recruit` offers
/// when there are offers; the `events` listed.
pub open spec fn is_building_of(
    b: MapBuildingdata,
    e: Entries,
    objects: Seq<ObjectInfo>,
    texts: Map<Seq<char>, Map<Seq<char>, Seq<char>>>,
    main: Seq<char>,
    add: Seq<char>,
) -> bool {
    let items = match entry_get(e, "items"@) {
        Some(v) => usize_numbers(v),
        None => Seq::empty(),
    };
    let lists = building_lists(e, texts, main, add);
    let pos = duo_or(e, "pos"@, usize::MAX as nat, (0, 0));
    &&& b.name@ == text_or(e, "name"@)
    &&& b.desc@ == text_or(e, "desc"@)
    &&& b.owner_name@ == Seq::<char>::empty()
    &&& b.id == object_named(objects, text_or(e, "object"@)).unwrap()
    &&& b.events@ == lists.1
    &&& b.variant == BuildingVariant::Castle
    &&& (if items.len() == 0 {
        b.market is None
    } else {
        b.market matches Some(m) && m.items@ == items.map_values(|i: usize| Item { index: i }) && m.itemcost_range
            == (match entry_get(e, "itemcost_range"@) {
            Some(v) => match duo(v, u64::MAX as nat) {
                Some(p) => (p.0 as u64, p.1 as u64),
                None => (0u64, 1000u64),
            },
            None => (0u64, 1000u64),
        }) && m.max_items == num_or(e, "id"@, usize::MAX as nat, 10)
    })
    &&& (if lists.0.len() == 0 {
        b.recruitment is None
    } else {
        b.recruitment matches Some(r) && r.units@ == lists.0
    })
    &&& b.pos == (pos.0 as usize, pos.1 as usize)
    &&& b.owner == match num_opt(e, "owner"@, usize::MAX as nat) {
        Some(o) => Some(o as usize),
        None => None::<usize>,
    }
    &&& b.garrison@ == Seq::<usize>::empty()
    &&& b.additional_defense == num_or(e, "defense"@, u64::MAX as nat, 0)
    &&& b.gold_income == num_or(e, "income"@, u64::MAX as nat, 0)
    &&& b.mana_income == 0
    &&& b.spells_to_learn@ == Seq::<usize>::empty()
    &&& b.relations == (Relations { player: 0, ally: 0, neighbour: 128, enemy: 255 })
    &&& b.group == 0
}

/// The number under `key` when it reads as one up to `max`, else `d`.
fn get_num_or(props: &Section, key: &str, max: u64, d: u64) -> (r: u64)
    requires
        d <= max,
    ensures
        r == num_or(section_entries(*props), key@, max as nat, d as nat),
{
    match section_get(props, &owned(key)) {
        Some(v) => match parse_unsigned(v.as_str(), max) {
            Some(n) => n,
            None => d,
        },
        None => d,
    }
}

/// The text under `key`, else the empty text.
fn get_text(props: &Section, key: &str) -> (r: String)
    ensures
        r@ == text_or(section_entries(*props), key@),
{
    match section_get(props, &owned(key)) {
        Some(v) => v,
        None => String::new(),
    }
}

/// Two numbers up to `max` (see `duo`).
fn read_duo(v: &str, max: u64) -> (r: Option<(u64, u64)>)
    ensures
        match duo(v@, max as nat) {
            Some(p) => r == Some((p.0 as u64, p.1 as u64)),
            None => r is None,
        },
{
    match parse_duo_tuple(v) {
        Ok((a, b)) => if a <= max && b <= max {
            Some((a, b))
        } else {
            None
        },
        Err(_) => None,
    }
}

/// Position of the first object description named `name`.
fn find_object(objects: &[ObjectInfo], name: &String) -> (r: Option<usize>)
    ensures
        match object_named(objects@, name@) {
            Some(k) => r == Some(k as usize) && 0 <= k < objects@.len() && k <= usize::MAX,
            None => r is None,
        },
{
    let mut i: usize = 0;
    while i < objects.len()
        invariant
            i <= objects@.len(),
            forall|q: int| 0 <= q < i ==> objects@[q].name@ != name@,
        decreases objects.len() - i,
    {
        if str_eq(objects[i].name.as_str(), name.as_str()) {
            proof {
                lemma_object_named(objects@, name@, i as int);
            }
            return Some(i);
        }
        i = i + 1;
    }
    proof {
        lemma_object_named(objects@, name@, i as int);
    }
    None
}

/// Reads the building a section describes (see `is_building_of`); `None`
/// when the section cannot be read (see `building_ok`).
pub fn read_building(props: &Section, objects: &[ObjectInfo], locale: &Locale) -> (r: Option<MapBuildingdata>)
    requires
        locale.wf(),
    ensures
        match r {
            Some(b) => building_ok(section_entries(*props), objects@, locale.texts(), locale.main_of(), locale.additional())
                && is_building_of(b, section_entries(*props), objects@, locale.texts(), locale.main_of(), locale.additional()),
            None => !building_ok(section_entries(*props), objects@, locale.texts(), locale.main_of(), locale.additional()),
        },
{
    let ghost e = section_entries(*props);
    let ghost texts = locale.texts();
    let ghost main = locale.main_of();
    let ghost add = locale.additional();
    let name = get_text(props, "name");
    let object_name = get_text(props, "object");
    let desc = get_text(props, "desc");
    let items_nums = match section_get(props, &owned("items")) {
        Some(v) => usize_list(v),
        None => Vec::new(),
    };
    let mut items: Vec<Item> = Vec::new();
    let mut q: usize = 0;
    while q < items_nums.len()
        invariant
            q <= items_nums@.len(),
            items@ == items_nums@.subrange(0, q as int).map_values(|i: usize| Item { index: i }),
        decreases items_nums.len() - q,
    {
        items.push(Item { index: items_nums[q] });
        assert(items@ =~= items_nums@.subrange(0, q + 1).map_values(|i: usize| Item { index: i }));
        q = q + 1;
    }
    assert(items_nums@.subrange(0, items_nums@.len() as int) =~= items_nums@);
    let itemcost_range = match section_get(props, &owned("itemcost_range")) {
        Some(v) => match read_duo(v.as_str(), u64::MAX) {
            Some(p) => p,
            None => (0u64, 1000u64),
        },
        None => (0u64, 1000u64),
    };
    let max_items = get_num_or(props, "id", usize::MAX as u64, 10) as usize;
    let pos = match section_get(props, &owned("pos")) {
        Some(v) => match read_duo(v.as_str(), usize::MAX as u64) {
            Some(p) => (p.0 as usize, p.1 as usize),
            None => (0usize, 0usize),
        },
        None => (0usize, 0usize),
    };
    let defense = get_num_or(props, "defense", u64::MAX, 0);
    let gold_income = get_num_or(props, "income", u64::MAX, 0);
    let owner = match section_get(props, &owned("owner")) {
        Some(v) => match parse_unsigned(v.as_str(), usize::MAX as u64) {
            Some(o) => Some(o as usize),
            None => None,
        },
        None => None,
    };
    let pairs = section_pairs(props);
    let ghost pv = pair_views(pairs@);
    let mut units: Vec<RecruitUnit> = Vec::new();
    let mut events: Vec<usize> = Vec::new();
    let mut j: usize = 0;
    assert(pv.subrange(0, 0) =~= Seq::<(Seq<char>, Seq<char>)>::empty());
    while j < pairs.len()
        invariant
            locale.wf(),
            texts == locale.texts(),
            main == locale.main_of(),
            add == locale.additional(),
            pv == pair_views(pairs@),
            pv == e,
            e == section_entries(*props),
            j <= pairs@.len(),
            forall|q: int| 0 <= q < j && #[trigger] pv[q].0 == "recruit"@ ==> recruit_ok(processed(pv[q].1, texts, main, add)),
            (units@, events@) == building_lists(pv.subrange(0, j as int), texts, main, add),
        decreases pairs.len() - j,
    {
        let k = &pairs[j].0;
        let v = &pairs[j].1;
        assert(pv[j as int] == (k@, v@));
        assert(pv.subrange(0, j + 1).drop_last() =~= pv.subrange(0, j as int));
        if str_eq(k.as_str(), "recruit") {
            let value = process_locale(v.as_str(), locale);
            match read_recruits(&value) {
                Some(u) => {
                    units = u;
                },
                None => {
                    assert(e[j as int].0 == "recruit"@);
                    return None;
                },
            }
        } else if str_eq(k.as_str(), "events") {
            let value = process_locale(v.as_str(), locale);
            events = usize_list(value);
        }
        j = j + 1;
    }
    assert(pv.subrange(0, pairs@.len() as int) =~= pv);
    let id = match find_object(objects, &object_name) {
        Some(i) => i,
        None => return None,
    };
    assert(building_ok(e, objects@, texts, main, add)) by {
        assert forall|q: int| 0 <= q < e.len() && #[trigger] e[q].0 == "recruit"@ implies recruit_ok(
            processed(e[q].1, texts, main, add),
        ) by {
            assert(pv[q].0 == "recruit"@);
        }
    }
    let market = if items.len() == 0 {
        None
    } else {
        Some(Market::new(itemcost_range, items, max_items))
    };
    let recruitment = if units.len() == 0 {
        None
    } else {
        Some(Recruitment::new(units))
    };
    Some(MapBuildingdata {
        name,
        desc,
        owner_name: String::new(),
        id,
        events,
        variant: BuildingVariant::Castle,
        market,
        recruitment,
        pos,
        owner,
        garrison: Vec::new(),
        additional_defense: defense,
        gold_income,
        mana_income: 0,
        spells_to_learn: Vec::new(),
        relations: Relations::default(),
        group: 0,
    })
}

/// `str::parse::<i64>` accepts `s`: a `-` and digits of value at most
/// 2^63, or an unsigned number (a `+` allowed) up to `i64::MAX`.
pub open spec fn i64_ok(s: Seq<char>) -> bool {
    if s.len() > 0 && s[0] == '-' {
        let d = s.drop_first();
        &&& d.len() > 0
        &&& forall|k: int| 0 <= k < d.len() ==> is_digit(#[trigger] d[k])
        &&& dec_value(d) <= 9223372036854775808
    } else {
        unsigned_value(s, i64::MAX as nat) is Some
    }
}

/// Whether `s` reads as an `i64` (see `i64_ok`).
fn reads_i64(s: &String) -> (r: bool)
    ensures
        r == i64_ok(s@),
{
    let v = chars_of(s.as_str());
    let n = v.len();
    if n > 0 && v[0] == '-' {
        if n == 1 || !('0' <= v[1] && v[1] <= '9') {
            proof {
                if n > 1 {
                    assert(s@.drop_first()[0] == v@[1]);
                    assert(!is_digit(s@.drop_first()[0]));
                }
            }
            return false;
        }
        let rest = s.as_str().substring_char(1, n);
        assert(rest@ =~= s@.drop_first());
        match parse_unsigned(rest, 9223372036854775808) {
            Some(_) => true,
            None => false,
        }
    } else {
        parse_unsigned(s.as_str(), i64::MAX as u64).is_some()
    }
}

/// An army section while its properties are read.
pub struct ArmyDraft {
    pub id: Option<usize>,
    pub name: Seq<char>,
    pub mana: u64,
    pub gold: u64,
    pub inv: Seq<Option<Item>>,
    pub pos: (usize, usize),
    pub active: bool,
    pub troops: Seq<TroopSlot>,
    pub control: Control,
    pub main: Option<TroopSlot>,
}

/// An army section before any property: no id, no name, no gold or mana,
/// at tile (0, 0), active, led by the computer, no troops.
pub open spec fn draft_start() -> ArmyDraft {
    ArmyDraft {
        id: None,
        name: Seq::empty(),
        mana: 0,
        gold: 0,
        inv: Seq::empty(),
        pos: (0, 0),
        active: true,
        troops: Seq::empty(),
        control: Control::PC,
        main: None,
    }
}

/// A fresh troop of unit kind `num` (`units` gives each kind's footprint).
pub open spec fn fresh_troop(units: Seq<HireTerms>, num: int) -> TroopSlot {
    TroopSlot { size: units[num].size, pos: UnitPos(0, 0), dead: false }
}

/// A troop of a `troops` list, `unit;level`: a known unit kind and a
/// level that reads as an `i64`.
pub open spec fn troop_piece(p: Seq<char>, units: Seq<HireTerms>) -> Option<TroopSlot> {
    match first_cut(p, ';', false) {
        Some(k) => match unsigned_value(p.subrange(0, k), usize::MAX as nat) {
            Some(num) => if num < units.len() && i64_ok(p.subrange(k + 1, p.len() as int)) {
                Some(fresh_troop(units, num as int))
            } else {
                None
            },
            None => None,
        },
        None => None,
    }
}

/// Every troop of a `troops` list reads.
pub open spec fn troops_ok(v: Seq<char>, units: Seq<HireTerms>) -> bool {
    forall|i: int| 0 <= i < char_pieces(v, ',').len() ==> #[trigger] troop_piece(char_pieces(v, ',')[i], units) is Some
}

/// The troops of a `troops` list.
pub open spec fn troops_of(v: Seq<char>, units: Seq<HireTerms>) -> Seq<TroopSlot> {
    char_pieces(v, ',').map_values(|p: Seq<char>| troop_piece(p, units).unwrap())
}

/// What one property of an army section does (`v` with its references
/// resolved); `None` when the original stops on it.
pub open spec fn army_step(st: ArmyDraft, k: Seq<char>, v: Seq<char>, units: Seq<HireTerms>) -> Option<ArmyDraft> {
    if k == "id"@ {
        Some(ArmyDraft {
            id: match unsigned_value(v, usize::MAX as nat) {
                Some(n) => Some(n as usize),
                None => None,
            },
            ..st
        })
    } else if k == "name"@ {
        Some(ArmyDraft { name: v, ..st })
    } else if k == "mana"@ {
        match unsigned_value(v, u64::MAX as nat) {
            Some(n) => Some(ArmyDraft { mana: n as u64, ..st }),
            None => None,
        }
    } else if k == "gold"@ {
        match unsigned_value(v, u64::MAX as nat) {
            Some(n) => Some(ArmyDraft { gold: n as u64, ..st }),
            None => None,
        }
    } else if k == "inventory"@ {
        Some(ArmyDraft { inv: usize_numbers(v).map_values(|i: usize| Some(Item { index: i })), ..st })
    } else if k == "pos"@ {
        match first_cut(v, ' ', true) {
            Some(c) => match (
                unsigned_value(v.subrange(0, c), usize::MAX as nat),
                unsigned_value(v.subrange(c + 1, v.len() as int), usize::MAX as nat),
            ) {
                (Some(a), Some(b)) => Some(ArmyDraft { pos: (a as usize, b as usize), ..st }),
                _ => None,
            },
            None => None,
        }
    } else if k == "active"@ {
        Some(ArmyDraft { active: flag_value(v), ..st })
    } else if k == "troops"@ {
        if troops_ok(v, units) {
            Some(ArmyDraft { troops: troops_of(v, units), ..st })
        } else {
            None
        }
    } else if k == "player"@ {
        match unsigned_value(v, usize::MAX as nat) {
            Some(n) => Some(ArmyDraft { control: Control::Player(n as usize), ..st }),
            None => None,
        }
    } else if k == "main"@ {
        match first_cut(v, ' ', true) {
            Some(c) => match unsigned_value(v.subrange(0, c), usize::MAX as nat) {
                Some(num) => if num < units.len() {
                    Some(ArmyDraft { main: Some(fresh_troop(units, num as int)), ..st })
                } else {
                    None
                },
                None => None,
            },
            None => None,
        }
    } else {
        Some(st)
    }
}

/// An army section after its properties `e` are applied in order.
pub open spec fn army_fold(
    e: Entries,
    units: Seq<HireTerms>,
    texts: Map<Seq<char>, Map<Seq<char>, Seq<char>>>,
    main: Seq<char>,
    add: Seq<char>,
) -> Option<ArmyDraft>
    decreases e.len(),
{
    if e.len() == 0 {
        Some(draft_start())
    } else {
        match army_fold(e.drop_last(), units, texts, main, add) {
            Some(st) => army_step(st, e.last().0, processed(e.last().1, texts, main, add), units),
            None => None,
        }
    }
}

/// `a` is the army of a finished draft: its main troop and then its other
/// troops placed as `Army::new` places them, its gold, mana, name,
/// inventory, tile, activity and leader.
pub open spec fn is_army_of(a: Army, d: ArmyDraft) -> bool {
    let troops = seq![d.main.unwrap()] + d.troops;
    &&& a.grid_ok()
    &&& a.troops@ == troops_added_all(troops)
    &&& a.hitmap@ == layout(empty_hitmap(), a.troops@, 6)
    &&& a.inventory@ == padded(d.inv)
    &&& a.stats.gold == d.gold
    &&& a.stats.mana == d.mana
    &&& a.stats.army_name@ == d.name
    &&& a.pos == d.pos
    &&& a.active == d.active
    &&& a.control == d.control
    &&& a.building is None
    &&& !a.defeated
    &&& a.transport
    &&& a.path@.len() == 0
}

/// Every unit kind fits on the battle grid.
pub open spec fn units_fit(units: Seq<HireTerms>) -> bool {
    forall|u: int| 0 <= u < units.len() ==> (#[trigger] units[u]).size.1 <= MAX_LINES && units[u].size.0 <= MAX_TROOPS / MAX_LINES
}

/// A troop fits on the battle grid.
pub open spec fn slot_fits(t: TroopSlot) -> bool {
    t.size.1 <= MAX_LINES && t.size.0 <= MAX_TROOPS / MAX_LINES
}

/// Reads one troop of a `troops` list (see `troop_piece`).
fn read_troop(p: &String, units: &Vec<HireTerms>) -> (r: Option<TroopSlot>)
    requires
        units_fit(units@),
    ensures
        r == troop_piece(p@, units@),
        r matches Some(t) ==> slot_fits(t),
{
    match split_once_at(p.as_str(), ';', false) {
        None => None,
        Some((a, b)) => match parse_unsigned(a.as_str(), usize::MAX as u64) {
            Some(num) => {
                if (num as usize) < units.len() && reads_i64(&b) {
                    let size = units[num as usize].size;
                    assert(units@[num as int].size.1 <= MAX_LINES);
                    Some(TroopSlot { size, pos: UnitPos(0, 0), dead: false })
                } else {
                    None
                }
            },
            None => None,
        },
    }
}

/// Reads a `troops` list; `None` when a troop cannot be read.
fn read_troops(v: &String, units: &Vec<HireTerms>) -> (r: Option<Vec<TroopSlot>>)
    requires
        units_fit(units@),
    ensures
        match r {
            Some(t) => troops_ok(v@, units@) && t@ == troops_of(v@, units@) && forall|k: int|
                0 <= k < t@.len() ==> slot_fits(#[trigger] t@[k]),
            None => !troops_ok(v@, units@),
        },
{
    let pieces = split_char(v.as_str(), ',');
    let ghost ps = char_pieces(v@, ',');
    let mut out: Vec<TroopSlot> = Vec::new();
    let mut i: usize = 0;
    while i < pieces.len()
        invariant
            units_fit(units@),
            views(pieces@) == ps,
            ps == char_pieces(v@, ','),
            i <= pieces@.len(),
            forall|q: int| 0 <= q < i ==> #[trigger] troop_piece(ps[q], units@) is Some,
            out@ == troops_of(v@, units@).subrange(0, i as int),
            forall|k: int| 0 <= k < out@.len() ==> slot_fits(#[trigger] out@[k]),
        decreases pieces.len() - i,
    {
        assert(ps[i as int] == pieces@[i as int]@);
        match read_troop(&pieces[i], units) {
            None => return None,
            Some(t) => {
                out.push(t);
                assert(out@ =~= troops_of(v@, units@).subrange(0, i + 1));
            },
        }
        i = i + 1;
    }
    assert(troops_of(v@, units@).subrange(0, pieces@.len() as int) =~= troops_of(v@, units@));
    Some(out)
}

/// An army section can be read: every property reads (see `army_step`),
/// and it has a main troop and an id.
pub open spec fn army_ok(
    e: Entries,
    units: Seq<HireTerms>,
    texts: Map<Seq<char>, Map<Seq<char>, Seq<char>>>,
    main: Seq<char>,
    add: Seq<char>,
) -> bool {
    army_fold(e, units, texts, main, add) matches Some(d) && d.main is Some && d.id is Some
}

/// Once a property stops the reading, the whole section stops.
proof fn lemma_army_fold_stops(
    e: Entries,
    j: int,
    units: Seq<HireTerms>,
    texts: Map<Seq<char>, Map<Seq<char>, Seq<char>>>,
    main: Seq<char>,
    add: Seq<char>,
)
    requires
        0 <= j <= e.len(),
        army_fold(e.subrange(0, j), units, texts, main, add) is None,
    ensures
        army_fold(e, units, texts, main, add) is None,
    decreases e.len() - j,
{
    if j < e.len() {
        let pre = e.subrange(0, j + 1);
        assert(pre.drop_last() =~= e.subrange(0, j));
        lemma_army_fold_stops(e, j + 1, units, texts, main, add);
    } else {
        assert(e.subrange(0, j) =~= e);
    }
}

/// Reads the army an army section describes, with its id (see
/// `army_fold` and `is_army_of`); `None` when the section cannot be read.
pub fn read_army(props: &Section, units: &Vec<HireTerms>, locale: &Locale) -> (r: Option<(usize, Army)>)
    requires
        locale.wf(),
        units_fit(units@),
    ensures
        match r {
            Some((id, a)) => army_ok(section_entries(*props), units@, locale.texts(), locale.main_of(), locale.additional())
                && ({
                let d = army_fold(section_entries(*props), units@, locale.texts(), locale.main_of(), locale.additional()).unwrap();
                id == d.id.unwrap() && is_army_of(a, d)
            }),
            None => !army_ok(section_entries(*props), units@, locale.texts(), locale.main_of(), locale.additional()),
        },
{
    let ghost e = section_entries(*props);
    let ghost texts = locale.texts();
    let ghost lmain = locale.main_of();
    let ghost add = locale.additional();
    let pairs = section_pairs(props);
    let ghost pv = pair_views(pairs@);
    let mut id: Option<usize> = None;
    let mut name = String::new();
    let mut mana: u64 = 0;
    let mut gold: u64 = 0;
    let mut inv: Vec<Option<Item>> = Vec::new();
    let mut pos: (usize, usize) = (0, 0);
    let mut active = true;
    let mut troops: Vec<TroopSlot> = Vec::new();
    let mut control = Control::PC;
    let mut main: Option<TroopSlot> = None;
    let mut j: usize = 0;
    assert(pv.subrange(0, 0) =~= Seq::<(Seq<char>, Seq<char>)>::empty());
    assert(name@ =~= Seq::<char>::empty());
    while j < pairs.len()
        invariant
            locale.wf(),
            units_fit(units@),
            texts == locale.texts(),
            lmain == locale.main_of(),
            add == locale.additional(),
            pv == pair_views(pairs@),
            pv == e,
            e == section_entries(*props),
            j <= pairs@.len(),
            army_fold(pv.subrange(0, j as int), units@, texts, lmain, add) == Some(
                ArmyDraft {
                    id,
                    name: name@,
                    mana,
                    gold,
                    inv: inv@,
                    pos,
                    active,
                    troops: troops@,
                    control,
                    main,
                },
            ),
            forall|k: int| 0 <= k < troops@.len() ==> slot_fits(#[trigger] troops@[k]),
            main matches Some(t) ==> slot_fits(t),
        decreases pairs.len() - j,
    {
        let k = &pairs[j].0;
        let v = process_locale(pairs[j].1.as_str(), locale);
        assert(pv[j as int] == (k@, pairs@[j as int].1@));
        let ghost pre = pv.subrange(0, j + 1);
        assert(pre.drop_last() =~= pv.subrange(0, j as int));
        assert(pre.last() == pv[j as int]);
        if str_eq(k.as_str(), "id") {
            id = match parse_unsigned(v.as_str(), usize::MAX as u64) {
                Some(n) => Some(n as usize),
                None => None,
            };
        } else if str_eq(k.as_str(), "name") {
            name = v;
        } else if str_eq(k.as_str(), "mana") {
            match parse_unsigned(v.as_str(), u64::MAX) {
                Some(n) => {
                    mana = n;
                },
                None => { proof { lemma_army_fold_stops(pv, j + 1, units@, texts, lmain, add); } return None },
            }
        } else if str_eq(k.as_str(), "gold") {
            match parse_unsigned(v.as_str(), u64::MAX) {
                Some(n) => {
                    gold = n;
                },
                None => { proof { lemma_army_fold_stops(pv, j + 1, units@, texts, lmain, add); } return None },
            }
        } else if str_eq(k.as_str(), "inventory") {
            let nums = usize_list(v);
            let mut items: Vec<Option<Item>> = Vec::new();
            let mut q: usize = 0;
            while q < nums.len()
                invariant
                    q <= nums@.len(),
                    items@ == nums@.subrange(0, q as int).map_values(|i: usize| Some(Item { index: i })),
                decreases nums.len() - q,
            {
                items.push(Some(Item { index: nums[q] }));
                assert(items@ =~= nums@.subrange(0, q + 1).map_values(|i: usize| Some(Item { index: i })));
                q = q + 1;
            }
            assert(nums@.subrange(0, nums@.len() as int) =~= nums@);
            inv = items;
        } else if str_eq(k.as_str(), "pos") {
            match split_once_at(v.as_str(), ' ', true) {
                Some((a, b)) => match (parse_unsigned(a.as_str(), usize::MAX as u64), parse_unsigned(b.as_str(), usize::MAX as u64)) {
                    (Some(x), Some(y)) => {
                        pos = (x as usize, y as usize);
                    },
                    _ => { proof { lemma_army_fold_stops(pv, j + 1, units@, texts, lmain, add); } return None },
                },
                None => { proof { lemma_army_fold_stops(pv, j + 1, units@, texts, lmain, add); } return None },
            }
        } else if str_eq(k.as_str(), "active") {
            active = str_bool(v);
        } else if str_eq(k.as_str(), "troops") {
            match read_troops(&v, units) {
                Some(t) => {
                    troops = t;
                },
                None => { proof { lemma_army_fold_stops(pv, j + 1, units@, texts, lmain, add); } return None },
            }
        } else if str_eq(k.as_str(), "player") {
            match parse_unsigned(v.as_str(), usize::MAX as u64) {
                Some(n) => {
                    control = Control::Player(n as usize);
                },
                None => { proof { lemma_army_fold_stops(pv, j + 1, units@, texts, lmain, add); } return None },
            }
        } else if str_eq(k.as_str(), "main") {
            match split_once_at(v.as_str(), ' ', true) {
                Some((a, _)) => match parse_unsigned(a.as_str(), usize::MAX as u64) {
                    Some(num) => {
                        if (num as usize) < units.len() {
                            let size = units[num as usize].size;
                            assert(units@[num as int].size.1 <= MAX_LINES);
                            main = Some(TroopSlot { size, pos: UnitPos(0, 0), dead: false });
                        } else {
                            { proof { lemma_army_fold_stops(pv, j + 1, units@, texts, lmain, add); } return None };
                        }
                    },
                    None => { proof { lemma_army_fold_stops(pv, j + 1, units@, texts, lmain, add); } return None },
                },
                None => { proof { lemma_army_fold_stops(pv, j + 1, units@, texts, lmain, add); } return None },
            }
        }
        j = j + 1;
    }
    assert(pv.subrange(0, pairs@.len() as int) =~= pv);
    let the_id = match id {
        Some(i) => i,
        None => return None,
    };
    let first = match main {
        Some(t) => t,
        None => return None,
    };
    let mut all: Vec<TroopSlot> = Vec::new();
    all.push(first);
    let mut q: usize = 0;
    while q < troops.len()
        invariant
            q <= troops@.len(),
            all@ == seq![first] + troops@.subrange(0, q as int),
            slot_fits(first),
            forall|k: int| 0 <= k < troops@.len() ==> slot_fits(#[trigger] troops@[k]),
            forall|k: int| 0 <= k < all@.len() ==> slot_fits(#[trigger] all@[k]),
        decreases troops.len() - q,
    {
        all.push(troops[q]);
        assert(all@ =~= seq![first] + troops@.subrange(0, q + 1));
        q = q + 1;
    }
    assert(troops@.subrange(0, troops@.len() as int) =~= troops@);
    let ghost stats_name = name@;
    let army = Army::new(all, ArmyStats { gold, mana, army_name: name }, inv, pos, active, control);
    Some((the_id, army))
}

/// A number up to `usize::MAX` at the start of `s` followed by `,`, as
/// the codec reads a field of a tuple: `(rest after the comma, value)`.
pub open spec fn field_comma(s: Seq<char>) -> Option<(Seq<char>, usize)> {
    match number_parse(s) {
        Some((r, n)) => if n <= usize::MAX && starts_comma(r) {
            Some((r.drop_first(), n as usize))
        } else {
            None
        },
        None => None,
    }
}

/// One decoration `index,x,y,` at the start of `s`, as the codec of a
/// triple reads it (each field followed by `,`).
pub open spec fn deco_parse(s: Seq<char>) -> Option<(Seq<char>, MapDeco)> {
    match field_comma(s) {
        Some((r1, i)) => match field_comma(r1) {
            Some((r2, x)) => match field_comma(r2) {
                Some((r3, y)) => Some((r3, MapDeco { index: i, x, y })),
                None => None,
            },
            None => None,
        },
        None => None,
    }
}

/// The decorations of a `decomap` text as the list codec reads it: until
/// the text is used up, a decoration and then `,`; `None` when it fails.
pub open spec fn decos_parse(s: Seq<char>) -> Option<Seq<MapDeco>>
    decreases s.len(),
{
    if s.len() == 0 {
        Some(Seq::empty())
    } else {
        match deco_parse(s) {
            Some((r, d)) => if starts_comma(r) && r.len() <= s.len() {
                match decos_parse(r.drop_first()) {
                    Some(t) => Some(seq![d] + t),
                    None => None,
                }
            } else {
                None
            },
            None => None,
        }
    }
}

/// Reads a number and the comma after it (see `field_comma`).
fn read_field<'a>(s: &'a str) -> (r: Option<(&'a str, usize)>)
    ensures
        match field_comma(s@) {
            Some((rest, n)) => r matches Some((t, m)) && t@ == rest && m == n && is_tail(t@, s@),
            None => r is None,
        },
{
    match <usize as Ini>::eat(s, ()) {
        Ok((rest, n)) => match split_comma(rest) {
            Some(t) => {
                assert(t@ =~= s@.subrange(s@.len() - t@.len(), s@.len() as int)) by {
                    assert forall|q: int| 0 <= q < t@.len() implies t@[q] == s@[s@.len() - t@.len() + q] by {
                        assert(t@[q] == rest@[q + 1]);
                    }
                }
                Some((t, n))
            },
            None => None,
        },
        Err(_) => None,
    }
}

/// Reads a `decomap` text (see `decos_parse`).
pub fn read_decomap(v: &str) -> (r: Option<Vec<MapDeco>>)
    ensures
        match decos_parse(v@) {
            Some(ds) => r matches Some(d) && d@ == ds,
            None => r is None,
        },
{
    let mut cur = v;
    let mut out: Vec<MapDeco> = Vec::new();
    loop
        invariant
            decos_parse(v@) == match decos_parse(cur@) {
                Some(t) => Some(out@ + t),
                None => None::<Seq<MapDeco>>,
            },
        decreases cur@.len(),
    {
        if cur.unicode_len() == 0 {
            assert(out@ + Seq::<MapDeco>::empty() =~= out@);
            return Some(out);
        }
        let (r1, i) = match read_field(cur) {
            Some(p) => p,
            None => return None,
        };
        let (r2, x) = match read_field(r1) {
            Some(p) => p,
            None => return None,
        };
        let (r3, y) = match read_field(r2) {
            Some(p) => p,
            None => return None,
        };
        let d = MapDeco { index: i, x, y };
        let next = match split_comma(r3) {
            Some(t) => t,
            None => return None,
        };
        let ghost before = out@;
        out.push(d);
        proof {
            assert(deco_parse(cur@) == Some((r3@, d)));
            assert(r3@.len() <= cur@.len());
            match decos_parse(next@) {
                Some(t) => {
                    assert(before + (seq![d] + t) =~= out@ + t);
                },
                None => {},
            }
        }
        cur = next;
    }
}

/// Position of the first entry of `order` whose key is above `k`.
pub open spec fn first_greater(order: Seq<int>, keys: Seq<usize>, k: usize) -> int
    decreases order.len(),
{
    if order.len() == 0 {
        0
    } else if keys[order[0]] > k {
        0
    } else {
        1 + first_greater(order.drop_first(), keys, k)
    }
}

/// The order in which a stable sort by `keys` lists the first `n` items:
/// each item goes after every earlier one whose key is not above its own.
pub open spec fn sorted_order(keys: Seq<usize>, n: nat) -> Seq<int>
    decreases n,
{
    if n == 0 {
        Seq::empty()
    } else {
        let o = sorted_order(keys, (n - 1) as nat);
        o.insert(first_greater(o, keys, keys[n - 1]), n - 1)
    }
}

/// The keys of a list of keyed items.
pub open spec fn keys_of<T>(v: Seq<(usize, T)>) -> Seq<usize> {
    v.map_values(|p: (usize, T)| p.0)
}

proof fn lemma_first_greater(order: Seq<int>, keys: Seq<usize>, k: usize, p: int)
    requires
        0 <= p <= order.len(),
        forall|q: int| 0 <= q < p ==> keys[order[q]] <= k,
        p == order.len() || keys[order[p]] > k,
    ensures
        first_greater(order, keys, k) == p,
    decreases order.len(),
{
    if order.len() > 0 && p > 0 {
        lemma_first_greater(order.drop_first(), keys, k, p - 1);
    }
}

proof fn lemma_first_greater_facts(order: Seq<int>, keys: Seq<usize>, k: usize)
    ensures
        0 <= first_greater(order, keys, k) <= order.len(),
        forall|q: int| 0 <= q < first_greater(order, keys, k) ==> keys[#[trigger] order[q]] <= k,
        first_greater(order, keys, k) < order.len() ==> keys[order[first_greater(order, keys, k)]] > k,
    decreases order.len(),
{
    if order.len() > 0 && keys[order[0]] <= k {
        let t = order.drop_first();
        lemma_first_greater_facts(t, keys, k);
        assert forall|q: int| 0 <= q < first_greater(order, keys, k) implies keys[#[trigger] order[q]] <= k by {
            if q > 0 {
                assert(order[q] == t[q - 1]);
            }
        }
        if first_greater(order, keys, k) < order.len() {
            assert(order[first_greater(order, keys, k)] == t[first_greater(t, keys, k)]);
        }
    }
}

/// What a stable sort by `keys` does to the first `n` items: it lists
/// each of them exactly once, in non-decreasing order of key, and items
/// with equal keys in the order they came in.
pub proof fn lemma_sorted_order(keys: Seq<usize>, n: nat)
    requires
        n <= keys.len(),
    ensures
        sorted_order(keys, n).len() == n,
        forall|q: int| 0 <= q < n ==> 0 <= #[trigger] sorted_order(keys, n)[q] < n,
        forall|q: int, r: int|
            0 <= q < r < n ==> #[trigger] sorted_order(keys, n)[q] != #[trigger] sorted_order(keys, n)[r],
        forall|q: int, r: int|
            0 <= q < r < n ==> keys[#[trigger] sorted_order(keys, n)[q]] <= keys[#[trigger] sorted_order(keys, n)[r]],
        forall|q: int, r: int|
            0 <= q < r < n && keys[#[trigger] sorted_order(keys, n)[q]] == keys[#[trigger] sorted_order(keys, n)[r]]
                ==> sorted_order(keys, n)[q] < sorted_order(keys, n)[r],
    decreases n,
{
    if n > 0 {
        let m = (n - 1) as nat;
        lemma_sorted_order(keys, m);
        let o = sorted_order(keys, m);
        let k = keys[m as int];
        lemma_first_greater_facts(o, keys, k);
        let p = first_greater(o, keys, k);
        let no = o.insert(p, m as int);
        assert(sorted_order(keys, n) == no);
        assert forall|q: int| 0 <= q < n implies #[trigger] no[q] == (if q < p {
            o[q]
        } else if q == p {
            m as int
        } else {
            o[q - 1]
        }) by {}
        assert forall|q: int| p <= q < m implies keys[#[trigger] o[q]] > k by {
            if q > p {
                assert(keys[o[p]] <= keys[o[q]]);
            }
        }
        assert forall|q: int| 0 <= q < n implies 0 <= #[trigger] no[q] < n by {
            assert(no[q] == (if q < p { o[q] } else if q == p { m as int } else { o[q - 1] }));
        }
        assert forall|q: int, r: int| 0 <= q < r < n implies #[trigger] no[q] != #[trigger] no[r] && keys[no[q]] <= keys[no[r]]
            && (keys[no[q]] == keys[no[r]] ==> no[q] < no[r]) by {
            assert(no[q] == (if q < p { o[q] } else if q == p { m as int } else { o[q - 1] }));
            assert(no[r] == (if r < p { o[r] } else if r == p { m as int } else { o[r - 1] }));
            if q < p && r < p {
            } else if q < p && r == p {
            } else if q < p && r > p {
                assert(keys[o[r - 1]] > k);
                if q < r - 1 {
                    assert(o[q] != o[r - 1]);
                }
            } else if q == p {
                assert(keys[o[r - 1]] > k);
            } else {
                assert(q - 1 < r - 1);
            }
        }
    }
}

/// Sorts keyed items by key, keeping the order of equal keys (as
/// `sort_by` on the keys does).
pub fn stable_sort<T>(v: Vec<(usize, T)>) -> (r: Vec<(usize, T)>)
    ensures
        r@.len() == v@.len(),
        forall|q: int|
            0 <= q < r@.len() ==> #[trigger] r@[q] == v@[sorted_order(keys_of(v@), v@.len())[q]],
        forall|q: int|
            0 <= q < r@.len() ==> 0 <= #[trigger] sorted_order(keys_of(v@), v@.len())[q] < v@.len(),
        forall|q: int, q2: int| 0 <= q < q2 < r@.len() ==> (#[trigger] r@[q]).0 <= (#[trigger] r@[q2]).0,
{
    let ghost orig = v@;
    let ghost keys = keys_of(orig);
    let n = v.len();
    let mut rest = v;
    let mut out: Vec<(usize, T)> = Vec::new();
    let mut i: usize = 0;
    while i < n
        invariant
            n == orig.len(),
            keys == keys_of(orig),
            i <= n,
            rest@ == orig.subrange(i as int, n as int),
            out@.len() == i,
            sorted_order(keys, i as nat).len() == i,
            forall|q: int| 0 <= q < i ==> #[trigger] out@[q] == orig[sorted_order(keys, i as nat)[q]],
            forall|q: int| 0 <= q < i ==> 0 <= #[trigger] sorted_order(keys, i as nat)[q] < i,
        decreases n - i,
    {
        let x = rest.remove(0);
        assert(x == orig[i as int]);
        let k = x.0;
        assert(keys[i as int] == k);
        let ghost o = sorted_order(keys, i as nat);
        let mut p: usize = 0;
        while p < out.len() && out[p].0 <= k
            invariant
                p <= out@.len(),
                out@.len() == i,
                o.len() == i,
                keys == keys_of(orig),
                forall|q: int| 0 <= q < i ==> #[trigger] out@[q] == orig[o[q]],
                forall|q: int| 0 <= q < i ==> 0 <= #[trigger] o[q] < i,
                i < orig.len(),
                forall|q: int| 0 <= q < p ==> keys[o[q]] <= k,
            decreases out@.len() - p,
        {
            assert(out@[p as int] == orig[o[p as int]]);
            assert(keys[o[p as int]] == orig[o[p as int]].0);
            p = p + 1;
        }
        proof {
            if p < out@.len() {
                assert(out@[p as int] == orig[o[p as int]]);
                assert(keys[o[p as int]] == orig[o[p as int]].0);
            }
            lemma_first_greater(o, keys, k, p as int);
            assert(sorted_order(keys, (i + 1) as nat) == o.insert(p as int, i as int));
        }
        let ghost before = out@;
        out.insert(p, x);
        proof {
            let no = o.insert(p as int, i as int);
            assert forall|q: int| 0 <= q < i + 1 implies #[trigger] out@[q] == orig[no[q]] && 0 <= no[q] < i + 1 by {
                if q < p {
                    assert(out@[q] == before[q]);
                    assert(no[q] == o[q]);
                } else if q == p {
                } else {
                    assert(out@[q] == before[q - 1]);
                    assert(no[q] == o[q - 1]);
                }
            }
            assert(orig.subrange(i + 1, n as int) =~= rest@);
        }
        i = i + 1;
    }
    proof {
        lemma_sorted_order(keys, n as nat);
        let so = sorted_order(keys, n as nat);
        assert forall|q: int, q2: int| 0 <= q < q2 < out@.len() implies (#[trigger] out@[q]).0 <= (#[trigger] out@[q2]).0 by {
            assert(out@[q] == orig[so[q]]);
            assert(out@[q2] == orig[so[q2]]);
            assert(keys[so[q]] <= keys[so[q2]]);
        }
    }
    out
}

/// The items of a keyed list, in order.
pub fn unkeyed<T>(v: Vec<(usize, T)>) -> (r: Vec<T>)
    ensures
        r@.len() == v@.len(),
        forall|q: int| 0 <= q < r@.len() ==> #[trigger] r@[q] == v@[q].1,
{
    let ghost orig = v@;
    let n = v.len();
    let mut rest = v;
    let mut out: Vec<T> = Vec::new();
    let mut i: usize = 0;
    while i < n
        invariant
            n == orig.len(),
            i <= n,
            rest@ == orig.subrange(i as int, n as int),
            out@.len() == i,
            forall|q: int| 0 <= q < i ==> #[trigger] out@[q] == orig[q].1,
        decreases n - i,
    {
        let x = rest.remove(0);
        assert(x == orig[i as int]);
        out.push(x.1);
        assert(orig.subrange(i + 1, n as int) =~= rest@);
        i = i + 1;
    }
    out
}

/// A piece of digits reads as a `usize`.
pub open spec fn tile_piece_ok(p: Seq<char>) -> bool {
    piece_value(p) matches Some(x) && x <= usize::MAX
}

/// Every number of a `tilemap` text, cut at non-digits, reads as a
/// `usize` (no piece is empty).
pub open spec fn tiles_ok(v: Seq<char>) -> bool {
    forall|i: int| 0 <= i < digit_runs(v).len() ==> #[trigger] tile_piece_ok(digit_runs(v)[i])
}

/// Reads a `tilemap` text; `None` when a number does not read.
fn read_tiles(v: &String) -> (r: Option<Vec<usize>>)
    ensures
        match r {
            Some(t) => tiles_ok(v@) && t@ == usize_numbers(v@),
            None => !tiles_ok(v@),
        },
{
    let chars = chars_of(v.as_str());
    let pieces = split_runs(&chars);
    proof {
        lemma_runs_digits(chars@);
    }
    let ghost ps = digit_runs(v@);
    let mut out: Vec<usize> = Vec::new();
    let mut i: usize = 0;
    while i < pieces.len()
        invariant
            chars@ == v@,
            ps == digit_runs(v@),
            pieces@.len() == ps.len(),
            forall|q: int| 0 <= q < pieces@.len() ==> #[trigger] pieces@[q]@ == ps[q],
            forall|q: int, j: int| 0 <= q < ps.len() && 0 <= j < ps[q].len() ==> is_digit(#[trigger] ps[q][j]),
            i <= pieces@.len(),
            forall|q: int| 0 <= q < i ==> #[trigger] tile_piece_ok(ps[q]),
            out@ == usize_numbers(v@).subrange(0, i as int),
        decreases pieces.len() - i,
    {
        assert(pieces@[i as int]@ == ps[i as int]);
        assert forall|j: int| 0 <= j < pieces@[i as int]@.len() implies is_digit(#[trigger] pieces@[i as int]@[j]) by {
            assert(ps[i as int][j] == pieces@[i as int]@[j]);
        }
        match read_piece(&pieces[i]) {
            Some(x) => {
                if x > usize::MAX as u64 {
                    assert(!tile_piece_ok(ps[i as int]));
                    return None;
                }
                out.push(x as usize);
                assert(out@ =~= usize_numbers(v@).subrange(0, i + 1));
            },
            None => {
                assert(!tile_piece_ok(ps[i as int]));
                return None;
            },
        }
        i = i + 1;
    }
    assert(usize_numbers(v@).subrange(0, pieces@.len() as int) =~= usize_numbers(v@));
    Some(out)
}

/// The tile map (if any yet) and decorations read so far.
pub type TilesState = (Option<Seq<usize>>, Seq<MapDeco>);

/// What the properties `e` of a `Tilemaps` section do: `tilemap` sets the
/// tiles, `decomap` the decorations (the last one of each counts); `None`
/// when one does not read.
pub open spec fn tiles_props(st: TilesState, e: Entries) -> Option<TilesState>
    decreases e.len(),
{
    if e.len() == 0 {
        Some(st)
    } else {
        match tiles_props(st, e.drop_last()) {
            None => None,
            Some(p) => {
                let (k, v) = e.last();
                if k == "tilemap"@ {
                    if tiles_ok(v) {
                        Some((Some(usize_numbers(v)), p.1))
                    } else {
                        None
                    }
                } else if k == "decomap"@ {
                    match decos_parse(v) {
                        Some(d) => Some((p.0, d)),
                        None => None,
                    }
                } else {
                    Some(p)
                }
            },
        }
    }
}

/// `s` begins with `pre`.
pub open spec fn starts_with(s: Seq<char>, pre: Seq<char>) -> bool {
    pre.len() <= s.len() && s.subrange(0, pre.len() as int) == pre
}

/// How a section of the map data is read: 0 for `Tilemaps`, 1 for a name
/// beginning with `Army`, 2 for one beginning with `Building`, 3 (not at
/// all) for any other.
pub open spec fn section_kind(name: Seq<char>) -> int {
    if name == "Tilemaps"@ {
        0
    } else if starts_with(name, "Army"@) {
        1
    } else if starts_with(name, "Building"@) {
        2
    } else {
        3
    }
}

/// The tiles and decorations after every `Tilemaps` section.
pub open spec fn tiles_secs(secs: Seq<(Seq<char>, Entries)>) -> Option<TilesState>
    decreases secs.len(),
{
    if secs.len() == 0 {
        Some((None, Seq::empty()))
    } else {
        match tiles_secs(secs.drop_last()) {
            None => None,
            Some(p) => if section_kind(secs.last().0) == 0 {
                tiles_props(p, secs.last().1)
            } else {
                Some(p)
            },
        }
    }
}

/// Positions of the sections of kind `kind`, in order.
pub open spec fn kind_index(secs: Seq<(Seq<char>, Entries)>, kind: int) -> Seq<int>
    decreases secs.len(),
{
    if secs.len() == 0 {
        Seq::empty()
    } else if section_kind(secs.last().0) == kind {
        kind_index(secs.drop_last(), kind).push(secs.len() - 1)
    } else {
        kind_index(secs.drop_last(), kind)
    }
}

/// The map data can be read: it has a tile map, every `Tilemaps`
/// property reads, and every army and building section reads.
pub open spec fn mapdata_ok(
    secs: Seq<(Seq<char>, Entries)>,
    objects: Seq<ObjectInfo>,
    units: Seq<HireTerms>,
    texts: Map<Seq<char>, Map<Seq<char>, Seq<char>>>,
    main: Seq<char>,
    add: Seq<char>,
) -> bool {
    &&& tiles_secs(secs) matches Some((Some(_), _))
    &&& forall|i: int| 0 <= i < secs.len() && section_kind(#[trigger] secs[i].0) == 1 ==> army_ok(secs[i].1, units, texts, main, add)
    &&& forall|i: int| 0 <= i < secs.len() && section_kind(#[trigger] secs[i].0) == 2 ==> building_ok(secs[i].1, objects, texts, main, add)
}

/// The id of a building section: its `id` when it reads, else 0.
pub open spec fn building_key(e: Entries) -> usize {
    num_or(e, "id"@, usize::MAX as nat, 0) as usize
}

/// The view of an optional list.
pub open spec fn opt_seq(o: Option<Vec<usize>>) -> Option<Seq<usize>> {
    match o {
        Some(t) => Some(t@),
        None => None,
    }
}

/// Whether `s` begins with `pre`.
fn begins_with(s: &str, pre: &str) -> (r: bool)
    ensures
        r == starts_with(s@, pre@),
{
    let a = chars_of(s);
    let b = chars_of(pre);
    if b.len() > a.len() {
        return false;
    }
    let mut i: usize = 0;
    while i < b.len()
        invariant
            a@ == s@,
            b@ == pre@,
            b@.len() <= a@.len(),
            i <= b@.len(),
            forall|q: int| 0 <= q < i ==> a@[q] == b@[q],
        decreases b.len() - i,
    {
        if a[i] != b[i] {
            assert(s@.subrange(0, pre@.len() as int)[i as int] != pre@[i as int]);
            return false;
        }
        i = i + 1;
    }
    assert(s@.subrange(0, pre@.len() as int) =~= pre@);
    true
}

/// How a section is read (see `section_kind`).
fn kind_of_section(name: &String) -> (r: u8)
    ensures
        r == section_kind(name@),
{
    if str_eq(name.as_str(), "Tilemaps") {
        0
    } else if begins_with(name.as_str(), "Army") {
        1
    } else if begins_with(name.as_str(), "Building") {
        2
    } else {
        3
    }
}

proof fn lemma_kind_index_bounds(secs: Seq<(Seq<char>, Entries)>, kind: int)
    ensures
        forall|q: int| 0 <= q < kind_index(secs, kind).len() ==> 0 <= #[trigger] kind_index(secs, kind)[q] < secs.len(),
    decreases secs.len(),
{
    if secs.len() > 0 {
        lemma_kind_index_bounds(secs.drop_last(), kind);
        let pre = kind_index(secs.drop_last(), kind);
        assert forall|q: int| 0 <= q < kind_index(secs, kind).len() implies 0 <= #[trigger] kind_index(secs, kind)[q] < secs.len() by {
            if q < pre.len() {
                assert(kind_index(secs, kind)[q] == pre[q]);
            }
        }
    }
}

proof fn lemma_tiles_props_stops(st: TilesState, e: Entries, j: int)
    requires
        0 <= j <= e.len(),
        tiles_props(st, e.subrange(0, j)) is None,
    ensures
        tiles_props(st, e) is None,
    decreases e.len() - j,
{
    if j < e.len() {
        assert(e.subrange(0, j + 1).drop_last() =~= e.subrange(0, j));
        lemma_tiles_props_stops(st, e, j + 1);
    } else {
        assert(e.subrange(0, j) =~= e);
    }
}

proof fn lemma_tiles_secs_stops(secs: Seq<(Seq<char>, Entries)>, i: int)
    requires
        0 <= i <= secs.len(),
        tiles_secs(secs.subrange(0, i)) is None,
    ensures
        tiles_secs(secs) is None,
    decreases secs.len() - i,
{
    if i < secs.len() {
        assert(secs.subrange(0, i + 1).drop_last() =~= secs.subrange(0, i));
        lemma_tiles_secs_stops(secs, i + 1);
    } else {
        assert(secs.subrange(0, i) =~= secs);
    }
}

/// The keys by which the buildings are sorted.
pub open spec fn building_keys(secs: Seq<(Seq<char>, Entries)>) -> Seq<usize> {
    kind_index(secs, 2).map_values(|j: int| building_key(secs[j].1))
}

/// The ids by which the armies are sorted.
pub open spec fn army_keys(
    secs: Seq<(Seq<char>, Entries)>,
    units: Seq<HireTerms>,
    texts: Map<Seq<char>, Map<Seq<char>, Seq<char>>>,
    main: Seq<char>,
    add: Seq<char>,
) -> Seq<usize> {
    kind_index(secs, 1).map_values(|j: int| army_fold(secs[j].1, units, texts, main, add).unwrap().id.unwrap())
}

/// `m` is the map data of the sections `secs`: the last tile map and
/// decorations of the `Tilemaps` sections; the buildings and the armies of
/// their sections, each list sorted by id with equal ids in section order.
pub open spec fn is_mapdata_of(
    m: (TileMap<usize>, Vec<MapDeco>, Vec<MapBuildingdata>, Vec<Army>),
    secs: Seq<(Seq<char>, Entries)>,
    objects: Seq<ObjectInfo>,
    units: Seq<HireTerms>,
    texts: Map<Seq<char>, Map<Seq<char>, Seq<char>>>,
    main: Seq<char>,
    add: Seq<char>,
) -> bool {
    let t = tiles_secs(secs).unwrap();
    let bi = kind_index(secs, 2);
    let bo = sorted_order(building_keys(secs), bi.len());
    let ai = kind_index(secs, 1);
    let ao = sorted_order(army_keys(secs, units, texts, main, add), ai.len());
    &&& m.0.inner@ == t.0.unwrap()
    &&& is_isqrt(m.0.inner@.len(), m.0.size as nat)
    &&& m.1@ == t.1
    &&& m.2@.len() == bi.len()
    &&& forall|q: int|
        0 <= q < m.2@.len() ==> is_building_of(#[trigger] m.2@[q], secs[bi[bo[q]]].1, objects, texts, main, add)
    &&& m.3@.len() == ai.len()
    &&& forall|q: int|
        0 <= q < m.3@.len() ==> is_army_of(#[trigger] m.3@[q], army_fold(secs[ai[ao[q]]].1, units, texts, main, add).unwrap())
}

/// Reads the map data document `ini_doc`: the tile map and decorations,
/// and the buildings and armies sorted by id (see `is_mapdata_of`);
/// `None` when the document cannot be read (a malformed section header,
/// or see `mapdata_ok`). References in army values and in building offers
/// and events are resolved against `locale`; `objects` gives the object
/// descriptions, `units` each unit kind's footprint.
pub fn parse_mapdata(ini_doc: &str, locale: &Locale, objects: &[ObjectInfo], units: &Vec<HireTerms>) -> (r: Option<
    (TileMap<usize>, Vec<MapDeco>, Vec<MapBuildingdata>, Vec<Army>),
>)
    requires
        locale.wf(),
        units_fit(units@),
    ensures
        r is Some <==> !has_error(ini_items(ini_doc@)) && mapdata_ok(
            sections_of(ini_items(ini_doc@), RawValues),
            objects@,
            units@,
            locale.texts(),
            locale.main_of(),
            locale.additional(),
        ),
        r matches Some(m) ==> is_mapdata_of(
            m,
            sections_of(ini_items(ini_doc@), RawValues),
            objects@,
            units@,
            locale.texts(),
            locale.main_of(),
            locale.additional(),
        ),
{
    if ini_has_error(ini_doc) {
        return None;
    }
    let sections = parse_for_sections(ini_doc);
    let ghost sv = sections_view(sections@);
    let ghost texts = locale.texts();
    let ghost lmain = locale.main_of();
    let ghost add = locale.additional();
    let mut tm: Option<Vec<usize>> = None;
    let mut decos: Vec<MapDeco> = Vec::new();
    let mut bpairs: Vec<(usize, MapBuildingdata)> = Vec::new();
    let mut apairs: Vec<(usize, Army)> = Vec::new();
    let mut i: usize = 0;
    assert(sv.subrange(0, 0) =~= Seq::<(Seq<char>, Entries)>::empty());
    while i < sections.len()
        invariant
            locale.wf(),
            units_fit(units@),
            texts == locale.texts(),
            lmain == locale.main_of(),
            add == locale.additional(),
            sv == sections_view(sections@),
            sv == sections_of(ini_items(ini_doc@), RawValues),
            !has_error(ini_items(ini_doc@)),
            i <= sections@.len(),
            tiles_secs(sv.subrange(0, i as int)) == Some(
                (
                    opt_seq(tm),
                    decos@,
                ),
            ),
            bpairs@.len() == kind_index(sv.subrange(0, i as int), 2).len(),
            forall|q: int|
                0 <= q < bpairs@.len() ==> 0 <= #[trigger] kind_index(sv.subrange(0, i as int), 2)[q] < i,
            forall|q: int|
                0 <= q < bpairs@.len() ==> (#[trigger] bpairs@[q]).0 == building_key(
                    sv[kind_index(sv.subrange(0, i as int), 2)[q]].1,
                ) && is_building_of(bpairs@[q].1, sv[kind_index(sv.subrange(0, i as int), 2)[q]].1, objects@, texts, lmain, add),
            apairs@.len() == kind_index(sv.subrange(0, i as int), 1).len(),
            forall|q: int|
                0 <= q < apairs@.len() ==> 0 <= #[trigger] kind_index(sv.subrange(0, i as int), 1)[q] < i,
            forall|q: int|
                0 <= q < apairs@.len() ==> (#[trigger] apairs@[q]).0 == army_fold(
                    sv[kind_index(sv.subrange(0, i as int), 1)[q]].1,
                    units@,
                    texts,
                    lmain,
                    add,
                ).unwrap().id.unwrap() && is_army_of(
                    apairs@[q].1,
                    army_fold(sv[kind_index(sv.subrange(0, i as int), 1)[q]].1, units@, texts, lmain, add).unwrap(),
                ),
            forall|k: int| 0 <= k < i && section_kind(#[trigger] sv[k].0) == 1 ==> army_ok(sv[k].1, units@, texts, lmain, add),
            forall|k: int| 0 <= k < i && section_kind(#[trigger] sv[k].0) == 2 ==> building_ok(sv[k].1, objects@, texts, lmain, add),
        decreases sections.len() - i,
    {
        let name = &sections[i].0;
        let props = &sections[i].1;
        assert(sv[i as int] == (name@, section_entries(*props)));
        let ghost sub = sv.subrange(0, i + 1);
        assert(sub.drop_last() =~= sv.subrange(0, i as int));
        assert(sub.last() == sv[i as int]);
        proof {
            assert forall|q: int| 0 <= q < i implies sub[q] == sv[q] by {}
        }
        let kind = kind_of_section(name);
        if kind == 0 {
            let pairs = section_pairs(props);
            let ghost pv = pair_views(pairs@);
            let ghost start = (opt_seq(tm), decos@);
            let mut j: usize = 0;
            assert(pv.subrange(0, 0) =~= Seq::<(Seq<char>, Seq<char>)>::empty());
            while j < pairs.len()
                invariant
                    pv == pair_views(pairs@),
                    i < sv.len(),
                    sv == sections_view(sections@),
                    sv == sections_of(ini_items(ini_doc@), RawValues),
                    section_kind(sv[i as int].0) == 0,
                    tiles_secs(sv.subrange(0, i as int)) == Some(start),
                    sv.subrange(0, i + 1).drop_last() == sv.subrange(0, i as int),
                    sv.subrange(0, i + 1).last() == sv[i as int],
                    pv == sv[i as int].1,
                    j <= pairs@.len(),
                    tiles_props(start, pv.subrange(0, j as int)) == Some(
                        (
                            opt_seq(tm),
                            decos@,
                        ),
                    ),
                decreases pairs.len() - j,
            {
                let k = &pairs[j].0;
                let v = &pairs[j].1;
                assert(pv[j as int] == (k@, v@));
                assert(pv.subrange(0, j + 1).drop_last() =~= pv.subrange(0, j as int));
                if str_eq(k.as_str(), "tilemap") {
                    match read_tiles(v) {
                        Some(t) => {
                            tm = Some(t);
                        },
                        None => {
                            proof {
                                lemma_tiles_props_stops(start, pv, j + 1);
                                lemma_tiles_secs_stops(sv, i + 1);
                            }
                            return None;
                        },
                    }
                } else if str_eq(k.as_str(), "decomap") {
                    match read_decomap(v.as_str()) {
                        Some(d) => {
                            decos = d;
                        },
                        None => {
                            proof {
                                lemma_tiles_props_stops(start, pv, j + 1);
                                lemma_tiles_secs_stops(sv, i + 1);
                            }
                            return None;
                        },
                    }
                }
                j = j + 1;
            }
            assert(pv.subrange(0, pairs@.len() as int) =~= pv);
        } else if kind == 1 {
            match read_army(props, units, locale) {
                Some((id, a)) => {
                    apairs.push((id, a));
                },
                None => {
                    assert(section_kind(sv[i as int].0) == 1);
                    return None;
                },
            }
        } else if kind == 2 {
            match read_building(props, objects, locale) {
                Some(b) => {
                    let key = get_num_or(props, "id", usize::MAX as u64, 0) as usize;
                    bpairs.push((key, b));
                },
                None => {
                    assert(section_kind(sv[i as int].0) == 2);
                    return None;
                },
            }
        }
        i = i + 1;
    }
    assert(sv.subrange(0, sections@.len() as int) =~= sv);
    let tiles = match tm {
        Some(t) => t,
        None => return None,
    };
    let ghost bp = bpairs@;
    let ghost ap = apairs@;
    proof {
        assert(keys_of(bp) =~= building_keys(sv));
        assert(keys_of(ap) =~= army_keys(sv, units@, texts, lmain, add));
    }
    let sorted_b = stable_sort(bpairs);
    let sorted_a = stable_sort(apairs);
    let buildings = unkeyed(sorted_b);
    let armies = unkeyed(sorted_a);
    let m = (TileMap::new(tiles), decos, buildings, armies);
    proof {
        let bi = kind_index(sv, 2);
        let bo = sorted_order(building_keys(sv), bi.len());
        assert forall|q: int| 0 <= q < m.2@.len() implies is_building_of(#[trigger] m.2@[q], sv[bi[bo[q]]].1, objects@, texts, lmain, add) by {
            assert(m.2@[q] == bp[bo[q]].1);
        }
        let ai = kind_index(sv, 1);
        let ao = sorted_order(army_keys(sv, units@, texts, lmain, add), ai.len());
        assert forall|q: int| 0 <= q < m.3@.len() implies is_army_of(#[trigger] m.3@[q], army_fold(sv[ai[ao[q]]].1, units@, texts, lmain, add).unwrap()) by {
            assert(m.3@[q] == ap[ao[q]].1);
        }
    }
    Some(m)
}

} // verus!
