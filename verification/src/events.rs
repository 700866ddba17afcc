//! Conditions of map events: comparisons of a counter with a bound, and
//! where an event takes place, with their ini codecs.
use crate::advini::{digit_run, number_parse, parse_error, string_parse, Ini, IniParseError};
use crate::text::{chars_of, owned, str_eq};
use vstd::prelude::*;

verus! {

/// A comparison of a counter with a bound: less, greater, equal.
#[derive(Clone, Copy, Debug, PartialEq, Eq, Structural)]
pub enum Cmp {
    L(u64),
    G(u64),
    E(u64),
}

impl Cmp {
    /// Whether `v` stands in this relation to the bound.
    pub fn check(&self, v: u64) -> (r: bool)
        ensures
            r == match *self {
                Cmp::L(b) => v < b,
                Cmp::G(b) => v > b,
                Cmp::E(b) => v == b,
            },
    {
        match self {
            Cmp::L(cmp_v) => v < *cmp_v,
            Cmp::G(cmp_v) => v > *cmp_v,
            Cmp::E(cmp_v) => v == *cmp_v,
        }
    }
}

/// The comparison read at the start of `s`: a sign `=`, `>` or `<`
/// followed by at least one ASCII digit, as `(rest, comparison)`. The bound
/// read is always 0: the number parsed is the sign itself, which is not a
/// number.
pub open spec fn comparison_parse(s: Seq<char>) -> Option<(Seq<char>, Cmp)> {
    if s.len() > 0 && (s[0] == '=' || s[0] == '>' || s[0] == '<') {
        let d = digit_run(s.drop_first());
        if d == 0 {
            None
        } else {
            Some(
                (
                    s.subrange(1 + d as int, s.len() as int),
                    if s[0] == '=' {
                        Cmp::E(0)
                    } else if s[0] == '>' {
                        Cmp::G(0)
                    } else {
                        Cmp::L(0)
                    },
                ),
            )
        }
    } else {
        None
    }
}

/// The text written for a comparison: its sign, then its bound.
pub open spec fn comparison_shown(c: Cmp) -> Seq<char> {
    match c {
        Cmp::E(v) => seq!['='] + <u64 as Ini>::shows(&v, ()),
        Cmp::G(v) => seq!['>'] + <u64 as Ini>::shows(&v, ()),
        Cmp::L(v) => seq!['<'] + <u64 as Ini>::shows(&v, ()),
    }
}

impl Ini for Cmp {
    type Arg = ();

    open spec fn eat_ok(input: Seq<char>, arg: ()) -> bool {
        true
    }

    open spec fn eats(input: Seq<char>, arg: (), rest: Seq<char>, v: Cmp) -> bool {
        comparison_parse(input) == Some((rest, v))
    }

    open spec fn refuses(input: Seq<char>, arg: (), e: IniParseError) -> bool {
        comparison_parse(input) is None && e is Error
    }

    open spec fn shows(&self, arg: ()) -> Seq<char> {
        comparison_shown(*self)
    }

    fn eat<'a>(input: &'a str, additional: ()) -> (r: Result<(&'a str, Cmp), IniParseError>) {
        let v = chars_of(input);
        let n = v.len();
        if n == 0 || !(v[0] == '=' || v[0] == '>' || v[0] == '<') {
            return Err(parse_error(input, "Tag"));
        }
        let ghost tail = input@.drop_first();
        assert(tail.subrange(0, tail.len() as int) =~= tail);
        let mut d: usize = 0;
        while 1 + d < n && '0' <= v[1 + d] && v[1 + d] <= '9'
            invariant
                n == v@.len(),
                v@ == input@,
                n > 0,
                tail == input@.drop_first(),
                1 + d <= n,
                digit_run(tail) == d + digit_run(tail.subrange(d as int, tail.len() as int)),
            decreases n - 1 - d,
        {
            proof {
                let t = tail.subrange(d as int, tail.len() as int);
                assert(t.drop_first() =~= tail.subrange(d + 1, tail.len() as int));
                assert(t[0] == v@[1 + d]);
            }
            d = d + 1;
        }
        proof {
            let t = tail.subrange(d as int, tail.len() as int);
            if 1 + d < n {
                assert(t[0] == v@[1 + d]);
            }
            assert(digit_run(t) == 0);
        }
        if d == 0 {
            return Err(parse_error(input.substring_char(1, n), "Digit"));
        }
        let c = if v[0] == '=' {
            Cmp::E(0)
        } else if v[0] == '>' {
            Cmp::G(0)
        } else {
            Cmp::L(0)
        };
        let rest = input.substring_char(1 + d, n);
        proof {
            assert(rest@ =~= input@.subrange(input@.len() - rest@.len(), input@.len() as int));
        }
        Ok((rest, c))
    }

    fn vomit(&self, additional: ()) -> (r: String) {
        let (sign, v) = match self {
            Cmp::E(v) => ('=', *v),
            Cmp::G(v) => ('>', *v),
            Cmp::L(v) => ('<', *v),
        };
        let mut s = String::new();
        crate::text::push_char(&mut s, sign);
        let t = v.vomit(());
        s.append(t.as_str());
        assert(s@ =~= comparison_shown(*self));
        s
    }
}

/// Where an event takes place.
#[derive(Clone, Copy, Debug, PartialEq, Eq, Structural)]
pub enum Location {
    Global,
    Local,
    Place,
    Quest,
    Talks,
}

impl Default for Location {
    fn default() -> (r: Self)
        ensures
            r == Location::Global,
    {
        Location::Global
    }
}

/// The place read at the start of `s`, as `(rest, place)`: a name read as a
/// string value; `Local` and `Talks` are followed by a number, which is
/// read and dropped. `Place` and other names are refused.
pub open spec fn location_parse(s: Seq<char>) -> Option<(Seq<char>, Location)> {
    let (rest, name) = string_parse(s);
    if name == "Global"@ {
        Some((rest, Location::Global))
    } else if name == "Quest"@ {
        Some((rest, Location::Quest))
    } else if name == "Local"@ || name == "Talks"@ {
        match number_parse(rest) {
            Some((r2, n)) => if n <= usize::MAX {
                Some((r2, if name == "Local"@ { Location::Local } else { Location::Talks }))
            } else {
                None
            },
            None => None,
        }
    } else {
        None
    }
}

/// The name written for a place.
pub open spec fn location_name(l: Location) -> Seq<char> {
    match l {
        Location::Global => "Global"@,
        Location::Place => "Place"@,
        Location::Local => "Local"@,
        Location::Talks => "Talks"@,
        Location::Quest => "Quest"@,
    }
}

impl Ini for Location {
    type Arg = ();

    open spec fn eat_ok(input: Seq<char>, arg: ()) -> bool {
        true
    }

    open spec fn eats(input: Seq<char>, arg: (), rest: Seq<char>, v: Location) -> bool {
        location_parse(input) == Some((rest, v))
    }

    open spec fn refuses(input: Seq<char>, arg: (), e: IniParseError) -> bool {
        location_parse(input) is None
    }

    open spec fn shows(&self, arg: ()) -> Seq<char> {
        location_name(*self)
    }

    fn eat<'a>(input: &'a str, additional: ()) -> (r: Result<(&'a str, Location), IniParseError>) {
        let (input2, res) = match <String as Ini>::eat(input, ()) {
            Ok(v) => v,
            Err(err) => return Err(err),
        };
        if str_eq(res.as_str(), "Global") {
            return Ok((input2, Location::Global));
        }
        if str_eq(res.as_str(), "Quest") {
            return Ok((input2, Location::Quest));
        }
        let local = str_eq(res.as_str(), "Local");
        if local || str_eq(res.as_str(), "Talks") {
            proof {
                reveal_strlit("Local");
                reveal_strlit("Talks");
            }
            return match <usize as Ini>::eat(input2, ()) {
                Ok(v) => {
                    proof {
                        crate::advini::lemma_tail_trans(v.0@, input2@, input@);
                    }
                    Ok((v.0, if local { Location::Local } else { Location::Talks }))
                },
                Err(err) => Err(err),
            };
        }
        Err(IniParseError::Error(owned("netu")))
    }

    fn vomit(&self, additional: ()) -> (r: String) {
        match self {
            Location::Global => owned("Global"),
            Location::Place => owned("Place"),
            Location::Local => owned("Local"),
            Location::Talks => owned("Talks"),
            Location::Quest => owned("Quest"),
        }
    }
}

/// A bound from `u64::MAX - 32767` on, as the negative 16-bit number it
/// was stored from.
pub open spec fn negative_bound(x: u64) -> i16 {
    (x - 18446744073709551616) as i16
}

/// A bound up to 32767 as a 16-bit number.
pub open spec fn small_bound(x: u64) -> i16 {
    x as i16
}

fn negative_bound_of(x: u64) -> (r: i16)
    requires
        x >= u64::MAX - 32767,
    ensures
        r == negative_bound(x),
{
    let y = x - (u64::MAX - 32767);
    (y as i16) - 32767 - 1
}

fn small_bound_of(x: u64) -> (r: i16)
    requires
        x <= 32767,
    ensures
        r == small_bound(x),
{
    x as i16
}

/// The bound of a comparison as stored in a map file: 0 without one; a
/// "greater than" bound read back from a negative 16-bit number as that
/// number; another "greater than" bound if it fits in 16 bits; 0 for the
/// other comparisons.
pub fn cmp_to_i16(v: &Option<Cmp>) -> (r: Option<i16>)
    ensures
        r == match *v {
            None => Some(0i16),
            Some(Cmp::G(x)) => if x >= u64::MAX - 32767 {
                Some(negative_bound(x))
            } else if x <= 32767 {
                Some(small_bound(x))
            } else {
                None
            },
            _ => Some(0i16),
        },
{
    match v {
        None => Some(0),
        Some(Cmp::G(x)) => {
            if *x >= u64::MAX - 32767 {
                Some(negative_bound_of(*x))
            } else if *x <= 32767 {
                Some(small_bound_of(*x))
            } else {
                None
            }
        },
        _ => Some(0),
    }
}

} // verus!
