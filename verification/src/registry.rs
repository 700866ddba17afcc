//! Registries of game content (units, items, ...): entries get consecutive
//! ids in registration order and can be found by name.
use crate::room::names;
use crate::text::{owned, str_eq};
use vstd::prelude::*;
use vstd::std_specs::cmp::PartialEqSpec;

verus! {

/// Index of the last occurrence of `x` in `s`.
pub open spec fn last_index(s: Seq<Seq<char>>, x: Seq<char>) -> Option<usize>
    decreases s.len(),
{
    if s.len() == 0 {
        None
    } else if s.last() == x {
        Some((s.len() - 1) as usize)
    } else {
        last_index(s.drop_last(), x)
    }
}

/// Entries of one kind, with the name each was registered under.
#[derive(Debug)]
pub struct Registry<T> {
    pub inner: Vec<T>,
    /// Name of each entry, by id.
    names: Vec<String>,
}

impl<T> Registry<T> {
    /// The entries, by id.
    pub closed spec fn entries(&self) -> Seq<T> {
        self.inner@
    }

    /// The names the entries were registered under, by id.
    pub closed spec fn names_of(&self) -> Seq<Seq<char>> {
        names(self.names@)
    }

    /// Every entry has a name.
    pub closed spec fn wf(&self) -> bool {
        self.names@.len() == self.inner@.len()
    }
}

impl<T: PartialEq> Registry<T> {
    pub fn new() -> (r: Self)
        ensures
            r.wf(),
            r.entries().len() == 0,
            r.names_of().len() == 0,
            r.names_of().len() == r.entries().len(),
    {
        Registry { inner: Vec::new(), names: Vec::new() }
    }

    /// The entry of id `id`.
    pub fn get_entry(&self, id: usize) -> (r: &T)
        requires
            id < self.entries().len(),
        ensures
            *r == self.entries()[id as int],
    {
        &self.inner[id]
    }

    /// The id last registered under `str_id`.
    pub fn str_to_id(&self, str_id: &String) -> (r: Option<usize>)
        requires
            self.wf(),
        ensures
            r == last_index(self.names_of(), str_id@),
    {
        let mut i = self.names.len();
        assert(names(self.names@).subrange(0, i as int) =~= names(self.names@));
        while i > 0
            invariant
                i <= self.names@.len(),
                last_index(names(self.names@), str_id@) == last_index(
                    names(self.names@).subrange(0, i as int),
                    str_id@,
                ),
            decreases i,
        {
            proof {
                assert(names(self.names@).subrange(0, i as int).drop_last() =~= names(
                    self.names@,
                ).subrange(0, i - 1));
            }
            if str_eq(self.names[i - 1].as_str(), str_id.as_str()) {
                return Some(i - 1);
            }
            i = i - 1;
        }
        assert(names(self.names@).subrange(0, 0) =~= Seq::<Seq<char>>::empty());
        None
    }

    /// Adds `item` under `name` and returns its id, unless an equal item is
    /// already registered (then nothing changes).
    pub fn register(&mut self, item: T, name: &str) -> (r: Option<usize>)
        requires
            old(self).wf(),
        ensures
            final(self).wf(),
            final(self).names_of().len() == final(self).entries().len(),
            match r {
                None => final(self).entries() == old(self).entries() && final(self).names_of() == old(
                    self,
                ).names_of(),
                Some(id) => {
                    &&& id == old(self).entries().len()
                    &&& final(self).entries() == old(self).entries().push(item)
                    &&& final(self).names_of() == old(self).names_of().push(name@)
                },
            },
            T::obeys_eq_spec() ==> (r is None <==> exists|i: int|
                0 <= i < old(self).entries().len() && #[trigger] old(self).entries()[i].eq_spec(&item)),
    {
        let mut i: usize = 0;
        while i < self.inner.len()
            invariant
                *self == *old(self),
                old(self).wf(),
                i <= self.inner@.len(),
                T::obeys_eq_spec() ==> forall|j: int|
                    0 <= j < i ==> !(#[trigger] self.inner@[j].eq_spec(&item)),
            decreases self.inner.len() - i,
        {
            if self.inner[i] == item {
                assert(T::obeys_eq_spec() ==> old(self).entries()[i as int].eq_spec(&item));
                return None;
            }
            i = i + 1;
        }
        let id = self.inner.len();
        self.inner.push(item);
        let ghost before = self.names@;
        self.names.push(owned(name));
        proof {
            assert(names(self.names@) =~= names(before).push(name@));
        }
        Some(id)
    }
}

/// An entry just registered under `name` is the one found by that name.
pub proof fn lemma_register_then_find(names_before: Seq<Seq<char>>, name: Seq<char>)
    ensures
        last_index(names_before.push(name), name) == Some(names_before.len() as usize),
{
    assert(names_before.push(name).last() == name);
}

/// After `register` adds an entry under `name`, looking `name` up gives
/// the new entry's id.
pub proof fn lemma_registered_is_found<T>(before: Registry<T>, after: Registry<T>, name: Seq<char>, id: usize)
    requires
        id == before.entries().len(),
        after.entries() == before.entries().push(after.entries().last()),
        after.names_of() == before.names_of().push(name),
        after.names_of().len() == after.entries().len(),
    ensures
        last_index(after.names_of(), name) == Some(id),
{
    lemma_register_then_find(before.names_of(), name);
}

/// Id of a unit kind in the units registry.
pub type UnitId = usize;

/// Id of a bonus in the bonuses registry.
pub type BonusId = usize;

/// Settings of a game session.
#[derive(Clone, Copy, Debug)]
pub struct GameSettings {
    /// Most troops an army may hold.
    pub max_troops: usize,
}

impl Default for GameSettings {
    fn default() -> (r: Self)
        ensures
            r.max_troops == 12,
    {
        GameSettings { max_troops: 12 }
    }
}

/// Settings of the program: languages, window mode and server address.
#[derive(Clone, Debug)]
pub struct Settings {
    pub locale: String,
    pub additional_locale: String,
    pub fullscreen: bool,
    /// The server's IP address, as text.
    pub ip: String,
    pub port: u64,
}

/// The value of the settings.
pub struct SettingsView {
    pub locale: Seq<char>,
    pub additional_locale: Seq<char>,
    pub fullscreen: bool,
    pub ip: Seq<char>,
    pub port: u64,
}

impl View for Settings {
    type V = SettingsView;

    open spec fn view(&self) -> SettingsView {
        SettingsView {
            locale: self.locale@,
            additional_locale: self.additional_locale@,
            fullscreen: self.fullscreen,
            ip: self.ip@,
            port: self.port,
        }
    }
}

impl Default for Settings {
    fn default() -> (r: Self)
        ensures
            r@ == (SettingsView {
                locale: "Rus"@,
                additional_locale: "Eng"@,
                fullscreen: true,
                ip: "127.0.0.1"@,
                port: 0,
            }),
    {
        Settings {
            locale: owned("Rus"),
            additional_locale: owned("Eng"),
            fullscreen: true,
            ip: owned("127.0.0.1"),
            port: 0,
        }
    }
}

} // verus!
