//! The hotel of the old two-player server: rooms by code, each waiting for
//! two sockets; when the second arrives the pair leaves to play.
use crate::room::{find, lemma_find_at, names};
use crate::text::{owned, str_eq};
use vstd::prelude::*;

verus! {

/// Code of a hotel room.
pub type RoomCode = String;

/// Rooms by code: `Some(None)` empty, `Some(Some(s))` one socket waiting,
/// `None` full.
pub struct Hotel<S> {
    codes: Vec<RoomCode>,
    rooms: Vec<Option<Option<S>>>,
}

impl<S> Hotel<S> {
    /// The rooms by code.
    pub closed spec fn rooms_of(&self) -> Map<Seq<char>, Option<Option<S>>> {
        Map::new(
            |c: Seq<char>| find(names(self.codes@), c) >= 0,
            |c: Seq<char>| self.rooms@[find(names(self.codes@), c)],
        )
    }

    /// Each code appears once and has a room.
    pub closed spec fn wf(&self) -> bool {
        &&& self.codes@.len() == self.rooms@.len()
        &&& names(self.codes@).no_duplicates()
    }

    pub fn new() -> (r: Self)
        ensures
            r.wf(),
            r.rooms_of() == Map::<Seq<char>, Option<Option<S>>>::empty(),
    {
        let r = Hotel { codes: Vec::new(), rooms: Vec::new() };
        assert(r.rooms_of() =~= Map::<Seq<char>, Option<Option<S>>>::empty());
        r
    }

    /// Index of the room `code`.
    fn index_of(&self, code: &str) -> (r: Option<usize>)
        requires
            self.wf(),
        ensures
            match r {
                Some(i) => i < self.codes@.len() && find(names(self.codes@), code@) == i,
                None => find(names(self.codes@), code@) < 0,
            },
    {
        let mut i: usize = 0;
        while i < self.codes.len()
            invariant
                i <= self.codes@.len(),
                forall|k: int| 0 <= k < i ==> names(self.codes@)[k] != code@,
            decreases self.codes@.len() - i,
        {
            if str_eq(self.codes[i].as_str(), code) {
                proof {
                    lemma_find_at(names(self.codes@), code@, i as int);
                }
                return Some(i);
            }
            i = i + 1;
        }
        proof {
            lemma_find_at(names(self.codes@), code@, i as int);
        }
        None
    }

    /// Opens (or reopens) the room `room_code`, empty.
    pub fn create_room(&mut self, room_code: RoomCode)
        requires
            old(self).wf(),
        ensures
            final(self).wf(),
            final(self).rooms_of() == old(self).rooms_of().insert(room_code@, Some(None)),
    {
        match self.index_of(room_code.as_str()) {
            Some(i) => {
                let ghost before = self.rooms@;
                self.rooms.set(i, Some(None));
                proof {
                    assert(self.rooms_of() =~= old(self).rooms_of().insert(room_code@, Some(None))) by {
                        assert forall|c: Seq<char>| #[trigger] self.rooms_of().contains_key(c) implies
                            self.rooms_of()[c] == old(self).rooms_of().insert(room_code@, Some(None))[c] by {
                            if c != room_code@ {
                                crate::locale::lemma_find_facts(names(self.codes@), c);
                                crate::locale::lemma_find_facts(names(self.codes@), room_code@);
                            }
                        }
                    }
                }
            },
            None => {
                let ghost before = names(self.codes@);
                let code = owned(room_code.as_str());
                self.codes.push(code);
                self.rooms.push(Some(None));
                proof {
                    assert(names(self.codes@) =~= before.push(room_code@));
                    crate::locale::lemma_find_facts(before, room_code@);
                    crate::locale::lemma_push_unique(before, room_code@);
                    assert(self.rooms_of() =~= old(self).rooms_of().insert(room_code@, Some(None))) by {
                        assert forall|c: Seq<char>| self.rooms_of().contains_key(c) <==> old(self).rooms_of().insert(room_code@, Some(None)).contains_key(c) by {
                            if c != room_code@ {
                                crate::locale::lemma_find_other(before, room_code@, c);
                            }
                        }
                        assert forall|c: Seq<char>| #[trigger] self.rooms_of().contains_key(c) implies
                            self.rooms_of()[c] == old(self).rooms_of().insert(room_code@, Some(None))[c] by {
                            if c != room_code@ {
                                crate::locale::lemma_find_other(before, room_code@, c);
                                crate::locale::lemma_find_facts(before, c);
                            }
                        }
                    }
                }
            },
        }
    }

    /// A socket arrives for room `room_code`: into an empty room it waits;
    /// into a room with one waiting socket, both leave together and the
    /// room becomes full. A missing or full room refuses the socket.
    pub fn put_socket(&mut self, room_code: &RoomCode, socket: S) -> (r: Result<
        Option<(S, S)>,
        (S, &'static str),
    >)
        requires
            old(self).wf(),
        ensures
            final(self).wf(),
            ({
                let m = old(self).rooms_of();
                let c = room_code@;
                if !m.contains_key(c) {
                    &&& final(self).rooms_of() == m
                    &&& r matches Err((s, why)) && s == socket && why@ == "Room doesn't exist"@
                } else {
                    match m[c] {
                        None => {
                            &&& final(self).rooms_of() == m
                            &&& r matches Err((s, why)) && s == socket && why@ == "Room is full"@
                        },
                        Some(None) => {
                            &&& final(self).rooms_of() == m.insert(c, Some(Some(socket)))
                            &&& r matches Ok(None)
                        },
                        Some(Some(first)) => {
                            &&& final(self).rooms_of() == m.insert(c, None)
                            &&& r matches Ok(Some((a, b))) && a == first && b == socket
                        },
                    }
                }
            }),
    {
        proof {
            reveal_strlit("Room doesn't exist");
            reveal_strlit("Room is full");
        }
        let i = match self.index_of(room_code.as_str()) {
            Some(i) => i,
            None => {
                return Err((socket, "Room doesn't exist"));
            },
        };
        let ghost m = self.rooms_of();
        let state = self.rooms.remove(i);
        let (next, out) = match state {
            None => (None, Err((socket, "Room is full"))),
            Some(None) => (Some(Some(socket)), Ok(None)),
            Some(Some(first)) => (None, Ok(Some((first, socket)))),
        };
        let ghost nv = next;
        self.rooms.insert(i, next);
        proof {
            assert(self.rooms_of() =~= m.insert(room_code@, nv)) by {
                assert forall|c: Seq<char>| #[trigger] self.rooms_of().contains_key(c) implies
                    self.rooms_of()[c] == m.insert(room_code@, nv)[c] by {
                    crate::locale::lemma_find_facts(names(self.codes@), c);
                    crate::locale::lemma_find_facts(names(self.codes@), room_code@);
                }
            }
            if state is None {
                assert(m.insert(room_code@, nv) =~= m);
            }
        }
        out
    }
}

} // verus!
