//! The lobby hub of the server: websocket sessions on top of the room
//! registry, with room chat (history of 200 lines, 300 characters per line,
//! at most 5 lines per 10 seconds per session).
use crate::room::{
    create_spec, error_text, now_unix, join_spec, kick_spec, leave_spec, names, room_view_of, start_spec,
    summary_of, ChatMsg, ChatView, ClientRoomMsg, PvpRoomSummary, Room, RoomConfig, RoomError,
    RoomId, RoomManager, RoomStatus, RoomView, ServerMsgView, ServerRoomMsg, SummaryView, chat_views,
    summary_views,
};
use crate::sorted::{remove_sorted, strictly_sorted};
use crate::text::{copy_string, dec, owned, push_dec, str_eq, trim, trim_str};
use std::collections::{HashMap, VecDeque};
use vstd::prelude::*;

verus! {

broadcast use vstd::std_specs::hash::group_hash_axioms;

/// Identifier of a websocket connection (server counter).
pub type SocketId = u64;

/// Longest chat line kept (longer lines are cut).
pub const CHAT_MAX_LEN: usize = 300;

/// Chat lines kept per room.
pub const CHAT_HISTORY_CAP: usize = 200;

/// Chat lines a session may send within the rate window.
pub const CHAT_RATE_MESSAGES: usize = 5;

/// Length of the chat rate window in seconds.
pub const CHAT_RATE_WINDOW_SECS: u64 = 10;

/// State of one websocket connection.
#[derive(Debug)]
pub struct Session {
    /// Player name (empty until `Hello`).
    pub name: String,
    /// The room entered, as player or spectator.
    pub room: Option<RoomId>,
    /// Send times of recent chat lines (for the rate limit).
    pub chat_times: VecDeque<u64>,
}

impl Session {
    pub fn new() -> (r: Self)
        ensures
            r.name@.len() == 0,
            r.room is None,
            r.chat_times@.len() == 0,
    {
        Session { name: String::new(), room: None, chat_times: VecDeque::new() }
    }

    /// A session that already has a name.
    pub fn named(name: &str) -> (r: Self)
        ensures
            r.name@ == name@,
            r.room is None,
            r.chat_times@.len() == 0,
    {
        let mut s = Self::new();
        s.name = owned(name);
        s
    }

    /// Whether the session said `Hello`.
    pub fn is_named(&self) -> (r: bool)
        ensures
            r == (self.name@.len() > 0),
    {
        self.name.as_str().unicode_len() != 0
    }
}

/// An outgoing frame and its addressee (`None`: every session).
#[derive(Debug)]
pub struct Outgoing {
    pub to: Option<SocketId>,
    pub msg: ServerRoomMsg,
}

/// Abstract value of an outgoing frame.
pub struct OutView {
    pub to: Option<SocketId>,
    pub msg: ServerMsgView,
}

impl View for Outgoing {
    type V = OutView;

    open spec fn view(&self) -> OutView {
        OutView { to: self.to, msg: self.msg@ }
    }
}

pub open spec fn out_one(to: SocketId, msg: ServerMsgView) -> OutView {
    OutView { to: Some(to), msg }
}

pub open spec fn out_all(msg: ServerMsgView) -> OutView {
    OutView { to: None, msg }
}

/// The views of a list of frames.
pub open spec fn outs_view(v: Seq<Outgoing>) -> Seq<OutView> {
    v.map_values(|o: Outgoing| o@)
}

impl Outgoing {
    pub fn one(to: SocketId, msg: ServerRoomMsg) -> (r: Self)
        ensures
            r.to == Some(to),
            r.msg == msg,
    {
        Outgoing { to: Some(to), msg }
    }

    pub fn all(msg: ServerRoomMsg) -> (r: Self)
        ensures
            r.to is None,
            r.msg == msg,
    {
        Outgoing { to: None, msg }
    }
}

impl ChatMsg {
    /// A copy of the line.
    pub fn copy(&self) -> (r: Self)
        ensures
            r@ == self@,
    {
        ChatMsg { from: copy_string(&self.from), text: copy_string(&self.text), at: self.at, system: self.system }
    }
}

/// Sessions whose current room is `room`.
pub open spec fn sockets_in(sessions: Map<SocketId, Session>, room: RoomId) -> Set<SocketId> {
    Set::new(|id: SocketId| sessions.contains_key(id) && sessions[id].room == Some(room))
}

/// Sessions that said `Hello`.
pub open spec fn named_sockets(sessions: Map<SocketId, Session>) -> Set<SocketId> {
    Set::new(|id: SocketId| sessions.contains_key(id) && sessions[id].name@.len() > 0)
}

/// The sessions in `room` (`Some`), or the named sessions (`None`).
pub open spec fn wanted(sessions: Map<SocketId, Session>, room: Option<RoomId>) -> Set<SocketId> {
    match room {
        Some(r) => sockets_in(sessions, r),
        None => named_sockets(sessions),
    }
}

/// The elements of `s` in increasing order.
pub open spec fn sorted_seq(s: Set<SocketId>) -> Seq<SocketId> {
    choose|q: Seq<SocketId>| strictly_sorted(q) && q.to_set() == s
}

proof fn lemma_sorted_seq(q: Seq<SocketId>, s: Set<SocketId>)
    requires
        strictly_sorted(q),
        q.to_set() == s,
    ensures
        sorted_seq(s) == q,
{
    let c = sorted_seq(s);
    assert(strictly_sorted(c) && c.to_set() == s);
    crate::sorted::lemma_sorted_unique(c, q);
}

/// The sockets of the members of a room, increasing.
pub open spec fn room_sockets_spec(sessions: Map<SocketId, Session>, room: RoomId) -> Seq<SocketId> {
    sorted_seq(sockets_in(sessions, room))
}

/// One chat frame for each of `socks`.
pub open spec fn chat_outs(socks: Seq<SocketId>, m: ChatView) -> Seq<OutView> {
    socks.map_values(|s: SocketId| out_one(s, ServerMsgView::ChatMsg(m)))
}

/// The room-table update broadcast for `room`, if it still lives.
pub open spec fn update_outs(rooms: Map<RoomId, Room>, room: RoomId) -> Seq<OutView> {
    if rooms.contains_key(room) {
        seq![out_all(ServerMsgView::RoomUpdate(summary_of(rooms[room])))]
    } else {
        seq![]
    }
}

/// The chat history of a room (empty if there is none).
pub open spec fn history_of(h: Map<RoomId, VecDeque<ChatMsg>>, room: RoomId) -> Seq<ChatView> {
    if h.contains_key(room) {
        chat_views(h[room]@)
    } else {
        seq![]
    }
}

/// `s` cut to its last `CHAT_HISTORY_CAP` lines.
pub open spec fn capped(s: Seq<ChatView>) -> Seq<ChatView> {
    if s.len() > 200 {
        s.subrange(s.len() - 200, s.len() as int)
    } else {
        s
    }
}

/// `new_h` is `old_h` after appending `m` to the history of `room`.
pub open spec fn chat_pushed(
    old_h: Map<RoomId, VecDeque<ChatMsg>>,
    new_h: Map<RoomId, VecDeque<ChatMsg>>,
    room: RoomId,
    m: ChatView,
) -> bool {
    &&& new_h.dom() == old_h.dom().insert(room)
    &&& forall|r: RoomId| r != room && #[trigger] old_h.contains_key(r) ==> new_h[r] == old_h[r]
    &&& history_of(new_h, room) == capped(history_of(old_h, room).push(m))
}

/// The lobby hub: room registry plus sessions (one per server process).
#[derive(Debug)]
pub struct LobbyHub {
    pub rooms: RoomManager,
    pub sessions: HashMap<SocketId, Session>,
    next_socket: SocketId,
    /// Chat history per room (dropped when the room closes).
    pub chat_history: HashMap<RoomId, VecDeque<ChatMsg>>,
    /// Ids of the live sessions, increasing.
    sockets: Vec<SocketId>,
}

impl LobbyHub {
    /// The room registry.
    pub closed spec fn rooms_of(&self) -> RoomManager {
        self.rooms
    }

    /// The sessions by socket id.
    pub closed spec fn sessions_map(&self) -> Map<SocketId, Session> {
        self.sessions@
    }

    /// The chat histories by room.
    pub closed spec fn chats(&self) -> Map<RoomId, VecDeque<ChatMsg>> {
        self.chat_history@
    }

    /// The id the next connection gets.
    pub closed spec fn next_socket_id(&self) -> SocketId {
        self.next_socket
    }

    /// Invariant of the hub.
    pub closed spec fn wf(&self) -> bool {
        &&& self.rooms.wf()
        &&& strictly_sorted(self.sockets@)
        &&& self.sockets@.to_set() == self.sessions@.dom()
        &&& forall|id: SocketId| #[trigger]
            self.sessions@.contains_key(id) ==> id < self.next_socket
        &&& self.sockets@.len() <= self.next_socket
        &&& forall|r: RoomId| #[trigger]
            self.chat_history@.contains_key(r) ==> self.chat_history@[r]@.len() <= 200
    }

    /// In a valid hub every session id is below the next one and no room keeps
    /// more than `CHAT_HISTORY_CAP` chat lines.
    pub proof fn lemma_wf(&self)
        requires
            self.wf(),
        ensures
            self.rooms_of().wf(),
            forall|id: SocketId| #[trigger]
                self.sessions_map().contains_key(id) ==> id < self.next_socket_id(),
            forall|r: RoomId| #[trigger]
                self.chats().contains_key(r) ==> self.chats()[r]@.len() <= 200,
    {
    }

    /// `connect` hands out ids in increasing order: a `connect` that
    /// returned `earlier` left the next id at `earlier + 1`; the operations
    /// after it raise the next id or keep it (`connect` raises it by one,
    /// `handle` and `disconnect` keep it), so when `connect` runs again on
    /// the hub `later` it returns `later.next_socket_id()`, which is above
    /// `earlier` and above every session id still in use.
    pub proof fn lemma_connect_ids_increase(earlier: SocketId, after_first: LobbyHub, later: LobbyHub)
        requires
            after_first.next_socket_id() == earlier + 1,
            later.next_socket_id() >= after_first.next_socket_id(),
            later.wf(),
        ensures
            later.next_socket_id() > earlier,
            forall|id: SocketId| #[trigger]
                later.sessions_map().contains_key(id) ==> id < later.next_socket_id(),
    {
    }

    /// The id the next connection gets.
    pub fn next_socket(&self) -> (r: SocketId)
        ensures
            r == self.next_socket_id(),
    {
        self.next_socket
    }

    pub fn new() -> (r: Self)
        ensures
            r.wf(),
            r.rooms_of().rooms_map() == Map::<RoomId, Room>::empty(),
            r.rooms_of().next_room_id() == 0,
            r.sessions_map() == Map::<SocketId, Session>::empty(),
            r.chats() == Map::<RoomId, VecDeque<ChatMsg>>::empty(),
            r.next_socket_id() == 0,
    {
        let r = LobbyHub {
            rooms: RoomManager::new(),
            sessions: HashMap::new(),
            next_socket: 0,
            chat_history: HashMap::new(),
            sockets: Vec::new(),
        };
        assert(r.sockets@.to_set() =~= Set::<SocketId>::empty());
        r
    }

    /// A new socket connected: it gets a fresh id.
    pub fn connect(&mut self, session: Session) -> (r: SocketId)
        requires
            old(self).wf(),
            old(self).next_socket_id() < u64::MAX,
        ensures
            final(self).wf(),
            r == old(self).next_socket_id(),
            !old(self).sessions_map().contains_key(r),
            final(self).next_socket_id() == r + 1,
            final(self).sessions_map() == old(self).sessions_map().insert(r, session),
            final(self).rooms_of() == old(self).rooms_of(),
            final(self).chats() == old(self).chats(),
    {
        let id = self.next_socket;
        self.next_socket = self.next_socket + 1;
        self.sessions.insert(id, session);
        let ghost old_s = self.sockets@;
        self.sockets.push(id);
        proof {
            old_s.lemma_push_to_set_commute(id);
            assert forall|a: int, b: int| 0 <= a < b < self.sockets@.len() implies self.sockets@[a]
                < self.sockets@[b] by {
                if b == old_s.len() {
                    assert(old_s.to_set().contains(old_s[a]));
                    assert(old(self).sessions@.contains_key(old_s[a]));
                }
            }
            assert forall|k: SocketId| #[trigger]
                self.sessions@.contains_key(k) implies k < self.next_socket by {
                if k != id {
                    assert(old(self).sessions@.contains_key(k));
                }
            }
        }
        id
    }

    /// Sockets of the members of `room` (players and spectators), increasing.
    pub fn room_sockets(&self, room: RoomId) -> (r: Vec<SocketId>)
        requires
            self.wf(),
        ensures
            strictly_sorted(r@),
            r@.to_set() == sockets_in(self.sessions_map(), room),
            r@ == room_sockets_spec(self.sessions_map(), room),
    {
        self.select_sockets(Some(room))
    }

    /// Sockets of every session that said `Hello`, increasing.
    pub fn all_sockets(&self) -> (r: Vec<SocketId>)
        requires
            self.wf(),
        ensures
            strictly_sorted(r@),
            r@.to_set() == named_sockets(self.sessions_map()),
            r@ == sorted_seq(named_sockets(self.sessions_map())),
    {
        self.select_sockets(None)
    }

    /// Sockets of the members of `room` (`Some`) or of the named sessions
    /// (`None`), increasing.
    fn select_sockets(&self, room: Option<RoomId>) -> (r: Vec<SocketId>)
        requires
            self.wf(),
        ensures
            strictly_sorted(r@),
            r@.to_set() == wanted(self.sessions@, room),
            r@ == sorted_seq(wanted(self.sessions@, room)),
    {
        let mut r: Vec<SocketId> = Vec::new();
        let mut i: usize = 0;
        while i < self.sockets.len()
            invariant
                self.wf(),
                i <= self.sockets.len(),
                forall|a: int, b: int| 0 <= a < b < r@.len() ==> r@[a] < r@[b],
                forall|k: int| 0 <= k < r@.len() ==> exists|j: int| 0 <= j < i && self.sockets@[j] == #[trigger] r@[k],
                forall|x: SocketId| r@.contains(x) <==> (wanted(self.sessions@, room).contains(x)
                    && exists|j: int| 0 <= j < i && self.sockets@[j] == x),
            decreases self.sockets.len() - i,
        {
            let sock = self.sockets[i];
            proof {
                assert(self.sockets@.to_set().contains(sock));
            }
            let in_room = match self.sessions.get(&sock) {
                Some(s) => match room {
                    Some(rm) => s.room == Some(rm),
                    None => s.is_named(),
                },
                None => false,
            };
            let ghost old_r = r@;
            if in_room {
                r.push(sock);
                proof {
                    assert forall|a: int, b: int| 0 <= a < b < r@.len() implies r@[a] < r@[b] by {
                        if b == old_r.len() {
                            let j = choose|j: int| 0 <= j < i && self.sockets@[j] == old_r[a];
                            assert(self.sockets@[j] < self.sockets@[i as int]);
                        }
                    }
                }
            }
            proof {
                assert forall|k: int| 0 <= k < r@.len() implies exists|j: int| 0 <= j < i + 1 && self.sockets@[j] == #[trigger] r@[k] by {
                    if k < old_r.len() {
                        let j = choose|j: int| 0 <= j < i && self.sockets@[j] == old_r[k];
                        assert(self.sockets@[j] == r@[k]);
                    } else {
                        assert(self.sockets@[i as int] == r@[k]);
                    }
                }
                assert forall|x: SocketId| r@.contains(x) <==> (wanted(self.sessions@, room).contains(x)
                    && exists|j: int| 0 <= j < i + 1 && self.sockets@[j] == x) by {
                    if r@.contains(x) {
                        let k = choose|k: int| 0 <= k < r@.len() && r@[k] == x;
                        if k < old_r.len() {
                            assert(old_r.contains(x));
                            let j = choose|j: int| 0 <= j < i && self.sockets@[j] == x;
                            assert(0 <= j < i + 1 && self.sockets@[j] == x);
                        } else {
                            assert(self.sockets@[i as int] == x);
                        }
                    }
                    if wanted(self.sessions@, room).contains(x) && exists|j: int| 0 <= j < i + 1 && self.sockets@[j] == x {
                        let j = choose|j: int| 0 <= j < i + 1 && self.sockets@[j] == x;
                        if j < i {
                            assert(old_r.contains(x));
                            let k = choose|k: int| 0 <= k < old_r.len() && old_r[k] == x;
                            assert(r@[k] == x);
                        } else {
                            assert(r@[old_r.len() as int] == x);
                        }
                    }
                }
            }
            i = i + 1;
        }
        proof {
            assert(r@.to_set() =~= wanted(self.sessions@, room)) by {
                assert forall|x: SocketId| wanted(self.sessions@, room).contains(x) implies r@.contains(x) by {
                    assert(self.sockets@.to_set().contains(x));
                    let j = choose|j: int| 0 <= j < self.sockets@.len() && self.sockets@[j] == x;
                    assert(self.sockets@[j] == x);
                }
            }
            lemma_sorted_seq(r@, wanted(self.sessions@, room));
        }
        r
    }
}

} // verus!

verus! {

/// `n` with the suffix `#k`.
pub open spec fn suffixed(n: Seq<char>, k: nat) -> Seq<char> {
    n + "#"@ + dec(k)
}

proof fn lemma_suffixed_injective(n: Seq<char>, a: nat, b: nat)
    requires
        suffixed(n, a) == suffixed(n, b),
    ensures
        a == b,
{
    let p = n + "#"@;
    assert(suffixed(n, a).subrange(p.len() as int, suffixed(n, a).len() as int) =~= dec(a));
    assert(suffixed(n, b).subrange(p.len() as int, suffixed(n, b).len() as int) =~= dec(b));
    crate::text::lemma_dec_injective(a, b);
}

/// Names used by any session.
pub open spec fn taken_names(sessions: Map<SocketId, Session>) -> Set<Seq<char>> {
    Set::new(|n: Seq<char>| exists|id: SocketId| sessions.contains_key(id) && sessions[id].name@ == n)
}

/// The first suffix from 2 on that makes `n` free.
pub open spec fn first_free_suffix(taken: Set<Seq<char>>, n: Seq<char>) -> nat {
    choose|k: nat|
        k >= 2 && !taken.contains(suffixed(n, k)) && forall|j: nat|
            2 <= j < k ==> taken.contains(#[trigger] suffixed(n, j))
}

/// `n` itself if free, else `n#k` for the least free `k` from 2 on.
pub open spec fn unique_name(taken: Set<Seq<char>>, n: Seq<char>) -> Seq<char> {
    if !taken.contains(n) {
        n
    } else {
        suffixed(n, first_free_suffix(taken, n))
    }
}

/// The frames answering `Hello`, and the resulting sessions.
pub open spec fn hello_spec(
    old: Map<SocketId, Session>,
    new: Map<SocketId, Session>,
    id: SocketId,
    name: Seq<char>,
    outs: Seq<OutView>,
) -> bool {
    let n = trim(name);
    if n.len() == 0 {
        &&& outs == seq![out_one(id, ServerMsgView::Error { message: error_text(RoomError::EmptyName) })]
        &&& new == old
    } else if !old.contains_key(id) {
        &&& outs == Seq::<OutView>::empty()
        &&& new == old
    } else {
        let u = unique_name(taken_names(old), n);
        &&& outs == seq![out_one(id, ServerMsgView::Welcome { name: u })]
        &&& new.dom() == old.dom()
        &&& forall|k: SocketId| k != id && #[trigger] old.contains_key(k) ==> new[k] == old[k]
        &&& new[id].name@ == u
        &&& new[id].room == old[id].room
        &&& new[id].chat_times == old[id].chat_times
    }
}

impl LobbyHub {
    /// A session named `name`, if any.
    fn owner_of(&self, name: &str) -> (r: Option<SocketId>)
        requires
            self.wf(),
        ensures
            match r {
                Some(id) => self.sessions@.contains_key(id) && self.sessions@[id].name@ == name@,
                None => !taken_names(self.sessions@).contains(name@),
            },
    {
        let mut i: usize = 0;
        while i < self.sockets.len()
            invariant
                self.wf(),
                i <= self.sockets.len(),
                forall|j: int| 0 <= j < i ==> #[trigger] self.sessions@[self.sockets@[j]].name@ != name@,
            decreases self.sockets.len() - i,
        {
            let sock = self.sockets[i];
            proof {
                assert(self.sockets@.to_set().contains(sock));
            }
            match self.sessions.get(&sock) {
                Some(s) => {
                    if str_eq(s.name.as_str(), name) {
                        return Some(sock);
                    }
                },
                None => {},
            }
            i = i + 1;
        }
        proof {
            if taken_names(self.sessions@).contains(name@) {
                let id = choose|id: SocketId| self.sessions@.contains_key(id) && self.sessions@[id].name@ == name@;
                assert(self.sockets@.to_set().contains(id));
                let j = choose|j: int| 0 <= j < self.sockets@.len() && self.sockets@[j] == id;
                assert(self.sessions@[self.sockets@[j]].name@ != name@);
            }
        }
        None
    }

    /// `Hello`: names the session, made unique over the whole server.
    fn hello(&mut self, id: SocketId, name: &str) -> (r: Vec<Outgoing>)
        requires
            old(self).wf(),
            old(self).next_socket < u64::MAX,
        ensures
            final(self).wf(),
            final(self).rooms == old(self).rooms,
            final(self).chat_history == old(self).chat_history,
            final(self).next_socket == old(self).next_socket,
            hello_spec(old(self).sessions@, final(self).sessions@, id, name@, outs_view(r@)),
    {
        let n = trim_str(name);
        proof {
            crate::text::lemma_trim_idempotent(name@);
        }
        if n.unicode_len() == 0 {
            let out = vec![Outgoing::one(id, ServerRoomMsg::Error { message: RoomError::EmptyName.message() })];
            assert(outs_view(out@) =~= seq![out_one(id, ServerMsgView::Error { message: error_text(RoomError::EmptyName) })]);
            return out;
        }
        let ghost taken = taken_names(self.sessions@);
        let mut unique = owned(n);
        let mut k: u64 = 1;
        let ghost mut owners: Seq<SocketId> = Seq::empty();
        loop
            invariant
                self.wf(),
                self.sessions@ == old(self).sessions@,
                taken == taken_names(self.sessions@),
                n@ == trim(name@),
                1 <= k <= self.sockets@.len() + 1,
                self.sockets@.len() <= self.next_socket,
                self.next_socket < u64::MAX,
                k == 1 ==> unique@ == n@,
                k >= 2 ==> unique@ == suffixed(n@, k as nat),
                k >= 2 ==> taken.contains(n@),
                forall|j: nat| 2 <= j < k ==> taken.contains(#[trigger] suffixed(n@, j)),
                owners.len() == k - 1,
                owners.no_duplicates(),
                forall|j: int| 0 <= j < owners.len() ==> self.sessions@.contains_key(#[trigger] owners[j]),
                forall|j: int| 0 <= j < owners.len() ==> self.sessions@[#[trigger] owners[j]].name@
                    == if j == 0 { n@ } else { suffixed(n@, (j + 1) as nat) },
            ensures
                !taken.contains(unique@),
                k == 1 ==> unique@ == n@,
                k >= 2 ==> unique@ == suffixed(n@, k as nat) && taken.contains(n@),
                forall|j: nat| 2 <= j < k ==> taken.contains(#[trigger] suffixed(n@, j)),
            decreases self.sockets@.len() + 1 - k,
        {
            match self.owner_of(unique.as_str()) {
                None => {
                    break;
                },
                Some(owner) => {
                    proof {
                        assert(taken.contains(unique@));
                        // owner is new: its name differs from those of earlier owners
                        assert forall|j: int| 0 <= j < owners.len() implies owners[j] != owner by {
                            if owners[j] == owner {
                                let nj = if j == 0 { n@ } else { suffixed(n@, (j + 1) as nat) };
                                if k == 1 {
                                } else if j == 0 {
                                    assert(suffixed(n@, k as nat).len() > n@.len());
                                } else {
                                    lemma_suffixed_injective(n@, (j + 1) as nat, k as nat);
                                }
                            }
                        }
                        let new_owners = owners.push(owner);
                        assert forall|a: int, b: int| 0 <= a < new_owners.len() && 0 <= b < new_owners.len() && a != b implies new_owners[a] != new_owners[b] by {
                            if a == owners.len() {
                                assert(owners[b] != owner);
                            } else if b == owners.len() {
                                assert(owners[a] != owner);
                            }
                        }
                        owners = new_owners;
                        // there cannot be more distinct owners than sessions
                        assert(owners.to_set().subset_of(self.sessions@.dom()));
                        owners.unique_seq_to_set();
                        vstd::set_lib::lemma_len_subset(owners.to_set(), self.sessions@.dom());
                        self.sockets@.unique_seq_to_set();
                        assert(self.sockets@.no_duplicates()) by {
                            assert forall|a: int, b: int| 0 <= a < self.sockets@.len() && 0 <= b < self.sockets@.len() && a != b implies self.sockets@[a] != self.sockets@[b] by {
                                if a < b {
                                    assert(self.sockets@[a] < self.sockets@[b]);
                                } else {
                                    assert(self.sockets@[b] < self.sockets@[a]);
                                }
                            }
                        }
                        self.sockets@.unique_seq_to_set();
                    }
                    k = k + 1;
                    unique = owned(n);
                    unique.append("#");
                    push_dec(&mut unique, k);
                },
            }
        }
        let ghost u = unique@;
        proof {
            if k == 1 {
                assert(unique_name(taken, n@) == n@);
            } else {
                assert(k >= 2 && !taken.contains(suffixed(n@, k as nat)));
                let f = first_free_suffix(taken, n@);
                assert(f >= 2 && !taken.contains(suffixed(n@, f)) && forall|j: nat| 2 <= j < f ==> taken.contains(#[trigger] suffixed(n@, j)));
                if f < k {
                    assert(taken.contains(suffixed(n@, f)));
                } else if f > k {
                    assert(taken.contains(suffixed(n@, k as nat)));
                }
            }
        }
        match self.sessions.remove(&id) {
            None => {
                assert(self.sessions@ =~= old(self).sessions@);
                let out: Vec<Outgoing> = Vec::new();
                assert(outs_view(out@) =~= Seq::<OutView>::empty());
                return out;
            },
            Some(mut s) => {
                let welcome = copy_string(&unique);
                s.name = unique;
                self.sessions.insert(id, s);
                proof {
                    assert(self.sessions@.dom() =~= old(self).sessions@.dom());
                    assert forall|x: SocketId| #[trigger] self.sessions@.contains_key(x) implies x < self.next_socket by {
                        assert(old(self).sessions@.contains_key(x));
                    }
                }
                let out = vec![Outgoing::one(id, ServerRoomMsg::Welcome { name: welcome })];
                assert(outs_view(out@) =~= seq![out_one(id, ServerMsgView::Welcome { name: u })]);
                out
            },
        }
    }
}

} // verus!

verus! {

/// Two hubs with the same registry, sessions, chats and socket counter.
pub open spec fn hub_same(a: LobbyHub, b: LobbyHub) -> bool {
    &&& a.rooms_of() == b.rooms_of()
    &&& a.sessions_map() == b.sessions_map()
    &&& a.chats() == b.chats()
    &&& a.next_socket_id() == b.next_socket_id()
}

/// The session `id` exists and said `Hello`.
pub open spec fn registered(sessions: Map<SocketId, Session>, id: SocketId) -> bool {
    sessions.contains_key(id) && sessions[id].name@.len() > 0
}

/// Text of the answer to frames from a session that did not say `Hello`.
pub open spec fn unregistered_text() -> Seq<char> {
    "Сначала Hello { name }"@
}

/// Text of the answer to a chat line over the rate limit.
pub open spec fn rate_limited_text() -> Seq<char> {
    "Слишком много сообщений, подождите"@
}

pub open spec fn error_out(id: SocketId, e: RoomError) -> OutView {
    out_one(id, ServerMsgView::Error { message: error_text(e) })
}

/// A system chat line stamped `now`.
pub open spec fn system_line(text: Seq<char>, now: u64) -> ChatView {
    ChatView { from: Seq::empty(), text, at: now, system: true }
}

/// The system line announcing that `name` joined.
pub open spec fn joined_text(name: Seq<char>, as_spectator: bool) -> Seq<char> {
    name + " присоединился как "@ + if as_spectator {
        "зритель"@
    } else {
        "игрок"@
    }
}

/// `sessions` with the room of `id` set to `room`.
pub open spec fn with_room(
    sessions: Map<SocketId, Session>,
    id: SocketId,
    room: Option<RoomId>,
) -> Map<SocketId, Session> {
    sessions.insert(id, Session { room, ..sessions[id] })
}

/// The system line announcing that `name` joined.
pub open spec fn join_line(name: Seq<char>, as_spectator: bool, now: u64) -> ChatView {
    system_line(joined_text(name, as_spectator), now)
}

/// The hub after session `id` entered `room` (the registry already holds it):
/// the session records the room and the room's chat gets the join line.
pub open spec fn entered(
    old: LobbyHub,
    new: LobbyHub,
    id: SocketId,
    room: RoomId,
    as_spectator: bool,
    now: u64,
) -> bool {
    &&& new.sessions_map() == with_room(old.sessions_map(), id, Some(room))
    &&& new.next_socket_id() == old.next_socket_id()
    &&& chat_pushed(
        old.chats(),
        new.chats(),
        room,
        join_line(old.sessions_map()[id].name@, as_spectator, now),
    )
}

/// The frames sent when session `id` enters `room`: the room to the joiner,
/// the join line to every member, the room row to everybody, and the chat
/// history to the joiner.
pub open spec fn entered_outs(
    old: LobbyHub,
    new: LobbyHub,
    id: SocketId,
    room: RoomId,
    as_spectator: bool,
    now: u64,
) -> Seq<OutView> {
    let rooms = new.rooms_of().rooms_map();
    seq![out_one(id, ServerMsgView::JoinedRoom(room_view_of(rooms[room])))] + chat_outs(
        room_sockets_spec(new.sessions_map(), room),
        join_line(old.sessions_map()[id].name@, as_spectator, now),
    ) + update_outs(rooms, room) + seq![
        out_one(id, ServerMsgView::ChatHistory(history_of(new.chats(), room))),
    ]
}

} // verus!

verus! {

impl LobbyHub {
    /// Appends `msg` to the history of `room` and sends it to every member.
    fn push_chat(&mut self, room: RoomId, msg: ChatMsg) -> (r: Vec<Outgoing>)
        requires
            old(self).wf(),
        ensures
            final(self).wf(),
            final(self).rooms == old(self).rooms,
            final(self).sessions == old(self).sessions,
            final(self).next_socket == old(self).next_socket,
            final(self).sockets == old(self).sockets,
            chat_pushed(old(self).chat_history@, final(self).chat_history@, room, msg@),
            outs_view(r@) == chat_outs(room_sockets_spec(old(self).sessions@, room), msg@),
    {
        let ghost old_h = history_of(self.chat_history@, room);
        let mut h = match self.chat_history.remove(&room) {
            Some(h) => h,
            None => VecDeque::new(),
        };
        proof {
            assert(chat_views(h@) =~= old_h);
        }
        let ghost s = old_h.push(msg@);
        h.push_back(msg.copy());
        proof {
            assert(chat_views(h@) =~= s);
        }
        while h.len() > 200
            invariant
                h@.len() <= s.len(),
                h@.len() >= 200 || h@.len() == s.len(),
                chat_views(h@) == s.subrange(s.len() - h@.len(), s.len() as int),
            decreases h@.len(),
        {
            let ghost before = h@;
            let _ = h.pop_front();
            proof {
                assert(chat_views(h@) =~= s.subrange(s.len() - h@.len(), s.len() as int)) by {
                    assert forall|k: int| 0 <= k < h@.len() implies #[trigger] chat_views(h@)[k] == s.subrange(s.len() - h@.len(), s.len() as int)[k] by {
                        assert(h@[k] == before[k + 1]);
                        assert(chat_views(h@)[k] == h@[k]@);
                        assert(chat_views(before)[k + 1] == before[k + 1]@);
                        assert(s.subrange(s.len() - before.len(), s.len() as int)[k + 1] == s.subrange(s.len() - h@.len(), s.len() as int)[k]);
                    }
                }
            }
        }
        proof {
            assert(chat_views(h@) =~= capped(s));
        }
        let ghost old_map = self.chat_history@;
        self.chat_history.insert(room, h);
        proof {
            assert(self.chat_history@.dom() =~= old(self).chat_history@.dom().insert(room));
            assert forall|x: RoomId| #[trigger] self.chat_history@.contains_key(x) implies self.chat_history@[x]@.len() <= 200 by {
                if x != room {
                    assert(old(self).chat_history@.contains_key(x));
                }
            }
        }
        let socks = self.room_sockets(room);
        let mut out: Vec<Outgoing> = Vec::new();
        let mut i: usize = 0;
        while i < socks.len()
            invariant
                i <= socks.len(),
                outs_view(out@) == chat_outs(socks@.subrange(0, i as int), msg@),
            decreases socks.len() - i,
        {
            let ghost before = out@;
            let o = Outgoing::one(socks[i], ServerRoomMsg::ChatMsg(msg.copy()));
            assert(o@ == out_one(socks@[i as int], ServerMsgView::ChatMsg(msg@)));
            out.push(o);
            proof {
                assert(outs_view(out@) =~= outs_view(before).push(o@));
                assert(chat_outs(socks@.subrange(0, i + 1), msg@) =~= chat_outs(socks@.subrange(0, i as int), msg@).push(o@));
            }
            i = i + 1;
        }
        assert(socks@.subrange(0, socks@.len() as int) =~= socks@);
        out
    }

    /// The room-table row of `room` for everybody, if the room lives.
    fn room_update(&self, room: RoomId) -> (r: Vec<Outgoing>)
        requires
            self.wf(),
        ensures
            outs_view(r@) == update_outs(self.rooms.rooms_map(), room),
    {
        match self.rooms.get(room) {
            Some(room_data) => {
                let out = vec![Outgoing::all(ServerRoomMsg::RoomUpdate(room_data.summary_pub()))];
                assert(outs_view(out@) =~= update_outs(self.rooms.rooms_map(), room));
                out
            },
            None => {
                let out: Vec<Outgoing> = Vec::new();
                assert(outs_view(out@) =~= update_outs(self.rooms.rooms_map(), room));
                out
            },
        }
    }

    /// The name of a session that said `Hello`.
    fn name_of(&self, id: SocketId) -> (r: Option<String>)
        ensures
            match r {
                Some(n) => registered(self.sessions@, id) && n@ == self.sessions@[id].name@,
                None => !registered(self.sessions@, id),
            },
    {
        match self.sessions.get(&id) {
            Some(s) => {
                if s.is_named() {
                    Some(copy_string(&s.name))
                } else {
                    None
                }
            },
            None => None,
        }
    }

    /// The answer to a session that did not say `Hello`.
    fn unregistered(&self, id: SocketId) -> (r: Outgoing)
        ensures
            r@ == out_one(id, ServerMsgView::Error { message: unregistered_text() }),
    {
        Outgoing::one(id, ServerRoomMsg::Error { message: String::from_str("Сначала Hello { name }") })
    }

    /// Sets the room of session `id` (which exists).
    fn set_room(&mut self, id: SocketId, room: Option<RoomId>)
        requires
            old(self).wf(),
            old(self).sessions@.contains_key(id),
        ensures
            final(self).wf(),
            final(self).rooms == old(self).rooms,
            final(self).chat_history == old(self).chat_history,
            final(self).next_socket == old(self).next_socket,
            final(self).sockets == old(self).sockets,
            final(self).sessions@ == with_room(old(self).sessions@, id, room),
    {
        match self.sessions.remove(&id) {
            Some(mut s) => {
                s.room = room;
                self.sessions.insert(id, s);
                proof {
                    assert(self.sessions@ =~= with_room(old(self).sessions@, id, room));
                    assert(self.sessions@.dom() =~= old(self).sessions@.dom());
                    assert forall|x: SocketId| #[trigger] self.sessions@.contains_key(x) implies x < self.next_socket by {
                        assert(old(self).sessions@.contains_key(x));
                    }
                }
            },
            None => vstd::pervasive::unreached(),
        }
    }

    /// After a successful join: record the room, announce the joiner, send
    /// the room row to everybody and the room with its history to the joiner.
    fn join_room_inner(&mut self, id: SocketId, room: RoomId, as_spectator: bool, now: u64) -> (r: Vec<Outgoing>)
        requires
            old(self).wf(),
            old(self).sessions@.contains_key(id),
            old(self).rooms.rooms_map().dom().contains(room),
        ensures
            final(self).wf(),
            final(self).rooms == old(self).rooms,
            final(self).next_socket == old(self).next_socket,
            entered(*old(self), *final(self), id, room, as_spectator, now),
            outs_view(r@) == entered_outs(*old(self), *final(self), id, room, as_spectator, now),
    {
        let name = match self.sessions.get(&id) {
            Some(s) => copy_string(&s.name),
            None => vstd::pervasive::unreached(),
        };
        self.set_room(id, Some(room));
        let view = match self.rooms.view(room) {
            Ok(v) => v,
            Err(_) => vstd::pervasive::unreached(),
        };
        let mut out: Vec<Outgoing> = Vec::new();
        out.push(Outgoing::one(id, ServerRoomMsg::JoinedRoom(view)));
        let mut text = name;
        text.append(" присоединился как ");
        if as_spectator {
            text.append("зритель");
        } else {
            text.append("игрок");
        }
        let system = ChatMsg { from: String::new(), text, at: now, system: true };
        let ghost s2 = self.sessions@;
        let pushed = self.push_chat(room, system);
        let upd = self.room_update(room);
        let ghost o1 = outs_view(out@);
        assert(o1 =~= seq![out_one(id, ServerMsgView::JoinedRoom(room_view_of(old(self).rooms.rooms_map()[room])))]);
        let ghost pv = outs_view(pushed@);
        let ghost uv = outs_view(upd@);
        let mut pushed = pushed;
        let mut upd = upd;
        let ghost a0 = out@;
        out.append(&mut pushed);
        assert(outs_view(out@) =~= o1 + pv);
        let ghost a1 = out@;
        out.append(&mut upd);
        assert(outs_view(out@) =~= o1 + pv + uv);
        let history = match self.chat_history.get(&room) {
            Some(h) => {
                let mut v: Vec<ChatMsg> = Vec::new();
                let mut i: usize = 0;
                while i < h.len()
                    invariant
                        i <= h@.len(),
                        chat_views(v@) == chat_views(h@).subrange(0, i as int),
                    decreases h@.len() - i,
                {
                    let ghost before = v@;
                    let c = h[i].copy();
                    v.push(c);
                    proof {
                        assert(chat_views(v@) =~= chat_views(before).push(c@));
                        assert(chat_views(h@).subrange(0, i + 1) =~= chat_views(h@).subrange(0, i as int).push(h@[i as int]@));
                    }
                    i = i + 1;
                }
                assert(chat_views(h@).subrange(0, h@.len() as int) =~= chat_views(h@));
                v
            },
            None => Vec::new(),
        };
        let ghost a2 = out@;
        let last = Outgoing::one(id, ServerRoomMsg::ChatHistory(history));
        assert(last@ == out_one(id, ServerMsgView::ChatHistory(history_of(self.chat_history@, room))));
        out.push(last);
        proof {
            assert(outs_view(out@) =~= outs_view(a2).push(last@));
            assert(system@ == system_line(joined_text(old(self).sessions@[id].name@, as_spectator), now));
            assert(outs_view(out@) =~= o1 + chat_outs(room_sockets_spec(s2, room), system@)
                + update_outs(self.rooms.rooms_map(), room) + seq![
                out_one(id, ServerMsgView::ChatHistory(history_of(self.chat_history@, room))),
            ]);
        }
        out
    }
}

} // verus!

verus! {

/// The system line announcing that `name` left.
pub open spec fn left_line(name: Seq<char>, now: u64) -> ChatView {
    system_line(name + " покинул комнату"@, now)
}

/// Member `name` (of session `id`) leaves `room`: registry `rm_old` becomes
/// `rm_new`, sessions `ss_old` (which may already lack `id`) become `ss_new`,
/// chats `ch_old` become `ch_new`, and `outs` are sent. A closed room loses
/// its history and everybody hears of it; otherwise the leaver gets the new
/// row, the members the leave line, and everybody the room row.
pub open spec fn leave_outcome(
    rm_old: RoomManager,
    rm_new: RoomManager,
    ss_old: Map<SocketId, Session>,
    ss_new: Map<SocketId, Session>,
    ch_old: Map<RoomId, VecDeque<ChatMsg>>,
    ch_new: Map<RoomId, VecDeque<ChatMsg>>,
    id: SocketId,
    room: RoomId,
    name: Seq<char>,
    now: u64,
    outs: Seq<OutView>,
) -> bool {
    &&& ss_new == (if ss_old.contains_key(id) {
        with_room(ss_old, id, None)
    } else {
        ss_old
    })
    &&& exists|res: Result<Option<PvpRoomSummary>, RoomError>|
        #[trigger] leave_spec(rm_old, rm_new, room, name, res) && match res {
            Err(_) => ch_new == ch_old && outs == Seq::<OutView>::empty(),
            Ok(None) => ch_new == ch_old.remove(room) && outs == seq![
                out_all(ServerMsgView::RoomClosed(room)),
            ],
            Ok(Some(sm)) => {
                &&& chat_pushed(ch_old, ch_new, room, left_line(name, now))
                &&& outs == seq![out_one(id, ServerMsgView::LeftRoom(Some(sm@)))] + chat_outs(
                    room_sockets_spec(ss_old, room),
                    left_line(name, now),
                ) + update_outs(rm_new.rooms_map(), room)
            },
        }
}

/// What `LeaveRoom` from session `id` does.
pub open spec fn leave_room_spec(
    old: LobbyHub,
    new: LobbyHub,
    id: SocketId,
    now: u64,
    outs: Seq<OutView>,
) -> bool {
    let ss = old.sessions_map();
    if !ss.contains_key(id) {
        hub_same(old, new) && outs == Seq::<OutView>::empty()
    } else if ss[id].room is None {
        hub_same(old, new) && outs == seq![error_out(id, RoomError::NotInRoom)]
    } else {
        &&& new.next_socket_id() == old.next_socket_id()
        &&& leave_outcome(
            old.rooms_of(),
            new.rooms_of(),
            ss,
            new.sessions_map(),
            old.chats(),
            new.chats(),
            id,
            ss[id].room->0,
            ss[id].name@,
            now,
            outs,
        )
    }
}

/// What the disconnection of socket `id` does: the session is forgotten and,
/// if it was named and in a room, its member leaves the room.
pub open spec fn disconnect_spec(
    old: LobbyHub,
    new: LobbyHub,
    id: SocketId,
    now: u64,
    outs: Seq<OutView>,
) -> bool {
    let ss = old.sessions_map();
    let gone = ss.remove(id);
    &&& new.next_socket_id() == old.next_socket_id()
    &&& if !registered(ss, id) || ss[id].room is None {
        &&& new.rooms_of() == old.rooms_of()
        &&& new.sessions_map() == gone
        &&& new.chats() == old.chats()
        &&& outs == Seq::<OutView>::empty()
    } else {
        leave_outcome(
            old.rooms_of(),
            new.rooms_of(),
            gone,
            new.sessions_map(),
            old.chats(),
            new.chats(),
            id,
            ss[id].room->0,
            ss[id].name@,
            now,
            outs,
        )
    }
}

impl LobbyHub {
    /// Member `name` of session `id` leaves `room`; the session (if it still
    /// exists) is left without a room.
    fn leave_room_impl(&mut self, id: SocketId, room: RoomId, name: &str, now: u64) -> (r: Vec<
        Outgoing,
    >)
        requires
            old(self).wf(),
        ensures
            final(self).wf(),
            final(self).next_socket == old(self).next_socket,
            leave_outcome(
                old(self).rooms_of(),
                final(self).rooms_of(),
                old(self).sessions_map(),
                final(self).sessions_map(),
                old(self).chats(),
                final(self).chats(),
                id,
                room,
                name@,
                now,
                outs_view(r@),
            ),
    {
        let res = self.rooms.leave(room, name);
        let ghost gres = res;
        let mut out: Vec<Outgoing> = Vec::new();
        let ghost ss_old = self.sessions@;
        match res {
            Ok(None) => {
                let _ = self.chat_history.remove(&room);
                out.push(Outgoing::all(ServerRoomMsg::RoomClosed(room)));
                proof {
                    assert forall|x: RoomId| #[trigger] self.chat_history@.contains_key(x) implies self.chat_history@[x]@.len() <= 200 by {
                        assert(old(self).chat_history@.contains_key(x));
                    }
                    assert(outs_view(out@) =~= seq![out_all(ServerMsgView::RoomClosed(room))]);
                }
            },
            Ok(Some(summary)) => {
                let ghost smv = summary@;
                out.push(Outgoing::one(id, ServerRoomMsg::LeftRoom(Some(summary))));
                let mut text = owned(name);
                text.append(" покинул комнату");
                let system = ChatMsg { from: String::new(), text, at: now, system: true };
                assert(system@ == left_line(name@, now));
                let ghost o1 = outs_view(out@);
                let mut pushed = self.push_chat(room, system);
                let ghost pv = outs_view(pushed@);
                out.append(&mut pushed);
                assert(outs_view(out@) =~= o1 + pv);
                let mut upd = self.room_update(room);
                let ghost uv = outs_view(upd@);
                out.append(&mut upd);
                assert(outs_view(out@) =~= o1 + pv + uv);
                assert(o1 =~= seq![out_one(id, ServerMsgView::LeftRoom(Some(smv)))]);
            },
            Err(_) => {
                assert(outs_view(out@) =~= Seq::<OutView>::empty());
            },
        }
        if self.sessions.contains_key(&id) {
            self.set_room(id, None);
        }
        out
    }
    /// `LeaveRoom`: the member of session `id` leaves its room.
    fn leave_room(&mut self, id: SocketId, now: u64) -> (r: Vec<Outgoing>)
        requires
            old(self).wf(),
        ensures
            final(self).wf(),
            leave_room_spec(*old(self), *final(self), id, now, outs_view(r@)),
    {
        let (name, room) = match self.sessions.get(&id) {
            Some(s) => (copy_string(&s.name), s.room),
            None => {
                let out: Vec<Outgoing> = Vec::new();
                assert(outs_view(out@) =~= Seq::<OutView>::empty());
                return out;
            },
        };
        match room {
            None => {
                let out = vec![Outgoing::one(id, ServerRoomMsg::Error { message: RoomError::NotInRoom.message() })];
                assert(outs_view(out@) =~= seq![error_out(id, RoomError::NotInRoom)]);
                out
            },
            Some(room) => self.leave_room_impl(id, room, name.as_str(), now),
        }
    }

    /// The socket `id` went away at time `now`: its member leaves its room
    /// (with the broadcasts of a leave) and the session is forgotten.
    pub fn disconnect_at(&mut self, id: SocketId, now: u64) -> (r: Vec<Outgoing>)
        requires
            old(self).wf(),
        ensures
            final(self).wf(),
            disconnect_spec(*old(self), *final(self), id, now, outs_view(r@)),
    {
        let name = match self.name_of(id) {
            Some(n) => n,
            None => {
                self.forget(id);
                let out: Vec<Outgoing> = Vec::new();
                assert(outs_view(out@) =~= Seq::<OutView>::empty());
                return out;
            },
        };
        let room = match self.sessions.get(&id) {
            Some(s) => s.room,
            None => None,
        };
        self.forget(id);
        match room {
            None => {
                let out: Vec<Outgoing> = Vec::new();
                assert(outs_view(out@) =~= Seq::<OutView>::empty());
                out
            },
            Some(room) => self.leave_room_impl(id, room, name.as_str(), now),
        }
    }

    /// The socket `id` went away: as `disconnect_at` at the current time.
    pub fn disconnect(&mut self, id: SocketId) -> (r: Vec<Outgoing>)
        requires
            old(self).wf(),
        ensures
            final(self).wf(),
            exists|now: u64| disconnect_spec(*old(self), *final(self), id, now, outs_view(r@)),
    {
        let now = now_unix();
        self.disconnect_at(id, now)
    }

    /// Drops session `id`, if any.
    fn forget(&mut self, id: SocketId)
        requires
            old(self).wf(),
        ensures
            final(self).wf(),
            final(self).rooms == old(self).rooms,
            final(self).chat_history == old(self).chat_history,
            final(self).next_socket == old(self).next_socket,
            final(self).sessions@ == old(self).sessions@.remove(id),
    {
        let _ = self.sessions.remove(&id);
        let ghost before = self.sockets@;
        remove_sorted(&mut self.sockets, id);
        proof {
            assert(self.sockets@.to_set() =~= self.sessions@.dom());
        }
    }

}

} // verus!

verus! {

/// The answer to a frame from a session that did not say `Hello`.
pub open spec fn unregistered_out(id: SocketId) -> OutView {
    out_one(id, ServerMsgView::Error { message: unregistered_text() })
}

/// What `CreateRoom(config)` from session `id` does: on success the session's
/// member hosts a new room and enters it at once.
pub open spec fn create_room_spec(
    old: LobbyHub,
    new: LobbyHub,
    id: SocketId,
    config: RoomConfig,
    now: u64,
    outs: Seq<OutView>,
) -> bool {
    let ss = old.sessions_map();
    if !registered(ss, id) {
        hub_same(old, new) && outs == seq![unregistered_out(id)]
    } else {
        exists|res: Result<RoomId, RoomError>|
            #[trigger] create_spec(old.rooms_of(), new.rooms_of(), config, ss[id].name@, res)
                && match res {
                Err(e) => {
                    &&& new.sessions_map() == ss
                    &&& new.chats() == old.chats()
                    &&& new.next_socket_id() == old.next_socket_id()
                    &&& outs == seq![error_out(id, e)]
                },
                Ok(rid) => {
                    &&& entered(old, new, id, rid, false, now)
                    &&& outs == seq![out_one(id, ServerMsgView::RoomCreated(rid))] + entered_outs(
                        old,
                        new,
                        id,
                        rid,
                        false,
                        now,
                    ) + seq![
                        out_all(
                            ServerMsgView::RoomUpdate(summary_of(new.rooms_of().rooms_map()[rid])),
                        ),
                    ]
                },
            }
    }
}

/// What `JoinRoom { room, as_spectator }` from session `id` does.
pub open spec fn join_room_spec(
    old: LobbyHub,
    new: LobbyHub,
    id: SocketId,
    room: RoomId,
    as_spectator: bool,
    now: u64,
    outs: Seq<OutView>,
) -> bool {
    let ss = old.sessions_map();
    if !registered(ss, id) {
        hub_same(old, new) && outs == seq![unregistered_out(id)]
    } else if ss[id].room == Some(room) {
        hub_same(old, new) && outs == seq![error_out(id, RoomError::AlreadyInRoom)]
    } else {
        exists|res: Result<RoomView, RoomError>|
            #[trigger] join_spec(old.rooms_of(), new.rooms_of(), room, ss[id].name@, as_spectator, res)
                && match res {
                Err(e) => {
                    &&& new.sessions_map() == ss
                    &&& new.chats() == old.chats()
                    &&& new.next_socket_id() == old.next_socket_id()
                    &&& outs == seq![
                        out_one(id, ServerMsgView::JoinRejected { reason: error_text(e) }),
                    ]
                },
                Ok(_) => {
                    &&& entered(old, new, id, room, as_spectator, now)
                    &&& outs == entered_outs(old, new, id, room, as_spectator, now)
                },
            }
    }
}

impl LobbyHub {
    /// `CreateRoom`: the session's member hosts a new room and enters it.
    fn create_room(&mut self, id: SocketId, config: RoomConfig, now: u64) -> (r: Vec<Outgoing>)
        requires
            old(self).wf(),
            old(self).rooms_of().next_room_id() < u64::MAX,
        ensures
            final(self).wf(),
            create_room_spec(*old(self), *final(self), id, config, now, outs_view(r@)),
    {
        let name = match self.name_of(id) {
            Some(n) => n,
            None => {
                let out = vec![self.unregistered(id)];
                assert(outs_view(out@) =~= seq![unregistered_out(id)]);
                return out;
            },
        };
        let ghost mid = *self;
        let res = self.rooms.create(config, name.as_str());
        let ghost gres = res;
        match res {
            Ok(room_id) => {
                let mut out = vec![Outgoing::one(id, ServerRoomMsg::RoomCreated(room_id))];
                let ghost o1 = outs_view(out@);
                assert(o1 =~= seq![out_one(id, ServerMsgView::RoomCreated(room_id))]);
                let ghost before_join = *self;
                let mut joined = self.join_room_inner(id, room_id, false, now);
                let ghost jv = outs_view(joined@);
                out.append(&mut joined);
                assert(outs_view(out@) =~= o1 + jv);
                let upd = match self.rooms.get(room_id) {
                    Some(rd) => Outgoing::all(ServerRoomMsg::RoomUpdate(rd.summary_pub())),
                    None => vstd::pervasive::unreached(),
                };
                let ghost last = upd@;
                out.push(upd);
                assert(outs_view(out@) =~= o1 + jv + seq![last]);
                out
            },
            Err(e) => {
                let out = vec![Outgoing::one(id, ServerRoomMsg::Error { message: e.message() })];
                assert(outs_view(out@) =~= seq![error_out(id, e)]);
                out
            },
        }
    }

    /// `JoinRoom`: the session's member joins a room as player or spectator.
    fn join_room(&mut self, id: SocketId, room: RoomId, as_spectator: bool, now: u64) -> (r: Vec<
        Outgoing,
    >)
        requires
            old(self).wf(),
        ensures
            final(self).wf(),
            join_room_spec(*old(self), *final(self), id, room, as_spectator, now, outs_view(r@)),
    {
        let name = match self.name_of(id) {
            Some(n) => n,
            None => {
                let out = vec![self.unregistered(id)];
                assert(outs_view(out@) =~= seq![unregistered_out(id)]);
                return out;
            },
        };
        let current = match self.sessions.get(&id) {
            Some(s) => s.room,
            None => None,
        };
        if current == Some(room) {
            let out = vec![Outgoing::one(id, ServerRoomMsg::Error { message: RoomError::AlreadyInRoom.message() })];
            assert(outs_view(out@) =~= seq![error_out(id, RoomError::AlreadyInRoom)]);
            return out;
        }
        let res = self.rooms.join(room, name.as_str(), as_spectator);
        let ghost gres = res;
        match res {
            Ok(_) => {
                let out = self.join_room_inner(id, room, as_spectator, now);
                assert(join_spec(old(self).rooms_of(), self.rooms_of(), room, old(self).sessions_map()[id].name@, as_spectator, gres));
                out
            },
            Err(e) => {
                let out = vec![Outgoing::one(id, ServerRoomMsg::JoinRejected { reason: e.message() })];
                assert(outs_view(out@) =~= seq![
                    out_one(id, ServerMsgView::JoinRejected { reason: error_text(e) }),
                ]);
                assert(join_spec(old(self).rooms_of(), self.rooms_of(), room, old(self).sessions_map()[id].name@, as_spectator, gres));
                out
            },
        }
    }
}

} // verus!

verus! {

/// The sockets of `socks` whose session is named `name`, in order.
pub open spec fn named_among(ss: Map<SocketId, Session>, socks: Seq<SocketId>, name: Seq<char>) -> Seq<
    SocketId,
>
    decreases socks.len(),
{
    if socks.len() == 0 {
        Seq::empty()
    } else {
        let rest = named_among(ss, socks.drop_last(), name);
        if ss[socks.last()].name@ == name {
            rest.push(socks.last())
        } else {
            rest
        }
    }
}

/// One frame `msg` for each socket of `socks` whose session is named `name`,
/// in the order of `socks`.
pub open spec fn named_frames(
    ss: Map<SocketId, Session>,
    socks: Seq<SocketId>,
    name: Seq<char>,
    msg: ServerMsgView,
) -> Seq<OutView> {
    named_among(ss, socks, name).map_values(|s: SocketId| out_one(s, msg))
}

/// `Started` frames: the sessions named like the player at index `i` of
/// `players` learn that they command army `i`.
pub open spec fn started_frames(
    ss: Map<SocketId, Session>,
    socks: Seq<SocketId>,
    players: Seq<Seq<char>>,
    seed: u64,
) -> Seq<OutView>
    decreases players.len(),
{
    if players.len() == 0 {
        Seq::empty()
    } else {
        started_frames(ss, socks, players.drop_last(), seed) + named_frames(
            ss,
            socks,
            players.last(),
            ServerMsgView::Started { your_army: (players.len() - 1) as usize, ini_seed: seed },
        )
    }
}

/// The sessions of `socks` named `name` lose their room.
pub open spec fn unseat(ss: Map<SocketId, Session>, socks: Seq<SocketId>, name: Seq<char>) -> Map<
    SocketId,
    Session,
>
    decreases socks.len(),
{
    if socks.len() == 0 {
        ss
    } else {
        let rest = unseat(ss, socks.drop_last(), name);
        if ss[socks.last()].name@ == name {
            with_room(rest, socks.last(), None)
        } else {
            rest
        }
    }
}

/// What `StartBattle` from session `id` does at time `now`.
pub open spec fn start_battle_spec(
    old: LobbyHub,
    new: LobbyHub,
    id: SocketId,
    now: u64,
    outs: Seq<OutView>,
) -> bool {
    let ss = old.sessions_map();
    if !ss.contains_key(id) || ss[id].room is None {
        hub_same(old, new) && outs == seq![error_out(id, RoomError::NotInRoom)]
    } else {
        let room = ss[id].room->0;
        let socks = room_sockets_spec(ss, room);
        let m = system_line("Батл начался"@, now);
        &&& new.sessions_map() == ss
        &&& new.next_socket_id() == old.next_socket_id()
        &&& exists|res: Result<(), RoomError>|
            #[trigger] start_spec(old.rooms_of(), new.rooms_of(), room, ss[id].name@, res)
                && match res {
                Err(e) => new.chats() == old.chats() && outs == seq![error_out(id, e)],
                Ok(_) => {
                    &&& chat_pushed(old.chats(), new.chats(), room, m)
                    &&& outs == chat_outs(socks, m) + started_frames(
                        ss,
                        socks,
                        names(new.rooms_of().rooms_map()[room].players@),
                        now,
                    ) + update_outs(new.rooms_of().rooms_map(), room)
                },
            }
    }
}

/// What `Kick { member }` from session `id` does at time `now`.
pub open spec fn kick_room_spec(
    old: LobbyHub,
    new: LobbyHub,
    id: SocketId,
    member: Seq<char>,
    now: u64,
    outs: Seq<OutView>,
) -> bool {
    let ss = old.sessions_map();
    if !ss.contains_key(id) || ss[id].room is None {
        hub_same(old, new) && outs == seq![error_out(id, RoomError::NotInRoom)]
    } else {
        let room = ss[id].room->0;
        let socks = room_sockets_spec(ss, room);
        let ss2 = unseat(ss, socks, member);
        let m = system_line(member + " кикнут хостом"@, now);
        &&& new.next_socket_id() == old.next_socket_id()
        &&& exists|res: Result<PvpRoomSummary, RoomError>|
            #[trigger] kick_spec(old.rooms_of(), new.rooms_of(), room, ss[id].name@, member, res)
                && match res {
                Err(e) => {
                    &&& new.sessions_map() == ss
                    &&& new.chats() == old.chats()
                    &&& outs == seq![error_out(id, e)]
                },
                Ok(_) => {
                    &&& new.sessions_map() == ss2
                    &&& chat_pushed(old.chats(), new.chats(), room, m)
                    &&& outs == named_frames(ss, socks, member, ServerMsgView::Kicked(member))
                        + chat_outs(room_sockets_spec(ss2, room), m) + update_outs(
                        new.rooms_of().rooms_map(),
                        room,
                    )
                },
            }
    }
}

proof fn lemma_named_step(ss: Map<SocketId, Session>, socks: Seq<SocketId>, i: int, name: Seq<char>)
    requires
        0 <= i < socks.len(),
    ensures
        named_among(ss, socks.subrange(0, i + 1), name) == if ss[socks[i]].name@ == name {
            named_among(ss, socks.subrange(0, i), name).push(socks[i])
        } else {
            named_among(ss, socks.subrange(0, i), name)
        },
        unseat(ss, socks.subrange(0, i + 1), name) == if ss[socks[i]].name@ == name {
            with_room(unseat(ss, socks.subrange(0, i), name), socks[i], None)
        } else {
            unseat(ss, socks.subrange(0, i), name)
        },
{
    assert(socks.subrange(0, i + 1).drop_last() =~= socks.subrange(0, i));
}

proof fn lemma_named_frames_step(
    ss: Map<SocketId, Session>,
    socks: Seq<SocketId>,
    i: int,
    name: Seq<char>,
    msg: ServerMsgView,
)
    requires
        0 <= i < socks.len(),
    ensures
        named_frames(ss, socks.subrange(0, i + 1), name, msg) == if ss[socks[i]].name@ == name {
            named_frames(ss, socks.subrange(0, i), name, msg).push(out_one(socks[i], msg))
        } else {
            named_frames(ss, socks.subrange(0, i), name, msg)
        },
{
    lemma_named_step(ss, socks, i, name);
    let f = |s: SocketId| out_one(s, msg);
    if ss[socks[i]].name@ == name {
        assert(named_among(ss, socks.subrange(0, i), name).push(socks[i]).map_values(f)
            =~= named_among(ss, socks.subrange(0, i), name).map_values(f).push(out_one(socks[i], msg)));
    }
}

impl LobbyHub {
    /// The sockets of `socks` whose session is named `name`.
    fn named_in(&self, socks: &Vec<SocketId>, name: &str) -> (r: Vec<SocketId>)
        requires
            forall|k: int| 0 <= k < socks@.len() ==> self.sessions@.contains_key(#[trigger] socks@[k]),
        ensures
            r@ == named_among(self.sessions@, socks@, name@),
    {
        let mut out: Vec<SocketId> = Vec::new();
        let mut i: usize = 0;
        while i < socks.len()
            invariant
                i <= socks.len(),
                forall|k: int| 0 <= k < socks@.len() ==> self.sessions@.contains_key(#[trigger] socks@[k]),
                out@ == named_among(self.sessions@, socks@.subrange(0, i as int), name@),
            decreases socks.len() - i,
        {
            proof {
                lemma_named_step(self.sessions@, socks@, i as int, name@);
            }
            let sock = socks[i];
            let hit = match self.sessions.get(&sock) {
                Some(s) => str_eq(s.name.as_str(), name),
                None => vstd::pervasive::unreached(),
            };
            if hit {
                out.push(sock);
            }
            i = i + 1;
        }
        assert(socks@.subrange(0, socks@.len() as int) =~= socks@);
        out
    }
}

} // verus!

verus! {

proof fn lemma_room_sockets_live(ss: Map<SocketId, Session>, room: RoomId, socks: Seq<SocketId>)
    requires
        socks.to_set() == sockets_in(ss, room),
    ensures
        forall|k: int| 0 <= k < socks.len() ==> ss.contains_key(#[trigger] socks[k]),
{
    assert forall|k: int| 0 <= k < socks.len() implies ss.contains_key(#[trigger] socks[k]) by {
        assert(socks.to_set().contains(socks[k]));
    }
}

proof fn lemma_started_step(
    ss: Map<SocketId, Session>,
    socks: Seq<SocketId>,
    players: Seq<Seq<char>>,
    i: int,
    seed: u64,
)
    requires
        0 <= i < players.len(),
    ensures
        started_frames(ss, socks, players.subrange(0, i + 1), seed) == started_frames(
            ss,
            socks,
            players.subrange(0, i),
            seed,
        ) + named_frames(
            ss,
            socks,
            players[i],
            ServerMsgView::Started { your_army: i as usize, ini_seed: seed },
        ),
{
    assert(players.subrange(0, i + 1).drop_last() =~= players.subrange(0, i));
}

impl LobbyHub {
    /// The member of session `id`, with the room it is in.
    fn seat_of(&self, id: SocketId) -> (r: Option<(String, RoomId)>)
        ensures
            match r {
                Some((n, room)) => self.sessions@.contains_key(id) && self.sessions@[id].room
                    == Some(room) && n@ == self.sessions@[id].name@,
                None => !self.sessions@.contains_key(id) || self.sessions@[id].room is None,
            },
    {
        match self.sessions.get(&id) {
            Some(s) => match s.room {
                Some(room) => Some((copy_string(&s.name), room)),
                None => None,
            },
            None => None,
        }
    }

    /// `StartBattle`: the host starts the battle; each player's sessions learn
    /// their army and the shared initiative seed `now`.
    fn start_battle(&mut self, id: SocketId, now: u64) -> (r: Vec<Outgoing>)
        requires
            old(self).wf(),
        ensures
            final(self).wf(),
            start_battle_spec(*old(self), *final(self), id, now, outs_view(r@)),
    {
        let (name, room) = match self.seat_of(id) {
            Some(x) => x,
            None => {
                let out = vec![Outgoing::one(id, ServerRoomMsg::Error { message: RoomError::NotInRoom.message() })];
                assert(outs_view(out@) =~= seq![error_out(id, RoomError::NotInRoom)]);
                return out;
            },
        };
        let res = self.rooms.start(room, name.as_str());
        let ghost gres = res;
        match res {
            Err(e) => {
                let out = vec![Outgoing::one(id, ServerRoomMsg::Error { message: e.message() })];
                assert(outs_view(out@) =~= seq![error_out(id, e)]);
                assert(start_spec(old(self).rooms_of(), self.rooms_of(), room, old(self).sessions_map()[id].name@, gres));
                return out;
            },
            Ok(()) => {},
        }
        let system = ChatMsg { from: String::new(), text: String::from_str("Батл начался"), at: now, system: true };
        proof {
            reveal_strlit("Батл начался");
        }
        let mut out = self.push_chat(room, system);
        let ghost o1 = outs_view(out@);
        let players = match self.rooms.view(room) {
            Ok(v) => v.players,
            Err(_) => vstd::pervasive::unreached(),
        };
        let socks = self.room_sockets(room);
        proof {
            lemma_room_sockets_live(self.sessions@, room, socks@);
        }
        let ghost pl = names(players@);
        let mut idx: usize = 0;
        while idx < players.len()
            invariant
                idx <= players.len(),
                pl == names(players@),
                forall|k: int| 0 <= k < socks@.len() ==> self.sessions@.contains_key(#[trigger] socks@[k]),
                outs_view(out@) == o1 + started_frames(self.sessions@, socks@, pl.subrange(0, idx as int), now),
            decreases players.len() - idx,
        {
            proof {
                lemma_started_step(self.sessions@, socks@, pl, idx as int, now);
            }
            let to = self.named_in(&socks, players[idx].as_str());
            let ghost before = out@;
            let mut j: usize = 0;
            while j < to.len()
                invariant
                    j <= to.len(),
                    outs_view(out@) == outs_view(before) + to@.subrange(0, j as int).map_values(
                        |s: SocketId| out_one(s, ServerMsgView::Started { your_army: idx, ini_seed: now }),
                    ),
                decreases to.len() - j,
            {
                let ghost b2 = out@;
                let o = Outgoing::one(to[j], ServerRoomMsg::Started { your_army: idx, ini_seed: now });
                out.push(o);
                assert(outs_view(out@) =~= outs_view(b2).push(o@));
                assert(to@.subrange(0, j + 1).map_values(
                    |s: SocketId| out_one(s, ServerMsgView::Started { your_army: idx, ini_seed: now }),
                ) =~= to@.subrange(0, j as int).map_values(
                    |s: SocketId| out_one(s, ServerMsgView::Started { your_army: idx, ini_seed: now }),
                ).push(o@));
                j = j + 1;
            }
            assert(to@.subrange(0, to@.len() as int) =~= to@);
            assert(outs_view(out@) =~= o1 + started_frames(self.sessions@, socks@, pl.subrange(0, idx + 1), now));
            idx = idx + 1;
        }
        assert(pl.subrange(0, pl.len() as int) =~= pl);
        let ghost a2 = outs_view(out@);
        let mut upd = self.room_update(room);
        let ghost uv = outs_view(upd@);
        out.append(&mut upd);
        assert(outs_view(out@) =~= a2 + uv);
        assert(start_spec(old(self).rooms_of(), self.rooms_of(), room, old(self).sessions_map()[id].name@, gres));
        out
    }
}

} // verus!

verus! {

proof fn lemma_unseat_keeps(ss: Map<SocketId, Session>, socks: Seq<SocketId>, name: Seq<char>)
    requires
        forall|k: int| 0 <= k < socks.len() ==> ss.contains_key(#[trigger] socks[k]),
    ensures
        unseat(ss, socks, name).dom() == ss.dom(),
        forall|k: SocketId| #[trigger]
            ss.contains_key(k) ==> unseat(ss, socks, name)[k].name == ss[k].name
                && unseat(ss, socks, name)[k].chat_times == ss[k].chat_times,
    decreases socks.len(),
{
    if socks.len() > 0 {
        lemma_unseat_keeps(ss, socks.drop_last(), name);
        let rest = unseat(ss, socks.drop_last(), name);
        if ss[socks.last()].name@ == name {
            assert(rest.contains_key(socks.last()));
            assert(with_room(rest, socks.last(), None).dom() =~= ss.dom());
        }
    }
}

/// `a` without what `now` makes older than the rate window.
pub open spec fn sat_sub(a: u64, b: u64) -> u64 {
    if a > b {
        (a - b) as u64
    } else {
        0
    }
}

/// Send times of a session's chat lines, without the leading ones that are
/// more than `CHAT_RATE_WINDOW_SECS` before `now`.
pub open spec fn pruned(times: Seq<u64>, now: u64) -> Seq<u64>
    decreases times.len(),
{
    if times.len() > 0 && sat_sub(now, times[0]) > 10 {
        pruned(times.drop_first(), now)
    } else {
        times
    }
}

/// The text of a chat line: trimmed and cut to `CHAT_MAX_LEN` characters.
pub open spec fn chat_text(text: Seq<char>) -> Seq<char> {
    let t = trim(text);
    if t.len() > 300 {
        t.subrange(0, 300)
    } else {
        t
    }
}

/// What `Chat { text }` from session `id` does at time `now`.
pub open spec fn chat_spec(
    old: LobbyHub,
    new: LobbyHub,
    id: SocketId,
    text: Seq<char>,
    now: u64,
    outs: Seq<OutView>,
) -> bool {
    let ss = old.sessions_map();
    if !ss.contains_key(id) || ss[id].room is None {
        hub_same(old, new) && outs == seq![error_out(id, RoomError::NotInRoom)]
    } else if trim(text).len() == 0 {
        hub_same(old, new) && outs == Seq::<OutView>::empty()
    } else {
        let room = ss[id].room->0;
        let times = pruned(ss[id].chat_times@, now);
        let ns = new.sessions_map();
        let m = ChatView { from: ss[id].name@, text: chat_text(text), at: now, system: false };
        &&& new.rooms_of() == old.rooms_of()
        &&& new.next_socket_id() == old.next_socket_id()
        &&& ns.dom() == ss.dom()
        &&& forall|k: SocketId| k != id && #[trigger] ss.contains_key(k) ==> ns[k] == ss[k]
        &&& ns[id].name == ss[id].name
        &&& ns[id].room == ss[id].room
        &&& if times.len() >= 5 {
            &&& ns[id].chat_times@ == times
            &&& new.chats() == old.chats()
            &&& outs == seq![out_one(id, ServerMsgView::Error { message: rate_limited_text() })]
        } else {
            &&& ns[id].chat_times@ == times.push(now)
            &&& chat_pushed(old.chats(), new.chats(), room, m)
            &&& outs == chat_outs(room_sockets_spec(ss, room), m)
        }
    }
}

impl LobbyHub {
    /// `Kick`: the host removes `member`; its sessions get `Kicked` and lose
    /// the room.
    fn kick(&mut self, id: SocketId, member: &str, now: u64) -> (r: Vec<Outgoing>)
        requires
            old(self).wf(),
        ensures
            final(self).wf(),
            kick_room_spec(*old(self), *final(self), id, member@, now, outs_view(r@)),
    {
        let (name, room) = match self.seat_of(id) {
            Some(x) => x,
            None => {
                let out = vec![Outgoing::one(id, ServerRoomMsg::Error { message: RoomError::NotInRoom.message() })];
                assert(outs_view(out@) =~= seq![error_out(id, RoomError::NotInRoom)]);
                return out;
            },
        };
        let res = self.rooms.kick(room, name.as_str(), member);
        let ghost gres = res;
        match res {
            Err(e) => {
                let out = vec![Outgoing::one(id, ServerRoomMsg::Error { message: e.message() })];
                assert(outs_view(out@) =~= seq![error_out(id, e)]);
                assert(kick_spec(old(self).rooms_of(), self.rooms_of(), room, old(self).sessions_map()[id].name@, member@, gres));
                assert(room == old(self).sessions_map()[id].room->0);
                assert(outs_view(out@) == seq![error_out(id, gres->Err_0)]);
                return out;
            },
            Ok(_) => {},
        }
        let ghost ss = self.sessions@;
        let socks = self.room_sockets(room);
        proof {
            lemma_room_sockets_live(ss, room, socks@);
        }
        let ghost kicked = ServerMsgView::Kicked(member@);
        let ghost rm = self.rooms;
        let ghost ch = self.chat_history;
        let mut out: Vec<Outgoing> = Vec::new();
        let mut i: usize = 0;
        while i < socks.len()
            invariant
                self.wf(),
                i <= socks.len(),
                self.rooms == rm,
                self.chat_history == ch,
                kicked == ServerMsgView::Kicked(member@),
                self.next_socket == old(self).next_socket,
                forall|k: int| 0 <= k < socks@.len() ==> ss.contains_key(#[trigger] socks@[k]),
                self.sessions@ == unseat(ss, socks@.subrange(0, i as int), member@),
                outs_view(out@) == named_frames(ss, socks@.subrange(0, i as int), member@, kicked),
            decreases socks.len() - i,
        {
            proof {
                lemma_named_step(ss, socks@, i as int, member@);
                lemma_unseat_keeps(ss, socks@.subrange(0, i as int), member@);
            }
            let sock = socks[i];
            let hit = match self.sessions.get(&sock) {
                Some(s) => str_eq(s.name.as_str(), member),
                None => vstd::pervasive::unreached(),
            };
            let ghost before = out@;
            if hit {
                let who = owned(member);
                let ghost wv = who@;
                assert(wv == member@);
                let o = Outgoing::one(sock, ServerRoomMsg::Kicked(who));
                assert(o@.msg == ServerMsgView::Kicked(wv));
                assert(o@ == out_one(sock, kicked));
                out.push(o);
                self.set_room(sock, None);
                assert(outs_view(out@) =~= outs_view(before).push(o@));
            }
            proof {
                lemma_named_frames_step(ss, socks@, i as int, member@, kicked);
                assert(hit == (ss[sock].name@ == member@));
                if hit {
                    assert(outs_view(out@) == named_frames(ss, socks@.subrange(0, i as int), member@, kicked).push(out_one(sock, kicked)));
                } else {
                    assert(outs_view(out@) == named_frames(ss, socks@.subrange(0, i as int), member@, kicked));
                }
            }
            i = i + 1;
        }
        assert(socks@.subrange(0, socks@.len() as int) =~= socks@);
        let ghost o1 = outs_view(out@);
        let mut text = owned(member);
        text.append(" кикнут хостом");
        let system = ChatMsg { from: String::new(), text, at: now, system: true };
        let mut pushed = self.push_chat(room, system);
        let ghost pv = outs_view(pushed@);
        out.append(&mut pushed);
        let mut upd = self.room_update(room);
        let ghost uv = outs_view(upd@);
        out.append(&mut upd);
        assert(outs_view(out@) =~= o1 + pv + uv);
        assert(kick_spec(old(self).rooms_of(), self.rooms_of(), room, old(self).sessions_map()[id].name@, member@, gres));
        assert(room == old(self).sessions_map()[id].room->0);
        assert(old(self).sessions_map().contains_key(id));
        assert(system@ == system_line(member@ + " кикнут хостом"@, now));
        assert(kick_room_spec(*old(self), *self, id, member@, now, outs_view(out@)));
        out
    }
}

} // verus!

verus! {

/// Whether the oldest send time is out of the rate window at `now`.
fn stale_front(times: &VecDeque<u64>, now: u64) -> (r: bool)
    ensures
        r == (times@.len() > 0 && sat_sub(now, times@[0]) > 10),
{
    if times.len() == 0 {
        return false;
    }
    let first = times[0];
    let age = if now > first {
        now - first
    } else {
        0
    };
    age > 10
}

proof fn lemma_pruned_step(times: Seq<u64>, now: u64)
    requires
        times.len() > 0,
        sat_sub(now, times[0]) > 10,
    ensures
        pruned(times, now) == pruned(times.drop_first(), now),
{
}

impl LobbyHub {
    /// `Chat`: a line from the session's member to its room, trimmed and cut
    /// to `CHAT_MAX_LEN` characters, unless it is blank or over the rate limit.
    fn chat(&mut self, id: SocketId, text: &str, now: u64) -> (r: Vec<Outgoing>)
        requires
            old(self).wf(),
        ensures
            final(self).wf(),
            chat_spec(*old(self), *final(self), id, text@, now, outs_view(r@)),
    {
        let (name, room) = match self.seat_of(id) {
            Some(x) => x,
            None => {
                let out = vec![Outgoing::one(id, ServerRoomMsg::Error { message: RoomError::NotInRoom.message() })];
                assert(outs_view(out@) =~= seq![error_out(id, RoomError::NotInRoom)]);
                return out;
            },
        };
        let t = trim_str(text);
        let len = t.unicode_len();
        if len == 0 {
            let out: Vec<Outgoing> = Vec::new();
            assert(outs_view(out@) =~= Seq::<OutView>::empty());
            return out;
        }
        let cut = if len > 300 {
            t.substring_char(0, 300)
        } else {
            t
        };
        assert(cut@ == chat_text(text@));
        let ghost ss = self.sessions@;
        let mut s = match self.sessions.remove(&id) {
            Some(s) => s,
            None => vstd::pervasive::unreached(),
        };
        let ghost t0 = s.chat_times@;
        while stale_front(&s.chat_times, now)
            invariant
                pruned(s.chat_times@, now) == pruned(t0, now),
                s.name == ss[id].name,
                s.room == ss[id].room,
            decreases s.chat_times@.len(),
        {
            proof {
                lemma_pruned_step(s.chat_times@, now);
                assert(s.chat_times@.drop_first() =~= s.chat_times@.subrange(1, s.chat_times@.len() as int));
            }
            let _ = s.chat_times.pop_front();
        }
        assert(pruned(s.chat_times@, now) == s.chat_times@);
        if s.chat_times.len() >= 5 {
            self.sessions.insert(id, s);
            proof {
                assert(self.sessions@.dom() =~= ss.dom());
                assert forall|x: SocketId| #[trigger] self.sessions@.contains_key(x) implies x < self.next_socket by {
                    assert(ss.contains_key(x));
                }
            }
            let out = vec![Outgoing::one(id, ServerRoomMsg::Error { message: String::from_str("Слишком много сообщений, подождите") })];
            assert(outs_view(out@) =~= seq![out_one(id, ServerMsgView::Error { message: rate_limited_text() })]);
            return out;
        }
        s.chat_times.push_back(now);
        self.sessions.insert(id, s);
        proof {
            assert(self.sessions@.dom() =~= ss.dom());
            assert forall|x: SocketId| #[trigger] self.sessions@.contains_key(x) implies x < self.next_socket by {
                assert(ss.contains_key(x));
            }
            assert(sockets_in(self.sessions@, room) =~= sockets_in(ss, room));
        }
        let msg = ChatMsg { from: name, text: owned(cut), at: now, system: false };
        self.push_chat(room, msg)
    }
}

} // verus!

verus! {

/// A row of a room that still takes players.
pub open spec fn is_open(r: SummaryView) -> bool {
    r.status == RoomStatus::Lobby && r.players < r.players_max
}

/// The open rows of `rows`, in order.
pub open spec fn open_rows(rows: Seq<SummaryView>) -> Seq<SummaryView>
    decreases rows.len(),
{
    if rows.len() == 0 {
        rows
    } else {
        let rest = open_rows(rows.drop_last());
        if is_open(rows.last()) {
            rest.push(rows.last())
        } else {
            rest
        }
    }
}

/// The rows of the room table, by increasing room id.
pub open spec fn room_rows(rm: RoomManager) -> Seq<SummaryView> {
    rm.room_ids().map_values(|id: RoomId| summary_of(rm.rooms_map()[id]))
}

/// The answer to `ListRooms { open_only }`.
pub open spec fn listed(rm: RoomManager, open_only: bool) -> Seq<SummaryView> {
    if open_only {
        open_rows(room_rows(rm))
    } else {
        room_rows(rm)
    }
}

/// What a frame `msg` from socket `id` does at time `now`. Every frame but
/// `Hello` needs a session that said `Hello`.
pub open spec fn handle_spec(
    old: LobbyHub,
    new: LobbyHub,
    id: SocketId,
    msg: ClientRoomMsg,
    now: u64,
    outs: Seq<OutView>,
) -> bool {
    if !(msg is Hello) && !registered(old.sessions_map(), id) {
        hub_same(old, new) && outs == seq![unregistered_out(id)]
    } else {
        match msg {
            ClientRoomMsg::Hello { name } => {
                &&& new.rooms_of() == old.rooms_of()
                &&& new.chats() == old.chats()
                &&& new.next_socket_id() == old.next_socket_id()
                &&& hello_spec(old.sessions_map(), new.sessions_map(), id, name@, outs)
            },
            ClientRoomMsg::ListRooms { open_only } => hub_same(old, new) && outs == seq![
                out_one(id, ServerMsgView::RoomList(listed(old.rooms_of(), open_only))),
            ],
            ClientRoomMsg::CreateRoom(config) => create_room_spec(old, new, id, config, now, outs),
            ClientRoomMsg::JoinRoom { room, as_spectator } => join_room_spec(
                old,
                new,
                id,
                room,
                as_spectator,
                now,
                outs,
            ),
            ClientRoomMsg::LeaveRoom => leave_room_spec(old, new, id, now, outs),
            ClientRoomMsg::StartBattle => start_battle_spec(old, new, id, now, outs),
            ClientRoomMsg::Kick { member } => kick_room_spec(old, new, id, member@, now, outs),
            ClientRoomMsg::Chat { text } => chat_spec(old, new, id, text@, now, outs),
        }
    }
}

impl LobbyHub {
    /// The room table, or its open rows only.
    fn list_rooms(&self, open_only: bool) -> (r: Vec<PvpRoomSummary>)
        requires
            self.wf(),
        ensures
            summary_views(r@) == listed(self.rooms_of(), open_only),
    {
        let all = self.rooms.list();
        let ghost rows = room_rows(self.rooms);
        assert(summary_views(all@) =~= rows);
        if !open_only {
            return all;
        }
        let mut out: Vec<PvpRoomSummary> = Vec::new();
        let mut i: usize = 0;
        while i < all.len()
            invariant
                i <= all.len(),
                summary_views(all@) == rows,
                summary_views(out@) == open_rows(rows.subrange(0, i as int)),
            decreases all.len() - i,
        {
            proof {
                assert(rows.subrange(0, i + 1).drop_last() =~= rows.subrange(0, i as int));
                assert(rows[i as int] == all@[i as int]@);
            }
            let row = &all[i];
            if row.status == RoomStatus::Lobby && row.players < row.players_max {
                let ghost before = out@;
                out.push(row.copy());
                assert(summary_views(out@) =~= summary_views(before).push(row@));
            }
            i = i + 1;
        }
        assert(rows.subrange(0, rows.len() as int) =~= rows);
        out
    }

    /// Handles a frame `msg` from socket `id` at time `now` and returns the
    /// frames to send.
    pub fn handle_at(&mut self, id: SocketId, msg: ClientRoomMsg, now: u64) -> (r: Vec<Outgoing>)
        requires
            old(self).wf(),
            msg is Hello ==> old(self).next_socket_id() < u64::MAX,
            msg is CreateRoom ==> old(self).rooms_of().next_room_id() < u64::MAX,
        ensures
            final(self).wf(),
            handle_spec(*old(self), *final(self), id, msg, now, outs_view(r@)),
    {
        let is_hello = match &msg {
            ClientRoomMsg::Hello { .. } => true,
            _ => false,
        };
        if !is_hello {
            let named = match self.sessions.get(&id) {
                Some(s) => s.is_named(),
                None => false,
            };
            if !named {
                let out = vec![self.unregistered(id)];
                assert(outs_view(out@) =~= seq![unregistered_out(id)]);
                return out;
            }
        }
        match msg {
            ClientRoomMsg::Hello { name } => self.hello(id, name.as_str()),
            ClientRoomMsg::ListRooms { open_only } => {
                let list = self.list_rooms(open_only);
                let out = vec![Outgoing::one(id, ServerRoomMsg::RoomList(list))];
                assert(outs_view(out@) =~= seq![
                    out_one(id, ServerMsgView::RoomList(listed(self.rooms_of(), open_only))),
                ]);
                out
            },
            ClientRoomMsg::CreateRoom(config) => self.create_room(id, config, now),
            ClientRoomMsg::JoinRoom { room, as_spectator } => self.join_room(id, room, as_spectator, now),
            ClientRoomMsg::LeaveRoom => self.leave_room(id, now),
            ClientRoomMsg::StartBattle => self.start_battle(id, now),
            ClientRoomMsg::Kick { member } => self.kick(id, member.as_str(), now),
            ClientRoomMsg::Chat { text } => self.chat(id, text.as_str(), now),
        }
    }

    /// Handles a frame `msg` from socket `id` at the current time.
    pub fn handle(&mut self, id: SocketId, msg: ClientRoomMsg) -> (r: Vec<Outgoing>)
        requires
            old(self).wf(),
            msg is Hello ==> old(self).next_socket_id() < u64::MAX,
            msg is CreateRoom ==> old(self).rooms_of().next_room_id() < u64::MAX,
        ensures
            final(self).wf(),
            exists|now: u64| handle_spec(*old(self), *final(self), id, msg, now, outs_view(r@)),
    {
        let now = now_unix();
        self.handle_at(id, msg, now)
    }
}

/// The names `n#k` for `k` in `2 .. m + 2`.
spec fn suffix_set(n: Seq<char>, m: nat) -> Set<Seq<char>> {
    Set::new(|s: Seq<char>| exists|k: nat| 2 <= k < m + 2 && s == suffixed(n, k))
}

proof fn lemma_suffix_set(n: Seq<char>, m: nat)
    ensures
        suffix_set(n, m).finite(),
        suffix_set(n, m).len() == m,
    decreases m,
{
    if m == 0 {
        assert(suffix_set(n, 0) =~= Set::<Seq<char>>::empty());
    } else {
        let prev = (m - 1) as nat;
        lemma_suffix_set(n, prev);
        let x = suffixed(n, m + 1);
        assert(suffix_set(n, m) =~= suffix_set(n, prev).insert(x)) by {
            assert forall|s: Seq<char>| suffix_set(n, m).contains(s) implies suffix_set(n, prev).insert(x).contains(s) by {
                let k = choose|k: nat| 2 <= k < m + 2 && s == suffixed(n, k);
                if k < prev + 2 {
                    assert(suffix_set(n, prev).contains(s));
                }
            }
        }
        assert(!suffix_set(n, prev).contains(x)) by {
            if suffix_set(n, prev).contains(x) {
                let k = choose|k: nat| 2 <= k < prev + 2 && x == suffixed(n, k);
                lemma_suffixed_injective(n, k, m + 1);
            }
        }
    }
}

proof fn lemma_least_free(taken: Set<Seq<char>>, n: Seq<char>, k0: nat)
    requires
        k0 >= 2,
        !taken.contains(suffixed(n, k0)),
    ensures
        exists|k: nat|
            k >= 2 && !taken.contains(suffixed(n, k)) && forall|j: nat|
                2 <= j < k ==> taken.contains(#[trigger] suffixed(n, j)),
    decreases k0,
{
    if forall|j: nat| 2 <= j < k0 ==> taken.contains(#[trigger] suffixed(n, j)) {
    } else {
        let j = choose|j: nat| 2 <= j < k0 && !taken.contains(#[trigger] suffixed(n, j));
        lemma_least_free(taken, n, j);
    }
}

/// The name that `Hello` grants is in use by nobody: `n` itself when it is
/// free, else `n#k` for the least free `k` from 2 on, which exists since
/// only finitely many names are in use.
pub proof fn lemma_unique_name_is_free(taken: Set<Seq<char>>, n: Seq<char>)
    requires
        taken.finite(),
    ensures
        !taken.contains(unique_name(taken, n)),
{
    if taken.contains(n) {
        let m = taken.len() + 1;
        lemma_suffix_set(n, m);
        if forall|k: nat| 2 <= k < m + 2 ==> taken.contains(#[trigger] suffixed(n, k)) {
            assert(suffix_set(n, m).subset_of(taken));
            vstd::set_lib::lemma_len_subset(suffix_set(n, m), taken);
        }
        let k0 = choose|k: nat| 2 <= k < m + 2 && !taken.contains(#[trigger] suffixed(n, k));
        lemma_least_free(taken, n, k0);
    }
}

/// Only finitely many names are in use by the sessions of a hub.
pub proof fn lemma_taken_names_finite(sessions: Map<SocketId, Session>)
    requires
        sessions.dom().finite(),
    ensures
        taken_names(sessions).finite(),
{
    let f = |id: SocketId| sessions[id].name@;
    sessions.dom().lemma_map_finite(f);
    assert(taken_names(sessions) =~= sessions.dom().map(f));
}

impl LobbyHub {
    /// A name granted by `Hello` to a session of this hub is held by no
    /// session of the hub before it (see `hello_spec`).
    pub proof fn lemma_hello_name_is_new(&self, name: Seq<char>)
        ensures
            !taken_names(self.sessions_map()).contains(unique_name(taken_names(self.sessions_map()), trim(name))),
    {
        assert(self.sessions@.dom().finite());
        lemma_taken_names_finite(self.sessions@);
        lemma_unique_name_is_free(taken_names(self.sessions_map()), trim(name));
    }
}

} // verus!
