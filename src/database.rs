//! The store behind the service: users, session tokens, rooms and their members,
//! messages, and friend/block associations, with the uniqueness rules that a
//! relational schema would enforce by its keys.
use vstd::prelude::*;
use crate::seqs::{
    lemma_filter_ordered, lemma_filter_step, lemma_map_ordered, lemma_map_push, lemma_views_push, ordered_by, views,
};
use crate::models::{
    ChatMessage, ChatMessageView, ChatRoom, DBAuthInfo, DBRoomMember, DBUser, MySqlBool,
    TokenInfoView, UserInfo, UserInfoView,
};
use crate::text::{
    contains_ignore_ascii_case, contains_ignore_case, eq_ignore_ascii_case, eq_ignore_case,
    eq_ignore_case_symmetric, eq_ignore_case_transitive,
};

verus! {

#[derive(Debug, Clone, Copy, PartialEq, Eq, Structural)]
pub enum DatabaseServiceError {
    /// No row matched.
    NoResult,
    /// A row with the same key exists already.
    KeyAlreadyExists,
    /// The identifiers of a table are used up.
    Exhausted,
}

pub type DBResult<T> = Result<T, DatabaseServiceError>;

#[derive(Debug, Clone, Copy, PartialEq, Eq, Structural)]
pub enum AssociationKind {
    Friend,
    Block,
}

/// A directed association `user_id -> other_user_id`.
#[derive(Debug, Clone, Copy, PartialEq, Eq, Structural)]
pub struct AssociationRow {
    pub user_id: u64,
    pub other_user_id: u64,
    pub kind: AssociationKind,
}

pub struct TokenRow {
    pub token: u128,
    pub user_id: u64,
    pub user_agent: String,
    pub time_set: i64,
}

pub struct MessageRow {
    pub id: u64,
    pub room_id: u64,
    pub sender_id: u64,
    pub body: String,
    pub time_sent: i64,
}

pub struct UserView {
    pub id: u64,
    pub username: Seq<char>,
    pub password_hash: Seq<char>,
}

pub struct TokenView {
    pub token: u128,
    pub user_id: u64,
    pub user_agent: Seq<char>,
    pub time_set: i64,
}

pub struct RoomView {
    pub id: u64,
    pub name: Seq<char>,
}

pub struct MessageView {
    pub id: u64,
    pub room_id: u64,
    pub sender_id: u64,
    pub body: Seq<char>,
    pub time_sent: i64,
}

impl View for DBUser {
    type V = UserView;

    open spec fn view(&self) -> UserView {
        UserView { id: self.id, username: self.username@, password_hash: self.password_hash@ }
    }
}

impl View for TokenRow {
    type V = TokenView;

    open spec fn view(&self) -> TokenView {
        TokenView {
            token: self.token,
            user_id: self.user_id,
            user_agent: self.user_agent@,
            time_set: self.time_set,
        }
    }
}

impl View for ChatRoom {
    type V = RoomView;

    open spec fn view(&self) -> RoomView {
        RoomView { id: self.id, name: self.name@ }
    }
}

impl View for MessageRow {
    type V = MessageView;

    open spec fn view(&self) -> MessageView {
        MessageView {
            id: self.id,
            room_id: self.room_id,
            sender_id: self.sender_id,
            body: self.body@,
            time_sent: self.time_sent,
        }
    }
}

/// The store's contents. Each sequence is in the order rows were added.
pub struct StoreModel {
    pub users: Seq<UserView>,
    pub tokens: Seq<TokenView>,
    pub rooms: Seq<RoomView>,
    pub members: Seq<(u64, u64)>,
    pub messages: Seq<MessageView>,
    pub associations: Seq<AssociationRow>,
    pub next_user_id: u64,
    pub next_room_id: u64,
    pub next_message_id: u64,
}

pub open spec fn user_info(u: UserView) -> UserInfoView {
    UserInfoView { id: u.id, username: u.username }
}

pub open spec fn infos(s: Seq<UserView>) -> Seq<UserInfoView> {
    s.map_values(|u: UserView| user_info(u))
}

pub open spec fn messages_out(s: Seq<MessageView>) -> Seq<ChatMessageView> {
    s.map_values(|m: MessageView| message_out(m))
}

/// The slice of `log` that skips the `offset` newest entries and keeps the
/// `limit` entries before them, oldest first.
pub open spec fn window<A>(log: Seq<A>, offset: int, limit: int) -> Seq<A> {
    let n = log.len() as int;
    let hi = if offset >= n { 0 } else { n - offset };
    let lo = if offset + limit >= n { 0 } else { n - offset - limit };
    log.subrange(lo, hi)
}

pub open spec fn message_out(m: MessageView) -> ChatMessageView {
    ChatMessageView {
        id: Some(m.id),
        room_id: m.room_id,
        sender_id: Some(m.sender_id),
        body: m.body,
        time_sent: Some(m.time_sent),
    }
}

/// Which users a listing selects, relative to `user`.
#[derive(Debug, Clone, Copy, PartialEq, Eq, Structural)]
pub enum Selection {
    /// Users with a friend association in both directions.
    Friends,
    /// Users with a friend association toward `user` that is not returned.
    IncomingRequests,
    /// Users toward whom `user` has an unreturned friend association.
    UnacceptedOutgoing,
    /// Users that `user` has blocked.
    Blocked,
    /// Users whose name holds the search term, but for those who blocked `user`.
    Search,
}

impl StoreModel {
    pub open spec fn username_taken(self, name: Seq<char>) -> bool {
        exists|i: int| 0 <= i < self.users.len() && eq_ignore_case(self.users[i].username, name)
    }

    pub open spec fn user_exists(self, id: u64) -> bool {
        exists|i: int| 0 <= i < self.users.len() && self.users[i].id == id
    }

    /// The user with the given name, ignoring ASCII case.
    pub open spec fn user_named(self, name: Seq<char>) -> Option<UserView> {
        if self.username_taken(name) {
            let i = choose|i: int|
                0 <= i < self.users.len() && eq_ignore_case(self.users[i].username, name);
            Some(self.users[i])
        } else {
            None
        }
    }

    pub open spec fn user_with_id(self, id: u64) -> Option<UserView> {
        if self.user_exists(id) {
            let i = choose|i: int| 0 <= i < self.users.len() && self.users[i].id == id;
            Some(self.users[i])
        } else {
            None
        }
    }

    pub open spec fn token_known(self, token: u128) -> bool {
        exists|i: int| 0 <= i < self.tokens.len() && self.tokens[i].token == token
    }

    /// Where `token` stands among the tokens, if it is known.
    pub open spec fn token_index(self, token: u128) -> int {
        choose|i: int| 0 <= i < self.tokens.len() && self.tokens[i].token == token
    }

    /// The user that `token` belongs to.
    pub open spec fn token_owner(self, token: u128) -> Option<u64> {
        if self.token_known(token) {
            Some(self.tokens[self.token_index(token)].user_id)
        } else {
            None
        }
    }

    /// What storing `token` for `user_id` answers: the user must exist, and a
    /// token that another user holds is refused.
    pub open spec fn set_token_outcome(self, user_id: u64, token: u128) -> DBResult<()> {
        if !self.user_exists(user_id) {
            Err(DatabaseServiceError::NoResult)
        } else if self.token_known(token) && self.token_owner(token) != Some(user_id) {
            Err(DatabaseServiceError::KeyAlreadyExists)
        } else {
            Ok(())
        }
    }

    /// The time recorded for a token added at `now`: never earlier than the
    /// latest token, so that tokens stay in the order of their times.
    pub open spec fn token_stamp(self, now: i64) -> i64 {
        if self.tokens.len() > 0 && self.tokens.last().time_set > now {
            self.tokens.last().time_set
        } else {
            now
        }
    }

    /// The time recorded for a message sent at `now`: never earlier than the
    /// latest message, so that the log stays in the order of its times.
    pub open spec fn message_stamp(self, now: i64) -> i64 {
        if self.messages.len() > 0 && self.messages.last().time_sent > now {
            self.messages.last().time_sent
        } else {
            now
        }
    }

    /// The store after a successful store of `token`: a token that the user
    /// holds already gets the new client label, else a new row is added.
    pub open spec fn with_token(self, user_id: u64, token: u128, agent: Seq<char>, now: i64) -> StoreModel {
        if self.token_known(token) {
            let i = self.token_index(token);
            StoreModel {
                tokens: self.tokens.update(i, TokenView { user_agent: agent, ..self.tokens[i] }),
                ..self
            }
        } else {
            StoreModel {
                tokens: self.tokens.push(
                    TokenView { token, user_id, user_agent: agent, time_set: self.token_stamp(now) },
                ),
                ..self
            }
        }
    }

    pub open spec fn without_token(self, token: u128) -> StoreModel {
        StoreModel { tokens: self.tokens.remove(self.token_index(token)), ..self }
    }

    pub open spec fn keeps_token(user_id: u64) -> spec_fn(TokenView) -> bool {
        |t: TokenView| t.user_id != user_id
    }

    pub open spec fn without_tokens_of(self, user_id: u64) -> StoreModel {
        StoreModel { tokens: self.tokens.filter(Self::keeps_token(user_id)), ..self }
    }

    pub open spec fn is_token_of(user_id: u64) -> spec_fn(TokenView) -> bool {
        |t: TokenView| t.user_id == user_id
    }

    pub open spec fn token_info(requester: u128) -> spec_fn(TokenView) -> TokenInfoView {
        |t: TokenView|
            TokenInfoView {
                user_agent: t.user_agent,
                time_set: t.time_set,
                is_requester: t.token == requester,
            }
    }

    /// The sessions of `user_id` in the order they were opened, the one of
    /// `requester` marked.
    pub open spec fn sessions_of(self, user_id: u64, requester: u128) -> Seq<TokenInfoView> {
        self.tokens.filter(Self::is_token_of(user_id)).map_values(Self::token_info(requester))
    }

    /// The store after registering a user under the next identifier.
    pub open spec fn with_user(self, username: Seq<char>, password_hash: Seq<char>) -> StoreModel {
        StoreModel {
            users: self.users.push(
                UserView { id: self.next_user_id, username, password_hash },
            ),
            next_user_id: (self.next_user_id + 1) as u64,
            ..self
        }
    }

    pub open spec fn with_password_hash(self, user_id: u64, hash: Seq<char>) -> StoreModel {
        let i = choose|i: int| 0 <= i < self.users.len() && self.users[i].id == user_id;
        StoreModel {
            users: self.users.update(i, UserView { password_hash: hash, ..self.users[i] }),
            ..self
        }
    }

    pub open spec fn room_exists(self, id: u64) -> bool {
        exists|i: int| 0 <= i < self.rooms.len() && self.rooms[i].id == id
    }

    pub open spec fn is_member(self, room: u64, user: u64) -> bool {
        self.members.contains((room, user))
    }

    pub open spec fn association_known(self, from: u64, to: u64) -> bool {
        exists|i: int|
            0 <= i < self.associations.len() && self.associations[i].user_id == from
                && self.associations[i].other_user_id == to
    }

    pub open spec fn association_index(self, from: u64, to: u64) -> int {
        choose|i: int|
            0 <= i < self.associations.len() && self.associations[i].user_id == from
                && self.associations[i].other_user_id == to
    }

    /// The association `from -> to`, if one is set.
    pub open spec fn association(self, from: u64, to: u64) -> Option<AssociationKind> {
        if self.association_known(from, to) {
            Some(self.associations[self.association_index(from, to)].kind)
        } else {
            None
        }
    }

    /// The store after setting `from -> to` to `kind`, replacing any earlier kind.
    pub open spec fn with_association(self, from: u64, to: u64, kind: AssociationKind) -> StoreModel {
        let row = AssociationRow { user_id: from, other_user_id: to, kind };
        if self.association_known(from, to) {
            StoreModel {
                associations: self.associations.update(self.association_index(from, to), row),
                ..self
            }
        } else {
            StoreModel { associations: self.associations.push(row), ..self }
        }
    }

    pub open spec fn without_association(self, from: u64, to: u64) -> StoreModel {
        StoreModel {
            associations: self.associations.remove(self.association_index(from, to)),
            ..self
        }
    }

    /// Whether `u` is listed by `sel` for `user`; `term` matters for a search only.
    pub open spec fn selected(self, sel: Selection, user: u64, term: Seq<char>, u: UserView) -> bool {
        match sel {
            Selection::Friends => self.is_friend(user, u.id) && self.is_friend(u.id, user),
            Selection::IncomingRequests => self.is_friend(u.id, user) && !self.is_friend(user, u.id),
            Selection::UnacceptedOutgoing => self.is_friend(user, u.id) && !self.is_friend(u.id, user),
            Selection::Blocked => self.association(user, u.id) == Some(AssociationKind::Block),
            Selection::Search => contains_ignore_case(u.username, term) && self.association(u.id, user)
                != Some(AssociationKind::Block),
        }
    }

    pub open spec fn selector(self, sel: Selection, user: u64, term: Seq<char>) -> spec_fn(UserView) -> bool {
        |u: UserView| self.selected(sel, user, term, u)
    }

    /// The users that `sel` lists for `user`, in the order they registered.
    pub open spec fn listing(self, sel: Selection, user: u64, term: Seq<char>) -> Seq<UserInfoView> {
        infos(self.users.filter(self.selector(sel, user, term)))
    }

    pub open spec fn room_index(self, id: u64) -> int {
        choose|i: int| 0 <= i < self.rooms.len() && self.rooms[i].id == id
    }

    pub open spec fn with_room_name(self, id: u64, name: Seq<char>) -> StoreModel {
        let i = self.room_index(id);
        StoreModel { rooms: self.rooms.update(i, RoomView { id, name }), ..self }
    }

    pub open spec fn with_room(self, name: Seq<char>) -> StoreModel {
        StoreModel {
            rooms: self.rooms.push(RoomView { id: self.next_room_id, name }),
            next_room_id: (self.next_room_id + 1) as u64,
            ..self
        }
    }

    pub open spec fn member_index(self, room: u64, user: u64) -> int {
        choose|i: int| 0 <= i < self.members.len() && self.members[i] == (room, user)
    }

    pub open spec fn with_member(self, room: u64, user: u64) -> StoreModel {
        StoreModel { members: self.members.push((room, user)), ..self }
    }

    pub open spec fn without_member(self, room: u64, user: u64) -> StoreModel {
        StoreModel { members: self.members.remove(self.member_index(room, user)), ..self }
    }

    pub open spec fn room_of(self, user: u64) -> spec_fn(RoomView) -> bool {
        |r: RoomView| self.is_member(r.id, user)
    }

    /// The rooms that `user` belongs to, in the order they were created.
    pub open spec fn rooms_for(self, user: u64) -> Seq<RoomView> {
        self.rooms.filter(self.room_of(user))
    }

    pub open spec fn member_of(self, room: u64) -> spec_fn(UserView) -> bool {
        |u: UserView| self.is_member(room, u.id)
    }

    /// The members of `room`, in the order they registered.
    pub open spec fn members_of(self, room: u64) -> Seq<UserInfoView> {
        infos(self.users.filter(self.member_of(room)))
    }

    pub open spec fn in_room(room: u64) -> spec_fn(MessageView) -> bool {
        |m: MessageView| m.room_id == room
    }

    /// The messages of `room`, oldest first.
    pub open spec fn room_log(self, room: u64) -> Seq<MessageView> {
        self.messages.filter(Self::in_room(room))
    }

    pub open spec fn with_message(self, room: u64, sender: u64, body: Seq<char>, now: i64) -> StoreModel {
        StoreModel {
            messages: self.messages.push(
                MessageView {
                    id: self.next_message_id,
                    room_id: room,
                    sender_id: sender,
                    body,
                    time_sent: self.message_stamp(now),
                },
            ),
            next_message_id: (self.next_message_id + 1) as u64,
            ..self
        }
    }

    pub open spec fn is_friend(self, from: u64, to: u64) -> bool {
        self.association(from, to) == Some(AssociationKind::Friend)
    }

    /// Every membership names an existing room and an existing user.
    pub open spec fn members_exist(self) -> bool {
        forall|i: int|
            0 <= i < self.members.len() ==> self.room_exists((#[trigger] self.members[i]).0)
                && self.user_exists(self.members[i].1)
    }

    pub open spec fn users_unique(self) -> bool {
        forall|i: int, j: int|
            #![trigger self.users[i], self.users[j]]
            0 <= i < self.users.len() && 0 <= j < self.users.len() && i != j ==> self.users[i].id
                != self.users[j].id && !eq_ignore_case(
                self.users[i].username,
                self.users[j].username,
            )
    }

    pub open spec fn tokens_unique(self) -> bool {
        forall|i: int, j: int|
            #![trigger self.tokens[i], self.tokens[j]]
            0 <= i < self.tokens.len() && 0 <= j < self.tokens.len() && i != j
                ==> self.tokens[i].token != self.tokens[j].token
    }

    pub open spec fn rooms_unique(self) -> bool {
        forall|i: int, j: int|
            #![trigger self.rooms[i], self.rooms[j]]
            0 <= i < self.rooms.len() && 0 <= j < self.rooms.len() && i != j ==> self.rooms[i].id
                != self.rooms[j].id
    }

    pub open spec fn members_unique(self) -> bool {
        forall|i: int, j: int|
            #![trigger self.members[i], self.members[j]]
            0 <= i < self.members.len() && 0 <= j < self.members.len() && i != j
                ==> self.members[i] != self.members[j]
    }

    pub open spec fn associations_unique(self) -> bool {
        forall|i: int, j: int|
            #![trigger self.associations[i], self.associations[j]]
            0 <= i < self.associations.len() && 0 <= j < self.associations.len() && i != j ==> !(
            self.associations[i].user_id == self.associations[j].user_id
                && self.associations[i].other_user_id == self.associations[j].other_user_id)
    }

    /// The store's invariant: keys are unique, every token belongs to a user,
    /// and the next identifiers are fresh.
    pub open spec fn wf(self) -> bool {
        &&& self.users_unique()
        &&& self.tokens_unique()
        &&& self.rooms_unique()
        &&& self.members_unique()
        &&& self.associations_unique()
        &&& forall|i: int| 0 <= i < self.users.len() ==> self.users[i].id < self.next_user_id
        &&& forall|i: int| 0 <= i < self.rooms.len() ==> self.rooms[i].id < self.next_room_id
        &&& forall|i: int| 0 <= i < self.members.len() ==> self.members[i].0 < self.next_room_id
        &&& forall|i: int|
            0 <= i < self.messages.len() ==> self.messages[i].id < self.next_message_id
        &&& forall|i: int|
            0 <= i < self.tokens.len() ==> self.user_exists(#[trigger] self.tokens[i].user_id)
        &&& self.members_exist()
        &&& ordered_by(self.tokens, token_time())
        &&& ordered_by(self.messages, message_time())
    }
}

pub open spec fn token_time() -> spec_fn(TokenView) -> int {
    |t: TokenView| t.time_set as int
}

pub open spec fn message_time() -> spec_fn(MessageView) -> int {
    |m: MessageView| m.time_sent as int
}

pub open spec fn session_time() -> spec_fn(TokenInfoView) -> int {
    |t: TokenInfoView| t.time_set as int
}

impl StoreModel {
    /// A user's sessions are listed by ascending time.
    pub proof fn lemma_sessions_ordered(self, user_id: u64, requester: u128)
        requires
            self.wf(),
        ensures
            ordered_by(self.sessions_of(user_id, requester), session_time()),
    {
        let f = self.tokens.filter(Self::is_token_of(user_id));
        lemma_filter_ordered(self.tokens, Self::is_token_of(user_id), token_time());
        lemma_map_ordered(f, Self::token_info(requester), token_time(), session_time());
    }

    /// A room's log is in order of the messages' times.
    pub proof fn lemma_room_log_ordered(self, room: u64)
        requires
            self.wf(),
        ensures
            ordered_by(self.room_log(room), message_time()),
    {
        lemma_filter_ordered(self.messages, Self::in_room(room), message_time());
    }
}

/// Memberships still name existing rooms and users where the memberships are
/// unchanged and the users and rooms kept their identifiers, perhaps with more added.
proof fn lemma_members_exist_kept(pre: StoreModel, post: StoreModel)
    requires
        pre.members_exist(),
        post.members == pre.members,
        pre.users.len() <= post.users.len(),
        forall|i: int| 0 <= i < pre.users.len() ==> post.users[i].id == pre.users[i].id,
        pre.rooms.len() <= post.rooms.len(),
        forall|i: int| 0 <= i < pre.rooms.len() ==> post.rooms[i].id == pre.rooms[i].id,
    ensures
        post.members_exist(),
{
    assert forall|i: int| 0 <= i < post.members.len() implies post.room_exists(
        (#[trigger] post.members[i]).0,
    ) && post.user_exists(post.members[i].1) by {
        assert(pre.room_exists(pre.members[i].0));
        assert(pre.user_exists(pre.members[i].1));
        let r = choose|r: int| 0 <= r < pre.rooms.len() && pre.rooms[r].id == pre.members[i].0;
        let u = choose|u: int| 0 <= u < pre.users.len() && pre.users[u].id == pre.members[i].1;
        assert(post.rooms[r].id == pre.rooms[r].id);
        assert(post.users[u].id == pre.users[u].id);
    }
}

/// Only the tokens changed; their keys are unique and their owners exist.
proof fn lemma_tokens_replaced(pre: StoreModel, post: StoreModel)
    requires
        pre.wf(),
        post == (StoreModel { tokens: post.tokens, ..pre }),
        post.tokens_unique(),
        ordered_by(post.tokens, token_time()),
        forall|k: int| 0 <= k < post.tokens.len() ==> pre.user_exists(#[trigger] post.tokens[k].user_id),
    ensures
        post.wf(),
{
    assert(post.users == pre.users);
    assert(post.rooms == pre.rooms);
    assert(post.members == pre.members);
    lemma_members_exist_kept(pre, post);
    assert forall|k: int| 0 <= k < post.tokens.len() implies post.user_exists(#[trigger] post.tokens[k].user_id) by {
        assert(pre.user_exists(post.tokens[k].user_id));
        let w = choose|w: int| 0 <= w < pre.users.len() && pre.users[w].id == post.tokens[k].user_id;
        assert(post.users[w].id == post.tokens[k].user_id);
    }
}

pub struct DatabaseService {
    users: Vec<DBUser>,
    tokens: Vec<TokenRow>,
    rooms: Vec<ChatRoom>,
    members: Vec<(u64, u64)>,
    messages: Vec<MessageRow>,
    associations: Vec<AssociationRow>,
    next_user_id: u64,
    next_room_id: u64,
    next_message_id: u64,
}

impl View for DatabaseService {
    type V = StoreModel;

    closed spec fn view(&self) -> StoreModel {
        StoreModel {
            users: views(self.users@),
            tokens: views(self.tokens@),
            rooms: views(self.rooms@),
            members: self.members@,
            messages: views(self.messages@),
            associations: self.associations@,
            next_user_id: self.next_user_id,
            next_room_id: self.next_room_id,
            next_message_id: self.next_message_id,
        }
    }
}

impl DatabaseService {
    /// An empty store; identifiers start at 1.
    pub fn new() -> (r: Self)
        ensures
            r@.wf(),
            r@.users.len() == 0,
            r@.tokens.len() == 0,
            r@.rooms.len() == 0,
            r@.members.len() == 0,
            r@.messages.len() == 0,
            r@.associations.len() == 0,
            r@.next_user_id == 1,
            r@.next_room_id == 1,
            r@.next_message_id == 1,
    {
        let r = DatabaseService {
            users: Vec::new(),
            tokens: Vec::new(),
            rooms: Vec::new(),
            members: Vec::new(),
            messages: Vec::new(),
            associations: Vec::new(),
            next_user_id: 1,
            next_room_id: 1,
            next_message_id: 1,
        };
        proof {
            assert(r@.users =~= Seq::<UserView>::empty());
            assert(r@.tokens =~= Seq::<TokenView>::empty());
            assert(r@.rooms =~= Seq::<RoomView>::empty());
            assert(r@.messages =~= Seq::<MessageView>::empty());
        }
        r
    }

    fn find_user_by_name(&self, name: &str) -> (r: Option<usize>)
        ensures
            match r {
                Some(i) => i < self@.users.len() && eq_ignore_case(self@.users[i as int].username, name@),
                None => !self@.username_taken(name@),
            },
    {
        let mut i: usize = 0;
        while i < self.users.len()
            invariant
                i <= self.users.len(),
                forall|j: int| 0 <= j < i ==> !eq_ignore_case(#[trigger] self@.users[j].username, name@),
            decreases self.users.len() - i,
        {
            if eq_ignore_ascii_case(self.users[i].username.as_str(), name) {
                return Some(i);
            }
            i = i + 1;
        }
        None
    }

    fn find_user_by_id(&self, id: u64) -> (r: Option<usize>)
        ensures
            match r {
                Some(i) => i < self@.users.len() && self@.users[i as int].id == id,
                None => !self@.user_exists(id),
            },
    {
        let mut i: usize = 0;
        while i < self.users.len()
            invariant
                i <= self.users.len(),
                forall|j: int| 0 <= j < i ==> (#[trigger] self@.users[j]).id != id,
            decreases self.users.len() - i,
        {
            if self.users[i].id == id {
                return Some(i);
            }
            i = i + 1;
        }
        None
    }

    /// Whether a user whose name equals `username`, ignoring ASCII case, exists.
    pub fn user_exists(&self, username: &str) -> (r: bool)
        ensures
            r == self@.username_taken(username@),
    {
        self.find_user_by_name(username).is_some()
    }

    /// Adds a user under the next identifier. Fails with `KeyAlreadyExists`
    /// where the name is taken, ignoring ASCII case.
    pub fn user_register(&mut self, username: &str, password_hash: String) -> (r: DBResult<u64>)
        requires
            old(self)@.wf(),
        ensures
            final(self)@.wf(),
            old(self)@.username_taken(username@) ==> r == Err::<u64, _>(DatabaseServiceError::KeyAlreadyExists)
                && final(self)@ == old(self)@,
            !old(self)@.username_taken(username@) && old(self)@.next_user_id == u64::MAX ==> r
                == Err::<u64, _>(DatabaseServiceError::Exhausted) && final(self)@ == old(self)@,
            !old(self)@.username_taken(username@) && old(self)@.next_user_id < u64::MAX ==> r
                == Ok::<u64, DatabaseServiceError>(old(self)@.next_user_id) && final(self)@
                == old(self)@.with_user(username@, password_hash@),
    {
        if self.user_exists(username) {
            return Err(DatabaseServiceError::KeyAlreadyExists);
        }
        if self.next_user_id == u64::MAX {
            return Err(DatabaseServiceError::Exhausted);
        }
        let ghost pre = self@;
        let id = self.next_user_id;
        self.users.push(DBUser { id, username: username.to_owned(), password_hash });
        self.next_user_id = id + 1;
        proof {
            assert(self@.users =~= pre.users.push(
                UserView { id, username: username@, password_hash: password_hash@ },
            ));
            assert(self@.members == pre.members);
            assert(self@.rooms == pre.rooms);
            assert(self@.messages == pre.messages);
            assert(self@.associations == pre.associations);
            assert(self@.tokens == pre.tokens);
            let nu = self@.users.len() - 1;
            assert forall|a: int| 0 <= a < self@.users.len() implies #[trigger] self@.users[a].id
                < self@.next_user_id by {
                if a < nu {
                    assert(self@.users[a] == pre.users[a]);
                }
            }
            assert forall|i: int, j: int|
                0 <= i < self@.users.len() && 0 <= j < self@.users.len() && i != j implies self@.users[i].id
                != self@.users[j].id && !eq_ignore_case(self@.users[i].username, self@.users[j].username) by {
                if i == nu {
                    assert(self@.users[j] == pre.users[j]);
                    assert(pre.users[j].id < pre.next_user_id);
                    if eq_ignore_case(self@.users[i].username, self@.users[j].username) {
                        eq_ignore_case_symmetric(self@.users[i].username, self@.users[j].username);
                        assert(eq_ignore_case(pre.users[j].username, username@));
                    }
                } else if j == nu {
                    assert(self@.users[i] == pre.users[i]);
                    assert(pre.users[i].id < pre.next_user_id);
                    assert(!eq_ignore_case(pre.users[i].username, username@));
                } else {
                    assert(self@.users[i] == pre.users[i]);
                    assert(self@.users[j] == pre.users[j]);
                }
            }
            assert forall|i: int| 0 <= i < self@.tokens.len() implies self@.user_exists(
                #[trigger] self@.tokens[i].user_id,
            ) by {
                assert(pre.user_exists(pre.tokens[i].user_id));
                let k = choose|k: int|
                    0 <= k < pre.users.len() && pre.users[k].id == pre.tokens[i].user_id;
                assert(self@.users[k] == pre.users[k]);
            }
        }
        proof {
            lemma_members_exist_kept(pre, self@);
        }
        Ok(id)
    }

    /// The user whose name equals `username`, ignoring ASCII case.
    pub fn user_get_by_username(&self, username: &str) -> (r: DBResult<DBUser>)
        requires
            self@.wf(),
        ensures
            match self@.user_named(username@) {
                Some(u) => r matches Ok(v) && v@ == u,
                None => r == Err::<DBUser, _>(DatabaseServiceError::NoResult),
            },
    {
        match self.find_user_by_name(username) {
            Some(i) => {
                let u = &self.users[i];
                proof {
                    let k = choose|k: int|
                        0 <= k < self@.users.len() && eq_ignore_case(self@.users[k].username, username@);
                    if k != i {
                        eq_ignore_case_symmetric(self@.users[i as int].username, username@);
                        eq_ignore_case_transitive(
                            self@.users[k].username,
                            username@,
                            self@.users[i as int].username,
                        );
                    }
                }
                Ok(DBUser { id: u.id, username: u.username.clone(), password_hash: u.password_hash.clone() })
            },
            None => Err(DatabaseServiceError::NoResult),
        }
    }

    pub fn user_get_by_id(&self, user_id: u64) -> (r: DBResult<DBUser>)
        requires
            self@.wf(),
        ensures
            match self@.user_with_id(user_id) {
                Some(u) => r matches Ok(v) && v@ == u,
                None => r == Err::<DBUser, _>(DatabaseServiceError::NoResult),
            },
    {
        match self.find_user_by_id(user_id) {
            Some(i) => {
                let u = &self.users[i];
                proof {
                    assert(self@.users[i as int].id == user_id);
                    assert(self@.user_exists(user_id));
                    let k = choose|k: int| 0 <= k < self@.users.len() && self@.users[k].id == user_id;
                    assert(self@.users_unique());
                    assert(k == i);
                }
                Ok(DBUser { id: u.id, username: u.username.clone(), password_hash: u.password_hash.clone() })
            },
            None => Err(DatabaseServiceError::NoResult),
        }
    }

    fn find_token(&self, token: u128) -> (r: Option<usize>)
        requires
            self@.wf(),
        ensures
            match r {
                Some(i) => i < self@.tokens.len() && self@.tokens[i as int].token == token
                    && self@.token_known(token) && self@.token_index(token) == i,
                None => !self@.token_known(token),
            },
    {
        let mut i: usize = 0;
        while i < self.tokens.len()
            invariant
                self@.wf(),
                i <= self.tokens.len(),
                forall|j: int| 0 <= j < i ==> (#[trigger] self@.tokens[j]).token != token,
            decreases self.tokens.len() - i,
        {
            if self.tokens[i].token == token {
                proof {
                    assert(self@.tokens[i as int].token == token);
                    assert(self@.token_known(token));
                    let k = self@.token_index(token);
                    assert(self@.tokens_unique());
                    assert(k == i);
                }
                return Some(i);
            }
            i = i + 1;
        }
        None
    }

    /// Stores `token` for `user_id` with the client label `user_agent`. Where the
    /// user holds the token already, only the label changes.
    pub fn user_set_token(&mut self, user_id: u64, token: u128, user_agent: &str, now: i64) -> (r:
        DBResult<()>)
        requires
            old(self)@.wf(),
        ensures
            final(self)@.wf(),
            r == old(self)@.set_token_outcome(user_id, token),
            final(self)@ == (if r is Ok {
                old(self)@.with_token(user_id, token, user_agent@, now)
            } else {
                old(self)@
            }),
    {
        if self.find_user_by_id(user_id).is_none() {
            return Err(DatabaseServiceError::NoResult);
        }
        let ghost pre = self@;
        match self.find_token(token) {
            Some(i) => {
                if self.tokens[i].user_id != user_id {
                    return Err(DatabaseServiceError::KeyAlreadyExists);
                }
                let row = TokenRow {
                    token,
                    user_id,
                    user_agent: user_agent.to_owned(),
                    time_set: self.tokens[i].time_set,
                };
                self.tokens.set(i, row);
                proof {
                    assert(self@.tokens =~= pre.tokens.update(
                        i as int,
                        TokenView { user_agent: user_agent@, ..pre.tokens[i as int] },
                    ));
                    assert forall|k: int| 0 <= k < self@.tokens.len() implies pre.user_exists(
                        #[trigger] self@.tokens[k].user_id,
                    ) by {
                        assert(pre.user_exists(pre.tokens[k].user_id));
                    }
                    assert(self@.tokens_unique()) by {
                        assert forall|a: int, b: int|
                            0 <= a < self@.tokens.len() && 0 <= b < self@.tokens.len() && a != b
                            implies self@.tokens[a].token != self@.tokens[b].token by {
                            assert(self@.tokens[a].token == pre.tokens[a].token);
                            assert(self@.tokens[b].token == pre.tokens[b].token);
                        }
                    }
                    assert(ordered_by(self@.tokens, token_time())) by {
                        assert forall|a: int, b: int| 0 <= a < b < self@.tokens.len() implies
                            self@.tokens[a].time_set <= self@.tokens[b].time_set by {
                            assert(self@.tokens[a].time_set == pre.tokens[a].time_set);
                            assert(self@.tokens[b].time_set == pre.tokens[b].time_set);
                        }
                    }
                    assert(self@ == (StoreModel { tokens: self@.tokens, ..pre }));
                    lemma_tokens_replaced(pre, self@);
                }
                Ok(())
            },
            None => {
                let n = self.tokens.len();
                let stamp = if n > 0 && self.tokens[n - 1].time_set > now {
                    self.tokens[n - 1].time_set
                } else {
                    now
                };
                proof {
                    assert(stamp == pre.token_stamp(now));
                }
                self.tokens.push(TokenRow { token, user_id, user_agent: user_agent.to_owned(), time_set: stamp });
                proof {
                    assert(self@.tokens =~= pre.tokens.push(
                        TokenView { token, user_id, user_agent: user_agent@, time_set: stamp },
                    ));
                    assert(ordered_by(self@.tokens, token_time())) by {
                        assert forall|a: int, b: int| 0 <= a < b < self@.tokens.len() implies
                            self@.tokens[a].time_set <= self@.tokens[b].time_set by {
                            if b == n {
                                if a < n - 1 {
                                    assert(pre.tokens[a].time_set <= pre.tokens[n - 1].time_set);
                                }
                            }
                        }
                    }
                    assert forall|k: int| 0 <= k < self@.tokens.len() implies pre.user_exists(
                        #[trigger] self@.tokens[k].user_id,
                    ) by {
                        if k < pre.tokens.len() {
                            assert(pre.user_exists(pre.tokens[k].user_id));
                        }
                    }
                    assert(self@ == (StoreModel { tokens: self@.tokens, ..pre }));
                    lemma_tokens_replaced(pre, self@);
                }
                Ok(())
            },
        }
    }

    /// The user that `token` belongs to.
    pub fn user_id_from_token(&self, token: u128) -> (r: DBResult<u64>)
        requires
            self@.wf(),
        ensures
            r == (match self@.token_owner(token) {
                Some(u) => Ok(u),
                None => Err(DatabaseServiceError::NoResult),
            }),
    {
        match self.find_token(token) {
            Some(i) => Ok(self.tokens[i].user_id),
            None => Err(DatabaseServiceError::NoResult),
        }
    }

    /// Removes `token` where it belongs to `user_id`.
    pub fn user_remove_token(&mut self, user_id: u64, token: u128) -> (r: DBResult<()>)
        requires
            old(self)@.wf(),
        ensures
            final(self)@.wf(),
            r == (if old(self)@.token_owner(token) == Some(user_id) {
                Ok(())
            } else {
                Err(DatabaseServiceError::NoResult)
            }),
            final(self)@ == (if r is Ok {
                old(self)@.without_token(token)
            } else {
                old(self)@
            }),
    {
        let ghost pre = self@;
        match self.find_token(token) {
            Some(i) => {
                if self.tokens[i].user_id != user_id {
                    return Err(DatabaseServiceError::NoResult);
                }
                self.tokens.remove(i);
                proof {
                    assert(self@.tokens =~= pre.tokens.remove(i as int));
                    assert forall|a: int, b: int|
                        0 <= a < self@.tokens.len() && 0 <= b < self@.tokens.len() && a != b
                        implies #[trigger] self@.tokens[a].token != #[trigger] self@.tokens[b].token by {
                        let a0 = if a < i { a } else { a + 1 };
                        let b0 = if b < i { b } else { b + 1 };
                        assert(self@.tokens[a] == pre.tokens[a0]);
                        assert(self@.tokens[b] == pre.tokens[b0]);
                    }
                    assert forall|k: int| 0 <= k < self@.tokens.len() implies pre.user_exists(
                        #[trigger] self@.tokens[k].user_id,
                    ) by {
                        let k0 = if k < i { k } else { k + 1 };
                        assert(self@.tokens[k] == pre.tokens[k0]);
                        assert(pre.user_exists(pre.tokens[k0].user_id));
                    }
                    assert(self@ == (StoreModel { tokens: self@.tokens, ..pre }));
                    lemma_tokens_replaced(pre, self@);
                }
                Ok(())
            },
            None => Err(DatabaseServiceError::NoResult),
        }
    }

    /// Removes every token of `user_id`; the others keep their order.
    pub fn user_clear_tokens_by_id(&mut self, user_id: u64)
        requires
            old(self)@.wf(),
        ensures
            final(self)@.wf(),
            final(self)@ == old(self)@.without_tokens_of(user_id),
    {
        let ghost pre = self@;
        let mut kept: Vec<TokenRow> = Vec::new();
        let mut i: usize = 0;
        let n = self.tokens.len();
        while i < n
            invariant
                n == self.tokens.len(),
                self@ == pre,
                pre.wf(),
                i <= n,
                views(kept@) == pre.tokens.take(i as int).filter(StoreModel::keeps_token(user_id)),
                forall|a: int|
                    0 <= a < kept@.len() ==> exists|k: int|
                        0 <= k < i && pre.tokens[k] == (#[trigger] kept@[a])@,
                forall|a: int, b: int|
                    0 <= a < kept@.len() && 0 <= b < kept@.len() && a != b
                        ==> #[trigger] kept@[a].token != #[trigger] kept@[b].token,
            decreases n - i,
        {
            let t = &self.tokens[i];
            proof {
                lemma_filter_step(pre.tokens, StoreModel::keeps_token(user_id), i as int);
                assert(t@ == pre.tokens[i as int]);
                assert(StoreModel::keeps_token(user_id)(pre.tokens[i as int]) == (t.user_id != user_id));
            }
            if t.user_id != user_id {
                let ghost before = kept@;
                proof {
                    assert forall|a: int| 0 <= a < before.len() implies before[a].token != t.token by {
                        let k = choose|k: int| 0 <= k < i && pre.tokens[k] == before[a]@;
                        assert(pre.tokens_unique());
                        assert(pre.tokens[k].token != pre.tokens[i as int].token);
                    }
                }
                kept.push(TokenRow {
                    token: t.token,
                    user_id: t.user_id,
                    user_agent: t.user_agent.clone(),
                    time_set: t.time_set,
                });
                proof {
                    lemma_views_push(before, kept@.last());
                    assert(kept@ =~= before.push(kept@.last()));
                    assert(kept@.last()@ == pre.tokens[i as int]);
                    assert forall|a: int| 0 <= a < kept@.len() implies exists|k: int|
                        0 <= k < i + 1 && pre.tokens[k] == (#[trigger] kept@[a])@ by {
                        if a == before.len() {
                            assert(pre.tokens[i as int] == kept@[a]@);
                        } else {
                            assert(kept@[a] == before[a]);
                        }
                    }
                }
            }
            i = i + 1;
        }
        self.tokens = kept;
        proof {
            assert(pre.tokens.take(n as int) =~= pre.tokens);
            assert forall|k: int| 0 <= k < self@.tokens.len() implies pre.user_exists(
                #[trigger] self@.tokens[k].user_id,
            ) by {
                let k0 = choose|k0: int| 0 <= k0 < n && pre.tokens[k0] == self.tokens@[k]@;
                assert(self@.tokens[k] == self.tokens@[k]@);
                assert(pre.user_exists(pre.tokens[k0].user_id));
            }
            assert(self@.tokens_unique()) by {
                assert forall|a: int, b: int|
                    0 <= a < self@.tokens.len() && 0 <= b < self@.tokens.len() && a != b
                    implies self@.tokens[a].token != self@.tokens[b].token by {
                    assert(self@.tokens[a] == self.tokens@[a]@);
                    assert(self@.tokens[b] == self.tokens@[b]@);
                }
            }
            assert(self@.tokens == pre.tokens.filter(StoreModel::keeps_token(user_id)));
            lemma_filter_ordered(pre.tokens, StoreModel::keeps_token(user_id), token_time());
            assert(self@ == (StoreModel { tokens: self@.tokens, ..pre }));
            lemma_tokens_replaced(pre, self@);
        }
    }

    /// The sessions of `user_id` by ascending time; the one whose token is
    /// `token` is marked as the requester's.
    pub fn user_get_associated_tokens(&self, user_id: u64, token: u128) -> (r: Vec<DBAuthInfo>)
        requires
            self@.wf(),
        ensures
            views(r@) == self@.sessions_of(user_id, token),
            ordered_by(views(r@), session_time()),
    {
        proof {
            self@.lemma_sessions_ordered(user_id, token);
        }
        let mut out: Vec<DBAuthInfo> = Vec::new();
        let mut i: usize = 0;
        while i < self.tokens.len()
            invariant
                i <= self.tokens.len(),
                views(out@) == self@.tokens.take(i as int).filter(StoreModel::is_token_of(user_id)).map_values(StoreModel::token_info(token)),
            decreases self.tokens.len() - i,
        {
            let t = &self.tokens[i];
            let ghost before = out@;
            proof {
                lemma_filter_step(self@.tokens, StoreModel::is_token_of(user_id), i as int);
                assert(t@ == self@.tokens[i as int]);
                assert(StoreModel::is_token_of(user_id)(self@.tokens[i as int]) == (t.user_id == user_id));
            }
            if t.user_id == user_id {
                out.push(DBAuthInfo {
                    user_agent: t.user_agent.clone(),
                    time_set: t.time_set,
                    is_requester: MySqlBool(t.token == token),
                });
                proof {
                    let f = self@.tokens.take(i as int).filter(StoreModel::is_token_of(user_id));
                    lemma_map_push(f, self@.tokens[i as int], StoreModel::token_info(token));
                    lemma_views_push(before, out@.last());
                    assert(out@ =~= before.push(out@.last()));
                    assert(out@.last()@ == StoreModel::token_info(token)(self@.tokens[i as int]));
                }
            }
            i = i + 1;
        }
        proof {
            assert(self@.tokens.take(i as int) =~= self@.tokens);
        }
        out
    }

    /// Replaces the password hash of `user_id`.
    pub fn user_update_password_hash(&mut self, user_id: u64, password_hash: String) -> (r: DBResult<()>)
        requires
            old(self)@.wf(),
        ensures
            final(self)@.wf(),
            r == (if old(self)@.user_exists(user_id) {
                Ok(())
            } else {
                Err(DatabaseServiceError::NoResult)
            }),
            final(self)@ == (if r is Ok {
                old(self)@.with_password_hash(user_id, password_hash@)
            } else {
                old(self)@
            }),
    {
        let ghost pre = self@;
        match self.find_user_by_id(user_id) {
            Some(i) => {
                let row = DBUser {
                    id: user_id,
                    username: self.users[i].username.clone(),
                    password_hash,
                };
                self.users.set(i, row);
                proof {
                    assert(pre.user_exists(user_id));
                    let k = choose|k: int| 0 <= k < pre.users.len() && pre.users[k].id == user_id;
                    assert(pre.users_unique());
                    assert(k == i);
                    assert(self@.users =~= pre.users.update(
                        i as int,
                        UserView { password_hash: password_hash@, ..pre.users[i as int] },
                    ));
                    assert forall|a: int| 0 <= a < self@.users.len() implies #[trigger] self@.users[a].id
                        == pre.users[a].id && self@.users[a].username == pre.users[a].username by {}
                    assert(self@.users_unique()) by {
                        assert forall|a: int, b: int|
                            0 <= a < self@.users.len() && 0 <= b < self@.users.len() && a != b
                            implies self@.users[a].id != self@.users[b].id && !eq_ignore_case(
                            self@.users[a].username,
                            self@.users[b].username,
                        ) by {
                            assert(self@.users[a].id == pre.users[a].id);
                            assert(self@.users[b].id == pre.users[b].id);
                        }
                    }
                    assert forall|k: int| 0 <= k < self@.tokens.len() implies self@.user_exists(
                        #[trigger] self@.tokens[k].user_id,
                    ) by {
                        assert(pre.user_exists(pre.tokens[k].user_id));
                        let w = choose|w: int| 0 <= w < pre.users.len() && pre.users[w].id == pre.tokens[k].user_id;
                        assert(self@.users[w].id == pre.users[w].id);
                    }
                    assert(self@.tokens == pre.tokens);
                    assert(self@.rooms == pre.rooms);
                    assert(self@.members == pre.members);
                    assert(self@.associations == pre.associations);
                    assert(self@.messages == pre.messages);
                    assert(forall|a: int| 0 <= a < self@.users.len() ==> self@.users[a].id < self@.next_user_id);
                }
                proof {
                    lemma_members_exist_kept(pre, self@);
                }
                proof {
                    lemma_members_exist_kept(pre, self@);
                }
                Ok(())
            },
            None => Err(DatabaseServiceError::NoResult),
        }
    }

    fn find_room(&self, room_id: u64) -> (r: Option<usize>)
        requires
            self@.wf(),
        ensures
            match r {
                Some(i) => i < self@.rooms.len() && self@.rooms[i as int].id == room_id
                    && self@.room_exists(room_id) && self@.room_index(room_id) == i,
                None => !self@.room_exists(room_id),
            },
    {
        let mut i: usize = 0;
        while i < self.rooms.len()
            invariant
                self@.wf(),
                i <= self.rooms.len(),
                forall|j: int| 0 <= j < i ==> (#[trigger] self@.rooms[j]).id != room_id,
            decreases self.rooms.len() - i,
        {
            if self.rooms[i].id == room_id {
                proof {
                    assert(self@.rooms[i as int].id == room_id);
                    assert(self@.room_exists(room_id));
                    let k = self@.room_index(room_id);
                    assert(self@.rooms_unique());
                    assert(k == i);
                }
                return Some(i);
            }
            i = i + 1;
        }
        None
    }

    fn find_member(&self, room_id: u64, user_id: u64) -> (r: Option<usize>)
        requires
            self@.wf(),
        ensures
            match r {
                Some(i) => i < self@.members.len() && self@.members[i as int] == (room_id, user_id)
                    && self@.is_member(room_id, user_id) && self@.member_index(room_id, user_id) == i,
                None => !self@.is_member(room_id, user_id),
            },
    {
        let mut i: usize = 0;
        while i < self.members.len()
            invariant
                self@.wf(),
                i <= self.members.len(),
                forall|j: int| 0 <= j < i ==> #[trigger] self@.members[j] != (room_id, user_id),
            decreases self.members.len() - i,
        {
            let (m_room, m_user) = self.members[i];
            if m_room == room_id && m_user == user_id {
                proof {
                    assert(self@.members[i as int] == (room_id, user_id));
                    assert(self@.is_member(room_id, user_id));
                    let k = self@.member_index(room_id, user_id);
                    assert(self@.members_unique());
                    assert(k == i);
                }
                return Some(i);
            }
            i = i + 1;
        }
        None
    }

    /// Whether `user_id` belongs to `room_id`.
    pub fn is_member(&self, room_id: u64, user_id: u64) -> (r: bool)
        requires
            self@.wf(),
        ensures
            r == self@.is_member(room_id, user_id),
    {
        self.find_member(room_id, user_id).is_some()
    }

    /// Creates a room under the next identifier and returns that identifier.
    pub fn chat_room_create(&mut self, room_name: &str) -> (r: DBResult<u64>)
        requires
            old(self)@.wf(),
        ensures
            final(self)@.wf(),
            old(self)@.next_room_id == u64::MAX ==> r == Err::<u64, _>(DatabaseServiceError::Exhausted)
                && final(self)@ == old(self)@,
            old(self)@.next_room_id < u64::MAX ==> r == Ok::<u64, DatabaseServiceError>(old(self)@.next_room_id)
                && final(self)@ == old(self)@.with_room(room_name@),
    {
        if self.next_room_id == u64::MAX {
            return Err(DatabaseServiceError::Exhausted);
        }
        let ghost pre = self@;
        let id = self.next_room_id;
        self.rooms.push(ChatRoom { id, name: room_name.to_owned() });
        self.next_room_id = id + 1;
        proof {
            lemma_views_push(old(self).rooms@, self.rooms@.last());
            assert(self.rooms@ =~= old(self).rooms@.push(self.rooms@.last()));
            assert(self@.rooms == pre.rooms.push(RoomView { id, name: room_name@ }));
            assert(self@.users == pre.users);
            assert(self@.tokens == pre.tokens);
            assert forall|a: int, b: int|
                0 <= a < self@.rooms.len() && 0 <= b < self@.rooms.len() && a != b
                implies self@.rooms[a].id != self@.rooms[b].id by {
                if a < pre.rooms.len() {
                    assert(self@.rooms[a] == pre.rooms[a]);
                }
                if b < pre.rooms.len() {
                    assert(self@.rooms[b] == pre.rooms[b]);
                }
            }
            assert(self@ == pre.with_room(room_name@));
        }
        proof {
            lemma_members_exist_kept(pre, self@);
        }
        Ok(id)
    }

    /// Renames `room_id`.
    pub fn chat_room_change_name(&mut self, room_id: u64, name: &str) -> (r: DBResult<()>)
        requires
            old(self)@.wf(),
        ensures
            final(self)@.wf(),
            r == (if old(self)@.room_exists(room_id) {
                Ok(())
            } else {
                Err(DatabaseServiceError::NoResult)
            }),
            final(self)@ == (if r is Ok {
                old(self)@.with_room_name(room_id, name@)
            } else {
                old(self)@
            }),
    {
        let ghost pre = self@;
        match self.find_room(room_id) {
            Some(i) => {
                self.rooms.set(i, ChatRoom { id: room_id, name: name.to_owned() });
                proof {
                    assert(self@.rooms =~= pre.rooms.update(i as int, RoomView { id: room_id, name: name@ }));
                    assert(self@.users == pre.users);
                    assert(self@.tokens == pre.tokens);
                    assert forall|a: int, b: int|
                        0 <= a < self@.rooms.len() && 0 <= b < self@.rooms.len() && a != b
                        implies self@.rooms[a].id != self@.rooms[b].id by {
                        assert(self@.rooms[a].id == pre.rooms[a].id);
                        assert(self@.rooms[b].id == pre.rooms[b].id);
                    }
                    assert forall|a: int| 0 <= a < self@.rooms.len() implies #[trigger] self@.rooms[a].id
                        < self@.next_room_id by {
                        assert(self@.rooms[a].id == pre.rooms[a].id);
                    }
                    assert(self@ == pre.with_room_name(room_id, name@));
                }
                proof {
                    lemma_members_exist_kept(pre, self@);
                }
                proof {
                    lemma_members_exist_kept(pre, self@);
                }
                Ok(())
            },
            None => Err(DatabaseServiceError::NoResult),
        }
    }

    /// Adds `user_id` to `room_id`. Both must exist; an existing member gives
    /// `KeyAlreadyExists`.
    pub fn chat_room_add_user(&mut self, room_id: u64, user_id: u64) -> (r: DBResult<()>)
        requires
            old(self)@.wf(),
        ensures
            final(self)@.wf(),
            r == (if !old(self)@.room_exists(room_id) || !old(self)@.user_exists(user_id) {
                Err(DatabaseServiceError::NoResult)
            } else if old(self)@.is_member(room_id, user_id) {
                Err(DatabaseServiceError::KeyAlreadyExists)
            } else {
                Ok(())
            }),
            final(self)@ == (if r is Ok {
                old(self)@.with_member(room_id, user_id)
            } else {
                old(self)@
            }),
    {
        if self.find_room(room_id).is_none() || self.find_user_by_id(user_id).is_none() {
            return Err(DatabaseServiceError::NoResult);
        }
        if self.find_member(room_id, user_id).is_some() {
            return Err(DatabaseServiceError::KeyAlreadyExists);
        }
        let ghost pre = self@;
        self.members.push((room_id, user_id));
        proof {
            assert(self@.members == pre.members.push((room_id, user_id)));
            assert(pre.room_exists(room_id));
            let w = choose|w: int| 0 <= w < pre.rooms.len() && pre.rooms[w].id == room_id;
            assert(pre.rooms[w].id < pre.next_room_id);
            assert(self@.users == pre.users);
            assert(self@.tokens == pre.tokens);
            assert forall|a: int, b: int|
                0 <= a < self@.members.len() && 0 <= b < self@.members.len() && a != b
                implies self@.members[a] != self@.members[b] by {
                if a == pre.members.len() {
                    assert(pre.members[b] != (room_id, user_id));
                } else if b == pre.members.len() {
                    assert(pre.members[a] != (room_id, user_id));
                }
            }
            assert(pre.user_exists(user_id));
            assert forall|i: int| 0 <= i < self@.members.len() implies self@.room_exists(
                (#[trigger] self@.members[i]).0,
            ) && self@.user_exists(self@.members[i].1) by {
                assert(self@.rooms == pre.rooms);
                let m = self@.members[i];
                if i < pre.members.len() {
                    assert(m == pre.members[i]);
                }
                assert(pre.room_exists(m.0) && pre.user_exists(m.1));
                let r = choose|r: int| 0 <= r < pre.rooms.len() && pre.rooms[r].id == m.0;
                let u = choose|u: int| 0 <= u < pre.users.len() && pre.users[u].id == m.1;
                assert(self@.rooms[r].id == m.0);
                assert(self@.users[u].id == m.1);
            }
            assert(self@ == pre.with_member(room_id, user_id));
        }
        Ok(())
    }

    /// Removes `user_id` from `room_id`; `NoResult` where it is not a member.
    pub fn chat_room_remove_user(&mut self, room_id: u64, user_id: u64) -> (r: DBResult<()>)
        requires
            old(self)@.wf(),
        ensures
            final(self)@.wf(),
            r == (if old(self)@.is_member(room_id, user_id) {
                Ok(())
            } else {
                Err(DatabaseServiceError::NoResult)
            }),
            final(self)@ == (if r is Ok {
                old(self)@.without_member(room_id, user_id)
            } else {
                old(self)@
            }),
    {
        let ghost pre = self@;
        match self.find_member(room_id, user_id) {
            Some(i) => {
                self.members.remove(i);
                proof {
                    assert(self@.members == pre.members.remove(i as int));
                    assert(self@.users == pre.users);
                    assert(self@.tokens == pre.tokens);
                    assert forall|a: int| 0 <= a < self@.members.len() implies #[trigger] self@.members[a].0
                        < self@.next_room_id by {
                        let a0 = if a < i { a } else { a + 1 };
                        assert(self@.members[a] == pre.members[a0]);
                    }
                    assert forall|a: int, b: int|
                        0 <= a < self@.members.len() && 0 <= b < self@.members.len() && a != b
                        implies self@.members[a] != self@.members[b] by {
                        let a0 = if a < i { a } else { a + 1 };
                        let b0 = if b < i { b } else { b + 1 };
                        assert(self@.members[a] == pre.members[a0]);
                        assert(self@.members[b] == pre.members[b0]);
                    }
                    assert forall|a: int| 0 <= a < self@.members.len() implies self@.room_exists(
                        (#[trigger] self@.members[a]).0,
                    ) && self@.user_exists(self@.members[a].1) by {
                        let a0 = if a < i { a } else { a + 1 };
                        let m = pre.members[a0];
                        assert(self@.members[a] == m);
                        assert(self@.rooms == pre.rooms);
                        assert(pre.room_exists(m.0) && pre.user_exists(m.1));
                        let r = choose|r: int| 0 <= r < pre.rooms.len() && pre.rooms[r].id == m.0;
                        let u = choose|u: int| 0 <= u < pre.users.len() && pre.users[u].id == m.1;
                        assert(self@.rooms[r].id == m.0);
                        assert(self@.users[u].id == m.1);
                    }
                    assert(self@ == pre.without_member(room_id, user_id));
                }
                Ok(())
            },
            None => Err(DatabaseServiceError::NoResult),
        }
    }

    /// The rooms that `user_id` belongs to, in the order they were created.
    pub fn chat_room_list_for_user(&self, user_id: u64) -> (r: Vec<ChatRoom>)
        requires
            self@.wf(),
        ensures
            views(r@) == self@.rooms_for(user_id),
    {
        let mut out: Vec<ChatRoom> = Vec::new();
        let mut i: usize = 0;
        while i < self.rooms.len()
            invariant
                self@.wf(),
                i <= self.rooms.len(),
                views(out@) == self@.rooms.take(i as int).filter(self@.room_of(user_id)),
            decreases self.rooms.len() - i,
        {
            let room = &self.rooms[i];
            let ghost before = out@;
            proof {
                lemma_filter_step(self@.rooms, self@.room_of(user_id), i as int);
                assert(room@ == self@.rooms[i as int]);
            }
            if self.is_member(room.id, user_id) {
                out.push(ChatRoom { id: room.id, name: room.name.clone() });
                proof {
                    lemma_views_push(before, out@.last());
                    assert(out@ =~= before.push(out@.last()));
                }
            }
            i = i + 1;
        }
        proof {
            assert(self@.rooms.take(i as int) =~= self@.rooms);
        }
        out
    }

    fn find_association(&self, from: u64, to: u64) -> (r: Option<usize>)
        requires
            self@.wf(),
        ensures
            match r {
                Some(i) => i < self@.associations.len() && self@.associations[i as int].user_id == from
                    && self@.associations[i as int].other_user_id == to
                    && self@.association_known(from, to) && self@.association_index(from, to) == i,
                None => !self@.association_known(from, to),
            },
    {
        let mut i: usize = 0;
        while i < self.associations.len()
            invariant
                self@.wf(),
                i <= self.associations.len(),
                forall|j: int|
                    0 <= j < i ==> !((#[trigger] self@.associations[j]).user_id == from
                        && self@.associations[j].other_user_id == to),
            decreases self.associations.len() - i,
        {
            let row = self.associations[i];
            if row.user_id == from && row.other_user_id == to {
                proof {
                    assert(self@.associations[i as int] == row);
                    assert(self@.association_known(from, to));
                    let k = self@.association_index(from, to);
                    assert(self@.associations_unique());
                    assert(k == i);
                }
                return Some(i);
            }
            i = i + 1;
        }
        None
    }

    /// The association `from -> to`, if one is set.
    pub fn association(&self, from: u64, to: u64) -> (r: Option<AssociationKind>)
        requires
            self@.wf(),
        ensures
            r == self@.association(from, to),
    {
        match self.find_association(from, to) {
            Some(i) => Some(self.associations[i].kind),
            None => None,
        }
    }

    fn selects(&self, sel: Selection, user: u64, term: &str, u: &DBUser) -> (r: bool)
        requires
            self@.wf(),
        ensures
            r == self@.selected(sel, user, term@, u@),
    {
        let friend = AssociationKind::Friend;
        match sel {
            Selection::Friends => self.association(user, u.id) == Some(friend) && self.association(u.id, user)
                == Some(friend),
            Selection::IncomingRequests => self.association(u.id, user) == Some(friend)
                && self.association(user, u.id) != Some(friend),
            Selection::UnacceptedOutgoing => self.association(user, u.id) == Some(friend)
                && self.association(u.id, user) != Some(friend),
            Selection::Blocked => self.association(user, u.id) == Some(AssociationKind::Block),
            Selection::Search => contains_ignore_ascii_case(u.username.as_str(), term) && self.association(
                u.id,
                user,
            ) != Some(AssociationKind::Block),
        }
    }

    /// The users that `sel` lists for `user`, in the order they registered.
    pub fn list_users(&self, sel: Selection, user: u64, term: &str) -> (r: Vec<UserInfo>)
        requires
            self@.wf(),
        ensures
            views(r@) == self@.listing(sel, user, term@),
    {
        let ghost pick = self@.selector(sel, user, term@);
        let mut out: Vec<UserInfo> = Vec::new();
        let mut i: usize = 0;
        while i < self.users.len()
            invariant
                self@.wf(),
                pick == self@.selector(sel, user, term@),
                i <= self.users.len(),
                views(out@) == infos(self@.users.take(i as int).filter(pick)),
            decreases self.users.len() - i,
        {
            let u = &self.users[i];
            let ghost before = out@;
            proof {
                lemma_filter_step(self@.users, pick, i as int);
                assert(u@ == self@.users[i as int]);
            }
            if self.selects(sel, user, term, u) {
                out.push(UserInfo { id: u.id, username: u.username.clone() });
                proof {
                    lemma_map_push(self@.users.take(i as int).filter(pick), u@, |v: UserView| user_info(v));
                    lemma_views_push(before, out@.last());
                    assert(out@ =~= before.push(out@.last()));
                }
            }
            i = i + 1;
        }
        proof {
            assert(self@.users.take(i as int) =~= self@.users);
        }
        out
    }

    /// The members of `room_id` with their names, in the order they registered.
    pub fn chat_room_get_users(&self, room_id: u64) -> (r: Vec<DBRoomMember>)
        requires
            self@.wf(),
        ensures
            views(r@) == self@.members_of(room_id),
    {
        let ghost pick = self@.member_of(room_id);
        let mut out: Vec<DBRoomMember> = Vec::new();
        let mut i: usize = 0;
        while i < self.users.len()
            invariant
                self@.wf(),
                pick == self@.member_of(room_id),
                i <= self.users.len(),
                views(out@) == infos(self@.users.take(i as int).filter(pick)),
            decreases self.users.len() - i,
        {
            let u = &self.users[i];
            let ghost before = out@;
            proof {
                lemma_filter_step(self@.users, pick, i as int);
                assert(u@ == self@.users[i as int]);
            }
            if self.is_member(room_id, u.id) {
                out.push(DBRoomMember { user_id: u.id, username: u.username.clone() });
                proof {
                    lemma_map_push(self@.users.take(i as int).filter(pick), u@, |v: UserView| user_info(v));
                    lemma_views_push(before, out@.last());
                    assert(out@ =~= before.push(out@.last()));
                }
            }
            i = i + 1;
        }
        proof {
            assert(self@.users.take(i as int) =~= self@.users);
        }
        out
    }

    /// Users whose name holds `search_term`, ignoring ASCII case, but for those
    /// who have blocked `user_id`.
    pub fn user_search_global(&self, user_id: u64, search_term: &str) -> (r: Vec<UserInfo>)
        requires
            self@.wf(),
        ensures
            views(r@) == self@.listing(Selection::Search, user_id, search_term@),
    {
        self.list_users(Selection::Search, user_id, search_term)
    }

    /// Users with a friend association toward and from `user_id`.
    pub fn user_association_get_friends(&self, user_id: u64) -> (r: Vec<UserInfo>)
        requires
            self@.wf(),
        ensures
            views(r@) == self@.listing(Selection::Friends, user_id, Seq::empty()),
    {
        let none = String::new();
        self.list_users(Selection::Friends, user_id, none.as_str())
    }

    /// Users whose friend association toward `user_id` is not returned.
    pub fn user_association_get_friend_requesters(&self, user_id: u64) -> (r: Vec<UserInfo>)
        requires
            self@.wf(),
        ensures
            views(r@) == self@.listing(Selection::IncomingRequests, user_id, Seq::empty()),
    {
        let none = String::new();
        self.list_users(Selection::IncomingRequests, user_id, none.as_str())
    }

    /// Users toward whom `user_id` has a friend association that is not returned.
    pub fn user_association_get_unaccepted_friends(&self, user_id: u64) -> (r: Vec<UserInfo>)
        requires
            self@.wf(),
        ensures
            views(r@) == self@.listing(Selection::UnacceptedOutgoing, user_id, Seq::empty()),
    {
        let none = String::new();
        self.list_users(Selection::UnacceptedOutgoing, user_id, none.as_str())
    }

    /// Users that `user_id` has blocked.
    pub fn user_association_get_blocked(&self, user_id: u64) -> (r: Vec<UserInfo>)
        requires
            self@.wf(),
        ensures
            views(r@) == self@.listing(Selection::Blocked, user_id, Seq::empty()),
    {
        let none = String::new();
        self.list_users(Selection::Blocked, user_id, none.as_str())
    }

    /// Sets `user_id -> other_id` to `kind`, replacing any earlier kind; the
    /// result says whether the store changed.
    fn set_association(&mut self, user_id: u64, other_id: u64, kind: AssociationKind) -> (r: bool)
        requires
            old(self)@.wf(),
        ensures
            final(self)@.wf(),
            r == (old(self)@.association(user_id, other_id) != Some(kind)),
            final(self)@ == (if r {
                old(self)@.with_association(user_id, other_id, kind)
            } else {
                old(self)@
            }),
    {
        let ghost pre = self@;
        let row = AssociationRow { user_id, other_user_id: other_id, kind };
        match self.find_association(user_id, other_id) {
            Some(i) => {
                if self.associations[i].kind == kind {
                    return false;
                }
                self.associations.set(i, row);
                proof {
                    assert(self@.associations == pre.associations.update(i as int, row));
                    assert(self@.users == pre.users);
                    assert(self@.tokens == pre.tokens);
                    assert forall|a: int, b: int|
                        0 <= a < self@.associations.len() && 0 <= b < self@.associations.len() && a != b
                        implies !(self@.associations[a].user_id == self@.associations[b].user_id
                        && self@.associations[a].other_user_id == self@.associations[b].other_user_id) by {
                        assert(self@.associations[a].user_id == pre.associations[a].user_id);
                        assert(self@.associations[b].user_id == pre.associations[b].user_id);
                        assert(self@.associations[a].other_user_id == pre.associations[a].other_user_id);
                        assert(self@.associations[b].other_user_id == pre.associations[b].other_user_id);
                    }
                    assert(self@ == pre.with_association(user_id, other_id, kind));
                }
                proof {
                    lemma_members_exist_kept(pre, self@);
                }
                true
            },
            None => {
                self.associations.push(row);
                proof {
                    assert(self@.associations == pre.associations.push(row));
                    assert(self@.users == pre.users);
                    assert(self@.tokens == pre.tokens);
                    assert forall|a: int, b: int|
                        0 <= a < self@.associations.len() && 0 <= b < self@.associations.len() && a != b
                        implies !(self@.associations[a].user_id == self@.associations[b].user_id
                        && self@.associations[a].other_user_id == self@.associations[b].other_user_id) by {
                        if a == pre.associations.len() {
                            assert(!(pre.associations[b].user_id == user_id
                                && pre.associations[b].other_user_id == other_id));
                        } else if b == pre.associations.len() {
                            assert(!(pre.associations[a].user_id == user_id
                                && pre.associations[a].other_user_id == other_id));
                        }
                    }
                    assert(self@ == pre.with_association(user_id, other_id, kind));
                }
                proof {
                    lemma_members_exist_kept(pre, self@);
                }
                true
            },
        }
    }

    /// Sets `user_id -> other_id` to a friend association; the result says
    /// whether the store changed.
    pub fn user_association_set_friend(&mut self, user_id: u64, other_id: u64) -> (r: bool)
        requires
            old(self)@.wf(),
        ensures
            final(self)@.wf(),
            r == (old(self)@.association(user_id, other_id) != Some(AssociationKind::Friend)),
            final(self)@ == (if r {
                old(self)@.with_association(user_id, other_id, AssociationKind::Friend)
            } else {
                old(self)@
            }),
    {
        self.set_association(user_id, other_id, AssociationKind::Friend)
    }

    /// Sets `user_id -> other_id` to a block; the result says whether the
    /// store changed.
    pub fn user_association_set_block(&mut self, user_id: u64, other_id: u64) -> (r: bool)
        requires
            old(self)@.wf(),
        ensures
            final(self)@.wf(),
            r == (old(self)@.association(user_id, other_id) != Some(AssociationKind::Block)),
            final(self)@ == (if r {
                old(self)@.with_association(user_id, other_id, AssociationKind::Block)
            } else {
                old(self)@
            }),
    {
        self.set_association(user_id, other_id, AssociationKind::Block)
    }

    /// Removes the association `user_id -> other_id` if one is set; the result
    /// says whether there was one.
    pub fn user_association_delete(&mut self, user_id: u64, other_id: u64) -> (r: bool)
        requires
            old(self)@.wf(),
        ensures
            final(self)@.wf(),
            r == old(self)@.association_known(user_id, other_id),
            final(self)@ == (if r {
                old(self)@.without_association(user_id, other_id)
            } else {
                old(self)@
            }),
    {
        let ghost pre = self@;
        match self.find_association(user_id, other_id) {
            Some(i) => {
                self.associations.remove(i);
                proof {
                    assert(self@.associations == pre.associations.remove(i as int));
                    assert(self@.users == pre.users);
                    assert(self@.tokens == pre.tokens);
                    assert forall|a: int, b: int|
                        0 <= a < self@.associations.len() && 0 <= b < self@.associations.len() && a != b
                        implies !(self@.associations[a].user_id == self@.associations[b].user_id
                        && self@.associations[a].other_user_id == self@.associations[b].other_user_id) by {
                        let a0 = if a < i { a } else { a + 1 };
                        let b0 = if b < i { b } else { b + 1 };
                        assert(self@.associations[a] == pre.associations[a0]);
                        assert(self@.associations[b] == pre.associations[b0]);
                    }
                    assert(self@ == pre.without_association(user_id, other_id));
                }
                proof {
                    lemma_members_exist_kept(pre, self@);
                }
                true
            },
            None => false,
        }
    }

    /// Appends a message from `user_id` to the room that `message` names, sent
    /// at `now`. The identifier, sender and time that `message` carries are not
    /// used: the store assigns them.
    pub fn chat_room_send_message(&mut self, user_id: u64, message: &ChatMessage, now: i64) -> (r: DBResult<u64>)
        requires
            old(self)@.wf(),
        ensures
            final(self)@.wf(),
            old(self)@.next_message_id == u64::MAX ==> r == Err::<u64, _>(DatabaseServiceError::Exhausted)
                && final(self)@ == old(self)@,
            old(self)@.next_message_id < u64::MAX ==> r == Ok::<u64, DatabaseServiceError>(old(self)@.next_message_id)
                && final(self)@ == old(self)@.with_message(message.room_id, user_id, message.body@, now),
    {
        if self.next_message_id == u64::MAX {
            return Err(DatabaseServiceError::Exhausted);
        }
        let ghost pre = self@;
        let id = self.next_message_id;
        let n = self.messages.len();
        let stamp = if n > 0 && self.messages[n - 1].time_sent > now {
            self.messages[n - 1].time_sent
        } else {
            now
        };
        proof {
            assert(stamp == pre.message_stamp(now));
        }
        self.messages.push(MessageRow {
            id,
            room_id: message.room_id,
            sender_id: user_id,
            body: message.body.clone(),
            time_sent: stamp,
        });
        self.next_message_id = id + 1;
        proof {
            lemma_views_push(old(self).messages@, self.messages@.last());
            assert(self.messages@ =~= old(self).messages@.push(self.messages@.last()));
            assert(self@.users == pre.users);
            assert(self@.tokens == pre.tokens);
            assert forall|a: int| 0 <= a < self@.messages.len() implies #[trigger] self@.messages[a].id
                < self@.next_message_id by {
                if a < pre.messages.len() {
                    assert(self@.messages[a] == pre.messages[a]);
                }
            }
            assert(self@.messages.last().time_sent == stamp);
            assert(ordered_by(self@.messages, message_time())) by {
                assert forall|a: int, b: int| 0 <= a < b < self@.messages.len() implies
                    self@.messages[a].time_sent <= self@.messages[b].time_sent by {
                    if b < n {
                        assert(self@.messages[a] == pre.messages[a]);
                        assert(self@.messages[b] == pre.messages[b]);
                    } else if a < n - 1 {
                        assert(self@.messages[a] == pre.messages[a]);
                        assert(pre.messages[a].time_sent <= pre.messages[n - 1].time_sent);
                    } else {
                        assert(self@.messages[a] == pre.messages[a]);
                    }
                }
            }
            assert(self@.messages =~= pre.with_message(message.room_id, user_id, message.body@, now).messages);
            assert(self@ == pre.with_message(message.room_id, user_id, message.body@, now));
        }
        proof {
            lemma_members_exist_kept(pre, self@);
        }
        Ok(id)
    }

    /// The window of `room_id`'s messages that skips the `offset` newest and
    /// keeps up to `limit` before them, oldest first.
    pub fn chat_room_read_messages(&self, room_id: u64, offset: u64, limit: u64) -> (r: Vec<ChatMessage>)
        requires
            self@.wf(),
        ensures
            views(r@) == messages_out(window(self@.room_log(room_id), offset as int, limit as int)),
            ordered_by(self@.room_log(room_id), message_time()),
    {
        proof {
            self@.lemma_room_log_ordered(room_id);
        }
        let mut log: Vec<ChatMessage> = Vec::new();
        let mut i: usize = 0;
        while i < self.messages.len()
            invariant
                i <= self.messages.len(),
                views(log@) == messages_out(self@.messages.take(i as int).filter(StoreModel::in_room(room_id))),
            decreases self.messages.len() - i,
        {
            let m = &self.messages[i];
            let ghost before = log@;
            proof {
                lemma_filter_step(self@.messages, StoreModel::in_room(room_id), i as int);
                assert(m@ == self@.messages[i as int]);
            }
            if m.room_id == room_id {
                log.push(ChatMessage {
                    id: Some(m.id),
                    room_id: m.room_id,
                    sender_id: Some(m.sender_id),
                    body: m.body.clone(),
                    time_sent: Some(m.time_sent),
                });
                proof {
                    lemma_map_push(
                        self@.messages.take(i as int).filter(StoreModel::in_room(room_id)),
                        m@,
                        |v: MessageView| message_out(v),
                    );
                    lemma_views_push(before, log@.last());
                    assert(log@ =~= before.push(log@.last()));
                }
            }
            i = i + 1;
        }
        proof {
            assert(self@.messages.take(i as int) =~= self@.messages);
        }
        let n = log.len();
        let hi: usize = if offset >= n as u64 { 0 } else { n - offset as usize };
        let lo: usize = if limit >= hi as u64 { 0 } else { hi - limit as usize };
        let mut out: Vec<ChatMessage> = Vec::new();
        let mut k: usize = lo;
        while k < hi
            invariant
                lo <= k <= hi <= log.len(),
                views(out@) == views(log@).subrange(lo as int, k as int),
            decreases hi - k,
        {
            let m = &log[k];
            let ghost before = out@;
            out.push(ChatMessage {
                id: m.id,
                room_id: m.room_id,
                sender_id: m.sender_id,
                body: m.body.clone(),
                time_sent: m.time_sent,
            });
            proof {
                lemma_views_push(before, out@.last());
                assert(out@ =~= before.push(out@.last()));
                assert(views(log@).subrange(lo as int, k + 1) =~= views(log@).subrange(lo as int, k as int).push(
                    log@[k as int]@,
                ));
            }
            k = k + 1;
        }
        proof {
            let full = self@.room_log(room_id);
            assert(views(log@) == messages_out(full));
            assert(messages_out(window(full, offset as int, limit as int)) =~= messages_out(full).subrange(
                lo as int,
                hi as int,
            ));
        }
        out
    }
}

} // verus!
