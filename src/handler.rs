//! The service's operations as a client calls them: each checks its input, then
//! resolves the bearer token to a user, then checks room membership where the
//! operation is scoped to a room, and only then touches the store.
use vstd::prelude::*;
use crate::crypto::{
    hash_password, new_token, parse_token, parsed_uuid, password_matches, token_text,
    verify_password,
};
use crate::database::{
    message_time, messages_out, session_time, window, AssociationKind, DatabaseService,
    DatabaseServiceError, Selection, StoreModel,
};
use crate::models::{
    AccountPasswordChange, AccountRequest, ChatMessage, ChatRoom, ChatRoomManageUser,
    ChatRoomManageUserAction, ChatRoomName, LoginResponse, LoginTokenInfo, UserAssociationType,
    UserAssociationUpdate, UserAssociations, UserInfo, UserSearchParam,
};
use crate::seqs::{lemma_views_push, ordered_by, views};
use crate::validation::{
    account_input_error, check_account_input, check_password_change, check_room_name,
    password_change_error, room_name_error, InputError,
};

verus! {

/// How many fresh identifiers a login tries before it gives up.
pub const MAX_TOKEN_ATTEMPTS: usize = 5;

/// Every way a request can fail.
#[derive(Debug, Clone, Copy, PartialEq, Eq, Structural)]
pub enum ServiceError {
    /// A field breaks the input rules; nothing was looked up.
    InvalidInput(InputError),
    /// The bearer value is not a token at all.
    MalformedToken,
    /// The bearer token belongs to nobody.
    Unauthorized,
    /// The requester does not belong to the room.
    NotRoomMember,
    UsernameTaken,
    UnknownUsername,
    WrongPassword,
    /// The user to be removed does not belong to the room.
    TargetNotMember,
    /// The user to be added does not exist.
    NotFound,
    /// The store could not do what was asked.
    Storage,
}

impl ServiceError {
    /// The HTTP status that reports the error: 400 for bad input, 401 for any
    /// failure to authorise, 500 for the store.
    pub fn status_code(&self) -> (r: u16)
        ensures
            r == status_of(*self),
    {
        match self {
            ServiceError::MalformedToken | ServiceError::Unauthorized | ServiceError::NotRoomMember => 401,
            ServiceError::Storage => 500,
            _ => 400,
        }
    }
}

pub open spec fn status_of(e: ServiceError) -> u16 {
    match e {
        ServiceError::MalformedToken | ServiceError::Unauthorized | ServiceError::NotRoomMember => 401,
        ServiceError::Storage => 500,
        _ => 400,
    }
}

/// What resolving the bearer value `bearer` against the store `m` gives.
pub open spec fn resolve(m: StoreModel, bearer: Seq<char>) -> Result<u64, ServiceError> {
    match parsed_uuid(bearer) {
        None => Err(ServiceError::MalformedToken),
        Some(t) => match m.token_owner(t) {
            Some(u) => Ok(u),
            None => Err(ServiceError::Unauthorized),
        },
    }
}

/// The user that the bearer value `bearer` belongs to.
pub fn token_to_user_id(db: &DatabaseService, bearer: &str) -> (r: Result<u64, ServiceError>)
    requires
        db@.wf(),
    ensures
        r == resolve(db@, bearer@),
{
    let token = match parse_token(bearer) {
        Some(t) => t,
        None => return Err(ServiceError::MalformedToken),
    };
    match db.user_id_from_token(token) {
        Ok(user_id) => Ok(user_id),
        Err(_) => Err(ServiceError::Unauthorized),
    }
}

/// Whether `user_id` could take `token`: nobody else holds it.
pub open spec fn usable(m: StoreModel, user_id: u64, token: u128) -> bool {
    m.set_token_outcome(user_id, token) is Ok
}

/// Stores for `user_id` the first of `candidates` that nobody else holds, and
/// returns it; a candidate held by another user is passed over. Where every
/// candidate is held, nothing changes and the store error is returned.
pub fn issue_token(
    db: &mut DatabaseService,
    user_id: u64,
    user_agent: &str,
    now: i64,
    candidates: &Vec<u128>,
) -> (r: Result<u128, ServiceError>)
    requires
        old(db)@.wf(),
    ensures
        final(db)@.wf(),
        match r {
            Ok(t) => exists|i: int|
                0 <= i < candidates@.len() && candidates@[i] == t && usable(old(db)@, user_id, t)
                    && (forall|j: int| 0 <= j < i ==> !usable(old(db)@, user_id, #[trigger] candidates@[j]))
                    && final(db)@ == old(db)@.with_token(user_id, t, user_agent@, now),
            Err(e) => e == ServiceError::Storage && final(db)@ == old(db)@ && forall|j: int|
                0 <= j < candidates@.len() ==> !usable(old(db)@, user_id, #[trigger] candidates@[j]),
        },
{
    let mut i: usize = 0;
    while i < candidates.len()
        invariant
            db@ == old(db)@,
            db@.wf(),
            i <= candidates.len(),
            forall|j: int| 0 <= j < i ==> !usable(old(db)@, user_id, #[trigger] candidates@[j]),
        decreases candidates.len() - i,
    {
        let t = candidates[i];
        match db.user_set_token(user_id, t, user_agent, now) {
            Ok(()) => {
                return Ok(t);
            },
            Err(DatabaseServiceError::KeyAlreadyExists) => {},
            Err(_) => {
                assert forall|j: int| 0 <= j < candidates@.len() implies !usable(
                    old(db)@,
                    user_id,
                    #[trigger] candidates@[j],
                ) by {
                    assert(!old(db)@.user_exists(user_id));
                }
                return Err(ServiceError::Storage);
            },
        }
        i = i + 1;
    }
    Err(ServiceError::Storage)
}

/// Registers `body.username` with a hash of `body.password`, after the input
/// rules and a case-insensitive check that the name is free.
pub fn register(db: &mut DatabaseService, body: &AccountRequest) -> (r: Result<(), ServiceError>)
    requires
        old(db)@.wf(),
    ensures
        final(db)@.wf(),
        match account_input_error(body.username@, body.password@) {
            Some(e) => r == Err::<(), _>(ServiceError::InvalidInput(e)) && final(db)@ == old(db)@,
            None => if old(db)@.username_taken(body.username@) {
                r == Err::<(), _>(ServiceError::UsernameTaken) && final(db)@ == old(db)@
            } else if old(db)@.next_user_id == u64::MAX {
                r == Err::<(), _>(ServiceError::Storage) && final(db)@ == old(db)@
            } else {
                r is Ok && exists|h: Seq<char>|
                    password_matches(body.password@, h) && final(db)@ == old(db)@.with_user(
                        body.username@,
                        h,
                    )
            },
        },
{
    if let Err(e) = check_account_input(body.username.as_str(), body.password.as_str()) {
        return Err(ServiceError::InvalidInput(e));
    }
    if db.user_exists(body.username.as_str()) {
        return Err(ServiceError::UsernameTaken);
    }
    let hash = match hash_password(body.password.as_str()) {
        Some(h) => h,
        None => return Err(ServiceError::Storage),
    };
    let ghost h = hash@;
    match db.user_register(body.username.as_str(), hash) {
        Ok(_) => {
            assert(password_matches(body.password@, h));
            Ok(())
        },
        Err(_) => Err(ServiceError::Storage),
    }
}

/// Checks the credentials in `body` and opens a session for the client
/// `user_agent`: the response carries the user's identifier and the token text.
pub fn login(db: &mut DatabaseService, body: &AccountRequest, user_agent: &str, now: i64) -> (r:
    Result<LoginResponse, ServiceError>)
    requires
        old(db)@.wf(),
    ensures
        final(db)@.wf(),
        match account_input_error(body.username@, body.password@) {
            Some(e) => r == Err::<LoginResponse, _>(ServiceError::InvalidInput(e)) && final(db)@ == old(db)@,
            None => match old(db)@.user_named(body.username@) {
                None => r == Err::<LoginResponse, _>(ServiceError::UnknownUsername) && final(db)@ == old(db)@,
                Some(u) => if !password_matches(body.password@, u.password_hash) {
                    r == Err::<LoginResponse, _>(ServiceError::WrongPassword) && final(db)@ == old(db)@
                } else {
                    &&& match r {
                        Ok(resp) => resp.user_id == u.id && exists|t: u128|
                            parsed_uuid(resp.token@) == Some(t) && usable(old(db)@, u.id, t)
                                && final(db)@ == old(db)@.with_token(u.id, t, user_agent@, now),
                        Err(e) => e == ServiceError::Storage && final(db)@ == old(db)@,
                    }
                    &&& (forall|i: int|
                        0 <= i < old(db)@.tokens.len() ==> #[trigger] old(db)@.tokens[i].user_id
                            == u.id) ==> r is Ok
                },
            },
        },
{
    if let Err(e) = check_account_input(body.username.as_str(), body.password.as_str()) {
        return Err(ServiceError::InvalidInput(e));
    }
    let user = match db.user_get_by_username(body.username.as_str()) {
        Ok(u) => u,
        Err(_) => return Err(ServiceError::UnknownUsername),
    };
    if !verify_password(body.password.as_str(), user.password_hash.as_str()) {
        return Err(ServiceError::WrongPassword);
    }
    let mut candidates: Vec<u128> = Vec::new();
    let mut k: usize = 0;
    while k < MAX_TOKEN_ATTEMPTS
        invariant
            k <= MAX_TOKEN_ATTEMPTS,
            candidates@.len() == k,
        decreases MAX_TOKEN_ATTEMPTS - k,
    {
        candidates.push(new_token());
        k = k + 1;
    }
    proof {
        let m = db@;
        let c = candidates@[0];
        assert(m.user_exists(user.id)) by {
            let i = choose|i: int|
                0 <= i < m.users.len() && crate::text::eq_ignore_case(m.users[i].username, body.username@);
            assert(m.users[i].id == user.id);
        }
        if forall|i: int| 0 <= i < m.tokens.len() ==> #[trigger] m.tokens[i].user_id == user.id {
            if m.token_known(c) {
                let j = m.token_index(c);
                assert(m.tokens[j].user_id == user.id);
            }
            assert(usable(m, user.id, c));
        }
    }
    match issue_token(db, user.id, user_agent, now, &candidates) {
        Ok(t) => Ok(LoginResponse { user_id: user.id, token: token_text(t) }),
        Err(e) => Err(e),
    }
}

/// In a well-formed store the owner of a token is a user.
pub proof fn lemma_owner_exists(m: StoreModel, token: u128)
    requires
        m.wf(),
        m.token_owner(token) is Some,
    ensures
        m.user_exists(m.token_owner(token)->0),
        m.user_with_id(m.token_owner(token)->0) is Some,
{
    let i = m.token_index(token);
    assert(m.user_exists(m.tokens[i].user_id));
}

/// In a well-formed store a room with a member exists.
pub proof fn lemma_member_room_exists(m: StoreModel, room: u64, user: u64)
    requires
        m.wf(),
        m.is_member(room, user),
    ensures
        m.room_exists(room),
{
    let i = choose|i: int| 0 <= i < m.members.len() && m.members[i] == (room, user);
    assert(m.room_exists(m.members[i].0));
}

/// Replaces the requester's password after checking the old one; the new one
/// must differ from the old.
pub fn change_password(db: &mut DatabaseService, bearer: &str, body: &AccountPasswordChange) -> (r:
    Result<(), ServiceError>)
    requires
        old(db)@.wf(),
    ensures
        final(db)@.wf(),
        match password_change_error(body.old_password@, body.new_password@) {
            Some(e) => r == Err::<(), _>(ServiceError::InvalidInput(e)) && final(db)@ == old(db)@,
            None => match resolve(old(db)@, bearer@) {
                Err(e) => r == Err::<(), _>(e) && final(db)@ == old(db)@,
                Ok(uid) => match old(db)@.user_with_id(uid) {
                    None => r == Err::<(), _>(ServiceError::Storage) && final(db)@ == old(db)@,
                    Some(u) => if !password_matches(body.old_password@, u.password_hash) {
                        r == Err::<(), _>(ServiceError::WrongPassword) && final(db)@ == old(db)@
                    } else {
                        r is Ok && exists|h: Seq<char>|
                            password_matches(body.new_password@, h) && final(db)@
                                == old(db)@.with_password_hash(uid, h)
                    },
                },
            },
        },
{
    if let Err(e) = check_password_change(body.old_password.as_str(), body.new_password.as_str()) {
        return Err(ServiceError::InvalidInput(e));
    }
    let user_id = token_to_user_id(db, bearer)?;
    let user = match db.user_get_by_id(user_id) {
        Ok(u) => u,
        Err(_) => return Err(ServiceError::Storage),
    };
    if !verify_password(body.old_password.as_str(), user.password_hash.as_str()) {
        return Err(ServiceError::WrongPassword);
    }
    let hash = match hash_password(body.new_password.as_str()) {
        Some(h) => h,
        None => return Err(ServiceError::Storage),
    };
    let ghost h = hash@;
    match db.user_update_password_hash(user_id, hash) {
        Ok(()) => {
            assert(password_matches(body.new_password@, h));
            Ok(())
        },
        Err(_) => Err(ServiceError::Storage),
    }
}

/// Ends the session of the bearer token.
pub fn clear_token(db: &mut DatabaseService, bearer: &str) -> (r: Result<(), ServiceError>)
    requires
        old(db)@.wf(),
    ensures
        final(db)@.wf(),
        match resolve(old(db)@, bearer@) {
            Err(e) => r == Err::<(), _>(e) && final(db)@ == old(db)@,
            Ok(uid) => r is Ok && final(db)@ == old(db)@.without_token(parsed_uuid(bearer@)->0),
        },
{
    let token = match parse_token(bearer) {
        Some(t) => t,
        None => return Err(ServiceError::MalformedToken),
    };
    let user_id = match db.user_id_from_token(token) {
        Ok(u) => u,
        Err(_) => return Err(ServiceError::Unauthorized),
    };
    match db.user_remove_token(user_id, token) {
        Ok(()) => Ok(()),
        Err(_) => Err(ServiceError::Storage),
    }
}

/// Lists the requester's sessions, oldest first, after recording `user_agent`
/// as the client label of the bearer token; the bearer's own session is marked.
pub fn get_all_tokens(db: &mut DatabaseService, bearer: &str, user_agent: &str, now: i64) -> (r:
    Result<Vec<LoginTokenInfo>, ServiceError>)
    requires
        old(db)@.wf(),
    ensures
        final(db)@.wf(),
        match resolve(old(db)@, bearer@) {
            Err(e) => r is Err && r->Err_0 == e && final(db)@ == old(db)@,
            Ok(uid) => final(db)@ == old(db)@.with_token(uid, parsed_uuid(bearer@)->0, user_agent@, now)
                && r is Ok && views(r->Ok_0@) == final(db)@.sessions_of(uid, parsed_uuid(bearer@)->0)
                && ordered_by(views(r->Ok_0@), session_time()),
        },
{
    let token = match parse_token(bearer) {
        Some(t) => t,
        None => return Err(ServiceError::MalformedToken),
    };
    let user_id = match db.user_id_from_token(token) {
        Ok(u) => u,
        Err(_) => return Err(ServiceError::Unauthorized),
    };
    proof {
        lemma_owner_exists(db@, token);
    }
    if db.user_set_token(user_id, token, user_agent, now).is_err() {
        return Err(ServiceError::Storage);
    }
    let rows = db.user_get_associated_tokens(user_id, token);
    let mut out: Vec<LoginTokenInfo> = Vec::new();
    let mut i: usize = 0;
    while i < rows.len()
        invariant
            i <= rows.len(),
            views(out@) == views(rows@).take(i as int),
        decreases rows.len() - i,
    {
        let ghost before = out@;
        out.push(rows[i].to_token_info());
        proof {
            lemma_views_push(before, out@.last());
            assert(out@ =~= before.push(out@.last()));
            assert(views(rows@).take(i + 1) =~= views(rows@).take(i as int).push(rows@[i as int]@));
        }
        i = i + 1;
    }
    proof {
        assert(views(rows@).take(i as int) =~= views(rows@));
    }
    Ok(out)
}

/// Ends every session of the requester.
pub fn clear_all_tokens(db: &mut DatabaseService, bearer: &str) -> (r: Result<(), ServiceError>)
    requires
        old(db)@.wf(),
    ensures
        final(db)@.wf(),
        match resolve(old(db)@, bearer@) {
            Err(e) => r == Err::<(), _>(e) && final(db)@ == old(db)@,
            Ok(uid) => r is Ok && final(db)@ == old(db)@.without_tokens_of(uid),
        },
{
    let user_id = token_to_user_id(db, bearer)?;
    db.user_clear_tokens_by_id(user_id);
    Ok(())
}

/// The rooms that the requester belongs to.
pub fn get_room_list(db: &DatabaseService, bearer: &str) -> (r: Result<Vec<ChatRoom>, ServiceError>)
    requires
        db@.wf(),
    ensures
        match resolve(db@, bearer@) {
            Err(e) => r is Err && r->Err_0 == e,
            Ok(uid) => r is Ok && views(r->Ok_0@) == db@.rooms_for(uid),
        },
{
    let user_id = token_to_user_id(db, bearer)?;
    Ok(db.chat_room_list_for_user(user_id))
}

/// Creates a room named `body.room_name` with the requester as its first
/// member, and returns the room's identifier.
pub fn create_chat_room(db: &mut DatabaseService, bearer: &str, body: &ChatRoomName) -> (r: Result<
    u64,
    ServiceError,
>)
    requires
        old(db)@.wf(),
    ensures
        final(db)@.wf(),
        match room_name_error(body.room_name@) {
            Some(e) => r == Err::<u64, _>(ServiceError::InvalidInput(e)) && final(db)@ == old(db)@,
            None => match resolve(old(db)@, bearer@) {
                Err(e) => r == Err::<u64, _>(e) && final(db)@ == old(db)@,
                Ok(uid) => if old(db)@.next_room_id == u64::MAX {
                    r == Err::<u64, _>(ServiceError::Storage) && final(db)@ == old(db)@
                } else {
                    r == Ok::<u64, ServiceError>(old(db)@.next_room_id) && final(db)@ == old(db)@.with_room(
                        body.room_name@,
                    ).with_member(old(db)@.next_room_id, uid)
                },
            },
        },
{
    if let Err(e) = check_room_name(body.room_name.as_str()) {
        return Err(ServiceError::InvalidInput(e));
    }
    let user_id = token_to_user_id(db, bearer)?;
    proof {
        lemma_owner_exists(db@, parsed_uuid(bearer@)->0);
    }
    let ghost pre = db@;
    let room_id = match db.chat_room_create(body.room_name.as_str()) {
        Ok(id) => id,
        Err(_) => return Err(ServiceError::Storage),
    };
    proof {
        let w = choose|w: int| 0 <= w < pre.users.len() && pre.users[w].id == user_id;
        assert(db@.users[w].id == user_id);
        assert(db@.rooms.last().id == room_id);
        assert(db@.room_exists(room_id));
        assert(!db@.is_member(room_id, user_id)) by {
            if db@.members.contains((room_id, user_id)) {
                let k = choose|k: int| 0 <= k < db@.members.len() && db@.members[k] == (room_id, user_id);
                assert(pre.members[k].0 < pre.next_room_id);
            }
        }
    }
    match db.chat_room_add_user(room_id, user_id) {
        Ok(()) => Ok(room_id),
        Err(_) => Err(ServiceError::Storage),
    }
}

/// Renames a room that the requester belongs to.
pub fn change_room_name(db: &mut DatabaseService, bearer: &str, room_id: u64, body: &ChatRoomName) -> (r:
    Result<(), ServiceError>)
    requires
        old(db)@.wf(),
    ensures
        final(db)@.wf(),
        match room_name_error(body.room_name@) {
            Some(e) => r == Err::<(), _>(ServiceError::InvalidInput(e)) && final(db)@ == old(db)@,
            None => match resolve(old(db)@, bearer@) {
                Err(e) => r == Err::<(), _>(e) && final(db)@ == old(db)@,
                Ok(uid) => if !old(db)@.is_member(room_id, uid) {
                    r == Err::<(), _>(ServiceError::NotRoomMember) && final(db)@ == old(db)@
                } else {
                    r is Ok && final(db)@ == old(db)@.with_room_name(room_id, body.room_name@)
                },
            },
        },
{
    if let Err(e) = check_room_name(body.room_name.as_str()) {
        return Err(ServiceError::InvalidInput(e));
    }
    let user_id = token_to_user_id(db, bearer)?;
    if !db.is_member(room_id, user_id) {
        return Err(ServiceError::NotRoomMember);
    }
    proof {
        lemma_member_room_exists(db@, room_id, user_id);
    }
    match db.chat_room_change_name(room_id, body.room_name.as_str()) {
        Ok(()) => Ok(()),
        Err(_) => Err(ServiceError::Storage),
    }
}

/// The members of a room that the requester belongs to.
pub fn get_room_member_names(db: &DatabaseService, bearer: &str, room_id: u64) -> (r: Result<
    Vec<UserInfo>,
    ServiceError,
>)
    requires
        db@.wf(),
    ensures
        match resolve(db@, bearer@) {
            Err(e) => r is Err && r->Err_0 == e,
            Ok(uid) => if !db@.is_member(room_id, uid) {
                r is Err && r->Err_0 == ServiceError::NotRoomMember
            } else {
                r is Ok && views(r->Ok_0@) == db@.members_of(room_id)
            },
        },
{
    let user_id = token_to_user_id(db, bearer)?;
    if !db.is_member(room_id, user_id) {
        return Err(ServiceError::NotRoomMember);
    }
    let members = db.chat_room_get_users(room_id);
    let mut out: Vec<UserInfo> = Vec::new();
    let mut i: usize = 0;
    while i < members.len()
        invariant
            i <= members.len(),
            views(out@) == views(members@).take(i as int),
        decreases members.len() - i,
    {
        let ghost before = out@;
        let m = &members[i];
        out.push(UserInfo { id: m.user_id, username: m.username.clone() });
        proof {
            lemma_views_push(before, out@.last());
            assert(out@ =~= before.push(out@.last()));
            assert(views(members@).take(i + 1) =~= views(members@).take(i as int).push(members@[i as int]@));
        }
        i = i + 1;
    }
    proof {
        assert(views(members@).take(i as int) =~= views(members@));
    }
    Ok(out)
}

/// Adds a user to, or removes one from, a room that the requester belongs to.
/// Adding a member is accepted and changes nothing; removing a non-member is
/// refused.
pub fn manage_room_members(
    db: &mut DatabaseService,
    bearer: &str,
    room_id: u64,
    body: &ChatRoomManageUser,
) -> (r: Result<(), ServiceError>)
    requires
        old(db)@.wf(),
    ensures
        final(db)@.wf(),
        match resolve(old(db)@, bearer@) {
            Err(e) => r == Err::<(), _>(e) && final(db)@ == old(db)@,
            Ok(uid) => if !old(db)@.is_member(room_id, uid) {
                r == Err::<(), _>(ServiceError::NotRoomMember) && final(db)@ == old(db)@
            } else {
                match body.action {
                    ChatRoomManageUserAction::AddUser => if old(db)@.is_member(room_id, body.user_id) {
                        r is Ok && final(db)@ == old(db)@
                    } else if !old(db)@.user_exists(body.user_id) {
                        r == Err::<(), _>(ServiceError::NotFound) && final(db)@ == old(db)@
                    } else {
                        r is Ok && final(db)@ == old(db)@.with_member(room_id, body.user_id)
                    },
                    ChatRoomManageUserAction::RemoveUser => if old(db)@.is_member(room_id, body.user_id) {
                        r is Ok && final(db)@ == old(db)@.without_member(room_id, body.user_id)
                    } else {
                        r == Err::<(), _>(ServiceError::TargetNotMember) && final(db)@ == old(db)@
                    },
                }
            },
        },
{
    let requester = token_to_user_id(db, bearer)?;
    if !db.is_member(room_id, requester) {
        return Err(ServiceError::NotRoomMember);
    }
    proof {
        lemma_member_room_exists(db@, room_id, requester);
    }
    let present = db.is_member(room_id, body.user_id);
    match body.action {
        ChatRoomManageUserAction::AddUser => {
            if present {
                Ok(())
            } else {
                match db.chat_room_add_user(room_id, body.user_id) {
                    Ok(()) => Ok(()),
                    Err(_) => Err(ServiceError::NotFound),
                }
            }
        },
        ChatRoomManageUserAction::RemoveUser => {
            if present {
                match db.chat_room_remove_user(room_id, body.user_id) {
                    Ok(()) => Ok(()),
                    Err(_) => Err(ServiceError::Storage),
                }
            } else {
                Err(ServiceError::TargetNotMember)
            }
        },
    }
}

/// A window of a room's messages for a member of the room: the `offset`
/// newest are skipped and up to `limit` before them returned, oldest first.
pub fn chat_get_messages(db: &DatabaseService, bearer: &str, room_id: u64, offset: u64, limit: u64) -> (r:
    Result<Vec<ChatMessage>, ServiceError>)
    requires
        db@.wf(),
    ensures
        if limit == 0 {
            r is Err && r->Err_0 == ServiceError::InvalidInput(InputError::ZeroLimit)
        } else {
            match resolve(db@, bearer@) {
                Err(e) => r is Err && r->Err_0 == e,
                Ok(uid) => if !db@.is_member(room_id, uid) {
                    r is Err && r->Err_0 == ServiceError::NotRoomMember
                } else {
                    r is Ok && views(r->Ok_0@) == messages_out(
                        window(db@.room_log(room_id), offset as int, limit as int),
                    ) && ordered_by(db@.room_log(room_id), message_time())
                },
            }
        },
{
    if limit == 0 {
        return Err(ServiceError::InvalidInput(InputError::ZeroLimit));
    }
    let user_id = token_to_user_id(db, bearer)?;
    if !db.is_member(room_id, user_id) {
        return Err(ServiceError::NotRoomMember);
    }
    Ok(db.chat_room_read_messages(room_id, offset, limit))
}

/// Posts `body.body` to `body.room_id` for a member of the room; the client
/// may not set the identifier, sender or time.
pub fn chat_send_message(db: &mut DatabaseService, bearer: &str, body: &ChatMessage, now: i64) -> (r:
    Result<(), ServiceError>)
    requires
        old(db)@.wf(),
    ensures
        final(db)@.wf(),
        if body.id is Some || body.sender_id is Some || body.time_sent is Some {
            r == Err::<(), _>(ServiceError::InvalidInput(InputError::PopulatedMessageFields))
                && final(db)@ == old(db)@
        } else {
            match resolve(old(db)@, bearer@) {
                Err(e) => r == Err::<(), _>(e) && final(db)@ == old(db)@,
                Ok(uid) => if !old(db)@.is_member(body.room_id, uid) {
                    r == Err::<(), _>(ServiceError::NotRoomMember) && final(db)@ == old(db)@
                } else if old(db)@.next_message_id == u64::MAX {
                    r == Err::<(), _>(ServiceError::Storage) && final(db)@ == old(db)@
                } else {
                    r is Ok && final(db)@ == old(db)@.with_message(body.room_id, uid, body.body@, now)
                },
            }
        },
{
    if body.id.is_some() || body.sender_id.is_some() || body.time_sent.is_some() {
        return Err(ServiceError::InvalidInput(InputError::PopulatedMessageFields));
    }
    let user_id = token_to_user_id(db, bearer)?;
    if !db.is_member(body.room_id, user_id) {
        return Err(ServiceError::NotRoomMember);
    }
    match db.chat_room_send_message(user_id, body, now) {
        Ok(_) => Ok(()),
        Err(_) => Err(ServiceError::Storage),
    }
}

/// Users whose name holds the search text, ignoring ASCII case, but for those
/// who have blocked the requester.
pub fn user_search_global(db: &DatabaseService, bearer: &str, query: &UserSearchParam) -> (r: Result<
    Vec<UserInfo>,
    ServiceError,
>)
    requires
        db@.wf(),
    ensures
        if query.username@.len() == 0 {
            r is Err && r->Err_0 == ServiceError::InvalidInput(InputError::EmptySearchTerm)
        } else {
            match resolve(db@, bearer@) {
                Err(e) => r is Err && r->Err_0 == e,
                Ok(uid) => r is Ok && views(r->Ok_0@) == db@.listing(Selection::Search, uid, query.username@),
            }
        },
{
    if query.username.as_str().is_empty() {
        return Err(ServiceError::InvalidInput(InputError::EmptySearchTerm));
    }
    let user_id = token_to_user_id(db, bearer)?;
    Ok(db.user_search_global(user_id, query.username.as_str()))
}

/// Whether an association update changed the store.
#[derive(Debug, Clone, Copy, PartialEq, Eq, Structural)]
pub enum AssociationChange {
    Changed,
    Unchanged,
}

/// The store after `update` by `uid`, and whether it changed.
pub open spec fn association_update(m: StoreModel, uid: u64, other: u64, kind: UserAssociationType) -> (
    AssociationChange,
    StoreModel,
) {
    match kind {
        UserAssociationType::Friend => if m.association(uid, other) == Some(AssociationKind::Friend) {
            (AssociationChange::Unchanged, m)
        } else {
            (AssociationChange::Changed, m.with_association(uid, other, AssociationKind::Friend))
        },
        UserAssociationType::Block => if m.association(uid, other) == Some(AssociationKind::Block) {
            (AssociationChange::Unchanged, m)
        } else {
            (AssociationChange::Changed, m.with_association(uid, other, AssociationKind::Block))
        },
        UserAssociationType::Remove => if m.association_known(uid, other) {
            (AssociationChange::Changed, m.without_association(uid, other))
        } else {
            (AssociationChange::Unchanged, m)
        },
    }
}

/// Sets, replaces or removes the requester's association toward `body.other_user_id`.
pub fn user_association(db: &mut DatabaseService, bearer: &str, body: &UserAssociationUpdate) -> (r:
    Result<AssociationChange, ServiceError>)
    requires
        old(db)@.wf(),
    ensures
        final(db)@.wf(),
        match resolve(old(db)@, bearer@) {
            Err(e) => r == Err::<AssociationChange, _>(e) && final(db)@ == old(db)@,
            Ok(uid) => {
                let (change, after) = association_update(
                    old(db)@,
                    uid,
                    body.other_user_id,
                    body.association_type,
                );
                r == Ok::<AssociationChange, ServiceError>(change) && final(db)@ == after
            },
        },
{
    let user_id = token_to_user_id(db, bearer)?;
    let changed = match body.association_type {
        UserAssociationType::Friend => db.user_association_set_friend(user_id, body.other_user_id),
        UserAssociationType::Block => db.user_association_set_block(user_id, body.other_user_id),
        UserAssociationType::Remove => db.user_association_delete(user_id, body.other_user_id),
    };
    if changed {
        Ok(AssociationChange::Changed)
    } else {
        Ok(AssociationChange::Unchanged)
    }
}

/// The requester's friends, incoming and outgoing requests, and blocked users.
pub fn get_user_associations(db: &DatabaseService, bearer: &str) -> (r: Result<UserAssociations, ServiceError>)
    requires
        db@.wf(),
    ensures
        match resolve(db@, bearer@) {
            Err(e) => r is Err && r->Err_0 == e,
            Ok(uid) => r is Ok && views(r->Ok_0.friends@) == db@.listing(Selection::Friends, uid, Seq::empty())
                && views(r->Ok_0.incoming_requests@) == db@.listing(Selection::IncomingRequests, uid, Seq::empty())
                && views(r->Ok_0.unaccepted_requests@) == db@.listing(Selection::UnacceptedOutgoing, uid, Seq::empty())
                && views(r->Ok_0.blocked@) == db@.listing(Selection::Blocked, uid, Seq::empty()),
        },
{
    let user_id = token_to_user_id(db, bearer)?;
    Ok(UserAssociations {
        friends: db.user_association_get_friends(user_id),
        incoming_requests: db.user_association_get_friend_requesters(user_id),
        unaccepted_requests: db.user_association_get_unaccepted_friends(user_id),
        blocked: db.user_association_get_blocked(user_id),
    })
}

} // verus!
