//! Request and response values exchanged with clients, and rows returned by the store.
//! Times are milliseconds since the Unix epoch.
use vstd::prelude::*;

verus! {

pub struct AccountRequest {
    pub username: String,
    pub password: String,
}

pub struct AccountPasswordChange {
    pub old_password: String,
    pub new_password: String,
}

pub struct LoginResponse {
    pub user_id: u64,
    pub token: String,
}

/// One session of a user, as listed back to that user.
pub struct LoginTokenInfo {
    pub user_agent: String,
    pub time_set: i64,
    pub is_requester: bool,
}

pub struct ChatRoom {
    pub id: u64,
    pub name: String,
}

pub struct ChatRoomName {
    pub room_name: String,
}

#[derive(Debug, Clone, Copy, PartialEq, Eq, Structural)]
pub enum ChatRoomManageUserAction {
    AddUser,
    RemoveUser,
}

pub struct ChatRoomManageUser {
    pub user_id: u64,
    pub action: ChatRoomManageUserAction,
}

/// A chat message. A client sends only `room_id` and `body`; the server fills
/// in the rest.
pub struct ChatMessage {
    pub id: Option<u64>,
    pub room_id: u64,
    pub sender_id: Option<u64>,
    pub body: String,
    pub time_sent: Option<i64>,
}

pub struct UserInfo {
    pub id: u64,
    pub username: String,
}

#[derive(Debug, Clone, Copy, PartialEq, Eq, Structural)]
pub enum UserAssociationType {
    Friend,
    Block,
    Remove,
}

pub struct UserAssociationUpdate {
    pub other_user_id: u64,
    pub association_type: UserAssociationType,
}

pub struct UserAssociations {
    pub friends: Vec<UserInfo>,
    pub incoming_requests: Vec<UserInfo>,
    pub unaccepted_requests: Vec<UserInfo>,
    pub blocked: Vec<UserInfo>,
}

pub struct DBUser {
    pub id: u64,
    pub username: String,
    pub password_hash: String,
}

pub struct DBRoomMember {
    pub user_id: u64,
    pub username: String,
}

#[derive(Debug, Clone, Copy, PartialEq, Eq, Structural)]
pub struct MySqlBool(pub bool);

pub struct DBAuthInfo {
    pub user_agent: String,
    pub time_set: i64,
    pub is_requester: MySqlBool,
}

pub struct UserSearchParam {
    pub username: String,
}

pub struct Account {
    pub username: String,
    pub password: String,
}

pub struct Login {
    pub username: String,
    pub password: String,
}

pub struct LoginToken {
    pub token: String,
}

pub struct UserInfoView {
    pub id: u64,
    pub username: Seq<char>,
}

pub struct ChatMessageView {
    pub id: Option<u64>,
    pub room_id: u64,
    pub sender_id: Option<u64>,
    pub body: Seq<char>,
    pub time_sent: Option<i64>,
}

pub struct TokenInfoView {
    pub user_agent: Seq<char>,
    pub time_set: i64,
    pub is_requester: bool,
}

impl View for UserInfo {
    type V = UserInfoView;

    open spec fn view(&self) -> UserInfoView {
        UserInfoView { id: self.id, username: self.username@ }
    }
}

impl View for DBRoomMember {
    type V = UserInfoView;

    open spec fn view(&self) -> UserInfoView {
        UserInfoView { id: self.user_id, username: self.username@ }
    }
}

impl View for ChatMessage {
    type V = ChatMessageView;

    open spec fn view(&self) -> ChatMessageView {
        ChatMessageView {
            id: self.id,
            room_id: self.room_id,
            sender_id: self.sender_id,
            body: self.body@,
            time_sent: self.time_sent,
        }
    }
}

impl View for DBAuthInfo {
    type V = TokenInfoView;

    open spec fn view(&self) -> TokenInfoView {
        TokenInfoView {
            user_agent: self.user_agent@,
            time_set: self.time_set,
            is_requester: self.is_requester.0,
        }
    }
}

impl View for LoginTokenInfo {
    type V = TokenInfoView;

    open spec fn view(&self) -> TokenInfoView {
        TokenInfoView {
            user_agent: self.user_agent@,
            time_set: self.time_set,
            is_requester: self.is_requester,
        }
    }
}

impl DBAuthInfo {
    /// The session as listed to a client.
    pub fn to_token_info(&self) -> (r: LoginTokenInfo)
        ensures
            r@ == self@,
    {
        LoginTokenInfo {
            user_agent: self.user_agent.clone(),
            time_set: self.time_set,
            is_requester: self.is_requester.0,
        }
    }
}

} // verus!
