use chat_backend::database::{AssociationKind, DatabaseService, DatabaseServiceError};
use chat_backend::handler::{
    chat_get_messages, chat_send_message, clear_all_tokens, clear_token, create_chat_room,
    get_all_tokens, get_room_list, get_room_member_names, get_user_associations, issue_token,
    login, manage_room_members, register, token_to_user_id, change_password, change_room_name,
    user_association, user_search_global, AssociationChange, ServiceError,
};
use chat_backend::models::{
    AccountPasswordChange, AccountRequest, ChatMessage, ChatRoomManageUser,
    ChatRoomManageUserAction, ChatRoomName, UserAssociationType, UserAssociationUpdate,
    UserSearchParam,
};
use chat_backend::validation::InputError;
use uuid::Uuid;

fn account(username: &str, password: &str) -> AccountRequest {
    AccountRequest { username: username.to_string(), password: password.to_string() }
}

fn bearer(token: u128) -> String {
    Uuid::from_u128(token).to_string()
}

/// Adds a user with a placeholder hash and one session token, without hashing.
fn user_with_token(db: &mut DatabaseService, name: &str, token: u128) -> (u64, String) {
    let id = db.user_register(name, "unused-hash".to_string()).unwrap();
    db.user_set_token(id, token, "test client", 1).unwrap();
    (id, bearer(token))
}

fn outgoing(room_id: u64, body: &str) -> ChatMessage {
    ChatMessage { id: None, room_id, sender_id: None, body: body.to_string(), time_sent: None }
}

fn room_name(name: &str) -> ChatRoomName {
    ChatRoomName { room_name: name.to_string() }
}

#[test]
fn register_same_name_in_other_case_conflicts() {
    let mut db = DatabaseService::new();
    assert_eq!(register(&mut db, &account("alice", "password1")), Ok(()));
    assert_eq!(register(&mut db, &account("ALICE", "password2")), Err(ServiceError::UsernameTaken));
    assert_eq!(ServiceError::UsernameTaken.status_code(), 400);
}

#[test]
fn login_then_resolve_gives_same_user() {
    let mut db = DatabaseService::new();
    register(&mut db, &account("alice", "password1")).unwrap();
    let resp = login(&mut db, &account("Alice", "password1"), "browser", 10).unwrap();
    assert_eq!(resp.token.len(), 36);
    assert!(Uuid::parse_str(&resp.token).is_ok());
    assert_eq!(token_to_user_id(&db, &resp.token), Ok(resp.user_id));
}

#[test]
fn login_wrong_password_and_unknown_user() {
    let mut db = DatabaseService::new();
    register(&mut db, &account("alice", "password1")).unwrap();
    assert!(matches!(login(&mut db, &account("alice", "password2"), "b", 1), Err(ServiceError::WrongPassword)));
    assert!(matches!(login(&mut db, &account("bobby", "password1"), "b", 1), Err(ServiceError::UnknownUsername)));
}

#[test]
fn forced_token_collision_is_retried() {
    let mut db = DatabaseService::new();
    let (_bob, _) = user_with_token(&mut db, "bobby", 7);
    let alice = db.user_register("alice", "h".to_string()).unwrap();
    let issued = issue_token(&mut db, alice, "phone", 2, &vec![7, 8, 9]).unwrap();
    assert_eq!(issued, 8);
    assert_ne!(issued, 7);
    assert_eq!(token_to_user_id(&db, &bearer(8)), Ok(alice));
    assert_eq!(issue_token(&mut db, alice, "phone", 3, &vec![7]), Err(ServiceError::Storage));
}

#[test]
fn revoke_all_makes_old_tokens_unauthorized() {
    let mut db = DatabaseService::new();
    let (alice, first) = user_with_token(&mut db, "alice", 11);
    db.user_set_token(alice, 12, "second", 2).unwrap();
    let (bob, bobs) = user_with_token(&mut db, "bobby", 13);
    assert_eq!(clear_all_tokens(&mut db, &first), Ok(()));
    assert_eq!(token_to_user_id(&db, &first), Err(ServiceError::Unauthorized));
    assert_eq!(token_to_user_id(&db, &bearer(12)), Err(ServiceError::Unauthorized));
    assert_eq!(token_to_user_id(&db, &bobs), Ok(bob));
}

#[test]
fn created_room_has_creator_as_member() {
    let mut db = DatabaseService::new();
    let (alice, token) = user_with_token(&mut db, "alice", 21);
    let room = create_chat_room(&mut db, &token, &room_name("Team")).unwrap();
    assert!(db.is_member(room, alice));
    let rooms = get_room_list(&db, &token).unwrap();
    assert_eq!(rooms.len(), 1);
    assert_eq!(rooms[0].name, "Team");
}

#[test]
fn add_member_twice_succeeds_and_remove_absent_fails() {
    let mut db = DatabaseService::new();
    let (_alice, token) = user_with_token(&mut db, "alice", 31);
    let bob = db.user_register("bobby", "h".to_string()).unwrap();
    let room = create_chat_room(&mut db, &token, &room_name("Team")).unwrap();
    let add = ChatRoomManageUser { user_id: bob, action: ChatRoomManageUserAction::AddUser };
    assert_eq!(manage_room_members(&mut db, &token, room, &add), Ok(()));
    assert_eq!(manage_room_members(&mut db, &token, room, &add), Ok(()));
    assert_eq!(get_room_member_names(&db, &token, room).unwrap().len(), 2);
    let remove = ChatRoomManageUser { user_id: bob, action: ChatRoomManageUserAction::RemoveUser };
    assert_eq!(manage_room_members(&mut db, &token, room, &remove), Ok(()));
    assert_eq!(manage_room_members(&mut db, &token, room, &remove), Err(ServiceError::TargetNotMember));
    let ghost = ChatRoomManageUser { user_id: 999, action: ChatRoomManageUserAction::AddUser };
    assert_eq!(manage_room_members(&mut db, &token, room, &ghost), Err(ServiceError::NotFound));
}

#[test]
fn non_member_is_refused_room_actions() {
    let mut db = DatabaseService::new();
    let (_alice, alice_token) = user_with_token(&mut db, "alice", 41);
    let (_bob, bob_token) = user_with_token(&mut db, "bobby", 42);
    let room = create_chat_room(&mut db, &alice_token, &room_name("Team")).unwrap();
    assert_eq!(change_room_name(&mut db, &bob_token, room, &room_name("Mine")), Err(ServiceError::NotRoomMember));
    assert!(matches!(chat_get_messages(&db, &bob_token, room, 0, 5), Err(ServiceError::NotRoomMember)));
    assert_eq!(chat_send_message(&mut db, &bob_token, &outgoing(room, "hi"), 5), Err(ServiceError::NotRoomMember));
    assert!(matches!(get_room_member_names(&db, &bob_token, room), Err(ServiceError::NotRoomMember)));
    assert_eq!(ServiceError::NotRoomMember.status_code(), 401);
    assert_eq!(change_room_name(&mut db, &alice_token, room, &room_name("Team 2")), Ok(()));
    assert_eq!(get_room_list(&db, &alice_token).unwrap()[0].name, "Team 2");
}

#[test]
fn message_windows_adjoin_without_overlap() {
    let mut db = DatabaseService::new();
    let (_alice, token) = user_with_token(&mut db, "alice", 51);
    let room = create_chat_room(&mut db, &token, &room_name("Team")).unwrap();
    let other = create_chat_room(&mut db, &token, &room_name("Other")).unwrap();
    for i in 0..5 {
        chat_send_message(&mut db, &token, &outgoing(room, &format!("m{}", i)), i).unwrap();
        chat_send_message(&mut db, &token, &outgoing(other, "noise"), i).unwrap();
    }
    let newest = chat_get_messages(&db, &token, room, 0, 2).unwrap();
    let older = chat_get_messages(&db, &token, room, 2, 2).unwrap();
    let bodies = |v: &Vec<ChatMessage>| v.iter().map(|m| m.body.clone()).collect::<Vec<_>>();
    assert_eq!(bodies(&newest), vec!["m3", "m4"]);
    assert_eq!(bodies(&older), vec!["m1", "m2"]);
    let oldest = chat_get_messages(&db, &token, room, 4, 2).unwrap();
    assert_eq!(bodies(&oldest), vec!["m0"]);
    assert!(chat_get_messages(&db, &token, room, 9, 2).unwrap().is_empty());
    assert!(matches!(
        chat_get_messages(&db, &token, room, 0, 0),
        Err(ServiceError::InvalidInput(InputError::ZeroLimit))
    ));
}

#[test]
fn friendship_listings_follow_both_directions() {
    let mut db = DatabaseService::new();
    let (alice, a_token) = user_with_token(&mut db, "alice", 61);
    let (bob, b_token) = user_with_token(&mut db, "bobby", 62);
    let friend_bob = UserAssociationUpdate { other_user_id: bob, association_type: UserAssociationType::Friend };
    assert_eq!(user_association(&mut db, &a_token, &friend_bob), Ok(AssociationChange::Changed));
    assert_eq!(user_association(&mut db, &a_token, &friend_bob), Ok(AssociationChange::Unchanged));
    let a_view = get_user_associations(&db, &a_token).unwrap();
    let b_view = get_user_associations(&db, &b_token).unwrap();
    assert_eq!(a_view.unaccepted_requests.len(), 1);
    assert_eq!(a_view.unaccepted_requests[0].id, bob);
    assert_eq!(b_view.incoming_requests.len(), 1);
    assert_eq!(b_view.incoming_requests[0].id, alice);
    assert!(a_view.friends.is_empty());
    let friend_alice = UserAssociationUpdate { other_user_id: alice, association_type: UserAssociationType::Friend };
    user_association(&mut db, &b_token, &friend_alice).unwrap();
    let a_view = get_user_associations(&db, &a_token).unwrap();
    let b_view = get_user_associations(&db, &b_token).unwrap();
    assert_eq!(a_view.friends.len(), 1);
    assert_eq!(a_view.friends[0].id, bob);
    assert_eq!(b_view.friends[0].id, alice);
    assert!(a_view.unaccepted_requests.is_empty() && b_view.incoming_requests.is_empty());
    let remove = UserAssociationUpdate { other_user_id: alice, association_type: UserAssociationType::Remove };
    assert_eq!(user_association(&mut db, &b_token, &remove), Ok(AssociationChange::Changed));
    assert_eq!(user_association(&mut db, &b_token, &remove), Ok(AssociationChange::Unchanged));
}

#[test]
fn search_leaves_out_users_who_blocked_the_searcher() {
    let mut db = DatabaseService::new();
    let (alice, a_token) = user_with_token(&mut db, "alice", 71);
    let (_bob, b_token) = user_with_token(&mut db, "bobalicious", 72);
    let carol = db.user_register("CarolAli", "h".to_string()).unwrap();
    let term = UserSearchParam { username: "ALI".to_string() };
    assert_eq!(user_search_global(&db, &a_token, &term).unwrap().len(), 3);
    let block = UserAssociationUpdate { other_user_id: alice, association_type: UserAssociationType::Block };
    user_association(&mut db, &b_token, &block).unwrap();
    let found = user_search_global(&db, &a_token, &term).unwrap();
    let ids: Vec<u64> = found.iter().map(|u| u.id).collect();
    assert_eq!(ids, vec![alice, carol]);
    assert_eq!(get_user_associations(&db, &b_token).unwrap().blocked[0].id, alice);
    assert_eq!(db.association(2, alice), Some(AssociationKind::Block));
    let empty = UserSearchParam { username: String::new() };
    assert!(matches!(
        user_search_global(&db, &a_token, &empty),
        Err(ServiceError::InvalidInput(InputError::EmptySearchTerm))
    ));
}

#[test]
fn end_to_end_alice_posts_in_team() {
    let mut db = DatabaseService::new();
    register(&mut db, &account("alice", "password1")).unwrap();
    let resp = login(&mut db, &account("alice", "password1"), "browser", 100).unwrap();
    let room = create_chat_room(&mut db, &resp.token, &room_name("Team")).unwrap();
    let rooms = get_room_list(&db, &resp.token).unwrap();
    assert_eq!(rooms.len(), 1);
    assert_eq!(rooms[0].id, room);
    assert_eq!(rooms[0].name, "Team");
    chat_send_message(&mut db, &resp.token, &outgoing(room, "hi"), 101).unwrap();
    let messages = chat_get_messages(&db, &resp.token, room, 0, 10).unwrap();
    assert_eq!(messages.len(), 1);
    assert_eq!(messages[0].body, "hi");
    assert_eq!(messages[0].sender_id, Some(resp.user_id));
    assert_eq!(messages[0].room_id, room);
    assert_eq!(messages[0].time_sent, Some(101));
    assert!(messages[0].id.is_some());
}

#[test]
fn malformed_and_unknown_tokens() {
    let mut db = DatabaseService::new();
    let (_alice, _token) = user_with_token(&mut db, "alice", 81);
    assert_eq!(token_to_user_id(&db, "not-a-token"), Err(ServiceError::MalformedToken));
    assert_eq!(token_to_user_id(&db, &bearer(82)), Err(ServiceError::Unauthorized));
    assert_eq!(ServiceError::MalformedToken.status_code(), 401);
    assert_eq!(ServiceError::Storage.status_code(), 500);
}

#[test]
fn logout_ends_only_that_session() {
    let mut db = DatabaseService::new();
    let (alice, first) = user_with_token(&mut db, "alice", 91);
    db.user_set_token(alice, 92, "second", 2).unwrap();
    assert_eq!(clear_token(&mut db, &first), Ok(()));
    assert_eq!(token_to_user_id(&db, &first), Err(ServiceError::Unauthorized));
    assert_eq!(token_to_user_id(&db, &bearer(92)), Ok(alice));
    assert_eq!(clear_token(&mut db, &first), Err(ServiceError::Unauthorized));
}

#[test]
fn session_list_marks_requester_and_updates_label() {
    let mut db = DatabaseService::new();
    let (alice, first) = user_with_token(&mut db, "alice", 101);
    db.user_set_token(alice, 102, "tablet", 5).unwrap();
    let sessions = get_all_tokens(&mut db, &bearer(102), "tablet v2", 9).unwrap();
    assert_eq!(sessions.len(), 2);
    assert_eq!(sessions[0].user_agent, "test client");
    assert!(!sessions[0].is_requester);
    assert_eq!(sessions[0].time_set, 1);
    assert_eq!(sessions[1].user_agent, "tablet v2");
    assert!(sessions[1].is_requester);
    assert_eq!(sessions[1].time_set, 5);
    assert!(get_all_tokens(&mut db, &first, "x", 10).unwrap()[0].is_requester);
}

#[test]
fn store_refuses_token_of_another_user() {
    let mut db = DatabaseService::new();
    let (_alice, _) = user_with_token(&mut db, "alice", 111);
    let bob = db.user_register("bobby", "h".to_string()).unwrap();
    assert_eq!(db.user_set_token(bob, 111, "x", 1), Err(DatabaseServiceError::KeyAlreadyExists));
    assert_eq!(db.user_set_token(77, 5, "x", 1), Err(DatabaseServiceError::NoResult));
    assert_eq!(db.user_register("BOBBY", "h".to_string()), Err(DatabaseServiceError::KeyAlreadyExists));
}

#[test]
fn change_password_rules() {
    let mut db = DatabaseService::new();
    register(&mut db, &account("alice", "password1")).unwrap();
    let resp = login(&mut db, &account("alice", "password1"), "b", 1).unwrap();
    let same = AccountPasswordChange { old_password: "password1".to_string(), new_password: "password1".to_string() };
    assert_eq!(change_password(&mut db, &resp.token, &same), Err(ServiceError::InvalidInput(InputError::SamePassword)));
    let wrong = AccountPasswordChange { old_password: "password9".to_string(), new_password: "password2".to_string() };
    assert_eq!(change_password(&mut db, &resp.token, &wrong), Err(ServiceError::WrongPassword));
    let good = AccountPasswordChange { old_password: "password1".to_string(), new_password: "password2".to_string() };
    assert_eq!(change_password(&mut db, &resp.token, &good), Ok(()));
    assert!(matches!(login(&mut db, &account("alice", "password2"), "b", 2), Ok(_)));
}

#[test]
fn input_rules_are_checked_first() {
    let mut db = DatabaseService::new();
    assert_eq!(register(&mut db, &account("abc", "password1")), Err(ServiceError::InvalidInput(InputError::UsernameLength)));
    assert_eq!(register(&mut db, &account("alice", "short")), Err(ServiceError::InvalidInput(InputError::PasswordLength)));
    assert_eq!(register(&mut db, &account("ali_ce", "password1")), Err(ServiceError::InvalidInput(InputError::DisallowedCharacter)));
    let long = "a".repeat(65);
    assert_eq!(register(&mut db, &account(&long, "password1")), Err(ServiceError::InvalidInput(InputError::UsernameLength)));
    let (_alice, token) = user_with_token(&mut db, "alice", 121);
    assert_eq!(create_chat_room(&mut db, &token, &room_name("")), Err(ServiceError::InvalidInput(InputError::EmptyRoomName)));
    assert_eq!(create_chat_room(&mut db, &token, &room_name(&long)), Err(ServiceError::InvalidInput(InputError::RoomNameTooLong)));
    assert_eq!(create_chat_room(&mut db, &token, &room_name("no-dash")), Err(ServiceError::InvalidInput(InputError::DisallowedCharacter)));
    let mut populated = outgoing(1, "hi");
    populated.sender_id = Some(1);
    assert_eq!(chat_send_message(&mut db, &token, &populated, 1), Err(ServiceError::InvalidInput(InputError::PopulatedMessageFields)));
    assert_eq!(ServiceError::InvalidInput(InputError::ZeroLimit).status_code(), 400);
}

#[test]
fn session_times_never_go_backward() {
    let mut db = DatabaseService::new();
    let alice = db.user_register("alice", "h".to_string()).unwrap();
    db.user_set_token(alice, 1, "first", 10).unwrap();
    db.user_set_token(alice, 2, "second", 5).unwrap();
    db.user_set_token(alice, 3, "third", 12).unwrap();
    let sessions = get_all_tokens(&mut db, &bearer(2), "second", 1).unwrap();
    let times: Vec<i64> = sessions.iter().map(|s| s.time_set).collect();
    assert_eq!(times, vec![10, 10, 12]);
    assert!(sessions[1].is_requester);
}

#[test]
fn message_times_never_go_backward() {
    let mut db = DatabaseService::new();
    let (_alice, token) = user_with_token(&mut db, "alice", 131);
    let room = create_chat_room(&mut db, &token, &room_name("Team")).unwrap();
    chat_send_message(&mut db, &token, &outgoing(room, "a"), 50).unwrap();
    chat_send_message(&mut db, &token, &outgoing(room, "b"), 20).unwrap();
    chat_send_message(&mut db, &token, &outgoing(room, "c"), 60).unwrap();
    let log = chat_get_messages(&db, &token, room, 0, 10).unwrap();
    let times: Vec<Option<i64>> = log.iter().map(|m| m.time_sent).collect();
    assert_eq!(times, vec![Some(50), Some(50), Some(60)]);
    assert_eq!(log[1].body, "b");
}

#[test]
fn association_store_reports_whether_it_changed() {
    let mut db = DatabaseService::new();
    assert!(!db.user_association_delete(1, 2));
    assert!(db.user_association_set_friend(1, 2));
    assert!(!db.user_association_set_friend(1, 2));
    assert!(db.user_association_set_block(1, 2));
    assert_eq!(db.association(1, 2), Some(AssociationKind::Block));
    assert!(db.user_association_delete(1, 2));
    assert_eq!(db.association(1, 2), None);
}
