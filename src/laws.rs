//! Properties of the service that relate several operations, proved over the
//! store model that the operations' contracts speak of.
use vstd::prelude::*;
use crate::crypto::parsed_uuid;
use crate::database::{
    infos, message_time, user_info, window, AssociationKind, Selection, StoreModel,
};
use crate::handler::{resolve, usable, ServiceError};
use crate::text::{eq_ignore_case, eq_ignore_case_symmetric};

verus! {

/// Once a name is registered, every spelling of it that differs only in ASCII
/// case is taken, so registering it again fails with `UsernameTaken`.
pub proof fn law_registered_name_taken(m: StoreModel, name: Seq<char>, hash: Seq<char>, again: Seq<char>)
    requires
        eq_ignore_case(again, name),
    ensures
        m.with_user(name, hash).username_taken(again),
{
    let after = m.with_user(name, hash);
    let i = after.users.len() - 1;
    assert(after.users[i].username == name);
    eq_ignore_case_symmetric(again, name);
    assert(eq_ignore_case(after.users[i].username, again));
}

/// After a token is stored for a user that may take it, the bearer text of
/// that token resolves to that user.
pub proof fn law_issued_token_resolves(
    m: StoreModel,
    user_id: u64,
    token: u128,
    agent: Seq<char>,
    now: i64,
    bearer: Seq<char>,
)
    requires
        m.wf(),
        usable(m, user_id, token),
        parsed_uuid(bearer) == Some(token),
    ensures
        resolve(m.with_token(user_id, token, agent, now), bearer) == Ok::<u64, ServiceError>(user_id),
{
    let after = m.with_token(user_id, token, agent, now);
    if m.token_known(token) {
        let i = m.token_index(token);
        assert(after.tokens[i].token == token);
        assert(after.token_known(token));
        let k = after.token_index(token);
        if k != i {
            assert(after.tokens[k].token == m.tokens[k].token);
            assert(m.tokens_unique());
        }
    } else {
        let i = m.tokens.len() as int;
        assert(after.tokens[i].token == token);
        assert(after.token_known(token));
        let k = after.token_index(token);
        if k != i {
            assert(after.tokens[k] == m.tokens[k]);
        }
    }
}

/// A login's retries: where the first candidate is held by another user and
/// the second is free, the candidate that the issued token must be (the first
/// usable one, all before it unusable) is the second, which differs from the
/// first.
pub proof fn law_collision_retried(m: StoreModel, user_id: u64, candidates: Seq<u128>, i: int)
    requires
        candidates.len() >= 2,
        m.token_known(candidates[0]),
        m.token_owner(candidates[0]) != Some(user_id),
        usable(m, user_id, candidates[1]),
        0 <= i < candidates.len(),
        usable(m, user_id, candidates[i]),
        forall|j: int| 0 <= j < i ==> !usable(m, user_id, #[trigger] candidates[j]),
    ensures
        i == 1,
        candidates[i] != candidates[0],
{
    assert(!usable(m, user_id, candidates[0]));
    if i > 1 {
        assert(!usable(m, user_id, candidates[1]));
    }
}

/// After all tokens of a user are removed, no token that the user held
/// resolves any more.
pub proof fn law_revoked_tokens_unauthorized(m: StoreModel, user_id: u64, bearer: Seq<char>)
    requires
        m.wf(),
        parsed_uuid(bearer) is Some,
        m.token_owner(parsed_uuid(bearer)->0) == Some(user_id),
    ensures
        resolve(m.without_tokens_of(user_id), bearer) == Err::<u64, ServiceError>(ServiceError::Unauthorized),
{
    let t = parsed_uuid(bearer)->0;
    let after = m.without_tokens_of(user_id);
    let keep = StoreModel::keeps_token(user_id);
    if after.token_known(t) {
        let k = choose|k: int| 0 <= k < after.tokens.len() && after.tokens[k].token == t;
        assert(m.tokens.filter(keep).contains(after.tokens[k]));
        m.tokens.lemma_filter_contains_rev(keep, after.tokens[k]);
        m.tokens.lemma_filter_pred(keep, k);
        let j = choose|j: int| 0 <= j < m.tokens.len() && m.tokens[j] == after.tokens[k];
        let i = m.token_index(t);
        assert(m.tokens_unique());
        assert(i == j);
    }
}

/// A created room has its creator as a member.
pub proof fn law_creator_is_member(m: StoreModel, name: Seq<char>, creator: u64)
    ensures
        m.with_room(name).with_member(m.next_room_id, creator).is_member(m.next_room_id, creator),
{
    let after = m.with_room(name).with_member(m.next_room_id, creator);
    assert(after.members[after.members.len() - 1] == (m.next_room_id, creator));
}

/// Adding a member twice leaves one membership: after the first addition the
/// user is a member, so the second is accepted without change.
pub proof fn law_member_added_once(m: StoreModel, room: u64, user: u64)
    ensures
        m.with_member(room, user).is_member(room, user),
{
    let after = m.with_member(room, user);
    assert(after.members[after.members.len() - 1] == (room, user));
}

/// Pagination: the window at offset 0 holds the `k` newest entries, and the
/// window at offset `k` holds the `k` entries just before them, so the two
/// together are the window of the `2k` newest, with no overlap and no gap.
pub proof fn law_windows_adjoin<A>(log: Seq<A>, k: int)
    requires
        k > 0,
    ensures
        window(log, 0, k) == log.subrange(
            if k >= log.len() { 0 } else { log.len() - k },
            log.len() as int,
        ),
        window(log, k, k) + window(log, 0, k) == window(log, 0, 2 * k),
{
    let n = log.len() as int;
    let a = if 2 * k >= n { 0 } else { n - 2 * k };
    let b = if k >= n { 0 } else { n - k };
    assert(window(log, k, k) =~= log.subrange(if k >= n { 0 } else { a }, b));
    assert(log.subrange(a, b) + log.subrange(b, n) =~= log.subrange(a, n));
}

/// The newest window of a room holds its latest messages by time: no message
/// before the window was sent later than one inside it.
pub proof fn law_newest_window_is_latest(m: StoreModel, room: u64, k: int, i: int, j: int)
    requires
        m.wf(),
        k > 0,
        0 <= i < window(m.room_log(room), 0, k).len(),
        0 <= j < m.room_log(room).len() - window(m.room_log(room), 0, k).len(),
    ensures
        m.room_log(room)[j].time_sent <= window(m.room_log(room), 0, k)[i].time_sent,
{
    let log = m.room_log(room);
    m.lemma_room_log_ordered(room);
    let start = log.len() - window(log, 0, k).len();
    assert(window(log, 0, k)[i] == log[start + i]);
    assert(message_time()(log[j]) <= message_time()(log[start + i]));
}

/// Reading back an association just set gives its kind, and no other ordered
/// pair changes.
pub proof fn law_association_reads_back(m: StoreModel, from: u64, to: u64, kind: AssociationKind, x: u64, y: u64)
    requires
        m.wf(),
    ensures
        m.with_association(from, to, kind).association(from, to) == Some(kind),
        !(x == from && y == to) ==> m.with_association(from, to, kind).association(x, y) == m.association(x, y),
{
    let after = m.with_association(from, to, kind);
    let known = m.association_known(from, to);
    let i = if known { m.association_index(from, to) } else { m.associations.len() as int };
    assert(after.associations[i].user_id == from && after.associations[i].other_user_id == to);
    assert(after.association_known(from, to));
    let k = after.association_index(from, to);
    if k != i {
        assert(after.associations[k] == m.associations[k]);
        assert(m.associations_unique());
    }
    if !(x == from && y == to) {
        if m.association_known(x, y) {
            let j = m.association_index(x, y);
            assert(after.associations[j] == m.associations[j]);
            assert(after.association_known(x, y));
            let j2 = after.association_index(x, y);
            assert(after.associations[j2] == m.associations[j2]);
            assert(m.associations_unique());
        }
        if after.association_known(x, y) {
            let j2 = after.association_index(x, y);
            assert(after.associations[j2] == m.associations[j2]);
            assert(m.association_known(x, y));
        }
    }
}

/// A user that the selection picks is listed.
proof fn lemma_selected_listed(m: StoreModel, sel: Selection, user: u64, term: Seq<char>, i: int)
    requires
        0 <= i < m.users.len(),
        m.selected(sel, user, term, m.users[i]),
    ensures
        m.listing(sel, user, term).contains(user_info(m.users[i])),
{
    let pick = m.selector(sel, user, term);
    m.users.lemma_filter_contains(pick, i);
    let f = m.users.filter(pick);
    let j = choose|j: int| 0 <= j < f.len() && f[j] == m.users[i];
    assert(infos(f)[j] == user_info(m.users[i]));
}

/// Friendship is mutual: where each of two users has a friend association
/// toward the other, each is listed among the other's friends; where only
/// `a -> b` is set, `b` is among `a`'s unaccepted requests and `a` among
/// `b`'s incoming ones.
pub proof fn law_friendship_listings(m: StoreModel, ia: int, ib: int, term: Seq<char>)
    requires
        0 <= ia < m.users.len(),
        0 <= ib < m.users.len(),
    ensures
        ({
            let a = m.users[ia].id;
            let b = m.users[ib].id;
            m.is_friend(a, b) && m.is_friend(b, a) ==> m.listing(Selection::Friends, a, term).contains(
                user_info(m.users[ib]),
            ) && m.listing(Selection::Friends, b, term).contains(user_info(m.users[ia]))
        }),
        ({
            let a = m.users[ia].id;
            let b = m.users[ib].id;
            m.is_friend(a, b) && !m.is_friend(b, a) ==> m.listing(
                Selection::UnacceptedOutgoing,
                a,
                term,
            ).contains(user_info(m.users[ib])) && m.listing(Selection::IncomingRequests, b, term).contains(
                user_info(m.users[ia]),
            )
        }),
{
    let a = m.users[ia].id;
    let b = m.users[ib].id;
    if m.is_friend(a, b) && m.is_friend(b, a) {
        lemma_selected_listed(m, Selection::Friends, a, term, ib);
        lemma_selected_listed(m, Selection::Friends, b, term, ia);
    }
    if m.is_friend(a, b) && !m.is_friend(b, a) {
        lemma_selected_listed(m, Selection::UnacceptedOutgoing, a, term, ib);
        lemma_selected_listed(m, Selection::IncomingRequests, b, term, ia);
    }
}

/// Friend requests in sequence: after `a` sets a friend association toward
/// `b` and `b` one toward `a`, each lists the other as a friend; after the
/// first step alone, `b` is among `a`'s unaccepted requests and `a` among
/// `b`'s incoming ones, where `b` had no friend association toward `a`.
pub proof fn law_mutual_friend_requests(m: StoreModel, ia: int, ib: int, term: Seq<char>)
    requires
        m.wf(),
        m.with_association(m.users[ia].id, m.users[ib].id, AssociationKind::Friend).wf(),
        0 <= ia < m.users.len(),
        0 <= ib < m.users.len(),
        ia != ib,
    ensures
        ({
            let a = m.users[ia].id;
            let b = m.users[ib].id;
            let m1 = m.with_association(a, b, AssociationKind::Friend);
            let m2 = m1.with_association(b, a, AssociationKind::Friend);
            &&& m2.listing(Selection::Friends, a, term).contains(user_info(m.users[ib]))
            &&& m2.listing(Selection::Friends, b, term).contains(user_info(m.users[ia]))
            &&& !m.is_friend(b, a) ==> m1.listing(Selection::UnacceptedOutgoing, a, term).contains(
                user_info(m.users[ib]),
            ) && m1.listing(Selection::IncomingRequests, b, term).contains(user_info(m.users[ia]))
        }),
{
    let a = m.users[ia].id;
    let b = m.users[ib].id;
    assert(m.users_unique());
    assert(a != b);
    let m1 = m.with_association(a, b, AssociationKind::Friend);
    let m2 = m1.with_association(b, a, AssociationKind::Friend);
    law_association_reads_back(m, a, b, AssociationKind::Friend, b, a);
    law_association_reads_back(m1, b, a, AssociationKind::Friend, a, b);
    assert(m1.users == m.users);
    assert(m2.users == m.users);
    law_friendship_listings(m2, ia, ib, term);
    law_friendship_listings(m1, ia, ib, term);
}

/// A search by `user` never lists anyone who has blocked `user`.
pub proof fn law_search_skips_blockers(m: StoreModel, user: u64, term: Seq<char>, i: int)
    requires
        0 <= i < m.listing(Selection::Search, user, term).len(),
    ensures
        m.association(m.listing(Selection::Search, user, term)[i].id, user) != Some(AssociationKind::Block),
{
    let pick = m.selector(Selection::Search, user, term);
    let f = m.users.filter(pick);
    m.users.lemma_filter_pred(pick, i);
    assert(m.listing(Selection::Search, user, term)[i] == user_info(f[i]));
}

} // verus!
