//! The store's general laws, each proved once and for all over the abstract
//! value: overwrite registration, id freshness and counter monotonicity,
//! ownership, like idempotence, feed tie-breaking, pagination boundaries,
//! self-follow exclusion, and view-determined reads.

use vstd::prelude::*;
use crate::feed::feed_ge;
use crate::feed::feed_of;
use crate::feed::feed_matches;
use crate::feed::lemma_sort_desc;
use crate::feed::page_of;
use crate::feed::sorted_desc;
use crate::store::StateView;
use crate::store::comment_post_t;
use crate::store::create_post_t;
use crate::store::delete_post_check;
use crate::store::delete_post_t;
use crate::store::edit_post_check;
use crate::store::edit_post_t;
use crate::store::follow_check;
use crate::store::follow_ok;
use crate::store::follow_set_of;
use crate::store::follow_t;
use crate::store::has_post;
use crate::store::lemma_post_lookup;
use crate::store::like_post_t;
use crate::store::post_by;
use crate::store::post_index;
use crate::store::register_t;
use crate::store::unfollow_t;
use crate::store::unlike_post_t;
use crate::store::user_posts_seq;
use crate::store::wf_view;
use crate::types::PostId;
use crate::types::PostV;
use crate::types::ProfileV;
use crate::types::SocialError;
use crate::types::Timestamp;
use crate::types::UserId;

verus! {

/// Registering twice leaves exactly one profile: the second registration
/// overwrites the first, and the stored profile is the later one.
pub proof fn lemma_register_overwrite(sv: StateView, u: UserId, p1: ProfileV, p2: ProfileV)
    ensures
        register_t(register_t(sv, u, p1), u, p2) == register_t(sv, u, p2),
        register_t(sv, u, p2).profiles[u] == p2,
{
    assert(register_t(register_t(sv, u, p1), u, p2).profiles =~= register_t(sv, u, p2).profiles);
    assert(register_t(register_t(sv, u, p1), u, p2) =~= register_t(sv, u, p2));
}

/// The next issued id is strictly larger than every id the store has ever
/// handed out that is still visible, and no stored id reaches the counter's
/// successor: ids are strictly increasing and never reused.
pub proof fn lemma_post_id_fresh(sv: StateView)
    requires
        wf_view(sv),
        sv.next_post_id < u64::MAX,
    ensures
        !has_post(sv, (sv.next_post_id + 1) as u64),
        forall|i: int|
            0 <= i < sv.posts.len() ==> (#[trigger] sv.posts[i]).id < sv.next_post_id + 1,
{
    let fresh = (sv.next_post_id + 1) as u64;
    if has_post(sv, fresh) {
        let i = post_index(sv, fresh);
        assert(sv.posts[i].id <= sv.next_post_id);
    }
}

/// No operation lowers the id counter; only creation moves it, by one.
pub proof fn lemma_counter_monotone(
    sv: StateView,
    u: UserId,
    t: UserId,
    p: ProfileV,
    id: PostId,
    c: Seq<char>,
    now: Timestamp,
)
    requires
        sv.next_post_id < u64::MAX,
    ensures
        register_t(sv, u, p).next_post_id == sv.next_post_id,
        create_post_t(sv, u, c, now).next_post_id == sv.next_post_id + 1,
        edit_post_t(sv, id, c).next_post_id == sv.next_post_id,
        delete_post_t(sv, id).next_post_id == sv.next_post_id,
        follow_t(sv, u, t).next_post_id == sv.next_post_id,
        unfollow_t(sv, u, t).next_post_id == sv.next_post_id,
        like_post_t(sv, u, id).next_post_id == sv.next_post_id,
        unlike_post_t(sv, u, id).next_post_id == sv.next_post_id,
        comment_post_t(sv, u, id, c, now).next_post_id == sv.next_post_id,
{
}

/// Ownership: whoever is not the author of a post can neither edit nor
/// delete it — both attempts fail with `Forbidden`.
pub proof fn lemma_ownership(sv: StateView, u: UserId, id: PostId, c: Seq<char>)
    requires
        has_post(sv, id),
        post_by(sv, id).author != u,
    ensures
        edit_post_check(sv, u, id, c) == Some(SocialError::Forbidden),
        delete_post_check(sv, u, id) == Some(SocialError::Forbidden),
{
}

/// Liking twice is liking once, and unliking a post one never liked leaves
/// the store — like count included — exactly as it was.
pub proof fn lemma_like_idempotent(sv: StateView, u: UserId, id: PostId)
    requires
        wf_view(sv),
        has_post(sv, id),
    ensures
        like_post_t(like_post_t(sv, u, id), u, id) == like_post_t(sv, u, id),
        !post_by(sv, id).likes.contains(u) ==> unlike_post_t(sv, u, id) == sv,
{
    let k = post_index(sv, id);
    let sv1 = like_post_t(sv, u, id);
    assert(forall|a: int, b: int| 0 <= a < b < sv1.posts.len() ==> sv1.posts[a].id < sv1.posts[b].id)
        by {
        assert(forall|a: int|
            0 <= a < sv1.posts.len() ==> (#[trigger] sv1.posts[a]).id == sv.posts[a].id);
    }
    lemma_post_lookup(sv1, id, k);
    let p1 = sv1.posts[k];
    assert(p1.likes.insert(u) =~= p1.likes);
    assert((PostV { likes: p1.likes.insert(u), ..p1 }) =~= p1);
    assert(sv1.posts.update(k, p1) =~= sv1.posts);
    assert(like_post_t(sv1, u, id) =~= sv1);
    if !post_by(sv, id).likes.contains(u) {
        let p = sv.posts[k];
        assert(p.likes.remove(u) =~= p.likes);
        assert((PostV { likes: p.likes.remove(u), ..p }) =~= p);
        assert(sv.posts.update(k, p) =~= sv.posts);
        assert(unlike_post_t(sv, u, id) =~= sv);
    }
}

/// Feed determinism: when two posts in a feed share a creation timestamp,
/// the one with the larger id stands strictly earlier.
pub proof fn lemma_feed_tie_break(sv: StateView, user: UserId, i: int, j: int)
    requires
        0 <= i < feed_of(sv, user).len(),
        0 <= j < feed_of(sv, user).len(),
        feed_of(sv, user)[i].created_at == feed_of(sv, user)[j].created_at,
        feed_of(sv, user)[i].id > feed_of(sv, user)[j].id,
    ensures
        i < j,
{
    lemma_sort_desc(feed_matches(sv, user));
    let f = feed_of(sv, user);
    assert(sorted_desc(f));
    if j < i {
        assert(feed_ge(f[j], f[i]));
    }
}

/// Pagination boundary: an offset at or past the feed's length, or a zero
/// limit, gives the empty page — never an error.
pub proof fn lemma_page_boundary(s: Seq<PostV>, offset: int, limit: int)
    ensures
        offset >= s.len() ==> page_of(s, offset, limit) == Seq::<PostV>::empty(),
        limit == 0 ==> page_of(s, offset, limit) == Seq::<PostV>::empty(),
{
}

/// Self-follow exclusion: following oneself always fails with `SelfFollow`,
/// and a well-formed store never shows a self-edge.
pub proof fn lemma_no_self_follow(sv: StateView, u: UserId)
    requires
        wf_view(sv),
    ensures
        follow_check(sv, u, u) == Some(SocialError::SelfFollow),
        !follow_set_of(sv, u).contains(u),
{
    if sv.following.contains_key(u) {
        assert(follow_ok(sv, u));
    }
}

/// The author index is consistent with post existence: an id listed for one
/// user is listed for no other, and the listed posts are exactly that user's
/// stored posts.
pub proof fn lemma_author_index_consistent(sv: StateView, u1: UserId, u2: UserId, id: PostId)
    requires
        wf_view(sv),
        u1 != u2,
        crate::store::user_list_of(sv, u1).contains(id),
    ensures
        !crate::store::user_list_of(sv, u2).contains(id),
        has_post(sv, id),
        post_by(sv, id).author == u1,
{
    let l1 = crate::store::user_list_of(sv, u1);
    let k1 = choose|k: int| 0 <= k < l1.len() && l1[k] == id;
    assert(sv.user_posts.contains_key(u1));
    assert(crate::store::user_list_ok(sv, u1));
    assert(has_post(sv, l1[k1]) && post_by(sv, l1[k1]).author == u1);
    if crate::store::user_list_of(sv, u2).contains(id) {
        let l2 = crate::store::user_list_of(sv, u2);
        let k2 = choose|k: int| 0 <= k < l2.len() && l2[k] == id;
        assert(sv.user_posts.contains_key(u2));
        assert(crate::store::user_list_ok(sv, u2));
        assert(post_by(sv, l2[k2]).author == u2);
    }
}

/// Every post a user authored stands in their index entry, so
/// `get_user_posts` returns exactly the user's stored posts.
pub proof fn lemma_user_posts_complete(sv: StateView, u: UserId, i: int)
    requires
        wf_view(sv),
        0 <= i < sv.posts.len(),
        sv.posts[i].author == u,
    ensures
        user_posts_seq(sv, u).contains(sv.posts[i]),
{
    assert(crate::store::post_indexed(sv, sv.posts[i]));
    let l = crate::store::user_list_of(sv, u);
    let id = sv.posts[i].id;
    assert(l.contains(id));
    let k = choose|k: int| 0 <= k < l.len() && l[k] == id;
    assert(crate::store::user_list_ok(sv, u));
    assert(has_post(sv, l[k]));
    lemma_post_lookup(sv, id, i);
    assert(user_posts_seq(sv, u)[k] == post_by(sv, id));
    assert(user_posts_seq(sv, u).contains(sv.posts[i])) by {
        assert(user_posts_seq(sv, u)[k] == sv.posts[i]);
    }
}

/// Stores with equal abstract values answer every read identically. Since
/// `restore(save(s))` reproduces the abstract value exactly, a restored store
/// is observably the one that was saved.
pub proof fn lemma_view_determines_reads(
    a: StateView,
    b: StateView,
    user: UserId,
    id: PostId,
    offset: int,
    limit: int,
)
    requires
        a == b,
    ensures
        a.profiles == b.profiles,
        has_post(a, id) == has_post(b, id),
        has_post(a, id) ==> post_by(a, id) == post_by(b, id),
        user_posts_seq(a, user) == user_posts_seq(b, user),
        follow_set_of(a, user) == follow_set_of(b, user),
        page_of(feed_of(a, user), offset, limit) == page_of(feed_of(b, user), offset, limit),
{
}

} // verus!
