//! The entity store: single source of truth for profiles, posts, the author
//! index and the follow graph, together with the post-id counter.
//!
//! Every operation is specified against the store's abstract value
//! [`StateView`]: each mutator's contract names the exact transition it
//! performs (`register_t`, `create_post_t`, ...) and the exact condition
//! under which each typed error is returned instead.

use vstd::prelude::*;
use crate::assoc::assoc_view;
use crate::assoc::find_key;
use crate::assoc::ids_contain;
use crate::assoc::lemma_assoc_congruent;
use crate::assoc::lemma_assoc_contains;
use crate::assoc::lemma_assoc_index;
use crate::assoc::lemma_assoc_push;
use crate::assoc::lemma_assoc_update;
use crate::assoc::unique_keys;
use crate::snapshot::Snapshot;
use crate::snapshot::snap_wf;
use crate::snapshot::validate;
use crate::types::Comment;
use crate::types::CommentV;
use crate::types::Post;
use crate::types::PostV;
use crate::types::PostId;
use crate::types::Profile;
use crate::types::ProfileV;
use crate::types::SocialError;
use crate::types::Timestamp;
use crate::types::UserId;
use crate::types::content_is_blank;
use crate::types::copy_ids;
use crate::types::is_blank;

verus! {

/// The abstract value of the whole store: the id counter, the four mappings,
/// with posts as a sequence in ascending id order (their creation order).
#[verifier::ext_equal]
pub struct StateView {
    pub next_post_id: u64,
    pub profiles: Map<UserId, ProfileV>,
    pub posts: Seq<PostV>,
    pub user_posts: Map<UserId, Seq<PostId>>,
    pub following: Map<UserId, Set<UserId>>,
}

/// The sequence of post views a post vector stands for.
pub open spec fn posts_view(s: Seq<Post>) -> Seq<PostV> {
    s.map_values(|p: Post| p@)
}

/// The follow graph a raw followee-list mapping stands for.
pub open spec fn follow_sets(m: Map<UserId, Seq<UserId>>) -> Map<UserId, Set<UserId>> {
    Map::new(|u: UserId| m.contains_key(u), |u: UserId| m[u].to_set())
}

/// The store of a freshly started process: no entities at all.
pub open spec fn empty_view() -> StateView {
    StateView {
        next_post_id: 0,
        profiles: Map::empty(),
        posts: Seq::empty(),
        user_posts: Map::empty(),
        following: Map::empty(),
    }
}

pub open spec fn registered(sv: StateView, u: UserId) -> bool {
    sv.profiles.contains_key(u)
}

/// The author index entry of `u`: absent entries read as empty.
pub open spec fn user_list_of(sv: StateView, u: UserId) -> Seq<PostId> {
    if sv.user_posts.contains_key(u) {
        sv.user_posts[u]
    } else {
        Seq::empty()
    }
}

/// The followees of `u`: absent entries read as empty.
pub open spec fn follow_set_of(sv: StateView, u: UserId) -> Set<UserId> {
    if sv.following.contains_key(u) {
        sv.following[u]
    } else {
        Set::empty()
    }
}

/// The posts of one author, listed in author-index order.
pub open spec fn user_posts_seq(sv: StateView, u: UserId) -> Seq<PostV> {
    user_list_of(sv, u).map_values(|id: PostId| post_by(sv, id))
}

pub open spec fn has_post(sv: StateView, id: PostId) -> bool {
    exists|i: int| 0 <= i < sv.posts.len() && sv.posts[i].id == id
}

/// The position of the post numbered `id`; meaningful only under `has_post`.
pub open spec fn post_index(sv: StateView, id: PostId) -> int {
    choose|i: int| 0 <= i < sv.posts.len() && sv.posts[i].id == id
}

/// The post numbered `id`; meaningful only under `has_post`.
pub open spec fn post_by(sv: StateView, id: PostId) -> PostV {
    sv.posts[post_index(sv, id)]
}

/// The author index entry of one user is well formed: strictly ascending
/// (creation order), and every listed id is a post of that user.
pub open spec fn user_list_ok(sv: StateView, u: UserId) -> bool {
    let l = sv.user_posts[u];
    &&& forall|i: int, j: int| 0 <= i < j < l.len() ==> l[i] < l[j]
    &&& forall|k: int|
        0 <= k < l.len() ==> has_post(sv, #[trigger] l[k]) && post_by(sv, l[k]).author == u
}

/// Every post is listed in its author's index entry.
pub open spec fn post_indexed(sv: StateView, p: PostV) -> bool {
    sv.user_posts.contains_key(p.author) && sv.user_posts[p.author].contains(p.id)
}

/// The follow entry of one user is well formed: no self-edge, and both
/// endpoints of every edge have a profile.
pub open spec fn follow_ok(sv: StateView, u: UserId) -> bool {
    let f = sv.following[u];
    &&& !f.contains(u)
    &&& sv.profiles.contains_key(u)
    &&& forall|v: UserId| f.contains(v) ==> sv.profiles.contains_key(v)
}

/// The cross-entity invariants of the store, at the level of its abstract
/// value.
pub open spec fn wf_view(sv: StateView) -> bool {
    &&& forall|i: int, j: int| 0 <= i < j < sv.posts.len() ==> sv.posts[i].id < sv.posts[j].id
    &&& forall|i: int|
        0 <= i < sv.posts.len() ==> 1 <= (#[trigger] sv.posts[i]).id <= sv.next_post_id
    &&& forall|u: UserId| #[trigger] sv.user_posts.contains_key(u) ==> user_list_ok(sv, u)
    &&& forall|i: int| 0 <= i < sv.posts.len() ==> post_indexed(sv, #[trigger] sv.posts[i])
    &&& forall|u: UserId| #[trigger] sv.following.contains_key(u) ==> follow_ok(sv, u)
}

/// The store. All mutation and every read passes through its methods; each
/// method's contract pins the result and the state transition exactly.
pub struct State {
    next_post_id: u64,
    profiles: Vec<(UserId, Profile)>,
    posts: Vec<Post>,
    user_posts: Vec<(UserId, Vec<PostId>)>,
    following: Vec<(UserId, Vec<UserId>)>,
}

impl View for State {
    type V = StateView;

    closed spec fn view(&self) -> StateView {
        StateView {
            next_post_id: self.next_post_id,
            profiles: assoc_view(self.profiles@),
            posts: posts_view(self.posts@),
            user_posts: assoc_view(self.user_posts@),
            following: follow_sets(assoc_view(self.following@)),
        }
    }
}

// ---------- transitions and error conditions ----------

/// Registration: insert or overwrite the caller's profile.
pub open spec fn register_t(sv: StateView, u: UserId, p: ProfileV) -> StateView {
    StateView { profiles: sv.profiles.insert(u, p), ..sv }
}

/// A freshly created post: next id, empty like-set, no comments.
pub open spec fn new_post(id: PostId, author: UserId, content: Seq<char>, now: Timestamp) -> PostV {
    PostV {
        id,
        author,
        content,
        created_at: now,
        likes: Set::empty(),
        comments: Seq::empty(),
    }
}

/// Post creation: bump the counter, append the post, append its id to the
/// author's index entry.
pub open spec fn create_post_t(sv: StateView, author: UserId, content: Seq<char>, now: Timestamp) -> StateView {
    let id = (sv.next_post_id + 1) as u64;
    StateView {
        next_post_id: id,
        posts: sv.posts.push(new_post(id, author, content, now)),
        user_posts: sv.user_posts.insert(author, user_list_of(sv, author).push(id)),
        ..sv
    }
}

pub open spec fn create_post_check(sv: StateView, caller: UserId, content: Seq<char>) -> Option<
    SocialError,
> {
    if !registered(sv, caller) {
        Some(SocialError::NotRegistered)
    } else if is_blank(content) {
        Some(SocialError::EmptyContent)
    } else {
        None
    }
}

/// Post edit: replace the content in place; id, author, creation time,
/// likes and comments are untouched.
pub open spec fn edit_post_t(sv: StateView, id: PostId, content: Seq<char>) -> StateView {
    let k = post_index(sv, id);
    StateView { posts: sv.posts.update(k, PostV { content, ..sv.posts[k] }), ..sv }
}

pub open spec fn edit_post_check(sv: StateView, caller: UserId, id: PostId, content: Seq<char>) -> Option<
    SocialError,
> {
    if !has_post(sv, id) {
        Some(SocialError::NotFound)
    } else if post_by(sv, id).author != caller {
        Some(SocialError::Forbidden)
    } else if is_blank(content) {
        Some(SocialError::EmptyContent)
    } else {
        None
    }
}

/// Deletion: remove the post and prune its id from the author's index entry.
pub open spec fn delete_post_t(sv: StateView, id: PostId) -> StateView {
    let k = post_index(sv, id);
    let author = sv.posts[k].author;
    StateView {
        posts: sv.posts.remove(k),
        user_posts: if sv.user_posts.contains_key(author) {
            sv.user_posts.insert(author, without(sv.user_posts[author], id))
        } else {
            sv.user_posts
        },
        ..sv
    }
}

pub open spec fn delete_post_check(sv: StateView, caller: UserId, id: PostId) -> Option<
    SocialError,
> {
    if !has_post(sv, id) {
        Some(SocialError::NotFound)
    } else if post_by(sv, id).author != caller {
        Some(SocialError::Forbidden)
    } else {
        None
    }
}

/// A sequence with every occurrence of one value taken out.
pub open spec fn without(l: Seq<u64>, x: u64) -> Seq<u64>
    decreases l.len(),
{
    if l.len() == 0 {
        Seq::empty()
    } else {
        let rest = without(l.drop_last(), x);
        if l.last() == x {
            rest
        } else {
            rest.push(l.last())
        }
    }
}

/// Following: add the edge; adding an existing edge changes nothing.
pub open spec fn follow_t(sv: StateView, caller: UserId, target: UserId) -> StateView {
    StateView {
        following: sv.following.insert(caller, follow_set_of(sv, caller).insert(target)),
        ..sv
    }
}

pub open spec fn follow_check(sv: StateView, caller: UserId, target: UserId) -> Option<
    SocialError,
> {
    if target == caller {
        Some(SocialError::SelfFollow)
    } else if !registered(sv, caller) {
        Some(SocialError::NotRegistered)
    } else if !registered(sv, target) {
        Some(SocialError::NotRegistered)
    } else {
        None
    }
}

/// Unfollowing: drop the edge if present; never an error.
pub open spec fn unfollow_t(sv: StateView, caller: UserId, target: UserId) -> StateView {
    if sv.following.contains_key(caller) {
        StateView { following: sv.following.insert(caller, sv.following[caller].remove(target)), ..sv }
    } else {
        sv
    }
}

/// Like: put the caller into the post's like-set; already present changes
/// nothing.
pub open spec fn like_post_t(sv: StateView, caller: UserId, id: PostId) -> StateView {
    let k = post_index(sv, id);
    StateView {
        posts: sv.posts.update(k, PostV { likes: sv.posts[k].likes.insert(caller), ..sv.posts[k] }),
        ..sv
    }
}

/// Unlike: take the caller out of the post's like-set; absence changes
/// nothing.
pub open spec fn unlike_post_t(sv: StateView, caller: UserId, id: PostId) -> StateView {
    let k = post_index(sv, id);
    StateView {
        posts: sv.posts.update(k, PostV { likes: sv.posts[k].likes.remove(caller), ..sv.posts[k] }),
        ..sv
    }
}

pub open spec fn like_check(sv: StateView, caller: UserId, id: PostId) -> Option<SocialError> {
    if !registered(sv, caller) {
        Some(SocialError::NotRegistered)
    } else if !has_post(sv, id) {
        Some(SocialError::NotFound)
    } else {
        None
    }
}

/// Comment: append one comment to the post's comment sequence.
pub open spec fn comment_post_t(
    sv: StateView,
    caller: UserId,
    id: PostId,
    content: Seq<char>,
    now: Timestamp,
) -> StateView {
    let k = post_index(sv, id);
    let c = CommentV { author: caller, content, created_at: now };
    StateView {
        posts: sv.posts.update(k, PostV { comments: sv.posts[k].comments.push(c), ..sv.posts[k] }),
        ..sv
    }
}

pub open spec fn comment_post_check(
    sv: StateView,
    caller: UserId,
    id: PostId,
    content: Seq<char>,
) -> Option<SocialError> {
    if !registered(sv, caller) {
        Some(SocialError::NotRegistered)
    } else if is_blank(content) {
        Some(SocialError::EmptyContent)
    } else if !has_post(sv, id) {
        Some(SocialError::NotFound)
    } else {
        None
    }
}

// ---------- view lemmas for the post vector ----------

/// With post ids strictly ascending, any index holding `id` is the one
/// `post_index` picks.
pub proof fn lemma_post_lookup(sv: StateView, id: PostId, i: int)
    requires
        forall|a: int, b: int| 0 <= a < b < sv.posts.len() ==> sv.posts[a].id < sv.posts[b].id,
        0 <= i < sv.posts.len(),
        sv.posts[i].id == id,
    ensures
        has_post(sv, id),
        post_index(sv, id) == i,
        post_by(sv, id) == sv.posts[i],
{
    assert(has_post(sv, id));
    let c = post_index(sv, id);
    assert(0 <= c < sv.posts.len() && sv.posts[c].id == id);
    if c < i {
        assert(sv.posts[c].id < sv.posts[i].id);
    }
    if i < c {
        assert(sv.posts[i].id < sv.posts[c].id);
    }
}

pub proof fn lemma_posts_view_push(s: Seq<Post>, x: Post)
    ensures
        posts_view(s.push(x)) =~= posts_view(s).push(x@),
{
}

/// A store that only gained profiles keeps all cross-entity invariants.
pub proof fn lemma_wf_view_more_profiles(prev: StateView, post: StateView)
    requires
        wf_view(prev),
        post.posts == prev.posts,
        post.user_posts == prev.user_posts,
        post.following == prev.following,
        post.next_post_id == prev.next_post_id,
        forall|u: UserId| prev.profiles.contains_key(u) ==> post.profiles.contains_key(u),
    ensures
        wf_view(post),
{
    assert forall|u: UserId| #[trigger] post.user_posts.contains_key(u) implies user_list_ok(
        post,
        u,
    ) by {
        assert(prev.user_posts.contains_key(u));
        assert(user_list_ok(prev, u));
        let l = post.user_posts[u];
        assert(l == prev.user_posts[u]);
        assert forall|k: int| 0 <= k < l.len() implies has_post(post, #[trigger] l[k]) && post_by(
            post,
            l[k],
        ).author == u by {
            assert(has_post(prev, l[k]));
            let i = post_index(prev, l[k]);
            assert(0 <= i < prev.posts.len() && prev.posts[i].id == l[k]);
            lemma_post_lookup(post, l[k], i);
            lemma_post_lookup(prev, l[k], i);
        };
    };
    assert forall|i: int| 0 <= i < post.posts.len() implies post_indexed(
        post,
        #[trigger] post.posts[i],
    ) by {
        assert(post_indexed(prev, prev.posts[i]));
    };
    assert forall|u: UserId| #[trigger] post.following.contains_key(u) implies follow_ok(
        post,
        u,
    ) by {
        assert(prev.following.contains_key(u));
        assert(follow_ok(prev, u));
        assert(post.profiles.contains_key(u));
        assert forall|v: UserId| post.following[u].contains(v) implies post.profiles.contains_key(
            v,
        ) by {
            assert(prev.following[u].contains(v));
        };
    };
}

pub proof fn lemma_posts_view_update(s: Seq<Post>, i: int, x: Post)
    requires
        0 <= i < s.len(),
    ensures
        posts_view(s.update(i, x)) =~= posts_view(s).update(i, x@),
{
}

pub proof fn lemma_posts_view_remove(s: Seq<Post>, i: int)
    requires
        0 <= i < s.len(),
    ensures
        posts_view(s.remove(i)) =~= posts_view(s).remove(i),
{
}

/// Creating a post preserves all cross-entity invariants: the fresh id is
/// larger than every id in the store, so ascending orders are kept.
pub proof fn lemma_wf_view_create(
    prev: StateView,
    post: StateView,
    author: UserId,
    content: Seq<char>,
    now: Timestamp,
)
    requires
        wf_view(prev),
        prev.next_post_id < u64::MAX,
        post == create_post_t(prev, author, content, now),
    ensures
        wf_view(post),
{
    let id = (prev.next_post_id + 1) as u64;
    let np = new_post(id, author, content, now);
    let n = prev.posts.len() as int;
    assert(post.posts == prev.posts.push(np));
    assert(forall|i: int| 0 <= i < n ==> post.posts[i] == prev.posts[i]);
    assert(post.posts[n] == np);
    let ol = user_list_of(prev, author);
    assert(post.user_posts == prev.user_posts.insert(author, ol.push(id)));

    assert forall|a: int, b: int| 0 <= a < b < post.posts.len() implies post.posts[a].id
        < post.posts[b].id by {
        if b < n {
            assert(prev.posts[a].id < prev.posts[b].id);
        } else {
            assert(prev.posts[a].id <= prev.next_post_id);
        }
    };
    assert forall|u: UserId| #[trigger] post.user_posts.contains_key(u) implies user_list_ok(
        post,
        u,
    ) by {
        let l = post.user_posts[u];
        if u == author {
            assert(l == ol.push(id));
            if prev.user_posts.contains_key(author) {
                assert(user_list_ok(prev, author));
            }
            assert forall|x: int, y: int| 0 <= x < y < l.len() implies l[x] < l[y] by {
                if y < ol.len() {
                    assert(ol[x] < ol[y]);
                } else {
                    assert(has_post(prev, ol[x]));
                    let i = post_index(prev, ol[x]);
                    assert(prev.posts[i].id == ol[x]);
                    assert(ol[x] <= prev.next_post_id);
                }
            };
            assert forall|k: int| 0 <= k < l.len() implies has_post(post, #[trigger] l[k])
                && post_by(post, l[k]).author == u by {
                if k < ol.len() {
                    assert(has_post(prev, ol[k]));
                    let i = post_index(prev, ol[k]);
                    lemma_post_lookup(post, ol[k], i);
                } else {
                    lemma_post_lookup(post, id, n);
                }
            };
        } else {
            assert(prev.user_posts.contains_key(u));
            assert(l == prev.user_posts[u]);
            assert(user_list_ok(prev, u));
            assert forall|k: int| 0 <= k < l.len() implies has_post(post, #[trigger] l[k])
                && post_by(post, l[k]).author == u by {
                assert(has_post(prev, l[k]));
                let i = post_index(prev, l[k]);
                lemma_post_lookup(post, l[k], i);
                lemma_post_lookup(prev, l[k], i);
            };
        }
    };
    assert forall|i: int| 0 <= i < post.posts.len() implies post_indexed(
        post,
        #[trigger] post.posts[i],
    ) by {
        if i < n {
            assert(post_indexed(prev, prev.posts[i]));
            let a = prev.posts[i].author;
            let pid = prev.posts[i].id;
            if a == author {
                let j = choose|j: int| 0 <= j < ol.len() && ol[j] == pid;
                assert(ol.push(id)[j] == pid);
                assert(post.user_posts[a].contains(pid));
            } else {
                assert(post.user_posts[a] == prev.user_posts[a]);
            }
        } else {
            assert(ol.push(id)[ol.len() as int] == id);
            assert(post.user_posts[author].contains(id));
        }
    };
    assert forall|u: UserId| #[trigger] post.following.contains_key(u) implies follow_ok(
        post,
        u,
    ) by {
        assert(prev.following.contains_key(u));
        assert(follow_ok(prev, u));
        assert(post.following[u] == prev.following[u]);
        assert forall|v: UserId| post.following[u].contains(v) implies post.profiles.contains_key(
            v,
        ) by {
            assert(prev.following[u].contains(v));
        };
    };
}

/// Replacing a post by one with the same id and author preserves all
/// cross-entity invariants.
pub proof fn lemma_wf_view_update_same_key(prev: StateView, post: StateView, k: int, p: PostV)
    requires
        wf_view(prev),
        0 <= k < prev.posts.len(),
        p.id == prev.posts[k].id,
        p.author == prev.posts[k].author,
        post.posts == prev.posts.update(k, p),
        post.profiles == prev.profiles,
        post.user_posts == prev.user_posts,
        post.following == prev.following,
        post.next_post_id == prev.next_post_id,
    ensures
        wf_view(post),
{
    assert(forall|i: int|
        0 <= i < post.posts.len() ==> (#[trigger] post.posts[i]).id == prev.posts[i].id
            && post.posts[i].author == prev.posts[i].author);
    assert forall|u: UserId| #[trigger] post.user_posts.contains_key(u) implies user_list_ok(
        post,
        u,
    ) by {
        assert(user_list_ok(prev, u));
        let l = post.user_posts[u];
        assert forall|j: int| 0 <= j < l.len() implies has_post(post, #[trigger] l[j]) && post_by(
            post,
            l[j],
        ).author == u by {
            assert(has_post(prev, l[j]));
            let i = post_index(prev, l[j]);
            lemma_post_lookup(post, l[j], i);
            lemma_post_lookup(prev, l[j], i);
        };
    };
    assert forall|i: int| 0 <= i < post.posts.len() implies post_indexed(
        post,
        #[trigger] post.posts[i],
    ) by {
        assert(post_indexed(prev, prev.posts[i]));
    };
    assert forall|u: UserId| #[trigger] post.following.contains_key(u) implies follow_ok(
        post,
        u,
    ) by {
        assert(follow_ok(prev, u));
        assert forall|v: UserId| post.following[u].contains(v) implies post.profiles.contains_key(
            v,
        ) by {
            assert(prev.following[u].contains(v));
        };
    };
}

/// What `without` keeps: everything but the removed value, duplicate-freedom
/// and strict ascent included.
pub proof fn lemma_without_props(l: Seq<u64>, x: u64)
    ensures
        without(l, x).to_set() =~= l.to_set().remove(x),
        l.no_duplicates() ==> without(l, x).no_duplicates(),
        (forall|i: int, j: int| 0 <= i < j < l.len() ==> l[i] < l[j]) ==> (forall|i: int, j: int|
            0 <= i < j < without(l, x).len() ==> without(l, x)[i] < without(l, x)[j]),
    decreases l.len(),
{
    if l.len() == 0 {
        assert(without(l, x).to_set() =~= l.to_set().remove(x));
    } else {
        let dl = l.drop_last();
        let w = without(dl, x);
        lemma_without_props(dl, x);
        assert(dl.push(l.last()) =~= l);
        lemma_push_to_set(dl, l.last());
        if l.last() == x {
            assert(without(l, x) == w);
            assert(w.to_set() =~= l.to_set().remove(x));
        } else {
            lemma_push_to_set(w, l.last());
            assert(w.push(l.last()).to_set() =~= l.to_set().remove(x));
        }
        if l.no_duplicates() {
            assert(dl.no_duplicates()) by {
                assert(forall|i: int, j: int|
                    0 <= i < j < dl.len() ==> dl[i] == l[i] && dl[j] == l[j]);
            }
            assert(!dl.contains(l.last())) by {
                if dl.contains(l.last()) {
                    let i = choose|i: int| 0 <= i < dl.len() && dl[i] == l.last();
                    assert(l[i] == l[l.len() - 1]);
                }
            }
            if l.last() != x {
                assert(!w.contains(l.last())) by {
                    if w.contains(l.last()) {
                        assert(w.to_set().contains(l.last()));
                        assert(dl.to_set().contains(l.last()));
                    }
                }
                lemma_push_to_set(w, l.last());
            }
        }
        if forall|i: int, j: int| 0 <= i < j < l.len() ==> l[i] < l[j] {
            assert(forall|i: int, j: int| 0 <= i < j < dl.len() ==> dl[i] < dl[j]);
            if l.last() != x {
                let t = w.push(l.last());
                assert forall|i: int, j: int| 0 <= i < j < t.len() implies t[i] < t[j] by {
                    if j < w.len() {
                        assert(w[i] < w[j]);
                    } else {
                        assert(t[i] == w[i]);
                        assert(w.contains(w[i]));
                        assert(w.to_set().contains(w[i]));
                        assert(dl.to_set().contains(w[i]));
                        assert(dl.contains(w[i]));
                        let m = choose|m: int| 0 <= m < dl.len() && dl[m] == w[i];
                        assert(l[m] < l[l.len() - 1]);
                    }
                };
            }
        }
    }
}

/// Pushing a fresh value onto a duplicate-free sequence: the set gains it,
/// uniqueness is kept.
pub proof fn lemma_push_to_set(s: Seq<u64>, x: u64)
    ensures
        s.push(x).to_set() =~= s.to_set().insert(x),
        s.no_duplicates() && !s.contains(x) ==> s.push(x).no_duplicates(),
{
    let t = s.push(x);
    assert forall|y: u64| t.to_set().contains(y) implies s.to_set().insert(x).contains(y) by {
        let i = choose|i: int| 0 <= i < t.len() && t[i] == y;
        if i < s.len() {
            assert(s[i] == y);
        }
    };
    assert forall|y: u64| s.to_set().insert(x).contains(y) implies t.to_set().contains(y) by {
        if y == x {
            assert(t[s.len() as int] == y);
        } else {
            let i = choose|i: int| 0 <= i < s.len() && s[i] == y;
            assert(t[i] == y);
        }
    };
    if s.no_duplicates() && !s.contains(x) {
        assert forall|a: int, b: int| 0 <= a < b < t.len() implies t[a] != t[b] by {
            if b < s.len() {
                assert(s[a] != s[b]);
            } else {
                assert(!s.contains(x));
                assert(t[a] == s[a]);
                if s[a] == x {
                    assert(s.contains(x));
                }
            }
        };
    }
}

/// Removing one position from a duplicate-free sequence: the set loses that
/// value, uniqueness is kept.
pub proof fn lemma_remove_to_set(s: Seq<u64>, j: int)
    requires
        s.no_duplicates(),
        0 <= j < s.len(),
    ensures
        s.remove(j).to_set() =~= s.to_set().remove(s[j]),
        s.remove(j).no_duplicates(),
{
    let x = s[j];
    let t = s.remove(j);
    assert(forall|i: int| 0 <= i < j ==> t[i] == s[i]);
    assert(forall|i: int| j <= i < t.len() ==> t[i] == s[i + 1]);
    assert forall|y: u64| t.to_set().contains(y) implies s.to_set().remove(x).contains(y) by {
        let i = choose|i: int| 0 <= i < t.len() && t[i] == y;
        if i < j {
            assert(s[i] == y);
            assert(s[i] != s[j]);
        } else {
            assert(s[i + 1] == y);
            assert(s[i + 1] != s[j]);
        }
    };
    assert forall|y: u64| s.to_set().remove(x).contains(y) implies t.to_set().contains(y) by {
        let i = choose|i: int| 0 <= i < s.len() && s[i] == y;
        assert(i != j);
        if i < j {
            assert(t[i] == y);
        } else {
            assert(t[i - 1] == y);
        }
    };
    assert forall|a: int, b: int| 0 <= a < b < t.len() implies t[a] != t[b] by {
        let a1: int = if a < j {
            a
        } else {
            a + 1
        };
        let b1: int = if b < j {
            b
        } else {
            b + 1
        };
        assert(t[a] == s[a1] && t[b] == s[b1]);
        assert(s[a1] != s[b1]);
    };
}

/// Copies a vector of ids, leaving every occurrence of `x` out.
pub fn remove_val(v: &Vec<u64>, x: u64) -> (r: Vec<u64>)
    ensures
        r@ == without(v@, x),
{
    let mut r: Vec<u64> = Vec::new();
    let mut k: usize = 0;
    while k < v.len()
        invariant
            k <= v@.len(),
            r@ == without(v@.subrange(0, k as int), x),
        decreases v@.len() - k,
    {
        proof {
            assert(v@.subrange(0, k as int + 1).drop_last() =~= v@.subrange(0, k as int));
            assert(v@.subrange(0, k as int + 1).last() == v@[k as int]);
        }
        if v[k] != x {
            r.push(v[k]);
        }
        k += 1;
    }
    proof {
        assert(v@.subrange(0, v@.len() as int) =~= v@);
    }
    r
}

/// Deleting a post preserves all cross-entity invariants: the author's index
/// entry loses exactly the deleted id.
pub proof fn lemma_wf_view_delete(prev: StateView, post: StateView, id: PostId)
    requires
        wf_view(prev),
        has_post(prev, id),
        post == delete_post_t(prev, id),
    ensures
        wf_view(post),
{
    let k = post_index(prev, id);
    let author = prev.posts[k].author;
    assert(post_indexed(prev, prev.posts[k]));
    assert(prev.user_posts.contains_key(author));
    let l = prev.user_posts[author];
    lemma_without_props(l, id);
    assert(post.posts == prev.posts.remove(k));
    assert(post.user_posts == prev.user_posts.insert(author, without(l, id)));
    assert(forall|i: int| 0 <= i < k ==> post.posts[i] == prev.posts[i]);
    assert(forall|i: int| k <= i < post.posts.len() ==> post.posts[i] == prev.posts[i + 1]);

    assert forall|a: int, b: int| 0 <= a < b < post.posts.len() implies post.posts[a].id
        < post.posts[b].id by {
        let a1: int = if a < k {
            a
        } else {
            a + 1
        };
        let b1: int = if b < k {
            b
        } else {
            b + 1
        };
        assert(prev.posts[a1].id < prev.posts[b1].id);
    };
    assert forall|u: UserId| #[trigger] post.user_posts.contains_key(u) implies user_list_ok(
        post,
        u,
    ) by {
        let lu = post.user_posts[u];
        if u == author {
            assert(lu == without(l, id));
            assert(user_list_ok(prev, author));
            assert forall|j: int| 0 <= j < lu.len() implies has_post(post, #[trigger] lu[j])
                && post_by(post, lu[j]).author == u by {
                assert(lu.contains(lu[j]));
                assert(lu.to_set().contains(lu[j]));
                assert(l.to_set().contains(lu[j]) && lu[j] != id);
                assert(l.contains(lu[j]));
                let m = choose|m: int| 0 <= m < l.len() && l[m] == lu[j];
                assert(has_post(prev, l[m]));
                let i = post_index(prev, lu[j]);
                assert(i != k);
                let i2: int = if i < k {
                    i
                } else {
                    i - 1
                };
                assert(post.posts[i2] == prev.posts[i]);
                lemma_post_lookup(post, lu[j], i2);
            };
        } else {
            assert(prev.user_posts.contains_key(u));
            assert(lu == prev.user_posts[u]);
            assert(user_list_ok(prev, u));
            assert forall|j: int| 0 <= j < lu.len() implies has_post(post, #[trigger] lu[j])
                && post_by(post, lu[j]).author == u by {
                assert(has_post(prev, lu[j]));
                let i = post_index(prev, lu[j]);
                assert(post_by(prev, lu[j]).author == u);
                assert(i != k) by {
                    if i == k {
                        assert(prev.posts[k].author == u);
                    }
                }
                let i2: int = if i < k {
                    i
                } else {
                    i - 1
                };
                assert(post.posts[i2] == prev.posts[i]);
                lemma_post_lookup(post, lu[j], i2);
            };
        }
    };
    assert forall|i: int| 0 <= i < post.posts.len() implies post_indexed(
        post,
        #[trigger] post.posts[i],
    ) by {
        let i1: int = if i < k {
            i
        } else {
            i + 1
        };
        let p = prev.posts[i1];
        assert(post.posts[i] == p);
        assert(post_indexed(prev, p));
        assert(i1 != k);
        assert(p.id != id) by {
            if i1 < k {
                assert(prev.posts[i1].id < prev.posts[k].id);
            } else {
                assert(prev.posts[k].id < prev.posts[i1].id);
            }
        }
        if p.author == author {
            assert(l.contains(p.id));
            assert(l.to_set().contains(p.id));
            assert(without(l, id).to_set().contains(p.id));
            assert(post.user_posts[p.author].contains(p.id));
        } else {
            assert(post.user_posts[p.author] == prev.user_posts[p.author]);
        }
    };
    assert forall|u: UserId| #[trigger] post.following.contains_key(u) implies follow_ok(
        post,
        u,
    ) by {
        assert(follow_ok(prev, u));
        assert forall|v: UserId| post.following[u].contains(v) implies post.profiles.contains_key(
            v,
        ) by {
            assert(prev.following[u].contains(v));
        };
    };
}

/// A change that touches only the follow graph keeps the rest of the
/// invariants, provided each entry of the new graph is itself well formed.
pub proof fn lemma_wf_view_graph_change(prev: StateView, post: StateView)
    requires
        wf_view(prev),
        post.posts == prev.posts,
        post.user_posts == prev.user_posts,
        post.profiles == prev.profiles,
        post.next_post_id == prev.next_post_id,
        forall|u: UserId| #[trigger] post.following.contains_key(u) ==> follow_ok(post, u),
    ensures
        wf_view(post),
{
    assert forall|u: UserId| #[trigger] post.user_posts.contains_key(u) implies user_list_ok(
        post,
        u,
    ) by {
        assert(prev.user_posts.contains_key(u));
        assert(user_list_ok(prev, u));
        let l = post.user_posts[u];
        assert forall|j: int| 0 <= j < l.len() implies has_post(post, #[trigger] l[j]) && post_by(
            post,
            l[j],
        ).author == u by {
            assert(has_post(prev, l[j]));
            let i = post_index(prev, l[j]);
            lemma_post_lookup(post, l[j], i);
            lemma_post_lookup(prev, l[j], i);
        };
    };
    assert forall|i: int| 0 <= i < post.posts.len() implies post_indexed(
        post,
        #[trigger] post.posts[i],
    ) by {
        assert(post_indexed(prev, prev.posts[i]));
    };
}

impl State {
    /// The store's internal invariant: distinct keys in every association
    /// vector, duplicate-free like and followee lists, and the cross-entity
    /// invariants of `wf_view` over the abstract value.
    pub closed spec fn wf(self) -> bool {
        &&& unique_keys(self.profiles@)
        &&& unique_keys(self.user_posts@)
        &&& unique_keys(self.following@)
        &&& forall|i: int|
            0 <= i < self.posts@.len() ==> (#[trigger] self.posts@[i]).likes@.no_duplicates()
        &&& forall|i: int|
            0 <= i < self.following@.len() ==> (#[trigger] self.following@[i]).1@.no_duplicates()
        &&& wf_view(self.view())
    }

    /// Starts an empty store, as at first process start.
    pub fn new() -> (s: State)
        ensures
            s.wf(),
            s@ == empty_view(),
    {
        let s = State {
            next_post_id: 0,
            profiles: Vec::new(),
            posts: Vec::new(),
            user_posts: Vec::new(),
            following: Vec::new(),
        };
        proof {
            assert(s@ =~= empty_view());
        }
        s
    }

    /// The registration check every content-creating operation makes first.
    pub fn ensure_profile(&self, u: UserId) -> (r: Result<(), SocialError>)
        requires
            self.wf(),
        ensures
            r == if registered(self@, u) {
                Result::<(), SocialError>::Ok(())
            } else {
                Result::<(), SocialError>::Err(SocialError::NotRegistered)
            },
    {
        proof {
            lemma_assoc_contains(self.profiles@, u);
        }
        match find_key(&self.profiles, u) {
            Some(_) => Ok(()),
            None => Err(SocialError::NotRegistered),
        }
    }

    /// Inserts or overwrites the caller's profile; never fails, and stamps
    /// the supplied creation time.
    pub fn register(&mut self, caller: UserId, username: String, avatar_url: String, now: Timestamp) -> (p: Profile)
        requires
            old(self).wf(),
        ensures
            final(self).wf(),
            p@ == (ProfileV { username: username@, avatar_url: avatar_url@, created_at: now }),
            final(self)@ == register_t(old(self)@, caller, p@),
    {
        let p = Profile { username, avatar_url, created_at: now };
        let ret = p.clone();
        let ghost pre = *self;
        proof {
            lemma_assoc_contains(self.profiles@, caller);
        }
        match find_key(&self.profiles, caller) {
            Some(i) => {
                let ghost gp = p;
                self.profiles.set(i, (caller, p));
                proof {
                    lemma_assoc_update(pre.profiles@, i as int, gp);
                }
            },
            None => {
                let ghost gp = p;
                self.profiles.push((caller, p));
                proof {
                    lemma_assoc_push(pre.profiles@, caller, gp);
                }
            },
        }
        proof {
            assert(self@ =~= register_t(pre@, caller, ret@));
            lemma_wf_view_more_profiles(pre@, self@);
        }
        ret
    }

    /// After taking the post at `idx` out and putting a replacement back in
    /// its place, the store's representation and abstract value are those of
    /// a single pointwise update.
    proof fn lemma_after_put(&self, pre: State, idx: int, gp: Post)
        requires
            pre.wf(),
            0 <= idx < pre.posts@.len(),
            self.posts@ == pre.posts@.remove(idx).insert(idx, gp),
            self.profiles@ == pre.profiles@,
            self.user_posts@ == pre.user_posts@,
            self.following@ == pre.following@,
            self.next_post_id == pre.next_post_id,
            gp.likes@.no_duplicates(),
        ensures
            self.posts@ == pre.posts@.update(idx, gp),
            self@.posts == pre@.posts.update(idx, gp@),
            self@.profiles == pre@.profiles,
            self@.user_posts == pre@.user_posts,
            self@.following == pre@.following,
            self@.next_post_id == pre@.next_post_id,
            unique_keys(self.profiles@),
            unique_keys(self.user_posts@),
            unique_keys(self.following@),
            forall|i: int|
                0 <= i < self.posts@.len() ==> (#[trigger] self.posts@[i]).likes@.no_duplicates(),
            forall|i: int|
                0 <= i < self.following@.len() ==> (#[trigger] self.following@[i]).1@.no_duplicates(),
    {
        let a = pre.posts@;
        let b = a.remove(idx).insert(idx, gp);
        assert(b =~= a.update(idx, gp)) by {
            assert(forall|k: int| 0 <= k < idx ==> a.remove(idx)[k] == a[k]);
            assert(forall|k: int| idx <= k < a.len() - 1 ==> a.remove(idx)[k] == a[k + 1]);
            assert(b.len() == a.len());
            assert forall|k: int| 0 <= k < b.len() implies b[k] == a.update(idx, gp)[k] by {
                if k < idx {
                    assert(b[k] == a.remove(idx)[k]);
                } else if k == idx {
                    assert(b[k] == gp);
                } else {
                    assert(b[k] == a.remove(idx)[k - 1]);
                }
            };
        };
        lemma_posts_view_update(a, idx, gp);
        assert(forall|i: int|
            0 <= i < self.posts@.len() ==> i != idx ==> self.posts@[i] == pre.posts@[i]);
        assert(self.posts@[idx] == gp);
    }

    /// The value the next created post will be numbered past: ids issued so
    /// far never exceed it.
    pub fn next_id_watermark(&self) -> (r: u64)
        ensures
            r == self@.next_post_id,
    {
        self.next_post_id
    }

    /// How many posts the store currently holds.
    pub fn posts_len(&self) -> (n: usize)
        ensures
            n == self@.posts.len(),
    {
        self.posts.len()
    }

    /// A copy of the post at one position of the store's post sequence.
    pub(crate) fn post_at(&self, i: usize) -> (p: Post)
        requires
            i < self@.posts.len(),
        ensures
            p@ == self@.posts[i as int],
    {
        self.posts[i].clone()
    }

    /// Finds the position of the post numbered `id`.
    fn find_post(&self, id: PostId) -> (r: Option<usize>)
        ensures
            match r {
                Some(i) => i < self@.posts.len() && self@.posts[i as int].id == id,
                None => !has_post(self@, id),
            },
    {
        let mut j: usize = 0;
        while j < self.posts.len()
            invariant
                j <= self@.posts.len(),
                self@.posts.len() == self.posts@.len(),
                forall|i: int| 0 <= i < j ==> self@.posts[i].id != id,
            decreases self.posts@.len() - j,
        {
            if self.posts[j].id == id {
                return Some(j);
            }
            j += 1;
        }
        None
    }

    /// Allocates the next post id and stores a fresh post for the caller,
    /// provided the caller is registered and the content is not blank.
    pub fn create_post(&mut self, caller: UserId, content: String, now: Timestamp) -> (r: Result<
        Post,
        SocialError,
    >)
        requires
            old(self).wf(),
            old(self)@.next_post_id < u64::MAX,
        ensures
            final(self).wf(),
            match r {
                Ok(p) => {
                    &&& create_post_check(old(self)@, caller, content@) is None
                    &&& p@ == new_post((old(self)@.next_post_id + 1) as u64, caller, content@, now)
                    &&& final(self)@ == create_post_t(old(self)@, caller, content@, now)
                },
                Err(e) => {
                    &&& create_post_check(old(self)@, caller, content@) == Some(e)
                    &&& final(self)@ == old(self)@
                },
            },
    {
        if let Err(e) = self.ensure_profile(caller) {
            return Err(e);
        }
        if content_is_blank(content.as_str()) {
            return Err(SocialError::EmptyContent);
        }
        let ghost pre = *self;
        let ghost c = content@;
        self.next_post_id = self.next_post_id + 1;
        let id = self.next_post_id;
        let post = Post {
            id,
            author: caller,
            content,
            created_at: now,
            likes: Vec::new(),
            comments: Vec::new(),
        };
        let ret = post.clone();
        let ghost gpost = post;
        proof {
            assert(gpost@ =~= new_post(id, caller, c, now));
        }
        self.posts.push(post);
        proof {
            lemma_posts_view_push(pre.posts@, gpost);
        }
        match find_key(&self.user_posts, caller) {
            Some(j) => {
                let entry = &self.user_posts[j];
                let mut l = copy_ids(&entry.1);
                l.push(id);
                let ghost gl = l;
                self.user_posts.set(j, (caller, l));
                proof {
                    lemma_assoc_index(pre.user_posts@, j as int);
                    lemma_assoc_update(pre.user_posts@, j as int, gl);
                    assert(gl@ =~= user_list_of(pre@, caller).push(id));
                }
            },
            None => {
                proof {
                    lemma_assoc_contains(pre.user_posts@, caller);
                }
                let mut l: Vec<PostId> = Vec::new();
                l.push(id);
                let ghost gl = l;
                self.user_posts.push((caller, l));
                proof {
                    lemma_assoc_push(pre.user_posts@, caller, gl);
                    assert(gl@ =~= user_list_of(pre@, caller).push(id));
                }
            },
        }
        proof {
            assert(self@ =~= create_post_t(pre@, caller, c, now));
            lemma_wf_view_create(pre@, self@, caller, c, now);
            assert(forall|i: int|
                0 <= i < self.posts@.len() ==> (#[trigger] self.posts@[i]).likes@.no_duplicates())
                by {
                assert(forall|i: int|
                    0 <= i < pre.posts@.len() ==> self.posts@[i] == pre.posts@[i]);
                assert(self.posts@.last() == gpost);
            }
        }
        Ok(ret)
    }

    /// Replaces the content of the caller's own post; id, author, creation
    /// time, likes and comments stay untouched.
    pub fn edit_post(&mut self, caller: UserId, id: PostId, new_content: String) -> (r: Result<
        Post,
        SocialError,
    >)
        requires
            old(self).wf(),
        ensures
            final(self).wf(),
            match r {
                Ok(p) => {
                    &&& edit_post_check(old(self)@, caller, id, new_content@) is None
                    &&& p@ == (PostV { content: new_content@, ..post_by(old(self)@, id) })
                    &&& final(self)@ == edit_post_t(old(self)@, id, new_content@)
                },
                Err(e) => {
                    &&& edit_post_check(old(self)@, caller, id, new_content@) == Some(e)
                    &&& final(self)@ == old(self)@
                },
            },
    {
        let idx = match self.find_post(id) {
            None => {
                return Err(SocialError::NotFound);
            },
            Some(i) => i,
        };
        proof {
            lemma_post_lookup(self@, id, idx as int);
        }
        if self.posts[idx].author != caller {
            return Err(SocialError::Forbidden);
        }
        if content_is_blank(new_content.as_str()) {
            return Err(SocialError::EmptyContent);
        }
        let ghost pre = *self;
        let ghost nc = new_content@;
        let mut p = self.posts.remove(idx);
        p.content = new_content;
        let ret = p.clone();
        let ghost gp = p;
        self.posts.insert(idx, p);
        proof {
            lemma_post_lookup(pre@, id, idx as int);
            self.lemma_after_put(pre, idx as int, gp);
            assert(gp@ =~= (PostV { content: nc, ..post_by(pre@, id) }));
            assert(self@ =~= edit_post_t(pre@, id, nc));
            lemma_wf_view_update_same_key(pre@, self@, idx as int, gp@);
        }
        Ok(ret)
    }

    /// Puts the caller into the post's like-set (no effect when already
    /// there) and returns the resulting like count.
    pub fn like_post(&mut self, caller: UserId, id: PostId) -> (r: Result<usize, SocialError>)
        requires
            old(self).wf(),
        ensures
            final(self).wf(),
            match r {
                Ok(c) => {
                    &&& like_check(old(self)@, caller, id) is None
                    &&& final(self)@ == like_post_t(old(self)@, caller, id)
                    &&& c == post_by(old(self)@, id).likes.insert(caller).len()
                },
                Err(e) => {
                    &&& like_check(old(self)@, caller, id) == Some(e)
                    &&& final(self)@ == old(self)@
                },
            },
    {
        if let Err(e) = self.ensure_profile(caller) {
            return Err(e);
        }
        let idx = match self.find_post(id) {
            None => {
                return Err(SocialError::NotFound);
            },
            Some(i) => i,
        };
        proof {
            lemma_post_lookup(self@, id, idx as int);
        }
        let ghost pre = *self;
        let mut p = self.posts.remove(idx);
        proof {
            lemma_post_lookup(pre@, id, idx as int);
        }
        let ghost oldlikes = p.likes@;
        if !ids_contain(&p.likes, caller) {
            p.likes.push(caller);
            proof {
                lemma_push_to_set(oldlikes, caller);
            }
        } else {
            proof {
                assert(oldlikes.to_set().insert(caller) =~= oldlikes.to_set());
            }
        }
        let count = p.likes.len();
        let ghost gp = p;
        self.posts.insert(idx, p);
        proof {
            assert(gp@ =~= (PostV {
                likes: pre@.posts[idx as int].likes.insert(caller),
                ..pre@.posts[idx as int]
            }));
            self.lemma_after_put(pre, idx as int, gp);
            assert(self@ =~= like_post_t(pre@, caller, id));
            lemma_wf_view_update_same_key(pre@, self@, idx as int, gp@);
            gp.likes@.unique_seq_to_set();
        }
        Ok(count)
    }

    /// Takes the caller out of the post's like-set (no effect when absent)
    /// and returns the resulting like count.
    pub fn unlike_post(&mut self, caller: UserId, id: PostId) -> (r: Result<usize, SocialError>)
        requires
            old(self).wf(),
        ensures
            final(self).wf(),
            match r {
                Ok(c) => {
                    &&& like_check(old(self)@, caller, id) is None
                    &&& final(self)@ == unlike_post_t(old(self)@, caller, id)
                    &&& c == post_by(old(self)@, id).likes.remove(caller).len()
                },
                Err(e) => {
                    &&& like_check(old(self)@, caller, id) == Some(e)
                    &&& final(self)@ == old(self)@
                },
            },
    {
        if let Err(e) = self.ensure_profile(caller) {
            return Err(e);
        }
        let idx = match self.find_post(id) {
            None => {
                return Err(SocialError::NotFound);
            },
            Some(i) => i,
        };
        proof {
            lemma_post_lookup(self@, id, idx as int);
        }
        let ghost pre = *self;
        let mut p = self.posts.remove(idx);
        proof {
            lemma_post_lookup(pre@, id, idx as int);
        }
        let ghost oldlikes = p.likes@;
        let mut j: usize = 0;
        let mut found: bool = false;
        while j < p.likes.len() && !found
            invariant
                j <= p.likes@.len(),
                !found ==> forall|i: int| 0 <= i < j ==> p.likes@[i] != caller,
                found ==> j < p.likes@.len() && p.likes@[j as int] == caller,
                p.likes@ == oldlikes,
            decreases p.likes@.len() - j, (if found { 0int } else { 1int }),
        {
            if p.likes[j] == caller {
                found = true;
            } else {
                j += 1;
            }
        }
        if found {
            proof {
                lemma_remove_to_set(oldlikes, j as int);
            }
            p.likes.remove(j);
        } else {
            proof {
                assert(!oldlikes.contains(caller));
                assert(oldlikes.to_set().remove(caller) =~= oldlikes.to_set());
            }
        }
        let count = p.likes.len();
        let ghost gp = p;
        self.posts.insert(idx, p);
        proof {
            assert(gp@ =~= (PostV {
                likes: pre@.posts[idx as int].likes.remove(caller),
                ..pre@.posts[idx as int]
            }));
            self.lemma_after_put(pre, idx as int, gp);
            assert(self@ =~= unlike_post_t(pre@, caller, id));
            lemma_wf_view_update_same_key(pre@, self@, idx as int, gp@);
            gp.likes@.unique_seq_to_set();
        }
        Ok(count)
    }

    /// Appends a comment with the supplied timestamp to the post's comment
    /// sequence and returns the updated post.
    pub fn comment_post(
        &mut self,
        caller: UserId,
        id: PostId,
        content: String,
        now: Timestamp,
    ) -> (r: Result<Post, SocialError>)
        requires
            old(self).wf(),
        ensures
            final(self).wf(),
            match r {
                Ok(p) => {
                    &&& comment_post_check(old(self)@, caller, id, content@) is None
                    &&& final(self)@ == comment_post_t(old(self)@, caller, id, content@, now)
                    &&& p@ == post_by(final(self)@, id)
                },
                Err(e) => {
                    &&& comment_post_check(old(self)@, caller, id, content@) == Some(e)
                    &&& final(self)@ == old(self)@
                },
            },
    {
        if let Err(e) = self.ensure_profile(caller) {
            return Err(e);
        }
        if content_is_blank(content.as_str()) {
            return Err(SocialError::EmptyContent);
        }
        let idx = match self.find_post(id) {
            None => {
                return Err(SocialError::NotFound);
            },
            Some(i) => i,
        };
        proof {
            lemma_post_lookup(self@, id, idx as int);
        }
        let ghost pre = *self;
        let ghost cc = content@;
        let mut p = self.posts.remove(idx);
        let ghost oldcs = p.comments@;
        let c = Comment { author: caller, content, created_at: now };
        let ghost gc = c;
        p.comments.push(c);
        let ret = p.clone();
        let ghost gp = p;
        self.posts.insert(idx, p);
        proof {
            lemma_post_lookup(pre@, id, idx as int);
            assert(gp.comments@ == oldcs.push(gc));
            assert(gp@.comments =~= pre@.posts[idx as int].comments.push(gc@));
            assert(gp@ =~= (PostV {
                comments: pre@.posts[idx as int].comments.push(gc@),
                ..pre@.posts[idx as int]
            }));
            self.lemma_after_put(pre, idx as int, gp);
            assert(self@ =~= comment_post_t(pre@, caller, id, cc, now));
            lemma_wf_view_update_same_key(pre@, self@, idx as int, gp@);
            lemma_post_lookup(self@, id, idx as int);
        }
        Ok(ret)
    }

    /// Removes the caller's own post entirely and prunes its id from the
    /// author index. Deleting the same id again is `NotFound`.
    pub fn delete_post(&mut self, caller: UserId, id: PostId) -> (r: Result<(), SocialError>)
        requires
            old(self).wf(),
        ensures
            final(self).wf(),
            match r {
                Ok(_) => {
                    &&& delete_post_check(old(self)@, caller, id) is None
                    &&& final(self)@ == delete_post_t(old(self)@, id)
                },
                Err(e) => {
                    &&& delete_post_check(old(self)@, caller, id) == Some(e)
                    &&& final(self)@ == old(self)@
                },
            },
    {
        let idx = match self.find_post(id) {
            None => {
                return Err(SocialError::NotFound);
            },
            Some(i) => i,
        };
        proof {
            lemma_post_lookup(self@, id, idx as int);
        }
        if self.posts[idx].author != caller {
            return Err(SocialError::Forbidden);
        }
        let ghost pre = *self;
        let p = self.posts.remove(idx);
        proof {
            lemma_post_lookup(pre@, id, idx as int);
            lemma_posts_view_remove(pre.posts@, idx as int);
        }
        match find_key(&self.user_posts, caller) {
            Some(j) => {
                let entry = &self.user_posts[j];
                let ghost oldl = entry.1@;
                let newl = remove_val(&entry.1, id);
                let ghost gl = newl;
                self.user_posts.set(j, (caller, newl));
                proof {
                    lemma_assoc_index(pre.user_posts@, j as int);
                    lemma_assoc_update(pre.user_posts@, j as int, gl);
                }
            },
            None => {
                proof {
                    lemma_assoc_contains(pre.user_posts@, caller);
                    assert(post_indexed(pre@, pre@.posts[idx as int]));
                    assert(false);
                }
            },
        }
        proof {
            assert(self@ =~= delete_post_t(pre@, id));
            lemma_wf_view_delete(pre@, self@, id);
            assert forall|i: int| 0 <= i < self.posts@.len() implies (#[trigger] self.posts@[i]).likes@.no_duplicates() by {
                if i < idx as int {
                    assert(self.posts@[i] == pre.posts@[i]);
                } else {
                    assert(self.posts@[i] == pre.posts@[i + 1]);
                }
            };
        }
        Ok(())
    }

    /// Inserts the directed edge `caller -> target`; both must be registered,
    /// self-follow is refused, and following twice has no further effect.
    pub fn follow(&mut self, caller: UserId, target: UserId) -> (r: Result<(), SocialError>)
        requires
            old(self).wf(),
        ensures
            final(self).wf(),
            match r {
                Ok(_) => {
                    &&& follow_check(old(self)@, caller, target) is None
                    &&& final(self)@ == follow_t(old(self)@, caller, target)
                },
                Err(e) => {
                    &&& follow_check(old(self)@, caller, target) == Some(e)
                    &&& final(self)@ == old(self)@
                },
            },
    {
        if target == caller {
            return Err(SocialError::SelfFollow);
        }
        if let Err(e) = self.ensure_profile(caller) {
            return Err(e);
        }
        if let Err(e) = self.ensure_profile(target) {
            return Err(e);
        }
        let ghost pre = *self;
        match find_key(&self.following, caller) {
            Some(j) => {
                proof {
                    lemma_assoc_index(pre.following@, j as int);
                }
                let entry = &self.following[j];
                let ghost oldl = entry.1@;
                if ids_contain(&entry.1, target) {
                    proof {
                        assert(follow_set_of(pre@, caller).insert(target) =~= follow_set_of(
                            pre@,
                            caller,
                        ));
                        assert(pre@.following.insert(caller, follow_set_of(pre@, caller))
                            =~= pre@.following);
                        assert(self@ =~= follow_t(pre@, caller, target));
                    }
                    return Ok(());
                }
                let mut l = copy_ids(&entry.1);
                l.push(target);
                let ghost gl = l;
                self.following.set(j, (caller, l));
                proof {
                    lemma_assoc_update(pre.following@, j as int, gl);
                    lemma_push_to_set(oldl, target);
                    assert(gl@.no_duplicates());
                    assert(gl@.to_set() =~= follow_set_of(pre@, caller).insert(target));
                    assert(self@.following =~= pre@.following.insert(
                        caller,
                        follow_set_of(pre@, caller).insert(target),
                    ));
                    assert forall|i: int| 0 <= i < self.following@.len() implies (
                    #[trigger] self.following@[i]).1@.no_duplicates() by {
                        if i != j as int {
                            assert(self.following@[i] == pre.following@[i]);
                        }
                    };
                }
            },
            None => {
                proof {
                    lemma_assoc_contains(pre.following@, caller);
                }
                let mut l: Vec<UserId> = Vec::new();
                l.push(target);
                let ghost gl = l;
                self.following.push((caller, l));
                proof {
                    lemma_assoc_push(pre.following@, caller, gl);
                    assert(gl@.no_duplicates());
                    assert forall|i: int| 0 <= i < self.following@.len() implies (
                    #[trigger] self.following@[i]).1@.no_duplicates() by {
                        if i < pre.following@.len() {
                            assert(self.following@[i] == pre.following@[i]);
                        } else {
                            assert(self.following@[i].1 == gl);
                        }
                    };
                    assert(gl@.to_set() =~= follow_set_of(pre@, caller).insert(target)) by {
                        assert(gl@ =~= Seq::empty().push(target));
                        lemma_push_to_set(Seq::empty(), target);
                        assert(Seq::<u64>::empty().to_set() =~= Set::<u64>::empty());
                    }
                    assert(self@.following =~= pre@.following.insert(
                        caller,
                        follow_set_of(pre@, caller).insert(target),
                    ));
                }
            },
        }
        proof {
            assert(self@ =~= follow_t(pre@, caller, target));
            assert forall|u: UserId| #[trigger] self@.following.contains_key(u) implies follow_ok(
                self@,
                u,
            ) by {
                if u == caller {
                    assert(self@.following[u] == follow_set_of(pre@, caller).insert(target));
                    if pre@.following.contains_key(caller) {
                        assert(follow_ok(pre@, caller));
                    }
                } else {
                    assert(pre@.following.contains_key(u));
                    assert(follow_ok(pre@, u));
                    assert(self@.following[u] == pre@.following[u]);
                }
            };
            lemma_wf_view_graph_change(pre@, self@);
        }
        Ok(())
    }

    /// Removes the edge `caller -> target` if present; never an error and no
    /// registration check, since removal is always safe.
    pub fn unfollow(&mut self, caller: UserId, target: UserId) -> (r: Result<(), SocialError>)
        requires
            old(self).wf(),
        ensures
            final(self).wf(),
            r is Ok,
            final(self)@ == unfollow_t(old(self)@, caller, target),
    {
        let ghost pre = *self;
        match find_key(&self.following, caller) {
            Some(j) => {
                proof {
                    lemma_assoc_index(pre.following@, j as int);
                }
                let entry = &self.following[j];
                let ghost oldl = entry.1@;
                let newl = remove_val(&entry.1, target);
                let ghost gl = newl;
                self.following.set(j, (caller, newl));
                proof {
                    lemma_assoc_update(pre.following@, j as int, gl);
                    lemma_without_props(oldl, target);
                    assert(gl@.no_duplicates());
                    assert forall|i: int| 0 <= i < self.following@.len() implies (
                    #[trigger] self.following@[i]).1@.no_duplicates() by {
                        if i != j as int {
                            assert(self.following@[i] == pre.following@[i]);
                        }
                    };
                    assert(gl@.to_set() =~= pre@.following[caller].remove(target));
                    assert(self@.following =~= pre@.following.insert(
                        caller,
                        pre@.following[caller].remove(target),
                    ));
                    assert(self@ =~= unfollow_t(pre@, caller, target));
                    assert forall|u: UserId| #[trigger] self@.following.contains_key(u) implies
                        follow_ok(self@, u) by {
                        assert(pre@.following.contains_key(u));
                        assert(follow_ok(pre@, u));
                        if u == caller {
                            assert(self@.following[u] == pre@.following[u].remove(target));
                        } else {
                            assert(self@.following[u] == pre@.following[u]);
                        }
                    };
                    lemma_wf_view_graph_change(pre@, self@);
                }
            },
            None => {
                proof {
                    lemma_assoc_contains(pre.following@, caller);
                    assert(self@ =~= unfollow_t(pre@, caller, target));
                }
            },
        }
        Ok(())
    }

    /// Pure lookup of a post; absence is not an error.
    pub fn get_post(&self, id: PostId) -> (r: Option<Post>)
        requires
            self.wf(),
        ensures
            match r {
                Some(p) => has_post(self@, id) && p@ == post_by(self@, id),
                None => !has_post(self@, id),
            },
    {
        match self.find_post(id) {
            Some(i) => {
                proof {
                    lemma_post_lookup(self@, id, i as int);
                }
                Some(self.posts[i].clone())
            },
            None => None,
        }
    }

    /// The posts a user authored, in author-index order (creation order).
    pub fn get_user_posts(&self, user: UserId) -> (r: Vec<Post>)
        requires
            self.wf(),
        ensures
            r@.map_values(|p: Post| p@) == user_posts_seq(self@, user),
    {
        match find_key(&self.user_posts, user) {
            None => {
                proof {
                    lemma_assoc_contains(self.user_posts@, user);
                }
                let r: Vec<Post> = Vec::new();
                proof {
                    assert(r@.map_values(|p: Post| p@) =~= user_posts_seq(self@, user));
                }
                r
            },
            Some(j) => {
                proof {
                    lemma_assoc_index(self.user_posts@, j as int);
                }
                let entry = &self.user_posts[j];
                let ghost l = entry.1@;
                let mut r: Vec<Post> = Vec::new();
                let mut k: usize = 0;
                while k < entry.1.len()
                    invariant
                        self.wf(),
                        j < self.user_posts@.len(),
                        entry.1@ == l,
                        self@.user_posts.contains_key(user),
                        l == self@.user_posts[user],
                        k <= l.len(),
                        r@.map_values(|p: Post| p@) =~= l.subrange(0, k as int).map_values(
                            |id: PostId| post_by(self@, id),
                        ),
                    decreases l.len() - k,
                {
                    proof {
                        assert(user_list_ok(self@, user));
                        assert(has_post(self@, l[k as int]));
                    }
                    match self.find_post(entry.1[k]) {
                        Some(i) => {
                            proof {
                                lemma_post_lookup(self@, l[k as int], i as int);
                            }
                            let ghost prev = r@;
                            r.push(self.posts[i].clone());
                            proof {
                                assert(r@.map_values(|p: Post| p@) =~= prev.map_values(
                                    |p: Post| p@,
                                ).push(self.posts@[i as int]@));
                                assert(r@.map_values(|p: Post| p@) =~= l.subrange(
                                    0,
                                    k as int + 1,
                                ).map_values(|id: PostId| post_by(self@, id)));
                            }
                        },
                        None => {
                            proof {
                                assert(false);
                            }
                        },
                    }
                    k += 1;
                }
                proof {
                    assert(l.subrange(0, l.len() as int) =~= l);
                    assert(r@.map_values(|p: Post| p@) =~= user_posts_seq(self@, user));
                }
                r
            },
        }
    }

    /// The current followees of a user, exposed as a duplicate-free sequence
    /// with set semantics (no meaningful order).
    pub fn get_following(&self, user: UserId) -> (r: Vec<UserId>)
        requires
            self.wf(),
        ensures
            r@.to_set() == follow_set_of(self@, user),
            r@.no_duplicates(),
    {
        match find_key(&self.following, user) {
            Some(j) => {
                proof {
                    lemma_assoc_index(self.following@, j as int);
                }
                copy_ids(&self.following[j].1)
            },
            None => {
                proof {
                    lemma_assoc_contains(self.following@, user);
                }
                let r: Vec<UserId> = Vec::new();
                proof {
                    assert(r@.to_set() =~= Set::<UserId>::empty());
                }
                r
            },
        }
    }

    /// Captures the whole store — counter, profiles, posts, author index and
    /// follow graph — into one snapshot record.
    pub fn save(&self) -> (snap: Snapshot)
        requires
            self.wf(),
        ensures
            snap@ == self@,
            snap_wf(snap),
    {
        let mut profiles: Vec<(UserId, Profile)> = Vec::new();
        let mut k: usize = 0;
        while k < self.profiles.len()
            invariant
                k <= self.profiles@.len(),
                profiles@.len() == k as int,
                forall|i: int| 0 <= i < k ==> profiles@[i] == self.profiles@[i],
            decreases self.profiles@.len() - k,
        {
            let e = &self.profiles[k];
            profiles.push((e.0, e.1.clone()));
            k += 1;
        }
        proof {
            assert(profiles@ =~= self.profiles@);
        }
        let mut posts: Vec<Post> = Vec::new();
        let mut k: usize = 0;
        while k < self.posts.len()
            invariant
                k <= self.posts@.len(),
                posts@.len() == k as int,
                forall|i: int|
                    0 <= i < k ==> (#[trigger] posts@[i])@ == self.posts@[i]@ && posts@[i].likes@
                        == self.posts@[i].likes@,
            decreases self.posts@.len() - k,
        {
            posts.push(self.posts[k].clone());
            k += 1;
        }
        let mut user_posts: Vec<(UserId, Vec<PostId>)> = Vec::new();
        let mut k: usize = 0;
        while k < self.user_posts.len()
            invariant
                k <= self.user_posts@.len(),
                user_posts@.len() == k as int,
                forall|i: int|
                    0 <= i < k ==> (#[trigger] user_posts@[i]).0 == self.user_posts@[i].0
                        && user_posts@[i].1@ == self.user_posts@[i].1@,
            decreases self.user_posts@.len() - k,
        {
            let e = &self.user_posts[k];
            user_posts.push((e.0, copy_ids(&e.1)));
            k += 1;
        }
        let mut following: Vec<(UserId, Vec<UserId>)> = Vec::new();
        let mut k: usize = 0;
        while k < self.following.len()
            invariant
                k <= self.following@.len(),
                following@.len() == k as int,
                forall|i: int|
                    0 <= i < k ==> (#[trigger] following@[i]).0 == self.following@[i].0
                        && following@[i].1@ == self.following@[i].1@,
            decreases self.following@.len() - k,
        {
            let e = &self.following[k];
            following.push((e.0, copy_ids(&e.1)));
            k += 1;
        }
        let snap = Snapshot { next_post_id: self.next_post_id, profiles, posts, user_posts, following };
        proof {
            lemma_assoc_congruent(snap.user_posts@, self.user_posts@);
            lemma_assoc_congruent(snap.following@, self.following@);
            assert(posts_view(snap.posts@) =~= posts_view(self.posts@));
            assert(snap@ =~= self@);
            assert(unique_keys(snap.user_posts@)) by {
                assert(forall|a: int, b: int|
                    0 <= a < b < snap.user_posts@.len() ==> snap.user_posts@[a].0
                        == self.user_posts@[a].0 && snap.user_posts@[b].0
                        == self.user_posts@[b].0);
            }
            assert(unique_keys(snap.following@)) by {
                assert(forall|a: int, b: int|
                    0 <= a < b < snap.following@.len() ==> snap.following@[a].0
                        == self.following@[a].0 && snap.following@[b].0 == self.following@[b].0);
            }
        }
        snap
    }

    /// Rebuilds a store from a snapshot. A record that a `save` produced
    /// restores verbatim; one that breaks the store's invariants falls back
    /// to the empty store instead of corrupting state.
    pub fn restore(snap: Snapshot) -> (s: State)
        ensures
            s.wf(),
            snap_wf(snap) ==> s@ == snap@,
            !snap_wf(snap) ==> s@ == empty_view(),
    {
        if validate(&snap) {
            let ghost gsnap = snap;
            let s = State {
                next_post_id: snap.next_post_id,
                profiles: snap.profiles,
                posts: snap.posts,
                user_posts: snap.user_posts,
                following: snap.following,
            };
            proof {
                assert(s@ =~= gsnap@);
            }
            s
        } else {
            State::new()
        }
    }

    /// Pure lookup of a profile; absence is not an error.
    pub fn get_profile(&self, user: UserId) -> (r: Option<Profile>)
        requires
            self.wf(),
        ensures
            match r {
                Some(p) => registered(self@, user) && p@ == self@.profiles[user],
                None => !registered(self@, user),
            },
    {
        proof {
            lemma_assoc_contains(self.profiles@, user);
        }
        match find_key(&self.profiles, user) {
            Some(i) => {
                proof {
                    lemma_assoc_index(self.profiles@, i as int);
                }
                let entry = &self.profiles[i];
                Some(entry.1.clone())
            },
            None => None,
        }
    }
}

} // verus!
