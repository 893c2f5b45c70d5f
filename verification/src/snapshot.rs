//! The snapshot record: a full capture of the store taken before a controlled
//! suspend point and loaded after it. A snapshot produced by `State::save`
//! always restores verbatim; any other record is validated first, and a record
//! that breaks the store's invariants falls back to the empty store rather
//! than corrupting state.

use vstd::prelude::*;
use crate::assoc::assoc_view;
use crate::assoc::find_key;
use crate::assoc::ids_contain;
use crate::assoc::lemma_assoc_contains;
use crate::assoc::lemma_assoc_index;
use crate::assoc::unique_keys;
use crate::store::StateView;
use crate::store::follow_ok;
use crate::store::has_post;
use crate::store::lemma_post_lookup;
use crate::store::posts_view;
use crate::store::follow_sets;
use crate::store::user_list_ok;
use crate::store::wf_view;
use crate::types::Post;
use crate::types::PostId;
use crate::types::PostV;
use crate::types::Profile;
use crate::types::UserId;

verus! {

/// One opaque record holding, logically, the tuple of the id counter and the
/// four mappings. The hosting process gives it a concrete wire encoding.
pub struct Snapshot {
    pub next_post_id: u64,
    pub profiles: Vec<(UserId, Profile)>,
    pub posts: Vec<Post>,
    pub user_posts: Vec<(UserId, Vec<PostId>)>,
    pub following: Vec<(UserId, Vec<UserId>)>,
}

impl View for Snapshot {
    type V = StateView;

    open spec fn view(&self) -> StateView {
        StateView {
            next_post_id: self.next_post_id,
            profiles: assoc_view(self.profiles@),
            posts: posts_view(self.posts@),
            user_posts: assoc_view(self.user_posts@),
            following: follow_sets(assoc_view(self.following@)),
        }
    }
}

/// A snapshot that a store may be rebuilt from: distinct keys, duplicate-free
/// like and followee lists, and every cross-entity invariant of the store.
pub open spec fn snap_wf(s: Snapshot) -> bool {
    &&& unique_keys(s.profiles@)
    &&& unique_keys(s.user_posts@)
    &&& unique_keys(s.following@)
    &&& forall|i: int|
        0 <= i < s.posts@.len() ==> (#[trigger] s.posts@[i]).likes@.no_duplicates()
    &&& forall|i: int|
        0 <= i < s.following@.len() ==> (#[trigger] s.following@[i]).1@.no_duplicates()
    &&& wf_view(s@)
}

/// Whether all keys of an association vector are pairwise distinct.
fn check_unique_keys<T>(v: &Vec<(u64, T)>) -> (b: bool)
    ensures
        b == unique_keys(v@),
{
    let mut i: usize = 0;
    while i < v.len()
        invariant
            i <= v@.len(),
            forall|a: int, c: int| 0 <= a < c < v@.len() && a < i ==> v@[a].0 != v@[c].0,
        decreases v@.len() - i,
    {
        let mut j: usize = i + 1;
        while j < v.len()
            invariant
                i < j <= v@.len(),
                i < v@.len(),
                forall|c: int| i < c < j ==> v@[i as int].0 != v@[c].0,
            decreases v@.len() - j,
        {
            if v[i].0 == v[j].0 {
                return false;
            }
            j += 1;
        }
        i += 1;
    }
    true
}

/// Whether a list holds no value twice.
fn check_no_dup(v: &Vec<u64>) -> (b: bool)
    ensures
        b == v@.no_duplicates(),
{
    let mut i: usize = 0;
    while i < v.len()
        invariant
            i <= v@.len(),
            forall|a: int, c: int| 0 <= a < c < v@.len() && a < i ==> v@[a] != v@[c],
        decreases v@.len() - i,
    {
        let mut j: usize = i + 1;
        while j < v.len()
            invariant
                i < j <= v@.len(),
                i < v@.len(),
                forall|c: int| i < c < j ==> v@[i as int] != v@[c],
            decreases v@.len() - j,
        {
            if v[i] == v[j] {
                return false;
            }
            j += 1;
        }
        i += 1;
    }
    true
}

/// Finds the position of the post numbered `id` in a raw post vector.
fn find_post_at(v: &Vec<Post>, id: u64) -> (r: Option<usize>)
    ensures
        match r {
            Some(i) => i < v@.len() && v@[i as int].id == id,
            None => forall|i: int| 0 <= i < v@.len() ==> v@[i].id != id,
        },
{
    let mut j: usize = 0;
    while j < v.len()
        invariant
            j <= v@.len(),
            forall|i: int| 0 <= i < j ==> v@[i].id != id,
        decreases v@.len() - j,
    {
        if v[j].id == id {
            return Some(j);
        }
        j += 1;
    }
    None
}

/// Adjacent ascent of post ids gives pairwise ascent.
proof fn lemma_ids_pairwise(s: Seq<PostV>, a: int, b: int)
    requires
        forall|m: int| 0 < m < s.len() ==> s[m - 1].id < (#[trigger] s[m]).id,
        0 <= a < b < s.len(),
    ensures
        s[a].id < s[b].id,
    decreases b - a,
{
    if a + 1 < b {
        lemma_ids_pairwise(s, a, b - 1);
    }
}

/// Adjacent ascent of ids gives pairwise ascent.
proof fn lemma_u64_pairwise(s: Seq<u64>, a: int, b: int)
    requires
        forall|m: int| 0 < m < s.len() ==> s[m - 1] < #[trigger] s[m],
        0 <= a < b < s.len(),
    ensures
        s[a] < s[b],
    decreases b - a,
{
    if a + 1 < b {
        lemma_u64_pairwise(s, a, b - 1);
    }
}

/// Decides whether a snapshot may be restored: exactly the checks of
/// `snap_wf`, each violation reported as an unrestorable record.
pub fn validate(s: &Snapshot) -> (b: bool)
    ensures
        b == snap_wf(*s),
{
    if !check_unique_keys(&s.profiles) {
        return false;
    }
    if !check_unique_keys(&s.user_posts) {
        return false;
    }
    if !check_unique_keys(&s.following) {
        return false;
    }
    // Post ids: positive, bounded by the counter, strictly ascending.
    let mut i: usize = 0;
    while i < s.posts.len()
        invariant
            i <= s.posts@.len(),
            s@.posts.len() == s.posts@.len(),
            forall|a: int| 0 <= a < i ==> 1 <= (#[trigger] s@.posts[a]).id <= s@.next_post_id,
            forall|a: int| 0 < a < i ==> s@.posts[a - 1].id < (#[trigger] s@.posts[a]).id,
        decreases s.posts@.len() - i,
    {
        let pid = s.posts[i].id;
        if pid < 1 || pid > s.next_post_id {
            proof {
                assert(s@.posts[i as int] == s.posts@[i as int]@);
                assert(!wf_view(s@));
            }
            return false;
        }
        if i > 0 && s.posts[i - 1].id >= pid {
            proof {
                assert(s@.posts[i as int] == s.posts@[i as int]@);
                assert(s@.posts[i as int - 1] == s.posts@[i as int - 1]@);
                assert(!wf_view(s@));
            }
            return false;
        }
        i += 1;
    }
    proof {
        assert forall|a: int, b: int| 0 <= a < b < s@.posts.len() implies s@.posts[a].id
            < s@.posts[b].id by {
            lemma_ids_pairwise(s@.posts, a, b);
        };
    }
    // Like-sets hold no liker twice.
    let mut i: usize = 0;
    while i < s.posts.len()
        invariant
            i <= s.posts@.len(),
            forall|a: int| 0 <= a < i ==> (#[trigger] s.posts@[a]).likes@.no_duplicates(),
        decreases s.posts@.len() - i,
    {
        if !check_no_dup(&s.posts[i].likes) {
            return false;
        }
        i += 1;
    }
    // Author index entries: strictly ascending, every listed id a post of
    // that author.
    let mut j: usize = 0;
    while j < s.user_posts.len()
        invariant
            j <= s.user_posts@.len(),
            unique_keys(s.user_posts@),
            s@.posts.len() == s.posts@.len(),
            forall|a: int, b: int| 0 <= a < b < s@.posts.len() ==> s@.posts[a].id < s@.posts[b].id,
            forall|a: int|
                0 <= a < j ==> user_list_ok(s@, (#[trigger] s.user_posts@[a]).0),
        decreases s.user_posts@.len() - j,
    {
        proof {
            lemma_assoc_index(s.user_posts@, j as int);
        }
        let entry = &s.user_posts[j];
        let ghost u = entry.0;
        let ghost l = entry.1@;
        let mut k: usize = 0;
        while k < entry.1.len()
            invariant
                k <= l.len(),
                entry.1@ == l,
                s@.user_posts.contains_key(u),
                s@.user_posts[u] == l,
                entry.0 == u,
                s@.posts.len() == s.posts@.len(),
                forall|a: int, b: int|
                    0 <= a < b < s@.posts.len() ==> s@.posts[a].id < s@.posts[b].id,
                forall|m: int| 0 < m < k ==> l[m - 1] < #[trigger] l[m],
                forall|m: int|
                    0 <= m < k ==> has_post(s@, #[trigger] l[m]) && crate::store::post_by(
                        s@,
                        l[m],
                    ).author == u,
            decreases l.len() - k,
        {
            let id = entry.1[k];
            if k > 0 && entry.1[k - 1] >= id {
                return false;
            }
            match find_post_at(&s.posts, id) {
                None => {
                    proof {
                        assert(!has_post(s@, id)) by {
                            assert(forall|m: int|
                                0 <= m < s@.posts.len() ==> (#[trigger] s@.posts[m]).id
                                    == s.posts@[m].id);
                        }
                        assert(!user_list_ok(s@, u));
                    }
                    return false;
                },
                Some(idx) => {
                    proof {
                        lemma_post_lookup(s@, id, idx as int);
                    }
                    if s.posts[idx].author != entry.0 {
                        return false;
                    }
                },
            }
            k += 1;
        }
        proof {
            assert forall|a: int, b: int| 0 <= a < b < l.len() implies l[a] < l[b] by {
                lemma_u64_pairwise(l, a, b);
            };
            assert(user_list_ok(s@, u));
        }
        j += 1;
    }
    // Every post is listed under its author.
    let mut i: usize = 0;
    while i < s.posts.len()
        invariant
            i <= s.posts@.len(),
            unique_keys(s.user_posts@),
            s@.posts.len() == s.posts@.len(),
            forall|a: int|
                0 <= a < i ==> crate::store::post_indexed(s@, #[trigger] s@.posts[a]),
        decreases s.posts@.len() - i,
    {
        let author = s.posts[i].author;
        let pid = s.posts[i].id;
        proof {
            lemma_assoc_contains(s.user_posts@, author);
        }
        match find_key(&s.user_posts, author) {
            None => {
                proof {
                    assert(s@.posts[i as int] == s.posts@[i as int]@);
                    assert(!s@.user_posts.contains_key(author));
                    assert(!crate::store::post_indexed(s@, s@.posts[i as int]));
                    assert(!wf_view(s@));
                }
                return false;
            },
            Some(j2) => {
                proof {
                    lemma_assoc_index(s.user_posts@, j2 as int);
                }
                if !ids_contain(&s.user_posts[j2].1, pid) {
                    proof {
                        assert(s@.posts[i as int] == s.posts@[i as int]@);
                        assert(s@.user_posts[author] == s.user_posts@[j2 as int].1@);
                        assert(!crate::store::post_indexed(s@, s@.posts[i as int]));
                        assert(!wf_view(s@));
                    }
                    return false;
                }
            },
        }
        i += 1;
    }
    // Follow entries: duplicate-free, no self-edge, both endpoints
    // registered.
    let mut j: usize = 0;
    while j < s.following.len()
        invariant
            j <= s.following@.len(),
            unique_keys(s.following@),
            unique_keys(s.profiles@),
            forall|a: int|
                0 <= a < j ==> follow_ok(s@, (#[trigger] s.following@[a]).0),
            forall|a: int| 0 <= a < j ==> (#[trigger] s.following@[a]).1@.no_duplicates(),
        decreases s.following@.len() - j,
    {
        proof {
            lemma_assoc_index(s.following@, j as int);
        }
        let entry = &s.following[j];
        let ghost u = entry.0;
        let ghost l = entry.1@;
        if !check_no_dup(&entry.1) {
            return false;
        }
        if ids_contain(&entry.1, entry.0) {
            proof {
                assert(s@.following.contains_key(u));
                assert(s@.following[u].contains(u));
                assert(!follow_ok(s@, u));
                assert(!wf_view(s@));
            }
            return false;
        }
        proof {
            lemma_assoc_contains(s.profiles@, u);
        }
        if find_key(&s.profiles, entry.0).is_none() {
            proof {
                assert(s@.following.contains_key(u));
                assert(!s@.profiles.contains_key(u));
                assert(!follow_ok(s@, u));
                assert(!wf_view(s@));
            }
            return false;
        }
        let mut k: usize = 0;
        while k < entry.1.len()
            invariant
                k <= l.len(),
                entry.1@ == l,
                entry.0 == u,
                s@.following.contains_key(u),
                s@.following[u] == l.to_set(),
                forall|m: int| 0 <= m < k ==> s@.profiles.contains_key(#[trigger] l[m]),
            decreases l.len() - k,
        {
            let v = entry.1[k];
            proof {
                lemma_assoc_contains(s.profiles@, v);
            }
            if find_key(&s.profiles, v).is_none() {
                proof {
                    assert(s@.following[u].contains(v)) by {
                        assert(l.contains(v)) by {
                            assert(l[k as int] == v);
                        }
                    }
                    assert(!follow_ok(s@, u));
                }
                return false;
            }
            k += 1;
        }
        proof {
            assert(follow_ok(s@, u)) by {
                assert forall|v: UserId| s@.following[u].contains(v) implies s@.profiles.contains_key(
                    v,
                ) by {
                    assert(l.contains(v));
                    let m = choose|m: int| 0 <= m < l.len() && l[m] == v;
                };
                assert(!s@.following[u].contains(u)) by {
                    if l.to_set().contains(u) {
                        assert(l.contains(u));
                    }
                }
            }
        }
        j += 1;
    }
    proof {
        assert(wf_view(s@)) by {
            assert forall|u: UserId| #[trigger] s@.user_posts.contains_key(u) implies user_list_ok(
                s@,
                u,
            ) by {
                lemma_assoc_contains(s.user_posts@, u);
                let a = choose|a: int| 0 <= a < s.user_posts@.len() && s.user_posts@[a].0 == u;
                assert(user_list_ok(s@, s.user_posts@[a].0));
            };
            assert forall|u: UserId| #[trigger] s@.following.contains_key(u) implies follow_ok(
                s@,
                u,
            ) by {
                lemma_assoc_contains(s.following@, u);
                let a = choose|a: int| 0 <= a < s.following@.len() && s.following@[a].0 == u;
                assert(follow_ok(s@, s.following@[a].0));
            };
        }
    }
    true
}

} // verus!
