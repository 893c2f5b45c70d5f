//! The feed engine: a pure read that merges a user's own posts with those of
//! everyone they follow, orders them reverse-chronologically with ties broken
//! by the larger post id, and slices the requested page.

use vstd::prelude::*;
use crate::store::State;
use crate::store::StateView;
use crate::store::follow_set_of;
use crate::store::posts_view;
use crate::assoc::ids_contain;
use crate::types::Post;
use crate::types::PostV;
use crate::types::UserId;

verus! {

/// The authors whose posts make up a user's feed: the user plus followees.
pub open spec fn feed_authors(sv: StateView, user: UserId) -> Set<UserId> {
    follow_set_of(sv, user).insert(user)
}

/// The posts of the given authors, kept in store order.
pub open spec fn matching_posts(s: Seq<PostV>, authors: Set<UserId>) -> Seq<PostV>
    decreases s.len(),
{
    if s.len() == 0 {
        Seq::empty()
    } else {
        let rest = matching_posts(s.drop_last(), authors);
        if authors.contains(s.last().author) {
            rest.push(s.last())
        } else {
            rest
        }
    }
}

/// The feed-relevant posts of a user, in store order.
pub open spec fn feed_matches(sv: StateView, user: UserId) -> Seq<PostV> {
    matching_posts(sv.posts, feed_authors(sv, user))
}

/// `a` may stand at or before `b` in a feed: strictly newer first, equal
/// timestamps broken by the larger post id first.
pub open spec fn feed_ge(a: PostV, b: PostV) -> bool {
    a.created_at > b.created_at || (a.created_at == b.created_at && a.id >= b.id)
}

/// Insertion into a sequence already in feed order.
pub open spec fn insert_desc(p: PostV, s: Seq<PostV>) -> Seq<PostV>
    decreases s.len(),
{
    if s.len() == 0 {
        seq![p]
    } else if feed_ge(p, s[0]) {
        seq![p] + s
    } else {
        seq![s[0]] + insert_desc(p, s.drop_first())
    }
}

/// Reverse-chronological sort: newest first, ties to the larger id.
pub open spec fn sort_desc(s: Seq<PostV>) -> Seq<PostV>
    decreases s.len(),
{
    if s.len() == 0 {
        Seq::empty()
    } else {
        insert_desc(s.last(), sort_desc(s.drop_last()))
    }
}

/// The whole feed of a user.
pub open spec fn feed_of(sv: StateView, user: UserId) -> Seq<PostV> {
    sort_desc(feed_matches(sv, user))
}

/// The requested window of a feed: an offset at or past the end, or a zero
/// limit, gives the empty page — a valid result, never an error.
pub open spec fn page_of(s: Seq<PostV>, offset: int, limit: int) -> Seq<PostV> {
    if offset >= s.len() || limit <= 0 {
        Seq::empty()
    } else if offset + limit <= s.len() {
        s.subrange(offset, offset + limit)
    } else {
        s.subrange(offset, s.len() as int)
    }
}

/// In feed order: every earlier element may stand before every later one.
pub open spec fn sorted_desc(s: Seq<PostV>) -> bool {
    forall|i: int, j: int| 0 <= i < j < s.len() ==> feed_ge(s[i], s[j])
}

/// Where the first fitting position is `j`, inserting lands exactly there.
pub proof fn lemma_insert_desc_at(p: PostV, s: Seq<PostV>, j: int)
    requires
        0 <= j <= s.len(),
        forall|m: int| 0 <= m < j ==> !feed_ge(p, s[m]),
        j < s.len() ==> feed_ge(p, s[j]),
    ensures
        insert_desc(p, s) == s.subrange(0, j) + seq![p] + s.subrange(j, s.len() as int),
    decreases s.len(),
{
    if s.len() == 0 {
        assert(insert_desc(p, s) =~= s.subrange(0, 0) + seq![p] + s.subrange(0, 0));
    } else if j == 0 {
        assert(feed_ge(p, s[0]));
        assert(insert_desc(p, s) =~= s.subrange(0, 0) + seq![p] + s.subrange(0, s.len() as int));
    } else {
        assert(!feed_ge(p, s[0]));
        let rest = s.drop_first();
        assert(forall|m: int| 0 <= m < j - 1 ==> rest[m] == s[m + 1]);
        lemma_insert_desc_at(p, rest, j - 1);
        assert(seq![s[0]] + (rest.subrange(0, j - 1) + seq![p] + rest.subrange(
            j - 1,
            rest.len() as int,
        )) =~= s.subrange(0, j) + seq![p] + s.subrange(j, s.len() as int));
    }
}

/// Inserting keeps feed order and adds exactly the new element.
pub proof fn lemma_insert_desc(p: PostV, s: Seq<PostV>)
    requires
        sorted_desc(s),
    ensures
        sorted_desc(insert_desc(p, s)),
        insert_desc(p, s).len() == s.len() + 1,
        insert_desc(p, s).contains(p),
        forall|x: PostV| #[trigger] s.contains(x) ==> insert_desc(p, s).contains(x),
        forall|x: PostV| #[trigger] insert_desc(p, s).contains(x) ==> (x == p || s.contains(x)),
    decreases s.len(),
{
    let t = insert_desc(p, s);
    if s.len() == 0 {
        assert forall|x: PostV| t.contains(x) implies (x == p || s.contains(x)) by {
            let i = choose|i: int| 0 <= i < t.len() && t[i] == x;
            assert(t[0] == p);
        };
        assert(t.contains(p)) by {
            assert(t[0] == p);
        };
    } else if feed_ge(p, s[0]) {
        assert(t == seq![p] + s);
        assert(t[0] == p);
        assert(forall|i: int| 0 <= i < s.len() ==> t[i + 1] == s[i]);
        assert forall|i: int, j: int| 0 <= i < j < t.len() implies feed_ge(t[i], t[j]) by {
            if i == 0 {
                assert(t[j] == s[j - 1]);
                if j - 1 > 0 {
                    assert(feed_ge(s[0], s[j - 1]));
                }
            } else {
                assert(feed_ge(s[i - 1], s[j - 1]));
            }
        };
        assert forall|x: PostV| #[trigger] t.contains(x) implies (x == p || s.contains(x)) by {
            let i = choose|i: int| 0 <= i < t.len() && t[i] == x;
            if i > 0 {
                assert(s[i - 1] == x);
            }
        };
        assert forall|x: PostV| #[trigger] s.contains(x) implies t.contains(x) by {
            let i = choose|i: int| 0 <= i < s.len() && s[i] == x;
            assert(t[i + 1] == x);
        };
        assert(t.contains(p)) by {
            assert(t[0] == p);
        };
    } else {
        let rest = s.drop_first();
        assert(sorted_desc(rest)) by {
            assert(forall|i: int, j: int|
                0 <= i < j < rest.len() ==> rest[i] == s[i + 1] && rest[j] == s[j + 1]);
        }
        lemma_insert_desc(p, rest);
        let u = insert_desc(p, rest);
        assert(t == seq![s[0]] + u);
        assert(t[0] == s[0]);
        assert(forall|i: int| 0 <= i < u.len() ==> t[i + 1] == u[i]);
        assert(feed_ge(s[0], p));
        assert forall|i: int, j: int| 0 <= i < j < t.len() implies feed_ge(t[i], t[j]) by {
            if i == 0 {
                assert(u.contains(u[j - 1])) by {
                    assert(u[j - 1] == u[j - 1]);
                }
                let x = u[j - 1];
                assert(x == p || rest.contains(x));
                if x != p {
                    let m = choose|m: int| 0 <= m < rest.len() && rest[m] == x;
                    assert(rest[m] == s[m + 1]);
                    assert(feed_ge(s[0], s[m + 1]));
                }
            } else {
                assert(feed_ge(u[i - 1], u[j - 1]));
            }
        };
        assert forall|x: PostV| #[trigger] t.contains(x) implies (x == p || s.contains(x)) by {
            let i = choose|i: int| 0 <= i < t.len() && t[i] == x;
            if i == 0 {
                assert(s[0] == x);
            } else {
                assert(u[i - 1] == x);
                assert(u.contains(x));
                assert(x == p || rest.contains(x));
                if x != p {
                    let m = choose|m: int| 0 <= m < rest.len() && rest[m] == x;
                    assert(rest[m] == s[m + 1]);
                    assert(s[m + 1] == x);
                }
            }
        };
        assert forall|x: PostV| #[trigger] s.contains(x) implies t.contains(x) by {
            let i = choose|i: int| 0 <= i < s.len() && s[i] == x;
            if i == 0 {
                assert(t[0] == x);
            } else {
                assert(rest[i - 1] == x);
                assert(rest.contains(x));
                assert(u.contains(x));
                let m = choose|m: int| 0 <= m < u.len() && u[m] == x;
                assert(t[m + 1] == x);
            }
        };
        assert(t.contains(p)) by {
            assert(u.contains(p));
            let m = choose|m: int| 0 <= m < u.len() && u[m] == p;
            assert(t[m + 1] == p);
        };
    }
}

/// The sorted feed is in feed order and holds exactly the matching posts.
pub proof fn lemma_sort_desc(s: Seq<PostV>)
    ensures
        sorted_desc(sort_desc(s)),
        sort_desc(s).len() == s.len(),
        forall|x: PostV| #[trigger] sort_desc(s).contains(x) ==> s.contains(x),
        forall|x: PostV| #[trigger] s.contains(x) ==> sort_desc(s).contains(x),
    decreases s.len(),
{
    if s.len() > 0 {
        let dl = s.drop_last();
        lemma_sort_desc(dl);
        lemma_insert_desc(s.last(), sort_desc(dl));
        assert forall|x: PostV| #[trigger] sort_desc(s).contains(x) implies s.contains(x) by {
            assert(insert_desc(s.last(), sort_desc(dl)).contains(x));
            if x == s.last() {
                assert(s[s.len() - 1] == x);
            } else {
                assert(sort_desc(dl).contains(x));
                assert(dl.contains(x));
                let m = choose|m: int| 0 <= m < dl.len() && dl[m] == x;
                assert(s[m] == x);
            }
        };
        assert forall|x: PostV| #[trigger] s.contains(x) implies sort_desc(s).contains(x) by {
            let i = choose|i: int| 0 <= i < s.len() && s[i] == x;
            if i == s.len() - 1 {
                assert(x == s.last());
                assert(insert_desc(s.last(), sort_desc(dl)).contains(x));
            } else {
                assert(dl[i] == x);
                assert(dl.contains(x));
                assert(sort_desc(dl).contains(x));
                assert(insert_desc(s.last(), sort_desc(dl)).contains(x));
            }
        };
    }
}

/// Decides feed precedence between two posts.
fn feed_ge_exec(a: &Post, b: &Post) -> (r: bool)
    ensures
        r == feed_ge(a@, b@),
{
    a.created_at > b.created_at || (a.created_at == b.created_at && a.id >= b.id)
}

/// The first position of `v` (already in feed order) at which `p` may stand.
fn find_insert_at(v: &Vec<Post>, p: &Post) -> (j: usize)
    ensures
        j <= v@.len(),
        forall|m: int| 0 <= m < j ==> !feed_ge(p@, v@[m]@),
        j < v@.len() ==> feed_ge(p@, v@[j as int]@),
{
    let mut j: usize = 0;
    while j < v.len()
        invariant
            j <= v@.len(),
            forall|m: int| 0 <= m < j ==> !feed_ge(p@, v@[m]@),
        decreases v@.len() - j,
    {
        if feed_ge_exec(p, &v[j]) {
            return j;
        }
        j += 1;
    }
    j
}

impl State {
    /// Computes the requested page of a user's feed: every post whose author
    /// is the user or someone the user follows, newest first with ties to the
    /// larger id, sliced to `[offset, offset + limit)` and clamped to the
    /// collection, so that out-of-range pages are empty, never an error.
    pub fn get_feed_for(&self, user: UserId, offset: usize, limit: usize) -> (r: Vec<Post>)
        requires
            self.wf(),
        ensures
            posts_view(r@) == page_of(feed_of(self@, user), offset as int, limit as int),
    {
        let ghost authors_spec = feed_authors(self@, user);
        let mut authors = self.get_following(user);
        proof {
            crate::store::lemma_push_to_set(authors@, user);
        }
        authors.push(user);
        proof {
            assert(authors@.to_set() == authors_spec);
        }
        let mut matches: Vec<Post> = Vec::new();
        let n = self.posts_len();
        let mut k: usize = 0;
        while k < n
            invariant
                self.wf(),
                n == self@.posts.len(),
                k <= n,
                authors@.to_set() == authors_spec,
                posts_view(matches@) == matching_posts(self@.posts.subrange(0, k as int), authors_spec),
            decreases n - k,
        {
            proof {
                assert(self@.posts.subrange(0, k as int + 1).drop_last() =~= self@.posts.subrange(
                    0,
                    k as int,
                ));
                assert(self@.posts.subrange(0, k as int + 1).last() == self@.posts[k as int]);
            }
            let p = self.post_at(k);
            if ids_contain(&authors, p.author) {
                let ghost prevm = matches@;
                matches.push(p);
                proof {
                    assert(posts_view(matches@) =~= posts_view(prevm).push(
                        self@.posts[k as int],
                    ));
                }
            }
            k += 1;
        }
        proof {
            assert(self@.posts.subrange(0, n as int) =~= self@.posts);
            assert(posts_view(matches@) == feed_matches(self@, user));
        }
        let ghost mview = posts_view(matches@);
        let mut sorted: Vec<Post> = Vec::new();
        let mut k: usize = 0;
        while k < matches.len()
            invariant
                k <= matches@.len(),
                posts_view(matches@) == mview,
                posts_view(sorted@) == sort_desc(mview.subrange(0, k as int)),
            decreases matches@.len() - k,
        {
            let p = matches[k].clone();
            let j = find_insert_at(&sorted, &p);
            let ghost osort = posts_view(sorted@);
            let ghost gp = p;
            sorted.insert(j, p);
            proof {
                lemma_insert_desc_at(gp@, osort, j as int);
                assert(posts_view(sorted@) =~= osort.subrange(0, j as int) + seq![gp@]
                    + osort.subrange(j as int, osort.len() as int));
                assert(posts_view(sorted@) == insert_desc(gp@, osort));
                assert(mview.subrange(0, k as int + 1).drop_last() =~= mview.subrange(0, k as int));
                assert(mview.subrange(0, k as int + 1).last() == mview[k as int]);
                assert(gp@ == mview[k as int]);
            }
            k += 1;
        }
        proof {
            assert(mview.subrange(0, mview.len() as int) =~= mview);
            assert(posts_view(sorted@) == feed_of(self@, user));
        }
        let ghost full = posts_view(sorted@);
        let total = sorted.len();
        if offset >= total || limit == 0 {
            let r: Vec<Post> = Vec::new();
            proof {
                assert(posts_view(r@) =~= page_of(full, offset as int, limit as int));
            }
            return r;
        }
        let end = if total - offset < limit {
            total
        } else {
            offset + limit
        };
        let mut r: Vec<Post> = Vec::new();
        let mut m: usize = offset;
        while m < end
            invariant
                offset <= m <= end <= sorted@.len(),
                full == posts_view(sorted@),
                posts_view(r@) =~= full.subrange(offset as int, m as int),
            decreases end - m,
        {
            let ghost prevr = r@;
            r.push(sorted[m].clone());
            proof {
                assert(posts_view(r@) =~= posts_view(prevr).push(full[m as int]));
                assert(posts_view(r@) =~= full.subrange(offset as int, m as int + 1));
            }
            m += 1;
        }
        proof {
            assert(posts_view(r@) == page_of(full, offset as int, limit as int));
        }
        r
    }

    /// The feed of the resolved caller: `get_feed_for` on their own identity.
    pub fn get_my_feed(&self, caller: UserId, offset: usize, limit: usize) -> (r: Vec<Post>)
        requires
            self.wf(),
        ensures
            posts_view(r@) == page_of(feed_of(self@, caller), offset as int, limit as int),
    {
        self.get_feed_for(caller, offset, limit)
    }
}

} // verus!
