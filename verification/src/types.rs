//! Core entity types of the store and their mathematical views.
//!
//! Every contract in this crate is stated over the view types (`ProfileV`,
//! `CommentV`, `PostV`): text as `Seq<char>`, like-sets as `Set<UserId>`,
//! comment lists as `Seq<CommentV>`.

use vstd::prelude::*;
use vstd::string::StrSliceExecFns;

verus! {

/// An opaque caller identity. The hosting process resolves whatever identity
/// scheme it uses to one of these; the store only compares them.
pub type UserId = u64;

/// A process-wide unique post number, allocated from 1 upward and never reused.
pub type PostId = u64;

/// A creation time supplied by the hosting process.
pub type Timestamp = u64;

/// The typed failures of the store. Every one is a recoverable condition
/// reported to the caller; a failed operation leaves the store unchanged.
#[derive(PartialEq, Eq, Structural, Clone, Copy, Debug)]
pub enum SocialError {
    /// The acting identity has no profile and the operation requires one.
    NotRegistered,
    /// The referenced post id does not exist (or was deleted).
    NotFound,
    /// The acting identity is not the owner of the post it tries to change.
    Forbidden,
    /// Supplied text is empty or whitespace-only where content is required.
    EmptyContent,
    /// An identity attempted to follow itself.
    SelfFollow,
}

/// One account record per identity.
pub struct Profile {
    pub username: String,
    pub avatar_url: String,
    pub created_at: Timestamp,
}

/// The mathematical value of a `Profile`.
#[verifier::ext_equal]
pub struct ProfileV {
    pub username: Seq<char>,
    pub avatar_url: Seq<char>,
    pub created_at: Timestamp,
}

impl View for Profile {
    type V = ProfileV;

    open spec fn view(&self) -> ProfileV {
        ProfileV { username: self.username@, avatar_url: self.avatar_url@, created_at: self.created_at }
    }
}

impl Clone for Profile {
    fn clone(&self) -> (r: Self)
        ensures
            r == *self,
    {
        Profile {
            username: self.username.clone(),
            avatar_url: self.avatar_url.clone(),
            created_at: self.created_at,
        }
    }
}

/// An append-only child of a post. Comments are never edited or removed on
/// their own; they vanish only with the post that holds them.
pub struct Comment {
    pub author: UserId,
    pub content: String,
    pub created_at: Timestamp,
}

/// The mathematical value of a `Comment`.
#[verifier::ext_equal]
pub struct CommentV {
    pub author: UserId,
    pub content: Seq<char>,
    pub created_at: Timestamp,
}

impl View for Comment {
    type V = CommentV;

    open spec fn view(&self) -> CommentV {
        CommentV { author: self.author, content: self.content@, created_at: self.created_at }
    }
}

impl Clone for Comment {
    fn clone(&self) -> (r: Self)
        ensures
            r == *self,
    {
        Comment { author: self.author, content: self.content.clone(), created_at: self.created_at }
    }
}

/// An authored content unit, uniquely and permanently numbered, owned by its
/// author, carrying a set of likers and an ordered comment list.
pub struct Post {
    pub id: PostId,
    pub author: UserId,
    pub content: String,
    pub created_at: Timestamp,
    pub likes: Vec<UserId>,
    pub comments: Vec<Comment>,
}

/// The mathematical value of a `Post`: the likers as a set (unique,
/// unordered), the comments as a sequence in insertion order.
#[verifier::ext_equal]
pub struct PostV {
    pub id: PostId,
    pub author: UserId,
    pub content: Seq<char>,
    pub created_at: Timestamp,
    pub likes: Set<UserId>,
    pub comments: Seq<CommentV>,
}

impl View for Post {
    type V = PostV;

    open spec fn view(&self) -> PostV {
        PostV {
            id: self.id,
            author: self.author,
            content: self.content@,
            created_at: self.created_at,
            likes: self.likes@.to_set(),
            comments: self.comments@.map_values(|c: Comment| c@),
        }
    }
}

impl Clone for Post {
    fn clone(&self) -> (r: Self)
        ensures
            r@ == self@,
            r.likes@ == self.likes@,
            r.comments@ =~= self.comments@,
    {
        let r = Post {
            id: self.id,
            author: self.author,
            content: self.content.clone(),
            created_at: self.created_at,
            likes: copy_ids(&self.likes),
            comments: copy_comments(&self.comments),
        };
        proof {
            assert(r@.comments =~= self@.comments);
            assert(r@ =~= self@);
        }
        r
    }
}

/// Copies a vector of identities or ids element by element.
pub fn copy_ids(v: &Vec<u64>) -> (r: Vec<u64>)
    ensures
        r@ == v@,
{
    let mut r: Vec<u64> = Vec::new();
    let mut k: usize = 0;
    while k < v.len()
        invariant
            k <= v@.len(),
            r@ =~= v@.subrange(0, k as int),
        decreases v@.len() - k,
    {
        r.push(v[k]);
        proof {
            assert(r@ =~= v@.subrange(0, k as int + 1));
        }
        k += 1;
    }
    proof {
        assert(v@.subrange(0, v@.len() as int) =~= v@);
    }
    r
}

/// Copies a comment list element by element.
pub fn copy_comments(v: &Vec<Comment>) -> (r: Vec<Comment>)
    ensures
        r@ =~= v@,
{
    let mut r: Vec<Comment> = Vec::new();
    let mut k: usize = 0;
    while k < v.len()
        invariant
            k <= v@.len(),
            r@ =~= v@.subrange(0, k as int),
        decreases v@.len() - k,
    {
        r.push(v[k].clone());
        proof {
            assert(r@ =~= v@.subrange(0, k as int + 1));
        }
        k += 1;
    }
    proof {
        assert(v@.subrange(0, v@.len() as int) =~= v@);
    }
    r
}

/// What `char::is_whitespace` holds of a character: a function of the
/// character alone, fixed by the Unicode table that std carries.
pub uninterp spec fn char_is_space(c: char) -> bool;

/// Relies on char::is_whitespace of std: whether the character is Unicode
/// whitespace, a function of the character alone.
#[verifier::external_body]
fn is_space(c: char) -> (r: bool)
    ensures
        r == char_is_space(c),
{
    c.is_whitespace()
}

/// Text that must be rejected wherever non-empty content is required:
/// empty, or consisting of whitespace only.
pub open spec fn is_blank(s: Seq<char>) -> bool {
    forall|i: int| 0 <= i < s.len() ==> char_is_space(s[i])
}

/// Decides `is_blank` for a string slice.
pub fn content_is_blank(s: &str) -> (r: bool)
    ensures
        r == is_blank(s@),
{
    let n = s.unicode_len();
    let mut k: usize = 0;
    while k < n
        invariant
            n == s@.len(),
            k <= n,
            forall|i: int| 0 <= i < k ==> char_is_space(s@[i]),
        decreases n - k,
    {
        if !is_space(s.get_char(k)) {
            return false;
        }
        k += 1;
    }
    true
}

} // verus!
