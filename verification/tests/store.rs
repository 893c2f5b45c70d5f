use social_store::snapshot::Snapshot;
use social_store::store::State;
use social_store::types::SocialError;

const ALICE: u64 = 1;
const BOB: u64 = 2;
const CAROL: u64 = 3;

fn registered_store() -> State {
    let mut st = State::new();
    st.register(ALICE, "alice".to_string(), "http://a".to_string(), 10);
    st.register(BOB, "bob".to_string(), "http://b".to_string(), 11);
    st
}

#[test]
fn register_overwrite_keeps_latest() {
    let mut st = State::new();
    st.register(ALICE, "alice".to_string(), "http://a1".to_string(), 10);
    st.register(ALICE, "alicia".to_string(), "http://a2".to_string(), 20);
    let p = st.get_profile(ALICE).expect("profile");
    assert_eq!(p.username, "alicia");
    assert_eq!(p.avatar_url, "http://a2");
    assert_eq!(p.created_at, 20);
}

#[test]
fn get_profile_absent_is_none() {
    let st = State::new();
    assert!(st.get_profile(ALICE).is_none());
}

#[test]
fn create_post_requires_registration() {
    let mut st = State::new();
    let r = st.create_post(ALICE, "hello".to_string(), 5);
    assert_eq!(r.err(), Some(SocialError::NotRegistered));
}

#[test]
fn create_post_rejects_blank_content() {
    let mut st = registered_store();
    assert_eq!(
        st.create_post(ALICE, "".to_string(), 5).err(),
        Some(SocialError::EmptyContent)
    );
    assert_eq!(
        st.create_post(ALICE, " \t\n  ".to_string(), 5).err(),
        Some(SocialError::EmptyContent)
    );
    let ok = st.create_post(ALICE, "  hi  ".to_string(), 5).expect("post");
    assert_eq!(ok.id, 1);
    assert_eq!(ok.content, "  hi  ");
}

#[test]
fn post_ids_increase_and_are_not_reused() {
    let mut st = registered_store();
    let p1 = st.create_post(ALICE, "one".to_string(), 5).unwrap();
    let p2 = st.create_post(BOB, "two".to_string(), 6).unwrap();
    assert_eq!(p1.id, 1);
    assert_eq!(p2.id, 2);
    st.delete_post(BOB, 2).unwrap();
    let p3 = st.create_post(ALICE, "three".to_string(), 7).unwrap();
    assert_eq!(p3.id, 3);
}

#[test]
fn edit_post_checks_and_applies() {
    let mut st = registered_store();
    let p = st.create_post(ALICE, "draft".to_string(), 5).unwrap();
    assert_eq!(
        st.edit_post(ALICE, 99, "x".to_string()).err(),
        Some(SocialError::NotFound)
    );
    assert_eq!(
        st.edit_post(BOB, p.id, "x".to_string()).err(),
        Some(SocialError::Forbidden)
    );
    assert_eq!(
        st.edit_post(ALICE, p.id, "   ".to_string()).err(),
        Some(SocialError::EmptyContent)
    );
    let edited = st.edit_post(ALICE, p.id, "final text".to_string()).unwrap();
    assert_eq!(edited.content, "final text");
    assert_eq!(edited.created_at, 5);
    let read = st.get_post(p.id).unwrap();
    assert_eq!(read.content, "final text");
}

#[test]
fn delete_post_ownership_and_not_found() {
    let mut st = registered_store();
    let p = st.create_post(ALICE, "mine".to_string(), 5).unwrap();
    assert_eq!(st.delete_post(BOB, p.id).err(), Some(SocialError::Forbidden));
    st.delete_post(ALICE, p.id).unwrap();
    assert_eq!(st.delete_post(ALICE, p.id).err(), Some(SocialError::NotFound));
    assert!(st.get_post(p.id).is_none());
    assert!(st.get_user_posts(ALICE).is_empty());
}

#[test]
fn like_twice_counts_once() {
    let mut st = registered_store();
    let p = st.create_post(ALICE, "likeable".to_string(), 5).unwrap();
    assert_eq!(st.like_post(BOB, p.id).unwrap(), 1);
    assert_eq!(st.like_post(BOB, p.id).unwrap(), 1);
    assert_eq!(st.like_post(ALICE, p.id).unwrap(), 2);
}

#[test]
fn unlike_without_like_changes_nothing() {
    let mut st = registered_store();
    let p = st.create_post(ALICE, "quiet".to_string(), 5).unwrap();
    st.like_post(ALICE, p.id).unwrap();
    assert_eq!(st.unlike_post(BOB, p.id).unwrap(), 1);
    assert_eq!(st.unlike_post(ALICE, p.id).unwrap(), 0);
}

#[test]
fn like_errors() {
    let mut st = registered_store();
    let p = st.create_post(ALICE, "x".to_string(), 5).unwrap();
    assert_eq!(st.like_post(CAROL, p.id).err(), Some(SocialError::NotRegistered));
    assert_eq!(st.like_post(BOB, 77).err(), Some(SocialError::NotFound));
    assert_eq!(st.unlike_post(CAROL, p.id).err(), Some(SocialError::NotRegistered));
    assert_eq!(st.unlike_post(BOB, 77).err(), Some(SocialError::NotFound));
}

#[test]
fn comments_append_in_order() {
    let mut st = registered_store();
    let p = st.create_post(ALICE, "topic".to_string(), 5).unwrap();
    assert_eq!(
        st.comment_post(CAROL, p.id, "hi".to_string(), 6).err(),
        Some(SocialError::NotRegistered)
    );
    assert_eq!(
        st.comment_post(BOB, p.id, "  ".to_string(), 6).err(),
        Some(SocialError::EmptyContent)
    );
    assert_eq!(
        st.comment_post(BOB, 99, "hi".to_string(), 6).err(),
        Some(SocialError::NotFound)
    );
    let after1 = st.comment_post(BOB, p.id, "first".to_string(), 6).unwrap();
    assert_eq!(after1.comments.len(), 1);
    let after2 = st.comment_post(ALICE, p.id, "second".to_string(), 7).unwrap();
    assert_eq!(after2.comments.len(), 2);
    assert_eq!(after2.comments[0].content, "first");
    assert_eq!(after2.comments[0].author, BOB);
    assert_eq!(after2.comments[1].content, "second");
    assert_eq!(after2.comments[1].created_at, 7);
}

#[test]
fn follow_rejects_self_and_unregistered() {
    let mut st = registered_store();
    assert_eq!(st.follow(ALICE, ALICE).err(), Some(SocialError::SelfFollow));
    assert_eq!(st.follow(CAROL, ALICE).err(), Some(SocialError::NotRegistered));
    assert_eq!(st.follow(ALICE, CAROL).err(), Some(SocialError::NotRegistered));
    st.follow(ALICE, BOB).unwrap();
    st.follow(ALICE, BOB).unwrap();
    let f = st.get_following(ALICE);
    assert_eq!(f, vec![BOB]);
}

#[test]
fn unfollow_is_always_safe() {
    let mut st = registered_store();
    st.unfollow(ALICE, BOB).unwrap();
    st.unfollow(CAROL, BOB).unwrap();
    st.follow(ALICE, BOB).unwrap();
    st.unfollow(ALICE, BOB).unwrap();
    assert!(st.get_following(ALICE).is_empty());
}

#[test]
fn user_posts_keep_creation_order() {
    let mut st = registered_store();
    let a = st.create_post(ALICE, "a".to_string(), 5).unwrap();
    st.create_post(BOB, "b".to_string(), 6).unwrap();
    let c = st.create_post(ALICE, "c".to_string(), 7).unwrap();
    let posts = st.get_user_posts(ALICE);
    let ids: Vec<u64> = posts.iter().map(|p| p.id).collect();
    assert_eq!(ids, vec![a.id, c.id]);
}

#[test]
fn feed_merges_own_and_followed_posts() {
    let mut st = registered_store();
    st.register(CAROL, "carol".to_string(), "http://c".to_string(), 12);
    let pa = st.create_post(ALICE, "from alice".to_string(), 100).unwrap();
    let pb = st.create_post(BOB, "from bob".to_string(), 200).unwrap();
    st.create_post(CAROL, "from carol".to_string(), 300).unwrap();
    st.follow(ALICE, BOB).unwrap();
    let feed = st.get_feed_for(ALICE, 0, 10);
    let ids: Vec<u64> = feed.iter().map(|p| p.id).collect();
    assert_eq!(ids, vec![pb.id, pa.id]);
}

#[test]
fn feed_breaks_timestamp_ties_by_larger_id() {
    let mut st = registered_store();
    let p1 = st.create_post(ALICE, "first".to_string(), 50).unwrap();
    let p2 = st.create_post(ALICE, "second".to_string(), 50).unwrap();
    let p3 = st.create_post(ALICE, "older".to_string(), 40).unwrap();
    let feed = st.get_feed_for(ALICE, 0, 10);
    let ids: Vec<u64> = feed.iter().map(|p| p.id).collect();
    assert_eq!(ids, vec![p2.id, p1.id, p3.id]);
}

#[test]
fn feed_pagination_boundaries() {
    let mut st = registered_store();
    for k in 0..5u64 {
        st.create_post(ALICE, format!("post {}", k), 100 + k).unwrap();
    }
    assert!(st.get_feed_for(ALICE, 5, 10).is_empty());
    assert!(st.get_feed_for(ALICE, 50, 10).is_empty());
    assert!(st.get_feed_for(ALICE, 0, 0).is_empty());
    let middle = st.get_feed_for(ALICE, 1, 2);
    let ids: Vec<u64> = middle.iter().map(|p| p.id).collect();
    assert_eq!(ids, vec![4, 3]);
    let tail = st.get_feed_for(ALICE, 3, 10);
    let ids: Vec<u64> = tail.iter().map(|p| p.id).collect();
    assert_eq!(ids, vec![2, 1]);
}

#[test]
fn my_feed_matches_feed_for() {
    let mut st = registered_store();
    st.create_post(ALICE, "mine".to_string(), 5).unwrap();
    let a = st.get_my_feed(ALICE, 0, 10);
    let b = st.get_feed_for(ALICE, 0, 10);
    assert_eq!(a.len(), b.len());
    assert_eq!(a[0].id, b[0].id);
}

#[test]
fn snapshot_round_trip_preserves_every_read() {
    let mut st = registered_store();
    st.register(CAROL, "carol".to_string(), "http://c".to_string(), 12);
    let p1 = st.create_post(ALICE, "one".to_string(), 100).unwrap();
    let p2 = st.create_post(BOB, "two".to_string(), 100).unwrap();
    st.create_post(CAROL, "three".to_string(), 150).unwrap();
    st.follow(ALICE, BOB).unwrap();
    st.follow(CAROL, ALICE).unwrap();
    st.like_post(BOB, p1.id).unwrap();
    st.comment_post(CAROL, p2.id, "nice".to_string(), 160).unwrap();
    st.delete_post(CAROL, 3).unwrap();

    let restored = State::restore(st.save());

    for u in [ALICE, BOB, CAROL] {
        let a = st.get_profile(u);
        let b = restored.get_profile(u);
        assert_eq!(a.is_some(), b.is_some());
        if let (Some(x), Some(y)) = (a, b) {
            assert_eq!(x.username, y.username);
            assert_eq!(x.avatar_url, y.avatar_url);
            assert_eq!(x.created_at, y.created_at);
        }
        let ua: Vec<u64> = st.get_user_posts(u).iter().map(|p| p.id).collect();
        let ub: Vec<u64> = restored.get_user_posts(u).iter().map(|p| p.id).collect();
        assert_eq!(ua, ub);
        let mut fa = st.get_following(u);
        let mut fb = restored.get_following(u);
        fa.sort();
        fb.sort();
        assert_eq!(fa, fb);
        let feed_a: Vec<u64> = st.get_feed_for(u, 0, 10).iter().map(|p| p.id).collect();
        let feed_b: Vec<u64> = restored.get_feed_for(u, 0, 10).iter().map(|p| p.id).collect();
        assert_eq!(feed_a, feed_b);
    }
    for id in 1..=3u64 {
        let a = st.get_post(id);
        let b = restored.get_post(id);
        assert_eq!(a.is_some(), b.is_some());
        if let (Some(x), Some(y)) = (a, b) {
            assert_eq!(x.content, y.content);
            assert_eq!(x.likes, y.likes);
            assert_eq!(x.comments.len(), y.comments.len());
        }
    }
    // New ids carry on past the snapshot, never reusing the deleted one.
    let mut restored = restored;
    let p4 = restored.create_post(ALICE, "four".to_string(), 200).unwrap();
    assert_eq!(p4.id, 4);
}

#[test]
fn restore_of_broken_snapshot_falls_back_to_empty() {
    // A record with a self-follow edge breaks the store's invariants.
    let snap = Snapshot {
        next_post_id: 0,
        profiles: vec![(ALICE, social_store::types::Profile {
            username: "alice".to_string(),
            avatar_url: "http://a".to_string(),
            created_at: 1,
        })],
        posts: vec![],
        user_posts: vec![],
        following: vec![(ALICE, vec![ALICE])],
    };
    let st = State::restore(snap);
    assert!(st.get_profile(ALICE).is_none());
    assert!(st.get_following(ALICE).is_empty());
}

#[test]
fn restore_rejects_id_above_counter() {
    let mut good = registered_store();
    good.create_post(ALICE, "keep".to_string(), 5).unwrap();
    let mut snap = good.save();
    snap.next_post_id = 0; // now the stored post id exceeds the counter
    let st = State::restore(snap);
    assert!(st.get_post(1).is_none());
    assert!(st.get_profile(ALICE).is_none());
}

#[test]
fn example_scenario() {
    let mut st = State::new();
    st.register(ALICE, "alice".to_string(), "http://a".to_string(), 1);
    st.register(BOB, "bob".to_string(), "http://b".to_string(), 2);
    let p = st.create_post(ALICE, "hi".to_string(), 3).unwrap();
    assert_eq!(p.id, 1);
    st.follow(BOB, ALICE).unwrap();
    let feed = st.get_feed_for(BOB, 0, 10);
    assert_eq!(feed.len(), 1);
    assert_eq!(feed[0].id, 1);
    st.delete_post(ALICE, 1).unwrap();
    assert_eq!(st.delete_post(ALICE, 1).err(), Some(SocialError::NotFound));
    assert!(st.get_feed_for(BOB, 0, 10).is_empty());
}
