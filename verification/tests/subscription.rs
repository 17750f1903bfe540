use nt_client::error::Error;
use nt_client::subscription::{
    subscription_covers, Subscription, SubscriptionHandle, SubscriptionOptions, Subscriptions,
};
use nt_client::text::{str_eq, str_starts_with};

fn options(prefix: bool) -> SubscriptionOptions {
    SubscriptionOptions { periodic: 100, all: false, prefix, topicsonly: false }
}

fn names(items: &[&str]) -> Vec<String> {
    items.iter().map(|s| s.to_string()).collect()
}

#[test]
fn numbers_are_the_least_free_ones() {
    let mut s = Subscriptions::new();
    let a = s.subscribe(names(&["a"]), options(false)).unwrap();
    let b = s.subscribe(names(&["b"]), options(false)).unwrap();
    let c = s.subscribe(names(&["c"]), options(false)).unwrap();
    assert_eq!((a.id, b.id, c.id), (0, 1, 2));
    assert_eq!(s.len(), 3);
}

#[test]
fn a_number_is_free_again_only_after_release() {
    let mut s = Subscriptions::new();
    let a = s.subscribe(names(&["a"]), options(false)).unwrap();
    let b = s.subscribe(names(&["b"]), options(false)).unwrap();
    assert!(s.unsubscribe(a));
    assert!(!s.unsubscribe(a));
    let c = s.subscribe(names(&["c"]), options(false)).unwrap();
    assert_eq!(c.id, 2);
    assert!(!s.release(b.id));
    assert!(s.release(a.id));
    assert!(!s.release(a.id));
    let d = s.subscribe(names(&["d"]), options(false)).unwrap();
    assert_eq!(d.id, 0);
    assert_eq!(s.len(), 3);
}

#[test]
fn a_subscription_needs_a_pattern() {
    let mut s = Subscriptions::new();
    match s.subscribe(vec![], options(true)) {
        Err(Error::InvalidMessageType(_)) => {}
        other => panic!("unexpected {:?}", other),
    }
    assert_eq!(s.len(), 0);
}

#[test]
fn unsubscribe_of_an_unknown_handle_changes_nothing() {
    let mut s = Subscriptions::new();
    s.subscribe(names(&["a"]), options(false)).unwrap();
    assert!(!s.unsubscribe(SubscriptionHandle { id: 5 }));
    assert!(!s.get(0).unwrap().released);
    assert!(s.get(5).is_none());
}

#[test]
fn exact_patterns_cover_the_whole_name_only() {
    let mut s = Subscriptions::new();
    s.subscribe(names(&["robot/x", "arm"]), options(false)).unwrap();
    assert_eq!(s.matching("robot/x"), vec![0]);
    assert_eq!(s.matching("arm"), vec![0]);
    assert_eq!(s.matching("robot/xy"), Vec::<u64>::new());
    assert_eq!(s.matching("robot/"), Vec::<u64>::new());
    assert_eq!(s.matching(""), Vec::<u64>::new());
}

#[test]
fn prefix_patterns_cover_every_name_that_starts_with_them() {
    let mut s = Subscriptions::new();
    s.subscribe(names(&["robot/"]), options(true)).unwrap();
    s.subscribe(names(&["robot/x"]), options(false)).unwrap();
    s.subscribe(names(&[""]), options(true)).unwrap();
    assert_eq!(s.matching("robot/x"), vec![0, 1, 2]);
    assert_eq!(s.matching("robot/"), vec![0, 2]);
    assert_eq!(s.matching("robot"), vec![2]);
    assert_eq!(s.matching("Robot/x"), vec![2]);
}

#[test]
fn ended_subscriptions_cover_nothing() {
    let mut s = Subscriptions::new();
    let a = s.subscribe(names(&["robot/"]), options(true)).unwrap();
    s.subscribe(names(&["robot/"]), options(true)).unwrap();
    s.unsubscribe(a);
    assert_eq!(s.matching("robot/x"), vec![1]);
    let live: Vec<u64> = s.in_force().iter().map(|x| x.id).collect();
    assert_eq!(live, vec![1]);
}

#[test]
fn reset_keeps_what_is_marked_to_persist() {
    let mut s = Subscriptions::new();
    let a = s.subscribe(names(&["a"]), options(false)).unwrap();
    let b = s.subscribe(names(&["b"]), options(false)).unwrap();
    let c = s.subscribe(names(&["c"]), options(false)).unwrap();
    let d = s.subscribe(names(&["d"]), options(false)).unwrap();
    assert!(s.mark_persistent(a, true));
    assert!(s.mark_persistent(c, true));
    assert!(s.mark_persistent(d, true));
    assert!(s.mark_persistent(d, false));
    assert!(!s.mark_persistent(SubscriptionHandle { id: 9 }, true));
    s.unsubscribe(c);
    s.reset();
    assert_eq!(s.len(), 1);
    assert!(s.get(a.id).unwrap().persist);
    assert!(s.get(b.id).is_none());
    assert!(s.get(c.id).is_none());
    assert!(s.get(d.id).is_none());
}

#[test]
fn covering_is_told_of_one_subscription() {
    let sub = Subscription {
        id: 4,
        patterns: names(&["a/", "b"]),
        options: options(true),
        persist: false,
        released: false,
    };
    assert!(subscription_covers(&sub, "a/1"));
    assert!(subscription_covers(&sub, "bcd"));
    assert!(!subscription_covers(&sub, "a"));
    let ended = Subscription { released: true, ..sub };
    assert!(!subscription_covers(&ended, "a/1"));
}

#[test]
fn strings_are_compared_by_their_characters() {
    assert!(str_eq("", ""));
    assert!(str_eq("caf\u{e9}", "caf\u{e9}"));
    assert!(!str_eq("cafe", "caf\u{e9}"));
    assert!(!str_eq("a", "ab"));
    assert!(!str_eq("ab", "a"));
    assert!(str_starts_with("robot/x", "robot/"));
    assert!(str_starts_with("robot/x", ""));
    assert!(str_starts_with("robot/x", "robot/x"));
    assert!(!str_starts_with("robot/x", "robot/xy"));
    assert!(!str_starts_with("robot/x", "Robot"));
    assert!(str_starts_with("\u{e9}t\u{e9}", "\u{e9}"));
}
