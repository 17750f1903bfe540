//! Subscriptions: the client's interest in topics, by name or by prefix.

use vstd::prelude::*;
use crate::error::{Error, ErrorView};
use crate::seqs::{lemma_filter_all, lemma_filter_push, lemma_filter_remove};
use crate::text::{starts_with, str_eq, str_starts_with};

verus! {

/// How the server is to deliver the updates of a subscription.
#[derive(Debug, Clone, Copy, PartialEq, Eq, Structural)]
pub struct SubscriptionOptions {
    /// The least time between two updates, in milliseconds.
    pub periodic: u64,
    /// Deliver every update, not only the latest.
    pub all: bool,
    /// Take each pattern as a prefix of topic names, not as a whole name.
    pub prefix: bool,
    /// Deliver what is known of the topics, without their values.
    pub topicsonly: bool,
}

/// One subscription as the client holds it.
#[derive(Debug, Clone, PartialEq, Eq)]
pub struct Subscription {
    /// The number the client gave it.
    pub id: u64,
    /// The topic names, or prefixes of names, asked for.
    pub patterns: Vec<String>,
    pub options: SubscriptionOptions,
    /// Whether it is to be sent again after a lost connection.
    pub persist: bool,
    /// Whether the client has ended it and waits for the server to confirm.
    pub released: bool,
}

/// What a [`Subscription`] holds.
pub struct SubscriptionView {
    pub id: u64,
    pub patterns: Seq<Seq<char>>,
    pub options: SubscriptionOptions,
    pub persist: bool,
    pub released: bool,
}

/// The patterns in `ps` as sequences of characters.
pub open spec fn patterns_view(ps: Seq<String>) -> Seq<Seq<char>> {
    ps.map_values(|p: String| p@)
}

impl View for Subscription {
    type V = SubscriptionView;

    open spec fn view(&self) -> SubscriptionView {
        SubscriptionView {
            id: self.id,
            patterns: patterns_view(self.patterns@),
            options: self.options,
            persist: self.persist,
            released: self.released,
        }
    }
}

/// What a caller holds of a subscription it made: its number.
#[derive(Debug, Clone, Copy, PartialEq, Eq, Structural)]
pub struct SubscriptionHandle {
    pub id: u64,
}

/// Whether `pattern` covers the topic name `name`: as a prefix where
/// `prefix` is set, else as the whole name.
pub open spec fn pattern_covers(pattern: Seq<char>, prefix: bool, name: Seq<char>) -> bool {
    if prefix {
        starts_with(name, pattern)
    } else {
        pattern == name
    }
}

/// Whether the subscription `s` is in force and one of its patterns covers
/// `name`.
pub open spec fn covers(s: SubscriptionView, name: Seq<char>) -> bool {
    !s.released && exists|j: int|
        0 <= j < s.patterns.len()
            && pattern_covers(#[trigger] s.patterns[j], s.options.prefix, name)
}

/// Whether some subscription in `subs` has the number `id`.
pub open spec fn has_number(subs: Seq<SubscriptionView>, id: u64) -> bool {
    exists|i: int| 0 <= i < subs.len() && (#[trigger] subs[i]).id == id
}

/// Whether the subscriptions in `subs` are consistent: no number twice, no
/// subscription without a pattern.
pub open spec fn subscriptions_consistent(subs: Seq<SubscriptionView>) -> bool {
    &&& forall|i: int, j: int|
        0 <= i < subs.len() && 0 <= j < subs.len() && (#[trigger] subs[i]).id == (
        #[trigger] subs[j]).id ==> i == j
    &&& forall|i: int| 0 <= i < subs.len() ==> (#[trigger] subs[i]).patterns.len() > 0
}

/// The subscription `s` marked as ended if its number is `id`.
pub open spec fn ended(s: SubscriptionView, id: u64) -> SubscriptionView {
    if s.id == id {
        SubscriptionView { released: true, ..s }
    } else {
        s
    }
}

/// The numbers of the subscriptions in `subs` that cover `name`, in their
/// order.
pub open spec fn covering(subs: Seq<SubscriptionView>, name: Seq<char>) -> Seq<u64> {
    subs.filter(|s: SubscriptionView| covers(s, name)).map_values(|s: SubscriptionView| s.id)
}

/// Whether a subscription outlives a lost connection: it is to persist and
/// was not ended.
pub open spec fn outlives(s: SubscriptionView) -> bool {
    s.persist && !s.released
}

/// The views of the subscriptions in `subs`, in their order.
pub open spec fn views(subs: Seq<Subscription>) -> Seq<SubscriptionView> {
    subs.map_values(|s: Subscription| s@)
}

/// The numbers of the subscriptions in `subs`.
spec fn numbers(subs: Seq<SubscriptionView>) -> Set<int> {
    Set::new(|x: int| exists|i: int| 0 <= i < subs.len() && (#[trigger] subs[i]).id as int == x)
}

/// There are at most as many numbers as subscriptions.
proof fn lemma_numbers_bound(subs: Seq<SubscriptionView>)
    ensures
        numbers(subs).finite(),
        numbers(subs).len() <= subs.len(),
    decreases subs.len(),
{
    if subs.len() == 0 {
        assert(numbers(subs) =~= Set::<int>::empty());
    } else {
        let rest = subs.drop_last();
        lemma_numbers_bound(rest);
        let last = subs.last().id as int;
        assert forall|x: int| numbers(subs).contains(x) <==> numbers(rest).insert(last).contains(
            x,
        ) by {
            if numbers(subs).contains(x) {
                let i = choose|i: int| 0 <= i < subs.len() && (#[trigger] subs[i]).id as int == x;
                if i < rest.len() {
                    assert(rest[i].id as int == x);
                }
            }
            if numbers(rest).contains(x) {
                let i = choose|i: int| 0 <= i < rest.len() && (#[trigger] rest[i]).id as int == x;
                assert(subs[i].id as int == x);
            }
            if x == last {
                assert(subs[subs.len() - 1].id as int == x);
            }
        }
        assert(numbers(subs) =~= numbers(rest).insert(last));
    }
}

/// Where every number below `c` is taken, at least `c` subscriptions are
/// held.
proof fn lemma_room(subs: Seq<SubscriptionView>, c: int)
    requires
        0 <= c <= u64::MAX + 1,
        forall|k: u64| k < c ==> has_number(subs, k),
    ensures
        c <= subs.len(),
{
    lemma_numbers_bound(subs);
    vstd::set_lib::lemma_int_range(0, c);
    let below = vstd::set_lib::set_int_range(0, c);
    assert forall|x: int| below.contains(x) implies numbers(subs).contains(x) by {
        let k = x as u64;
        assert(has_number(subs, k));
        let i = choose|i: int| 0 <= i < subs.len() && (#[trigger] subs[i]).id == k;
        assert(subs[i].id as int == x);
    }
    vstd::set_lib::lemma_len_subset(below, numbers(subs));
}

/// The subscriptions of one client.
pub struct Subscriptions {
    subs: Vec<Subscription>,
}

impl View for Subscriptions {
    type V = Seq<SubscriptionView>;

    closed spec fn view(&self) -> Seq<SubscriptionView> {
        views(self.subs@)
    }
}

impl Subscriptions {
    /// Whether the subscriptions are consistent.
    pub open spec fn wf(&self) -> bool {
        subscriptions_consistent(self@)
    }

    /// No subscriptions.
    pub fn new() -> (r: Subscriptions)
        ensures
            r.wf(),
            r@ == Seq::<SubscriptionView>::empty(),
    {
        let r = Subscriptions { subs: Vec::new() };
        proof {
            assert(r@ =~= Seq::<SubscriptionView>::empty());
        }
        r
    }

    /// How many subscriptions are held, ended ones included.
    pub fn len(&self) -> (n: usize)
        ensures
            n == self@.len(),
    {
        self.subs.len()
    }

    /// The place of the subscription numbered `id`.
    fn find(&self, id: u64) -> (r: Option<usize>)
        ensures
            match r {
                Some(i) => i < self@.len() && self@[i as int].id == id,
                None => !has_number(self@, id),
            },
    {
        let mut i: usize = 0;
        while i < self.subs.len()
            invariant
                i <= self.subs@.len(),
                self@.len() == self.subs@.len(),
                forall|k: int| 0 <= k < i ==> (#[trigger] self@[k]).id != id,
            decreases self.subs@.len() - i,
        {
            if self.subs[i].id == id {
                return Some(i);
            }
            i += 1;
        }
        None
    }

    /// The subscription numbered `id`, if it is held.
    pub fn get(&self, id: u64) -> (r: Option<&Subscription>)
        ensures
            r.is_some() == has_number(self@, id),
            r matches Some(s) ==> s.id == id && self@.contains(s@),
    {
        match self.find(id) {
            Some(i) => {
                proof {
                    assert(self@[i as int] == self.subs@[i as int]@);
                }
                Some(&self.subs[i])
            },
            None => None,
        }
    }

    /// The least number that no held subscription has.
    fn fresh_id(&self) -> (id: u64)
        ensures
            !has_number(self@, id),
            forall|k: u64| k < id ==> has_number(self@, k),
    {
        let n: usize = self.subs.len();
        let mut c: u64 = 0;
        loop
            invariant
                n == self@.len(),
                forall|k: u64| k < c ==> has_number(self@, k),
            decreases self@.len() - c,
        {
            match self.find(c) {
                Some(_) => {
                    proof {
                        assert forall|k: u64| k < c + 1 implies has_number(self@, k) by {
                            if k == c {
                                assert(has_number(self@, c));
                            }
                        }
                        lemma_room(self@, c + 1);
                    }
                    c += 1;
                },
                None => {
                    return c;
                },
            }
        }
    }

    /// Takes up a subscription to `patterns` and gives it the least number
    /// that no held subscription has, ended ones included. It is not marked
    /// to persist.
    ///
    /// Without a pattern it is refused, and nothing changes.
    pub fn subscribe(&mut self, patterns: Vec<String>, options: SubscriptionOptions) -> (r: Result<
        SubscriptionHandle,
        Error,
    >)
        requires
            old(self).wf(),
        ensures
            final(self).wf(),
            r is Ok <==> patterns@.len() > 0,
            r matches Err(e) ==> final(self)@ == old(self)@ && e@ == ErrorView::InvalidMessageType(
                "a subscription needs a pattern"@,
            ),
            r matches Ok(h) ==> !has_number(old(self)@, h.id) && (forall|k: u64|
                k < h.id ==> has_number(old(self)@, k)) && final(self)@ == old(self)@.push(
                SubscriptionView {
                    id: h.id,
                    patterns: patterns_view(patterns@),
                    options,
                    persist: false,
                    released: false,
                },
            ),
    {
        if patterns.len() == 0 {
            return Err(Error::InvalidMessageType("a subscription needs a pattern"));
        }
        let id = self.fresh_id();
        let ghost before = self@;
        let sub = Subscription { id, patterns, options, persist: false, released: false };
        self.subs.push(sub);
        proof {
            assert(self@ =~= before.push(sub@));
            assert forall|i: int, j: int|
                0 <= i < self@.len() && 0 <= j < self@.len() && (#[trigger] self@[i]).id == (
                #[trigger] self@[j]).id implies i == j by {
                if i < before.len() && j < before.len() {
                    assert(before[i].id == before[j].id);
                } else if i < before.len() {
                    assert(before[i].id == id);
                } else if j < before.len() {
                    assert(before[j].id == id);
                }
            }
            assert forall|i: int| 0 <= i < self@.len() implies (#[trigger] self@[i]).patterns.len()
                > 0 by {
                if i < before.len() {
                    assert(before[i].patterns.len() > 0);
                }
            }
        }
        Ok(SubscriptionHandle { id })
    }

    /// Marks the subscription of `handle` to be sent again, or not, after a
    /// lost connection. Says whether such a subscription is held.
    pub fn mark_persistent(&mut self, handle: SubscriptionHandle, persist: bool) -> (held: bool)
        requires
            old(self).wf(),
        ensures
            final(self).wf(),
            held == has_number(old(self)@, handle.id),
            final(self)@ == old(self)@.map_values(
                |s: SubscriptionView|
                    if s.id == handle.id {
                        SubscriptionView { persist, ..s }
                    } else {
                        s
                    },
            ),
    {
        let ghost before = self@;
        let ghost goal = before.map_values(
            |s: SubscriptionView|
                if s.id == handle.id {
                    SubscriptionView { persist, ..s }
                } else {
                    s
                },
        );
        match self.find(handle.id) {
            Some(i) => {
                self.subs[i].persist = persist;
                proof {
                    assert forall|k: int| 0 <= k < before.len() implies (#[trigger] self@[k])
                        == goal[k] by {
                        if k != i {
                            assert(before[k].id != before[i as int].id);
                        }
                    }
                    assert(self@ =~= goal);
                    lemma_same_numbers_consistent(before, self@);
                }
                true
            },
            None => {
                proof {
                    assert(self@ =~= goal);
                }
                false
            },
        }
    }

    /// Ends the subscription of `handle`. It stays held, and its number
    /// taken, until `release`. Says whether a subscription in force was
    /// ended.
    pub fn unsubscribe(&mut self, handle: SubscriptionHandle) -> (was_active: bool)
        requires
            old(self).wf(),
        ensures
            final(self).wf(),
            was_active == (exists|i: int|
                0 <= i < old(self)@.len() && (#[trigger] old(self)@[i]).id == handle.id && !old(
                    self,
                )@[i].released),
            final(self)@ == old(self)@.map_values(|s: SubscriptionView| ended(s, handle.id)),
    {
        let ghost before = self@;
        let ghost goal = before.map_values(|s: SubscriptionView| ended(s, handle.id));
        match self.find(handle.id) {
            Some(i) => {
                let was_active = !self.subs[i].released;
                self.subs[i].released = true;
                proof {
                    assert forall|k: int| 0 <= k < before.len() implies (#[trigger] self@[k])
                        == goal[k] by {
                        if k != i {
                            assert(before[k].id != before[i as int].id);
                        }
                    }
                    assert(self@ =~= goal);
                    lemma_same_numbers_consistent(before, self@);
                    if was_active {
                        assert(before[i as int].id == handle.id && !before[i as int].released);
                    } else {
                        assert forall|k: int|
                            0 <= k < before.len() && (#[trigger] before[k]).id
                                == handle.id implies before[k].released by {
                            assert(before[k].id == before[i as int].id);
                        }
                    }
                }
                was_active
            },
            None => {
                proof {
                    assert(self@ =~= goal);
                }
                false
            },
        }
    }

    /// Lets go of the ended subscription numbered `id`, as when the server
    /// has confirmed its end or the time to wait for that has passed: its
    /// number is free again. A subscription in force stays. Says whether one
    /// was let go.
    pub fn release(&mut self, id: u64) -> (let_go: bool)
        requires
            old(self).wf(),
        ensures
            final(self).wf(),
            let_go == (exists|i: int|
                0 <= i < old(self)@.len() && (#[trigger] old(self)@[i]).id == id && old(
                    self,
                )@[i].released),
            final(self)@ == old(self)@.filter(|s: SubscriptionView| !(s.id == id && s.released)),
            let_go ==> !has_number(final(self)@, id),
    {
        let ghost before = self@;
        let ghost stays = |s: SubscriptionView| !(s.id == id && s.released);
        match self.find(id) {
            Some(i) => {
                if self.subs[i].released {
                    self.subs.remove(i);
                    proof {
                        assert(self@ =~= before.remove(i as int));
                        lemma_removed_consistent(before, i as int);
                        lemma_filter_remove(before, i as int, stays);
                        lemma_filter_all(self@, stays);
                        assert(before[i as int].id == id && before[i as int].released);
                    }
                    true
                } else {
                    proof {
                        assert forall|k: int| 0 <= k < before.len() implies stays(
                            #[trigger] before[k],
                        ) by {
                            if before[k].id == id {
                                assert(before[k].id == before[i as int].id);
                            }
                        }
                        lemma_filter_all(before, stays);
                    }
                    false
                }
            },
            None => {
                proof {
                    lemma_filter_all(before, stays);
                }
                false
            },
        }
    }

    /// Drops what a lost connection ends: the subscriptions that are marked
    /// to persist and were not ended stay, in their order; all others go.
    pub fn reset(&mut self)
        requires
            old(self).wf(),
        ensures
            final(self).wf(),
            final(self)@ == old(self)@.filter(|s: SubscriptionView| outlives(s)),
    {
        let ghost keep = |s: SubscriptionView| outlives(s);
        let ghost before = self@;
        let mut i: usize = 0;
        while i < self.subs.len()
            invariant
                i <= self.subs@.len(),
                self@.len() == self.subs@.len(),
                self.wf(),
                keep == |s: SubscriptionView| outlives(s),
                self@.filter(keep) == before.filter(keep),
                forall|k: int| 0 <= k < i ==> keep(#[trigger] self@[k]),
            decreases self.subs@.len() - i,
        {
            let ghost now = self@;
            if self.subs[i].persist && !self.subs[i].released {
                i += 1;
            } else {
                self.subs.remove(i);
                proof {
                    assert(self@ =~= now.remove(i as int));
                    lemma_removed_consistent(now, i as int);
                    lemma_filter_remove(now, i as int, keep);
                }
            }
        }
        proof {
            lemma_filter_all(self@, keep);
        }
    }

    /// The numbers of the subscriptions in force that cover the topic name
    /// `name`, in the order in which they were taken up.
    pub fn matching(&self, name: &str) -> (ids: Vec<u64>)
        ensures
            ids@ == covering(self@, name@),
    {
        let ghost hit = |s: SubscriptionView| covers(s, name@);
        let ghost number = |s: SubscriptionView| s.id;
        let mut ids: Vec<u64> = Vec::new();
        let mut i: usize = 0;
        proof {
            assert(self@.take(0) =~= Seq::<SubscriptionView>::empty());
            reveal(Seq::filter);
            assert(self@.take(0).filter(hit).map_values(number) =~= Seq::<u64>::empty());
        }
        while i < self.subs.len()
            invariant
                i <= self.subs@.len(),
                self@.len() == self.subs@.len(),
                hit == |s: SubscriptionView| covers(s, name@),
                number == |s: SubscriptionView| s.id,
                ids@ == self@.take(i as int).filter(hit).map_values(number),
            decreases self.subs@.len() - i,
        {
            let sub = &self.subs[i];
            proof {
                assert(self@[i as int] == sub@);
                assert(self@.take(i + 1) =~= self@.take(i as int).push(sub@));
                lemma_filter_push(self@.take(i as int), sub@, hit);
            }
            if subscription_covers(sub, name) {
                ids.push(sub.id);
                proof {
                    assert(ids@ =~= self@.take(i + 1).filter(hit).map_values(number));
                }
            }
            i += 1;
        }
        proof {
            assert(self@.take(i as int) =~= self@);
        }
        ids
    }

    /// Copies of the subscriptions in force, in the order in which they
    /// were taken up.
    pub fn in_force(&self) -> (r: Vec<Subscription>)
        ensures
            views(r@) == self@.filter(|s: SubscriptionView| !s.released),
    {
        let ghost live = |s: SubscriptionView| !s.released;
        let mut r: Vec<Subscription> = Vec::new();
        let mut i: usize = 0;
        proof {
            assert(self@.take(0) =~= Seq::<SubscriptionView>::empty());
            reveal(Seq::filter);
            assert(views(r@) =~= self@.take(0).filter(live));
        }
        while i < self.subs.len()
            invariant
                i <= self.subs@.len(),
                self@.len() == self.subs@.len(),
                live == |s: SubscriptionView| !s.released,
                views(r@) == self@.take(i as int).filter(live),
            decreases self.subs@.len() - i,
        {
            let sub = &self.subs[i];
            proof {
                assert(self@[i as int] == sub@);
                assert(self@.take(i + 1) =~= self@.take(i as int).push(sub@));
                lemma_filter_push(self@.take(i as int), sub@, live);
            }
            if !sub.released {
                let copy = Subscription {
                    id: sub.id,
                    patterns: crate::seqs::clone_strings(&sub.patterns),
                    options: sub.options,
                    persist: sub.persist,
                    released: false,
                };
                proof {
                    assert(copy@ == sub@);
                    assert(views(r@.push(copy)) =~= views(r@).push(copy@));
                }
                r.push(copy);
            }
            i += 1;
        }
        proof {
            assert(self@.take(i as int) =~= self@);
        }
        r
    }
}

/// Whether the subscription `sub` is in force and one of its patterns covers
/// `name`.
pub fn subscription_covers(sub: &Subscription, name: &str) -> (r: bool)
    ensures
        r == covers(sub@, name@),
{
    if sub.released {
        return false;
    }
    let mut j: usize = 0;
    while j < sub.patterns.len()
        invariant
            j <= sub.patterns@.len(),
            !sub.released,
            forall|k: int|
                0 <= k < j ==> !pattern_covers(
                    #[trigger] sub@.patterns[k],
                    sub.options.prefix,
                    name@,
                ),
        decreases sub.patterns@.len() - j,
    {
        let pattern = sub.patterns[j].as_str();
        proof {
            assert(sub@.patterns[j as int] == pattern@);
        }
        let hit = if sub.options.prefix {
            str_starts_with(name, pattern)
        } else {
            str_eq(pattern, name)
        };
        if hit {
            return true;
        }
        j += 1;
    }
    false
}

/// Subscriptions that differ only in their marks are as consistent as
/// before.
proof fn lemma_same_numbers_consistent(before: Seq<SubscriptionView>, after: Seq<SubscriptionView>)
    requires
        subscriptions_consistent(before),
        after.len() == before.len(),
        forall|k: int|
            0 <= k < before.len() ==> (#[trigger] after[k]).id == before[k].id && after[k].patterns
                == before[k].patterns,
    ensures
        subscriptions_consistent(after),
{
    assert forall|i: int, j: int|
        0 <= i < after.len() && 0 <= j < after.len() && (#[trigger] after[i]).id == (
        #[trigger] after[j]).id implies i == j by {
        assert(before[i].id == before[j].id);
    }
    assert forall|i: int| 0 <= i < after.len() implies (#[trigger] after[i]).patterns.len()
        > 0 by {
        assert(before[i].patterns.len() > 0);
    }
}

/// Taking one subscription out leaves the others consistent, and none of
/// them has its number.
proof fn lemma_removed_consistent(before: Seq<SubscriptionView>, i: int)
    requires
        subscriptions_consistent(before),
        0 <= i < before.len(),
    ensures
        subscriptions_consistent(before.remove(i)),
        !has_number(before.remove(i), before[i].id),
{
    let after = before.remove(i);
    assert forall|a: int, b: int|
        0 <= a < after.len() && 0 <= b < after.len() && (#[trigger] after[a]).id == (
        #[trigger] after[b]).id implies a == b by {
        let a2 = if a < i { a } else { a + 1 };
        let b2 = if b < i { b } else { b + 1 };
        assert(before[a2].id == before[b2].id);
    }
    assert forall|k: int| 0 <= k < after.len() implies (#[trigger] after[k]).patterns.len()
        > 0 by {
        let k2 = if k < i { k } else { k + 1 };
        assert(before[k2].patterns.len() > 0);
    }
    assert forall|k: int| 0 <= k < after.len() implies (#[trigger] after[k]).id
        != before[i].id by {
        let k2 = if k < i { k } else { k + 1 };
        if before[k2].id == before[i].id {
            assert(k2 == i);
        }
    }
}

} // verus!
