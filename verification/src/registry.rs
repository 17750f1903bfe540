//! The registry of topics: the one place that relates names, numbers and
//! types.

use vstd::prelude::*;
use vstd::string::StringExecFns;
use crate::error::{Error, ErrorView};
use crate::message_type::Type;
use crate::text::str_eq;
use crate::topic::{
    merge_properties, merged, properties_view, Property, PropertyView, Topic, TopicHandle, TopicView,
};

verus! {

/// What an announcement changed besides the announced topic itself.
#[derive(Debug, Clone, Copy, PartialEq, Eq, Structural)]
pub struct Announced {
    /// The number that the topic had before, where the announcement gave it
    /// another: values queued for that number are stale.
    pub superseded_id: Option<u64>,
    /// Whether the client had declared the topic with another type than the
    /// one announced. The announced type stands.
    pub type_conflict: bool,
}

/// Whether some topic in `ts` has the name `n`.
spec fn has_name(ts: Seq<Topic>, n: Seq<char>) -> bool {
    exists|i: int| 0 <= i < ts.len() && (#[trigger] ts[i]).name@ == n
}

/// The place in `ts` of a topic with the name `n`.
spec fn place_of(ts: Seq<Topic>, n: Seq<char>) -> int {
    choose|i: int| 0 <= i < ts.len() && (#[trigger] ts[i]).name@ == n
}

/// No two topics in `ts` share a name, none has an empty name, and no two
/// share a number.
spec fn topics_wf(ts: Seq<Topic>) -> bool {
    &&& forall|i: int| 0 <= i < ts.len() ==> (#[trigger] ts[i]).name@.len() > 0
    &&& forall|i: int, j: int|
        0 <= i < ts.len()
            && 0 <= j < ts.len()
            && (#[trigger] ts[i]).name@ == (#[trigger] ts[j]).name@
            ==> i == j
    &&& forall|i: int, j: int|
        0 <= i < ts.len() && 0 <= j < ts.len() && (#[trigger] ts[i]).id.is_some() && ts[i].id == (
        #[trigger] ts[j]).id ==> i == j
}

/// The topics in `ts` by name.
spec fn by_name(ts: Seq<Topic>) -> Map<Seq<char>, TopicView> {
    Map::new(|n: Seq<char>| has_name(ts, n), |n: Seq<char>| ts[place_of(ts, n)]@)
}

/// Under distinct names the topic at place `i` is the one recorded under
/// its name.
proof fn lemma_by_name_at(ts: Seq<Topic>, i: int)
    requires
        topics_wf(ts),
        0 <= i < ts.len(),
    ensures
        by_name(ts).dom().contains(ts[i].name@),
        by_name(ts)[ts[i].name@] == ts[i]@,
        place_of(ts, ts[i].name@) == i,
{
    let n = ts[i].name@;
    assert(has_name(ts, n));
    let p = place_of(ts, n);
    assert(0 <= p < ts.len() && ts[p].name@ == n);
}

/// A name that no topic in `ts` has is not recorded.
proof fn lemma_by_name_absent(ts: Seq<Topic>, n: Seq<char>)
    requires
        forall|i: int| 0 <= i < ts.len() ==> (#[trigger] ts[i]).name@ != n,
    ensures
        !by_name(ts).dom().contains(n),
{
}

/// A recorded name is the name of the topic at its place.
proof fn lemma_by_name_present(ts: Seq<Topic>, n: Seq<char>)
    requires
        by_name(ts).dom().contains(n),
    ensures
        0 <= place_of(ts, n) < ts.len(),
        ts[place_of(ts, n)].name@ == n,
        by_name(ts)[n] == ts[place_of(ts, n)]@,
{
}

/// Whether the topics recorded in `m` are consistent: each under its own
/// name, none under the empty name, no number given twice.
pub open spec fn topics_consistent(m: Map<Seq<char>, TopicView>) -> bool {
    &&& forall|n: Seq<char>| m.dom().contains(n) ==> (#[trigger] m[n]).name == n && n.len() > 0
    &&& forall|a: Seq<char>, b: Seq<char>|
        m.dom().contains(a) && m.dom().contains(b) && (#[trigger] m[a]).id.is_some() && m[a].id == (
        #[trigger] m[b]).id ==> a == b
}

/// The number recorded in `m` for the name `n`.
pub open spec fn id_of(m: Map<Seq<char>, TopicView>, n: Seq<char>) -> Option<u64> {
    if m.dom().contains(n) {
        m[n].id
    } else {
        None
    }
}

/// Whether `m` records a topic with the number `id`.
pub open spec fn has_id(m: Map<Seq<char>, TopicView>, id: u64) -> bool {
    exists|n: Seq<char>| m.dom().contains(n) && (#[trigger] m[n]).id == Some(id)
}

/// The name of the topic that `m` records with the number `id`.
pub open spec fn name_of_id(m: Map<Seq<char>, TopicView>, id: u64) -> Seq<char> {
    choose|n: Seq<char>| m.dom().contains(n) && (#[trigger] m[n]).id == Some(id)
}

/// The type recorded in `m` for the number `id`.
pub open spec fn type_of_id(m: Map<Seq<char>, TopicView>, id: u64) -> Option<Type> {
    if has_id(m, id) {
        Some(m[name_of_id(m, id)].ty)
    } else {
        None
    }
}

/// Whether `m` records `name` under another type than `ty`.
pub open spec fn type_clash(m: Map<Seq<char>, TopicView>, name: Seq<char>, ty: Type) -> bool {
    m.dom().contains(name) && m[name].ty != ty
}

/// The record after the client declares `name` with type `ty`: a new
/// unnumbered topic, or the topic already there marked as declared.
pub open spec fn declared(m: Map<Seq<char>, TopicView>, name: Seq<char>, ty: Type) -> Map<
    Seq<char>,
    TopicView,
> {
    if m.dom().contains(name) {
        m.insert(name, TopicView { declared: true, ..m[name] })
    } else {
        m.insert(
            name,
            TopicView { name, id: None, ty, properties: Seq::empty(), declared: true },
        )
    }
}

/// The record after the server announces `name` with number `id`: the topic
/// stands under `name` with what the server said, and no other topic keeps
/// the number `id`.
pub open spec fn announced(
    m: Map<Seq<char>, TopicView>,
    name: Seq<char>,
    id: u64,
    ty: Type,
    properties: Seq<PropertyView>,
) -> Map<Seq<char>, TopicView> {
    Map::new(
        |n: Seq<char>| n == name || (m.dom().contains(n) && m[n].id != Some(id)),
        |n: Seq<char>|
            if n == name {
                TopicView {
                    name,
                    id: Some(id),
                    ty,
                    properties,
                    declared: m.dom().contains(name) && m[name].declared,
                }
            } else {
                m[n]
            },
    )
}

/// The record `m` without the topic that has the number `id`, unless that
/// topic's name is `name`.
pub open spec fn without_other_holder(m: Map<Seq<char>, TopicView>, name: Seq<char>, id: u64) -> Map<
    Seq<char>,
    TopicView,
> {
    Map::new(
        |n: Seq<char>| m.dom().contains(n) && (n == name || m[n].id != Some(id)),
        |n: Seq<char>| m[n],
    )
}

/// The record after the server withdraws the number `id`: the topic that
/// had it is gone.
pub open spec fn unannounced(m: Map<Seq<char>, TopicView>, id: u64) -> Map<Seq<char>, TopicView> {
    Map::new(|n: Seq<char>| m.dom().contains(n) && m[n].id != Some(id), |n: Seq<char>| m[n])
}

/// The record after the connection is lost: the topics that the client
/// declared stay, without a number; the others are gone.
pub open spec fn after_reset(m: Map<Seq<char>, TopicView>) -> Map<Seq<char>, TopicView> {
    Map::new(
        |n: Seq<char>| m.dom().contains(n) && m[n].declared,
        |n: Seq<char>| TopicView { id: None, ..m[n] },
    )
}

/// The number that `name` had in `m` where an announcement of `name` with
/// number `id` replaces it by another.
pub open spec fn superseded(m: Map<Seq<char>, TopicView>, name: Seq<char>, id: u64) -> Option<u64> {
    if m.dom().contains(name) && m[name].id.is_some() && m[name].id != Some(id) {
        m[name].id
    } else {
        None
    }
}

/// The handles in `hs`, each as its name and type.
pub open spec fn handles_view(hs: Seq<TopicHandle>) -> Seq<(Seq<char>, Type)> {
    hs.map_values(|h: TopicHandle| (h.name@, h.ty))
}

/// The declared topics among `listing`, each as its name and type, in
/// their order.
pub open spec fn declared_handles(listing: Seq<TopicView>) -> Seq<(Seq<char>, Type)> {
    listing.filter(|t: TopicView| t.declared).map_values(|t: TopicView| (t.name, t.ty))
}

/// The record with `updates` written into the properties of the topic
/// `name`, where it is recorded.
pub open spec fn with_properties(
    m: Map<Seq<char>, TopicView>,
    name: Seq<char>,
    updates: Seq<PropertyView>,
) -> Map<Seq<char>, TopicView> {
    if m.dom().contains(name) {
        m.insert(name, TopicView { properties: merged(m[name].properties, updates), ..m[name] })
    } else {
        m
    }
}

/// The registry of topics.
pub struct Registry {
    topics: Vec<Topic>,
}

impl Registry {
    /// Whether the registry is consistent.
    pub closed spec fn wf(&self) -> bool {
        topics_wf(self.topics@)
    }

    /// The topics recorded, by name.
    pub closed spec fn topics(&self) -> Map<Seq<char>, TopicView> {
        by_name(self.topics@)
    }

    /// A consistent registry records consistent topics.
    pub proof fn lemma_consistent(&self)
        requires
            self.wf(),
        ensures
            topics_consistent(self.topics()),
            self.topics().dom().finite(),
    {
        let ts = self.topics@;
        let m = self.topics();
        assert forall|n: Seq<char>| m.dom().contains(n) implies (#[trigger] m[n]).name == n
            && n.len() > 0 by {
            lemma_by_name_present(ts, n);
        }
        assert forall|a: Seq<char>, b: Seq<char>|
            m.dom().contains(a) && m.dom().contains(b) && (#[trigger] m[a]).id.is_some() && m[a].id
                == (#[trigger] m[b]).id implies a == b by {
            lemma_by_name_present(ts, a);
            lemma_by_name_present(ts, b);
        }
        lemma_names_finite(ts);
    }

    /// A registry without topics: nothing is recorded under any name, and
    /// the listing is empty.
    pub fn new() -> (r: Registry)
        ensures
            r.wf(),
            r.topics() == Map::<Seq<char>, TopicView>::empty(),
            r.listing() == Seq::<TopicView>::empty(),
    {
        let r = Registry { topics: Vec::new() };
        proof {
            assert(r.topics() =~= Map::<Seq<char>, TopicView>::empty());
            assert(r.listing() =~= Seq::<TopicView>::empty());
        }
        r
    }

    /// How many topics are recorded.
    pub fn len(&self) -> (n: usize)
        requires
            self.wf(),
        ensures
            n == self.topics().dom().len(),
    {
        proof {
            lemma_names_count(self.topics@);
        }
        self.topics.len()
    }

    /// The place of the topic named `name`.
    fn find_name(&self, name: &str) -> (r: Option<usize>)
        ensures
            match r {
                Some(i) => i < self.topics@.len() && self.topics@[i as int].name@ == name@,
                None => forall|i: int|
                    0 <= i < self.topics@.len() ==> (#[trigger] self.topics@[i]).name@ != name@,
            },
    {
        let mut i: usize = 0;
        while i < self.topics.len()
            invariant
                i <= self.topics@.len(),
                forall|k: int| 0 <= k < i ==> (#[trigger] self.topics@[k]).name@ != name@,
            decreases self.topics@.len() - i,
        {
            if str_eq(self.topics[i].name.as_str(), name) {
                return Some(i);
            }
            i += 1;
        }
        None
    }

    /// The place of the topic numbered `id`.
    fn find_id(&self, id: u64) -> (r: Option<usize>)
        ensures
            match r {
                Some(i) => i < self.topics@.len() && self.topics@[i as int].id == Some(id),
                None => forall|i: int|
                    0 <= i < self.topics@.len() ==> (#[trigger] self.topics@[i]).id != Some(id),
            },
    {
        let mut i: usize = 0;
        while i < self.topics.len()
            invariant
                i <= self.topics@.len(),
                forall|k: int| 0 <= k < i ==> (#[trigger] self.topics@[k]).id != Some(id),
            decreases self.topics@.len() - i,
        {
            match self.topics[i].id {
                Some(x) => {
                    if x == id {
                        return Some(i);
                    }
                },
                None => {},
            }
            i += 1;
        }
        None
    }

    /// The topic recorded under `name`, if there is one.
    pub fn get(&self, name: &str) -> (r: Option<&Topic>)
        requires
            self.wf(),
        ensures
            match r {
                Some(t) => self.topics().dom().contains(name@) && t@ == self.topics()[name@],
                None => !self.topics().dom().contains(name@),
            },
    {
        match self.find_name(name) {
            Some(i) => {
                proof {
                    lemma_by_name_at(self.topics@, i as int);
                }
                Some(&self.topics[i])
            },
            None => {
                proof {
                    lemma_by_name_absent(self.topics@, name@);
                }
                None
            },
        }
    }

    /// The number that the server gave the topic `name`; `None` where the
    /// topic is unknown or not yet announced.
    pub fn resolve_id(&self, name: &str) -> (r: Option<u64>)
        requires
            self.wf(),
        ensures
            r == id_of(self.topics(), name@),
    {
        match self.get(name) {
            Some(t) => t.id,
            None => None,
        }
    }

    /// The name of the topic numbered `id`, if there is one.
    pub fn resolve_name(&self, id: u64) -> (r: Option<&str>)
        requires
            self.wf(),
        ensures
            r.is_some() == has_id(self.topics(), id),
            r matches Some(n) ==> n@ == name_of_id(self.topics(), id),
    {
        proof {
            self.lemma_consistent();
        }
        match self.find_id(id) {
            Some(i) => {
                proof {
                    lemma_by_name_at(self.topics@, i as int);
                    let n = self.topics@[i as int].name@;
                    assert(self.topics().dom().contains(n) && self.topics()[n].id == Some(id));
                }
                Some(self.topics[i].name.as_str())
            },
            None => {
                proof {
                    if has_id(self.topics(), id) {
                        let n = name_of_id(self.topics(), id);
                        lemma_by_name_present(self.topics@, n);
                    }
                }
                None
            },
        }
    }

    /// The type of the topic numbered `id`, if there is one.
    pub fn resolve_type(&self, id: u64) -> (r: Option<Type>)
        requires
            self.wf(),
        ensures
            r == type_of_id(self.topics(), id),
    {
        match self.resolve_name(id) {
            Some(n) => {
                match self.get(n) {
                    Some(t) => Some(t.ty),
                    None => None,
                }
            },
            None => None,
        }
    }

    /// Declares the topic `name` with type `ty` for this client.
    ///
    /// An empty name is refused with the name. A name recorded under another
    /// type is refused as a type mismatch. Either way nothing changes.
    /// Otherwise the topic is recorded as declared, once however often it is
    /// declared.
    pub fn register_local_topic(&mut self, name: &str, ty: Type) -> (r: Result<TopicHandle, Error>)
        requires
            old(self).wf(),
        ensures
            final(self).wf(),
            r is Ok <==> name@.len() > 0 && !type_clash(old(self).topics(), name@, ty),
            r matches Ok(h) ==> h.name@ == name@ && h.ty == ty && final(self).topics() == declared(
                old(self).topics(),
                name@,
                ty,
            ),
            r matches Err(e) ==> final(self).topics() == old(self).topics() && e@ == (if name@.len()
                == 0 {
                ErrorView::InvalidMessageString(name@)
            } else {
                ErrorView::InvalidMessageType("topic is declared with another type"@)
            }),
    {
        if name.unicode_len() == 0 {
            return Err(Error::InvalidMessageString(String::from_str(name)));
        }
        match self.find_name(name) {
            Some(i) => {
                proof {
                    lemma_by_name_at(self.topics@, i as int);
                }
                if !type_eq(self.topics[i].ty, ty) {
                    return Err(Error::InvalidMessageType("topic is declared with another type"));
                }
                let ghost before = self.topics@;
                self.topics[i].declared = true;
                proof {
                    lemma_replaced(before, self.topics@, i as int);
                    assert(self.topics() =~= declared(old(self).topics(), name@, ty));
                }
            },
            None => {
                proof {
                    lemma_by_name_absent(self.topics@, name@);
                }
                let ghost before = self.topics@;
                self.topics.push(
                    Topic {
                        name: String::from_str(name),
                        id: None,
                        ty,
                        properties: Vec::new(),
                        declared: true,
                    },
                );
                proof {
                    assert(properties_view(Seq::<Property>::empty()) =~= Seq::<
                        PropertyView,
                    >::empty());
                    assert(self.topics@.drop_last() =~= before);
                    lemma_pushed(before, self.topics@);
                    assert(self.topics() =~= declared(old(self).topics(), name@, ty));
                }
            },
        }
        Ok(TopicHandle { name: String::from_str(name), ty })
    }

    /// Takes out the topic that has the number `id`, unless its name is
    /// `name`.
    fn displace(&mut self, name: &str, id: u64)
        requires
            old(self).wf(),
        ensures
            final(self).wf(),
            final(self).topics() == without_other_holder(old(self).topics(), name@, id),
    {
        let ghost m0 = self.topics();
        let ghost ts0 = self.topics@;
        proof {
            self.lemma_consistent();
        }
        match self.find_id(id) {
            Some(j) => {
                proof {
                    lemma_by_name_at(ts0, j as int);
                    lemma_only_holder(ts0, j as int);
                    assert forall|n: Seq<char>|
                        m0.dom().contains(n) && n != ts0[j as int].name@ implies m0[n].id != Some(
                        id,
                    ) by {
                        lemma_by_name_present(ts0, n);
                    }
                }
                if !str_eq(self.topics[j].name.as_str(), name) {
                    self.topics.remove(j);
                    proof {
                        lemma_removed(ts0, j as int);
                        assert(self.topics() =~= without_other_holder(m0, name@, id));
                    }
                } else {
                    proof {
                        assert(self.topics() =~= without_other_holder(m0, name@, id));
                    }
                }
            },
            None => {
                proof {
                    assert forall|n: Seq<char>| m0.dom().contains(n) implies m0[n].id != Some(
                        id,
                    ) by {
                        lemma_by_name_present(ts0, n);
                    }
                    assert(self.topics() =~= without_other_holder(m0, name@, id));
                }
            },
        }
    }

    /// Records under `name` the number, type and properties given, where no
    /// topic of another name has the number.
    fn put(&mut self, name: &str, id: u64, ty: Type, properties: Vec<Property>) -> (a: Announced)
        requires
            old(self).wf(),
            name@.len() > 0,
            forall|n: Seq<char>|
                old(self).topics().dom().contains(n) && n != name@ ==> (#[trigger] old(
                    self,
                ).topics()[n]).id != Some(id),
        ensures
            final(self).wf(),
            final(self).topics() == old(self).topics().insert(
                name@,
                TopicView {
                    name: name@,
                    id: Some(id),
                    ty,
                    properties: properties_view(properties@),
                    declared: old(self).topics().dom().contains(name@) && old(
                        self,
                    ).topics()[name@].declared,
                },
            ),
            a.superseded_id == superseded(old(self).topics(), name@, id),
            a.type_conflict == (type_clash(old(self).topics(), name@, ty) && old(
                self,
            ).topics()[name@].declared),
    {
        let ghost ts1 = self.topics@;
        let ghost m1 = self.topics();
        let found = self.find_name(name);
        proof {
            assert forall|k: int| 0 <= k < ts1.len() && (#[trigger] ts1[k]).name@
                != name@ implies ts1[k].id != Some(id) by {
                lemma_by_name_at(ts1, k);
                assert(m1[ts1[k].name@].id != Some(id));
            }
        }
        match found {
            Some(i) => {
                proof {
                    lemma_by_name_at(ts1, i as int);
                }
                let superseded_id = match self.topics[i].id {
                    Some(x) => if x != id {
                        Some(x)
                    } else {
                        None
                    },
                    None => None,
                };
                let type_conflict = self.topics[i].declared && !type_eq(self.topics[i].ty, ty);
                self.topics[i].id = Some(id);
                self.topics[i].ty = ty;
                self.topics[i].properties = properties;
                proof {
                    lemma_replaced(ts1, self.topics@, i as int);
                }
                Announced { superseded_id, type_conflict }
            },
            None => {
                proof {
                    lemma_by_name_absent(ts1, name@);
                }
                self.topics.push(
                    Topic {
                        name: String::from_str(name),
                        id: Some(id),
                        ty,
                        properties,
                        declared: false,
                    },
                );
                proof {
                    assert(self.topics@.drop_last() =~= ts1);
                    lemma_pushed(ts1, self.topics@);
                }
                Announced { superseded_id: None, type_conflict: false }
            },
        }
    }

    /// Records that the server announced the topic `name` with number `id`,
    /// type `ty` and the given properties. The server decides: the topic
    /// takes the number, the type and the properties announced, and a topic
    /// of another name that had the number loses its place.
    ///
    /// An empty name is refused with the name, and nothing changes.
    pub fn on_announce(&mut self, name: &str, id: u64, ty: Type, properties: Vec<Property>) -> (r:
        Result<Announced, Error>)
        requires
            old(self).wf(),
        ensures
            final(self).wf(),
            r is Ok <==> name@.len() > 0,
            r matches Err(e) ==> final(self).topics() == old(self).topics() && e@
                == ErrorView::InvalidMessageString(name@),
            r matches Ok(a) ==> final(self).topics() == announced(
                old(self).topics(),
                name@,
                id,
                ty,
                properties_view(properties@),
            ) && a.superseded_id == superseded(old(self).topics(), name@, id) && a.type_conflict
                == (type_clash(old(self).topics(), name@, ty) && old(
                self,
            ).topics()[name@].declared),
    {
        if name.unicode_len() == 0 {
            return Err(Error::InvalidMessageString(String::from_str(name)));
        }
        let ghost m0 = self.topics();
        let ghost props = properties_view(properties@);
        self.displace(name, id);
        let a = self.put(name, id, ty, properties);
        proof {
            assert(self.topics() =~= announced(m0, name@, id, ty, props));
        }
        Ok(a)
    }

    /// Records that the server withdrew the number `id`: the topic that had
    /// it is taken out and returned. Where no topic has the number, nothing
    /// changes.
    pub fn on_unannounce(&mut self, id: u64) -> (r: Option<Topic>)
        requires
            old(self).wf(),
        ensures
            final(self).wf(),
            final(self).topics() == unannounced(old(self).topics(), id),
            r.is_some() == has_id(old(self).topics(), id),
            r matches Some(t) ==> t@ == old(self).topics()[name_of_id(old(self).topics(), id)],
    {
        let ghost m0 = self.topics();
        let ghost ts0 = self.topics@;
        proof {
            self.lemma_consistent();
        }
        match self.find_id(id) {
            Some(j) => {
                proof {
                    lemma_by_name_at(ts0, j as int);
                    lemma_only_holder(ts0, j as int);
                    lemma_removed(ts0, j as int);
                    let n = ts0[j as int].name@;
                    assert(m0.dom().contains(n) && m0[n].id == Some(id));
                }
                let t = self.topics.remove(j);
                proof {
                    assert forall|n: Seq<char>|
                        m0.dom().contains(n) && n != ts0[j as int].name@ implies m0[n].id != Some(
                        id,
                    ) by {
                        lemma_by_name_present(ts0, n);
                    }
                    assert(self.topics() =~= unannounced(m0, id));
                }
                Some(t)
            },
            None => {
                proof {
                    assert forall|n: Seq<char>| m0.dom().contains(n) implies m0[n].id != Some(
                        id,
                    ) by {
                        lemma_by_name_present(ts0, n);
                    }
                    assert(self.topics() =~= unannounced(m0, id));
                }
                None
            },
        }
    }

    /// Forgets what the server said, as after a lost connection: the topics
    /// that this client declared stay, without a number, to be announced
    /// again; all others are taken out.
    pub fn reset(&mut self)
        requires
            old(self).wf(),
        ensures
            final(self).wf(),
            final(self).topics() == after_reset(old(self).topics()),
    {
        let ghost m0 = self.topics();
        let mut i: usize = 0;
        while i < self.topics.len()
            invariant
                i <= self.topics@.len(),
                topics_wf(self.topics@),
                after_reset(by_name(self.topics@)) == after_reset(m0),
                forall|k: int|
                    0 <= k < i ==> (#[trigger] self.topics@[k]).declared
                        && self.topics@[k].id.is_none(),
            decreases self.topics@.len() - i,
        {
            let ghost ts = self.topics@;
            proof {
                lemma_by_name_at(ts, i as int);
            }
            if self.topics[i].declared {
                self.topics[i].id = None;
                proof {
                    lemma_replaced(ts, self.topics@, i as int);
                    assert(after_reset(by_name(self.topics@)) =~= after_reset(by_name(ts)));
                }
                i += 1;
            } else {
                self.topics.remove(i);
                proof {
                    lemma_removed(ts, i as int);
                    assert(after_reset(by_name(self.topics@)) =~= after_reset(by_name(ts)));
                }
            }
        }
        proof {
            let ts = self.topics@;
            assert forall|n: Seq<char>| by_name(ts).dom().contains(n) implies by_name(ts)[n].declared
                && by_name(ts)[n].id.is_none() by {
                lemma_by_name_present(ts, n);
            }
            assert(after_reset(by_name(ts)) =~= by_name(ts));
        }
    }

    /// The topics recorded, in the order in which the registry holds them.
    pub closed spec fn listing(&self) -> Seq<TopicView> {
        self.topics@.map_values(|t: Topic| t@)
    }

    /// The listing holds each recorded topic once, as it is recorded.
    pub proof fn lemma_listing(&self)
        requires
            self.wf(),
        ensures
            self.listing().len() == self.topics().dom().len(),
            forall|i: int|
                0 <= i < self.listing().len() ==> self.topics().dom().contains(
                    (#[trigger] self.listing()[i]).name,
                ) && self.topics()[self.listing()[i].name] == self.listing()[i],
            forall|n: Seq<char>|
                self.topics().dom().contains(n) ==> exists|i: int|
                    0 <= i < self.listing().len() && (#[trigger] self.listing()[i]).name == n,
            forall|i: int, j: int|
                0 <= i < self.listing().len() && 0 <= j < self.listing().len() && (
                #[trigger] self.listing()[i]).name == (#[trigger] self.listing()[j]).name ==> i
                    == j,
    {
        let ts = self.topics@;
        lemma_names_count(ts);
        assert forall|i: int| 0 <= i < self.listing().len() implies self.topics().dom().contains(
            (#[trigger] self.listing()[i]).name,
        ) && self.topics()[self.listing()[i].name] == self.listing()[i] by {
            lemma_by_name_at(ts, i);
        }
        assert forall|n: Seq<char>| self.topics().dom().contains(n) implies exists|i: int|
            0 <= i < self.listing().len() && (#[trigger] self.listing()[i]).name == n by {
            lemma_by_name_present(ts, n);
            let p = place_of(ts, n);
            assert(self.listing()[p].name == n);
        }
        assert forall|i: int, j: int|
            0 <= i < self.listing().len() && 0 <= j < self.listing().len() && (
            #[trigger] self.listing()[i]).name == (#[trigger] self.listing()[j]).name implies i
            == j by {
            assert(ts[i].name@ == ts[j].name@);
        }
    }

    /// The topics that this client declared, each by its name and type, in
    /// the order of the listing.
    pub fn declared_topics(&self) -> (r: Vec<TopicHandle>)
        ensures
            handles_view(r@) == declared_handles(self.listing()),
    {
        let ghost is_declared = |t: TopicView| t.declared;
        let ghost handle = |t: TopicView| (t.name, t.ty);
        let mut r: Vec<TopicHandle> = Vec::new();
        let mut i: usize = 0;
        proof {
            assert(self.listing().take(0) =~= Seq::<TopicView>::empty());
            reveal(Seq::filter);
            assert(handles_view(r@) =~= self.listing().take(0).filter(is_declared).map_values(
                handle,
            ));
        }
        while i < self.topics.len()
            invariant
                i <= self.topics@.len(),
                is_declared == |t: TopicView| t.declared,
                handle == |t: TopicView| (t.name, t.ty),
                handles_view(r@) == self.listing().take(i as int).filter(is_declared).map_values(
                    handle,
                ),
            decreases self.topics@.len() - i,
        {
            let t = &self.topics[i];
            proof {
                assert(self.listing()[i as int] == t@);
                assert(self.listing().take(i + 1) =~= self.listing().take(i as int).push(t@));
                crate::seqs::lemma_filter_push(self.listing().take(i as int), t@, is_declared);
            }
            if t.declared {
                let h = TopicHandle { name: t.name.clone(), ty: t.ty };
                proof {
                    assert(h.name@ == t.name@);
                    assert(handles_view(r@.push(h)) =~= handles_view(r@).push((t@.name, t@.ty)));
                }
                r.push(h);
                proof {
                    assert(handles_view(r@) =~= self.listing().take(i + 1).filter(
                        is_declared,
                    ).map_values(handle));
                }
            }
            i += 1;
        }
        proof {
            assert(self.listing().take(i as int) =~= self.listing());
        }
        r
    }

    /// Writes `updates` into the properties of the topic `name`, one after
    /// the other: for each key the last write stands. Says whether the topic
    /// is recorded; where it is not, nothing changes.
    pub fn set_properties(&mut self, name: &str, updates: &Vec<Property>) -> (known: bool)
        requires
            old(self).wf(),
        ensures
            final(self).wf(),
            known == old(self).topics().dom().contains(name@),
            final(self).topics() == with_properties(
                old(self).topics(),
                name@,
                properties_view(updates@),
            ),
    {
        match self.find_name(name) {
            Some(i) => {
                let ghost before = self.topics@;
                proof {
                    lemma_by_name_at(before, i as int);
                }
                merge_properties(&mut self.topics[i].properties, updates);
                proof {
                    lemma_replaced(before, self.topics@, i as int);
                    assert(self.topics() =~= with_properties(
                        old(self).topics(),
                        name@,
                        properties_view(updates@),
                    ));
                }
                true
            },
            None => {
                proof {
                    lemma_by_name_absent(self.topics@, name@);
                }
                false
            },
        }
    }
}

/// Whether two types are the same.
pub fn type_eq(a: Type, b: Type) -> (same: bool)
    ensures
        same == (a == b),
{
    a == b
}

/// What is recorded after the topic at place `i` was replaced by one of the
/// same name whose number clashes with no other.
proof fn lemma_replaced(before: Seq<Topic>, after: Seq<Topic>, i: int)
    requires
        topics_wf(before),
        0 <= i < before.len(),
        after.len() == before.len(),
        after[i].name@ == before[i].name@,
        forall|k: int| 0 <= k < before.len() && k != i ==> after[k] == before[k],
        after[i].id.is_some() ==> forall|k: int|
            0 <= k < before.len() && k != i ==> (#[trigger] before[k]).id != after[i].id,
    ensures
        topics_wf(after),
        by_name(after) == by_name(before).insert(before[i].name@, after[i]@),
{
    assert forall|k: int| 0 <= k < after.len() implies (#[trigger] after[k]).name@
        == before[k].name@ by {}
    assert(topics_wf(after)) by {
        assert forall|a: int, b: int|
            0 <= a < after.len() && 0 <= b < after.len() && (#[trigger] after[a]).name@ == (
            #[trigger] after[b]).name@ implies a == b by {
            assert(before[a].name@ == before[b].name@);
        }
        assert forall|a: int, b: int|
            0 <= a < after.len() && 0 <= b < after.len() && (#[trigger] after[a]).id.is_some()
                && after[a].id == (#[trigger] after[b]).id implies a == b by {
            if a != i && b != i {
                assert(before[a].id == before[b].id);
            } else if a == i && b != i {
                assert(before[b].id != after[i].id);
            } else if b == i && a != i {
                assert(before[a].id != after[i].id);
            }
        }
        assert forall|k: int| 0 <= k < after.len() implies (#[trigger] after[k]).name@.len()
            > 0 by {
            assert(before[k].name@.len() > 0);
        }
    }
    let goal = by_name(before).insert(before[i].name@, after[i]@);
    assert forall|n: Seq<char>| by_name(after).dom().contains(n) <==> goal.dom().contains(n) by {
        if has_name(after, n) {
            let k = place_of(after, n);
            assert(before[k].name@ == n);
        }
        if has_name(before, n) {
            let k = place_of(before, n);
            assert(after[k].name@ == n);
        }
        if n == before[i].name@ {
            assert(after[i].name@ == n);
        }
    }
    assert forall|n: Seq<char>| by_name(after).dom().contains(n) implies by_name(after)[n]
        == goal[n] by {
        let k = place_of(after, n);
        lemma_by_name_at(after, k);
        lemma_by_name_at(before, k);
    }
    assert(by_name(after) =~= goal);
}

/// What is recorded after a topic with a new name, and a number that
/// clashes with no other, was added at the end.
proof fn lemma_pushed(before: Seq<Topic>, after: Seq<Topic>)
    requires
        topics_wf(before),
        after.len() == before.len() + 1,
        after.drop_last() == before,
        after.last().name@.len() > 0,
        forall|k: int| 0 <= k < before.len() ==> (#[trigger] before[k]).name@ != after.last().name@,
        after.last().id.is_some() ==> forall|k: int|
            0 <= k < before.len() ==> (#[trigger] before[k]).id != after.last().id,
    ensures
        topics_wf(after),
        by_name(after) == by_name(before).insert(after.last().name@, after.last()@),
{
    let last = after.last();
    assert forall|k: int| 0 <= k < before.len() implies (#[trigger] after[k]) == before[k] by {
        assert(after.drop_last()[k] == after[k]);
    }
    assert(topics_wf(after)) by {
        assert forall|a: int, b: int|
            0 <= a < after.len() && 0 <= b < after.len() && (#[trigger] after[a]).name@ == (
            #[trigger] after[b]).name@ implies a == b by {
            if a < before.len() && b < before.len() {
                assert(before[a].name@ == before[b].name@);
            } else if a < before.len() {
                assert(before[a].name@ != last.name@);
            } else if b < before.len() {
                assert(before[b].name@ != last.name@);
            }
        }
        assert forall|a: int, b: int|
            0 <= a < after.len() && 0 <= b < after.len() && (#[trigger] after[a]).id.is_some()
                && after[a].id == (#[trigger] after[b]).id implies a == b by {
            if a < before.len() && b < before.len() {
                assert(before[a].id == before[b].id);
            } else if a < before.len() {
                assert(before[a].id != last.id);
            } else if b < before.len() {
                assert(before[b].id != last.id);
            }
        }
        assert forall|k: int| 0 <= k < after.len() implies (#[trigger] after[k]).name@.len()
            > 0 by {
            if k < before.len() {
                assert(before[k].name@.len() > 0);
            }
        }
    }
    let goal = by_name(before).insert(last.name@, last@);
    assert forall|n: Seq<char>| by_name(after).dom().contains(n) <==> goal.dom().contains(n) by {
        if has_name(after, n) {
            let k = place_of(after, n);
            if k < before.len() {
                assert(before[k].name@ == n);
            }
        }
        if has_name(before, n) {
            let k = place_of(before, n);
            assert(after[k].name@ == n);
        }
        if n == last.name@ {
            assert(after[after.len() - 1].name@ == n);
        }
    }
    assert forall|n: Seq<char>| by_name(after).dom().contains(n) implies by_name(after)[n]
        == goal[n] by {
        let k = place_of(after, n);
        lemma_by_name_at(after, k);
        if k < before.len() {
            lemma_by_name_at(before, k);
        }
    }
    assert(by_name(after) =~= goal);
}

/// What is recorded after the topic at place `i` was taken out.
proof fn lemma_removed(before: Seq<Topic>, i: int)
    requires
        topics_wf(before),
        0 <= i < before.len(),
    ensures
        topics_wf(before.remove(i)),
        by_name(before.remove(i)) == by_name(before).remove(before[i].name@),
{
    let after = before.remove(i);
    assert forall|k: int| 0 <= k < after.len() implies (#[trigger] after[k]) == before[if k
        < i {
        k
    } else {
        k + 1
    }] by {}
    assert(topics_wf(after)) by {
        assert forall|a: int, b: int|
            0 <= a < after.len() && 0 <= b < after.len() && (#[trigger] after[a]).name@ == (
            #[trigger] after[b]).name@ implies a == b by {
            let a2 = if a < i { a } else { a + 1 };
            let b2 = if b < i { b } else { b + 1 };
            assert(before[a2].name@ == before[b2].name@);
        }
        assert forall|a: int, b: int|
            0 <= a < after.len() && 0 <= b < after.len() && (#[trigger] after[a]).id.is_some()
                && after[a].id == (#[trigger] after[b]).id implies a == b by {
            let a2 = if a < i { a } else { a + 1 };
            let b2 = if b < i { b } else { b + 1 };
            assert(before[a2].id == before[b2].id);
        }
        assert forall|k: int| 0 <= k < after.len() implies (#[trigger] after[k]).name@.len()
            > 0 by {
            let k2 = if k < i { k } else { k + 1 };
            assert(before[k2].name@.len() > 0);
        }
    }
    let goal = by_name(before).remove(before[i].name@);
    assert forall|n: Seq<char>| by_name(after).dom().contains(n) <==> goal.dom().contains(n) by {
        if has_name(after, n) {
            let k = place_of(after, n);
            let k2 = if k < i { k } else { k + 1 };
            assert(before[k2].name@ == n);
            if n == before[i].name@ {
                assert(k2 == i);
            }
        }
        if has_name(before, n) && n != before[i].name@ {
            let k = place_of(before, n);
            let k2 = if k < i { k } else { k - 1 };
            assert(after[k2].name@ == n);
        }
    }
    assert forall|n: Seq<char>| by_name(after).dom().contains(n) implies by_name(after)[n]
        == goal[n] by {
        let k = place_of(after, n);
        let k2 = if k < i { k } else { k + 1 };
        lemma_by_name_at(after, k);
        lemma_by_name_at(before, k2);
    }
    assert(by_name(after) =~= goal);
}

/// Under distinct numbers the topic at place `j` alone has its number.
proof fn lemma_only_holder(ts: Seq<Topic>, j: int)
    requires
        topics_wf(ts),
        0 <= j < ts.len(),
        ts[j].id.is_some(),
    ensures
        forall|k: int| 0 <= k < ts.len() && k != j ==> (#[trigger] ts[k]).id != ts[j].id,
{
}

/// The names in `ts` are finitely many.
proof fn lemma_names_finite(ts: Seq<Topic>)
    ensures
        by_name(ts).dom().finite(),
    decreases ts.len(),
{
    if ts.len() == 0 {
        assert(by_name(ts).dom() =~= Set::<Seq<char>>::empty());
    } else {
        let rest = ts.drop_last();
        lemma_names_finite(rest);
        let last = ts.last();
        assert forall|n: Seq<char>|
            by_name(ts).dom().contains(n) <==> by_name(rest).dom().insert(last.name@).contains(
                n,
            ) by {
            if has_name(ts, n) {
                let i = place_of(ts, n);
                if i < rest.len() {
                    assert(rest[i].name@ == n);
                }
            }
            if has_name(rest, n) {
                let i = place_of(rest, n);
                assert(ts[i].name@ == n);
            }
            if n == last.name@ {
                assert(ts[ts.len() - 1].name@ == n);
            }
        }
        assert(by_name(ts).dom() =~= by_name(rest).dom().insert(last.name@));
    }
}

/// Under distinct names there are as many names as topics.
proof fn lemma_names_count(ts: Seq<Topic>)
    requires
        topics_wf(ts),
    ensures
        by_name(ts).dom().finite(),
        by_name(ts).dom().len() == ts.len(),
    decreases ts.len(),
{
    lemma_names_finite(ts);
    if ts.len() == 0 {
        assert(by_name(ts).dom() =~= Set::<Seq<char>>::empty());
    } else {
        let rest = ts.drop_last();
        assert(topics_wf(rest)) by {
            assert forall|i: int| 0 <= i < rest.len() implies (#[trigger] rest[i]) == ts[i] by {}
        }
        lemma_names_count(rest);
        let last = ts.last();
        assert forall|n: Seq<char>|
            by_name(ts).dom().contains(n) <==> by_name(rest).dom().insert(last.name@).contains(
                n,
            ) by {
            if has_name(ts, n) {
                let i = place_of(ts, n);
                if i < rest.len() {
                    assert(rest[i].name@ == n);
                }
            }
            if has_name(rest, n) {
                let i = place_of(rest, n);
                assert(ts[i].name@ == n);
            }
            if n == last.name@ {
                assert(ts[ts.len() - 1].name@ == n);
            }
        }
        assert(by_name(ts).dom() =~= by_name(rest).dom().insert(last.name@));
        if has_name(rest, last.name@) {
            let i = place_of(rest, last.name@);
            assert(ts[i].name@ == ts[ts.len() - 1].name@);
            assert(false);
        }
    }
}

/// After the server announces a topic, its name resolves to the announced
/// number and the number resolves to the announced type, whatever was
/// recorded before.
pub proof fn lemma_announce_resolves(
    m: Map<Seq<char>, TopicView>,
    name: Seq<char>,
    id: u64,
    ty: Type,
    properties: Seq<PropertyView>,
)
    ensures
        id_of(announced(m, name, id, ty, properties), name) == Some(id),
        has_id(announced(m, name, id, ty, properties), id),
        name_of_id(announced(m, name, id, ty, properties), id) == name,
        type_of_id(announced(m, name, id, ty, properties), id) == Some(ty),
{
    let after = announced(m, name, id, ty, properties);
    assert(after.dom().contains(name) && after[name].id == Some(id));
    let n = name_of_id(after, id);
    assert(after.dom().contains(n) && after[n].id == Some(id));
}

/// A topic that the client declared and the server then announced with the
/// same type resolves to the announced number and type, stays declared, and
/// the announcement reports no conflict of types.
pub proof fn lemma_declare_then_announce(
    m: Map<Seq<char>, TopicView>,
    name: Seq<char>,
    id: u64,
    ty: Type,
    properties: Seq<PropertyView>,
)
    requires
        !type_clash(m, name, ty),
    ensures
        id_of(announced(declared(m, name, ty), name, id, ty, properties), name) == Some(id),
        type_of_id(announced(declared(m, name, ty), name, id, ty, properties), id) == Some(ty),
        announced(declared(m, name, ty), name, id, ty, properties)[name].declared,
        !type_clash(declared(m, name, ty), name, ty),
{
    lemma_announce_resolves(declared(m, name, ty), name, id, ty, properties);
}

/// After the server withdraws a number, no topic has it, and the name that
/// had it resolves to nothing.
pub proof fn lemma_unannounce_forgets(m: Map<Seq<char>, TopicView>, id: u64)
    ensures
        !has_id(unannounced(m, id), id),
        type_of_id(unannounced(m, id), id).is_none(),
        forall|n: Seq<char>| id_of(m, n) == Some(id) ==> id_of(unannounced(m, id), n).is_none(),
        forall|n: Seq<char>|
            id_of(m, n) != Some(id) ==> id_of(unannounced(m, id), n) == id_of(m, n),
{
}

/// A topic announced and then withdrawn no longer resolves.
pub proof fn lemma_announce_then_unannounce(
    m: Map<Seq<char>, TopicView>,
    name: Seq<char>,
    id: u64,
    ty: Type,
    properties: Seq<PropertyView>,
)
    ensures
        id_of(unannounced(announced(m, name, id, ty, properties), id), name).is_none(),
        type_of_id(unannounced(announced(m, name, id, ty, properties), id), id).is_none(),
{
    lemma_announce_resolves(m, name, id, ty, properties);
    lemma_unannounce_forgets(announced(m, name, id, ty, properties), id);
}

/// Declaring a topic twice with the same type records what declaring it
/// once records.
pub proof fn lemma_declare_idempotent(m: Map<Seq<char>, TopicView>, name: Seq<char>, ty: Type)
    requires
        !type_clash(m, name, ty),
    ensures
        !type_clash(declared(m, name, ty), name, ty),
        declared(declared(m, name, ty), name, ty) == declared(m, name, ty),
{
    assert(declared(declared(m, name, ty), name, ty) =~= declared(m, name, ty));
}

/// Declaring, announcing, withdrawing and resetting keep the record
/// consistent: every topic under its own non-empty name, no number held by
/// two topics.
pub proof fn lemma_steps_keep_consistent(
    m: Map<Seq<char>, TopicView>,
    name: Seq<char>,
    id: u64,
    ty: Type,
    properties: Seq<PropertyView>,
)
    requires
        topics_consistent(m),
        name.len() > 0,
    ensures
        topics_consistent(declared(m, name, ty)),
        topics_consistent(announced(m, name, id, ty, properties)),
        topics_consistent(unannounced(m, id)),
        topics_consistent(after_reset(m)),
{
    let d = declared(m, name, ty);
    assert forall|a: Seq<char>, b: Seq<char>|
        d.dom().contains(a) && d.dom().contains(b) && (#[trigger] d[a]).id.is_some() && d[a].id == (
        #[trigger] d[b]).id implies a == b by {
        if a != b {
            if a == name {
                assert(m.dom().contains(a) && d[a].id == m[a].id);
                assert(d[b] == m[b]);
            } else if b == name {
                assert(m.dom().contains(b) && d[b].id == m[b].id);
                assert(d[a] == m[a]);
            } else {
                assert(d[a] == m[a] && d[b] == m[b]);
            }
        }
    }
    let an = announced(m, name, id, ty, properties);
    assert forall|a: Seq<char>, b: Seq<char>|
        an.dom().contains(a) && an.dom().contains(b) && (#[trigger] an[a]).id.is_some() && an[a].id
            == (#[trigger] an[b]).id implies a == b by {
        if a != b && a != name && b != name {
            assert(an[a] == m[a] && an[b] == m[b]);
        }
    }
    let u = unannounced(m, id);
    assert forall|a: Seq<char>, b: Seq<char>|
        u.dom().contains(a) && u.dom().contains(b) && (#[trigger] u[a]).id.is_some() && u[a].id == (
        #[trigger] u[b]).id implies a == b by {
        assert(u[a] == m[a] && u[b] == m[b]);
    }
}

} // verus!
