//! Topics: named, typed data points that the server numbers.

use vstd::prelude::*;
use crate::message_type::Type;

verus! {

/// One property of a topic: a key and its value as structured text.
#[derive(Debug, Clone, PartialEq, Eq)]
pub struct Property {
    pub key: String,
    pub value: String,
}

/// What a [`Property`] holds.
pub struct PropertyView {
    pub key: Seq<char>,
    pub value: Seq<char>,
}

impl View for Property {
    type V = PropertyView;

    open spec fn view(&self) -> PropertyView {
        PropertyView { key: self.key@, value: self.value@ }
    }
}

/// The properties in `ps`, in their order.
pub open spec fn properties_view(ps: Seq<Property>) -> Seq<PropertyView> {
    ps.map_values(|p: Property| p@)
}

/// One topic as the registry mirrors it.
#[derive(Debug, Clone, PartialEq, Eq)]
pub struct Topic {
    /// The name, by which the server knows the topic.
    pub name: String,
    /// The number the server gave, absent until it announces the topic.
    pub id: Option<u64>,
    /// The type of the topic's values.
    pub ty: Type,
    /// The properties last recorded.
    pub properties: Vec<Property>,
    /// Whether this client declared the topic itself.
    pub declared: bool,
}

/// What a [`Topic`] holds.
pub struct TopicView {
    pub name: Seq<char>,
    pub id: Option<u64>,
    pub ty: Type,
    pub properties: Seq<PropertyView>,
    pub declared: bool,
}

impl View for Topic {
    type V = TopicView;

    open spec fn view(&self) -> TopicView {
        TopicView {
            name: self.name@,
            id: self.id,
            ty: self.ty,
            properties: properties_view(self.properties@),
            declared: self.declared,
        }
    }
}

/// What a caller holds of a topic it declared: the name and the type it
/// declared it with.
#[derive(Debug, Clone, PartialEq, Eq)]
pub struct TopicHandle {
    pub name: String,
    pub ty: Type,
}

/// Whether some property in `ps` has the key `key`.
pub open spec fn has_key(ps: Seq<PropertyView>, key: Seq<char>) -> bool {
    exists|i: int| 0 <= i < ps.len() && (#[trigger] ps[i]).key == key
}

/// The first place in `ps` of a property with the key `key`.
pub open spec fn key_place(ps: Seq<PropertyView>, key: Seq<char>) -> int {
    choose|i: int| first_with_key(ps, key, i)
}

/// The properties `ps` with `p` written: in the place of the first property
/// of the same key, or at the end where there is none.
pub open spec fn written(ps: Seq<PropertyView>, p: PropertyView) -> Seq<PropertyView> {
    if has_key(ps, p.key) {
        ps.update(key_place(ps, p.key), p)
    } else {
        ps.push(p)
    }
}

/// The properties `ps` with each of `updates` written, one after the
/// other: for each key the last write stands.
pub open spec fn merged(ps: Seq<PropertyView>, updates: Seq<PropertyView>) -> Seq<PropertyView>
    decreases updates.len(),
{
    if updates.len() == 0 {
        ps
    } else {
        written(merged(ps, updates.drop_last()), updates.last())
    }
}

/// The first place in `ps` of a property with the key `key`.
fn find_key(ps: &Vec<Property>, key: &str) -> (r: Option<usize>)
    ensures
        r.is_some() == has_key(properties_view(ps@), key@),
        r matches Some(i) ==> i == key_place(properties_view(ps@), key@) && i < ps@.len(),
{
    let ghost all = properties_view(ps@);
    let mut i: usize = 0;
    while i < ps.len()
        invariant
            i <= ps@.len(),
            all == properties_view(ps@),
            forall|k: int| 0 <= k < i ==> (#[trigger] all[k]).key != key@,
        decreases ps@.len() - i,
    {
        if crate::text::str_eq(ps[i].key.as_str(), key) {
            proof {
                assert(all[i as int].key == key@);
                assert(first_with_key(all, key@, i as int));
                let c = key_place(all, key@);
                if c < i {
                    assert(all[c].key != key@);
                }
                if i < c {
                    assert(all[i as int].key != key@);
                }
            }
            return Some(i);
        }
        i += 1;
    }
    None
}

/// Writes `p` into `ps`: in the place of the first property of the same
/// key, or at the end where there is none.
pub fn write_property(ps: &mut Vec<Property>, p: Property)
    ensures
        properties_view(final(ps)@) == written(properties_view(old(ps)@), p@),
{
    let ghost before = properties_view(ps@);
    match find_key(ps, p.key.as_str()) {
        Some(i) => {
            ps[i] = p;
            proof {
                assert(properties_view(ps@) =~= before.update(i as int, p@));
            }
        },
        None => {
            ps.push(p);
            proof {
                assert(properties_view(ps@) =~= before.push(p@));
            }
        },
    }
}

/// Writes each of `updates` into `ps`, one after the other.
pub fn merge_properties(ps: &mut Vec<Property>, updates: &Vec<Property>)
    ensures
        properties_view(final(ps)@) == merged(properties_view(old(ps)@), properties_view(updates@)),
{
    let ghost base = properties_view(ps@);
    let ghost ups = properties_view(updates@);
    let mut i: usize = 0;
    proof {
        assert(ups.take(0) =~= Seq::<PropertyView>::empty());
    }
    while i < updates.len()
        invariant
            i <= updates@.len(),
            ups == properties_view(updates@),
            properties_view(ps@) == merged(base, ups.take(i as int)),
        decreases updates@.len() - i,
    {
        let p = Property { key: updates[i].key.clone(), value: updates[i].value.clone() };
        proof {
            assert(p@ == ups[i as int]);
            assert(ups.take(i + 1).drop_last() =~= ups.take(i as int));
            assert(ups.take(i + 1).last() == ups[i as int]);
        }
        write_property(ps, p);
        i += 1;
    }
    proof {
        assert(ups.take(i as int) =~= ups);
    }
}

/// Whether `i` is the first place in `ps` of a property with the key `key`.
pub open spec fn first_with_key(ps: Seq<PropertyView>, key: Seq<char>, i: int) -> bool {
    0 <= i < ps.len() && ps[i].key == key && forall|k: int|
        0 <= k < i ==> (#[trigger] ps[k]).key != key
}

/// Before a place with the key there is a first place with it.
proof fn lemma_first_below(ps: Seq<PropertyView>, key: Seq<char>, w: int)
    requires
        0 <= w < ps.len(),
        ps[w].key == key,
    ensures
        exists|i: int| first_with_key(ps, key, i),
    decreases w,
{
    if exists|k: int| 0 <= k < w && (#[trigger] ps[k]).key == key {
        let k = choose|k: int| 0 <= k < w && (#[trigger] ps[k]).key == key;
        lemma_first_below(ps, key, k);
    } else {
        assert(first_with_key(ps, key, w));
    }
}

/// Where the key occurs, `key_place` is the first place with it.
pub proof fn lemma_key_place(ps: Seq<PropertyView>, key: Seq<char>)
    requires
        has_key(ps, key),
    ensures
        first_with_key(ps, key, key_place(ps, key)),
{
    let w = choose|i: int| 0 <= i < ps.len() && (#[trigger] ps[i]).key == key;
    lemma_first_below(ps, key, w);
    let i = choose|i: int| first_with_key(ps, key, i);
    assert(first_with_key(ps, key, i));
}

/// After a property was written, its key has the value written.
pub proof fn lemma_written_stands(ps: Seq<PropertyView>, p: PropertyView)
    ensures
        has_key(written(ps, p), p.key),
        written(ps, p)[key_place(written(ps, p), p.key)] == p,
{
    let w = written(ps, p);
    let c = if has_key(ps, p.key) {
        key_place(ps, p.key)
    } else {
        ps.len() as int
    };
    if has_key(ps, p.key) {
        lemma_key_place(ps, p.key);
    }
    assert(w[c] == p);
    assert forall|k: int| 0 <= k < c implies (#[trigger] w[k]).key != p.key by {
        assert(w[k] == ps[k]);
    }
    assert(first_with_key(w, p.key, c));
    lemma_key_place(w, p.key);
    let d = key_place(w, p.key);
    if d < c {
        assert(w[d].key != p.key);
    }
    if c < d {
        assert(w[c].key != p.key);
    }
}

} // verus!
