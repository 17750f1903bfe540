use nt_client::error::Error;
use nt_client::message_type::Type;
use nt_client::registry::Registry;
use nt_client::topic::Property;

fn prop(key: &str, value: &str) -> Property {
    Property { key: key.to_string(), value: value.to_string() }
}

#[test]
fn declared_then_announced_topic_resolves() {
    let mut r = Registry::new();
    let h = r.register_local_topic("A", Type::Int).unwrap();
    assert_eq!(h.name, "A");
    assert_eq!(h.ty, Type::Int);
    assert_eq!(r.resolve_id("A"), None);
    let a = r.on_announce("A", 7, Type::Int, vec![]).unwrap();
    assert_eq!(a.superseded_id, None);
    assert!(!a.type_conflict);
    assert_eq!(r.resolve_id("A"), Some(7));
    assert_eq!(r.resolve_type(7), Some(Type::Int));
    assert_eq!(r.resolve_name(7), Some("A"));
    assert!(r.get("A").unwrap().declared);
    assert_eq!(r.len(), 1);
}

#[test]
fn unannounce_forgets_the_topic() {
    let mut r = Registry::new();
    r.register_local_topic("A", Type::Int).unwrap();
    r.on_announce("A", 7, Type::Int, vec![]).unwrap();
    let gone = r.on_unannounce(7).unwrap();
    assert_eq!(gone.name, "A");
    assert_eq!(gone.id, Some(7));
    assert_eq!(r.resolve_id("A"), None);
    assert_eq!(r.resolve_type(7), None);
    assert_eq!(r.resolve_name(7), None);
    assert!(r.get("A").is_none());
    assert_eq!(r.len(), 0);
}

#[test]
fn unannounce_of_an_unknown_number_changes_nothing() {
    let mut r = Registry::new();
    r.on_announce("A", 7, Type::Int, vec![]).unwrap();
    assert!(r.on_unannounce(8).is_none());
    assert_eq!(r.resolve_id("A"), Some(7));
    assert_eq!(r.len(), 1);
}

#[test]
fn declaring_twice_is_declaring_once() {
    let mut r = Registry::new();
    r.register_local_topic("A", Type::Double).unwrap();
    r.register_local_topic("A", Type::Double).unwrap();
    assert_eq!(r.len(), 1);
    let t = r.get("A").unwrap();
    assert_eq!(t.ty, Type::Double);
    assert_eq!(t.id, None);
    assert!(t.declared);
    assert!(t.properties.is_empty());
}

#[test]
fn declaring_under_another_type_is_refused() {
    let mut r = Registry::new();
    r.register_local_topic("A", Type::Double).unwrap();
    match r.register_local_topic("A", Type::Int) {
        Err(Error::InvalidMessageType(_)) => {}
        other => panic!("unexpected {:?}", other),
    }
    assert_eq!(r.get("A").unwrap().ty, Type::Double);
    // String and Json share a code, but are two types.
    r.register_local_topic("S", Type::String).unwrap();
    assert!(r.register_local_topic("S", Type::Json).is_err());
}

#[test]
fn empty_names_are_refused() {
    let mut r = Registry::new();
    match r.register_local_topic("", Type::Int) {
        Err(Error::InvalidMessageString(s)) => assert_eq!(s, ""),
        other => panic!("unexpected {:?}", other),
    }
    match r.on_announce("", 1, Type::Int, vec![]) {
        Err(Error::InvalidMessageString(s)) => assert_eq!(s, ""),
        other => panic!("unexpected {:?}", other),
    }
    assert_eq!(r.len(), 0);
}

#[test]
fn a_new_number_supersedes_the_old_one() {
    let mut r = Registry::new();
    r.on_announce("A", 7, Type::Int, vec![]).unwrap();
    let a = r.on_announce("A", 9, Type::Int, vec![]).unwrap();
    assert_eq!(a.superseded_id, Some(7));
    assert_eq!(r.resolve_id("A"), Some(9));
    assert_eq!(r.resolve_type(7), None);
    assert_eq!(r.resolve_type(9), Some(Type::Int));
    let again = r.on_announce("A", 9, Type::Int, vec![]).unwrap();
    assert_eq!(again.superseded_id, None);
    assert_eq!(r.len(), 1);
}

#[test]
fn a_number_given_to_another_name_displaces_its_holder() {
    let mut r = Registry::new();
    r.on_announce("A", 7, Type::Int, vec![]).unwrap();
    r.on_announce("B", 8, Type::Double, vec![]).unwrap();
    r.on_announce("C", 7, Type::String, vec![]).unwrap();
    assert_eq!(r.resolve_id("A"), None);
    assert!(r.get("A").is_none());
    assert_eq!(r.resolve_id("B"), Some(8));
    assert_eq!(r.resolve_id("C"), Some(7));
    assert_eq!(r.resolve_type(7), Some(Type::String));
    assert_eq!(r.resolve_name(7), Some("C"));
    assert_eq!(r.len(), 2);
}

#[test]
fn the_announced_type_stands_and_the_conflict_is_told() {
    let mut r = Registry::new();
    r.register_local_topic("A", Type::Int).unwrap();
    let a = r.on_announce("A", 3, Type::Double, vec![]).unwrap();
    assert!(a.type_conflict);
    assert_eq!(r.resolve_type(3), Some(Type::Double));
    assert!(r.get("A").unwrap().declared);
    // A topic that the client did not declare has no conflict.
    r.on_announce("B", 4, Type::Int, vec![]).unwrap();
    let b = r.on_announce("B", 4, Type::Double, vec![]).unwrap();
    assert!(!b.type_conflict);
    assert!(!r.get("B").unwrap().declared);
}

#[test]
fn announced_properties_are_recorded() {
    let mut r = Registry::new();
    r.on_announce("A", 1, Type::Int, vec![prop("persistent", "true")]).unwrap();
    assert_eq!(r.get("A").unwrap().properties, vec![prop("persistent", "true")]);
    r.on_announce("A", 1, Type::Int, vec![prop("retained", "false")]).unwrap();
    assert_eq!(r.get("A").unwrap().properties, vec![prop("retained", "false")]);
}

#[test]
fn the_last_write_of_a_property_stands() {
    let mut r = Registry::new();
    r.on_announce("A", 1, Type::Int, vec![prop("persistent", "true"), prop("x", "1")]).unwrap();
    assert!(r.set_properties("A", &vec![prop("x", "2"), prop("y", "3"), prop("x", "4")]));
    assert_eq!(
        r.get("A").unwrap().properties,
        vec![prop("persistent", "true"), prop("x", "4"), prop("y", "3")]
    );
    assert!(!r.set_properties("B", &vec![prop("x", "2")]));
    assert!(r.get("B").is_none());
}

#[test]
fn reset_keeps_declared_topics_without_their_numbers() {
    let mut r = Registry::new();
    r.register_local_topic("mine", Type::Int).unwrap();
    r.on_announce("mine", 1, Type::Int, vec![]).unwrap();
    r.on_announce("theirs", 2, Type::Double, vec![]).unwrap();
    r.register_local_topic("waiting", Type::String).unwrap();
    r.reset();
    assert_eq!(r.len(), 2);
    assert_eq!(r.resolve_id("mine"), None);
    assert_eq!(r.get("mine").unwrap().ty, Type::Int);
    assert!(r.get("theirs").is_none());
    assert_eq!(r.get("waiting").unwrap().id, None);
    assert_eq!(r.resolve_type(1), None);
    assert_eq!(r.resolve_type(2), None);
}

#[test]
fn declared_topics_are_listed_in_order() {
    let mut r = Registry::new();
    r.register_local_topic("b", Type::Int).unwrap();
    r.on_announce("x", 2, Type::Double, vec![]).unwrap();
    r.register_local_topic("a", Type::String).unwrap();
    let listed: Vec<(String, Type)> =
        r.declared_topics().into_iter().map(|h| (h.name, h.ty)).collect();
    assert_eq!(listed, vec![("b".to_string(), Type::Int), ("a".to_string(), Type::String)]);
}

#[test]
fn names_are_told_apart_exactly() {
    let mut r = Registry::new();
    r.on_announce("robot/x", 1, Type::Int, vec![]).unwrap();
    r.on_announce("robot/X", 2, Type::Int, vec![]).unwrap();
    r.on_announce("robot/x ", 3, Type::Int, vec![]).unwrap();
    assert_eq!(r.resolve_id("robot/x"), Some(1));
    assert_eq!(r.resolve_id("robot/X"), Some(2));
    assert_eq!(r.resolve_id("robot/x "), Some(3));
    assert_eq!(r.resolve_id("robot/"), None);
}
