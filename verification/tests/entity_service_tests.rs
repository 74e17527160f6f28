use fruity::component::AnyComponent;
use fruity::entity_service::{EntityService, EntityServiceSnapshot, EntitySnapshot, RemoveEntityError};

fn component(class_name: &str, data: &[u8]) -> AnyComponent {
    AnyComponent { class_name: class_name.to_string(), data: data.to_vec() }
}

/// The name, enabled flag and (class name, data) of each component of an entity.
fn view(service: &EntityService, id: u64) -> Option<(String, bool, Vec<(String, Vec<u8>)>)> {
    let entity = service.get_entity(id)?;
    let guard = entity.read();
    assert_eq!(guard.get_entity_id(), id);
    let components = guard
        .read_all_components()
        .iter()
        .map(|c| (c.get().class_name.clone(), c.get().data.clone()))
        .collect();
    Some((guard.get_name(), guard.is_enabled(), components))
}

fn pair(class_name: &str, data: &[u8]) -> (String, Vec<u8>) {
    (class_name.to_string(), data.to_vec())
}

#[test]
fn create_then_get_entity_finds_it() {
    let mut service = EntityService::new();
    let id = service.create("player", true, vec![component("Position", &[1, 2]), component("Name", &[3])]);
    assert_eq!(id, 1);
    let entity = service.get_entity(id).expect("the entity was just created");
    let guard = entity.read();
    assert_eq!(guard.get_entity_id(), id);
    assert_eq!(guard.get_name(), "player");
    assert!(guard.is_enabled());
    let components = entity.get_components();
    let names: Vec<String> = components.iter().map(|c| c.read().get().class_name.clone()).collect();
    assert_eq!(names, vec!["Name".to_string(), "Position".to_string()]);
}

#[test]
fn remove_unknown_entity_is_not_found() {
    let mut service = EntityService::new();
    assert!(matches!(service.remove(42), Err(RemoveEntityError::NotFound)));
}

#[test]
fn create_gives_increasing_ids() {
    let mut service = EntityService::new();
    // `create` draws the next id, and the counter then moves past that id.
    assert_eq!(service.create("a", true, vec![]), 1);
    assert_eq!(service.create("b", true, vec![]), 3);
    assert_eq!(service.create_with_id(10, "c", false, vec![]), 10);
    assert_eq!(service.create("d", true, vec![]), 12);
    assert_eq!(service.create_with_id(5, "e", true, vec![]), 5);
    assert_eq!(service.create("f", true, vec![]), 14);
}

#[test]
fn components_are_sorted_by_class_name_keeping_order_within_a_class() {
    let mut service = EntityService::new();
    let id = service.create(
        "e",
        true,
        vec![component("B", &[1]), component("A", &[2]), component("B", &[3]), component("A", &[4])],
    );
    let (_, _, components) = view(&service, id).unwrap();
    assert_eq!(components, vec![pair("A", &[2]), pair("A", &[4]), pair("B", &[1]), pair("B", &[3])]);
}

#[test]
fn remove_after_create_keeps_the_other_entities() {
    let mut service = EntityService::new();
    let a = service.create("a", true, vec![component("X", &[1])]);
    let b = service.create("b", false, vec![component("X", &[2])]);
    let c = service.create("c", true, vec![component("X", &[3])]);
    let before_a = view(&service, a);
    let before_c = view(&service, c);
    assert_eq!(service.remove(b).ok(), Some(b));
    assert!(view(&service, b).is_none());
    assert_eq!(view(&service, a), before_a);
    assert_eq!(view(&service, c), before_c);
    assert!(matches!(service.remove(b), Err(RemoveEntityError::NotFound)));
}

#[test]
fn removing_the_first_entity_keeps_the_later_ones_reachable() {
    let mut service = EntityService::new();
    let a = service.create("a", true, vec![component("X", &[1])]);
    let b = service.create("b", true, vec![component("X", &[2])]);
    let c = service.create("c", true, vec![component("X", &[3])]);
    assert!(service.remove(a).is_ok());
    assert_eq!(view(&service, b), Some(("b".to_string(), true, vec![pair("X", &[2])])));
    assert_eq!(view(&service, c), Some(("c".to_string(), true, vec![pair("X", &[3])])));
    assert!(service.remove(c).is_ok());
    assert_eq!(view(&service, b), Some(("b".to_string(), true, vec![pair("X", &[2])])));
}

#[test]
fn add_component_moves_the_entity_and_sorts() {
    let mut service = EntityService::new();
    let id = service.create("e", false, vec![component("C", &[1])]);
    let other = service.create("o", true, vec![component("C", &[2])]);
    assert!(service.add_component(id, vec![component("A", &[9])]).is_ok());
    assert_eq!(view(&service, id), Some(("e".to_string(), false, vec![pair("A", &[9]), pair("C", &[1])])));
    assert_eq!(view(&service, other), Some(("o".to_string(), true, vec![pair("C", &[2])])));
    assert!(matches!(service.add_component(99, vec![]), Err(RemoveEntityError::NotFound)));
}

#[test]
fn remove_component_drops_the_component_at_the_index() {
    let mut service = EntityService::new();
    let id = service.create("e", true, vec![component("B", &[2]), component("A", &[1])]);
    assert!(service.remove_component(id, 0).is_ok());
    assert_eq!(view(&service, id), Some(("e".to_string(), true, vec![pair("B", &[2])])));
    assert!(matches!(service.remove_component(99, 0), Err(RemoveEntityError::NotFound)));
}

#[test]
fn clear_removes_everything_and_resets_ids() {
    let mut service = EntityService::new();
    let a = service.create("a", true, vec![]);
    service.clear();
    assert!(view(&service, a).is_none());
    assert_eq!(service.iter_all_entities().len(), 0);
    assert_eq!(service.create("b", true, vec![]), 1);
}

#[test]
fn iter_all_entities_walks_enabled_entities_archetype_after_archetype() {
    let mut service = EntityService::new();
    let a = service.create("a", true, vec![component("X", &[1])]);
    let _b = service.create("b", false, vec![component("X", &[2])]);
    let c = service.create("c", true, vec![component("Y", &[3])]);
    let d = service.create("d", true, vec![component("X", &[4])]);
    let ids: Vec<u64> = service.iter_all_entities().iter().map(|e| e.read().get_entity_id()).collect();
    assert_eq!(ids, vec![a, d, c]);
}

#[test]
fn snapshot_then_restore_gives_back_every_entity() {
    let mut service = EntityService::new();
    let a = service.create("a", true, vec![component("X", &[1]), component("W", &[0])]);
    let b = service.create("b", false, vec![component("X", &[2])]);
    let c = service.create("c", true, vec![]);
    let before_a = view(&service, a);
    let before_b = view(&service, b);
    let before_c = view(&service, c);
    let snapshot = service.snapshot();
    assert_eq!(snapshot.0.len(), 3);
    assert_eq!(snapshot.0[1].entity_id, b);
    assert_eq!(snapshot.0[1].name, "b".to_string());
    assert!(!snapshot.0[1].enabled);
    let mut restored = EntityService::new();
    restored.create("stale", true, vec![]);
    restored.restore(snapshot);
    assert_eq!(view(&restored, a), before_a);
    assert_eq!(view(&restored, b), before_b);
    assert_eq!(view(&restored, c), before_c);
    assert!(before_b.is_some());
    assert_eq!(restored.iter_all_entities().len(), 2);
}

#[test]
fn restore_keeps_the_last_save_of_an_id() {
    let saves = vec![
        EntitySnapshot { entity_id: 3, name: "first".to_string(), enabled: true, components: vec![] },
        EntitySnapshot {
            entity_id: 3,
            name: "second".to_string(),
            enabled: false,
            components: vec![component("B", &[1]), component("A", &[2])],
        },
    ];
    let mut service = EntityService::new();
    service.restore(EntityServiceSnapshot(saves));
    assert_eq!(view(&service, 3), Some(("second".to_string(), false, vec![pair("A", &[2]), pair("B", &[1])])));
    assert_eq!(service.create("next", true, vec![]), 5);
}

#[test]
fn create_with_an_id_in_use_leaves_the_older_entity_in_iteration() {
    let mut service = EntityService::new();
    service.create_with_id(7, "old", true, vec![component("X", &[1])]);
    service.create_with_id(7, "new", true, vec![component("Y", &[2])]);
    assert_eq!(view(&service, 7), Some(("new".to_string(), true, vec![pair("Y", &[2])])));
    let names: Vec<String> = service.iter_all_entities().iter().map(|e| e.read().get_name()).collect();
    assert_eq!(names, vec!["old".to_string(), "new".to_string()]);
    assert_eq!(service.snapshot().0.len(), 2);
}

#[test]
fn components_of_a_class_are_those_of_all_components_with_that_class() {
    let mut service = EntityService::new();
    let id = service.create(
        "e",
        true,
        vec![component("B", &[1]), component("A", &[2]), component("C", &[3]), component("A", &[4])],
    );
    let entity = service.get_entity(id).unwrap();
    let all: Vec<(String, Vec<u8>)> = entity
        .get_components()
        .iter()
        .map(|c| (c.read().get().class_name.clone(), c.read().get().data.clone()))
        .collect();
    for class in ["A", "B", "C", "D"] {
        let filtered: Vec<(String, Vec<u8>)> = all.iter().filter(|c| c.0 == class).cloned().collect();
        let of_class: Vec<(String, Vec<u8>)> = entity
            .get_components_by_type_identifier(class)
            .iter()
            .map(|c| (c.read().get().class_name.clone(), c.read().get().data.clone()))
            .collect();
        assert_eq!(of_class, filtered);
    }
    assert_eq!(all.len(), 4);
}
