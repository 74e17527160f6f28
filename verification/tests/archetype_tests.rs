use fruity::archetype::Archetype;
use fruity::component::{get_type_identifier_by_any, AnyComponent, EntityTypeIdentifier};
use fruity::grouping::{group_components_by_type, sort_components_by_name};
use fruity::names::{str_eq, str_less};
use fruity::storage::{ComponentArray, ComponentCollection, ComponentStorage};

fn component(class_name: &str, data: &[u8]) -> AnyComponent {
    AnyComponent { class_name: class_name.to_string(), data: data.to_vec() }
}

fn pairs(components: &[AnyComponent]) -> Vec<(String, Vec<u8>)> {
    components.iter().map(|c| (c.class_name.clone(), c.data.clone())).collect()
}

fn pair(class_name: &str, data: &[u8]) -> (String, Vec<u8>) {
    (class_name.to_string(), data.to_vec())
}

fn sample() -> Archetype {
    let mut archetype = Archetype::new(
        1,
        "first",
        true,
        vec![component("Position", &[1]), component("Shape", &[2]), component("Shape", &[3])],
    );
    archetype.add(
        2,
        "second",
        false,
        vec![component("Position", &[4]), component("Shape", &[5]), component("Shape", &[6])],
    );
    archetype
}

#[test]
fn names_compare_by_characters() {
    assert!(str_eq("abc", "abc"));
    assert!(!str_eq("abc", "abd"));
    assert!(!str_eq("ab", "abc"));
    assert!(str_less("ab", "abc"));
    assert!(str_less("abc", "abd"));
    assert!(!str_less("abd", "abc"));
    assert!(!str_less("abc", "abc"));
    assert!(str_less("B", "a"));
}

#[test]
fn type_identifier_lists_class_names_in_order() {
    let components = vec![component("B", &[]), component("A", &[])];
    let identifier = get_type_identifier_by_any(&components);
    assert_eq!(identifier.0, vec!["B".to_string(), "A".to_string()]);
    assert!(identifier.contains("A"));
    assert!(!identifier.contains("C"));
    assert!(identifier.contains_all(&EntityTypeIdentifier(vec!["A".to_string()])));
    assert!(!identifier.contains_all(&EntityTypeIdentifier(vec!["A".to_string(), "C".to_string()])));
    assert!(identifier.equals(&EntityTypeIdentifier(vec!["B".to_string(), "A".to_string()])));
    assert!(!identifier.equals(&EntityTypeIdentifier(vec!["A".to_string(), "B".to_string()])));
}

#[test]
fn sorting_is_stable_by_class_name() {
    let sorted = sort_components_by_name(vec![
        component("b", &[1]),
        component("a", &[2]),
        component("b", &[3]),
        component("A", &[4]),
    ]);
    assert_eq!(pairs(&sorted), vec![pair("A", &[4]), pair("a", &[2]), pair("b", &[1]), pair("b", &[3])]);
}

#[test]
fn grouping_gathers_consecutive_components_of_a_class() {
    let groups = group_components_by_type(vec![
        component("A", &[1]),
        component("A", &[2]),
        component("B", &[3]),
    ]);
    assert_eq!(groups.len(), 2);
    assert_eq!(groups[0].0, "A");
    assert_eq!(pairs(&groups[0].1), vec![pair("A", &[1]), pair("A", &[2])]);
    assert_eq!(groups[1].0, "B");
    assert_eq!(pairs(&groups[1].1), vec![pair("B", &[3])]);
}

#[test]
fn archetype_keeps_entities_in_order() {
    let archetype = sample();
    assert_eq!(archetype.len(), 2);
    assert_eq!(archetype.get_entity_id(1), 2);
    assert_eq!(archetype.get_name(0), "first");
    assert!(archetype.is_enabled(0));
    assert!(!archetype.is_enabled(1));
    assert_eq!(
        archetype.get_type_identifier().0,
        vec!["Position".to_string(), "Shape".to_string(), "Shape".to_string()]
    );
}

#[test]
fn archetype_gives_back_the_components_added() {
    let archetype = sample();
    let second: Vec<(String, Vec<u8>)> = archetype
        .get_entity_components(1)
        .iter()
        .map(|c| {
            let guard = c.read();
            (guard.get().class_name.clone(), guard.get().data.clone())
        })
        .collect();
    assert_eq!(second, vec![pair("Position", &[4]), pair("Shape", &[5]), pair("Shape", &[6])]);
    let shapes: Vec<Vec<u8>> = archetype
        .get_entity_components_from_type(0, "Shape")
        .iter()
        .map(|c| c.read().get().data.clone())
        .collect();
    assert_eq!(shapes, vec![vec![2u8], vec![3u8]]);
    assert!(archetype.get_entity_components_from_type(0, "Missing").is_empty());
}

#[test]
fn archetype_storages_hold_a_block_per_entity() {
    let archetype = sample();
    let storage = archetype.get_storage_from_type("Shape").unwrap();
    assert_eq!(storage.get_components_per_entity(), 2);
    assert_eq!(storage.len(), 4);
    assert_eq!(storage.get(3).unwrap().data, vec![6u8]);
    assert!(archetype.get_storage_from_type("Missing").is_none());
    assert_eq!(archetype.get_component("Position", 1).unwrap().data, vec![4u8]);
    assert!(archetype.get_component("Position", 2).is_none());
}

#[test]
fn archetype_remove_gives_back_the_entity_and_shifts_the_rest() {
    let mut archetype = sample();
    let (properties, components) = archetype.remove(0);
    assert_eq!(properties.entity_id, 1);
    assert_eq!(properties.name, "first");
    assert!(properties.enabled);
    assert_eq!(pairs(&components), vec![pair("Position", &[1]), pair("Shape", &[2]), pair("Shape", &[3])]);
    assert_eq!(archetype.len(), 1);
    assert_eq!(archetype.get_entity_id(0), 2);
    assert_eq!(archetype.get_component("Shape", 1).unwrap().data, vec![6u8]);
}

#[test]
fn archetype_iter_lists_enabled_entities() {
    let mut archetype = sample();
    archetype.add(3, "third", true, vec![component("Position", &[7]), component("Shape", &[8]), component("Shape", &[9])]);
    let ids: Vec<usize> = archetype.iter().iter().map(|e| e.entity_id).collect();
    assert_eq!(ids, vec![0, 2]);
}

#[test]
fn write_guard_replaces_a_component() {
    let mut archetype = sample();
    {
        let mut guard = archetype.write_component("Shape", 2);
        assert_eq!(guard.get().data, vec![5u8]);
        guard.set(component("Shape", &[50]));
        assert_eq!(guard.get().data, vec![50u8]);
    }
    assert_eq!(archetype.get_component("Shape", 2).unwrap().data, vec![50u8]);
    archetype.set_component("Position", 0, component("Position", &[10]));
    assert_eq!(archetype.get_component("Position", 0).unwrap().data, vec![10u8]);
}

#[test]
fn component_reference_reads_its_entity() {
    let archetype = sample();
    let components = archetype.get_entity_components(1);
    assert_eq!(components[2].read_entity().get_name(), "second");
    assert_eq!(components[2].read().get().data, vec![6u8]);
}

#[test]
fn component_storage_adds_and_removes_blocks() {
    let mut storage = ComponentStorage::new(vec![component("A", &[1]), component("A", &[2])]);
    assert_eq!(storage.get_components_per_entity(), 2);
    storage.add(vec![component("A", &[3]), component("A", &[4])]);
    assert_eq!(storage.len(), 4);
    let removed = storage.remove(0);
    assert_eq!(pairs(&removed), vec![pair("A", &[1]), pair("A", &[2])]);
    assert_eq!(storage.get(0).unwrap().data, vec![3u8]);
    storage.set(1, component("A", &[40]));
    assert_eq!(storage.get(1).unwrap().data, vec![40u8]);
}

#[test]
fn component_array_adds_takes_and_sets() {
    let mut array = ComponentArray::new();
    assert_eq!(array.len(), 0);
    array.add_many(vec![component("A", &[1]), component("A", &[2]), component("A", &[3])]);
    assert_eq!(array.len(), 3);
    let taken = array.remove_many(1, 2);
    assert_eq!(pairs(&taken), vec![pair("A", &[2]), pair("A", &[3])]);
    array.set(0, component("A", &[9]));
    assert_eq!(array.get(0).unwrap().data, vec![9u8]);
    assert!(array.get(1).is_none());
}

#[test]
fn entity_write_guard_renames_and_disables() {
    let mut archetype = sample();
    {
        let mut guard = archetype.write_entity(1);
        assert_eq!(guard.get_entity_id(), 2);
        guard.set_name("renamed");
        guard.set_enabled(true);
        assert_eq!(guard.get_name(), "renamed");
        assert!(guard.is_enabled());
        let shapes: Vec<Vec<u8>> =
            guard.iter_components_from_type_identifier("Shape").iter().map(|c| c.get().data.clone()).collect();
        assert_eq!(shapes, vec![vec![5u8], vec![6u8]]);
    }
    assert_eq!(archetype.get_name(1), "renamed");
    assert!(archetype.is_enabled(1));
    assert_eq!(archetype.get_name(0), "first");
}

#[test]
fn archetype_keeps_every_component_of_a_scattered_class() {
    let mut archetype =
        Archetype::new(1, "e", true, vec![component("A", &[1]), component("B", &[2]), component("A", &[3])]);
    assert_eq!(archetype.len(), 1);
    assert_eq!(
        archetype.get_type_identifier().0,
        vec!["A".to_string(), "B".to_string(), "A".to_string()]
    );
    let first: Vec<(String, Vec<u8>)> = archetype
        .get_entity_components(0)
        .iter()
        .map(|c| {
            let guard = c.read();
            (guard.get().class_name.clone(), guard.get().data.clone())
        })
        .collect();
    assert_eq!(first, vec![pair("A", &[1]), pair("A", &[3]), pair("B", &[2])]);
    assert_eq!(archetype.get_storage_from_type("A").unwrap().get_components_per_entity(), 2);
    assert_eq!(archetype.get_storage_from_type("B").unwrap().get_components_per_entity(), 1);
    assert!(archetype.get_storage_from_type("C").is_none());
    archetype.add(2, "f", false, vec![component("B", &[5]), component("A", &[4]), component("A", &[6])]);
    assert_eq!(archetype.len(), 2);
    let (properties, components) = archetype.remove(1);
    assert_eq!(properties.entity_id, 2);
    assert_eq!(properties.name, "f");
    assert!(!properties.enabled);
    assert_eq!(pairs(&components), vec![pair("A", &[4]), pair("A", &[6]), pair("B", &[5])]);
    assert_eq!(archetype.len(), 1);
    assert_eq!(archetype.get_entity_id(0), 1);
    assert_eq!(
        archetype.get_type_identifier().0,
        vec!["A".to_string(), "B".to_string(), "A".to_string()]
    );
}

#[test]
fn archetype_identifier_keeps_the_order_given() {
    let components = vec![component("B", &[1]), component("A", &[2])];
    let identifier = get_type_identifier_by_any(&components);
    let archetype = Archetype::new(1, "e", true, components);
    assert_eq!(archetype.get_type_identifier().0, identifier.0);
    assert_eq!(archetype.get_type_identifier().0, vec!["B".to_string(), "A".to_string()]);
    let stored: Vec<(String, Vec<u8>)> = archetype
        .get_entity_components(0)
        .iter()
        .map(|c| {
            let guard = c.read();
            (guard.get().class_name.clone(), guard.get().data.clone())
        })
        .collect();
    assert_eq!(stored, vec![pair("A", &[2]), pair("B", &[1])]);
}

#[test]
fn write_through_a_guard_reaches_the_archetype() {
    let mut archetype = sample();
    {
        let mut guard = archetype.write_component("Shape", 1);
        guard.set(component("Shape", &[42]));
    }
    assert_eq!(archetype.get_component("Shape", 1).unwrap().data, vec![42u8]);
    assert_eq!(archetype.get_component("Shape", 0).unwrap().data, vec![2u8]);
    {
        let mut entity = archetype.write_entity(1);
        entity.set_name("renamed");
        entity.set_enabled(true);
    }
    assert_eq!(archetype.get_name(1), "renamed");
    assert!(archetype.is_enabled(1));
}
