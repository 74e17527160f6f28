use fruity::archetype::Archetype;
use fruity::component::{AnyComponent, EntityTypeIdentifier};
use fruity::extension_component_service::ExtensionComponentService;
use fruity::inner_archetype::{entity_size, get_component_decoding_infos, InnerArchetype};
use fruity::rwlock::multi_cartesian_product;
use fruity::serialized_query::{QueryValue, SerializedQuery};

fn component(class_name: &str, data: &[u8]) -> AnyComponent {
    AnyComponent { class_name: class_name.to_string(), data: data.to_vec() }
}

fn identifier(names: &[&str]) -> EntityTypeIdentifier {
    EntityTypeIdentifier(names.iter().map(|n| n.to_string()).collect())
}

/// A short text for a query value.
fn show(value: &QueryValue) -> String {
    match value {
        QueryValue::Entity(e) => format!("entity {}", e.entity_id),
        QueryValue::Id(id) => format!("id {}", id),
        QueryValue::Name(name) => format!("name {}", name),
        QueryValue::Enabled(enabled) => format!("enabled {}", enabled),
        QueryValue::Component(c) => format!("{} {}", c.component_identifier, c.component_index),
        QueryValue::Null => "null".to_string(),
    }
}

fn rows(query: &SerializedQuery, archetypes: &[Archetype]) -> Vec<Vec<String>> {
    query.for_each(archetypes).iter().map(|row| row.iter().map(show).collect()).collect()
}

fn archetypes() -> Vec<Archetype> {
    let mut first = Archetype::new(1, "a", true, vec![component("Pos", &[1]), component("Tag", &[0]), component("Tag", &[1])]);
    first.add(2, "b", false, vec![component("Pos", &[2]), component("Tag", &[2]), component("Tag", &[3])]);
    first.add(3, "c", true, vec![component("Pos", &[3]), component("Tag", &[4]), component("Tag", &[5])]);
    let second = Archetype::new(4, "d", true, vec![component("Pos", &[4])]);
    vec![first, second]
}

#[test]
fn cartesian_product_of_lists() {
    let product = multi_cartesian_product(&vec![vec![1, 2], vec![3], vec![4, 5]]);
    assert_eq!(product, vec![vec![1, 3, 4], vec![1, 3, 5], vec![2, 3, 4], vec![2, 3, 5]]);
    assert!(multi_cartesian_product(&vec![]).is_empty());
    assert!(multi_cartesian_product(&vec![vec![1], vec![]]).is_empty());
}

#[test]
fn query_gives_ids_and_names_of_enabled_entities() {
    let archetypes = archetypes();
    let mut query = SerializedQuery::new();
    query.with_id();
    query.with_name();
    query.with_enabled();
    assert_eq!(
        rows(&query, &archetypes),
        vec![
            vec!["id 1".to_string(), "name a".to_string(), "enabled true".to_string()],
            vec!["id 3".to_string(), "name c".to_string(), "enabled true".to_string()],
            vec!["id 4".to_string(), "name d".to_string(), "enabled true".to_string()],
        ]
    );
}

#[test]
fn query_with_a_class_keeps_archetypes_that_have_it_and_crosses_components() {
    let archetypes = archetypes();
    let mut query = SerializedQuery::new();
    query.with_entity();
    query.with("Tag");
    assert_eq!(
        rows(&query, &archetypes),
        vec![
            vec!["entity 0".to_string(), "Tag 0".to_string()],
            vec!["entity 0".to_string(), "Tag 1".to_string()],
            vec!["entity 2".to_string(), "Tag 4".to_string()],
            vec!["entity 2".to_string(), "Tag 5".to_string()],
        ]
    );
}

#[test]
fn optional_parameter_gives_null_when_the_class_is_missing() {
    let archetypes = archetypes();
    let mut query = SerializedQuery::new();
    query.with("Pos");
    query.with_optional("Tag");
    let all = rows(&query, &archetypes);
    assert_eq!(all.len(), 5);
    assert_eq!(all[4], vec!["Pos 0".to_string(), "null".to_string()]);
    let mut missing = SerializedQuery::new();
    missing.with("Missing");
    assert!(rows(&missing, &archetypes).is_empty());
}

#[test]
fn entity_size_adds_head_infos_and_states() {
    let components = vec![component("A", &[1, 2, 3]), component("B", &[4])];
    let head = std::mem::size_of::<fruity::inner_archetype::EntityCellHead>();
    let info = std::mem::size_of::<fruity::inner_archetype::ComponentDecodingInfos>();
    assert_eq!(entity_size(&components), head + 2 * info + 4);
    let infos = get_component_decoding_infos(&components);
    assert_eq!((infos[0].relative_index, infos[0].size), (0, 3));
    assert_eq!((infos[1].relative_index, infos[1].size), (3, 1));
}

#[test]
fn inner_archetype_reuses_the_last_freed_cell() {
    let mut inner = InnerArchetype::new(identifier(&["A"]), 1, 8);
    inner.add(1, "one".to_string(), vec![component("A", &[1])]);
    inner.add(2, "two".to_string(), vec![component("A", &[2])]);
    assert!(inner.remove(1).is_ok());
    assert!(inner.remove(1).is_err());
    assert!(inner.get(1).is_none());
    inner.add(3, "three".to_string(), vec![component("A", &[3])]);
    let lock = inner.get(3).unwrap();
    assert_eq!(lock.buffer_index, 0);
    let guard = lock.read();
    assert_eq!(guard.entity_head.name, "three");
    assert_eq!(guard.get_components()[0].data, vec![3u8]);
    inner.add(4, "four".to_string(), vec![component("A", &[4])]);
    assert_eq!(inner.get(4).unwrap().buffer_index, 2);
    assert_eq!(inner.get_type_identifier().0, vec!["A".to_string()]);
}

#[test]
fn shared_lock_finds_components_by_class() {
    let mut inner = InnerArchetype::new(identifier(&["A", "B", "A"]), 3, 8);
    inner.add(7, "e".to_string(), vec![component("A", &[1]), component("B", &[2]), component("A", &[3])]);
    let lock = inner.get(7).unwrap();
    assert_eq!(lock.len(), 3);
    assert_eq!(lock.get_component("B").unwrap().read().data, vec![2u8]);
    assert!(lock.get_component("C").is_none());
    assert!(lock.contains(&identifier(&["A", "B"])));
    assert!(!lock.contains(&identifier(&["C"])));
    assert_eq!(lock.iter_all_components().len(), 3);
    let lists = lock.iter_components(&identifier(&["A", "B"]));
    assert_eq!(lists.len(), 2);
    assert_eq!(lists[0].component_indexes, vec![0, 1]);
    assert_eq!(lists[1].component_indexes, vec![2, 1]);
    assert_eq!(lists[1].entity_id(), 7);
    assert_eq!(lists[1].len(), 2);
    assert_eq!(lists[1].get(0).unwrap().read().data, vec![3u8]);
    assert!(lists[1].get(2).is_none());
    let list_guard = lists[1].read();
    let listed: Vec<Vec<u8>> = list_guard.get_components().iter().map(|c| c.data.clone()).collect();
    assert_eq!(listed, vec![vec![3u8], vec![2u8]]);
    assert_eq!(lock.read().get_component("A").unwrap().data, vec![1u8]);
}

#[test]
fn extensions_start_empty() {
    let service = ExtensionComponentService::new();
    assert!(service.get_component_extension(&component("A", &[])).is_empty());
}

#[test]
fn inner_write_guard_writes_components_in_place() {
    let mut inner = InnerArchetype::new(identifier(&["A", "B"]), 2, 8);
    inner.add(5, "e".to_string(), vec![component("A", &[1]), component("B", &[2])]);
    {
        let mut guard = inner.write_cell(0);
        assert_eq!(guard.entity_head.entity_id, 5);
        assert_eq!(guard.get_components().len(), 2);
        let b = guard.get_component_mut("B").unwrap();
        b.data = vec![20];
        assert!(guard.get_component_mut("C").is_none());
        guard.get_components_mut()[0].data = vec![10];
    }
    let lock = inner.get(5).unwrap();
    let guard = lock.read();
    assert_eq!(guard.get_components()[0].data, vec![10u8]);
    assert_eq!(guard.get_components()[1].data, vec![20u8]);
}
