use fruity::graphic::{
    build_material_instance_attribute, read_image_settings, read_shader_binding_group_settings,
    read_shader_instance_attributes_settings, read_shader_settings, read_texture_settings, ImageResourceSettings,
    MaterialInstanceAttribute, ShaderBinding, ShaderBindingType, ShaderBindingVisibility, ShaderInstanceAttribute,
    ShaderInstanceAttributeType, TextureResourceSettings,
};
use fruity::settings::Settings;

fn object(fields: Vec<(&str, Settings)>) -> Settings {
    Settings::Object(fields.into_iter().map(|(k, v)| (k.to_string(), v)).collect())
}

fn text(value: &str) -> Settings {
    Settings::String(value.to_string())
}

#[test]
fn settings_fields_are_looked_up_by_name() {
    let settings = object(vec![
        ("name", text("quad")),
        ("count", Settings::U64(7)),
        ("signed", Settings::I64(-1)),
        ("big", Settings::U64(u64::MAX)),
        ("items", Settings::Array(vec![Settings::Bool(true), Settings::Null])),
    ]);
    assert!(settings.get_field("name").is_some());
    assert!(settings.get_field("missing").is_none());
    assert!(Settings::Null.get_field("name").is_none());
    assert_eq!(settings.get_string("name", "none".to_string()), "quad");
    assert_eq!(settings.get_string("count", "none".to_string()), "none");
    assert_eq!(settings.get_u32("count", 3), 7);
    assert_eq!(settings.get_u32("signed", 3), 3);
    assert_eq!(settings.get_u32("big", 3), 3);
    assert_eq!(settings.get_u32("missing", 3), 3);
    assert_eq!(settings.get_array("items").len(), 2);
    assert!(settings.get_array("name").is_empty());
}

#[test]
fn first_field_of_a_name_wins() {
    let settings = object(vec![("type", text("texture")), ("type", text("image"))]);
    assert!(read_image_settings(&settings) == ImageResourceSettings::Texture {});
}

#[test]
fn image_settings_default_to_image() {
    assert!(read_image_settings(&object(vec![])) == ImageResourceSettings::Image {});
    assert!(read_image_settings(&object(vec![("type", text("other"))])) == ImageResourceSettings::Image {});
    assert!(read_image_settings(&object(vec![("type", text("texture"))])) == ImageResourceSettings::Texture {});
    assert!(read_texture_settings(&Settings::Null) == TextureResourceSettings {});
}

#[test]
fn names_convert_both_ways() {
    assert!(ShaderBindingVisibility::from_name("fragment") == Some(ShaderBindingVisibility::Fragment));
    assert!(ShaderBindingVisibility::from_name("compute").is_none());
    assert_eq!(ShaderBindingVisibility::Vertex.name(), "vertex");
    assert!(ShaderBindingType::from_name("sampler") == Some(ShaderBindingType::Sampler));
    assert_eq!(ShaderBindingType::Uniform.name(), "uniform");
    assert!(ShaderInstanceAttributeType::from_name("vec2") == Some(ShaderInstanceAttributeType::Vector2));
    assert!(ShaderInstanceAttributeType::from_name("mat4").is_none());
    assert_eq!(ShaderInstanceAttributeType::UInt.name(), "uint");
    assert!(ShaderBindingVisibility::default() == ShaderBindingVisibility::Vertex);
    assert!(ShaderBindingType::default() == ShaderBindingType::Texture);
    assert!(ShaderInstanceAttributeType::default() == ShaderInstanceAttributeType::Float);
}

#[test]
fn binding_groups_read_each_binding() {
    let group = read_shader_binding_group_settings(&[
        object(vec![("visibility", text("fragment")), ("type", text("sampler"))]),
        object(vec![("type", text("other"))]),
    ]);
    assert!(group.bindings[0] == ShaderBinding { visibility: ShaderBindingVisibility::Fragment, ty: ShaderBindingType::Sampler });
    assert!(group.bindings[1] == ShaderBinding { visibility: ShaderBindingVisibility::Vertex, ty: ShaderBindingType::Texture });
}

#[test]
fn instance_attributes_read_location_and_type() {
    let attributes = read_shader_instance_attributes_settings(&[
        object(vec![("location", Settings::I64(3)), ("type", text("vec4"))]),
        object(vec![]),
    ]);
    assert!(attributes[0] == ShaderInstanceAttribute { location: 3, ty: ShaderInstanceAttributeType::Vector4 });
    assert!(attributes[1] == ShaderInstanceAttribute { location: 0, ty: ShaderInstanceAttributeType::Float });
}

#[test]
fn shader_settings_skip_groups_that_are_not_arrays() {
    let settings = object(vec![
        (
            "binding_groups",
            Settings::Array(vec![
                Settings::Array(vec![object(vec![("type", text("uniform"))])]),
                text("not a group"),
                Settings::Array(vec![]),
            ]),
        ),
        ("instance_attributes", Settings::Array(vec![object(vec![("location", Settings::U64(1))])])),
    ]);
    let shader = read_shader_settings(&settings);
    assert_eq!(shader.binding_groups.len(), 2);
    assert!(shader.binding_groups[0].bindings[0].ty == ShaderBindingType::Uniform);
    assert!(shader.binding_groups[1].bindings.is_empty());
    assert_eq!(shader.instance_attributes.len(), 1);
    assert_eq!(shader.instance_attributes[0].location, 1);
    let empty = read_shader_settings(&Settings::Null);
    assert!(empty.binding_groups.is_empty() && empty.instance_attributes.is_empty());
}

#[test]
fn material_attributes_by_type() {
    let matrix = object(vec![
        ("type", text("matrix4")),
        ("vec0_location", Settings::U64(1)),
        ("vec1_location", Settings::U64(2)),
        ("vec2_location", Settings::U64(3)),
        ("vec3_location", Settings::U64(4)),
    ]);
    assert!(
        build_material_instance_attribute(&matrix)
            == Some(MaterialInstanceAttribute::Matrix4 { vec0_location: 1, vec1_location: 2, vec2_location: 3, vec3_location: 4 })
    );
    let rect = object(vec![("type", text("rect")), ("vec1_location", Settings::U64(6))]);
    assert!(
        build_material_instance_attribute(&rect)
            == Some(MaterialInstanceAttribute::Rect { vec0_location: 0, vec1_location: 6 })
    );
    let vector = object(vec![("type", text("vec4")), ("location", Settings::I64(9))]);
    assert!(build_material_instance_attribute(&vector) == Some(MaterialInstanceAttribute::Vector4 { location: 9 }));
    assert!(build_material_instance_attribute(&object(vec![("type", text("vec3"))])).is_none());
}
