use crate::names::str_eq;
use crate::settings::Settings;
use vstd::prelude::*;

verus! {

/// How an image file is loaded.
#[derive(Clone, Copy, PartialEq, Eq, Structural)]
pub enum ImageResourceSettings {
    Image {},
    Texture {},
}

/// A loaded image.
pub trait ImageResource {}

/// A loaded texture.
pub trait TextureResource {}

/// A loaded mesh.
pub trait MeshResource {}

/// A loaded shader.
pub trait ShaderResource {}

/// How a texture file is loaded.
#[derive(Clone, Copy, PartialEq, Eq, Structural)]
pub struct TextureResourceSettings {}

/// The shader stages that see a binding.
#[derive(Clone, Copy, PartialEq, Eq, Structural)]
pub enum ShaderBindingVisibility {
    Vertex,
    Fragment,
}

impl Default for ShaderBindingVisibility {
    fn default() -> (res: Self)
        ensures
            res == ShaderBindingVisibility::Vertex,
    {
        ShaderBindingVisibility::Vertex
    }
}

/// What a binding of a shader holds.
#[derive(Clone, Copy, PartialEq, Eq, Structural)]
pub enum ShaderBindingType {
    Texture,
    Sampler,
    Uniform,
}

impl Default for ShaderBindingType {
    fn default() -> (res: Self)
        ensures
            res == ShaderBindingType::Texture,
    {
        ShaderBindingType::Texture
    }
}

/// The type of an instance attribute of a shader.
#[derive(Clone, Copy, PartialEq, Eq, Structural)]
pub enum ShaderInstanceAttributeType {
    Int,
    UInt,
    Float,
    Vector2,
    Vector4,
}

impl Default for ShaderInstanceAttributeType {
    fn default() -> (res: Self)
        ensures
            res == ShaderInstanceAttributeType::Float,
    {
        ShaderInstanceAttributeType::Float
    }
}

/// A binding of a shader.
#[derive(Clone, Copy, PartialEq, Eq, Structural)]
pub struct ShaderBinding {
    pub visibility: ShaderBindingVisibility,
    pub ty: ShaderBindingType,
}

/// A group of bindings of a shader.
pub struct ShaderBindingGroup {
    pub bindings: Vec<ShaderBinding>,
}

/// An instance attribute of a shader.
#[derive(Clone, Copy, PartialEq, Eq, Structural)]
pub struct ShaderInstanceAttribute {
    pub location: u32,
    pub ty: ShaderInstanceAttributeType,
}

/// How a shader file is loaded.
pub struct ShaderResourceSettings {
    pub binding_groups: Vec<ShaderBindingGroup>,
    pub instance_attributes: Vec<ShaderInstanceAttribute>,
}

/// How the vectors of an instance attribute of a material map to the
/// locations of the shader.
#[derive(Clone, Copy, PartialEq, Eq, Structural)]
pub enum MaterialInstanceAttribute {
    Matrix4 { vec0_location: u32, vec1_location: u32, vec2_location: u32, vec3_location: u32 },
    Rect { vec0_location: u32, vec1_location: u32 },
    Vector4 { location: u32 },
}

/// The text, or `default` when there is none.
pub open spec fn text_or(text: Option<Seq<char>>, default: Seq<char>) -> Seq<char> {
    match text {
        Some(t) => t,
        None => default,
    }
}

/// The number, or `default` when there is none.
pub open spec fn u32_or(value: Option<u32>, default: u32) -> u32 {
    match value {
        Some(v) => v,
        None => default,
    }
}

/// The visibility named `name`; the default one for any other name.
pub open spec fn visibility_of(name: Seq<char>) -> ShaderBindingVisibility {
    if name == "vertex"@ {
        ShaderBindingVisibility::Vertex
    } else if name == "fragment"@ {
        ShaderBindingVisibility::Fragment
    } else {
        ShaderBindingVisibility::Vertex
    }
}

/// The binding type named `name`; the default one for any other name.
pub open spec fn binding_type_of(name: Seq<char>) -> ShaderBindingType {
    if name == "texture"@ {
        ShaderBindingType::Texture
    } else if name == "sampler"@ {
        ShaderBindingType::Sampler
    } else if name == "uniform"@ {
        ShaderBindingType::Uniform
    } else {
        ShaderBindingType::Texture
    }
}

/// The attribute type named `name`; the default one for any other name.
pub open spec fn attribute_type_of(name: Seq<char>) -> ShaderInstanceAttributeType {
    if name == "int"@ {
        ShaderInstanceAttributeType::Int
    } else if name == "uint"@ {
        ShaderInstanceAttributeType::UInt
    } else if name == "float"@ {
        ShaderInstanceAttributeType::Float
    } else if name == "vec2"@ {
        ShaderInstanceAttributeType::Vector2
    } else if name == "vec4"@ {
        ShaderInstanceAttributeType::Vector4
    } else {
        ShaderInstanceAttributeType::Float
    }
}

/// The binding that `params` describes.
pub open spec fn binding_of(params: Settings) -> ShaderBinding {
    ShaderBinding {
        visibility: visibility_of(text_or(params.string_field("visibility"@), Seq::empty())),
        ty: binding_type_of(text_or(params.string_field("type"@), Seq::empty())),
    }
}

/// The instance attribute that `params` describes.
pub open spec fn instance_attribute_of(params: Settings) -> ShaderInstanceAttribute {
    ShaderInstanceAttribute {
        location: u32_or(params.u32_field("location"@), 0),
        ty: attribute_type_of(text_or(params.string_field("type"@), Seq::empty())),
    }
}

/// The element lists of the arrays among `items`, in order; the other
/// items are skipped.
pub open spec fn arrays_among(items: Seq<Settings>) -> Seq<Seq<Settings>>
    decreases items.len(),
{
    if items.len() == 0 {
        Seq::empty()
    } else {
        match items.last() {
            Settings::Array(elements) => arrays_among(items.drop_last()).push(elements@),
            _ => arrays_among(items.drop_last()),
        }
    }
}

/// The instance attribute of a material that `settings` describes, if its
/// type is one of "matrix4", "rect" and "vec4".
pub open spec fn material_attribute_of(settings: Settings) -> Option<MaterialInstanceAttribute> {
    let ty = text_or(settings.string_field("type"@), Seq::empty());
    if ty == "matrix4"@ {
        Some(
            MaterialInstanceAttribute::Matrix4 {
                vec0_location: u32_or(settings.u32_field("vec0_location"@), 0),
                vec1_location: u32_or(settings.u32_field("vec1_location"@), 0),
                vec2_location: u32_or(settings.u32_field("vec2_location"@), 0),
                vec3_location: u32_or(settings.u32_field("vec3_location"@), 0),
            },
        )
    } else if ty == "rect"@ {
        Some(
            MaterialInstanceAttribute::Rect {
                vec0_location: u32_or(settings.u32_field("vec0_location"@), 0),
                vec1_location: u32_or(settings.u32_field("vec1_location"@), 0),
            },
        )
    } else if ty == "vec4"@ {
        Some(
            MaterialInstanceAttribute::Vector4 {
                location: u32_or(settings.u32_field("location"@), 0),
            },
        )
    } else {
        None
    }
}

impl ShaderBindingVisibility {
    /// The visibility named `value`, if it is "vertex" or "fragment".
    pub fn from_name(value: &str) -> (res: Option<ShaderBindingVisibility>)
        ensures
            res == if value@ == "vertex"@ {
                Some(ShaderBindingVisibility::Vertex)
            } else if value@ == "fragment"@ {
                Some(ShaderBindingVisibility::Fragment)
            } else {
                None
            },
    {
        if str_eq(value, "vertex") {
            Some(ShaderBindingVisibility::Vertex)
        } else if str_eq(value, "fragment") {
            Some(ShaderBindingVisibility::Fragment)
        } else {
            None
        }
    }

    /// The name of the visibility.
    pub fn name(&self) -> (name: String)
        ensures
            name@ == match self {
                ShaderBindingVisibility::Vertex => "vertex"@,
                ShaderBindingVisibility::Fragment => "fragment"@,
            },
    {
        match self {
            ShaderBindingVisibility::Vertex => "vertex".to_owned(),
            ShaderBindingVisibility::Fragment => "fragment".to_owned(),
        }
    }
}

impl ShaderBindingType {
    /// The binding type named `value`, if it is "texture", "sampler" or
    /// "uniform".
    pub fn from_name(value: &str) -> (res: Option<ShaderBindingType>)
        ensures
            res == if value@ == "texture"@ {
                Some(ShaderBindingType::Texture)
            } else if value@ == "sampler"@ {
                Some(ShaderBindingType::Sampler)
            } else if value@ == "uniform"@ {
                Some(ShaderBindingType::Uniform)
            } else {
                None
            },
    {
        if str_eq(value, "texture") {
            Some(ShaderBindingType::Texture)
        } else if str_eq(value, "sampler") {
            Some(ShaderBindingType::Sampler)
        } else if str_eq(value, "uniform") {
            Some(ShaderBindingType::Uniform)
        } else {
            None
        }
    }

    /// The name of the binding type.
    pub fn name(&self) -> (name: String)
        ensures
            name@ == match self {
                ShaderBindingType::Texture => "texture"@,
                ShaderBindingType::Sampler => "sampler"@,
                ShaderBindingType::Uniform => "uniform"@,
            },
    {
        match self {
            ShaderBindingType::Texture => "texture".to_owned(),
            ShaderBindingType::Sampler => "sampler".to_owned(),
            ShaderBindingType::Uniform => "uniform".to_owned(),
        }
    }
}

impl ShaderInstanceAttributeType {
    /// The attribute type named `value`, if it is "int", "uint", "float",
    /// "vec2" or "vec4".
    pub fn from_name(value: &str) -> (res: Option<ShaderInstanceAttributeType>)
        ensures
            res == if value@ == "int"@ {
                Some(ShaderInstanceAttributeType::Int)
            } else if value@ == "uint"@ {
                Some(ShaderInstanceAttributeType::UInt)
            } else if value@ == "float"@ {
                Some(ShaderInstanceAttributeType::Float)
            } else if value@ == "vec2"@ {
                Some(ShaderInstanceAttributeType::Vector2)
            } else if value@ == "vec4"@ {
                Some(ShaderInstanceAttributeType::Vector4)
            } else {
                None
            },
    {
        if str_eq(value, "int") {
            Some(ShaderInstanceAttributeType::Int)
        } else if str_eq(value, "uint") {
            Some(ShaderInstanceAttributeType::UInt)
        } else if str_eq(value, "float") {
            Some(ShaderInstanceAttributeType::Float)
        } else if str_eq(value, "vec2") {
            Some(ShaderInstanceAttributeType::Vector2)
        } else if str_eq(value, "vec4") {
            Some(ShaderInstanceAttributeType::Vector4)
        } else {
            None
        }
    }

    /// The name of the attribute type.
    pub fn name(&self) -> (name: String)
        ensures
            name@ == match self {
                ShaderInstanceAttributeType::Int => "int"@,
                ShaderInstanceAttributeType::UInt => "uint"@,
                ShaderInstanceAttributeType::Float => "float"@,
                ShaderInstanceAttributeType::Vector2 => "vec2"@,
                ShaderInstanceAttributeType::Vector4 => "vec4"@,
            },
    {
        match self {
            ShaderInstanceAttributeType::Int => "int".to_owned(),
            ShaderInstanceAttributeType::UInt => "uint".to_owned(),
            ShaderInstanceAttributeType::Float => "float".to_owned(),
            ShaderInstanceAttributeType::Vector2 => "vec2".to_owned(),
            ShaderInstanceAttributeType::Vector4 => "vec4".to_owned(),
        }
    }
}

/// Reads how an image is loaded: its "type" field, "image" or "texture";
/// an image for any other value or when the field is missing.
pub fn read_image_settings(settings: &Settings) -> (res: ImageResourceSettings)
    ensures
        res == if text_or(settings.string_field("type"@), "image"@) == "texture"@ {
            ImageResourceSettings::Texture {}
        } else {
            ImageResourceSettings::Image {}
        },
{
    let ty = settings.get_string("type", "image".to_owned());
    proof {
        reveal_strlit("image");
        reveal_strlit("texture");
        assert("image"@.len() != "texture"@.len());
    }
    if str_eq(ty.as_str(), "image") {
        ImageResourceSettings::Image {}
    } else if str_eq(ty.as_str(), "texture") {
        ImageResourceSettings::Texture {}
    } else {
        ImageResourceSettings::Image {}
    }
}

/// Reads how a texture is loaded; textures have no setting.
pub fn read_texture_settings(_settings: &Settings) -> (res: TextureResourceSettings)
    ensures
        res == (TextureResourceSettings {}),
{
    TextureResourceSettings {}
}

/// Reads a group of bindings, one per element.
pub fn read_shader_binding_group_settings(settings: &[Settings]) -> (res: ShaderBindingGroup)
    ensures
        res.bindings@ == settings@.map_values(|params: Settings| binding_of(params)),
{
    let mut bindings: Vec<ShaderBinding> = Vec::new();
    let n = settings.len();
    let mut i: usize = 0;
    while i < n
        invariant
            n == settings@.len(),
            i <= n,
            bindings@ == settings@.take(i as int).map_values(|params: Settings| binding_of(params)),
        decreases n - i,
    {
        let params = &settings[i];
        let visibility_name = params.get_string("visibility", String::new());
        let visibility = if str_eq(visibility_name.as_str(), "vertex") {
            ShaderBindingVisibility::Vertex
        } else if str_eq(visibility_name.as_str(), "fragment") {
            ShaderBindingVisibility::Fragment
        } else {
            ShaderBindingVisibility::default()
        };
        let kind_name = params.get_string("type", String::new());
        let ty = if str_eq(kind_name.as_str(), "texture") {
            ShaderBindingType::Texture
        } else if str_eq(kind_name.as_str(), "sampler") {
            ShaderBindingType::Sampler
        } else if str_eq(kind_name.as_str(), "uniform") {
            ShaderBindingType::Uniform
        } else {
            ShaderBindingType::default()
        };
        bindings.push(ShaderBinding { visibility, ty });
        assert(bindings@ =~= settings@.take(i + 1).map_values(
            |params: Settings| binding_of(params),
        ));
        i = i + 1;
    }
    assert(settings@.take(n as int) =~= settings@);
    ShaderBindingGroup { bindings }
}

/// Reads the instance attributes, one per element.
pub fn read_shader_instance_attributes_settings(settings: &[Settings]) -> (res: Vec<
    ShaderInstanceAttribute,
>)
    ensures
        res@ == settings@.map_values(|params: Settings| instance_attribute_of(params)),
{
    let mut attributes: Vec<ShaderInstanceAttribute> = Vec::new();
    let n = settings.len();
    let mut i: usize = 0;
    while i < n
        invariant
            n == settings@.len(),
            i <= n,
            attributes@ == settings@.take(i as int).map_values(
                |params: Settings| instance_attribute_of(params),
            ),
        decreases n - i,
    {
        let params = &settings[i];
        let location = params.get_u32("location", 0);
        let kind_name = params.get_string("type", String::new());
        let ty = if str_eq(kind_name.as_str(), "int") {
            ShaderInstanceAttributeType::Int
        } else if str_eq(kind_name.as_str(), "uint") {
            ShaderInstanceAttributeType::UInt
        } else if str_eq(kind_name.as_str(), "float") {
            ShaderInstanceAttributeType::Float
        } else if str_eq(kind_name.as_str(), "vec2") {
            ShaderInstanceAttributeType::Vector2
        } else if str_eq(kind_name.as_str(), "vec4") {
            ShaderInstanceAttributeType::Vector4
        } else {
            ShaderInstanceAttributeType::default()
        };
        attributes.push(ShaderInstanceAttribute { location, ty });
        assert(attributes@ =~= settings@.take(i + 1).map_values(
            |params: Settings| instance_attribute_of(params),
        ));
        i = i + 1;
    }
    assert(settings@.take(n as int) =~= settings@);
    attributes
}

/// Reads how a shader is loaded: a group of bindings for each array in
/// "binding_groups", and the instance attributes of "instance_attributes".
pub fn read_shader_settings(settings: &Settings) -> (res: ShaderResourceSettings)
    ensures
        res.binding_groups@.len() == arrays_among(
            text_or_items(settings.array_field("binding_groups"@)),
        ).len(),
        forall|i: int|
            0 <= i < res.binding_groups@.len() ==> (#[trigger] res.binding_groups@[i]).bindings@
                == arrays_among(text_or_items(settings.array_field("binding_groups"@)))[i].map_values(
                |params: Settings| binding_of(params),
            ),
        res.instance_attributes@ == text_or_items(
            settings.array_field("instance_attributes"@),
        ).map_values(|params: Settings| instance_attribute_of(params)),
{
    let groups = settings.get_array("binding_groups");
    let ghost items = groups@;
    let mut binding_groups: Vec<ShaderBindingGroup> = Vec::new();
    let n = groups.len();
    let mut i: usize = 0;
    assert(items.take(0) =~= Seq::<Settings>::empty());
    while i < n
        invariant
            n == items.len(),
            items == groups@,
            i <= n,
            binding_groups@.len() == arrays_among(items.take(i as int)).len(),
            forall|k: int|
                0 <= k < binding_groups@.len() ==> (#[trigger] binding_groups@[k]).bindings@
                    == arrays_among(items.take(i as int))[k].map_values(
                    |params: Settings| binding_of(params),
                ),
        decreases n - i,
    {
        proof {
            assert(items.take(i + 1).drop_last() =~= items.take(i as int));
            assert(items.take(i + 1).last() == items[i as int]);
        }
        match &groups[i] {
            Settings::Array(params) => {
                let group = read_shader_binding_group_settings(params.as_slice());
                binding_groups.push(group);
            },
            _ => {},
        }
        i = i + 1;
    }
    assert(items.take(n as int) =~= items);
    let attributes = settings.get_array("instance_attributes");
    let instance_attributes = read_shader_instance_attributes_settings(attributes);
    ShaderResourceSettings { binding_groups, instance_attributes }
}

/// The items, or none when there are none.
pub open spec fn text_or_items(items: Option<Seq<Settings>>) -> Seq<Settings> {
    match items {
        Some(v) => v,
        None => Seq::empty(),
    }
}

/// Reads an instance attribute of a material: "matrix4", "rect" or "vec4"
/// with the locations of its vectors; none for any other type.
pub fn build_material_instance_attribute(settings: &Settings) -> (res: Option<
    MaterialInstanceAttribute,
>)
    ensures
        res == material_attribute_of(*settings),
{
    let ty = settings.get_string("type", String::new());
    if str_eq(ty.as_str(), "matrix4") {
        Some(
            MaterialInstanceAttribute::Matrix4 {
                vec0_location: settings.get_u32("vec0_location", 0),
                vec1_location: settings.get_u32("vec1_location", 0),
                vec2_location: settings.get_u32("vec2_location", 0),
                vec3_location: settings.get_u32("vec3_location", 0),
            },
        )
    } else if str_eq(ty.as_str(), "rect") {
        Some(
            MaterialInstanceAttribute::Rect {
                vec0_location: settings.get_u32("vec0_location", 0),
                vec1_location: settings.get_u32("vec1_location", 0),
            },
        )
    } else if str_eq(ty.as_str(), "vec4") {
        Some(MaterialInstanceAttribute::Vector4 { location: settings.get_u32("location", 0) })
    } else {
        None
    }
}

/// Each binding read from a settings object sees the stage its
/// "visibility" field names: "vertex" the vertex stage, "fragment" the
/// fragment stage, and the vertex stage, the default, for any other text or
/// none; and holds what its "type" field names: "texture", "sampler" or
/// "uniform", a texture for any other text or none.
pub proof fn lemma_binding_read_from_names(params: Settings)
    ensures
        params.string_field("visibility"@) == Some("vertex"@) ==> binding_of(params).visibility
            == ShaderBindingVisibility::Vertex,
        params.string_field("visibility"@) == Some("fragment"@) ==> binding_of(params).visibility
            == ShaderBindingVisibility::Fragment,
        params.string_field("visibility"@) != Some("vertex"@) && params.string_field(
            "visibility"@,
        ) != Some("fragment"@) ==> binding_of(params).visibility == ShaderBindingVisibility::Vertex,
        params.string_field("type"@) == Some("texture"@) ==> binding_of(params).ty
            == ShaderBindingType::Texture,
        params.string_field("type"@) == Some("sampler"@) ==> binding_of(params).ty
            == ShaderBindingType::Sampler,
        params.string_field("type"@) == Some("uniform"@) ==> binding_of(params).ty
            == ShaderBindingType::Uniform,
        params.string_field("type"@) != Some("texture"@) && params.string_field("type"@) != Some(
            "sampler"@,
        ) && params.string_field("type"@) != Some("uniform"@) ==> binding_of(params).ty
            == ShaderBindingType::Texture,
{
    reveal_strlit("vertex");
    reveal_strlit("fragment");
    reveal_strlit("texture");
    reveal_strlit("sampler");
    reveal_strlit("uniform");
    assert("vertex"@.len() > 0);
    assert("fragment"@.len() > 0);
    assert("texture"@.len() > 0);
    assert("sampler"@.len() > 0);
    assert("uniform"@.len() > 0);
    assert("vertex"@ != "fragment"@) by {
        assert("vertex"@.len() != "fragment"@.len());
    }
    assert("texture"@ != "sampler"@) by {
        assert("texture"@[0] != "sampler"@[0]);
    }
    assert("texture"@ != "uniform"@) by {
        assert("texture"@[0] != "uniform"@[0]);
    }
    assert("sampler"@ != "uniform"@) by {
        assert("sampler"@[0] != "uniform"@[0]);
    }
}

/// Each instance attribute of a shader is at the location its "location"
/// field holds (0 when it holds no number that fits a `u32`), and has the
/// type its "type" field names: "int", "uint", "float", "vec2" or "vec4",
/// a float for any other text or none.
pub proof fn lemma_instance_attribute_read_from_names(params: Settings)
    ensures
        params.u32_field("location"@) matches Some(v) ==> instance_attribute_of(params).location == v,
        params.u32_field("location"@) is None ==> instance_attribute_of(params).location == 0,
        params.string_field("type"@) == Some("int"@) ==> instance_attribute_of(params).ty
            == ShaderInstanceAttributeType::Int,
        params.string_field("type"@) == Some("uint"@) ==> instance_attribute_of(params).ty
            == ShaderInstanceAttributeType::UInt,
        params.string_field("type"@) == Some("float"@) ==> instance_attribute_of(params).ty
            == ShaderInstanceAttributeType::Float,
        params.string_field("type"@) == Some("vec2"@) ==> instance_attribute_of(params).ty
            == ShaderInstanceAttributeType::Vector2,
        params.string_field("type"@) == Some("vec4"@) ==> instance_attribute_of(params).ty
            == ShaderInstanceAttributeType::Vector4,
        params.string_field("type"@) != Some("int"@) && params.string_field("type"@) != Some("uint"@)
            && params.string_field("type"@) != Some("vec2"@) && params.string_field("type"@)
            != Some("vec4"@) ==> instance_attribute_of(params).ty == ShaderInstanceAttributeType::Float,
{
    reveal_strlit("int");
    reveal_strlit("uint");
    reveal_strlit("float");
    reveal_strlit("vec2");
    reveal_strlit("vec4");
    assert("int"@.len() > 0);
    assert("uint"@.len() > 0);
    assert("float"@.len() > 0);
    assert("vec2"@.len() > 0);
    assert("vec4"@.len() > 0);
    assert("int"@ != "uint"@) by {
        assert("int"@.len() != "uint"@.len());
    }
    assert("int"@ != "float"@) by {
        assert("int"@.len() != "float"@.len());
    }
    assert("int"@ != "vec2"@) by {
        assert("int"@.len() != "vec2"@.len());
    }
    assert("int"@ != "vec4"@) by {
        assert("int"@.len() != "vec4"@.len());
    }
    assert("uint"@ != "float"@) by {
        assert("uint"@.len() != "float"@.len());
    }
    assert("uint"@ != "vec2"@) by {
        assert("uint"@[0] != "vec2"@[0]);
    }
    assert("uint"@ != "vec4"@) by {
        assert("uint"@[0] != "vec4"@[0]);
    }
    assert("float"@ != "vec2"@) by {
        assert("float"@.len() != "vec2"@.len());
    }
    assert("float"@ != "vec4"@) by {
        assert("float"@.len() != "vec4"@.len());
    }
    assert("vec2"@ != "vec4"@) by {
        assert("vec2"@[3] != "vec4"@[3]);
    }
}

/// The location read from field `key`: its number when it holds one that
/// fits a `u32`, else 0.
pub open spec fn location_field(settings: Settings, key: Seq<char>) -> u32 {
    match settings.u32_field(key) {
        Some(v) => v,
        None => 0,
    }
}

/// An instance attribute of a material has the kind its "type" field names,
/// and each of its locations is read from the field of its own name:
/// "matrix4" gives four vectors at "vec0_location" to "vec3_location",
/// "rect" two at "vec0_location" and "vec1_location", "vec4" one at
/// "location"; any other type, or none, gives no attribute.
pub proof fn lemma_material_attribute_read_from_names(settings: Settings)
    ensures
        settings.string_field("type"@) == Some("matrix4"@) ==> material_attribute_of(settings) == Some(
            MaterialInstanceAttribute::Matrix4 {
                vec0_location: location_field(settings, "vec0_location"@),
                vec1_location: location_field(settings, "vec1_location"@),
                vec2_location: location_field(settings, "vec2_location"@),
                vec3_location: location_field(settings, "vec3_location"@),
            },
        ),
        settings.string_field("type"@) == Some("rect"@) ==> material_attribute_of(settings) == Some(
            MaterialInstanceAttribute::Rect {
                vec0_location: location_field(settings, "vec0_location"@),
                vec1_location: location_field(settings, "vec1_location"@),
            },
        ),
        settings.string_field("type"@) == Some("vec4"@) ==> material_attribute_of(settings) == Some(
            MaterialInstanceAttribute::Vector4 { location: location_field(settings, "location"@) },
        ),
        settings.string_field("type"@) != Some("matrix4"@) && settings.string_field("type"@)
            != Some("rect"@) && settings.string_field("type"@) != Some("vec4"@)
            ==> material_attribute_of(settings) is None,
{
    reveal_strlit("matrix4");
    reveal_strlit("rect");
    reveal_strlit("vec4");
    assert("matrix4"@.len() > 0);
    assert("rect"@.len() > 0);
    assert("vec4"@.len() > 0);
    assert("matrix4"@ != "rect"@) by {
        assert("matrix4"@.len() != "rect"@.len());
    }
    assert("matrix4"@ != "vec4"@) by {
        assert("matrix4"@.len() != "vec4"@.len());
    }
    assert("rect"@ != "vec4"@) by {
        assert("rect"@[0] != "vec4"@[0]);
    }
}

/// Whether a setting is an array.
pub open spec fn is_array() -> spec_fn(Settings) -> bool {
    |item: Settings| item is Array
}

/// The binding groups a shader reads are the arrays among the items, in
/// order, each with its elements; every item that is not an array is left
/// out.
pub proof fn lemma_arrays_among_filters(items: Seq<Settings>)
    ensures
        arrays_among(items) == items.filter(is_array()).map_values(|item: Settings| item->Array_0@),
    decreases items.len(),
{
    reveal(Seq::filter);
    if items.len() > 0 {
        lemma_arrays_among_filters(items.drop_last());
        let before = items.drop_last().filter(is_array());
        if items.last() is Array {
            assert(before.push(items.last()).map_values(|item: Settings| item->Array_0@) =~= before.map_values(
                |item: Settings| item->Array_0@,
            ).push(items.last()->Array_0@));
        }
    }
}

} // verus!
