use wgsl_modules::vertex::{
    vertex_attr_array, vertex_desc, vertex_format_size, InputStepMode, VertexFormat,
};

#[test]
fn test_vertex_attr_array() {
    let attrs = vertex_attr_array(&[(0, VertexFormat::Float2), (3, VertexFormat::Ushort4)]);
    assert_eq!(attrs.len(), 2);
    assert_eq!(attrs[0].offset, 0);
    assert_eq!(attrs[0].shader_location, 0);
    assert_eq!(attrs[1].offset, std::mem::size_of::<(f32, f32)>() as u64);
    assert_eq!(attrs[1].shader_location, 3);
}

#[test]
fn vertex_attr_array_of_nothing_is_empty() {
    let attrs = vertex_attr_array(&[]);
    assert!(attrs.is_empty());
}

#[test]
fn vertex_attr_array_keeps_formats_and_sums_offsets() {
    let attrs = vertex_attr_array(&[
        (0, VertexFormat::Float3),
        (1, VertexFormat::Uchar4Norm),
        (2, VertexFormat::Half4),
        (7, VertexFormat::Int4),
    ]);
    assert_eq!(attrs.len(), 4);
    assert_eq!(attrs[0].format, VertexFormat::Float3);
    assert_eq!(attrs[1].format, VertexFormat::Uchar4Norm);
    assert_eq!(attrs[2].format, VertexFormat::Half4);
    assert_eq!(attrs[3].format, VertexFormat::Int4);
    assert_eq!(attrs[0].offset, 0);
    assert_eq!(attrs[1].offset, 12);
    assert_eq!(attrs[2].offset, 16);
    assert_eq!(attrs[3].offset, 24);
    assert_eq!(attrs[3].shader_location, 7);
}

#[test]
fn vertex_desc_has_stride_of_all_attributes() {
    let desc = vertex_desc(&[(0, VertexFormat::Float2), (1, VertexFormat::Float), (2, VertexFormat::Ushort4)]);
    assert_eq!(desc.stride, 20);
    assert_eq!(desc.step_mode, InputStepMode::Vertex);
    assert_eq!(desc.attributes.len(), 3);
    assert_eq!(desc.attributes[2].offset, 12);
    assert_eq!(desc.attributes[2].shader_location, 2);
}

#[test]
fn vertex_desc_of_nothing_has_no_stride() {
    let desc = vertex_desc(&[]);
    assert_eq!(desc.stride, 0);
    assert!(desc.attributes.is_empty());
}

#[test]
fn vertex_format_sizes() {
    assert_eq!(vertex_format_size(VertexFormat::Uchar2), 2);
    assert_eq!(vertex_format_size(VertexFormat::Char4Norm), 4);
    assert_eq!(vertex_format_size(VertexFormat::Short4), 8);
    assert_eq!(vertex_format_size(VertexFormat::Half2), 4);
    assert_eq!(vertex_format_size(VertexFormat::Float), 4);
    assert_eq!(vertex_format_size(VertexFormat::Float3), 12);
    assert_eq!(vertex_format_size(VertexFormat::Uint4), 16);
    assert_eq!(vertex_format_size(VertexFormat::Int2), 8);
}
