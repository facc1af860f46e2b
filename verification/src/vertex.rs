//! Vertex buffer layouts: attributes laid out one behind the other.

use vstd::prelude::*;

verus! {

/// The format of one vertex attribute.
#[derive(Debug, Clone, Copy, PartialEq, Eq, Structural)]
pub enum VertexFormat {
    Uchar2,
    Uchar4,
    Char2,
    Char4,
    Uchar2Norm,
    Uchar4Norm,
    Char2Norm,
    Char4Norm,
    Ushort2,
    Ushort4,
    Short2,
    Short4,
    Ushort2Norm,
    Ushort4Norm,
    Short2Norm,
    Short4Norm,
    Half2,
    Half4,
    Float,
    Float2,
    Float3,
    Float4,
    Uint,
    Uint2,
    Uint3,
    Uint4,
    Int,
    Int2,
    Int3,
    Int4,
}

/// How a vertex buffer is stepped through.
#[derive(Debug, Clone, Copy, PartialEq, Eq, Structural)]
pub enum InputStepMode {
    Vertex,
    Instance,
}

/// One attribute of a vertex: its format, where it begins in the vertex,
/// and the shader location it is bound to.
#[derive(Debug, Clone, Copy, PartialEq, Eq, Structural)]
pub struct VertexAttributeDescriptor {
    pub format: VertexFormat,
    pub offset: u64,
    pub shader_location: u32,
}

/// The layout of a vertex buffer: the size of one vertex and its
/// attributes.
#[derive(Debug, PartialEq, Eq)]
pub struct VertexBufferDescriptor {
    pub stride: u64,
    pub step_mode: InputStepMode,
    pub attributes: Vec<VertexAttributeDescriptor>,
}

/// The size in bytes of an attribute of the format `format`.
pub open spec fn format_size(format: VertexFormat) -> nat {
    match format {
        VertexFormat::Uchar2
        | VertexFormat::Char2
        | VertexFormat::Uchar2Norm
        | VertexFormat::Char2Norm => 2,
        VertexFormat::Uchar4
        | VertexFormat::Char4
        | VertexFormat::Uchar4Norm
        | VertexFormat::Char4Norm
        | VertexFormat::Ushort2
        | VertexFormat::Short2
        | VertexFormat::Ushort2Norm
        | VertexFormat::Short2Norm
        | VertexFormat::Half2
        | VertexFormat::Float
        | VertexFormat::Uint
        | VertexFormat::Int => 4,
        VertexFormat::Ushort4
        | VertexFormat::Short4
        | VertexFormat::Ushort4Norm
        | VertexFormat::Short4Norm
        | VertexFormat::Half4
        | VertexFormat::Float2
        | VertexFormat::Uint2
        | VertexFormat::Int2 => 8,
        VertexFormat::Float3
        | VertexFormat::Uint3
        | VertexFormat::Int3 => 12,
        VertexFormat::Float4
        | VertexFormat::Uint4
        | VertexFormat::Int4 => 16,
    }
}

/// The size in bytes of the first `count` attributes of `entries`
/// together.
pub open spec fn span(entries: Seq<(u32, VertexFormat)>, count: int) -> nat
    decreases count,
{
    if count <= 0 {
        0
    } else {
        span(entries, count - 1) + format_size(entries[count - 1].1)
    }
}

/// The size in bytes of an attribute of the format `format`.
pub fn vertex_format_size(format: VertexFormat) -> (r: u64)
    ensures
        r == format_size(format),
{
    match format {
        VertexFormat::Uchar2
        | VertexFormat::Char2
        | VertexFormat::Uchar2Norm
        | VertexFormat::Char2Norm => 2,
        VertexFormat::Uchar4
        | VertexFormat::Char4
        | VertexFormat::Uchar4Norm
        | VertexFormat::Char4Norm
        | VertexFormat::Ushort2
        | VertexFormat::Short2
        | VertexFormat::Ushort2Norm
        | VertexFormat::Short2Norm
        | VertexFormat::Half2
        | VertexFormat::Float
        | VertexFormat::Uint
        | VertexFormat::Int => 4,
        VertexFormat::Ushort4
        | VertexFormat::Short4
        | VertexFormat::Ushort4Norm
        | VertexFormat::Short4Norm
        | VertexFormat::Half4
        | VertexFormat::Float2
        | VertexFormat::Uint2
        | VertexFormat::Int2 => 8,
        VertexFormat::Float3
        | VertexFormat::Uint3
        | VertexFormat::Int3 => 12,
        VertexFormat::Float4
        | VertexFormat::Uint4
        | VertexFormat::Int4 => 16,
    }
}

/// The attributes `entries`, each a shader location and a format, laid out
/// in the order given: each begins where the one before it ends, the first
/// at zero.
pub fn vertex_attr_array(entries: &[(u32, VertexFormat)]) -> (r: Vec<VertexAttributeDescriptor>)
    requires
        span(entries@, entries@.len() as int) <= u64::MAX,
    ensures
        r@.len() == entries@.len(),
        forall|i: int|
            0 <= i < r@.len() ==> (#[trigger] r@[i]) == (VertexAttributeDescriptor {
                format: entries@[i].1,
                offset: span(entries@, i) as u64,
                shader_location: entries@[i].0,
            }),
{
    let mut out: Vec<VertexAttributeDescriptor> = Vec::new();
    let mut offset: u64 = 0;
    let mut i: usize = 0;
    while i < entries.len()
        invariant
            i <= entries@.len(),
            out@.len() == i,
            offset == span(entries@, i as int),
            span(entries@, entries@.len() as int) <= u64::MAX,
            forall|k: int|
                0 <= k < i ==> (#[trigger] out@[k]) == (VertexAttributeDescriptor {
                    format: entries@[k].1,
                    offset: span(entries@, k) as u64,
                    shader_location: entries@[k].0,
                }),
        decreases entries@.len() - i,
    {
        let (location, format) = entries[i];
        out.push(VertexAttributeDescriptor { format, offset, shader_location: location });
        proof {
            lemma_span_grows(entries@, i + 1, entries@.len() as int);
        }
        offset = offset + vertex_format_size(format);
        i += 1;
    }
    out
}

/// More attributes never take less room.
pub proof fn lemma_span_grows(entries: Seq<(u32, VertexFormat)>, fewer: int, more: int)
    requires
        fewer <= more,
    ensures
        span(entries, fewer) <= span(entries, more),
    decreases more - fewer,
{
    if fewer < more {
        lemma_span_grows(entries, fewer, more - 1);
    }
}

/// The layout of a buffer of vertices with the attributes `entries`: the
/// attributes laid out one behind the other, the stride their size
/// together, stepped per vertex.
pub fn vertex_desc(entries: &[(u32, VertexFormat)]) -> (r: VertexBufferDescriptor)
    requires
        span(entries@, entries@.len() as int) <= u64::MAX,
    ensures
        r.stride == span(entries@, entries@.len() as int),
        r.step_mode == InputStepMode::Vertex,
        r.attributes@.len() == entries@.len(),
        forall|i: int|
            0 <= i < r.attributes@.len() ==> (#[trigger] r.attributes@[i]) == (
            VertexAttributeDescriptor {
                format: entries@[i].1,
                offset: span(entries@, i) as u64,
                shader_location: entries@[i].0,
            }),
{
    let attributes = vertex_attr_array(entries);
    let mut stride: u64 = 0;
    let mut i: usize = 0;
    while i < entries.len()
        invariant
            i <= entries@.len(),
            stride == span(entries@, i as int),
            span(entries@, entries@.len() as int) <= u64::MAX,
        decreases entries@.len() - i,
    {
        proof {
            lemma_span_grows(entries@, i + 1, entries@.len() as int);
        }
        stride = stride + vertex_format_size(entries[i].1);
        i += 1;
    }
    VertexBufferDescriptor { stride, step_mode: InputStepMode::Vertex, attributes }
}

} // verus!
