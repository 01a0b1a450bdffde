use gloom_rs::layout::{
    byte_size_of_array, offset, size_of, vao_plan, AttributeLayout, BufferSource, BufferTarget,
    BufferUpload,
};

#[test]
fn byte_size_of_float_and_index_arrays() {
    let vertices: Vec<f32> = vec![-0.8, -0.8, -1.0, -0.3, -0.8, -1.0, -0.5, -0.3, -1.0];
    assert_eq!(byte_size_of_array(&vertices), 36);
    let indices: Vec<u32> = vec![0, 1, 2, 3, 4, 5, 6, 7, 8, 9, 10, 11, 12, 13, 14];
    assert_eq!(byte_size_of_array(&indices), 60);
    let empty: Vec<u64> = Vec::new();
    assert_eq!(byte_size_of_array(&empty), 0);
}

#[test]
fn size_of_primitive_types() {
    assert_eq!(size_of::<f32>(), 4);
    assert_eq!(size_of::<u64>(), 8);
    assert_eq!(size_of::<u8>(), 1);
    assert_eq!(size_of::<()>(), 0);
}

#[test]
fn offset_counts_whole_values() {
    assert_eq!(offset::<f32>(0), 0);
    assert_eq!(offset::<f32>(3), 12);
    assert_eq!(offset::<u64>(4), 32);
}

#[test]
fn vao_plan_lists_the_four_buffers_in_order() {
    let vertices: Vec<f32> = vec![0.0; 9];
    let colors: Vec<f32> = vec![1.0; 12];
    let normals: Vec<f32> = vec![0.5; 9];
    let indices: Vec<u32> = vec![0, 1, 2];
    let plan = vao_plan(&vertices, &indices, &colors, &normals);
    assert_eq!(plan.len(), 4);
    assert_eq!(
        plan[0],
        BufferUpload {
            source: BufferSource::Vertices,
            target: BufferTarget::Array,
            byte_size: 36,
            attribute: Some(AttributeLayout { location: 0, components: 3 }),
        }
    );
    assert_eq!(
        plan[1],
        BufferUpload {
            source: BufferSource::Colors,
            target: BufferTarget::Array,
            byte_size: 48,
            attribute: Some(AttributeLayout { location: 1, components: 4 }),
        }
    );
    assert_eq!(
        plan[2],
        BufferUpload {
            source: BufferSource::Normals,
            target: BufferTarget::Array,
            byte_size: 36,
            attribute: Some(AttributeLayout { location: 2, components: 3 }),
        }
    );
    assert_eq!(
        plan[3],
        BufferUpload {
            source: BufferSource::Indices,
            target: BufferTarget::ElementArray,
            byte_size: 12,
            attribute: None,
        }
    );
}
