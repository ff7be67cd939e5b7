use impulse_graph_tooling::tensors::{self, PropertyType, TensorDtype, TensorError};

fn shard(header: &str, data: &[u8]) -> Vec<u8> {
    let mut bytes = (header.len() as u64).to_le_bytes().to_vec();
    bytes.extend_from_slice(header.as_bytes());
    bytes.extend_from_slice(data);
    bytes
}

#[test]
fn shard_tensors_are_read_with_type_shape_and_data() {
    let data: Vec<u8> = (0u8..24).collect();
    let bytes = shard(
        r#"{"w":{"dtype":"F32","shape":[2,2],"data_offsets":[0,16]},"b":{"dtype":"BF16","shape":[4],"data_offsets":[16,24]}}"#,
        &data,
    );
    let mut records = tensors::shard_tensors(&bytes).unwrap();
    records.sort_by(|a, b| a.name.cmp(&b.name));
    assert_eq!(records.len(), 2);
    assert_eq!(records[0].name, "b");
    assert_eq!(records[0].dtype, TensorDtype::BF16);
    assert_eq!(records[0].shape, vec![4]);
    assert_eq!(records[0].data, (16u8..24).collect::<Vec<u8>>());
    assert_eq!(records[1].name, "w");
    assert_eq!(records[1].dtype, TensorDtype::F32);
    assert_eq!(records[1].shape, vec![2, 2]);
    assert_eq!(records[1].data, (0u8..16).collect::<Vec<u8>>());
}

#[test]
fn malformed_shard_is_refused() {
    assert!(matches!(tensors::shard_tensors(&[1, 2, 3]), Err(TensorError::Malformed(_))));
    let bytes = shard(r#"{"w":{"dtype":"F32","shape":[2,2],"data_offsets":[0,16]}}"#, &[0u8; 8]);
    assert!(matches!(tensors::shard_tensors(&bytes), Err(TensorError::Malformed(_))));
}

#[test]
fn property_types_follow_the_element_types() {
    assert_eq!(tensors::property_type(TensorDtype::F32), PropertyType::Float32);
    assert_eq!(tensors::property_type(TensorDtype::F16), PropertyType::Float16);
    assert_eq!(tensors::property_type(TensorDtype::BF16), PropertyType::Float16);
    assert_eq!(tensors::property_type(TensorDtype::I32), PropertyType::Int32);
    assert_eq!(tensors::property_type(TensorDtype::I64), PropertyType::Int64);
    assert_eq!(tensors::property_type(TensorDtype::U8), PropertyType::Uint8);
    assert_eq!(tensors::property_type(TensorDtype::I8), PropertyType::Int8);
    assert_eq!(tensors::property_type(TensorDtype::Bool), PropertyType::Bool8);
    assert_eq!(tensors::property_type(TensorDtype::Other), PropertyType::Float32);
}

#[test]
fn property_columns_keep_record_order_and_count_bytes() {
    let bytes = shard(
        r#"{"a":{"dtype":"I64","shape":[1],"data_offsets":[0,8]},"m":{"dtype":"U16","shape":[2],"data_offsets":[8,12]}}"#,
        &[7u8; 12],
    );
    let mut records = tensors::shard_tensors(&bytes).unwrap();
    records.sort_by(|a, b| a.name.cmp(&b.name));
    assert_eq!(records[1].dtype, TensorDtype::Other);
    let (columns, total) = tensors::tensor_properties(records);
    assert_eq!(total, 12);
    assert_eq!(columns.len(), 2);
    assert_eq!(columns[0].0, "a");
    assert_eq!(columns[0].1, PropertyType::Int64);
    assert_eq!(columns[0].2, vec![7u8; 8]);
    assert_eq!(columns[1].0, "m");
    assert_eq!(columns[1].1, PropertyType::Float32);
    assert_eq!(columns[1].2, vec![7u8; 4]);
}
