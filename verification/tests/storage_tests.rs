use neurobin::errors::CacheError;
use neurobin::storage::Storage;
use neurobin::tensor::{RegionElem, Tensor};

fn full_2x2() -> Vec<RegionElem> {
    vec![RegionElem { start: 0, end: 2, step: 1 }; 2]
}

#[test]
fn test_new() {
    let storage: Storage = Storage::new(&vec![2, 2]).unwrap();
    assert_eq!(storage.get_data().shape(), vec![2, 2]);
}

#[test]
fn test_set_subarray() {
    let mut storage: Storage = Storage::new(&vec![2, 2]).unwrap();
    let values = Tensor::from_parts(&vec![2, 2], &vec![1, 2, 3, 4]).unwrap();
    let indices = full_2x2();
    storage.set_subarray(&indices, &values).unwrap();
    assert_eq!(storage.get_data().to_vec(), vec![1, 2, 3, 4]);
}

#[test]
fn test_get_data() {
    let mut storage: Storage = Storage::new(&vec![2, 2]).unwrap();
    let values = Tensor::from_parts(&vec![2, 2], &vec![1, 2, 3, 4]).unwrap();
    let indices = full_2x2();
    storage.set_subarray(&indices, &values).unwrap();
    let retrieved_data = storage.get_data();
    assert_eq!(retrieved_data.to_vec(), vec![1, 2, 3, 4]);
}

#[test]
fn test_get_subarray() {
    let mut storage: Storage = Storage::new(&vec![2, 2]).unwrap();
    let values = Tensor::from_parts(&vec![2, 2], &vec![1, 2, 3, 4]).unwrap();
    let indices = full_2x2();
    storage.set_subarray(&indices, &values).unwrap();
    let retrieved_values = storage.get_subarray(&indices).unwrap();
    assert_eq!(retrieved_values.to_vec(), vec![1, 2, 3, 4]);
    assert_eq!(retrieved_values.shape(), vec![2, 2]);
}

#[test]
fn test_storage_zero_initialized() {
    let storage: Storage = Storage::new(&vec![2, 2]).unwrap();
    assert_eq!(storage.get_data().to_vec(), vec![0, 0, 0, 0]);
}

#[test]
fn test_storage_rejects_huge_shape() {
    let r = Storage::new(&vec![usize::MAX, 2]);
    assert_eq!(r.unwrap_err(), CacheError::InvalidShape);
}

#[test]
fn test_storage_empty_dimension() {
    let storage: Storage = Storage::new(&vec![0, 3]).unwrap();
    assert_eq!(storage.get_data().shape(), vec![0, 3]);
    assert_eq!(storage.get_data().to_vec(), Vec::<i64>::new());
}

#[test]
fn test_set_subarray_partial() {
    let mut storage: Storage = Storage::new(&vec![2, 2]).unwrap();
    let values = Tensor::from_parts(&vec![1, 1], &vec![9]).unwrap();
    let region = vec![
        RegionElem { start: 1, end: 2, step: 1 },
        RegionElem { start: 0, end: 1, step: 1 },
    ];
    storage.set_subarray(&region, &values).unwrap();
    assert_eq!(storage.get_data().to_vec(), vec![0, 0, 9, 0]);
}

#[test]
fn test_set_subarray_shape_mismatch() {
    let mut storage: Storage = Storage::new(&vec![2, 2]).unwrap();
    let values = Tensor::from_parts(&vec![2, 2], &vec![1, 2, 3, 4]).unwrap();
    let region = vec![
        RegionElem { start: 0, end: 1, step: 1 },
        RegionElem { start: 0, end: 1, step: 1 },
    ];
    assert_eq!(storage.set_subarray(&region, &values), Err(CacheError::InvalidShape));
    assert_eq!(storage.get_data().to_vec(), vec![0, 0, 0, 0]);
}

#[test]
fn test_set_subarray_out_of_bounds() {
    let mut storage: Storage = Storage::new(&vec![2, 2]).unwrap();
    let values = Tensor::from_parts(&vec![2, 2], &vec![1, 2, 3, 4]).unwrap();
    let region = vec![
        RegionElem { start: 0, end: 3, step: 1 },
        RegionElem { start: 0, end: 2, step: 1 },
    ];
    assert_eq!(storage.set_subarray(&region, &values), Err(CacheError::InvalidShape));
}

#[test]
fn test_get_subarray_partial() {
    let mut storage: Storage = Storage::new(&vec![2, 2]).unwrap();
    let values = Tensor::from_parts(&vec![2, 2], &vec![1, 2, 3, 4]).unwrap();
    let indices = full_2x2();
    storage.set_subarray(&indices, &values).unwrap();
    let region = vec![
        RegionElem { start: 0, end: 1, step: 1 },
        RegionElem { start: 0, end: 2, step: 1 },
    ];
    let top_row = storage.get_subarray(&region).unwrap();
    assert_eq!(top_row.shape(), vec![1, 2]);
    assert_eq!(top_row.to_vec(), vec![1, 2]);
}

#[test]
fn test_get_subarray_step() {
    let mut storage: Storage = Storage::new(&vec![4]).unwrap();
    let values = Tensor::from_parts(&vec![4], &vec![5, 6, 7, 8]).unwrap();
    let full = vec![RegionElem { start: 0, end: 4, step: 1 }];
    storage.set_subarray(&full, &values).unwrap();
    let region = vec![RegionElem { start: 0, end: 4, step: 2 }];
    let strided = storage.get_subarray(&region).unwrap();
    assert_eq!(strided.shape(), vec![2]);
    assert_eq!(strided.to_vec(), vec![5, 7]);
}

#[test]
fn test_tensor_from_parts_mismatch() {
    let r = Tensor::from_parts(&vec![2, 2], &vec![1, 2, 3]);
    assert_eq!(r.unwrap_err(), CacheError::InvalidShape);
}

#[test]
fn test_storage_zero_dimension_beside_huge() {
    let storage: Storage = Storage::new(&vec![0, isize::MAX as usize]).unwrap();
    assert_eq!(storage.get_data().shape(), vec![0, isize::MAX as usize]);
    assert_eq!(storage.get_data().to_vec(), Vec::<i64>::new());
}

#[test]
fn test_storage_rejects_byte_overflow() {
    let r = Storage::new(&vec![isize::MAX as usize]);
    assert!(matches!(r, Err(CacheError::InvalidShape)));
}
