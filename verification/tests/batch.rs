use cog_engine::batch::{chunk_window, distinct_paths, list_offsets, present_positions, scatter};

#[test]
fn chunk_window_walks_rows_in_chunks() {
    assert_eq!(chunk_window(0, 5, 2048), Some((0, 5)));
    assert_eq!(chunk_window(0, 5000, 2048), Some((0, 2048)));
    assert_eq!(chunk_window(4096, 5000, 2048), Some((4096, 5000)));
    assert_eq!(chunk_window(2048, 4096, 2048), Some((2048, 4096)));
    assert_eq!(chunk_window(5, 5, 2048), None);
    assert_eq!(chunk_window(6144, 5000, 2048), None);
}

#[test]
fn list_offsets_are_running_sums() {
    assert_eq!(list_offsets(&vec![2, 0, 3]), (vec![0, 2, 2], 5));
    assert_eq!(list_offsets(&vec![]), (vec![], 0));
    assert_eq!(list_offsets(&vec![0, 0]), (vec![0, 0], 0));
}

#[test]
fn distinct_paths_open_each_path_once() {
    let rows = vec![
        Some("a.tif".to_string()),
        None,
        Some("b.tif".to_string()),
        Some("a.tif".to_string()),
        Some("b.tif".to_string()),
    ];
    let (uniq, index) = distinct_paths(&rows);
    assert_eq!(uniq, vec!["a.tif".to_string(), "b.tif".to_string()]);
    assert_eq!(index, vec![Some(0), None, Some(1), Some(0), Some(1)]);
    let (uniq, index) = distinct_paths(&vec![None, None]);
    assert!(uniq.is_empty());
    assert_eq!(index, vec![None, None]);
}

#[test]
fn points_with_null_coordinates_keep_their_place() {
    let x_null = vec![false, true, false, false];
    let y_null = vec![false, false, false, true];
    let pos = present_positions(&x_null, &y_null);
    assert_eq!(pos, vec![0, 2]);
    let values = vec![Some(1.5f64), None];
    assert_eq!(scatter(4, &pos, &values), vec![Some(1.5), None, None, None]);
    assert_eq!(scatter::<f64>(0, &vec![], &vec![]), vec![]);
    // positions and values pair up to the shorter list
    assert_eq!(scatter(3, &vec![0, 2], &vec![Some(1.0f64)]), vec![Some(1.0), None, None]);
    assert_eq!(scatter(3, &vec![1], &vec![Some(2u8), Some(3u8)]), vec![None, Some(2), None]);
}
