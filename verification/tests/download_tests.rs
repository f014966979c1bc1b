use download_parallel::download::{
    chunk_file_name, chunk_path, count_after, create_slices, outcome, Outcome, PieceEvent,
};
use download_parallel::functions::chunk_order;

#[test]
fn slices_of_ten_in_three() {
    assert_eq!(create_slices(10, 3), vec![(0, 2), (3, 5), (6, 10)]);
}

#[test]
fn single_slice_covers_all() {
    assert_eq!(create_slices(5, 1), vec![(0, 5)]);
    assert_eq!(create_slices(0, 1), vec![(0, 0)]);
}

#[test]
fn slices_tile_the_file() {
    let r = create_slices(1_000_003, 7);
    assert_eq!(r.len(), 7);
    assert_eq!(r[0].0, 0);
    for i in 0..6 {
        assert_eq!(r[i + 1].0, r[i].1 + 1);
    }
    assert_eq!(r[6].1, 1_000_003);
}

#[test]
fn piece_names() {
    assert_eq!(chunk_file_name(3), "03_temp_file.temp");
    assert_eq!(chunk_file_name(12), "12_temp_file.temp");
    assert_eq!(chunk_file_name(123), "123_temp_file.temp");
    assert_eq!(chunk_path("/tmp/temp_folder", 7), "/tmp/temp_folder/07_temp_file.temp");
}

#[test]
fn sorted_piece_names_follow_piece_order() {
    let order = [5usize, 11, 0, 59, 23, 1, 10];
    let names: Vec<String> = order.iter().map(|&i| chunk_file_name(i)).collect();
    let mut idx: Vec<usize> = order.to_vec();
    idx.sort();
    let expected: Vec<String> = idx.iter().map(|&i| chunk_file_name(i)).collect();
    assert_eq!(chunk_order(names), expected);
}

#[test]
fn end_of_download_decision() {
    assert_eq!(outcome(true, 100), Outcome::Stopped);
    assert_eq!(outcome(false, 100), Outcome::Assemble);
    assert_eq!(outcome(false, 0), Outcome::Nothing);
}

#[test]
fn received_byte_count() {
    assert_eq!(count_after(10, false, PieceEvent::Received(5)), 15);
    assert_eq!(count_after(10, true, PieceEvent::Received(5)), 10);
    assert_eq!(count_after(10, false, PieceEvent::Failed), 0);
}
