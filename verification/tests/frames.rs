use sdfart::frames::frame_filename;

#[test]
fn frame_filename_pads_to_ten_digits() {
    assert_eq!(frame_filename(0), "image0000000000.png");
    assert_eq!(frame_filename(7), "image0000000007.png");
    assert_eq!(frame_filename(49), "image0000000049.png");
    assert_eq!(frame_filename(1234567), "image0001234567.png");
}

#[test]
fn frame_filename_of_largest_index() {
    assert_eq!(frame_filename(u32::MAX), "image4294967295.png");
}

#[test]
fn frame_filename_matches_padded_format() {
    for i in [0u32, 1, 9, 10, 99, 100, 40, 65535, 1000000000, 4000000000] {
        assert_eq!(frame_filename(i), format!("image{:0>10}.png", i));
    }
}

#[test]
fn frame_filenames_are_distinct() {
    let names: Vec<String> = (0..200).map(frame_filename).collect();
    for i in 0..names.len() {
        for j in 0..i {
            assert_ne!(names[i], names[j]);
        }
    }
}
