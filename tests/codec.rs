use nextfit::colors::{CAML_BLACK, CAML_BLUE, CAML_GRAY, CAML_WHITE};
use nextfit::header::Header;
use nextfit::utils::{
    field_val, get_actual_wosz_to_request, get_layout, get_layout_and_actual_expansion_size,
    next_power_of_two, whsize_wosize, wosize_whsize,
};
use nextfit::value::Value;
use nextfit::word::Wsize;

#[test]
fn header_test() {
    let hd = Header::new(10, CAML_BLUE, 255);
    assert_eq!(*hd.get_wosize().get_val(), 10);
    assert_eq!(hd.get_color(), CAML_BLUE);
    assert_eq!(hd.get_tag(), 255);
}

#[test]
fn types_test() {
    let hd = Header::new(10, CAML_BLUE, 255);
    assert_eq!(hd.get_size(), 10);
    assert_eq!(hd.get_color(), CAML_BLUE);
    assert_eq!(hd.get_tag(), 255);
}

#[test]
fn field_val_test() {
    let mem = field_val(Value(0), 1).0;
    assert_eq!(field_val(Value(mem), -1), Value(0));
    assert_eq!(field_val(Value(0), 1), Value(8));
}

#[test]
fn header_word_layout() {
    let hd = Header::new(10, CAML_BLUE, 255);
    assert_eq!(hd.0, (10 << 10) + 512 + 255);
    let hd = Header::new(0, CAML_BLUE, 0);
    assert_eq!(hd.0, 512);
    assert_eq!(hd.get_wosize(), Wsize::new(0));
}

#[test]
fn header_round_trips_every_color() {
    for color in [CAML_WHITE, CAML_GRAY, CAML_BLUE, CAML_BLACK] {
        for tag in [0u8, 1, 128, 255] {
            let hd = Header::new(123_456, color, tag);
            assert_eq!(hd.get_size(), 123_456);
            assert_eq!(hd.get_color(), color);
            assert_eq!(hd.get_tag(), tag);
        }
    }
}

#[test]
fn header_largest_wosize() {
    let max = usize::MAX >> 10;
    let hd = Header::new(max, CAML_BLACK, 7);
    assert_eq!(hd.get_size(), max);
    assert_eq!(hd.get_color(), CAML_BLACK);
    assert_eq!(hd.get_tag(), 7);
}

#[test]
fn field_val_wraps() {
    assert_eq!(field_val(Value(0), -1), Value(usize::MAX - 7));
    assert_eq!(field_val(Value(usize::MAX - 7), 1), Value(0));
    assert_eq!(field_val(Value(800), -100), Value(0));
    assert_eq!(field_val(Value(16), 3), Value(40));
}

#[test]
fn word_size_conversions() {
    assert_eq!(Wsize::from_bytesize(1024).0, 128);
    assert_eq!(Wsize::from_bytesize(1023).0, 127);
    assert_eq!(Wsize::new(128).to_bytesize(), 1024);
    assert_eq!(whsize_wosize(Wsize::new(10)), Wsize::new(11));
    assert_eq!(wosize_whsize(Wsize::new(11)), Wsize::new(10));
}

#[test]
fn next_power_of_two_values() {
    assert_eq!(next_power_of_two(0), 1);
    assert_eq!(next_power_of_two(1), 1);
    assert_eq!(next_power_of_two(3), 4);
    assert_eq!(next_power_of_two(8000), 8192);
    assert_eq!(next_power_of_two(8192), 8192);
}

#[test]
fn layout_rounds_bytes_up_to_a_power_of_two() {
    let l = get_layout(Wsize::new(1000));
    assert_eq!(l.size(), 8192);
    assert_eq!(l.align, 8);
    let l = get_layout(Wsize::new(1024 * 1024));
    assert_eq!(l.size(), 8 * 1024 * 1024);
}

#[test]
fn expansion_size_doubles_large_requests() {
    let min = Wsize::new(131072);
    assert_eq!(get_actual_wosz_to_request(Wsize::new(10), min), min);
    assert_eq!(get_actual_wosz_to_request(Wsize::new(131072), min), Wsize::new(262144));
    assert_eq!(get_actual_wosz_to_request(Wsize::new(200000), min), Wsize::new(400000));
    let (layout, words) = get_layout_and_actual_expansion_size(Wsize::new(200000), min);
    assert_eq!(layout.size(), 4 * 1024 * 1024);
    assert_eq!(words, Wsize::new(512 * 1024));
}
