use persistent_rbtree::RcSliceableString;

#[test]
fn test_rc_sliceable_string() {
    let s_base = RcSliceableString::new("Hello world".to_owned());
    let s_sliced = s_base.slice(0, 5);
    assert_eq!(s_sliced.as_str(), "Hello");
}

#[test]
fn whole_string_is_the_first_window() {
    let s = RcSliceableString::new("Hello world".to_owned());
    assert_eq!(s.as_str(), "Hello world");
}

#[test]
fn empty_string_has_an_empty_window() {
    let s = RcSliceableString::new(String::new());
    assert_eq!(s.as_str(), "");
    assert_eq!(s.slice(0, 0).as_str(), "");
}

#[test]
fn window_in_the_middle() {
    let s = RcSliceableString::new("Hello world".to_owned());
    assert_eq!(s.slice(6, 5).as_str(), "world");
    assert_eq!(s.slice(4, 3).as_str(), "o w");
}

#[test]
fn empty_window_at_the_end() {
    let s = RcSliceableString::new("Hello world".to_owned());
    assert_eq!(s.slice(11, 0).as_str(), "");
}

#[test]
fn window_of_a_window_counts_from_the_start_of_the_whole_string() {
    let s = RcSliceableString::new("Hello world".to_owned());
    let world = s.slice(6, 5);
    // Positions are those of the whole string: "or" is at bytes 7 and 8.
    assert_eq!(world.slice(7, 2).as_str(), "or");
    assert_eq!(world.slice(6, 5).as_str(), "world");
}

#[test]
fn a_window_keeps_the_string_alive() {
    let window = {
        let s = RcSliceableString::new("Hello world".to_owned());
        s.slice(0, 5)
    };
    assert_eq!(window.as_str(), "Hello");
}

#[test]
fn windows_between_characters_of_several_bytes() {
    // 'é' takes two bytes, '€' three.
    let s = RcSliceableString::new("é€x".to_owned());
    assert_eq!(s.slice(0, 2).as_str(), "é");
    assert_eq!(s.slice(2, 3).as_str(), "€");
    assert_eq!(s.slice(2, 4).as_str(), "€x");
    assert_eq!(s.slice(5, 1).as_str(), "x");
}
