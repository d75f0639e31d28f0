use scylla::port::{zoom_of, Zoom};

#[test]
fn zoom_levels_map() {
    assert_eq!(zoom_of(0), Zoom::Intent);
    assert_eq!(zoom_of(1), Zoom::Domain);
    assert_eq!(zoom_of(2), Zoom::Detail);
    assert_eq!(zoom_of(99), Zoom::Domain); // default altitude
}
