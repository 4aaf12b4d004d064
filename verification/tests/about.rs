use floe_web::about::notice_page;
use floe_web::geometry::{ceil_half, contains, distance_to_rect};
use floe_web::labels::BBox;

#[test]
fn notice_pages_are_short_canonical_numbers() {
    assert_eq!(notice_page("0"), Ok(0));
    assert_eq!(notice_page("4294967295"), Ok(4294967295));
    for bad in ["", "01", "12345678901", "1a", "-1", "+1"] {
        assert_eq!(notice_page(bad), Err("invalid_notice_page"), "{bad}");
    }
}

fn b(x0: i64, y0: i64, x1: i64, y1: i64) -> BBox {
    BBox { x0, y0, x1, y1 }
}

#[test]
fn box_bounds_are_conservative_and_saturate() {
    assert!(contains(b(0, 0, 10, 10), b(2, 2, 3, 3)));
    assert!(!contains(b(0, 0, 10, 10), b(-1, 2, 3, 3)));
    assert_eq!(distance_to_rect(b(0, 0, 10, 10), b(2, 3, 9, 4)), 6);
    assert_eq!(distance_to_rect(b(0, 0, 10, 10), b(0, 0, 10, 10)), 0);
    assert_eq!(distance_to_rect(b(5, 5, 6, 6), b(0, 0, 10, 10)), 0);
    assert_eq!(distance_to_rect(b(i64::MIN, 0, i64::MAX, 0), b(i64::MAX, 0, i64::MAX, 0)), u64::MAX);
    assert_eq!(ceil_half(5), 3);
    assert_eq!(ceil_half(4), 2);
    assert_eq!(ceil_half(-9), 0);
    assert_eq!(ceil_half(0), 0);
    assert_eq!(ceil_half(i128::from(u64::MAX) * 4), u64::MAX);
}
