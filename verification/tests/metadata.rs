use floe_web::metadata::{type_page, TypeCatalog};

fn catalog() -> TypeCatalog {
    TypeCatalog::new(vec![("width".into(), 3), ("space".into(), 2), ("other".into(), 1)])
}

#[test]
fn types_filter_checks_and_empty_metadata_offers_none() {
    let c = catalog();
    assert!(c.has_type("space"));
    assert!(!c.has_type("enclosure"));
    let width = vec!["width".to_string(), "area".to_string()];
    assert!(c.matches(Some(&width), "width"));
    assert!(!c.matches(Some(&width), "other"));
    assert!(c.matches(None, "other"));
    assert!(!c.matches(None, "width"));
    let empty = TypeCatalog::new(vec![]);
    assert!(!empty.matches(None, "other"));
    assert!(!empty.matches(Some(&width), "width"));
}

#[test]
fn type_pages_are_bounded_and_refuse_a_late_cursor() {
    let c = catalog();
    let p = type_page(Some(&c), 1, 1).unwrap();
    assert_eq!((p.available, p.total, p.next), (true, 3, Some(2)));
    assert_eq!(p.rows, vec![("space".to_string(), 2)]);
    let last = type_page(Some(&c), 1, usize::MAX).unwrap();
    assert_eq!((last.rows.len(), last.next), (2, None));
    assert!(type_page(Some(&c), 3, 5).unwrap().rows.is_empty());
    assert_eq!(type_page(Some(&c), 4, 5).err(), Some("DRC type cursor"));
    let none = type_page(None, 0, 5).unwrap();
    assert_eq!((none.available, none.total, none.rows.len(), none.next), (false, 0, 0, None));
    assert_eq!(type_page(None, 1, 5).err(), Some("DRC type cursor"));
}
