use floe_web::assets::{asset, guest_page};

#[test]
fn only_embedded_assets_of_the_served_bundle_are_found() {
    let js = Some("text/javascript; charset=utf-8");
    let css = Some("text/css; charset=utf-8");
    assert_eq!(asset("b1", "b1", "app.js"), js);
    assert_eq!(asset("b1", "b1", "panel-state.js"), js);
    assert_eq!(asset("b1", "b1", "guest-display.js"), js);
    assert_eq!(asset("b1", "b1", "app.css"), css);
    assert_eq!(asset("b1", "b1", "guest.css"), css);
    assert_eq!(asset("b0", "b1", "app.js"), None);
    assert_eq!(asset("b1", "b1", "missing.js"), None);
    assert_eq!(asset("b1", "b1", "../ui/app.js"), None);
    assert_eq!(asset("b1", "b1", "/etc/passwd"), None);
    assert_eq!(asset("b1", "b1", ""), None);
}

#[test]
fn the_guest_page_needs_sharing_and_a_share_identity() {
    let id = "0123456789abcdef".repeat(4);
    assert!(guest_page(true, &id));
    assert!(!guest_page(false, &id));
    assert!(!guest_page(true, &id[..63]));
    assert!(!guest_page(true, &id.to_uppercase()));
    assert!(!guest_page(true, &format!("{}g", &id[..63])));
    assert!(!guest_page(true, ""));
}
