use iris::auth::{admin_verdict, bearer_token, AdminDenied, Claims};
use iris::frame::{frame_header, frame_len, FrameLen};

#[test]
fn frame_headers_are_big_endian() {
    assert_eq!(frame_header(0), [0, 0, 0, 0]);
    assert_eq!(frame_header(1), [0, 0, 0, 1]);
    assert_eq!(frame_header(0x0102_0304), [1, 2, 3, 4]);
    assert_eq!(frame_header(65536), [0, 1, 0, 0]);
}

#[test]
fn frame_lengths_read_back() {
    for n in [1usize, 255, 256, 70_000, 1 << 20] {
        match frame_len(&frame_header(n), 1 << 20) {
            FrameLen::Body(m) => assert_eq!(m, n),
            _ => panic!("expected a body"),
        }
    }
    assert!(matches!(frame_len(&[0, 0, 0, 0], 10), FrameLen::End));
    assert!(matches!(frame_len(&[0, 0, 0, 11], 10), FrameLen::TooLarge(11)));
    assert!(matches!(frame_len(&[255, 255, 255, 255], 10), FrameLen::TooLarge(4_294_967_295)));
}

fn claims(role: &str) -> Claims {
    Claims { sub: 1, username: "u".to_string(), role: role.to_string(), exp: 0 }
}

#[test]
fn bearer_tokens() {
    assert_eq!(bearer_token(Some("Bearer abc.def")), Some("abc.def".to_string()));
    assert_eq!(bearer_token(Some("bearer abc")), None);
    assert_eq!(bearer_token(Some("Basic xyz")), None);
    assert_eq!(bearer_token(None), None);
}

#[test]
fn admin_checks() {
    assert!(admin_verdict(&claims("admin"), Some("admin")).is_ok());
    assert!(matches!(admin_verdict(&claims("customer"), Some("admin")), Err(AdminDenied::NotAdmin)));
    assert!(matches!(admin_verdict(&claims("admin"), Some("customer")), Err(AdminDenied::RoleDowngraded)));
    assert!(matches!(admin_verdict(&claims("admin"), None), Err(AdminDenied::UserRemoved)));
    assert_eq!(AdminDenied::UserRemoved.message(), "user removed");
}

#[test]
fn token_claims_expire_in_a_week() {
    let c = iris::auth::token_claims(3, "bob", "customer", 1_000);
    assert_eq!((c.sub, c.username.as_str(), c.role.as_str(), c.exp), (3, "bob", "customer", 1_000 + 604_800));
}
