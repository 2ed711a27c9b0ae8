use rapier_cloth::session::command_permitted;
use rapier_cloth::{RequestVerdict, Session};

#[test]
fn request_ids_must_increase() {
    let mut s = Session::new();
    assert_eq!(s.last_request(), 0);
    assert_eq!(s.receive(Some(0)), RequestVerdict::Close);
    assert_eq!(s.receive(Some(1)), RequestVerdict::Run);
    assert_eq!(s.receive(Some(5)), RequestVerdict::Run);
    assert_eq!(s.last_request(), 5);
    assert_eq!(s.receive(Some(5)), RequestVerdict::Close);
    assert_eq!(s.receive(Some(3)), RequestVerdict::Close);
    assert_eq!(s.receive(None), RequestVerdict::Close);
    assert_eq!(s.last_request(), 5);
    assert_eq!(s.receive(Some(6)), RequestVerdict::Run);
}

#[test]
fn a_failed_simulation_only_accepts_a_reset() {
    assert!(command_permitted(false, false));
    assert!(command_permitted(false, true));
    assert!(command_permitted(true, true));
    assert!(!command_permitted(true, false));
}
