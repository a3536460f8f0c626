use mpicd::capi::{CContext, BYTE, COMM_WORLD, ERR_INTERNAL, MAX_PREDEFINED, SUCCESS};
use mpicd::registry::Registry;

#[test]
fn registry_handle_reuse() {
    // After add, add, remove of the first handle and one more add, the first
    // handle is reused and the other handle's value does not change.
    let mut r: Registry<u32> = Registry::new();
    let h1 = r.add(10);
    let h2 = r.add(20);
    assert_ne!(h1, h2);
    let removed = r.remove(h1);
    assert_eq!(removed, 10);
    assert!(!r.contains(h1));
    assert!(r.contains(h2));
    let h3 = r.add(30);
    assert_eq!(h3, h1);
    assert!(r.contains(h2));
    assert_eq!(r.remove(h2), 20);
    assert_eq!(r.remove(h3), 30);
}

#[test]
fn registry_fresh_handles_are_dense() {
    let mut r: Registry<u8> = Registry::new();
    let h0 = r.add(1);
    let h1 = r.add(2);
    let h2 = r.add(3);
    assert_eq!(h0, 0);
    assert_eq!(h1, 1);
    assert_eq!(h2, 2);
    assert_eq!(r.capacity(), 3);
    // Removal keeps the table dense; the slot is reused, not shifted.
    let _ = r.remove(h1);
    assert_eq!(r.capacity(), 3);
    let h3 = r.add(4);
    assert_eq!(h3, h1);
    assert_eq!(r.capacity(), 3);
}

#[test]
fn capi_constants() {
    assert_eq!(SUCCESS, 0);
    assert_eq!(ERR_INTERNAL, 1);
    assert_eq!(COMM_WORLD, 1);
    assert_eq!(BYTE, 1);
    assert_eq!(MAX_PREDEFINED, 1);
}

#[test]
fn capi_datatype_ids() {
    let mut c: CContext<&str> = CContext::new();
    // Built-in identifiers never resolve to a custom datatype.
    assert!(c.get_custom_datatype(BYTE).is_none());
    assert!(c.get_custom_datatype(0).is_none());
    let id1 = c.add_custom_datatype("first");
    let id2 = c.add_custom_datatype("second");
    assert_eq!(id1, MAX_PREDEFINED + 1);
    assert_eq!(id2, MAX_PREDEFINED + 2);
    assert_eq!(c.get_custom_datatype(id1), Some(&"first"));
    assert_eq!(c.get_custom_datatype(id2), Some(&"second"));
    assert!(c.get_custom_datatype(id2 + 1).is_none());
}
