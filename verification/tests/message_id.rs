use conflict_detector::conflict::message_id::{id_equal, id_less};

#[test]
fn id_less_is_lexicographic() {
    let mut a = [0u8; 32];
    let mut b = [0u8; 32];
    a[0] = 1;
    b[1] = 200;
    assert!(!id_less(&a, &b));
    assert!(id_less(&b, &a));
    assert!(!id_less(&a, &a));
    let mut c = a;
    c[31] = 1;
    assert!(id_less(&a, &c));
    assert!(!id_less(&c, &a));
}

#[test]
fn id_equal_compares_every_byte() {
    let a = [5u8; 32];
    let mut b = [5u8; 32];
    assert!(id_equal(&a, &b));
    b[31] = 6;
    assert!(!id_equal(&a, &b));
    b[31] = 5;
    b[0] = 4;
    assert!(!id_equal(&a, &b));
}
