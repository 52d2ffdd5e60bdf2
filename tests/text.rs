use sibyl::text::{push_int, push_nat, push_text};

#[test]
fn decimal_of_naturals() {
    let mut s = String::from("n=");
    push_nat(&mut s, 0);
    push_text(&mut s, ",");
    push_nat(&mut s, 1234567890);
    push_text(&mut s, ",");
    push_nat(&mut s, u128::MAX);
    assert_eq!(s, "n=0,1234567890,340282366920938463463374607431768211455");
}

#[test]
fn decimal_of_signed() {
    let mut s = String::new();
    push_int(&mut s, -7);
    push_text(&mut s, " ");
    push_int(&mut s, 10);
    push_text(&mut s, " ");
    push_int(&mut s, i128::MIN);
    assert_eq!(s, "-7 10 -170141183460469231731687303715884105728");
}
