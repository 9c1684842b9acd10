use lobster::Side;

#[test]
fn side_negation() {
    assert_eq!(!Side::Ask, Side::Bid);
    assert_eq!(!Side::Bid, Side::Ask);
}
