use mailcheck::models::record::confidence_text;

#[test]
fn shows_confidence_cells() {
    assert_eq!(confidence_text(Some(88)), "88%");
    assert_eq!(confidence_text(Some(0)), "0%");
    assert_eq!(confidence_text(Some(255)), "255%");
    assert_eq!(confidence_text(None), "-");
}
