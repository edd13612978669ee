use pascal::text::superscript;

#[test]
fn digits_are_raised() {
    assert_eq!(superscript("0123456789"), "⁰¹²³⁴⁵⁶⁷⁸⁹");
    assert_eq!(superscript("35"), "³⁵");
}

#[test]
fn other_characters_stay() {
    assert_eq!(superscript(""), "");
    assert_eq!(superscript("x-1"), "x-¹");
    assert_eq!(superscript("é2²"), "é²²");
}
