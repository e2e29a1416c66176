use rstex::catcode::CatcodeTable;
use rstex::token::TokenType;

#[test]
fn default_classification_matches_the_fixed_table() {
    let t = CatcodeTable::new();
    assert_eq!(t.get(b'\\'), TokenType::Escape);
    assert_eq!(t.get(b'{'), TokenType::BeginGroup);
    assert_eq!(t.get(b'}'), TokenType::EndGroup);
    assert_eq!(t.get(b'$'), TokenType::MathShift);
    assert_eq!(t.get(b'&'), TokenType::AlignTab);
    assert_eq!(t.get(b'\n'), TokenType::Eol);
    assert_eq!(t.get(b'#'), TokenType::Parameter);
    assert_eq!(t.get(b'^'), TokenType::Superscript);
    assert_eq!(t.get(b'_'), TokenType::Subscript);
    assert_eq!(t.get(0x00), TokenType::Ignored);
    assert_eq!(t.get(b'\r'), TokenType::Ignored);
    assert_eq!(t.get(b' '), TokenType::Space);
    assert_eq!(t.get(b'\t'), TokenType::Space);
    assert_eq!(t.get(b'a'), TokenType::Letter);
    assert_eq!(t.get(b'Q'), TokenType::Letter);
    assert_eq!(t.get(b'~'), TokenType::Active);
    assert_eq!(t.get(b'%'), TokenType::Comment);
    assert_eq!(t.get(0x7f), TokenType::Invalid);
    assert_eq!(t.get(b'3'), TokenType::Other);
    assert_eq!(t.get(0x80), TokenType::Other);
    assert_eq!(t.get(0xff), TokenType::Other);
}

#[test]
fn an_override_wins_and_leaves_the_rest_alone() {
    let mut t = CatcodeTable::new();
    t.set(b'@', TokenType::Letter);
    assert_eq!(t.get(b'@'), TokenType::Letter);
    assert_eq!(t.get(b'a'), TokenType::Letter);
    assert_eq!(t.get(b'%'), TokenType::Comment);
    t.set(b'@', TokenType::Other);
    assert_eq!(t.get(b'@'), TokenType::Other);
}
