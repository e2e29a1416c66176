use rstex::lexer::Lexer;
use rstex::token::{Span, Token, TokenType};

fn lex(input: &[u8]) -> Vec<Token> {
    let mut lexer = Lexer::new(input.to_vec());
    lexer.tokens()
}

fn span(start: usize, end: usize) -> Span {
    Span { start, end }
}

#[test]
fn empty_input_yields_no_tokens() {
    assert_eq!(lex(b"").len(), 0);
}

#[test]
fn blank_lines_become_paragraph_breaks() {
    // Two consecutive end-of-line markers in state N: a par token each,
    // with no textual origin, and no space token anywhere.
    let toks = lex(b"\n\n");
    assert_eq!(toks.len(), 2);
    for t in &toks {
        assert_eq!(t.typ, TokenType::Escape);
        assert_eq!(t.source, b"par".to_vec());
        assert_eq!(t.range, span(0, 0));
    }
    assert!(toks.iter().all(|t| t.typ != TokenType::Space));
}

#[test]
fn control_word_absorbs_following_spaces() {
    // "\TeX  is": the two spaces after the control word are fully
    // absorbed; no space token stands between the name and the letters.
    let toks = lex(b"\\TeX  is");
    assert_eq!(toks[0].typ, TokenType::Escape);
    assert_eq!(toks[0].source, b"TeX".to_vec());
    assert_eq!(toks[0].range, span(0, 4));
    assert_eq!(toks[1].typ, TokenType::Letter);
    assert_eq!(toks[1].source, b"i".to_vec());
    assert_eq!(toks[2].typ, TokenType::Letter);
    assert_eq!(toks[2].source, b"s".to_vec());
}

#[test]
fn space_run_collapses_to_one_token() {
    let toks = lex(b"a  b");
    assert_eq!(toks[0].typ, TokenType::Letter);
    assert_eq!(toks[0].source, b"a".to_vec());
    assert_eq!(toks[1].typ, TokenType::Space);
    assert_eq!(toks[1].source, b" ".to_vec());
    assert_eq!(toks[1].range, span(1, 3));
    assert_eq!(toks[2].typ, TokenType::Letter);
    assert_eq!(toks[2].source, b"b".to_vec());
}

#[test]
fn hex_escape_notation_decodes_to_letter() {
    // "^^41" is 0x41 = 'A': one letter token covering all four bytes.
    let toks = lex(b"^^41");
    assert_eq!(toks[0].typ, TokenType::Letter);
    assert_eq!(toks[0].source, b"A".to_vec());
    assert_eq!(toks[0].range, span(0, 4));
}

#[test]
fn fold_escape_notation_is_reclassified() {
    // "^^M" folds 77 - 64 = 13, a carriage return, which classifies as
    // ignored and is dropped without a token.
    let toks = lex(b"x^^M");
    assert_eq!(toks.len(), 2);
    assert_eq!(toks[0].typ, TokenType::Letter);
    assert_eq!(toks[1].typ, TokenType::Space); // the end of line in state M
}

#[test]
fn fold_escape_notation_wraps_below_64() {
    // '+' is 43; the fold wraps modulo 256 to 43 + 192 = 235, an "other".
    let toks = lex(b"^^+");
    assert_eq!(toks[0].typ, TokenType::Other);
    assert_eq!(toks[0].source, vec![235u8]);
    assert_eq!(toks[0].range, span(0, 3));
}

#[test]
fn escape_notation_cascades() {
    // "^^5e" decodes to '^' itself, which starts another round with the
    // following "^A": fold of 'A' (65) is 1, an "other" character.
    let toks = lex(b"^^5e^A");
    assert_eq!(toks[0].typ, TokenType::Other);
    assert_eq!(toks[0].source, vec![1u8]);
    assert_eq!(toks[0].range, span(0, 6));
}

#[test]
fn hex_digits_are_lowercase_only() {
    // "^^4A": 'A' is no hex digit here, so only '4' is folded
    // (52 + 192 = 244) and the 'A' is scanned as an ordinary letter.
    let toks = lex(b"^^4A");
    assert_eq!(toks[0].typ, TokenType::Other);
    assert_eq!(toks[0].source, vec![244u8]);
    assert_eq!(toks[0].range, span(0, 3));
    assert_eq!(toks[1].typ, TokenType::Letter);
    assert_eq!(toks[1].source, b"A".to_vec());
}

#[test]
fn null_control_sequence_at_end_of_line() {
    // A lone backslash right before the end of line: an escape token with
    // empty text; the end of line itself then yields the usual space.
    let toks = lex(b"\\");
    assert_eq!(toks[0].typ, TokenType::Escape);
    assert_eq!(toks[0].source, Vec::<u8>::new());
    assert_eq!(toks[0].range, span(0, 1));
}

#[test]
fn control_symbol_takes_one_character() {
    let toks = lex(b"\\$x");
    assert_eq!(toks[0].typ, TokenType::Escape);
    assert_eq!(toks[0].source, b"$".to_vec());
    assert_eq!(toks[0].range, span(0, 2));
    assert_eq!(toks[1].typ, TokenType::Letter);
    assert_eq!(toks[1].source, b"x".to_vec());
}

#[test]
fn control_word_accepts_decoded_letters() {
    // "^^62" decodes to 'b' mid-name: the control word is "abc".
    let toks = lex(b"\\a^^62c");
    assert_eq!(toks[0].typ, TokenType::Escape);
    assert_eq!(toks[0].source, b"abc".to_vec());
    assert_eq!(toks[0].range, span(0, 7));
}

#[test]
fn comment_discards_to_end_of_line() {
    // "a%x\nA" with state M at the '%': the 'x' is discarded, the end of
    // line still yields its space token, then the 'A'.
    let toks = lex(b"a%x\nA");
    assert_eq!(toks[0].typ, TokenType::Letter);
    assert_eq!(toks[0].source, b"a".to_vec());
    assert_eq!(toks[1].typ, TokenType::Space);
    assert_eq!(toks[1].range, span(3, 4));
    assert_eq!(toks[2].typ, TokenType::Letter);
    assert_eq!(toks[2].source, b"A".to_vec());
}

#[test]
fn comment_at_end_of_input() {
    let toks = lex(b"a%xyz");
    assert_eq!(toks.len(), 2);
    assert_eq!(toks[0].typ, TokenType::Letter);
    assert_eq!(toks[1].typ, TokenType::Space);
}

#[test]
fn ignored_characters_vanish() {
    let toks = lex(b"a\0b");
    assert_eq!(toks.len(), 3);
    assert_eq!(toks[0].source, b"a".to_vec());
    assert_eq!(toks[1].source, b"b".to_vec());
    assert_eq!(toks[1].range, span(2, 3));
    assert_eq!(toks[2].typ, TokenType::Space);
}

#[test]
fn invalid_characters_are_dropped_and_reported() {
    let mut lexer = Lexer::new(b"a\x7fb".to_vec());
    let toks = lexer.tokens();
    assert_eq!(toks[0].source, b"a".to_vec());
    assert_eq!(toks[1].source, b"b".to_vec());
    assert_eq!(lexer.invalid_positions(), &vec![1usize]);
}

#[test]
fn trailing_blanks_are_trimmed_before_scanning() {
    // "ab  \ncd": the trailing blanks never reach the scanner; the end of
    // line supplies the one space token, at the newline's own position.
    let toks = lex(b"ab  \ncd");
    assert_eq!(toks[0].source, b"a".to_vec());
    assert_eq!(toks[1].source, b"b".to_vec());
    assert_eq!(toks[2].typ, TokenType::Space);
    assert_eq!(toks[2].range, span(4, 5));
    assert_eq!(toks[3].source, b"c".to_vec());
}

#[test]
fn leading_spaces_on_a_line_are_skipped() {
    let toks = lex(b"  a");
    assert_eq!(toks[0].typ, TokenType::Letter);
    assert_eq!(toks[0].source, b"a".to_vec());
    assert_eq!(toks[0].range, span(2, 3));
}

#[test]
fn control_word_keeps_skipping_across_the_line_end() {
    // After "\TeX" the scanner is skipping blanks: the end of line and the
    // next line's leading spaces all vanish.
    let toks = lex(b"\\TeX\n  x");
    assert_eq!(toks[0].typ, TokenType::Escape);
    assert_eq!(toks[0].source, b"TeX".to_vec());
    assert_eq!(toks[1].typ, TokenType::Letter);
    assert_eq!(toks[1].source, b"x".to_vec());
}

#[test]
fn skip_blanks_swallows_a_blank_line() {
    // In the skip-blanks state even a wholly blank line yields nothing:
    // no paragraph break, no space.
    let toks = lex(b"\\foo\n\nx");
    assert_eq!(toks.len(), 3);
    assert_eq!(toks[0].typ, TokenType::Escape);
    assert_eq!(toks[0].source, b"foo".to_vec());
    assert_eq!(toks[1].typ, TokenType::Letter);
    assert_eq!(toks[1].source, b"x".to_vec());
    assert_eq!(toks[2].typ, TokenType::Space);
}

#[test]
fn grouping_and_special_characters_classify() {
    let toks = lex(b"{}$&#_~?");
    let typs: Vec<TokenType> = toks.iter().map(|t| t.typ).collect();
    assert_eq!(
        typs,
        vec![
            TokenType::BeginGroup,
            TokenType::EndGroup,
            TokenType::MathShift,
            TokenType::AlignTab,
            TokenType::Parameter,
            TokenType::Subscript,
            TokenType::Active,
            TokenType::Other,
            TokenType::Space, // the end of line
        ]
    );
}

#[test]
fn lone_superscript_is_an_ordinary_token() {
    // "^a": the pattern needs an identical character right after.
    let toks = lex(b"^a");
    assert_eq!(toks[0].typ, TokenType::Superscript);
    assert_eq!(toks[0].source, b"^".to_vec());
    assert_eq!(toks[1].typ, TokenType::Letter);
}

#[test]
fn catcode_override_changes_classification() {
    let mut lexer = Lexer::new(b"\\a@b".to_vec());
    lexer.set_catcode(b'@', TokenType::Letter);
    let toks = lexer.tokens();
    assert_eq!(toks[0].typ, TokenType::Escape);
    assert_eq!(toks[0].source, b"a@b".to_vec());
}

#[test]
fn catcode_changes_apply_between_token_requests() {
    // The table is read fresh on every classification: a change between
    // requests shows at once, never retroactively.
    let mut lexer = Lexer::new(b"bb".to_vec());
    let t1 = lexer.next().unwrap();
    assert_eq!(t1.typ, TokenType::Letter);
    lexer.set_catcode(b'b', TokenType::Other);
    let t2 = lexer.next().unwrap();
    assert_eq!(t2.typ, TokenType::Other);
}

#[test]
fn replay_yields_identical_sequence() {
    // Determinism at the executable level: two fresh instances over the
    // same input and table agree token by token.
    let input = b"\\TeX  is %fine\n^^41  done\n\n";
    let first = lex(input);
    let second = lex(input);
    assert_eq!(first.len(), second.len());
    for (a, b) in first.iter().zip(second.iter()) {
        assert_eq!(a.typ, b.typ);
        assert_eq!(a.range, b.range);
        assert_eq!(a.source, b.source);
    }
}

#[test]
fn ranges_are_monotone_and_in_bounds() {
    let input = b"\\TeX  is %fine\n^^41 {x}\n\n done";
    let toks = lex(input);
    let ranged: Vec<&Token> = toks.iter().filter(|t| t.range.start < t.range.end).collect();
    for w in ranged.windows(2) {
        assert!(w[0].range.end <= w[1].range.start);
    }
    for t in &ranged {
        assert!(t.range.end <= input.len());
    }
}

#[test]
fn tab_counts_as_space() {
    let toks = lex(b"a\tb");
    assert_eq!(toks[0].typ, TokenType::Letter);
    assert_eq!(toks[1].typ, TokenType::Space);
    assert_eq!(toks[1].source, b" ".to_vec());
    assert_eq!(toks[2].typ, TokenType::Letter);
    assert_eq!(toks[2].source, b"b".to_vec());
}

#[test]
fn carriage_returns_are_ignored() {
    let toks = lex(b"ab\r\ncd");
    assert_eq!(toks[0].source, b"a".to_vec());
    assert_eq!(toks[1].source, b"b".to_vec());
    assert_eq!(toks[2].typ, TokenType::Space);
    assert_eq!(toks[2].range, span(3, 4));
    assert_eq!(toks[3].source, b"c".to_vec());
    assert_eq!(toks[4].source, b"d".to_vec());
}

#[test]
fn pattern_may_reach_the_synthetic_line_end() {
    // "^^" right before the synthesized end of line: the newline is a
    // character below 128, so the pattern triggers and folds it
    // (10 + 192 = 202), consuming the line end.
    let toks = lex(b"^^");
    assert_eq!(toks.len(), 1);
    assert_eq!(toks[0].typ, TokenType::Other);
    assert_eq!(toks[0].source, vec![202u8]);
    assert_eq!(toks[0].range, span(0, 2));
}

#[test]
fn cursor_always_advances() {
    // Termination: the token count never exceeds the input length plus
    // the synthesized line ends.
    let input = b"a%b\n\\x  \n\n^^41";
    let toks = lex(input);
    assert!(toks.len() <= input.len() + 1);
}
