use puzzle_grids::indent::{Document, IndentChange, Line, StatementType};

#[test]
fn test_line_parse() {
    let normal_line = Line::parse("BLA");
    let indent_increase_line = Line::parse("IF blabla");
    let indent_decrease_line = Line::parse("NEXT blubb");

    assert_eq!(IndentChange::Same, normal_line.indent_change());
    assert_eq!(IndentChange::Increase, indent_increase_line.indent_change());
    assert_eq!(IndentChange::Decrease, indent_decrease_line.indent_change());

    assert_eq!(StatementType::Normal, normal_line.statement_type());
    assert_eq!(StatementType::If, indent_increase_line.statement_type());
    assert_eq!(StatementType::For, indent_decrease_line.statement_type());
}

#[test]
fn test_render_lines() {
    let lines = r#"
VAR I
 FOR I=1 TO 31
        IF !(I MOD 3) THEN
  PRINT "FIZZ"
      ENDIF
            IF !(I MOD 5) THEN
          PRINT "BUZZ"
                ENDIF
        IF (I MOD 3) && (I MOD 5) THEN
      PRINT "FIZZBUZZ"
      ENDIF
         NEXT
"#;

    let document = Document::from_str(lines);
    assert_eq!(14, document.len());
    assert_eq!(
        Some(vec![0, 0, 0, 1, 2, 1, 1, 2, 1, 1, 2, 1, 0, 0]),
        document.indents()
    );
    assert_eq!("FOR I=1 TO 31", document.line_text(2));
    assert_eq!("PRINT \"FIZZ\"", document.line_text(4));
}

#[test]
fn unmatched_blocks_are_refused() {
    assert_eq!(None, Document::from_str("NEXT").indents());
    assert_eq!(None, Document::from_str("FOR X\nENDIF").indents());
    assert_eq!(Some(vec![0, 1]), Document::from_str("IF A\nB").indents());
}

#[test]
fn keywords_must_match_exactly() {
    assert_eq!(IndentChange::Same, Line::parse("FORMAT x").indent_change());
    assert_eq!(IndentChange::Increase, Line::parse("  FOR  ").indent_change());
    assert_eq!(StatementType::If, Line::parse("ENDIF").statement_type());
    let doc = Document::new(vec![Line::parse("IF x"), Line::parse("y"), Line::parse("ENDIF")]);
    assert_eq!(Some(vec![0, 1, 0]), doc.indents());
}
