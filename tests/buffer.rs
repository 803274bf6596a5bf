use puzzle_grids::buffer::{eval_all, parse_commands, Buffer, Command, CommandInterpreter, Mode};

fn row_text(b: &Buffer, y: u8, width: u8) -> String {
    (0..width).map(|x| b.get_char_at(x, y)).collect()
}

#[test]
fn dp253_test_create() {
    let mut b = Buffer::default_buffer();

    let cmds: Vec<Command> = parse_commands("Mein name ist Alex^h^cD").unwrap();

    eval_all(&mut b, &cmds);

    assert_eq!("D         ", row_text(&b, 0, 10));
    assert_eq!("          ", row_text(&b, 1, 10));
}

#[test]
fn parse_commands_reads_controls() {
    let cmds = parse_commands("a^^b\n  ^i^o  \n\n^e^u^d^l^r^b").unwrap();
    assert_eq!(
        cmds,
        vec![
            Command::WriteChar('a'),
            Command::WriteChar('^'),
            Command::WriteChar('b'),
            Command::ChangeMode(Mode::Insert),
            Command::ChangeMode(Mode::Overwrite),
            Command::DelRight,
            Command::MoveUp,
            Command::MoveDown,
            Command::MoveLeft,
            Command::MoveRight,
            Command::CarriageReturn,
        ]
    );
}

#[test]
fn parse_commands_errors() {
    assert_eq!(Err("Unknown control char: x".to_string()), parse_commands("ab^x"));
    assert_eq!(Err("Missing control char after ^".to_string()), parse_commands("ab^"));
    assert_eq!(Ok(Vec::new()), parse_commands(""));
}

#[test]
fn writing_wraps_rows_and_screen() {
    let mut b = Buffer::new(2, 2);
    for c in "abcde".chars() {
        b.write_char(c);
    }
    assert_eq!("eb", row_text(&b, 0, 2));
    assert_eq!("cd", row_text(&b, 1, 2));
}

#[test]
fn cursor_moves() {
    let mut b = Buffer::new(3, 3);
    assert_eq!((3, 3), (b.get_width(), b.get_height()));
    b.set_pos(2, 1);
    b.put_char('x');
    assert_eq!('x', b.get_char_at(2, 1));
    b.move_cur(-2, 1);
    b.put_char('y');
    assert_eq!('y', b.get_char_at(0, 2));
    b.set_x(1);
    b.set_y(0);
    b.put_char('z');
    assert_eq!('z', b.get_char_at(1, 0));
    b.cls();
    assert_eq!("   ", row_text(&b, 0, 3));
}

#[test]
fn eval_carries_out_commands() {
    let mut b = Buffer::new(3, 1);
    b.eval(&Command::WriteChar('a'));
    b.eval(&Command::WriteChar('b'));
    b.eval(&Command::CarriageReturn);
    b.eval(&Command::WriteChar('c'));
    assert_eq!("cb ", row_text(&b, 0, 3));
    b.eval(&Command::Home);
    b.eval(&Command::ClearScreen);
    assert_eq!("   ", row_text(&b, 0, 3));
}
