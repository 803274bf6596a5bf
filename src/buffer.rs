//! A fixed-size text screen with a cursor, driven by editing commands.
use vstd::prelude::*;

use crate::text::{char_at, chars_of, lines_of, text_lines, trim_text, trimmed, unknown_control_message};

verus! {

/// How written characters treat what is under the cursor.
#[derive(Debug, Clone, Copy, PartialEq, Eq, Structural)]
pub enum Mode {
    Insert,
    Overwrite,
}

/// One editing command.
#[derive(Debug, Clone, Copy, PartialEq, Eq, Structural)]
pub enum Command {
    Nop,
    ClearScreen,
    Home,
    CarriageReturn,
    MoveDown,
    MoveLeft,
    MoveRight,
    MoveUp,
    DelRight,
    ChangeMode(Mode),
    WriteChar(char),
    Move(u8, u8),
}

/// Something that carries out commands, one by one.
pub trait CommandInterpreter: View + Sized {
    /// `cmd` can be carried out from state `v`.
    spec fn accepts(v: Self::V, cmd: Command) -> bool;

    /// The state after carrying out `cmd` from state `v`.
    spec fn eval_spec(v: Self::V, cmd: Command) -> Self::V;

    /// Carries out `cmd`.
    fn eval(&mut self, cmd: &Command)
        requires
            Self::accepts(old(self)@, *cmd),
        ensures
            final(self)@ == Self::eval_spec(old(self)@, *cmd),
    ;
}

/// Every command of `cmds` can be carried out, in turn, from state `v`.
pub open spec fn accepts_all<I: CommandInterpreter>(v: I::V, cmds: Seq<Command>) -> bool
    decreases cmds.len(),
{
    if cmds.len() == 0 {
        true
    } else {
        I::accepts(v, cmds[0]) && accepts_all::<I>(I::eval_spec(v, cmds[0]), cmds.drop_first())
    }
}

/// The state after carrying out every command of `cmds`, in turn, from
/// state `v`.
pub open spec fn run<I: CommandInterpreter>(v: I::V, cmds: Seq<Command>) -> I::V
    decreases cmds.len(),
{
    if cmds.len() == 0 {
        v
    } else {
        run::<I>(I::eval_spec(v, cmds[0]), cmds.drop_first())
    }
}

/// Carries out every command of `cmds` on `interp`, in order.
pub fn eval_all<I: CommandInterpreter>(interp: &mut I, cmds: &Vec<Command>)
    requires
        accepts_all::<I>(old(interp)@, cmds@),
    ensures
        final(interp)@ == run::<I>(old(interp)@, cmds@),
{
    let mut i: usize = 0;
    let ghost start = interp@;
    assert(cmds@.skip(0) =~= cmds@);
    while i < cmds.len()
        invariant
            i <= cmds@.len(),
            accepts_all::<I>(interp@, cmds@.skip(i as int)),
            run::<I>(interp@, cmds@.skip(i as int)) == run::<I>(start, cmds@),
        decreases cmds@.len() - i,
    {
        proof {
            assert(cmds@.skip(i as int).drop_first() =~= cmds@.skip(i + 1));
        }
        interp.eval(&cmds[i]);
        i = i + 1;
    }
    assert(cmds@.skip(i as int) =~= Seq::<Command>::empty());
}

/// The command that `^` followed by `c` stands for, if any.
pub open spec fn control_command(c: char) -> Option<Command> {
    if c == 'c' {
        Some(Command::ClearScreen)
    } else if c == 'h' {
        Some(Command::Home)
    } else if c == 'b' {
        Some(Command::CarriageReturn)
    } else if c == 'd' {
        Some(Command::MoveDown)
    } else if c == 'u' {
        Some(Command::MoveUp)
    } else if c == 'l' {
        Some(Command::MoveLeft)
    } else if c == 'r' {
        Some(Command::MoveRight)
    } else if c == 'e' {
        Some(Command::DelRight)
    } else if c == 'i' {
        Some(Command::ChangeMode(Mode::Insert))
    } else if c == 'o' {
        Some(Command::ChangeMode(Mode::Overwrite))
    } else if c == '^' {
        Some(Command::WriteChar('^'))
    } else {
        None
    }
}

/// `prefix` put before the commands of `rest`, or the error of `rest`.
pub open spec fn prefixed(prefix: Seq<Command>, rest: Result<Seq<Command>, Option<char>>) -> Result<
    Seq<Command>,
    Option<char>,
> {
    match rest {
        Ok(cmds) => Ok(prefix + cmds),
        Err(e) => Err(e),
    }
}

/// The commands of one line: each character but `^` writes itself, and `^`
/// with the character after it is a control command. The error is the
/// unknown control character, or `None` for a `^` that ends the line.
#[verifier::opaque]
pub open spec fn parse_chars(cs: Seq<char>) -> Result<Seq<Command>, Option<char>>
    decreases cs.len(),
{
    if cs.len() == 0 {
        Ok(Seq::empty())
    } else if cs[0] != '^' {
        prefixed(seq![Command::WriteChar(cs[0])], parse_chars(cs.drop_first()))
    } else if cs.len() == 1 {
        Err(None)
    } else {
        match control_command(cs[1]) {
            Some(cmd) => prefixed(seq![cmd], parse_chars(cs.skip(2))),
            None => Err(Some(cs[1])),
        }
    }
}

/// The commands of all lines, each trimmed, in order; the first error stops.
pub open spec fn parse_lines(lines: Seq<Seq<char>>) -> Result<Seq<Command>, Option<char>>
    decreases lines.len(),
{
    if lines.len() == 0 {
        Ok(Seq::empty())
    } else {
        match parse_chars(trimmed(lines[0])) {
            Ok(cmds) => prefixed(cmds, parse_lines(lines.drop_first())),
            Err(e) => Err(e),
        }
    }
}

/// The message for a line that cannot be read.
pub open spec fn parse_error_message(e: Option<char>) -> Seq<char> {
    match e {
        Some(c) => "Unknown control char: "@ + seq![c],
        None => "Missing control char after ^"@,
    }
}

proof fn lemma_prefixed_twice(a: Seq<Command>, b: Seq<Command>, r: Result<Seq<Command>, Option<char>>)
    ensures
        prefixed(a, prefixed(b, r)) == prefixed(a + b, r),
{
    if let Ok(c) = r {
        assert(a + (b + c) =~= (a + b) + c);
    }
}

/// How [`parse_chars`] reads the first characters of a line.
proof fn lemma_parse_chars_step(cs: Seq<char>)
    ensures
        cs.len() == 0 ==> parse_chars(cs) == Ok::<Seq<Command>, Option<char>>(Seq::empty()),
        cs.len() > 0 && cs[0] != '^' ==> parse_chars(cs) == prefixed(seq![Command::WriteChar(cs[0])], parse_chars(cs.drop_first())),
        cs.len() == 1 && cs[0] == '^' ==> parse_chars(cs) == Err::<Seq<Command>, Option<char>>(None),
        cs.len() >= 2 && cs[0] == '^' ==> parse_chars(cs) == match control_command(cs[1]) {
            Some(cmd) => prefixed(seq![cmd], parse_chars(cs.skip(2))),
            None => Err(Some(cs[1])),
        },
{
    reveal(parse_chars);
}

/// A line whose commands, after those already read, end in an error has
/// that error.
proof fn lemma_line_error(
    base: Seq<Command>,
    prior: Seq<Command>,
    line: Result<Seq<Command>, Option<char>>,
    rest: Result<Seq<Command>, Option<char>>,
)
    requires
        prefixed(base, line) == prefixed(prior, rest),
        rest is Err,
    ensures
        line == rest,
{
}

fn control_command_of(c: char) -> (r: Option<Command>)
    ensures
        r == control_command(c),
{
    match c {
        'c' => Some(Command::ClearScreen),
        'h' => Some(Command::Home),
        'b' => Some(Command::CarriageReturn),
        'd' => Some(Command::MoveDown),
        'u' => Some(Command::MoveUp),
        'l' => Some(Command::MoveLeft),
        'r' => Some(Command::MoveRight),
        'e' => Some(Command::DelRight),
        'i' => Some(Command::ChangeMode(Mode::Insert)),
        'o' => Some(Command::ChangeMode(Mode::Overwrite)),
        '^' => Some(Command::WriteChar('^')),
        _ => None,
    }
}

/// Appends the commands of one line, `cs`, to `cmds`.
fn parse_line(cs: &Vec<char>, cmds: &mut Vec<Command>) -> (r: Result<(), String>)
    ensures
        parse_chars(cs@) matches Ok(a) ==> (r is Ok && final(cmds)@ == old(cmds)@ + a),
        parse_chars(cs@) matches Err(e) ==> (r matches Err(m) && m@ == parse_error_message(e)),
{
    let ghost base = cmds@;
    let mut index: usize = 0;
    proof {
        assert(cs@.skip(0) =~= cs@);
        assert(base + Seq::<Command>::empty() =~= base);
    }
    while index < cs.len()
        invariant
            index <= cs@.len(),
            prefixed(base, parse_chars(cs@)) == prefixed(cmds@, parse_chars(cs@.skip(index as int))),
        decreases cs@.len() - index,
    {
        let ghost rest = cs@.skip(index as int);
        let ghost prior = cmds@;
        let c = char_at(cs, index);
        assert(rest[0] == c);
        proof {
            lemma_parse_chars_step(rest);
        }
        if c != '^' {
            proof {
                assert(rest.drop_first() =~= cs@.skip(index + 1));
                lemma_prefixed_twice(prior, seq![Command::WriteChar(c)], parse_chars(rest.drop_first()));
            }
            cmds.push(Command::WriteChar(c));
            assert(cmds@ =~= prior + seq![Command::WriteChar(c)]);
        } else {
            if index + 1 >= cs.len() {
                proof {
                    lemma_line_error(base, prior, parse_chars(cs@), parse_chars(rest));
                }
                return Err("Missing control char after ^".to_string());
            }
            let d = char_at(cs, index + 1);
            assert(rest[1] == d);
            match control_command_of(d) {
                Some(cmd) => {
                    proof {
                        assert(rest.skip(2) =~= cs@.skip(index + 2));
                        lemma_prefixed_twice(prior, seq![cmd], parse_chars(rest.skip(2)));
                    }
                    cmds.push(cmd);
                    assert(cmds@ =~= prior + seq![cmd]);
                    index = index + 1;
                },
                None => {
                    proof {
                        lemma_line_error(base, prior, parse_chars(cs@), parse_chars(rest));
                    }
                    return Err(unknown_control_message(d));
                },
            }
        }
        index = index + 1;
    }
    proof {
        assert(cs@.skip(index as int) =~= Seq::<char>::empty());
        lemma_parse_chars_step(cs@.skip(index as int));
        assert(cmds@ + Seq::<Command>::empty() =~= cmds@);
    }
    Ok(())
}

/// Reads the commands of `s`, line by line.
pub fn parse_commands(s: &str) -> (r: Result<Vec<Command>, String>)
    ensures
        parse_lines(lines_of(s@)) matches Ok(cmds) ==> (r matches Ok(v) && v@ == cmds),
        parse_lines(lines_of(s@)) matches Err(e) ==> (r matches Err(m) && m@ == parse_error_message(e)),
{
    let lines = text_lines(s);
    let ghost all = lines_of(s@);
    let mut cmds: Vec<Command> = Vec::new();
    let mut j: usize = 0;
    proof {
        assert(all.skip(0) =~= all);
        assert(cmds@ + Seq::<Command>::empty() =~= cmds@);
    }
    while j < lines.len()
        invariant
            j <= lines@.len(),
            lines@.len() == all.len(),
            all == lines_of(s@),
            forall|i: int| 0 <= i < lines@.len() ==> #[trigger] lines@[i]@ == all[i],
            prefixed(cmds@, parse_lines(all.skip(j as int))) == parse_lines(all),
        decreases lines@.len() - j,
    {
        let chars = chars_of(trim_text(lines[j]));
        let ghost prior = cmds@;
        proof {
            assert(chars@ == trimmed(all[j as int]));
            assert(all.skip(j as int)[0] == all[j as int]);
            assert(all.skip(j as int).drop_first() =~= all.skip(j + 1));
        }
        match parse_line(&chars, &mut cmds) {
            Ok(()) => {
                proof {
                    let a = parse_chars(chars@)->Ok_0;
                    lemma_prefixed_twice(prior, a, parse_lines(all.skip(j + 1)));
                }
            },
            Err(m) => {
                return Err(m);
            },
        }
        j = j + 1;
    }
    proof {
        assert(all.skip(j as int) =~= Seq::<Seq<char>>::empty());
        assert(cmds@ + Seq::<Command>::empty() =~= cmds@);
    }
    Ok(cmds)
}

/// A screen of `width` by `height` characters, stored row by row, with a
/// cursor at `(cur_x, cur_y)`.
#[derive(Debug)]
pub struct Buffer {
    width: u8,
    height: u8,
    cur_x: u8,
    cur_y: u8,
    buf: Vec<char>,
}

/// What a [`Buffer`] holds.
pub struct BufferView {
    pub width: nat,
    pub height: nat,
    pub cur_x: nat,
    pub cur_y: nat,
    pub cells: Seq<char>,
}

impl View for Buffer {
    type V = BufferView;

    closed spec fn view(&self) -> BufferView {
        BufferView {
            width: self.width as nat,
            height: self.height as nat,
            cur_x: self.cur_x as nat,
            cur_y: self.cur_y as nat,
            cells: self.buf@,
        }
    }
}

/// The cells fill the screen.
pub open spec fn filled(v: BufferView) -> bool {
    v.cells.len() == v.width * v.height
}

/// The cells fill the screen and the cursor is on it.
pub open spec fn ready(v: BufferView) -> bool {
    &&& filled(v)
    &&& v.cur_x < v.width
    &&& v.cur_y < v.height
}

/// A blank screen of `n` cells.
pub open spec fn blank(n: nat) -> Seq<char> {
    Seq::new(n, |i: int| ' ')
}

/// `v` after writing `c` under the cursor and moving the cursor one cell
/// on, to the start of the next row after the last column, and back to the
/// top after the last row.
pub open spec fn write_char_spec(v: BufferView, c: char) -> BufferView {
    let cells = v.cells.update((v.cur_x + v.cur_y * v.width) as int, c);
    if v.cur_x + 1 < v.width {
        BufferView { cur_x: v.cur_x + 1, cells, ..v }
    } else if v.cur_y + 1 < v.height {
        BufferView { cur_x: 0, cur_y: v.cur_y + 1, cells, ..v }
    } else {
        BufferView { cur_x: 0, cur_y: 0, cells, ..v }
    }
}

impl Buffer {
    /// A blank `width` by `height` screen with the cursor at the top left.
    pub fn new(width: u8, height: u8) -> (r: Buffer)
        requires
            width * height <= u8::MAX,
        ensures
            r@ == (BufferView { width: width as nat, height: height as nat, cur_x: 0, cur_y: 0, cells: blank((width * height) as nat) }),
    {
        Buffer { width, height, cur_x: 0, cur_y: 0, buf: blank_cells(width * height) }
    }

    /// A blank screen of ten by ten characters.
    pub fn default_buffer() -> (r: Buffer)
        ensures
            r@ == (BufferView { width: 10, height: 10, cur_x: 0, cur_y: 0, cells: blank(100) }),
            ready(r@),
    {
        Buffer::new(10, 10)
    }

    fn pos_to_index(&self, x: u8, y: u8) -> (r: usize)
        requires
            filled(self@),
            x < self@.width,
            y < self@.height,
        ensures
            r == x + y * self@.width,
            r < self@.cells.len(),
    {
        proof {
            lemma_cell_in_screen(x as nat, y as nat, self.width as nat, self.height as nat);
            assert(y * self.width <= 255 * 255) by (nonlinear_arith)
                requires
                    y <= 255,
                    self.width <= 255,
            ;
        }
        x as usize + y as usize * self.width as usize
    }

    /// The character in column `x` of row `y`.
    pub fn get_char_at(&self, x: u8, y: u8) -> (r: char)
        requires
            filled(self@),
            x < self@.width,
            y < self@.height,
        ensures
            r == self@.cells[x + y * self@.width],
    {
        let index = self.pos_to_index(x, y);
        self.buf[index]
    }

    /// The number of columns.
    pub fn get_width(&self) -> (r: u8)
        ensures
            r == self@.width,
    {
        self.width
    }

    /// The number of rows.
    pub fn get_height(&self) -> (r: u8)
        ensures
            r == self@.height,
    {
        self.height
    }

    /// Moves the cursor to `(x, y)`.
    pub fn set_pos(&mut self, x: u8, y: u8)
        requires
            x < old(self)@.width,
            y < old(self)@.height,
        ensures
            final(self)@ == (BufferView { cur_x: x as nat, cur_y: y as nat, ..old(self)@ }),
    {
        self.cur_x = x;
        self.cur_y = y;
    }

    /// Moves the cursor to column `x` of its row.
    pub fn set_x(&mut self, x: u8)
        requires
            x < old(self)@.width,
            old(self)@.cur_y < old(self)@.height,
        ensures
            final(self)@ == (BufferView { cur_x: x as nat, ..old(self)@ }),
    {
        self.cur_x = x;
    }

    /// Moves the cursor to row `y` of its column.
    pub fn set_y(&mut self, y: u8)
        requires
            old(self)@.cur_x < old(self)@.width,
            y < old(self)@.height,
        ensures
            final(self)@ == (BufferView { cur_y: y as nat, ..old(self)@ }),
    {
        self.cur_y = y;
    }

    /// Moves the cursor by `x` columns and `y` rows; the new position must
    /// be on the screen.
    pub fn move_cur(&mut self, x: i8, y: i8)
        requires
            0 <= old(self)@.cur_x + x < old(self)@.width,
            0 <= old(self)@.cur_y + y < old(self)@.height,
        ensures
            final(self)@ == (BufferView {
                cur_x: (old(self)@.cur_x + x) as nat,
                cur_y: (old(self)@.cur_y + y) as nat,
                ..old(self)@
            }),
    {
        let new_x: u8 = (self.cur_x as i16 + x as i16) as u8;
        let new_y: u8 = (self.cur_y as i16 + y as i16) as u8;
        self.cur_x = new_x;
        self.cur_y = new_y;
    }

    /// Writes `c` under the cursor, which stays where it is.
    pub fn put_char(&mut self, c: char)
        requires
            ready(old(self)@),
        ensures
            final(self)@ == (BufferView {
                cells: old(self)@.cells.update((old(self)@.cur_x + old(self)@.cur_y * old(self)@.width) as int, c),
                ..old(self)@
            }),
    {
        let index = self.pos_to_index(self.cur_x, self.cur_y);
        self.buf.set(index, c);
    }

    /// Writes `c` under the cursor and moves the cursor one cell on.
    pub fn write_char(&mut self, c: char)
        requires
            ready(old(self)@),
        ensures
            final(self)@ == write_char_spec(old(self)@, c),
            ready(final(self)@),
    {
        proof {
            lemma_cell_in_screen(self.cur_x as nat, self.cur_y as nat, self.width as nat, self.height as nat);
        }
        self.put_char(c);
        self.cur_x = self.cur_x + 1;
        if self.cur_x >= self.width {
            self.cur_x = 0;
            self.cur_y = self.cur_y + 1;
            if self.cur_y >= self.height {
                self.cur_y = 0;
            }
        }
    }

    /// Blanks the whole screen; the cursor stays where it is.
    pub fn cls(&mut self)
        requires
            old(self)@.width * old(self)@.height <= u8::MAX,
        ensures
            final(self)@ == (BufferView { cells: blank(old(self)@.width * old(self)@.height), ..old(self)@ }),
    {
        self.buf = blank_cells(self.width * self.height);
    }
}

/// `n` blank cells.
fn blank_cells(n: u8) -> (r: Vec<char>)
    ensures
        r@ == blank(n as nat),
{
    let mut cells: Vec<char> = Vec::new();
    let mut i: u8 = 0;
    while i < n
        invariant
            i <= n,
            cells@ == blank(i as nat),
        decreases n - i,
    {
        cells.push(' ');
        proof {
            assert(cells@ =~= blank(i as nat + 1));
        }
        i = i + 1;
    }
    cells
}

/// Writing a character, clearing, and moving the cursor home or to the
/// start of its row are supported; other commands are not.
pub open spec fn supported(cmd: Command) -> bool {
    match cmd {
        Command::WriteChar(_) | Command::ClearScreen | Command::Home | Command::CarriageReturn => true,
        _ => false,
    }
}

impl CommandInterpreter for Buffer {
    open spec fn accepts(v: BufferView, cmd: Command) -> bool {
        &&& ready(v)
        &&& v.width * v.height <= u8::MAX
        &&& supported(cmd)
    }

    open spec fn eval_spec(v: BufferView, cmd: Command) -> BufferView {
        match cmd {
            Command::WriteChar(c) => write_char_spec(v, c),
            Command::ClearScreen => BufferView { cells: blank(v.width * v.height), ..v },
            Command::Home => BufferView { cur_x: 0, cur_y: 0, ..v },
            Command::CarriageReturn => BufferView { cur_x: 0, ..v },
            _ => v,
        }
    }

    fn eval(&mut self, cmd: &Command) {
        match *cmd {
            Command::WriteChar(c) => self.write_char(c),
            Command::ClearScreen => self.cls(),
            Command::Home => self.set_pos(0, 0),
            Command::CarriageReturn => self.set_x(0),
            _ => {},
        }
    }
}

proof fn lemma_cell_in_screen(x: nat, y: nat, w: nat, h: nat)
    requires
        x < w,
        y < h,
    ensures
        x + y * w < w * h,
{
    assert(x + y * w < w * h) by (nonlinear_arith)
        requires
            x < w,
            y < h,
    ;
}

} // verus!
