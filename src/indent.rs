//! Indentation of block-structured pseudo code: `FOR` ... `NEXT` and `IF`
//! ... `ENDIF` blocks indent the lines between them.
use vstd::prelude::*;

use crate::text::{char_at, chars_of, split_on, split_on_char, trim_text, trimmed};

verus! {

/// The kind of block a line opens or closes.
#[derive(Debug, Clone, Copy, PartialEq, Eq, Structural)]
pub enum StatementType {
    Normal,
    For,
    If,
}

/// What a line does to the indentation.
#[derive(Debug, Clone, Copy, PartialEq, Eq, Structural)]
pub enum IndentChange {
    Same,
    Increase,
    Decrease,
}

/// One line of a document: its text without surrounding white space, and
/// the block it opens or closes.
#[derive(Debug)]
pub struct Line {
    line: String,
    indent_change: IndentChange,
    statement_type: StatementType,
}

/// What a line whose first word is `word` does: `FOR` and `IF` open a block,
/// `NEXT` and `ENDIF` close one, anything else does neither.
pub open spec fn statement_of(word: Seq<char>) -> (IndentChange, StatementType) {
    if word == seq!['F', 'O', 'R'] {
        (IndentChange::Increase, StatementType::For)
    } else if word == seq!['N', 'E', 'X', 'T'] {
        (IndentChange::Decrease, StatementType::For)
    } else if word == seq!['I', 'F'] {
        (IndentChange::Increase, StatementType::If)
    } else if word == seq!['E', 'N', 'D', 'I', 'F'] {
        (IndentChange::Decrease, StatementType::If)
    } else {
        (IndentChange::Same, StatementType::Normal)
    }
}

/// The first word of a line: what comes before the first space once
/// surrounding white space is removed.
pub open spec fn first_word(line: Seq<char>) -> Seq<char> {
    let fields = split_on(trimmed(line), ' ');
    if fields.len() > 0 {
        fields[0]
    } else {
        Seq::empty()
    }
}

impl Line {
    /// The text of the line.
    pub closed spec fn text(&self) -> Seq<char> {
        self.line@
    }

    /// What the line does to the indentation, and the block it concerns.
    pub closed spec fn statement(&self) -> (IndentChange, StatementType) {
        (self.indent_change, self.statement_type)
    }

    /// What the line does to the indentation.
    pub fn indent_change(&self) -> (r: IndentChange)
        ensures
            r == self.statement().0,
    {
        self.indent_change
    }

    /// The block the line opens or closes.
    pub fn statement_type(&self) -> (r: StatementType)
        ensures
            r == self.statement().1,
    {
        self.statement_type
    }

    /// Reads one line.
    pub fn parse(line_str: &str) -> (r: Line)
        ensures
            r.text() == trimmed(line_str@),
            r.statement() == statement_of(first_word(line_str@)),
    {
        let trimmed_str = trim_text(line_str);
        let fields = split_on_char(trimmed_str, ' ');
        let statement = if fields.len() > 0 {
            let word = chars_of(fields[0]);
            assert(word@ == first_word(line_str@));
            statement_of_word(&word)
        } else {
            assert(first_word(line_str@) =~= Seq::<char>::empty());
            statement_of_word(&Vec::new())
        };
        let indent_change = statement.0;
        let statement_type = statement.1;
        Line { line: trimmed_str.to_string(), indent_change, statement_type }
    }
}

/// `cs` spells `word`.
fn spells(cs: &Vec<char>, word: &Vec<char>) -> (r: bool)
    ensures
        r == (cs@ == word@),
{
    if cs.len() != word.len() {
        return false;
    }
    let mut i: usize = 0;
    while i < cs.len()
        invariant
            i <= cs@.len(),
            cs@.len() == word@.len(),
            forall|j: int| 0 <= j < i ==> cs@[j] == word@[j],
        decreases cs@.len() - i,
    {
        if char_at(cs, i) != char_at(word, i) {
            return false;
        }
        i = i + 1;
    }
    assert(cs@ =~= word@);
    true
}

fn statement_of_word(cs: &Vec<char>) -> (r: (IndentChange, StatementType))
    ensures
        r == statement_of(cs@),
{
    let for_word = vec!['F', 'O', 'R'];
    let next_word = vec!['N', 'E', 'X', 'T'];
    let if_word = vec!['I', 'F'];
    let endif_word = vec!['E', 'N', 'D', 'I', 'F'];
    assert(for_word@ =~= seq!['F', 'O', 'R']);
    assert(next_word@ =~= seq!['N', 'E', 'X', 'T']);
    assert(if_word@ =~= seq!['I', 'F']);
    assert(endif_word@ =~= seq!['E', 'N', 'D', 'I', 'F']);
    if spells(cs, &for_word) {
        (IndentChange::Increase, StatementType::For)
    } else if spells(cs, &next_word) {
        (IndentChange::Decrease, StatementType::For)
    } else if spells(cs, &if_word) {
        (IndentChange::Increase, StatementType::If)
    } else if spells(cs, &endif_word) {
        (IndentChange::Decrease, StatementType::If)
    } else {
        (IndentChange::Same, StatementType::Normal)
    }
}

/// A document: lines in order.
#[derive(Debug)]
pub struct Document {
    lines: Vec<Line>,
}

/// The depth of each line, given the blocks open before the first, or
/// `None` when a line closes a block that is not the innermost open one.
/// A line that opens a block stands at the depth outside it, a line that
/// closes one at the depth outside it too, and the lines between one deeper.
pub open spec fn depths(lines: Seq<(IndentChange, StatementType)>, open: Seq<StatementType>) -> Option<Seq<nat>>
    decreases lines.len(),
{
    if lines.len() == 0 {
        Some(Seq::empty())
    } else {
        let (change, kind) = lines[0];
        match change {
            IndentChange::Increase => prepend(open.len(), depths(lines.drop_first(), open.push(kind))),
            IndentChange::Decrease => if open.len() > 0 && open.last() == kind {
                prepend((open.len() - 1) as nat, depths(lines.drop_first(), open.drop_last()))
            } else {
                None
            },
            IndentChange::Same => prepend(open.len(), depths(lines.drop_first(), open)),
        }
    }
}

/// `d` before the depths of `rest`, if it has them.
pub open spec fn prepend(d: nat, rest: Option<Seq<nat>>) -> Option<Seq<nat>> {
    match rest {
        Some(ds) => Some(seq![d] + ds),
        None => None,
    }
}

/// `ds` before the depths of `rest`, if it has them.
pub open spec fn prepend_all(ds: Seq<nat>, rest: Option<Seq<nat>>) -> Option<Seq<nat>> {
    match rest {
        Some(more) => Some(ds + more),
        None => None,
    }
}

impl Document {
    /// What each line does to the indentation, in order.
    pub closed spec fn statements(&self) -> Seq<(IndentChange, StatementType)> {
        self.lines@.map_values(|l: Line| l.statement())
    }

    /// The texts of the lines, in order.
    pub closed spec fn texts(&self) -> Seq<Seq<char>> {
        self.lines@.map_values(|l: Line| l.text())
    }

    /// The document made of `lines`.
    pub fn new(lines: Vec<Line>) -> (r: Document)
        ensures
            r.statements() == lines@.map_values(|l: Line| l.statement()),
            r.texts() == lines@.map_values(|l: Line| l.text()),
    {
        Document { lines }
    }

    /// Reads a document, one line per piece between line feeds.
    pub fn from_str(s: &str) -> (r: Document)
        ensures
            r.statements().len() == split_on(s@, '\n').len(),
            forall|i: int|
                0 <= i < split_on(s@, '\n').len() ==> #[trigger] r.statements()[i] == statement_of(
                    first_word(split_on(s@, '\n')[i]),
                ) && r.texts()[i] == trimmed(split_on(s@, '\n')[i]),
    {
        let pieces = split_on_char(s, '\n');
        let mut lines: Vec<Line> = Vec::new();
        let mut i: usize = 0;
        while i < pieces.len()
            invariant
                i <= pieces@.len(),
                pieces@.len() == split_on(s@, '\n').len(),
                forall|k: int| 0 <= k < pieces@.len() ==> #[trigger] pieces@[k]@ == split_on(s@, '\n')[k],
                lines@.len() == i,
                forall|k: int|
                    0 <= k < i ==> #[trigger] lines@[k].statement() == statement_of(first_word(split_on(s@, '\n')[k]))
                        && lines@[k].text() == trimmed(split_on(s@, '\n')[k]),
            decreases pieces@.len() - i,
        {
            lines.push(Line::parse(pieces[i]));
            i = i + 1;
        }
        Document { lines }
    }

    /// The text of line `i`.
    pub fn line_text(&self, i: usize) -> (r: &str)
        requires
            i < self.texts().len(),
        ensures
            r@ == self.texts()[i as int],
    {
        self.lines[i].line.as_str()
    }

    /// The number of lines.
    pub fn len(&self) -> (r: usize)
        ensures
            r == self.statements().len(),
            r == self.texts().len(),
    {
        self.lines.len()
    }

    /// The depth at which each line is rendered, or `None` when a line
    /// closes a block that is not the innermost open one.
    pub fn indents(&self) -> (r: Option<Vec<usize>>)
        ensures
            r is Some <==> depths(self.statements(), Seq::empty()) is Some,
            r matches Some(v) ==> depths(self.statements(), Seq::empty()) == Some(v@.map_values(|d: usize| d as nat)),
    {
        let ghost all = self.statements();
        let mut open: Vec<StatementType> = Vec::new();
        let mut out: Vec<usize> = Vec::new();
        let mut i: usize = 0;
        proof {
            assert(all.skip(0) =~= all);
            assert(Seq::<nat>::empty() + depths(all, Seq::empty())->0 =~= depths(all, Seq::empty())->0);
        }
        while i < self.lines.len()
            invariant
                i <= self.lines@.len(),
                all == self.statements(),
                all.len() == self.lines@.len(),
                open@.len() <= i,
                depths(all, Seq::empty()) == prepend_all(out@.map_values(|d: usize| d as nat), depths(all.skip(i as int), open@)),
            decreases self.lines@.len() - i,
        {
            let ghost prior = out@.map_values(|d: usize| d as nat);
            let ghost rest = all.skip(i as int);
            let change = self.lines[i].indent_change;
            let kind = self.lines[i].statement_type;
            proof {
                assert(rest[0] == all[i as int]);
                assert(all[i as int] == (change, kind));
                assert(rest.drop_first() =~= all.skip(i + 1));
            }
            match change {
                IndentChange::Increase => {
                    out.push(open.len());
                    open.push(kind);
                },
                IndentChange::Decrease => {
                    if open.len() == 0 {
                        return None;
                    }
                    let last = open[open.len() - 1];
                    if last != kind {
                        return None;
                    }
                    let ghost before_open = open@;
                    open.pop();
                    proof {
                        assert(open@ =~= before_open.drop_last());
                    }
                    out.push(open.len());
                },
                IndentChange::Same => {
                    out.push(open.len());
                },
            }
            proof {
                let d = out@[out@.len() - 1] as nat;
                assert(out@.map_values(|d: usize| d as nat) =~= prior + seq![d]);
                assert(prior + (seq![d] + depths(all.skip(i + 1), open@)->0) =~= (prior + seq![d]) + depths(all.skip(i + 1), open@)->0);
            }
            i = i + 1;
        }
        proof {
            assert(all.skip(i as int) =~= Seq::<(IndentChange, StatementType)>::empty());
            assert(out@.map_values(|d: usize| d as nat) + Seq::<nat>::empty() =~= out@.map_values(|d: usize| d as nat));
        }
        Some(out)
    }
}

} // verus!
