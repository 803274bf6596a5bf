//! A row of light switches toggled over inclusive ranges.
use vstd::prelude::*;

use crate::text::{lines_of, usize_field, parse_usize, split_on, split_on_char, text_lines, trim_text, trimmed};

verus! {

/// A row of switches, each on or off.
#[derive(Debug)]
pub struct Room {
    num_switches: usize,
    switches: Vec<bool>,
}

/// `s` with every switch from `lo` to `hi`, both included, flipped.
pub open spec fn toggled(s: Seq<bool>, lo: int, hi: int) -> Seq<bool> {
    Seq::new(s.len(), |i: int| if lo <= i <= hi { !s[i] } else { s[i] })
}

/// The number of switches that are on.
pub open spec fn count_on(s: Seq<bool>) -> nat
    decreases s.len(),
{
    if s.len() == 0 {
        0
    } else {
        count_on(s.drop_last()) + if s.last() { 1nat } else { 0nat }
    }
}

/// The smaller end of a range whose ends may come in either order.
pub open spec fn range_low(start: usize, end: usize) -> int {
    if start > end { end as int } else { start as int }
}

/// The larger end of a range whose ends may come in either order.
pub open spec fn range_high(start: usize, end: usize) -> int {
    if start > end { start as int } else { end as int }
}

/// The two switch numbers that a line names: two numbers separated by one
/// space, after surrounding white space is removed; or the message for a
/// line that names none.
pub open spec fn line_range(line: Seq<char>) -> Result<(nat, nat), Seq<char>> {
    let fields = split_on(trimmed(line), ' ');
    if fields.len() != 2 {
        Err("expected two switch numbers"@)
    } else {
        match usize_field(fields[0]) {
            Err(m) => Err(m),
            Ok(a) => match usize_field(fields[1]) {
                Err(m) => Err(m),
                Ok(b) => Ok((a, b)),
            },
        }
    }
}

/// The switches after toggling, in turn, the range of each line; or the
/// message for the first line that names no range or a switch past the end.
pub open spec fn apply_lines(s: Seq<bool>, lines: Seq<Seq<char>>) -> Result<Seq<bool>, Seq<char>>
    decreases lines.len(),
{
    if lines.len() == 0 {
        Ok(s)
    } else {
        match line_range(lines[0]) {
            Ok((a, b)) => if a < s.len() && b < s.len() {
                apply_lines(toggled(s, if a > b { b as int } else { a as int }, if a > b { a as int } else { b as int }), lines.drop_first())
            } else {
                Err("switch number past the last switch"@)
            },
            Err(m) => Err(m),
        }
    }
}

/// The switches that a text describes: the number of switches on the first
/// line, all off, then one range to toggle on each further line; or the
/// message for the first thing that cannot be read.
pub open spec fn room_from_text(text: Seq<char>) -> Result<Seq<bool>, Seq<char>> {
    let lines = lines_of(text);
    if lines.len() == 0 {
        Err("missing # lightswitches"@)
    } else {
        match usize_field(lines[0]) {
            Ok(n) => apply_lines(Seq::new(n, |i: int| false), lines.drop_first()),
            Err(m) => Err(m),
        }
    }
}

/// Reads the two switch numbers of a line.
fn range_from_str(s: &str) -> (r: Result<std::ops::Range<usize>, String>)
    ensures
        line_range(s@) matches Ok((a, b)) ==> (r matches Ok(range) && range.start == a && range.end == b),
        line_range(s@) matches Err(m) ==> (r matches Err(e) && e@ == m),
{
    let fields = split_on_char(trim_text(s), ' ');
    if fields.len() != 2 {
        return Err("expected two switch numbers".to_string());
    }
    let start = match parse_usize(fields[0]) {
        Ok(v) => v,
        Err(e) => {
            return Err(e);
        },
    };
    let end = match parse_usize(fields[1]) {
        Ok(v) => v,
        Err(e) => {
            return Err(e);
        },
    };
    Ok(std::ops::Range { start, end })
}

impl View for Room {
    type V = Seq<bool>;

    /// The switches, `true` for on.
    closed spec fn view(&self) -> Seq<bool> {
        self.switches@
    }
}

impl Room {
    /// The number of switches matches the switches held.
    pub closed spec fn wf(&self) -> bool {
        self.switches@.len() == self.num_switches
    }

    /// A room of `size` switches, all off.
    pub fn new(size: usize) -> (r: Room)
        ensures
            r.wf(),
            r@ == Seq::new(size as nat, |i: int| false),
    {
        let mut switches: Vec<bool> = Vec::new();
        let mut i: usize = 0;
        while i < size
            invariant
                i <= size,
                switches@ == Seq::new(i as nat, |j: int| false),
            decreases size - i,
        {
            switches.push(false);
            proof {
                assert(switches@ =~= Seq::new((i + 1) as nat, |j: int| false));
            }
            i = i + 1;
        }
        Room { num_switches: size, switches }
    }

    /// Flips every switch between the two ends of `range`, both included;
    /// the ends may come in either order.
    pub fn toggle_range(&mut self, range: std::ops::Range<usize>)
        requires
            old(self).wf(),
            range.start < old(self)@.len(),
            range.end < old(self)@.len(),
        ensures
            final(self).wf(),
            final(self)@ == toggled(old(self)@, range_low(range.start, range.end), range_high(range.start, range.end)),
    {
        let actual_start = if range.start > range.end {
            range.end
        } else {
            range.start
        };
        let actual_end = if range.start > range.end {
            range.start + 1
        } else {
            range.end + 1
        };
        let ghost before = self@;
        let mut i = actual_start;
        while i < actual_end
            invariant
                self.wf(),
                self@.len() == before.len(),
                actual_start <= i <= actual_end,
                actual_end <= before.len(),
                forall|j: int|
                    0 <= j < before.len() ==> #[trigger] self@[j] == if actual_start <= j < i {
                        !before[j]
                    } else {
                        before[j]
                    },
            decreases actual_end - i,
        {
            let v = self.switches[i];
            self.switches.set(i, !v);
            i = i + 1;
        }
        assert(self@ =~= toggled(before, range_low(range.start, range.end), range_high(range.start, range.end)));
    }

    /// Reads a room: the number of switches on the first line, then one
    /// range to toggle per line, two switch numbers separated by a space.
    pub fn from_str(s: &str) -> (r: Result<Room, String>)
        ensures
            room_from_text(s@) matches Ok(v) ==> (r matches Ok(room) && room.wf() && room@ == v),
            room_from_text(s@) matches Err(m) ==> (r matches Err(e) && e@ == m),
    {
        let lines = text_lines(s);
        if lines.len() == 0 {
            return Err("missing # lightswitches".to_string());
        }
        let size = match parse_usize(lines[0]) {
            Ok(v) => v,
            Err(e) => {
                return Err(e);
            },
        };
        let mut room = Room::new(size);
        let ghost all = lines_of(s@);
        let mut j: usize = 1;
        proof {
            assert(all.drop_first() =~= all.skip(1));
        }
        while j < lines.len()
            invariant
                1 <= j <= lines@.len(),
                lines@.len() == all.len(),
                all == lines_of(s@),
                forall|i: int| 0 <= i < lines@.len() ==> #[trigger] lines@[i]@ == all[i],
                room.wf(),
                room@.len() == size,
                room_from_text(s@) == apply_lines(room@, all.skip(j as int)),
            decreases lines@.len() - j,
        {
            let range = match range_from_str(lines[j]) {
                Ok(range) => range,
                Err(e) => {
                    proof {
                        assert(all.skip(j as int)[0] == all[j as int]);
                    }
                    return Err(e);
                },
            };
            proof {
                assert(all.skip(j as int)[0] == all[j as int]);
                assert(all.skip(j as int).drop_first() =~= all.skip(j + 1));
            }
            if range.start >= size || range.end >= size {
                return Err("switch number past the last switch".to_string());
            }
            room.toggle_range(range);
            j = j + 1;
        }
        proof {
            assert(all.skip(j as int) =~= Seq::<Seq<char>>::empty());
        }
        Ok(room)
    }

    /// How many switches are on.
    pub fn get_enabled_light_count(&self) -> (r: usize)
        ensures
            r == count_on(self@),
    {
        let mut count: usize = 0;
        let mut i: usize = 0;
        while i < self.switches.len()
            invariant
                i <= self@.len(),
                count == count_on(self@.take(i as int)),
                count <= i,
            decreases self@.len() - i,
        {
            proof {
                assert(self@.take(i + 1).drop_last() =~= self@.take(i as int));
            }
            if self.switches[i] {
                count = count + 1;
            }
            i = i + 1;
        }
        assert(self@.take(i as int) =~= self@);
        count
    }
}

} // verus!
