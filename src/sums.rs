//! Totals of a sorted list of school records, per school, city and state.
use vstd::prelude::*;

use crate::text::{decimal_usize, parse_usize, split_first_char, split_on, split_on_char};

verus! {

/// One record: a school of a city of a state, a grade and a number.
#[derive(Debug, PartialEq, Eq)]
pub struct SchoolData {
    pub state: String,
    pub city: String,
    pub school: String,
    pub grade: char,
    pub number: usize,
}

/// What a [`SchoolData`] holds.
pub struct Record {
    pub state: Seq<char>,
    pub city: Seq<char>,
    pub school: Seq<char>,
    pub grade: char,
    pub number: nat,
}

impl View for SchoolData {
    type V = Record;

    open spec fn view(&self) -> Record {
        Record {
            state: self.state@,
            city: self.city@,
            school: self.school@,
            grade: self.grade,
            number: self.number as nat,
        }
    }
}

/// The record that a line spells: four fields separated by commas, the
/// last a grade letter followed by a number; or the message for a line
/// that spells none.
pub open spec fn school_record(line: Seq<char>) -> Result<Record, Seq<char>> {
    let f = split_on(line, ',');
    if f.len() != 4 {
        Err("Expected four fields"@)
    } else if f[3].len() == 0 {
        Err("Grade unparsable"@)
    } else if decimal_usize(f[3].drop_first()) is None {
        Err("Couldn't parse number"@)
    } else {
        Ok(
            Record {
                state: f[0],
                city: f[1],
                school: f[2],
                grade: f[3][0],
                number: decimal_usize(f[3].drop_first())->0,
            },
        )
    }
}

impl SchoolData {
    /// Reads one record.
    pub fn from_str(s: &str) -> (r: Result<SchoolData, String>)
        ensures
            school_record(s@) matches Ok(rec) ==> (r matches Ok(d) && d@ == rec),
            school_record(s@) matches Err(m) ==> (r matches Err(e) && e@ == m),
    {
        let split = split_on_char(s, ',');
        if split.len() != 4 {
            return Err("Expected four fields".to_string());
        }
        let (grade, nr_str) = match split_first_char(split[3]) {
            Some(pair) => pair,
            None => {
                return Err("Grade unparsable".to_string());
            },
        };
        proof {
            assert(nr_str@ =~= split_on(s@, ',')[3].drop_first());
        }
        let nr = match parse_usize(nr_str) {
            Ok(v) => v,
            Err(_) => {
                return Err("Couldn't parse number".to_string());
            },
        };
        Ok(
            SchoolData {
                state: split[0].to_string(),
                city: split[1].to_string(),
                school: split[2].to_string(),
                grade,
                number: nr,
            },
        )
    }
}

/// The level of a total.
#[derive(Debug, Clone, Copy, PartialEq, Eq, Structural)]
pub enum Level {
    School,
    City,
    State,
}

/// One line of the report: the total of a school, a city or a state.
#[derive(Debug, PartialEq, Eq)]
pub struct ReportLine {
    pub level: Level,
    pub name: String,
    pub count: usize,
}

/// What a report line says.
pub open spec fn line_view(l: ReportLine) -> (Level, Seq<char>, nat) {
    (l.level, l.name@, l.count as nat)
}

/// What report lines say, in order.
pub open spec fn lines_view(ls: Seq<ReportLine>) -> Seq<(Level, Seq<char>, nat)> {
    ls.map_values(|l: ReportLine| line_view(l))
}

/// The running totals: the current school, city and state and their sums.
pub struct CurrentCounter {
    state: String,
    city: String,
    school: String,
    state_count: usize,
    city_count: usize,
    school_count: usize,
}

/// What a [`CurrentCounter`] holds.
pub struct Totals {
    pub state: Seq<char>,
    pub city: Seq<char>,
    pub school: Seq<char>,
    pub state_count: nat,
    pub city_count: nat,
    pub school_count: nat,
}

impl View for CurrentCounter {
    type V = Totals;

    closed spec fn view(&self) -> Totals {
        Totals {
            state: self.state@,
            city: self.city@,
            school: self.school@,
            state_count: self.state_count as nat,
            city_count: self.city_count as nat,
            school_count: self.school_count as nat,
        }
    }
}

/// The totals that start with record `r`.
pub open spec fn start_totals(r: Record) -> Totals {
    Totals {
        state: r.state,
        city: r.city,
        school: r.school,
        state_count: r.number,
        city_count: r.number,
        school_count: r.number,
    }
}

/// The report lines printed when the state changes.
pub open spec fn state_closing(t: Totals) -> Seq<(Level, Seq<char>, nat)> {
    seq![(Level::School, t.school, t.school_count), (Level::City, t.city, t.city_count), (Level::State, t.state, t.state_count)]
}

/// The report lines printed when the city changes.
pub open spec fn city_closing(t: Totals) -> Seq<(Level, Seq<char>, nat)> {
    seq![(Level::School, t.school, t.school_count), (Level::City, t.city, t.city_count)]
}

/// The report lines printed when the school changes.
pub open spec fn school_closing(t: Totals) -> Seq<(Level, Seq<char>, nat)> {
    seq![(Level::School, t.school, t.school_count)]
}

/// The totals after record `r` starts a new state, if it does.
pub open spec fn after_state(t: Totals, r: Record) -> Totals {
    if t.state != r.state {
        Totals { state: r.state, state_count: 0, city_count: 0, school_count: 0, ..t }
    } else {
        t
    }
}

/// The totals after record `r` starts a new city, if it does.
pub open spec fn after_city(t: Totals, r: Record) -> Totals {
    if t.city != r.city {
        Totals { city: r.city, city_count: 0, school_count: 0, ..t }
    } else {
        t
    }
}

/// The totals after record `r` starts a new school, if it does.
pub open spec fn after_school(t: Totals, r: Record) -> Totals {
    if t.school != r.school {
        Totals { school: r.school, school_count: 0, ..t }
    } else {
        t
    }
}

/// The totals after record `r`: the names it changes are replaced and
/// their sums restarted, then its number is added to all three sums.
pub open spec fn update_totals(t: Totals, r: Record) -> Totals {
    let t3 = after_school(after_city(after_state(t, r), r), r);
    Totals {
        state_count: t3.state_count + r.number,
        city_count: t3.city_count + r.number,
        school_count: t3.school_count + r.number,
        ..t3
    }
}

/// The report lines printed while record `r` is taken in: the closed
/// school, city and state, in that order, for each level whose name changes.
pub open spec fn update_lines(t: Totals, r: Record) -> Seq<(Level, Seq<char>, nat)> {
    let t1 = after_state(t, r);
    let t2 = after_city(t1, r);
    (if t.state != r.state { state_closing(t) } else { Seq::empty() }) + (if t1.city != r.city {
        city_closing(t1)
    } else {
        Seq::empty()
    }) + (if t2.school != r.school { school_closing(t2) } else { Seq::empty() })
}

/// Adding the number of `r` keeps every sum within a `usize`.
pub open spec fn update_fits(t: Totals, r: Record) -> bool {
    let t3 = after_school(after_city(after_state(t, r), r), r);
    &&& t3.state_count + r.number <= usize::MAX
    &&& t3.city_count + r.number <= usize::MAX
    &&& t3.school_count + r.number <= usize::MAX
}

/// The report of the records `rs` taken in after totals `t`, the final
/// totals included; `None` when a sum does not fit in a `usize`.
pub open spec fn run_report(t: Totals, rs: Seq<Record>) -> Option<Seq<(Level, Seq<char>, nat)>>
    decreases rs.len(),
{
    if rs.len() == 0 {
        Some(state_closing(t))
    } else if update_fits(t, rs[0]) {
        match run_report(update_totals(t, rs[0]), rs.drop_first()) {
            Some(rest) => Some(update_lines(t, rs[0]) + rest),
            None => None,
        }
    } else {
        None
    }
}

/// The records that the lines spell, or the message for the first line
/// that spells none.
pub open spec fn all_records(lines: Seq<Seq<char>>) -> Result<Seq<Record>, Seq<char>>
    decreases lines.len(),
{
    if lines.len() == 0 {
        Ok(Seq::empty())
    } else {
        match school_record(lines[0]) {
            Ok(r) => prepend_records(seq![r], all_records(lines.drop_first())),
            Err(m) => Err(m),
        }
    }
}

/// The report of the records: nothing for no records.
pub open spec fn report_of(rs: Seq<Record>) -> Option<Seq<(Level, Seq<char>, nat)>> {
    if rs.len() == 0 {
        Some(Seq::empty())
    } else {
        run_report(start_totals(rs[0]), rs.drop_first())
    }
}

fn report_line(level: Level, name: &String, count: usize) -> (r: ReportLine)
    ensures
        line_view(r) == (level, name@, count as nat),
{
    ReportLine { level, name: name.clone(), count }
}

impl CurrentCounter {
    /// The totals that start with `data`.
    pub fn from(data: SchoolData) -> (r: CurrentCounter)
        ensures
            r@ == start_totals(data@),
    {
        CurrentCounter {
            state: data.state,
            city: data.city,
            school: data.school,
            state_count: data.number,
            school_count: data.number,
            city_count: data.number,
        }
    }

    /// Takes in `data`, and returns the report lines for the school, city
    /// and state that it closes.
    pub fn update_count(&mut self, data: SchoolData) -> (r: Vec<ReportLine>)
        requires
            update_fits(old(self)@, data@),
        ensures
            final(self)@ == update_totals(old(self)@, data@),
            lines_view(r@) == update_lines(old(self)@, data@),
    {
        let ghost t = self@;
        let ghost rec = data@;
        let mut out: Vec<ReportLine> = Vec::new();
        if self.state != data.state {
            out.push(report_line(Level::School, &self.school, self.school_count));
            out.push(report_line(Level::City, &self.city, self.city_count));
            out.push(report_line(Level::State, &self.state, self.state_count));
            self.state = data.state;
            self.state_count = 0;
            self.city_count = 0;
            self.school_count = 0;
        }
        let ghost t1 = self@;
        let ghost out1 = lines_view(out@);
        proof {
            assert(t1 == after_state(t, rec));
            assert(out1 =~= (if t.state != rec.state { state_closing(t) } else { Seq::empty() }));
        }
        if self.city != data.city {
            out.push(report_line(Level::School, &self.school, self.school_count));
            out.push(report_line(Level::City, &self.city, self.city_count));
            self.city = data.city;
            self.city_count = 0;
            self.school_count = 0;
        }
        let ghost t2 = self@;
        let ghost out2 = lines_view(out@);
        proof {
            assert(t2 == after_city(t1, rec));
            assert(out2 =~= out1 + (if t1.city != rec.city { city_closing(t1) } else { Seq::empty() }));
        }
        if self.school != data.school {
            out.push(report_line(Level::School, &self.school, self.school_count));
            self.school = data.school;
            self.school_count = 0;
        }
        proof {
            assert(self@ == after_school(t2, rec));
            assert(lines_view(out@) =~= out2 + (if t2.school != rec.school { school_closing(t2) } else { Seq::empty() }));
        }
        self.state_count = self.state_count + data.number;
        self.city_count = self.city_count + data.number;
        self.school_count = self.school_count + data.number;
        out
    }

    /// Whether taking in `data` keeps every sum within a `usize`.
    pub fn fits(&self, data: &SchoolData) -> (r: bool)
        ensures
            r == update_fits(self@, data@),
    {
        let new_state = self.state != data.state;
        let new_city = new_state || self.city != data.city;
        let new_school = new_city || self.school != data.school;
        let state_count = if new_state {
            0
        } else {
            self.state_count
        };
        let city_count = if new_city {
            0
        } else {
            self.city_count
        };
        let school_count = if new_school {
            0
        } else {
            self.school_count
        };
        data.number <= usize::MAX - state_count && data.number <= usize::MAX - city_count && data.number
            <= usize::MAX - school_count
    }

    /// The report lines for the current school, city and state.
    pub fn print_final_report(&self) -> (r: Vec<ReportLine>)
        ensures
            lines_view(r@) == state_closing(self@),
    {
        let mut out: Vec<ReportLine> = Vec::new();
        out.push(report_line(Level::School, &self.school, self.school_count));
        out.push(report_line(Level::City, &self.city, self.city_count));
        out.push(report_line(Level::State, &self.state, self.state_count));
        assert(lines_view(out@) =~= state_closing(self@));
        out
    }
}

/// The views of the records, in order.
pub open spec fn records_view(ds: Seq<SchoolData>) -> Seq<Record> {
    ds.map_values(|d: SchoolData| d@)
}

/// `rs` before the records of `rest`, if it has them.
pub open spec fn prepend_records(rs: Seq<Record>, rest: Result<Seq<Record>, Seq<char>>) -> Result<
    Seq<Record>,
    Seq<char>,
> {
    match rest {
        Ok(more) => Ok(rs + more),
        Err(m) => Err(m),
    }
}

/// `ls` before the report `rest`, if there is one.
pub open spec fn prepend_lines(
    ls: Seq<(Level, Seq<char>, nat)>,
    rest: Option<Seq<(Level, Seq<char>, nat)>>,
) -> Option<Seq<(Level, Seq<char>, nat)>> {
    match rest {
        Some(more) => Some(ls + more),
        None => None,
    }
}

/// The report of the records that `lines` spell: for each change of state,
/// city or school, the totals it closes, then the last totals. Refused with
/// the message of the first line that spells no record, or when a sum does
/// not fit in a `usize`.
pub fn count_redhairs(lines: &Vec<String>) -> (r: Result<Vec<ReportLine>, String>)
    ensures
        ({
            let texts = lines@.map_values(|l: String| l@);
            match all_records(texts) {
                Ok(rs) => match report_of(rs) {
                    Some(report) => r matches Ok(v) && lines_view(v@) == report,
                    None => r matches Err(e) && e@ == "count does not fit"@,
                },
                Err(m) => r matches Err(e) && e@ == m,
            }
        }),
{
    let ghost texts = lines@.map_values(|l: String| l@);
    let mut records: Vec<SchoolData> = Vec::new();
    let mut i: usize = 0;
    proof {
        assert(texts.skip(0) =~= texts);
        if let Ok(all) = all_records(texts) {
            assert(Seq::<Record>::empty() + all =~= all);
        }
    }
    while i < lines.len()
        invariant
            i <= lines@.len(),
            texts == lines@.map_values(|l: String| l@),
            all_records(texts) == prepend_records(records_view(records@), all_records(texts.skip(i as int))),
        decreases lines@.len() - i,
    {
        let ghost rest = texts.skip(i as int);
        let ghost prior = records_view(records@);
        proof {
            assert(rest[0] == lines@[i as int]@);
            assert(rest.drop_first() =~= texts.skip(i + 1));
        }
        match SchoolData::from_str(lines[i].as_str()) {
            Ok(d) => {
                records.push(d);
                proof {
                    assert(records_view(records@) =~= prior + seq![d@]);
                    if let Ok(more) = all_records(texts.skip(i + 1)) {
                        assert(prior + (seq![d@] + more) =~= (prior + seq![d@]) + more);
                    }
                }
            },
            Err(e) => {
                return Err(e);
            },
        }
        i = i + 1;
    }
    proof {
        assert(texts.skip(i as int) =~= Seq::<Seq<char>>::empty());
        assert(records_view(records@) + Seq::<Record>::empty() =~= records_view(records@));
    }
    let ghost rs = records_view(records@);
    assert(all_records(texts) == Ok::<Seq<Record>, Seq<char>>(rs));
    let mut out: Vec<ReportLine> = Vec::new();
    if records.len() == 0 {
        assert(lines_view(out@) =~= Seq::<(Level, Seq<char>, nat)>::empty());
        return Ok(out);
    }
    let first = records.remove(0);
    proof {
        assert(records_view(records@) =~= rs.drop_first());
    }
    let mut counter = CurrentCounter::from(first);
    proof {
        assert(Seq::<(Level, Seq<char>, nat)>::empty() + report_of(rs)->0 =~= report_of(rs)->0);
    }
    while records.len() > 0
        invariant
            rs.len() > 0,
            texts == lines@.map_values(|l: String| l@),
            all_records(texts) == Ok::<Seq<Record>, Seq<char>>(rs),
            report_of(rs) == prepend_lines(lines_view(out@), run_report(counter@, records_view(records@))),
        decreases records@.len(),
    {
        let ghost rem = records_view(records@);
        let ghost prior = lines_view(out@);
        let data = records.remove(0);
        proof {
            assert(records_view(records@) =~= rem.drop_first());
        }
        assert(rem[0] == data@);
        if !counter.fits(&data) {
            assert(run_report(counter@, rem) is None);
            return Err("count does not fit".to_string());
        }
        let ghost before = counter@;
        let mut closed = counter.update_count(data);
        out.append(&mut closed);
        proof {
            assert(lines_view(out@) =~= prior + update_lines(before, rem[0]));
            if let Some(more) = run_report(counter@, rem.drop_first()) {
                assert(prior + (update_lines(before, rem[0]) + more) =~= (prior + update_lines(before, rem[0])) + more);
            }
        }
    }
    let ghost prior = lines_view(out@);
    let mut last = counter.print_final_report();
    out.append(&mut last);
    proof {
        assert(records_view(records@) =~= Seq::<Record>::empty());
        assert(lines_view(out@) =~= prior + state_closing(counter@));
    }
    Ok(out)
}

} // verus!
