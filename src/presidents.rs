//! A timeline of births and deaths, and how many of the people were alive
//! at the end of each year in which one of those events happened.
use vstd::prelude::*;

use chrono::Datelike;
use std::collections::HashMap;

use crate::text::{trim_text, trimmed};

verus! {

broadcast use vstd::std_specs::hash::group_hash_axioms;

/// A day of the proleptic Gregorian calendar.
#[derive(Debug, Clone, Copy, PartialEq, Eq, Structural)]
pub struct Date {
    pub year: i32,
    pub month: u32,
    pub day: u32,
}

/// `s` with every `from` replaced by `to`, as `str::replace` gives it: the
/// matches are taken from left to right and do not overlap; an empty `from`
/// matches before every character and at the end.
pub open spec fn replaced(s: Seq<char>, from: Seq<char>, to: Seq<char>) -> Seq<char>
    decreases s.len(),
{
    if from.len() == 0 {
        if s.len() == 0 {
            to
        } else {
            to + seq![s[0]] + replaced(s.drop_first(), from, to)
        }
    } else if s.len() < from.len() {
        s
    } else if s.subrange(0, from.len() as int) == from {
        to + replaced(s.skip(from.len() as int), from, to)
    } else {
        seq![s[0]] + replaced(s.drop_first(), from, to)
    }
}

/// The day that chrono reads from `s` with the format `fmt`, if any.
pub uninterp spec fn parsed_date(s: Seq<char>, fmt: Seq<char>) -> Option<Date>;

/// Relies on `str::replace`: `s` with every `from` replaced by `to`, which
/// depends on the three texts alone.
#[verifier::external_body]
fn replace_text(s: &str, from: &str, to: &str) -> (r: String)
    ensures
        r@ == replaced(s@, from@, to@),
{
    s.replace(from, to)
}

/// Relies on `chrono::NaiveDate::parse_from_str` and on `Datelike`'s
/// `year`, `month` and `day`: the day that `s` spells in the format `fmt`,
/// which depends on the two texts alone.
#[verifier::external_body]
fn parse_date_with(s: &str, fmt: &str) -> (r: Option<Date>)
    ensures
        r == parsed_date(s@, fmt@),
{
    match chrono::NaiveDate::parse_from_str(s, fmt) {
        Ok(d) => Some(Date { year: d.year(), month: d.month(), day: d.day() }),
        Err(_) => None,
    }
}

/// The text of a date with the full names `July` and `June` shortened.
pub open spec fn abbreviated(s: Seq<char>) -> Seq<char> {
    replaced(replaced(s, "July"@, "Jul"@), "June"@, "Jun"@)
}

/// Shortens the month names `July` and `June` to three letters.
pub fn replace_abbrev(s: &String) -> (r: String)
    ensures
        r@ == abbreviated(s@),
{
    let once = replace_text(s.as_str(), "July", "Jul");
    replace_text(once.as_str(), "June", "Jun")
}

/// The format of the dates: month name, day and year, as in `Jul 4 1776`.
pub open spec fn date_format() -> Seq<char> {
    "%b %e %Y"@
}

/// Reads a date such as `July 4 1776`: `None` for a blank text.
pub fn parse_date(s: &String) -> (r: Result<Option<Date>, String>)
    ensures
        trimmed(s@).len() == 0 ==> r == Ok::<Option<Date>, String>(None),
        trimmed(s@).len() > 0 ==> match parsed_date(abbreviated(trimmed(s@)), date_format()) {
            Some(d) => r == Ok::<Option<Date>, String>(Some(d)),
            None => (r matches Err(e) && e@ == "unreadable date"@),
        },
{
    let trim_str = trim_text(s.as_str());
    if trim_str.is_empty() {
        return Ok(None);
    }
    let trim_s = trim_str.to_string();
    let replaced_s = replace_abbrev(&trim_s);
    match parse_date_with(replaced_s.as_str(), "%b %e %Y") {
        Some(d) => Ok(Some(d)),
        None => Err("unreadable date".to_string()),
    }
}

/// A record as read from a table: every field as text.
#[derive(Debug)]
pub struct ParsedPresident {
    pub name: String,
    pub birth_date: String,
    pub birth_place: String,
    pub death_date: String,
    pub death_place: String,
}

/// A person with a day of birth and, if dead, a day of death.
#[derive(Debug)]
pub struct President {
    name: String,
    birth_date: Date,
    birth_place: String,
    death_date: Option<Date>,
    death_place: Option<String>,
}

/// What a [`President`] holds.
pub struct PresidentView {
    pub name: Seq<char>,
    pub birth_date: Date,
    pub birth_place: Seq<char>,
    pub death_date: Option<Date>,
    pub death_place: Option<Seq<char>>,
}

impl View for President {
    type V = PresidentView;

    closed spec fn view(&self) -> PresidentView {
        PresidentView {
            name: self.name@,
            birth_date: self.birth_date,
            birth_place: self.birth_place@,
            death_date: self.death_date,
            death_place: match self.death_place {
                Some(p) => Some(p@),
                None => None,
            },
        }
    }
}

/// The day that a date field gives, if it gives one.
pub open spec fn date_field(s: Seq<char>) -> Option<Date> {
    parsed_date(abbreviated(trimmed(s)), date_format())
}

/// A date field that is neither blank nor a date.
pub open spec fn bad_date_field(s: Seq<char>) -> bool {
    trimmed(s).len() > 0 && date_field(s) is None
}

impl President {
    /// The person that a record describes: every field trimmed, a blank
    /// death date or place standing for none. Refused when the birth date is
    /// blank or either date cannot be read.
    pub fn from_parsed(p: ParsedPresident) -> (r: Result<President, String>)
        ensures
            r is Ok <==> trimmed(p.birth_date@).len() > 0 && date_field(p.birth_date@) is Some && !bad_date_field(
                p.death_date@,
            ),
            trimmed(p.birth_date@).len() == 0 ==> (r matches Err(e) && e@ == "missing birth date"@),
            trimmed(p.birth_date@).len() > 0 && (date_field(p.birth_date@) is None || bad_date_field(p.death_date@))
                ==> (r matches Err(e) && e@ == "unreadable date"@),
            r matches Ok(q) ==> {
                &&& q@.name == trimmed(p.name@)
                &&& Some(q@.birth_date) == date_field(p.birth_date@)
                &&& q@.birth_place == trimmed(p.birth_place@)
                &&& q@.death_date == if trimmed(p.death_date@).len() == 0 {
                    None
                } else {
                    date_field(p.death_date@)
                }
                &&& q@.death_place == if trimmed(p.death_place@).len() == 0 {
                    None
                } else {
                    Some(trimmed(p.death_place@))
                }
            },
    {
        let birth_date = match parse_date(&p.birth_date) {
            Ok(Some(d)) => d,
            Ok(None) => {
                return Err("missing birth date".to_string());
            },
            Err(e) => {
                return Err(e);
            },
        };
        let death_date = match parse_date(&p.death_date) {
            Ok(d) => d,
            Err(e) => {
                return Err(e);
            },
        };
        let death_place_trim = trim_text(p.death_place.as_str());
        let death_place = if death_place_trim.is_empty() {
            None
        } else {
            Some(death_place_trim.to_string())
        };
        Ok(
            President {
                name: trim_text(p.name.as_str()).to_string(),
                birth_date,
                birth_place: trim_text(p.birth_place.as_str()).to_string(),
                death_date,
                death_place,
            },
        )
    }

    /// The event of the given kind in this person's life: always a birth,
    /// and a death only for the dead.
    pub fn into_event<'a>(&'a self, event_type: EventType) -> (r: Option<Event<'a, President>>)
        ensures
            event_type == EventType::Born ==> (r matches Some(e) && e@ == (self@.birth_date, EventType::Born)),
            event_type == EventType::Died ==> match self@.death_date {
                Some(d) => (r matches Some(e) && e@ == (d, EventType::Died)),
                None => r is None,
            },
    {
        match event_type {
            EventType::Born => Some(Event::new(self, self.birth_date, EventType::Born)),
            EventType::Died => match self.death_date {
                Some(date) => Some(Event::new(self, date, EventType::Died)),
                None => None,
            },
        }
    }
}

/// A birth or a death.
#[derive(Debug, Clone, Copy, PartialEq, Eq, Structural)]
pub enum EventType {
    Born,
    Died,
}

/// Something that happened to `value` on `date`.
#[derive(Debug)]
pub struct Event<'a, T> {
    value: &'a T,
    date: Date,
    event_type: EventType,
}

impl<'a, T> View for Event<'a, T> {
    type V = (Date, EventType);

    closed spec fn view(&self) -> (Date, EventType) {
        (self.date, self.event_type)
    }
}

impl<'a, T> Event<'a, T> {
    /// The event `event_type` of `value` on `date`.
    pub fn new(value: &'a T, date: Date, event_type: EventType) -> (r: Event<'a, T>)
        ensures
            r@ == (date, event_type),
    {
        Event { value, date, event_type }
    }
}

/// The events of the people in `ps`, person by person: a birth, then a
/// death for the dead.
pub open spec fn events_of(ps: Seq<PresidentView>) -> Seq<(Date, EventType)>
    decreases ps.len(),
{
    if ps.len() == 0 {
        Seq::empty()
    } else {
        let p = ps.last();
        events_of(ps.drop_last()) + match p.death_date {
            Some(d) => seq![(p.birth_date, EventType::Born), (d, EventType::Died)],
            None => seq![(p.birth_date, EventType::Born)],
        }
    }
}

/// The events of the people in `presidents`, in order.
pub fn create_events<'a>(presidents: &'a Vec<President>) -> (r: Vec<Event<'a, President>>)
    ensures
        r@.map_values(|e: Event<'a, President>| e@) == events_of(presidents@.map_values(|p: President| p@)),
{
    let ghost ps = presidents@.map_values(|p: President| p@);
    let mut result: Vec<Event<'a, President>> = Vec::new();
    let mut i: usize = 0;
    while i < presidents.len()
        invariant
            i <= presidents@.len(),
            ps == presidents@.map_values(|p: President| p@),
            result@.map_values(|e: Event<'a, President>| e@) == events_of(ps.take(i as int)),
        decreases presidents@.len() - i,
    {
        let president = &presidents[i];
        let ghost prior = result@.map_values(|e: Event<'a, President>| e@);
        proof {
            assert(ps.take(i + 1).drop_last() =~= ps.take(i as int));
            assert(ps.take(i + 1).last() == president@);
        }
        match president.into_event(EventType::Born) {
            Some(e) => result.push(e),
            None => {},
        }
        match president.into_event(EventType::Died) {
            Some(e) => result.push(e),
            None => {},
        }
        proof {
            assert(result@.map_values(|e: Event<'a, President>| e@) =~= events_of(ps.take(i + 1)));
        }
        i = i + 1;
    }
    proof {
        assert(ps.take(i as int) =~= ps);
    }
    result
}

/// Births minus deaths among `es`.
pub open spec fn net_alive(es: Seq<(Date, EventType)>) -> int
    decreases es.len(),
{
    if es.len() == 0 {
        0
    } else {
        net_alive(es.drop_last()) + if es.last().1 == EventType::Born { 1int } else { -1int }
    }
}

/// For each year in which an event of `es` happens, births minus deaths
/// over the events up to the last one of that year, in the order of `es`.
pub open spec fn alive_map(es: Seq<(Date, EventType)>) -> Map<i32, isize>
    decreases es.len(),
{
    if es.len() == 0 {
        Map::empty()
    } else {
        alive_map(es.drop_last()).insert(es.last().0.year, net_alive(es) as isize)
    }
}

proof fn lemma_net_alive_bound(es: Seq<(Date, EventType)>)
    ensures
        -es.len() <= net_alive(es) <= es.len(),
    decreases es.len(),
{
    if es.len() > 0 {
        lemma_net_alive_bound(es.drop_last());
    }
}

/// For each year in which an event happens, the number of people born
/// minus the number who died over the events up to the last of that year.
pub fn create_alive_map<'a>(events: &Vec<Event<'a, President>>) -> (r: HashMap<i32, isize>)
    requires
        events@.len() <= isize::MAX,
    ensures
        r@ == alive_map(events@.map_values(|e: Event<'a, President>| e@)),
{
    let ghost es = events@.map_values(|e: Event<'a, President>| e@);
    let mut alive: HashMap<i32, isize> = HashMap::new();
    let mut count: isize = 0;
    let mut i: usize = 0;
    while i < events.len()
        invariant
            i <= events@.len(),
            events@.len() <= isize::MAX,
            es == events@.map_values(|e: Event<'a, President>| e@),
            count == net_alive(es.take(i as int)),
            alive@ == alive_map(es.take(i as int)),
        decreases events@.len() - i,
    {
        let event = &events[i];
        proof {
            assert(es.take(i + 1).drop_last() =~= es.take(i as int));
            assert(es.take(i + 1).last() == event@);
            lemma_net_alive_bound(es.take(i as int));
        }
        let year = event.date.year;
        count = count + match event.event_type {
            EventType::Born => 1,
            EventType::Died => -1,
        };
        alive.insert(year, count);
        i = i + 1;
    }
    proof {
        assert(es.take(i as int) =~= es);
    }
    alive
}

} // verus!
