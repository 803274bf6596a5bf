use puzzle_grids::presidents::{
    create_alive_map, create_events, parse_date, replace_abbrev, Date, EventType, ParsedPresident,
    President,
};

fn record(name: &str, birth: &str, death: &str) -> ParsedPresident {
    ParsedPresident {
        name: name.to_string(),
        birth_date: birth.to_string(),
        birth_place: " Somewhere ".to_string(),
        death_date: death.to_string(),
        death_place: if death.trim().is_empty() { " ".to_string() } else { "Elsewhere".to_string() },
    }
}

#[test]
fn test_parsing() {
    assert_eq!(
        Ok(Some(Date { year: 1732, month: 2, day: 22 })),
        parse_date(&"Feb 22 1732".to_string())
    );
    assert_eq!(
        Ok(Some(Date { year: 1826, month: 7, day: 4 })),
        parse_date(&"  July 4 1826 ".to_string())
    );
    assert_eq!(
        Ok(Some(Date { year: 1767, month: 6, day: 1 })),
        parse_date(&"June 1 1767".to_string())
    );
    assert_eq!(Ok(None), parse_date(&"   ".to_string()));
    assert_eq!(Err("unreadable date".to_string()), parse_date(&"Smarch 3 1900".to_string()));
}

#[test]
fn abbreviations() {
    assert_eq!("Jul 4, Jun 5", replace_abbrev(&"July 4, June 5".to_string()));
    assert_eq!("Jul Jul", replace_abbrev(&"July Jul".to_string()));
}

#[test]
fn from_parsed_trims_and_checks() {
    assert!(President::from_parsed(record(" A ", "Feb 22 1732", "Dec 14 1799")).is_ok());
    assert!(President::from_parsed(record("B", "Oct 1 1924", "")).is_ok());
    assert_eq!(
        "missing birth date",
        President::from_parsed(record("C", "", "")).map(|_| ()).unwrap_err()
    );
    assert_eq!(
        "unreadable date",
        President::from_parsed(record("D", "Feb 22 1732", "not a date")).map(|_| ()).unwrap_err()
    );
}

#[test]
fn test_into_events() {
    let presidents = vec![
        President::from_parsed(record("A", "Feb 22 1732", "Dec 14 1799")).unwrap(),
        President::from_parsed(record("B", "Oct 30 1735", "July 4 1826")).unwrap(),
        President::from_parsed(record("C", "Oct 1 1924", "")).unwrap(),
    ];
    let dead = presidents[0].into_event(EventType::Died);
    assert!(dead.is_some());
    assert!(presidents[2].into_event(EventType::Died).is_none());
    let events = create_events(&presidents);
    assert_eq!(5, events.len());
    let alive = create_alive_map(&events);
    // Events come person by person, not in date order.
    assert_eq!(Some(&1), alive.get(&1732));
    assert_eq!(Some(&0), alive.get(&1799));
    assert_eq!(Some(&1), alive.get(&1735));
    assert_eq!(Some(&0), alive.get(&1826));
    assert_eq!(Some(&1), alive.get(&1924));
    assert_eq!(5, alive.len());
}

#[test]
fn alive_map_keeps_the_count_after_the_last_event_of_a_year() {
    let presidents = vec![
        President::from_parsed(record("A", "Jan 1 1800", "Dec 1 1850")).unwrap(),
        President::from_parsed(record("B", "Mar 1 1850", "")).unwrap(),
    ];
    let events = create_events(&presidents);
    let alive = create_alive_map(&events);
    assert_eq!(Some(&1), alive.get(&1850));
    assert_eq!(Some(&1), alive.get(&1800));
}
