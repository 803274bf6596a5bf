use puzzle_grids::sums::{count_redhairs, CurrentCounter, Level, ReportLine, SchoolData};

fn line(level: Level, name: &str, count: usize) -> ReportLine {
    ReportLine { level, name: name.to_string(), count }
}

#[test]
fn test_normal_parse() {
    let line = "A,B,C,K100";

    let school = SchoolData::from_str(line).unwrap();

    assert_eq!("A".to_string(), school.state);
    assert_eq!("B".to_string(), school.city);
    assert_eq!("C".to_string(), school.school);
    assert_eq!('K', school.grade);
    assert_eq!(100, school.number);
}

#[test]
fn test_unparsable() {
    assert_eq!(Err("Expected four fields".to_string()), SchoolData::from_str("A B C K100"));
    assert_eq!(Err("Grade unparsable".to_string()), SchoolData::from_str("A,B,C,"));
    assert_eq!(Err("Couldn't parse number".to_string()), SchoolData::from_str("A,B,C,Kx"));
    assert_eq!(Err("Couldn't parse number".to_string()), SchoolData::from_str("A,B,C,K"));
}

#[test]
fn test_count_redhairs() {
    let input: Vec<String> = vec![
        "NY,Albany,North,K10".to_string(),
        "NY,Albany,North,A5".to_string(),
        "NY,Albany,South,K1".to_string(),
        "NY,Buffalo,East,K2".to_string(),
        "TX,Austin,West,K7".to_string(),
    ];
    let report = count_redhairs(&input).unwrap();
    assert_eq!(
        report,
        vec![
            line(Level::School, "North", 15),
            line(Level::School, "South", 1),
            line(Level::City, "Albany", 16),
            line(Level::School, "South", 0),
            line(Level::School, "East", 2),
            line(Level::City, "Buffalo", 2),
            line(Level::State, "NY", 18),
            line(Level::School, "East", 0),
            line(Level::City, "Buffalo", 0),
            line(Level::School, "East", 0),
            line(Level::School, "West", 7),
            line(Level::City, "Austin", 7),
            line(Level::State, "TX", 7),
        ]
    );
}

#[test]
fn count_redhairs_edges() {
    let none: Vec<String> = Vec::new();
    assert_eq!(Ok(Vec::new()), count_redhairs(&none));
    let bad = vec!["A,B,C,K1".to_string(), "broken".to_string(), "A,B,C,".to_string()];
    assert_eq!(Err("Expected four fields".to_string()), count_redhairs(&bad));
    let big = vec![format!("A,B,C,K{}", usize::MAX), "A,B,C,K1".to_string()];
    assert_eq!(Err("count does not fit".to_string()), count_redhairs(&big));
}

#[test]
fn counter_reports_closed_groups() {
    let mut counter = CurrentCounter::from(SchoolData::from_str("S,C,X,K3").unwrap());
    let first = SchoolData::from_str("S,C,Y,K4").unwrap();
    assert!(counter.fits(&first));
    assert_eq!(vec![line(Level::School, "X", 3)], counter.update_count(first));
    assert_eq!(
        vec![line(Level::School, "Y", 4), line(Level::City, "C", 7), line(Level::State, "S", 7)],
        counter.print_final_report()
    );
}
