use puzzle_grids::room::Room;

#[test]
fn test_simple() {
    let room = Room::from_str(
        "10\n\
3 6\n\
0 4\n\
7 3\n\
9 9",
    )
    .unwrap();

    let e = room.get_enabled_light_count();
    assert_eq!(7, e);
}

#[test]
fn new_room_is_dark() {
    let room = Room::new(5);
    assert_eq!(0, room.get_enabled_light_count());
}

#[test]
fn toggle_range_accepts_either_order() {
    let mut room = Room::new(10);
    room.toggle_range(2..5);
    assert_eq!(4, room.get_enabled_light_count());
    room.toggle_range(5..2);
    assert_eq!(0, room.get_enabled_light_count());
    room.toggle_range(9..9);
    assert_eq!(1, room.get_enabled_light_count());
}

#[test]
fn from_str_errors() {
    assert_eq!(Err("missing # lightswitches".to_string()), Room::from_str("").map(|_| ()));
    let text = |r: Result<Room, String>| r.map(|_| ()).unwrap_err();
    assert_eq!("invalid digit found in string", text(Room::from_str("ten")));
    assert_eq!("expected two switch numbers", text(Room::from_str("10\n1 2 3")));
    assert_eq!("invalid digit found in string", text(Room::from_str("10\n1 x")));
    assert_eq!("switch number past the last switch", text(Room::from_str("10\n1 10")));
    assert_eq!("switch number past the last switch", text(Room::from_str("10\n1 10\n1 2 3")));
}

#[test]
fn from_str_trims_range_lines_and_accepts_crlf() {
    let room = Room::from_str("4\r\n  0 1  \r\n3 3\n").unwrap();
    assert_eq!(3, room.get_enabled_light_count());
}

#[test]
fn lines_drop_a_final_empty_line_and_keep_a_bare_carriage_return() {
    assert_eq!(1, Room::from_str("3\n1 1\n").unwrap().get_enabled_light_count());
    assert_eq!(0, Room::from_str("3\r\n").unwrap().get_enabled_light_count());
    assert!(Room::from_str("3\r").is_err());
}
