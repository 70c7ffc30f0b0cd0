use worldsim::command::{room_header, step, tokenize, try_inserting, try_removing};
use worldsim::thing::Thing;
use worldsim::world::World;

fn two_room_world() -> World {
    let mut world = World::new();
    world.add_room(
        String::from("a"),
        Thing::new("This is a")
            .with_adj(vec![(String::from("north"), String::from("b"))])
            .with_contents(vec![
                (String::from("cube"), Thing::new("It's a freaking cube.")),
                (String::from("player"), Thing::new("It's you!")),
            ]),
    );
    world.add_room(
        String::from("b"),
        Thing::new("This is b").with_adj(vec![(String::from("south"), String::from("a"))]),
    );
    world
}

fn run(world: &mut World, addr: &str, line: &str) -> (String, Vec<String>, bool) {
    let tokens = tokenize(line);
    let addr = String::from(addr);
    let o = step(world, &addr, &tokens);
    (o.next, o.lines, o.done)
}

fn header_lines(world: &World, addr: &str) -> Vec<String> {
    room_header(world, &String::from(addr)).unwrap()
}

#[test]
fn tokenize_splits_on_single_spaces_and_trims() {
    assert_eq!(tokenize("insert cube bag\n"), vec!["insert", "cube", "bag"]);
    assert_eq!(tokenize("look\n"), vec!["look"]);
    assert_eq!(tokenize(""), vec![""]);
}

#[test]
fn tokenize_keeps_empty_tokens_from_double_spaces() {
    assert_eq!(tokenize("insert  cube bag\n"), vec!["insert", "", "cube", "bag"]);
    assert_eq!(tokenize(" look"), vec!["", "look"]);
}

#[test]
fn unknown_verb_is_a_silent_no_op() {
    let mut world = two_room_world();
    let before = header_lines(&world, "a");
    let (next, lines, done) = run(&mut world, "a", "dance\n");
    assert_eq!(next, "a");
    assert!(lines.is_empty());
    assert!(!done);
    assert_eq!(header_lines(&world, "a"), before);
}

#[test]
fn unknown_direction_is_a_silent_no_op() {
    let mut world = two_room_world();
    let (next, lines, done) = run(&mut world, "a", "south\n");
    assert_eq!(next, "a");
    assert!(lines.is_empty());
    assert!(!done);
}

#[test]
fn exit_ends_the_session() {
    let mut world = two_room_world();
    let (next, lines, done) = run(&mut world, "a", "exit\n");
    assert_eq!(next, "a");
    assert!(lines.is_empty());
    assert!(done);
}

#[test]
fn look_prints_the_room_description() {
    let mut world = two_room_world();
    let (next, lines, done) = run(&mut world, "a", "look\n");
    assert_eq!(next, "a");
    assert_eq!(lines, vec!["This is a"]);
    assert!(!done);
}

#[test]
fn insert_with_missing_container_reports_it() {
    let mut world = two_room_world();
    let (_, lines, _) = run(&mut world, "a", "insert cube bag\n");
    assert_eq!(lines, vec!["player couldn't find the bag."]);
    assert!(world.room_at("a").unwrap().has_item("cube"));
}

#[test]
fn insert_and_remove_round_trip_through_commands() {
    let mut world = two_room_world();
    let tokens = tokenize("insert cube player\n");
    let addr = String::from("a");
    let o = step(&mut world, &addr, &tokens);
    assert_eq!(o.lines, vec!["player couldn't find the player."]);
    let mut room = Thing::new("r").with_contents(vec![
        (String::from("cube"), Thing::new("a cube")),
        (String::from("bag"), Thing::new("a bag")),
    ]);
    assert_eq!(
        try_inserting(&mut room, "player", "cube", "bag"),
        "player put the cube into the bag."
    );
    assert_eq!(
        try_removing(&mut room, "player", "cube", "bag"),
        "player took the cube out of the bag."
    );
    assert!(room.has_item("cube"));
    assert!(room.has_item("bag"));
}

#[test]
fn self_insertion_message_matches() {
    let mut room = Thing::new("r").with_contents(vec![
        (String::from("cube"), Thing::new("a cube")),
    ]);
    assert_eq!(
        try_inserting(&mut room, "player", "cube", "cube"),
        "player can't insert cube into itself."
    );
    assert!(room.has_item("cube"));
}

#[test]
fn remove_messages_match() {
    let mut room = Thing::new("r").with_contents(vec![
        (String::from("cube"), Thing::new("a cube")),
        (String::from("bag"), Thing::new("a bag")),
    ]);
    assert_eq!(
        try_removing(&mut room, "player", "cube", "chest"),
        "player couldn't find the chest."
    );
    assert_eq!(
        try_removing(&mut room, "player", "coin", "bag"),
        "player couldn't find a coin in the bag."
    );
}

#[test]
fn malformed_insert_reports_usage() {
    let mut world = two_room_world();
    let (_, lines, _) = run(&mut world, "a", "insert cube\n");
    assert_eq!(lines, vec!["usage: insert <item> <container>"]);
    let (_, lines, _) = run(&mut world, "a", "remove\n");
    assert_eq!(lines, vec!["usage: remove <item> <container>"]);
    let (_, lines, _) = run(&mut world, "a", "insert  cube bag\n");
    assert_eq!(lines, vec!["usage: insert <item> <container>"]);
}

#[test]
fn header_lists_the_room_contents() {
    let world = two_room_world();
    let lines = header_lines(&world, "a");
    assert_eq!(lines[0], "You are here: a");
    assert_eq!(lines[1], "You see:");
    let mut items: Vec<String> = lines[2..].to_vec();
    items.sort();
    assert_eq!(items, vec!["  a cube", "  a player"]);
    assert!(room_header(&world, &String::from("z")).is_none());
}

#[test]
fn moving_north_relocates_the_player() {
    let mut world = two_room_world();
    let (next, lines, done) = run(&mut world, "a", "north\n");
    assert_eq!(next, "b");
    assert!(lines.is_empty());
    assert!(!done);
    let lines = header_lines(&world, "b");
    assert_eq!(lines[0], "You are here: b");
    assert_eq!(lines[1], "You see:");
    assert_eq!(&lines[2..], &[String::from("  a player")]);
    assert!(!world.room_at("a").unwrap().has_item("player"));
    let (next, _, _) = run(&mut world, "b", "south\n");
    assert_eq!(next, "a");
    assert!(world.room_at("a").unwrap().has_item("player"));
}

#[test]
fn empty_line_is_a_no_op() {
    let mut world = two_room_world();
    let (next, lines, done) = run(&mut world, "a", "\n");
    assert_eq!(next, "a");
    assert!(lines.is_empty());
    assert!(!done);
}
