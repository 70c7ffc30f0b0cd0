use worldsim::thing::{InsertError, RemoveError, Thing};
use worldsim::world::{MoveError, World};

fn room_with(items: Vec<(&str, &str)>) -> Thing {
    let v: Vec<(String, Thing)> = items
        .into_iter()
        .map(|(name, desc)| (String::from(name), Thing::new(desc)))
        .collect();
    Thing::new("a room").with_contents(v)
}

fn sorted_names(t: &Thing) -> Vec<String> {
    let mut names = t.content_names();
    names.sort();
    names
}

fn two_room_world() -> World {
    let mut world = World::new();
    world.add_room(
        String::from("a"),
        Thing::new("This is a")
            .with_adj(vec![(String::from("north"), String::from("b"))])
            .with_contents(vec![
                (String::from("cube"), Thing::new("It's a freaking cube.")),
                (String::from("player"), Thing::new("It's you!")),
            ]),
    );
    world.add_room(
        String::from("b"),
        Thing::new("This is b").with_adj(vec![(String::from("south"), String::from("a"))]),
    );
    world
}

#[test]
fn check_passes_on_consistent_world() {
    let world = two_room_world();
    assert!(world.check().is_ok());
}

#[test]
fn check_names_dangling_room_and_target() {
    let mut world = World::new();
    world.add_room(
        String::from("a"),
        Thing::new("This is a").with_adj(vec![(String::from("north"), String::from("nowhere"))]),
    );
    let err = world.check().unwrap_err();
    assert_eq!(err.room, "a");
    assert_eq!(err.target, "nowhere");
}

#[test]
fn check_passes_on_empty_world() {
    assert!(World::new().check().is_ok());
}

#[test]
fn insert_then_remove_restores_direct_contents() {
    let mut room = room_with(vec![("cube", "a cube"), ("bag", "a bag"), ("player", "you")]);
    let before = sorted_names(&room);
    assert_eq!(room.insert("cube", "bag"), Ok(()));
    assert_eq!(
        sorted_names(&room),
        vec![String::from("bag"), String::from("player")]
    );
    assert_eq!(room.remove("cube", "bag"), Ok(()));
    assert_eq!(sorted_names(&room), before);
}

#[test]
fn insert_into_itself_is_rejected() {
    let mut room = room_with(vec![("cube", "a cube"), ("bag", "a bag")]);
    let before = sorted_names(&room);
    assert_eq!(room.insert("cube", "cube"), Err(InsertError::SelfInsertion));
    assert_eq!(sorted_names(&room), before);
    assert!(room.has_item("cube"));
    assert!(room.has_item("bag"));
}

#[test]
fn insert_reports_missing_item_before_missing_container() {
    let mut room = room_with(vec![("bag", "a bag")]);
    assert_eq!(room.insert("cube", "bag"), Err(InsertError::ItemNotFound));
    assert_eq!(room.insert("bag", "chest"), Err(InsertError::ContainerNotFound));
    assert_eq!(room.insert("cube", "chest"), Err(InsertError::ItemNotFound));
}

#[test]
fn remove_reports_missing_container_then_missing_item() {
    let mut room = room_with(vec![("bag", "a bag"), ("cube", "a cube")]);
    assert_eq!(room.remove("cube", "chest"), Err(RemoveError::ContainerNotFound));
    assert_eq!(room.remove("coin", "bag"), Err(RemoveError::ItemNotFound));
    assert_eq!(room.insert("cube", "bag"), Ok(()));
    assert_eq!(room.remove("cube", "bag"), Ok(()));
    assert!(room.has_item("cube"));
}

#[test]
fn nested_item_is_reachable_through_item_at() {
    let mut room = room_with(vec![("cube", "a cube"), ("bag", "a bag")]);
    assert_eq!(room.insert("cube", "bag"), Ok(()));
    let bag = room.item_at("bag").unwrap();
    assert!(bag.has_item("cube"));
    assert!(room.item_at("cube").is_none());
}

#[test]
fn move_thing_shifts_one_item_between_rooms() {
    let mut world = two_room_world();
    let before_a = world.room_at("a").unwrap().content_names().len();
    let before_b = world.room_at("b").unwrap().content_names().len();
    assert_eq!(world.move_thing("player", "a", "b"), Ok(()));
    let after_a = world.room_at("a").unwrap().content_names().len();
    let after_b = world.room_at("b").unwrap().content_names().len();
    assert_eq!(after_a, before_a - 1);
    assert_eq!(after_b, before_b + 1);
    assert!(!world.room_at("a").unwrap().has_item("player"));
    assert!(world.room_at("b").unwrap().has_item("player"));
    assert!(world.room_at("a").unwrap().has_item("cube"));
}

#[test]
fn move_thing_reports_each_failure() {
    let mut world = two_room_world();
    assert_eq!(world.move_thing("player", "z", "b"), Err(MoveError::OriginNotFound));
    assert_eq!(world.move_thing("player", "a", "z"), Err(MoveError::DestinationNotFound));
    assert_eq!(world.move_thing("ghost", "a", "b"), Err(MoveError::ItemNotFound));
    assert!(world.room_at("a").unwrap().has_item("player"));
}

#[test]
fn later_bindings_win_in_constructors() {
    let room = Thing::new("r").with_contents(vec![
        (String::from("cube"), Thing::new("first")),
        (String::from("cube"), Thing::new("second")),
    ]);
    let names = room.content_names();
    assert_eq!(names, vec![String::from("cube")]);
    assert_eq!(room.item_at("cube").unwrap().description().as_str(), "second");
}

#[test]
fn exits_and_exit_to_agree() {
    let world = two_room_world();
    let a = world.room_at("a").unwrap();
    assert_eq!(a.exit_to("north").unwrap().as_str(), "b");
    assert!(a.exit_to("south").is_none());
    let exits = a.exits();
    assert_eq!(exits, vec![(String::from("north"), String::from("b"))]);
}

#[test]
fn take_and_put_move_ownership() {
    let mut room = room_with(vec![("cube", "a cube")]);
    let (name, cube) = room.take_item(&String::from("cube")).unwrap();
    assert_eq!(name, "cube");
    assert!(!room.has_item("cube"));
    room.put_item(name, cube);
    assert!(room.has_item("cube"));
    assert!(room.take_item(&String::from("ghost")).is_none());
}
