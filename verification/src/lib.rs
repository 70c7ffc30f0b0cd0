//! A small text-world model: named rooms joined by directional exits, each
//! room holding named entities that may in turn hold further entities.
//!
//! The crate provides the containment data model ([`thing::Thing`]), the room
//! graph with its consistency check and cross-room moves ([`world::World`]),
//! and the command interpreter that drives them ([`command::step`]).  Every
//! operation is specified against a mathematical view: a `Thing` is seen as a
//! [`thing::ThingView`] (description, a map from names to contained views, and
//! a map from directions to room names), and a `World` as a map from room
//! names to views.

pub mod command;
pub mod laws;
pub mod thing;
pub mod world;
