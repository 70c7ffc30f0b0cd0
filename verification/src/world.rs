//! The room graph: a top-level mapping from room names to entities, with the
//! startup consistency check and cross-room item moves.

use vstd::prelude::*;

use crate::thing::{alist_put, find_key, lemma_contents_map_dom, lemma_contents_map_index, lemma_contents_map_len, lemma_contents_map_remove, contents_map, thing_view, wf_list, Thing, ThingView};

verus! {

/// A startup configuration error: some room's exit names a destination that
/// is not a room of the world.
pub struct CheckError {
    pub room: String,
    pub target: String,
}

/// Why a cross-room move was rejected.
#[derive(Clone, Copy, Debug, PartialEq, Eq, Structural)]
pub enum MoveError {
    OriginNotFound,
    DestinationNotFound,
    ItemNotFound,
}

/// The rooms of the world, keyed by room name.  The world owns every room;
/// rooms own their contents transitively; exits are references by name only.
pub struct World {
    rooms: Vec<(String, Thing)>,
}

/// The effect on a world of relocating the item `name` from the direct
/// contents of room `here` to the direct contents of room `there`.
pub open spec fn move_effect(
    m: Map<Seq<char>, ThingView>,
    name: Seq<char>,
    here: Seq<char>,
    there: Seq<char>,
) -> Map<Seq<char>, ThingView> {
    let o = m[here];
    let moved = o.contents[name];
    let m1 = m.insert(
        here,
        ThingView { desc: o.desc, contents: o.contents.remove(name), adj: o.adj },
    );
    let d = m1[there];
    m1.insert(
        there,
        ThingView { desc: d.desc, contents: d.contents.insert(name, moved), adj: d.adj },
    )
}

impl View for World {
    type V = Map<Seq<char>, ThingView>;

    closed spec fn view(&self) -> Map<Seq<char>, ThingView> {
        contents_map(self.rooms@)
    }
}

/// The room map of any [`World`] is finite, and so is the contents map of
/// each of its rooms.
pub proof fn lemma_world_finite(w: World)
    requires
        w.wf(),
    ensures
        w@.dom().finite(),
        forall|k: Seq<char>| #[trigger] w@.contains_key(k) ==> w@[k].contents.dom().finite(),
{
    lemma_contents_map_dom(w.rooms@);
    assert forall|k: Seq<char>| #[trigger] w@.contains_key(k) implies w@[k].contents.dom().finite() by {
        let i = choose|i: int| 0 <= i < w.rooms@.len() && (#[trigger] w.rooms@[i]).0@ == k;
        lemma_contents_map_index(w.rooms@, i);
        crate::thing::lemma_thing_contents_finite(w.rooms@[i].1);
    }
}

impl World {
    /// Room names are unique and every room is well-formed.
    pub closed spec fn wf(self) -> bool {
        wf_list(self.rooms@)
    }

    /// A world with no rooms.
    pub fn new() -> (w: World)
        ensures
            w.wf(),
            w@ == Map::<Seq<char>, ThingView>::empty(),
    {
        World { rooms: Vec::new() }
    }

    /// Binds `name` to `room`, replacing any room already using the name.
    pub fn add_room(&mut self, name: String, room: Thing)
        requires
            old(self).wf(),
            room.wf(),
        ensures
            final(self).wf(),
            final(self)@ == old(self)@.insert(name@, room@),
    {
        alist_put(&mut self.rooms, name, room);
    }

    /// Whether a room of the given name exists.
    pub fn has_room(&self, name: &str) -> (b: bool)
        ensures
            b == self@.contains_key(name@),
    {
        let n = name.to_owned();
        let r = find_key(&self.rooms, &n);
        proof {
            lemma_contents_map_dom(self.rooms@);
        }
        r.is_some()
    }

    /// A shared borrow of the room of the given name.
    pub fn room_at(&self, name: &str) -> (r: Option<&Thing>)
        requires
            self.wf(),
        ensures
            match r {
                Some(t) => self@.contains_key(name@) && thing_view(*t) == self@[name@]
                    && t.wf(),
                None => !self@.contains_key(name@),
            },
    {
        let n = name.to_owned();
        proof {
            lemma_contents_map_dom(self.rooms@);
        }
        match find_key(&self.rooms, &n) {
            Some(i) => {
                proof {
                    lemma_contents_map_index(self.rooms@, i as int);
                }
                Some(&self.rooms[i].1)
            }
            None => None,
        }
    }

    /// Takes the room of the given name out of the world, together with its
    /// stored name.
    pub(crate) fn take_room(&mut self, name: &String) -> (r: Option<(String, Thing)>)
        requires
            old(self).wf(),
        ensures
            final(self).wf(),
            match r {
                Some(p) => {
                    &&& old(self)@.contains_key(name@)
                    &&& p.0@ == name@
                    &&& thing_view(p.1) == old(self)@[name@]
                    &&& p.1.wf()
                    &&& final(self)@ == old(self)@.remove(name@)
                },
                None => !old(self)@.contains_key(name@) && *final(self) == *old(self),
            },
    {
        let ghost s0 = self.rooms@;
        proof {
            lemma_contents_map_dom(s0);
        }
        match find_key(&self.rooms, name) {
            Some(i) => {
                proof {
                    lemma_contents_map_index(s0, i as int);
                    lemma_contents_map_remove(s0, i as int);
                }
                let p = self.rooms.remove(i);
                proof {
                    let s1 = s0.remove(i as int);
                    assert forall|a: int, b: int| 0 <= a < b < s1.len() implies (#[trigger] s1[a]).0@
                        != (#[trigger] s1[b]).0@ by {
                        assert(s1[a] == if a < i { s0[a] } else { s0[a + 1] });
                        assert(s1[b] == if b < i { s0[b] } else { s0[b + 1] });
                    }
                    assert forall|a: int| 0 <= a < s1.len() implies (#[trigger] s1[a]).1.wf() by {
                        assert(s1[a] == if a < i { s0[a] } else { s0[a + 1] });
                    }
                }
                Some(p)
            }
            None => None,
        }
    }

    /// Binds `name` to `room`, like [`World::add_room`].
    pub(crate) fn put_room(&mut self, name: String, room: Thing)
        requires
            old(self).wf(),
            room.wf(),
        ensures
            final(self).wf(),
            final(self)@ == old(self)@.insert(name@, room@),
    {
        alist_put(&mut self.rooms, name, room);
    }

    /// The names of all rooms, in storage order; exactly one entry per room.
    pub fn room_names(&self) -> (names: Vec<String>)
        requires
            self.wf(),
        ensures
            names@.len() == self@.dom().len(),
            forall|i: int| 0 <= i < names@.len() ==> self@.dom().contains((#[trigger] names@[i])@),
            forall|k: Seq<char>| self@.dom().contains(k) ==> exists|i: int|
                0 <= i < names@.len() && (#[trigger] names@[i])@ == k,
            forall|i: int, j: int| 0 <= i < j < names@.len() ==> names@[i]@ != names@[j]@,
    {
        let mut names: Vec<String> = Vec::new();
        let mut i: usize = 0;
        while i < self.rooms.len()
            invariant
                i <= self.rooms@.len(),
                names@.len() == i,
                forall|j: int| 0 <= j < i ==> (#[trigger] names@[j])@ == self.rooms@[j].0@,
            decreases self.rooms@.len() - i,
        {
            names.push(self.rooms[i].0.clone());
            i += 1;
        }
        proof {
            lemma_contents_map_dom(self.rooms@);
            lemma_contents_map_len(self.rooms@);
            assert forall|k: Seq<char>| self@.dom().contains(k) implies exists|i: int|
                0 <= i < names@.len() && (#[trigger] names@[i])@ == k by {
                let i = choose|i: int|
                    0 <= i < self.rooms@.len() && (#[trigger] self.rooms@[i]).0@ == k;
                assert(names@[i]@ == k);
            }
        }
        names
    }

    /// The startup consistency check: every exit of every room must name an
    /// existing room.  On the first unresolved exit it reports the offending
    /// room and the missing destination.
    pub fn check(&self) -> (r: Result<(), CheckError>)
        requires
            self.wf(),
        ensures
            match r {
                Ok(()) => forall|rk: Seq<char>, d: Seq<char>|
                    self@.contains_key(rk) && (#[trigger] self@[rk].adj.contains_key(d))
                        ==> self@.contains_key(self@[rk].adj[d]),
                Err(e) => {
                    &&& self@.contains_key(e.room@)
                    &&& exists|d: Seq<char>| (#[trigger] self@[e.room@].adj.contains_key(d))
                        && self@[e.room@].adj[d] == e.target@
                    &&& !self@.contains_key(e.target@)
                },
            },
    {
        let names = self.room_names();
        let mut i: usize = 0;
        while i < names.len()
            invariant
                self.wf(),
                i <= names@.len(),
                names@.len() == self@.dom().len(),
                forall|x: int| 0 <= x < names@.len() ==> self@.dom().contains(
                    (#[trigger] names@[x])@,
                ),
                forall|k: Seq<char>| self@.dom().contains(k) ==> exists|x: int|
                    0 <= x < names@.len() && (#[trigger] names@[x])@ == k,
                forall|x: int, d: Seq<char>|
                    0 <= x < i && (#[trigger] self@[names@[x]@].adj.contains_key(d))
                        ==> self@.contains_key(self@[names@[x]@].adj[d]),
            decreases names@.len() - i,
        {
            let room = match self.room_at(names[i].as_str()) {
                Some(room) => room,
                None => vstd::pervasive::unreached(),
            };
            let exits = room.exits();
            let mut j: usize = 0;
            while j < exits.len()
                invariant
                    i < names@.len(),
                    j <= exits@.len(),
                    self.wf(),
                    thing_view(*room) == self@[names@[i as int]@],
                    self@.contains_key(names@[i as int]@),
                    forall|x: int| 0 <= x < exits@.len() ==> room@.adj.contains_key(
                        (#[trigger] exits@[x]).0@,
                    ) && room@.adj[exits@[x].0@] == exits@[x].1@,
                    forall|d: Seq<char>| room@.adj.contains_key(d) ==> exists|x: int|
                        0 <= x < exits@.len() && (#[trigger] exits@[x]).0@ == d,
                    forall|x: int| 0 <= x < j ==> self@.contains_key((#[trigger] exits@[x]).1@),
                decreases exits@.len() - j,
            {
                if !self.has_room(exits[j].1.as_str()) {
                    return Err(CheckError { room: names[i].clone(), target: exits[j].1.clone() });
                }
                j += 1;
            }
            proof {
                assert forall|d: Seq<char>| #[trigger] self@[names@[i as int]@].adj.contains_key(d)
                    implies self@.contains_key(self@[names@[i as int]@].adj[d]) by {
                    let x = choose|x: int|
                        0 <= x < exits@.len() && (#[trigger] exits@[x]).0@ == d;
                    assert(self@.contains_key(exits@[x].1@));
                }
            }
            i += 1;
        }
        proof {
            assert forall|rk: Seq<char>, d: Seq<char>|
                self@.contains_key(rk) && (#[trigger] self@[rk].adj.contains_key(d))
                implies self@.contains_key(self@[rk].adj[d]) by {
                let x = choose|x: int| 0 <= x < names@.len() && (#[trigger] names@[x])@ == rk;
            }
        }
        Ok(())
    }

    /// Relocates the item `name` from the direct contents of room `here` to
    /// the direct contents of room `there`.  On failure the world is left
    /// untouched, and the error says which precondition failed, checked in
    /// this order: the origin exists, the destination exists, the item is
    /// directly in the origin.
    pub fn move_thing(&mut self, name: &str, here: &str, there: &str) -> (r: Result<(), MoveError>)
        requires
            old(self).wf(),
        ensures
            final(self).wf(),
            match r {
                Ok(()) => {
                    &&& old(self)@.contains_key(here@)
                    &&& old(self)@.contains_key(there@)
                    &&& old(self)@[here@].contents.contains_key(name@)
                    &&& final(self)@ == move_effect(old(self)@, name@, here@, there@)
                },
                Err(MoveError::OriginNotFound) => !old(self)@.contains_key(here@)
                    && *final(self) == *old(self),
                Err(MoveError::DestinationNotFound) => old(self)@.contains_key(here@)
                    && !old(self)@.contains_key(there@) && *final(self) == *old(self),
                Err(MoveError::ItemNotFound) => old(self)@.contains_key(here@)
                    && old(self)@.contains_key(there@)
                    && !old(self)@[here@].contents.contains_key(name@)
                    && *final(self) == *old(self),
            },
    {
        let here_s = here.to_owned();
        let there_s = there.to_owned();
        let name_s = name.to_owned();
        if !self.has_room(here) {
            return Err(MoveError::OriginNotFound);
        }
        if !self.has_room(there) {
            return Err(MoveError::DestinationNotFound);
        }
        let present = match self.room_at(here) {
            Some(origin) => origin.has_item(name),
            None => vstd::pervasive::unreached(),
        };
        if !present {
            return Err(MoveError::ItemNotFound);
        }
        let mut o = match self.take_room(&here_s) {
            Some(o) => o,
            None => vstd::pervasive::unreached(),
        };
        let p = match o.1.take_item(&name_s) {
            Some(p) => p,
            None => vstd::pervasive::unreached(),
        };
        self.put_room(o.0, o.1);
        let mut d = match self.take_room(&there_s) {
            Some(d) => d,
            None => vstd::pervasive::unreached(),
        };
        d.1.put_item(p.0, p.1);
        self.put_room(d.0, d.1);
        proof {
            assert(final(self)@ =~~= move_effect(old(self)@, name@, here@, there@));
        }
        Ok(())
    }
}

} // verus!
