//! The command interpreter: tokenizing one line of input and dispatching it
//! against the world on behalf of the actor named `player`.

use vstd::prelude::*;

use crate::thing::{insert_effect, remove_effect, Thing, ThingView};
use crate::world::{move_effect, World};
use vstd::string::{StrSliceExecFns, StringExecFns};

verus! {

/// A single whitespace character recognized by token trimming.
pub open spec fn is_space_char(c: char) -> bool {
    c == ' ' || c == '\t' || c == '\n' || c == '\r'
}

/// The token with its leading whitespace removed.
pub open spec fn trim_front_spec(s: Seq<char>) -> Seq<char>
    decreases s.len(),
{
    if s.len() > 0 && is_space_char(s[0]) {
        trim_front_spec(s.drop_first())
    } else {
        s
    }
}

/// The token with its trailing whitespace removed.
pub open spec fn trim_back_spec(s: Seq<char>) -> Seq<char>
    decreases s.len(),
{
    if s.len() > 0 && is_space_char(s.last()) {
        trim_back_spec(s.drop_last())
    } else {
        s
    }
}

/// The token with whitespace removed from both ends.
pub open spec fn trim_spec(s: Seq<char>) -> Seq<char> {
    trim_back_spec(trim_front_spec(s))
}

/// Position of the first space in `s`, or `-1` when there is none.
pub open spec fn first_space(s: Seq<char>) -> int
    decreases s.len(),
{
    if s.len() == 0 {
        -1
    } else if s[0] == ' ' {
        0
    } else if first_space(s.drop_first()) == -1 {
        -1
    } else {
        first_space(s.drop_first()) + 1
    }
}

proof fn lemma_first_space(s: Seq<char>)
    ensures
        -1 <= first_space(s) < s.len(),
        first_space(s) >= 0 ==> s[first_space(s)] == ' ',
        forall|j: int| 0 <= j < s.len() && first_space(s) == -1 ==> s[j] != ' ',
        forall|j: int| 0 <= j < first_space(s) ==> s[j] != ' ',
    decreases s.len(),
{
    if s.len() > 0 && s[0] != ' ' {
        lemma_first_space(s.drop_first());
        assert forall|j: int| 0 <= j < first_space(s) implies s[j] != ' ' by {
            if j > 0 {
                assert(s.drop_first()[j - 1] == s[j]);
            }
        }
        assert forall|j: int| 0 <= j < s.len() && first_space(s) == -1 implies s[j] != ' ' by {
            if j > 0 {
                assert(s.drop_first()[j - 1] == s[j]);
            }
        }
    }
}

proof fn lemma_first_space_at(s: Seq<char>, i: int)
    requires
        0 <= i < s.len(),
        s[i] == ' ',
        forall|j: int| 0 <= j < i ==> s[j] != ' ',
    ensures
        first_space(s) == i,
    decreases s.len(),
{
    if i > 0 {
        assert forall|j: int| 0 <= j < i - 1 implies s.drop_first()[j] != ' ' by {
            assert(s.drop_first()[j] == s[j + 1]);
        }
        lemma_first_space_at(s.drop_first(), i - 1);
    }
}

proof fn lemma_first_space_none(s: Seq<char>)
    requires
        forall|j: int| 0 <= j < s.len() ==> s[j] != ' ',
    ensures
        first_space(s) == -1,
    decreases s.len(),
{
    if s.len() > 0 {
        assert forall|j: int| 0 <= j < s.drop_first().len() implies s.drop_first()[j] != ' ' by {
            assert(s.drop_first()[j] == s[j + 1]);
        }
        lemma_first_space_none(s.drop_first());
    }
}

/// The pieces of `s` between its spaces: one piece more than there are
/// spaces, each piece possibly empty.
pub open spec fn split_tokens(s: Seq<char>) -> Seq<Seq<char>>
    decreases s.len()
    via split_tokens_dec
{
    let i = first_space(s);
    if i == -1 {
        seq![s]
    } else {
        seq![s.take(i)] + split_tokens(s.skip(i + 1))
    }
}

#[via_fn]
proof fn split_tokens_dec(s: Seq<char>) {
    lemma_first_space(s);
}

/// One line of input as the interpreter sees it: split on single spaces,
/// every piece trimmed of surrounding whitespace.
pub open spec fn tokens_spec(s: Seq<char>) -> Seq<Seq<char>> {
    split_tokens(s).map_values(|t: Seq<char>| trim_spec(t))
}

/// The views of a vector of token strings.
pub open spec fn views_of(lines: Seq<String>) -> Seq<Seq<char>> {
    lines.map_values(|s: String| s@)
}

fn is_space(c: char) -> (b: bool)
    ensures
        b == is_space_char(c),
{
    c == ' ' || c == '\t' || c == '\n' || c == '\r'
}

/// A copy of the token with whitespace removed from both ends.
pub fn trim_token(s: &str) -> (r: String)
    ensures
        r@ == trim_spec(s@),
{
    let n = s.unicode_len();
    proof {
        assert(s@.skip(0) =~= s@);
    }
    let mut a: usize = 0;
    while a < n && is_space(s.get_char(a))
        invariant
            a <= n,
            n == s@.len(),
            trim_front_spec(s@) == trim_front_spec(s@.skip(a as int)),
        decreases n - a,
    {
        proof {
            assert(s@.skip(a as int).drop_first() =~= s@.skip(a as int + 1));
        }
        a += 1;
    }
    proof {
        assert(s@.skip(a as int).len() == n - a);
        if a < n {
            assert(s@.skip(a as int)[0] == s@[a as int]);
        }
        assert(trim_front_spec(s@) == s@.skip(a as int));
    }
    let mut b: usize = n;
    while b > a && is_space(s.get_char(b - 1))
        invariant
            a <= b <= n,
            n == s@.len(),
            trim_front_spec(s@) == s@.skip(a as int),
            trim_back_spec(s@.skip(a as int)) == trim_back_spec(s@.subrange(a as int, b as int)),
        decreases b,
    {
        proof {
            let piece = s@.subrange(a as int, b as int);
            assert(piece.last() == s@[b - 1]);
            assert(piece.drop_last() =~= s@.subrange(a as int, b as int - 1));
        }
        b -= 1;
    }
    proof {
        assert(s@.skip(a as int) =~= s@.subrange(a as int, n as int));
        let piece = s@.subrange(a as int, b as int);
        if b > a {
            assert(piece.last() == s@[b - 1]);
        }
        assert(trim_back_spec(piece) == piece);
    }
    s.substring_char(a, b).to_owned()
}

fn find_space(s: &str) -> (r: Option<usize>)
    ensures
        match r {
            Some(i) => first_space(s@) == i,
            None => first_space(s@) == -1,
        },
{
    let n = s.unicode_len();
    let mut i: usize = 0;
    while i < n
        invariant
            n == s@.len(),
            i <= n,
            forall|j: int| 0 <= j < i ==> s@[j] != ' ',
        decreases n - i,
    {
        if s.get_char(i) == ' ' {
            proof {
                lemma_first_space_at(s@, i as int);
            }
            return Some(i);
        }
        i += 1;
    }
    proof {
        lemma_first_space_none(s@);
    }
    None
}

/// Splits one line of input into its tokens: pieces between single spaces,
/// each trimmed of surrounding whitespace.  Always yields at least one token.
pub fn tokenize(s: &str) -> (r: Vec<String>)
    ensures
        views_of(r@) == tokens_spec(s@),
        r@.len() >= 1,
    decreases s@.len(),
{
    match find_space(s) {
        None => {
            let t = trim_token(s);
            let mut r: Vec<String> = Vec::new();
            r.push(t);
            proof {
                assert(views_of(r@) =~= tokens_spec(s@));
            }
            r
        }
        Some(i) => {
            proof {
                lemma_first_space(s@);
            }
            let n = s.unicode_len();
            let head = s.substring_char(0, i);
            let tail = s.substring_char(i + 1, n);
            let t = trim_token(head);
            let mut r = tokenize(tail);
            let ghost rest = r@;
            r.insert(0, t);
            proof {
                assert(head@ =~= s@.take(i as int));
                assert(tail@ =~= s@.skip(i as int + 1));
                let st = split_tokens(s@);
                assert(st == seq![s@.take(i as int)] + split_tokens(s@.skip(i as int + 1)));
                assert(split_tokens(tail@) == split_tokens(s@.skip(i as int + 1)));
                assert(views_of(rest).len() == rest.len());
                assert(tokens_spec(tail@).len() == split_tokens(tail@).len());
                assert(st.len() == 1 + split_tokens(tail@).len());
                assert(r@.len() == rest.len() + 1);
                assert forall|k: int| 0 <= k < views_of(r@).len() implies views_of(r@)[k]
                    == tokens_spec(s@)[k] by {
                    if k == 0 {
                        assert(r@[0] == t);
                        assert(st[0] == s@.take(i as int));
                    } else {
                        assert(r@[k] == rest[k - 1]);
                        assert(st[k] == split_tokens(tail@)[k - 1]);
                        assert(views_of(rest)[k - 1] == tokens_spec(tail@)[k - 1]);
                    }
                }
                assert(views_of(r@) =~= tokens_spec(s@));
            }
            r
        }
    }
}

/// `<actor> couldn't find the <name>.`
pub open spec fn msg_not_found(actor: Seq<char>, name: Seq<char>) -> Seq<char> {
    actor + " couldn't find the "@ + name + "."@
}

/// `<actor> couldn't find a <item> in the <cont>.`
pub open spec fn msg_not_in(actor: Seq<char>, item: Seq<char>, cont: Seq<char>) -> Seq<char> {
    actor + " couldn't find a "@ + item + " in the "@ + cont + "."@
}

/// `<actor> can't insert <item> into itself.`
pub open spec fn msg_self_insert(actor: Seq<char>, item: Seq<char>) -> Seq<char> {
    actor + " can't insert "@ + item + " into itself."@
}

/// `<actor> put the <item> into the <cont>.`
pub open spec fn msg_put(actor: Seq<char>, item: Seq<char>, cont: Seq<char>) -> Seq<char> {
    actor + " put the "@ + item + " into the "@ + cont + "."@
}

/// `<actor> took the <item> out of the <cont>.`
pub open spec fn msg_took(actor: Seq<char>, item: Seq<char>, cont: Seq<char>) -> Seq<char> {
    actor + " took the "@ + item + " out of the "@ + cont + "."@
}

/// `usage: <verb> <item> <container>`
pub open spec fn usage_of(verb: Seq<char>) -> Seq<char> {
    "usage: "@ + verb + " <item> <container>"@
}

fn say_not_found(actor: &str, name: &str) -> (m: String)
    ensures
        m@ == msg_not_found(actor@, name@),
{
    let mut m = actor.to_owned();
    m.append(" couldn't find the ");
    m.append(name);
    m.append(".");
    m
}

fn say_not_in(actor: &str, item: &str, cont: &str) -> (m: String)
    ensures
        m@ == msg_not_in(actor@, item@, cont@),
{
    let mut m = actor.to_owned();
    m.append(" couldn't find a ");
    m.append(item);
    m.append(" in the ");
    m.append(cont);
    m.append(".");
    m
}

fn say_self_insert(actor: &str, item: &str) -> (m: String)
    ensures
        m@ == msg_self_insert(actor@, item@),
{
    let mut m = actor.to_owned();
    m.append(" can't insert ");
    m.append(item);
    m.append(" into itself.");
    m
}

fn say_put(actor: &str, item: &str, cont: &str) -> (m: String)
    ensures
        m@ == msg_put(actor@, item@, cont@),
{
    let mut m = actor.to_owned();
    m.append(" put the ");
    m.append(item);
    m.append(" into the ");
    m.append(cont);
    m.append(".");
    m
}

fn say_took(actor: &str, item: &str, cont: &str) -> (m: String)
    ensures
        m@ == msg_took(actor@, item@, cont@),
{
    let mut m = actor.to_owned();
    m.append(" took the ");
    m.append(item);
    m.append(" out of the ");
    m.append(cont);
    m.append(".");
    m
}

/// The room after an attempted `insert` of `item` into `cont`: unchanged on
/// any failure, otherwise with the item moved.
pub open spec fn try_insert_result(room: ThingView, item: Seq<char>, cont: Seq<char>) -> ThingView {
    if !room.contents.contains_key(item) || !room.contents.contains_key(cont) || item == cont {
        room
    } else {
        ThingView {
            desc: room.desc,
            contents: insert_effect(room.contents, item, cont),
            adj: room.adj,
        }
    }
}

/// The message reported for an attempted `insert`, one failure reason per
/// precondition, checked in order: item found, container found, names differ.
pub open spec fn try_insert_msg(
    room: ThingView,
    actor: Seq<char>,
    item: Seq<char>,
    cont: Seq<char>,
) -> Seq<char> {
    if !room.contents.contains_key(item) {
        msg_not_found(actor, item)
    } else if !room.contents.contains_key(cont) {
        msg_not_found(actor, cont)
    } else if item == cont {
        msg_self_insert(actor, item)
    } else {
        msg_put(actor, item, cont)
    }
}

/// The room after an attempted `remove` of `item` out of `cont`: unchanged on
/// any failure, otherwise with the item moved back up.
pub open spec fn try_remove_result(room: ThingView, item: Seq<char>, cont: Seq<char>) -> ThingView {
    if !room.contents.contains_key(cont) || !room.contents[cont].contents.contains_key(item) {
        room
    } else {
        ThingView {
            desc: room.desc,
            contents: remove_effect(room.contents, cont, item),
            adj: room.adj,
        }
    }
}

/// The message reported for an attempted `remove`, one failure reason per
/// precondition, checked in order: container found, item inside it.
pub open spec fn try_remove_msg(
    room: ThingView,
    actor: Seq<char>,
    item: Seq<char>,
    cont: Seq<char>,
) -> Seq<char> {
    if !room.contents.contains_key(cont) {
        msg_not_found(actor, cont)
    } else if !room.contents[cont].contents.contains_key(item) {
        msg_not_in(actor, item, cont)
    } else {
        msg_took(actor, item, cont)
    }
}

/// Attempts to move `item` into `container` within `room` on behalf of
/// `actor`, and reports the outcome as one line of text.
pub fn try_inserting(room: &mut Thing, actor: &str, item: &str, container: &str) -> (m: String)
    requires
        old(room).wf(),
    ensures
        final(room).wf(),
        final(room)@ == try_insert_result(old(room)@, item@, container@),
        m@ == try_insert_msg(old(room)@, actor@, item@, container@),
{
    match room.insert(item, container) {
        Ok(()) => say_put(actor, item, container),
        Err(crate::thing::InsertError::ItemNotFound) => say_not_found(actor, item),
        Err(crate::thing::InsertError::ContainerNotFound) => say_not_found(actor, container),
        Err(crate::thing::InsertError::SelfInsertion) => say_self_insert(actor, item),
    }
}

/// Attempts to move `item` out of `container` within `room` on behalf of
/// `actor`, and reports the outcome as one line of text.
pub fn try_removing(room: &mut Thing, actor: &str, item: &str, container: &str) -> (m: String)
    requires
        old(room).wf(),
    ensures
        final(room).wf(),
        final(room)@ == try_remove_result(old(room)@, item@, container@),
        m@ == try_remove_msg(old(room)@, actor@, item@, container@),
{
    match room.remove(item, container) {
        Ok(()) => say_took(actor, item, container),
        Err(crate::thing::RemoveError::ContainerNotFound) => say_not_found(actor, container),
        Err(crate::thing::RemoveError::ItemNotFound) => say_not_in(actor, item, container),
    }
}

/// The room after one `insert` command: the reserved actor name `player` can
/// be neither the item nor the container, otherwise as [`try_insert_result`].
pub open spec fn insert_cmd_room(room: ThingView, item: Seq<char>, cont: Seq<char>) -> ThingView {
    if item == "player"@ || cont == "player"@ {
        room
    } else {
        try_insert_result(room, item, cont)
    }
}

/// The message for one `insert` command: the reserved actor name is treated
/// as never findable, otherwise as [`try_insert_msg`].
pub open spec fn insert_cmd_msg(room: ThingView, item: Seq<char>, cont: Seq<char>) -> Seq<char> {
    let player = "player"@;
    if item == player {
        msg_not_found(player, item)
    } else if cont == player {
        if room.contents.contains_key(item) {
            msg_not_found(player, cont)
        } else {
            msg_not_found(player, item)
        }
    } else {
        try_insert_msg(room, player, item, cont)
    }
}

/// The room after one `remove` command: the reserved actor name `player` can
/// be neither the item nor the container, otherwise as [`try_remove_result`].
pub open spec fn remove_cmd_room(room: ThingView, item: Seq<char>, cont: Seq<char>) -> ThingView {
    if item == "player"@ || cont == "player"@ {
        room
    } else {
        try_remove_result(room, item, cont)
    }
}

/// The message for one `remove` command: the reserved actor name is treated
/// as never findable, otherwise as [`try_remove_msg`].
pub open spec fn remove_cmd_msg(room: ThingView, item: Seq<char>, cont: Seq<char>) -> Seq<char> {
    let player = "player"@;
    if cont == player {
        msg_not_found(player, cont)
    } else if item == player {
        if room.contents.contains_key(cont) {
            msg_not_in(player, item, cont)
        } else {
            msg_not_found(player, cont)
        }
    } else {
        try_remove_msg(room, player, item, cont)
    }
}

/// What one turn of the interpreter produced: the player's next location, the
/// lines to print, and whether the session is over.
pub struct StepOutcome {
    pub next: String,
    pub lines: Vec<String>,
    pub done: bool,
}

/// The transition relation of the interpreter, from the world and address
/// before a command to the world and outcome after it.  Unknown verbs and
/// unknown directions leave the world untouched and print nothing.
pub open spec fn step_rel(
    w0: World,
    addr: Seq<char>,
    toks: Seq<Seq<char>>,
    w1: World,
    o: StepOutcome,
) -> bool {
    let m0 = w0@;
    if toks.len() == 0 {
        w1 == w0 && o.next@ == addr && o.lines@.len() == 0 && !o.done
    } else {
        let verb = toks[0];
        if verb == "exit"@ {
            w1 == w0 && o.next@ == addr && o.lines@.len() == 0 && o.done
        } else if verb == "look"@ {
            &&& w1 == w0
            &&& o.next@ == addr
            &&& !o.done
            &&& if m0.contains_key(addr) {
                views_of(o.lines@) == seq![m0[addr].desc]
            } else {
                o.lines@.len() == 0
            }
        } else if verb == "insert"@ || verb == "remove"@ {
            &&& o.next@ == addr
            &&& !o.done
            &&& if toks.len() < 3 || toks[1].len() == 0 || toks[2].len() == 0 {
                w1 == w0 && views_of(o.lines@) == seq![usage_of(verb)]
            } else if !m0.contains_key(addr) {
                w1 == w0 && o.lines@.len() == 0
            } else {
                let room1 = if verb == "insert"@ {
                    insert_cmd_room(m0[addr], toks[1], toks[2])
                } else {
                    remove_cmd_room(m0[addr], toks[1], toks[2])
                };
                let msg = if verb == "insert"@ {
                    insert_cmd_msg(m0[addr], toks[1], toks[2])
                } else {
                    remove_cmd_msg(m0[addr], toks[1], toks[2])
                };
                w1@ == m0.insert(addr, room1) && views_of(o.lines@) == seq![msg]
            }
        } else {
            &&& !o.done
            &&& o.lines@.len() == 0
            &&& if m0.contains_key(addr) && m0[addr].adj.contains_key(verb) {
                let dest = m0[addr].adj[verb];
                if m0.contains_key(dest) && m0[addr].contents.contains_key("player"@) {
                    w1@ == move_effect(m0, "player"@, addr, dest) && o.next@ == dest
                } else {
                    w1 == w0 && o.next@ == addr
                }
            } else {
                w1 == w0 && o.next@ == addr
            }
        }
    }
}

/// Runs one tokenized command against the world from the given address and
/// returns the outcome; see [`step_rel`] for the exact transition.
pub fn step(world: &mut World, addr: &String, tokens: &Vec<String>) -> (o: StepOutcome)
    requires
        old(world).wf(),
    ensures
        final(world).wf(),
        step_rel(*old(world), addr@, views_of(tokens@), *final(world), o),
{
    let ghost w0 = *world;
    let ghost toks = views_of(tokens@);
    let mut lines: Vec<String> = Vec::new();
    if tokens.len() == 0 {
        return StepOutcome { next: addr.clone(), lines, done: false };
    }
    proof {
        assert(toks[0] == tokens@[0]@);
    }
    let verb = &tokens[0];
    if *verb == String::from_str("exit") {
        return StepOutcome { next: addr.clone(), lines, done: true };
    }
    if *verb == String::from_str("look") {
        match world.room_at(addr.as_str()) {
            Some(room) => {
                lines.push(room.description().clone());
                proof {
                    assert(views_of(lines@) =~= seq![w0@[addr@].desc]);
                }
            }
            None => {}
        }
        return StepOutcome { next: addr.clone(), lines, done: false };
    }
    let is_insert = *verb == String::from_str("insert");
    let is_remove = *verb == String::from_str("remove");
    if is_insert || is_remove {
        proof {
            if tokens@.len() >= 3 {
                assert(toks[1] == tokens@[1]@);
                assert(toks[2] == tokens@[2]@);
            }
        }
        if tokens.len() < 3 || tokens[1].as_str().is_empty() || tokens[2].as_str().is_empty() {
            let mut u = String::from_str("usage: ");
            u.append(verb.as_str());
            u.append(" <item> <container>");
            lines.push(u);
            proof {
                assert(views_of(lines@) =~= seq![usage_of(toks[0])]);
            }
            return StepOutcome { next: addr.clone(), lines, done: false };
        }
        let player = String::from_str("player");
        let mut rp = match world.take_room(addr) {
            None => {
                return StepOutcome { next: addr.clone(), lines, done: false };
            }
            Some(rp) => rp,
        };
        let item = &tokens[1];
        let cont = &tokens[2];
        let m: String;
        if is_insert {
            if *item == player {
                m = say_not_found("player", item.as_str());
            } else if *cont == player {
                if rp.1.has_item(item.as_str()) {
                    m = say_not_found("player", cont.as_str());
                } else {
                    m = say_not_found("player", item.as_str());
                }
            } else {
                m = try_inserting(&mut rp.1, "player", item.as_str(), cont.as_str());
            }
        } else {
            if *cont == player {
                m = say_not_found("player", cont.as_str());
            } else if *item == player {
                if rp.1.has_item(cont.as_str()) {
                    m = say_not_in("player", item.as_str(), cont.as_str());
                } else {
                    m = say_not_found("player", cont.as_str());
                }
            } else {
                m = try_removing(&mut rp.1, "player", item.as_str(), cont.as_str());
            }
        }
        world.put_room(rp.0, rp.1);
        lines.push(m);
        proof {
            let room1 = if is_insert {
                insert_cmd_room(w0@[addr@], toks[1], toks[2])
            } else {
                remove_cmd_room(w0@[addr@], toks[1], toks[2])
            };
            assert(world@ =~~= w0@.insert(addr@, room1));
            let msg = if is_insert {
                insert_cmd_msg(w0@[addr@], toks[1], toks[2])
            } else {
                remove_cmd_msg(w0@[addr@], toks[1], toks[2])
            };
            assert(views_of(lines@) =~= seq![msg]);
        }
        return StepOutcome { next: addr.clone(), lines, done: false };
    }
    let dest_opt: Option<String> = match world.room_at(addr.as_str()) {
        None => None,
        Some(room) => match room.exit_to(verb.as_str()) {
            Some(d) => Some(d.clone()),
            None => None,
        },
    };
    match dest_opt {
        None => StepOutcome { next: addr.clone(), lines, done: false },
        Some(dest) => {
            match world.move_thing("player", addr.as_str(), dest.as_str()) {
                Ok(()) => StepOutcome { next: dest, lines, done: false },
                Err(_) => StepOutcome { next: addr.clone(), lines, done: false },
            }
        }
    }
}

/// The lines shown before each command is read: the current address, then
/// `You see:`, then one indented line per item directly in the room.  `None`
/// when the address names no room.
pub fn room_header(world: &World, addr: &String) -> (r: Option<Vec<String>>)
    requires
        world.wf(),
    ensures
        match r {
            None => !world@.contains_key(addr@),
            Some(lines) => {
                &&& world@.contains_key(addr@)
                &&& lines@.len() == 2 + world@[addr@].contents.dom().len()
                &&& lines@[0]@ == "You are here: "@ + addr@
                &&& lines@[1]@ == "You see:"@
                &&& forall|i: int| 2 <= i < lines@.len() ==> (#[trigger] lines@[i])@.len() >= 4
                    && lines@[i]@.take(4) == "  a "@
                    && world@[addr@].contents.dom().contains(lines@[i]@.skip(4))
                &&& forall|k: Seq<char>|
                    #[trigger] world@[addr@].contents.dom().contains(k) ==> exists|i: int|
                        2 <= i < lines@.len() && lines@[i]@ == "  a "@ + k
            },
        },
{
    let room = match world.room_at(addr.as_str()) {
        None => {
            return None;
        }
        Some(room) => room,
    };
    let names = room.content_names();
    let mut lines: Vec<String> = Vec::new();
    let mut l0 = String::from_str("You are here: ");
    l0.append(addr.as_str());
    lines.push(l0);
    lines.push(String::from_str("You see:"));
    let mut i: usize = 0;
    while i < names.len()
        invariant
            i <= names@.len(),
            lines@.len() == 2 + i,
            lines@[0]@ == "You are here: "@ + addr@,
            lines@[1]@ == "You see:"@,
            forall|j: int| 0 <= j < i ==> (#[trigger] lines@[j + 2])@ == "  a "@ + names@[j]@,
        decreases names@.len() - i,
    {
        let mut l = String::from_str("  a ");
        l.append(names[i].as_str());
        lines.push(l);
        i += 1;
    }
    proof {
        reveal_strlit("  a ");
        assert forall|i: int| 2 <= i < lines@.len() implies (#[trigger] lines@[i])@.len() >= 4
            && lines@[i]@.take(4) == "  a "@
            && world@[addr@].contents.dom().contains(lines@[i]@.skip(4)) by {
            assert(lines@[(i - 2) + 2]@ == "  a "@ + names@[i - 2]@);
            assert(world@[addr@].contents.dom().contains(names@[i - 2]@));
            assert(lines@[i]@.take(4) =~= "  a "@);
            assert(lines@[i]@.skip(4) =~= names@[i - 2]@);
        }
        assert forall|k: Seq<char>| #[trigger] world@[addr@].contents.dom().contains(k)
            implies exists|i: int| 2 <= i < lines@.len() && lines@[i]@ == "  a "@ + k by {
            let j = choose|j: int| 0 <= j < names@.len() && (#[trigger] names@[j])@ == k;
            assert(lines@[j + 2]@ == "  a "@ + k);
        }
    }
    Some(lines)
}

} // verus!
