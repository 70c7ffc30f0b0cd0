//! Properties that relate several operations of the model, stated over the
//! mathematical views and proved once and for all.

use vstd::prelude::*;

use crate::thing::{insert_effect, remove_effect, ThingView};
use crate::world::move_effect;

verus! {

/// Inserting an item into a sibling container and then removing it again
/// restores the enclosing contents map exactly, provided the container did
/// not already hold an item of that name.
pub proof fn lemma_insert_remove_round_trip(
    m: Map<Seq<char>, ThingView>,
    item: Seq<char>,
    cont: Seq<char>,
)
    requires
        m.contains_key(item),
        m.contains_key(cont),
        item != cont,
        !m[cont].contents.contains_key(item),
    ensures
        remove_effect(insert_effect(m, item, cont), cont, item) == m,
{
    let m1 = insert_effect(m, item, cont);
    let c1 = m1[cont];
    assert(c1.contents == m[cont].contents.insert(item, m[item]));
    assert(c1.contents.remove(item) =~= m[cont].contents);
    let m2 = remove_effect(m1, cont, item);
    assert(m2[cont] =~~= m[cont]);
    assert(m2 =~~= m);
}

/// Whether or not the container already holds an item of the moved name, the
/// round trip leaves the set of names directly present in the enclosing
/// contents map unchanged.
pub proof fn lemma_round_trip_same_names(
    m: Map<Seq<char>, ThingView>,
    item: Seq<char>,
    cont: Seq<char>,
)
    requires
        m.contains_key(item),
        m.contains_key(cont),
        item != cont,
    ensures
        remove_effect(insert_effect(m, item, cont), cont, item).dom() == m.dom(),
{
    assert(remove_effect(insert_effect(m, item, cont), cont, item).dom() =~= m.dom());
}

/// Moving an item between two distinct rooms takes exactly one name away
/// from the origin's direct contents, adds exactly one to the destination's,
/// and touches no other room: the item is afterwards absent from the origin,
/// present in the destination, and every other room is unchanged.  The
/// finiteness hypotheses hold of every world's view, see
/// [`crate::world::lemma_world_finite`].
pub proof fn lemma_move_preserves_total_count(
    m: Map<Seq<char>, ThingView>,
    name: Seq<char>,
    here: Seq<char>,
    there: Seq<char>,
)
    requires
        m.contains_key(here),
        m.contains_key(there),
        here != there,
        m[here].contents.contains_key(name),
        !m[there].contents.contains_key(name),
        m[here].contents.dom().finite(),
        m[there].contents.dom().finite(),
    ensures
        move_effect(m, name, here, there).dom() == m.dom(),
        move_effect(m, name, here, there)[here].contents.dom().len() == m[here].contents.dom().len()
            - 1,
        move_effect(m, name, here, there)[there].contents.dom().len()
            == m[there].contents.dom().len() + 1,
        !move_effect(m, name, here, there)[here].contents.contains_key(name),
        move_effect(m, name, here, there)[there].contents.contains_key(name),
        move_effect(m, name, here, there)[there].contents[name] == m[here].contents[name],
        forall|k: Seq<char>| m.contains_key(k) && k != here && k != there
            ==> move_effect(m, name, here, there)[k] == m[k],
{
    let m2 = move_effect(m, name, here, there);
    assert(m2.dom() =~= m.dom());
    assert(m2[here].contents == m[here].contents.remove(name));
    assert(m2[there].contents == m[there].contents.insert(name, m[here].contents[name]));
}

} // verus!
