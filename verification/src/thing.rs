//! The containment data model: named entities that own further named
//! entities, plus directional exits for entities that act as rooms.

use vstd::prelude::*;

verus! {

/// Mathematical view of a [`Thing`]: its display text, the map from names to
/// the views of the entities it directly owns, and the map from direction
/// names to destination room names.
#[verifier::ext_equal]
pub struct ThingView {
    pub desc: Seq<char>,
    pub contents: Map<Seq<char>, ThingView>,
    pub adj: Map<Seq<char>, Seq<char>>,
}

/// A named entity.  `contents` is an association list from item names (unique
/// within this entity) to owned entities; `adj` maps direction names to room
/// names and is only meaningful for entities used as rooms.
pub struct Thing {
    desc: String,
    contents: Vec<(String, Thing)>,
    adj: Vec<(String, String)>,
}

/// The finite map described by an association list of exits; a later entry
/// with the same key wins, as with repeated insertions.
pub open spec fn adj_map(s: Seq<(String, String)>) -> Map<Seq<char>, Seq<char>>
    decreases s.len(),
{
    if s.len() == 0 {
        Map::empty()
    } else {
        adj_map(s.drop_last()).insert(s.last().0@, s.last().1@)
    }
}

/// The finite map described by an association list of owned entities; a later
/// entry with the same key wins, as with repeated insertions.
pub open spec fn contents_map(s: Seq<(String, Thing)>) -> Map<Seq<char>, ThingView>
    decreases s,
{
    if s.len() == 0 {
        Map::empty()
    } else {
        contents_map(s.drop_last()).insert(s.last().0@, thing_view(s.last().1))
    }
}

/// The view of an entity, computed recursively over its contents.
pub closed spec fn thing_view(t: Thing) -> ThingView
    decreases t,
{
    ThingView { desc: t.desc@, contents: contents_map(t.contents@), adj: adj_map(t.adj@) }
}

impl View for Thing {
    type V = ThingView;

    open spec fn view(&self) -> ThingView {
        thing_view(*self)
    }
}

/// Key uniqueness for an association list of exits.
pub open spec fn adj_keys_unique(s: Seq<(String, String)>) -> bool {
    forall|i: int, j: int| 0 <= i < j < s.len() ==> (#[trigger] s[i]).0@ != (#[trigger] s[j]).0@
}

/// Well-formedness of an association list of entities: keys are unique and
/// every owned entity is itself well-formed.
pub open spec fn wf_list(s: Seq<(String, Thing)>) -> bool
    decreases s,
{
    &&& forall|i: int, j: int| 0 <= i < j < s.len() ==> (#[trigger] s[i]).0@ != (#[trigger] s[j]).0@
    &&& forall|i: int| 0 <= i < s.len() ==> (#[trigger] s[i]).1.wf()
}

impl Thing {
    /// Item names are unique within each entity, at every level of
    /// containment, and direction names are unique within each entity.
    pub closed spec fn wf(self) -> bool
        decreases self,
    {
        &&& wf_list(self.contents@)
        &&& adj_keys_unique(self.adj@)
    }
}

/// The effect on a contents map of moving the item named `item` into the
/// entity named `cont` of the same map.
pub open spec fn insert_effect(
    m: Map<Seq<char>, ThingView>,
    item: Seq<char>,
    cont: Seq<char>,
) -> Map<Seq<char>, ThingView> {
    let c = m[cont];
    m.remove(item).insert(
        cont,
        ThingView { desc: c.desc, contents: c.contents.insert(item, m[item]), adj: c.adj },
    )
}

/// The effect on a contents map of moving the item named `item` out of the
/// entity named `cont` and back up into the map itself.
pub open spec fn remove_effect(
    m: Map<Seq<char>, ThingView>,
    cont: Seq<char>,
    item: Seq<char>,
) -> Map<Seq<char>, ThingView> {
    let c = m[cont];
    m.insert(
        cont,
        ThingView { desc: c.desc, contents: c.contents.remove(item), adj: c.adj },
    ).insert(item, c.contents[item])
}

pub(crate) proof fn lemma_contents_map_dom(s: Seq<(String, Thing)>)
    ensures
        forall|k: Seq<char>|
            contents_map(s).dom().contains(k) <==> exists|i: int|
                0 <= i < s.len() && (#[trigger] s[i]).0@ == k,
        contents_map(s).dom().finite(),
    decreases s.len(),
{
    if s.len() > 0 {
        lemma_contents_map_dom(s.drop_last());
        assert forall|k: Seq<char>| contents_map(s).dom().contains(k) implies exists|i: int|
            0 <= i < s.len() && (#[trigger] s[i]).0@ == k by {
            if k == s.last().0@ {
                assert((s[s.len() - 1]).0@ == k);
            } else {
                let i = choose|i: int| 0 <= i < s.drop_last().len() && (#[trigger] s.drop_last()[i]).0@ == k;
                assert((s[i]).0@ == k);
            }
        }
        assert forall|k: Seq<char>| (exists|i: int| 0 <= i < s.len() && (#[trigger] s[i]).0@ == k)
            implies contents_map(s).dom().contains(k) by {
            let i = choose|i: int| 0 <= i < s.len() && (#[trigger] s[i]).0@ == k;
            if i < s.len() - 1 {
                assert((s.drop_last()[i]).0@ == k);
            }
        }
    }
}

pub(crate) proof fn lemma_contents_map_len(s: Seq<(String, Thing)>)
    requires
        forall|i: int, j: int| 0 <= i < j < s.len() ==> (#[trigger] s[i]).0@ != (#[trigger] s[j]).0@,
    ensures
        contents_map(s).dom().len() == s.len(),
    decreases s.len(),
{
    lemma_contents_map_dom(s);
    if s.len() > 0 {
        lemma_contents_map_len(s.drop_last());
        lemma_contents_map_dom(s.drop_last());
        let k = s.last().0@;
        assert(!contents_map(s.drop_last()).dom().contains(k)) by {
            if contents_map(s.drop_last()).dom().contains(k) {
                let i = choose|i: int| 0 <= i < s.drop_last().len() && (#[trigger] s.drop_last()[i]).0@ == k;
                assert((s[i]).0@ == (s[s.len() - 1]).0@);
            }
        }
        assert(contents_map(s).dom() =~= contents_map(s.drop_last()).dom().insert(k));

    }
}

pub(crate) proof fn lemma_contents_map_index(s: Seq<(String, Thing)>, i: int)
    requires
        forall|i: int, j: int| 0 <= i < j < s.len() ==> (#[trigger] s[i]).0@ != (#[trigger] s[j]).0@,
        0 <= i < s.len(),
    ensures
        contents_map(s).dom().contains(s[i].0@),
        contents_map(s)[s[i].0@] == thing_view(s[i].1),
    decreases s.len(),
{
    lemma_contents_map_dom(s);
    if i < s.len() - 1 {
        lemma_contents_map_index(s.drop_last(), i);
        assert((s[i]).0@ != (s[s.len() - 1]).0@);
    }
}

pub(crate) proof fn lemma_contents_map_push(s: Seq<(String, Thing)>, p: (String, Thing))
    ensures
        contents_map(s.push(p)) == contents_map(s).insert(p.0@, thing_view(p.1)),
{
    assert(s.push(p).drop_last() =~= s);
    assert(s.push(p).last() == p);
}

pub(crate) proof fn lemma_contents_map_remove(s: Seq<(String, Thing)>, i: int)
    requires
        forall|i: int, j: int| 0 <= i < j < s.len() ==> (#[trigger] s[i]).0@ != (#[trigger] s[j]).0@,
        0 <= i < s.len(),
    ensures
        contents_map(s.remove(i)) == contents_map(s).remove(s[i].0@),
    decreases s.len(),
{
    lemma_contents_map_dom(s.remove(i));
    if i == s.len() - 1 {
        assert(s.remove(i) =~= s.drop_last());
        lemma_contents_map_dom(s.drop_last());
        assert(!contents_map(s.drop_last()).dom().contains(s[i].0@)) by {
            if contents_map(s.drop_last()).dom().contains(s[i].0@) {
                let j = choose|j: int|
                    0 <= j < s.drop_last().len() && (#[trigger] s.drop_last()[j]).0@ == s[i].0@;
                assert((s[j]).0@ == (s[i]).0@);
            }
        }
        assert(contents_map(s.drop_last()) =~= contents_map(s).remove(s[i].0@));
    } else {
        lemma_contents_map_remove(s.drop_last(), i);
        assert(s.remove(i) =~= s.drop_last().remove(i).push(s.last()));
        lemma_contents_map_push(s.drop_last().remove(i), s.last());
        assert((s[i]).0@ != (s[s.len() - 1]).0@);
        assert(contents_map(s.drop_last()).remove(s[i].0@).insert(s.last().0@, thing_view(s.last().1))
            =~= contents_map(s).remove(s[i].0@));
    }
}

pub(crate) proof fn lemma_adj_map_dom(s: Seq<(String, String)>)
    ensures
        forall|k: Seq<char>|
            adj_map(s).dom().contains(k) <==> exists|i: int|
                0 <= i < s.len() && (#[trigger] s[i]).0@ == k,
        adj_map(s).dom().finite(),
    decreases s.len(),
{
    if s.len() > 0 {
        lemma_adj_map_dom(s.drop_last());
        assert forall|k: Seq<char>| adj_map(s).dom().contains(k) implies exists|i: int|
            0 <= i < s.len() && (#[trigger] s[i]).0@ == k by {
            if k == s.last().0@ {
                assert((s[s.len() - 1]).0@ == k);
            } else {
                let i = choose|i: int| 0 <= i < s.drop_last().len() && (#[trigger] s.drop_last()[i]).0@ == k;
                assert((s[i]).0@ == k);
            }
        }
        assert forall|k: Seq<char>| (exists|i: int| 0 <= i < s.len() && (#[trigger] s[i]).0@ == k)
            implies adj_map(s).dom().contains(k) by {
            let i = choose|i: int| 0 <= i < s.len() && (#[trigger] s[i]).0@ == k;
            if i < s.len() - 1 {
                assert((s.drop_last()[i]).0@ == k);
            }
        }
    }
}

pub(crate) proof fn lemma_adj_map_index(s: Seq<(String, String)>, i: int)
    requires
        adj_keys_unique(s),
        0 <= i < s.len(),
    ensures
        adj_map(s).dom().contains(s[i].0@),
        adj_map(s)[s[i].0@] == s[i].1@,
    decreases s.len(),
{
    lemma_adj_map_dom(s);
    if i < s.len() - 1 {
        assert(adj_keys_unique(s.drop_last()));
        lemma_adj_map_index(s.drop_last(), i);
        assert((s[i]).0@ != (s[s.len() - 1]).0@);
    }
}

pub(crate) proof fn lemma_adj_map_len(s: Seq<(String, String)>)
    requires
        adj_keys_unique(s),
    ensures
        adj_map(s).dom().len() == s.len(),
    decreases s.len(),
{
    lemma_adj_map_dom(s);
    if s.len() > 0 {
        assert(adj_keys_unique(s.drop_last()));
        lemma_adj_map_len(s.drop_last());
        lemma_adj_map_dom(s.drop_last());
        let k = s.last().0@;
        assert(!adj_map(s.drop_last()).dom().contains(k)) by {
            if adj_map(s.drop_last()).dom().contains(k) {
                let i = choose|i: int| 0 <= i < s.drop_last().len() && (#[trigger] s.drop_last()[i]).0@ == k;
                assert((s[i]).0@ == (s[s.len() - 1]).0@);
            }
        }
        assert(adj_map(s).dom() =~= adj_map(s.drop_last()).dom().insert(k));

    }
}

pub(crate) proof fn lemma_adj_map_push(s: Seq<(String, String)>, p: (String, String))
    ensures
        adj_map(s.push(p)) == adj_map(s).insert(p.0@, p.1@),
{
    assert(s.push(p).drop_last() =~= s);
    assert(s.push(p).last() == p);
}

pub(crate) proof fn lemma_adj_map_remove(s: Seq<(String, String)>, i: int)
    requires
        adj_keys_unique(s),
        0 <= i < s.len(),
    ensures
        adj_map(s.remove(i)) == adj_map(s).remove(s[i].0@),
    decreases s.len(),
{
    if i == s.len() - 1 {
        assert(s.remove(i) =~= s.drop_last());
        lemma_adj_map_dom(s.drop_last());
        assert(!adj_map(s.drop_last()).dom().contains(s[i].0@)) by {
            if adj_map(s.drop_last()).dom().contains(s[i].0@) {
                let j = choose|j: int|
                    0 <= j < s.drop_last().len() && (#[trigger] s.drop_last()[j]).0@ == s[i].0@;
                assert((s[j]).0@ == (s[i]).0@);
            }
        }
        assert(adj_map(s.drop_last()) =~= adj_map(s).remove(s[i].0@));
    } else {
        assert(adj_keys_unique(s.drop_last()));
        lemma_adj_map_remove(s.drop_last(), i);
        assert(s.remove(i) =~= s.drop_last().remove(i).push(s.last()));
        lemma_adj_map_push(s.drop_last().remove(i), s.last());
        assert((s[i]).0@ != (s[s.len() - 1]).0@);
        assert(adj_map(s.drop_last()).remove(s[i].0@).insert(s.last().0@, s.last().1@)
            =~= adj_map(s).remove(s[i].0@));
    }
}

/// The contents map of any entity view obtained from a [`Thing`] is finite,
/// so its cardinality behaves as counting expects.
pub proof fn lemma_thing_contents_finite(t: Thing)
    ensures
        thing_view(t).contents.dom().finite(),
{
    lemma_contents_map_dom(t.contents@);
}

/// Why moving an item into a sub-container was rejected.
#[derive(Clone, Copy, Debug, PartialEq, Eq, Structural)]
pub enum InsertError {
    ItemNotFound,
    ContainerNotFound,
    SelfInsertion,
}

/// Why moving an item back out of a sub-container was rejected.
#[derive(Clone, Copy, Debug, PartialEq, Eq, Structural)]
pub enum RemoveError {
    ContainerNotFound,
    ItemNotFound,
}

/// Index of the entry with the given key, if any.
pub(crate) fn find_key<V>(v: &Vec<(String, V)>, name: &String) -> (r: Option<usize>)
    ensures
        match r {
            Some(i) => i < v@.len() && v@[i as int].0@ == name@,
            None => forall|i: int| 0 <= i < v@.len() ==> (#[trigger] v@[i]).0@ != name@,
        },
{
    let mut i: usize = 0;
    while i < v.len()
        invariant
            i <= v@.len(),
            forall|j: int| 0 <= j < i ==> (#[trigger] v@[j]).0@ != name@,
        decreases v@.len() - i,
    {
        if v[i].0 == *name {
            return Some(i);
        }
        i += 1;
    }
    None
}

/// Binds `name` to `t`, replacing any entry already using the name.
pub(crate) fn alist_put(v: &mut Vec<(String, Thing)>, name: String, t: Thing)
    requires
        wf_list(old(v)@),
        t.wf(),
    ensures
        wf_list(final(v)@),
        contents_map(final(v)@) == contents_map(old(v)@).insert(name@, thing_view(t)),
{
    let ghost s0 = v@;
    match find_key(v, &name) {
        Some(i) => {
            proof {
                lemma_contents_map_remove(s0, i as int);
            }
            v.remove(i);
            proof {
                let s1 = s0.remove(i as int);
                assert forall|a: int, b: int| 0 <= a < b < s1.len() implies (#[trigger] s1[a]).0@
                    != (#[trigger] s1[b]).0@ by {
                    assert(s1[a] == if a < i { s0[a] } else { s0[a + 1] });
                    assert(s1[b] == if b < i { s0[b] } else { s0[b + 1] });
                }
                assert forall|a: int| 0 <= a < s1.len() implies (#[trigger] s1[a]).1.wf() by {
                    assert(s1[a] == if a < i { s0[a] } else { s0[a + 1] });
                }
                lemma_contents_map_push(s1, (name, t));
            }
            let ghost s1 = v@;
            v.push((name, t));
            proof {
                assert forall|a: int, b: int| 0 <= a < b < v@.len() implies (#[trigger] v@[a]).0@
                    != (#[trigger] v@[b]).0@ by {
                    if b < v@.len() - 1 {
                        assert(s1[a].0@ != s1[b].0@);
                    } else {
                        assert(s1[a] == if a < i { s0[a] } else { s0[a + 1] });
                    }
                }
                assert(contents_map(v@) =~= contents_map(s0).insert(name@, thing_view(t)));
            }
        }
        None => {
            proof {
                lemma_contents_map_push(s0, (name, t));
            }
            v.push((name, t));
            proof {
                assert forall|a: int, b: int| 0 <= a < b < v@.len() implies (#[trigger] v@[a]).0@
                    != (#[trigger] v@[b]).0@ by {
                    if b == v@.len() - 1 {
                        assert(s0[a].0@ != name@);
                    }
                }
            }
        }
    }
}

/// Binds direction `name` to destination `dest`, replacing any entry already
/// using the direction.
pub(crate) fn alist_put_str(v: &mut Vec<(String, String)>, name: String, dest: String)
    requires
        adj_keys_unique(old(v)@),
    ensures
        adj_keys_unique(final(v)@),
        adj_map(final(v)@) == adj_map(old(v)@).insert(name@, dest@),
{
    let ghost s0 = v@;
    match find_key(v, &name) {
        Some(i) => {
            proof {
                lemma_adj_map_remove(s0, i as int);
            }
            v.remove(i);
            proof {
                let s1 = s0.remove(i as int);
                assert forall|a: int, b: int| 0 <= a < b < s1.len() implies (#[trigger] s1[a]).0@
                    != (#[trigger] s1[b]).0@ by {
                    assert(s1[a] == if a < i { s0[a] } else { s0[a + 1] });
                    assert(s1[b] == if b < i { s0[b] } else { s0[b + 1] });
                }
                lemma_adj_map_push(s1, (name, dest));
            }
            let ghost s1 = v@;
            v.push((name, dest));
            proof {
                assert forall|a: int, b: int| 0 <= a < b < v@.len() implies (#[trigger] v@[a]).0@
                    != (#[trigger] v@[b]).0@ by {
                    if b < v@.len() - 1 {
                        assert(s1[a].0@ != s1[b].0@);
                    } else {
                        assert(s1[a] == if a < i { s0[a] } else { s0[a + 1] });
                    }
                }
                assert(adj_map(v@) =~= adj_map(s0).insert(name@, dest@));
            }
        }
        None => {
            proof {
                lemma_adj_map_push(s0, (name, dest));
            }
            v.push((name, dest));
            proof {
                assert forall|a: int, b: int| 0 <= a < b < v@.len() implies (#[trigger] v@[a]).0@
                    != (#[trigger] v@[b]).0@ by {
                    if b == v@.len() - 1 {
                        assert(s0[a].0@ != name@);
                    }
                }
            }
        }
    }
}

impl Thing {
    /// A fresh entity with the given description and nothing in it.
    pub fn new(desc: &str) -> (t: Thing)
        ensures
            t.wf(),
            t@ == (ThingView {
                desc: desc@,
                contents: Map::<Seq<char>, ThingView>::empty(),
                adj: Map::<Seq<char>, Seq<char>>::empty(),
            }),
    {
        let t = Thing { desc: desc.to_owned(), contents: Vec::new(), adj: Vec::new() };
        proof {
            assert(t@ =~~= (ThingView {
                desc: desc@,
                contents: Map::<Seq<char>, ThingView>::empty(),
                adj: Map::<Seq<char>, Seq<char>>::empty(),
            }));
        }
        t
    }

    /// Replaces this entity's contents with the given bindings, later entries
    /// winning over earlier ones with the same name.
    pub fn with_contents(self, v: Vec<(String, Thing)>) -> (t: Thing)
        requires
            self.wf(),
            forall|i: int| 0 <= i < v@.len() ==> (#[trigger] v@[i]).1.wf(),
        ensures
            t.wf(),
            t@ == (ThingView { desc: self@.desc, contents: contents_map(v@), adj: self@.adj }),
    {
        let ghost orig = v@;
        let mut v = v;
        let mut c: Vec<(String, Thing)> = Vec::new();
        while v.len() > 0
            invariant
                v@ =~= orig.skip(orig.len() - v@.len()),
                v@.len() <= orig.len(),
                forall|i: int| 0 <= i < orig.len() ==> (#[trigger] orig[i]).1.wf(),
                wf_list(c@),
                contents_map(c@) == contents_map(orig.take(orig.len() - v@.len())),
            decreases v@.len(),
        {
            let ghost done = orig.len() - v@.len();
            let p = v.remove(0);
            proof {
                assert(p == orig[done]);
                assert(orig.take(done + 1) =~= orig.take(done).push(orig[done]));
                lemma_contents_map_push(orig.take(done), orig[done]);
                assert(orig[done].1.wf());
            }
            alist_put(&mut c, p.0, p.1);
        }
        proof {
            assert(orig.take(orig.len() as int) =~= orig);
        }
        let t = Thing { desc: self.desc, contents: c, adj: self.adj };
        proof {
            assert(t@ =~~= (ThingView { desc: self@.desc, contents: contents_map(orig), adj: self@.adj }));
        }
        t
    }

    /// Replaces this entity's exits with the given bindings, later entries
    /// winning over earlier ones with the same direction.
    pub fn with_adj(self, v: Vec<(String, String)>) -> (t: Thing)
        requires
            self.wf(),
        ensures
            t.wf(),
            t@ == (ThingView { desc: self@.desc, contents: self@.contents, adj: adj_map(v@) }),
    {
        let ghost orig = v@;
        let mut v = v;
        let mut a: Vec<(String, String)> = Vec::new();
        while v.len() > 0
            invariant
                v@ =~= orig.skip(orig.len() - v@.len()),
                v@.len() <= orig.len(),
                adj_keys_unique(a@),
                adj_map(a@) == adj_map(orig.take(orig.len() - v@.len())),
            decreases v@.len(),
        {
            let ghost done = orig.len() - v@.len();
            let p = v.remove(0);
            proof {
                assert(p == orig[done]);
                assert(orig.take(done + 1) =~= orig.take(done).push(orig[done]));
                lemma_adj_map_push(orig.take(done), orig[done]);
            }
            alist_put_str(&mut a, p.0, p.1);
        }
        proof {
            assert(orig.take(orig.len() as int) =~= orig);
        }
        let t = Thing { desc: self.desc, contents: self.contents, adj: a };
        proof {
            assert(t@ =~~= (ThingView { desc: self@.desc, contents: self@.contents, adj: adj_map(orig) }));
        }
        t
    }

    /// The entity's display text.
    pub fn description(&self) -> (d: &String)
        ensures
            d@ == self@.desc,
    {
        &self.desc
    }

    /// Whether an item of the given name is directly contained here.
    pub fn has_item(&self, name: &str) -> (b: bool)
        ensures
            b == self@.contents.contains_key(name@),
    {
        let n = name.to_owned();
        let r = find_key(&self.contents, &n);
        proof {
            lemma_contents_map_dom(self.contents@);
        }
        r.is_some()
    }

    /// A shared borrow of the directly contained item of the given name.
    pub fn item_at(&self, name: &str) -> (r: Option<&Thing>)
        requires
            self.wf(),
        ensures
            match r {
                Some(t) => self@.contents.contains_key(name@) && thing_view(*t)
                    == self@.contents[name@] && t.wf(),
                None => !self@.contents.contains_key(name@),
            },
    {
        let n = name.to_owned();
        proof {
            lemma_contents_map_dom(self.contents@);
        }
        match find_key(&self.contents, &n) {
            Some(i) => {
                proof {
                    lemma_contents_map_index(self.contents@, i as int);
                }
                Some(&self.contents[i].1)
            }
            None => None,
        }
    }

    /// Takes the directly contained item of the given name out of this
    /// entity, together with its stored name.
    pub fn take_item(&mut self, name: &String) -> (r: Option<(String, Thing)>)
        requires
            old(self).wf(),
        ensures
            final(self).wf(),
            match r {
                Some(p) => {
                    &&& old(self)@.contents.contains_key(name@)
                    &&& p.0@ == name@
                    &&& thing_view(p.1) == old(self)@.contents[name@]
                    &&& p.1.wf()
                    &&& final(self)@ == (ThingView {
                        desc: old(self)@.desc,
                        contents: old(self)@.contents.remove(name@),
                        adj: old(self)@.adj,
                    })
                },
                None => !old(self)@.contents.contains_key(name@) && *final(self) == *old(self),
            },
    {
        let ghost s0 = self.contents@;
        proof {
            lemma_contents_map_dom(s0);
        }
        match find_key(&self.contents, name) {
            Some(i) => {
                proof {
                    lemma_contents_map_index(s0, i as int);
                    lemma_contents_map_remove(s0, i as int);
                }
                let p = self.contents.remove(i);
                proof {
                    let s1 = s0.remove(i as int);
                    assert forall|a: int, b: int| 0 <= a < b < s1.len() implies (#[trigger] s1[a]).0@
                        != (#[trigger] s1[b]).0@ by {
                        assert(s1[a] == if a < i { s0[a] } else { s0[a + 1] });
                        assert(s1[b] == if b < i { s0[b] } else { s0[b + 1] });
                    }
                    assert forall|a: int| 0 <= a < s1.len() implies (#[trigger] s1[a]).1.wf() by {
                        assert(s1[a] == if a < i { s0[a] } else { s0[a + 1] });
                    }
                    assert(final(self)@ =~~= (ThingView {
                        desc: old(self)@.desc,
                        contents: old(self)@.contents.remove(name@),
                        adj: old(self)@.adj,
                    }));
                }
                Some(p)
            }
            None => None,
        }
    }

    /// Binds `name` to `t` among this entity's direct contents, replacing any
    /// item already using the name.
    pub fn put_item(&mut self, name: String, t: Thing)
        requires
            old(self).wf(),
            t.wf(),
        ensures
            final(self).wf(),
            final(self)@ == (ThingView {
                desc: old(self)@.desc,
                contents: old(self)@.contents.insert(name@, thing_view(t)),
                adj: old(self)@.adj,
            }),
    {
        alist_put(&mut self.contents, name, t);
        proof {
            assert(final(self)@ =~~= (ThingView {
                desc: old(self)@.desc,
                contents: old(self)@.contents.insert(name@, thing_view(t)),
                adj: old(self)@.adj,
            }));
        }
    }

    /// Moves the directly held item `name` into the directly held container
    /// `there`.  On failure the entity is left untouched, and the error says
    /// which precondition failed, checked in this order: the item exists, the
    /// container exists, the two names differ.
    pub fn insert(&mut self, name: &str, there: &str) -> (r: Result<(), InsertError>)
        requires
            old(self).wf(),
        ensures
            final(self).wf(),
            name@ == there@ ==> r.is_err() && *final(self) == *old(self),
            match r {
                Ok(()) => {
                    &&& old(self)@.contents.contains_key(name@)
                    &&& old(self)@.contents.contains_key(there@)
                    &&& name@ != there@
                    &&& final(self)@ == (ThingView {
                        desc: old(self)@.desc,
                        contents: insert_effect(old(self)@.contents, name@, there@),
                        adj: old(self)@.adj,
                    })
                },
                Err(InsertError::ItemNotFound) => !old(self)@.contents.contains_key(name@)
                    && *final(self) == *old(self),
                Err(InsertError::ContainerNotFound) => old(self)@.contents.contains_key(name@)
                    && !old(self)@.contents.contains_key(there@) && *final(self) == *old(self),
                Err(InsertError::SelfInsertion) => old(self)@.contents.contains_key(name@)
                    && name@ == there@ && *final(self) == *old(self),
            },
    {
        let name_s = name.to_owned();
        let there_s = there.to_owned();
        if !self.has_item(name) {
            return Err(InsertError::ItemNotFound);
        }
        if !self.has_item(there) {
            return Err(InsertError::ContainerNotFound);
        }
        if name_s == there_s {
            return Err(InsertError::SelfInsertion);
        }
        let p = match self.take_item(&name_s) {
            Some(p) => p,
            None => vstd::pervasive::unreached(),
        };
        let mut c = match self.take_item(&there_s) {
            Some(c) => c,
            None => vstd::pervasive::unreached(),
        };
        c.1.put_item(p.0, p.1);
        self.put_item(c.0, c.1);
        proof {
            let m = old(self)@.contents;
            assert(final(self)@.contents =~~= insert_effect(m, name@, there@));
        }
        Ok(())
    }

    /// Moves the item `name` held by the directly held container `here` back
    /// up into this entity's direct contents.  On failure the entity is left
    /// untouched, and the error says which precondition failed, checked in
    /// this order: the container exists, the item is inside it.
    pub fn remove(&mut self, name: &str, here: &str) -> (r: Result<(), RemoveError>)
        requires
            old(self).wf(),
        ensures
            final(self).wf(),
            match r {
                Ok(()) => {
                    &&& old(self)@.contents.contains_key(here@)
                    &&& old(self)@.contents[here@].contents.contains_key(name@)
                    &&& final(self)@ == (ThingView {
                        desc: old(self)@.desc,
                        contents: remove_effect(old(self)@.contents, here@, name@),
                        adj: old(self)@.adj,
                    })
                },
                Err(RemoveError::ContainerNotFound) => !old(self)@.contents.contains_key(here@)
                    && *final(self) == *old(self),
                Err(RemoveError::ItemNotFound) => old(self)@.contents.contains_key(here@)
                    && !old(self)@.contents[here@].contents.contains_key(name@)
                    && *final(self) == *old(self),
            },
    {
        let here_s = here.to_owned();
        let name_s = name.to_owned();
        match self.item_at(here) {
            None => {
                return Err(RemoveError::ContainerNotFound);
            }
            Some(c) => {
                if !c.has_item(name) {
                    return Err(RemoveError::ItemNotFound);
                }
            }
        }
        let mut c = match self.take_item(&here_s) {
            Some(c) => c,
            None => vstd::pervasive::unreached(),
        };
        let p = match c.1.take_item(&name_s) {
            Some(p) => p,
            None => vstd::pervasive::unreached(),
        };
        self.put_item(c.0, c.1);
        self.put_item(p.0, p.1);
        proof {
            let m = old(self)@.contents;
            assert(final(self)@.contents =~~= remove_effect(m, here@, name@));
        }
        Ok(())
    }

    /// The names of the directly contained items, in storage order; exactly
    /// one entry per name in the contents map.
    pub fn content_names(&self) -> (names: Vec<String>)
        requires
            self.wf(),
        ensures
            names@.len() == self@.contents.dom().len(),
            forall|i: int| 0 <= i < names@.len() ==> self@.contents.dom().contains(
                (#[trigger] names@[i])@,
            ),
            forall|k: Seq<char>| self@.contents.dom().contains(k) ==> exists|i: int|
                0 <= i < names@.len() && (#[trigger] names@[i])@ == k,
            forall|i: int, j: int| 0 <= i < j < names@.len() ==> names@[i]@ != names@[j]@,
    {
        let mut names: Vec<String> = Vec::new();
        let mut i: usize = 0;
        while i < self.contents.len()
            invariant
                i <= self.contents@.len(),
                names@.len() == i,
                forall|j: int| 0 <= j < i ==> (#[trigger] names@[j])@ == self.contents@[j].0@,
            decreases self.contents@.len() - i,
        {
            names.push(self.contents[i].0.clone());
            i += 1;
        }
        proof {
            lemma_contents_map_dom(self.contents@);
            lemma_contents_map_len(self.contents@);
            assert forall|k: Seq<char>| self@.contents.dom().contains(k) implies exists|i: int|
                0 <= i < names@.len() && (#[trigger] names@[i])@ == k by {
                let i = choose|i: int|
                    0 <= i < self.contents@.len() && (#[trigger] self.contents@[i]).0@ == k;
                assert(names@[i]@ == k);
            }
        }
        names
    }

    /// The destination bound to the given direction, if any.
    pub fn exit_to(&self, dir: &str) -> (r: Option<&String>)
        requires
            self.wf(),
        ensures
            match r {
                Some(d) => self@.adj.contains_key(dir@) && d@ == self@.adj[dir@],
                None => !self@.adj.contains_key(dir@),
            },
    {
        let ds = dir.to_owned();
        proof {
            lemma_adj_map_dom(self.adj@);
        }
        match find_key(&self.adj, &ds) {
            Some(i) => {
                proof {
                    lemma_adj_map_index(self.adj@, i as int);
                }
                Some(&self.adj[i].1)
            }
            None => None,
        }
    }

    /// All exits as direction/destination pairs, in storage order; exactly
    /// one entry per direction in the exit map.
    pub fn exits(&self) -> (v: Vec<(String, String)>)
        requires
            self.wf(),
        ensures
            v@.len() == self@.adj.dom().len(),
            forall|j: int| 0 <= j < v@.len() ==> self@.adj.contains_key((#[trigger] v@[j]).0@)
                && self@.adj[v@[j].0@] == v@[j].1@,
            forall|d: Seq<char>| self@.adj.contains_key(d) ==> exists|j: int|
                0 <= j < v@.len() && (#[trigger] v@[j]).0@ == d,
    {
        let mut v: Vec<(String, String)> = Vec::new();
        let mut i: usize = 0;
        while i < self.adj.len()
            invariant
                i <= self.adj@.len(),
                v@.len() == i,
                forall|j: int| 0 <= j < i ==> (#[trigger] v@[j]).0@ == self.adj@[j].0@
                    && v@[j].1@ == self.adj@[j].1@,
            decreases self.adj@.len() - i,
        {
            v.push((self.adj[i].0.clone(), self.adj[i].1.clone()));
            i += 1;
        }
        proof {
            lemma_adj_map_dom(self.adj@);
            lemma_adj_map_len(self.adj@);
            assert forall|j: int| 0 <= j < v@.len() implies self@.adj.contains_key(
                (#[trigger] v@[j]).0@,
            ) && self@.adj[v@[j].0@] == v@[j].1@ by {
                lemma_adj_map_index(self.adj@, j);
            }
            assert forall|d: Seq<char>| self@.adj.contains_key(d) implies exists|j: int|
                0 <= j < v@.len() && (#[trigger] v@[j]).0@ == d by {
                let j = choose|j: int|
                    0 <= j < self.adj@.len() && (#[trigger] self.adj@[j]).0@ == d;
                assert(v@[j].0@ == d);
            }
        }
        v
    }
}

} // verus!
