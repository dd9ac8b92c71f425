//! The document model: a tree of text and element nodes, attribute maps with
//! name-sorted entries, and serialization back to tag-bracketed text.

use vstd::prelude::*;

use crate::strings::{
    chars_eq, chars_lt, chars_of, lemma_seq_lt_asymmetric, lemma_seq_lt_irreflexive,
    lemma_seq_lt_total, lemma_seq_lt_transitive, seq_lt, split_chars, split_on, string_of,
};

verus! {

broadcast use vstd::std_specs::vec::group_vec_axioms;

/// An attribute map: attribute names to values, held sorted by name so that
/// one mapping has one representation and serialization is canonical.
#[derive(Debug)]
pub struct AttrMap {
    entries: Vec<(String, String)>,
}

/// Entry sequences sorted strictly ascending by name; names are then unique.
pub open spec fn attrs_sorted(a: Seq<(Seq<char>, Seq<char>)>) -> bool {
    forall|i: int, j: int| 0 <= i < j < a.len() ==> seq_lt(a[i].0, a[j].0)
}

/// The value under `k`, if any entry carries it.
pub open spec fn attr_lookup(a: Seq<(Seq<char>, Seq<char>)>, k: Seq<char>) -> Option<Seq<char>>
    decreases a.len(),
{
    if a.len() == 0 {
        Option::None
    } else if a[0].0 == k {
        Option::Some(a[0].1)
    } else {
        attr_lookup(a.drop_first(), k)
    }
}

/// Entry sequence `a` with `v` bound under `k`: in place where the name is
/// already there, at its ordered position where it is new.
pub open spec fn sorted_insert(
    a: Seq<(Seq<char>, Seq<char>)>,
    k: Seq<char>,
    v: Seq<char>,
) -> Seq<(Seq<char>, Seq<char>)>
    decreases a.len(),
{
    if a.len() == 0 {
        seq![(k, v)]
    } else if seq_lt(k, a[0].0) {
        seq![(k, v)] + a
    } else if k == a[0].0 {
        seq![(k, v)] + a.drop_first()
    } else {
        seq![a[0]] + sorted_insert(a.drop_first(), k, v)
    }
}

/// `sorted_insert` keeps the entries sorted.
pub proof fn lemma_sorted_insert_sorted(a: Seq<(Seq<char>, Seq<char>)>, k: Seq<char>, v: Seq<char>)
    requires
        attrs_sorted(a),
    ensures
        attrs_sorted(sorted_insert(a, k, v)),
    decreases a.len(),
{
    if a.len() == 0 {
    } else if seq_lt(k, a[0].0) {
        let r = seq![(k, v)] + a;
        assert forall|i: int, j: int| 0 <= i < j < r.len() implies seq_lt(r[i].0, r[j].0) by {
            if i == 0 && j > 1 {
                lemma_seq_lt_transitive(k, a[0].0, a[j - 1].0);
            }
        }
    } else if k == a[0].0 {
        let r = seq![(k, v)] + a.drop_first();
        assert forall|i: int, j: int| 0 <= i < j < r.len() implies seq_lt(r[i].0, r[j].0) by {
            if i == 0 {
                assert(seq_lt(a[0].0, a[j].0));
            } else {
                assert(seq_lt(a[i].0, a[j].0));
            }
        }
    } else {
        assert(!seq_lt(k, a[0].0) && k != a[0].0);
        lemma_seq_lt_total(k, a[0].0);
        assert(seq_lt(a[0].0, k));
        let t = a.drop_first();
        assert(attrs_sorted(t)) by {
            assert(forall|i: int, j: int|
                0 <= i < j < t.len() ==> t[i] == a[i + 1] && t[j] == a[j + 1]);
        }
        lemma_sorted_insert_sorted(t, k, v);
        let rt = sorted_insert(t, k, v);
        lemma_sorted_insert_keys(t, k, v);
        let r = seq![a[0]] + rt;
        assert forall|i: int, j: int| 0 <= i < j < r.len() implies seq_lt(r[i].0, r[j].0) by {
            if i == 0 {
                let x = rt[j - 1].0;
                if x != k {
                    let w = choose|w: int| 0 <= w < t.len() && #[trigger] t[w].0 == x;
                    assert(seq_lt(a[0].0, a[w + 1].0));
                    assert(a[w + 1] == t[w]);
                }
            } else {
                assert(seq_lt(rt[i - 1].0, rt[j - 1].0));
            }
        }
    }
}

/// Every name in an inserted sequence is the inserted name or one already
/// there.
pub proof fn lemma_sorted_insert_keys(a: Seq<(Seq<char>, Seq<char>)>, k: Seq<char>, v: Seq<char>)
    ensures
        forall|i: int|
            0 <= i < sorted_insert(a, k, v).len() ==> #[trigger] sorted_insert(a, k, v)[i].0 == k
                || exists|w: int| 0 <= w < a.len() && #[trigger] a[w].0 == sorted_insert(a, k, v)[i].0,
    decreases a.len(),
{
    if a.len() == 0 {
    } else if seq_lt(k, a[0].0) {
        assert(forall|i: int|
            1 <= i < a.len() + 1 ==> a[i - 1].0 == #[trigger] sorted_insert(a, k, v)[i].0);
    } else if k == a[0].0 {
        assert(forall|i: int| 1 <= i < a.len() ==> a[i].0 == #[trigger] sorted_insert(a, k, v)[i].0);
    } else {
        let t = a.drop_first();
        lemma_sorted_insert_keys(t, k, v);
        assert forall|i: int|
            0 <= i < sorted_insert(a, k, v).len() && #[trigger] sorted_insert(a, k, v)[i].0
                != k implies exists|w: int|
            0 <= w < a.len() && #[trigger] a[w].0 == sorted_insert(a, k, v)[i].0 by {
            if i == 0 {
                assert(a[0].0 == sorted_insert(a, k, v)[0].0);
            } else {
                assert(sorted_insert(a, k, v)[i] == sorted_insert(t, k, v)[i - 1]);
                let w = choose|w: int|
                    0 <= w < t.len() && #[trigger] t[w].0 == sorted_insert(t, k, v)[i - 1].0;
                assert(a[w + 1].0 == t[w].0);
            }
        }
    }
}

/// Inserting two distinct names commutes: the map, and with it the
/// serialized form, does not depend on the order the attributes were set
/// in. Stated for ordered names; `lemma_sorted_insert_commutes` lifts it.
proof fn lemma_sorted_insert_commutes_lt(
    a: Seq<(Seq<char>, Seq<char>)>,
    k1: Seq<char>,
    v1: Seq<char>,
    k2: Seq<char>,
    v2: Seq<char>,
)
    requires
        attrs_sorted(a),
        seq_lt(k1, k2),
    ensures
        sorted_insert(sorted_insert(a, k1, v1), k2, v2) == sorted_insert(
            sorted_insert(a, k2, v2),
            k1,
            v1,
        ),
    decreases a.len(),
{
    lemma_seq_lt_asymmetric(k1, k2);
    lemma_seq_lt_irreflexive(k1);
    assert(k1 != k2);
    if a.len() == 0 {
        let l1 = sorted_insert(a, k1, v1);
        assert(l1 =~= seq![(k1, v1)]);
        assert(l1[0] == (k1, v1));
        assert(l1.drop_first() =~= Seq::<(Seq<char>, Seq<char>)>::empty());
        assert(!seq_lt(k2, l1[0].0) && k2 != l1[0].0);
        assert(sorted_insert(l1.drop_first(), k2, v2) =~= seq![(k2, v2)]);
        assert(sorted_insert(l1, k2, v2) =~= seq![l1[0]] + sorted_insert(
            l1.drop_first(),
            k2,
            v2,
        ));
        assert(sorted_insert(sorted_insert(a, k1, v1), k2, v2) =~= seq![(k1, v1), (k2, v2)]);
        let r2 = sorted_insert(a, k2, v2);
        assert(r2 =~= seq![(k2, v2)]);
        assert(r2[0] == (k2, v2));
        assert(seq_lt(k1, r2[0].0));
        assert(sorted_insert(r2, k1, v1) =~= seq![(k1, v1)] + r2);
        assert(sorted_insert(sorted_insert(a, k2, v2), k1, v1) =~= seq![(k1, v1), (k2, v2)]);
    } else {
        let h = a[0].0;
        let t = a.drop_first();
        assert(attrs_sorted(t)) by {
            assert(forall|x: int, y: int|
                0 <= x < y < t.len() ==> t[x] == a[x + 1] && t[y] == a[y + 1]);
        }
        if seq_lt(k1, h) {
            let l1 = sorted_insert(a, k1, v1);
            assert(l1 =~= seq![(k1, v1)] + a);
            assert(l1[0].0 == k1 && l1.drop_first() =~= a);
            assert(sorted_insert(l1, k2, v2) =~= seq![(k1, v1)] + sorted_insert(a, k2, v2));
            if seq_lt(k2, h) {
                assert(sorted_insert(a, k2, v2) =~= seq![(k2, v2)] + a);
                assert(sorted_insert(sorted_insert(a, k2, v2), k1, v1) =~= seq![(k1, v1)] + (
                seq![(k2, v2)] + a));
                assert(sorted_insert(sorted_insert(a, k1, v1), k2, v2) =~= sorted_insert(
                    sorted_insert(a, k2, v2),
                    k1,
                    v1,
                ));
            } else if k2 == h {
                assert(sorted_insert(a, k2, v2) =~= seq![(k2, v2)] + t);
                assert(sorted_insert(sorted_insert(a, k2, v2), k1, v1) =~= seq![(k1, v1)] + (
                seq![(k2, v2)] + t));
                assert(sorted_insert(sorted_insert(a, k1, v1), k2, v2) =~= sorted_insert(
                    sorted_insert(a, k2, v2),
                    k1,
                    v1,
                ));
            } else {
                lemma_seq_lt_total(k2, h);
                let r2 = sorted_insert(a, k2, v2);
                assert(r2 =~= seq![a[0]] + sorted_insert(t, k2, v2));
                assert(r2[0] == a[0] && seq_lt(k1, r2[0].0));
                assert(sorted_insert(r2, k1, v1) =~= seq![(k1, v1)] + r2);
                assert(sorted_insert(sorted_insert(a, k1, v1), k2, v2) =~= sorted_insert(
                    sorted_insert(a, k2, v2),
                    k1,
                    v1,
                ));
            }
        } else if k1 == h {
            lemma_seq_lt_total(k2, h);
            let l1 = sorted_insert(a, k1, v1);
            assert(l1 =~= seq![(k1, v1)] + t);
            assert(l1[0] == (k1, v1));
            assert(l1.drop_first() =~= t);
            assert(sorted_insert(l1, k2, v2) =~= seq![(k1, v1)] + sorted_insert(t, k2, v2));
            let r2 = sorted_insert(a, k2, v2);
            assert(r2 =~= seq![a[0]] + sorted_insert(t, k2, v2));
            assert(r2[0].0 == h);
            assert(r2.drop_first() =~= sorted_insert(t, k2, v2));
            assert(sorted_insert(r2, k1, v1) =~= seq![(k1, v1)] + sorted_insert(t, k2, v2));
        } else {
            lemma_seq_lt_total(k1, h);
            assert(seq_lt(h, k1));
            lemma_seq_lt_transitive(h, k1, k2);
            lemma_seq_lt_asymmetric(h, k1);
            lemma_seq_lt_asymmetric(h, k2);
            let l1 = sorted_insert(a, k1, v1);
            assert(l1 =~= seq![a[0]] + sorted_insert(t, k1, v1));
            assert(l1[0] == a[0]);
            assert(l1.drop_first() =~= sorted_insert(t, k1, v1));
            assert(sorted_insert(l1, k2, v2) =~= seq![a[0]] + sorted_insert(
                sorted_insert(t, k1, v1),
                k2,
                v2,
            ));
            let r2 = sorted_insert(a, k2, v2);
            assert(r2 =~= seq![a[0]] + sorted_insert(t, k2, v2));
            assert(r2[0] == a[0]);
            assert(r2.drop_first() =~= sorted_insert(t, k2, v2));
            assert(sorted_insert(r2, k1, v1) =~= seq![a[0]] + sorted_insert(
                sorted_insert(t, k2, v2),
                k1,
                v1,
            ));
            lemma_sorted_insert_commutes_lt(t, k1, v1, k2, v2);
        }
    }
}

/// Setting two attributes with distinct names in either order leaves the
/// same map: attribute maps, and the serialization built from them, do not
/// depend on insertion order.
pub proof fn lemma_sorted_insert_commutes(
    a: Seq<(Seq<char>, Seq<char>)>,
    k1: Seq<char>,
    v1: Seq<char>,
    k2: Seq<char>,
    v2: Seq<char>,
)
    requires
        attrs_sorted(a),
        k1 != k2,
    ensures
        sorted_insert(sorted_insert(a, k1, v1), k2, v2) == sorted_insert(
            sorted_insert(a, k2, v2),
            k1,
            v1,
        ),
{
    if seq_lt(k1, k2) {
        lemma_sorted_insert_commutes_lt(a, k1, v1, k2, v2);
    } else {
        lemma_seq_lt_total(k1, k2);
        lemma_sorted_insert_commutes_lt(a, k2, v2, k1, v1);
    }
}

impl View for AttrMap {
    type V = Seq<(Seq<char>, Seq<char>)>;

    closed spec fn view(&self) -> Seq<(Seq<char>, Seq<char>)> {
        self.entries@.map_values(|e: (String, String)| (e.0@, e.1@))
    }
}

impl AttrMap {
    /// The entries stand sorted strictly ascending by name.
    pub open spec fn wf(&self) -> bool {
        attrs_sorted(self@)
    }

    /// An empty attribute map.
    pub fn new() -> (r: AttrMap)
        ensures
            r@ == Seq::<(Seq<char>, Seq<char>)>::empty(),
            r.wf(),
    {
        let r = AttrMap { entries: Vec::new() };
        proof {
            assert(r@ =~= Seq::<(Seq<char>, Seq<char>)>::empty());
        }
        r
    }

    /// Binds `value` under `name`, replacing any earlier binding of the name.
    pub fn insert(&mut self, name: String, value: String)
        requires
            old(self).wf(),
        ensures
            final(self).wf(),
            final(self)@ == sorted_insert(old(self)@, name@, value@),
    {
        proof {
            lemma_sorted_insert_sorted(old(self)@, name@, value@);
        }
        let kc = chars_of(name.as_str());
        let ghost a = self@;
        let mut i: usize = 0;
        let mut stop = false;
        while i < self.entries.len() && !stop
            invariant
                self@ == a,
                self.entries@.len() == a.len(),
                kc@ == name@,
                i <= a.len(),
                forall|j: int| 0 <= j < i ==> seq_lt(a[j].0, name@),
                stop ==> i < a.len() && !seq_lt(a[i as int].0, name@),
            decreases a.len() - i + (if stop { 0int } else { 1int }),
        {
            proof {
                assert(a[i as int] == (self.entries@[i as int].0@, self.entries@[i as int].1@));
            }
            let ec = chars_of(self.entries[i].0.as_str());
            if chars_lt(&ec, &kc) {
                i = i + 1;
            } else {
                stop = true;
            }
        }
        let same = if i < self.entries.len() {
            proof {
                assert(a[i as int] == (self.entries@[i as int].0@, self.entries@[i as int].1@));
            }
            let ec = chars_of(self.entries[i].0.as_str());
            chars_eq(&ec, &kc)
        } else {
            false
        };
        proof {
            lemma_sorted_insert_at(a, name@, value@, i as int, same);
        }
        if same {
            self.entries.remove(i);
            self.entries.insert(i, (name, value));
            proof {
                assert(self@ =~= a.take(i as int).push((name@, value@)) + a.skip(i + 1));
            }
        } else {
            self.entries.insert(i, (name, value));
            proof {
                assert(self@ =~= a.take(i as int).push((name@, value@)) + a.skip(i as int));
            }
        }
    }

    /// The value bound under `name`, if the map has one.
    pub fn get(&self, name: &str) -> (r: Option<&String>)
        ensures
            match r {
                Option::Some(v) => attr_lookup(self@, name@) == Option::Some(v@),
                Option::None => attr_lookup(self@, name@) is None,
            },
    {
        let kc = chars_of(name);
        let mut i: usize = 0;
        proof {
            assert(self@.skip(0) =~= self@);
        }
        while i < self.entries.len()
            invariant
                i <= self.entries@.len(),
                self@.len() == self.entries@.len(),
                kc@ == name@,
                attr_lookup(self@, name@) == attr_lookup(self@.skip(i as int), name@),
            decreases self.entries@.len() - i,
        {
            proof {
                assert(self@[i as int] == (self.entries@[i as int].0@, self.entries@[i as int].1@));
                assert(self@.skip(i as int)[0] == self@[i as int]);
            }
            let ec = chars_of(self.entries[i].0.as_str());
            if chars_eq(&ec, &kc) {
                return Option::Some(&self.entries[i].1);
            }
            proof {
                assert(self@.skip(i as int).drop_first() =~= self@.skip(i + 1));
            }
            i = i + 1;
        }
        Option::None
    }

    /// How many attributes the map holds.
    pub fn len(&self) -> (r: usize)
        ensures
            r == self@.len(),
    {
        self.entries.len()
    }

    /// An equal copy of the map.
    pub fn duplicate(&self) -> (r: AttrMap)
        ensures
            r@ == self@,
            self.wf() ==> r.wf(),
    {
        let mut out: Vec<(String, String)> = Vec::new();
        let mut i: usize = 0;
        while i < self.entries.len()
            invariant
                i <= self.entries@.len(),
                out@.len() == i,
                forall|j: int|
                    0 <= j < i ==> out@[j].0@ == self.entries@[j].0@ && out@[j].1@
                        == self.entries@[j].1@,
            decreases self.entries@.len() - i,
        {
            let e = &self.entries[i];
            out.push((e.0.clone(), e.1.clone()));
            i = i + 1;
        }
        let r = AttrMap { entries: out };
        proof {
            assert(r@ =~= self@);
        }
        r
    }

    /// The entry at a position, for walking the map in sorted order.
    pub fn entry_at(&self, i: usize) -> (r: (&String, &String))
        requires
            i < self@.len(),
        ensures
            r.0@ == self@[i as int].0,
            r.1@ == self@[i as int].1,
    {
        let e = &self.entries[i];
        (&e.0, &e.1)
    }
}

/// Placing the new entry at position `i`: what `sorted_insert` unfolds to
/// when everything before `i` is below the name and position `i`, if any,
/// is not.
pub proof fn lemma_sorted_insert_at(
    a: Seq<(Seq<char>, Seq<char>)>,
    k: Seq<char>,
    v: Seq<char>,
    i: int,
    same: bool,
)
    requires
        attrs_sorted(a),
        0 <= i <= a.len(),
        forall|j: int| 0 <= j < i ==> seq_lt(a[j].0, k),
        same ==> i < a.len() && a[i].0 == k,
        !same && i < a.len() ==> !seq_lt(a[i].0, k) && a[i].0 != k,
    ensures
        same ==> sorted_insert(a, k, v) == a.take(i).push((k, v)) + a.skip(i + 1),
        !same ==> sorted_insert(a, k, v) == a.take(i).push((k, v)) + a.skip(i),
    decreases a.len(),
{
    if a.len() == 0 {
        assert(sorted_insert(a, k, v) =~= a.take(0).push((k, v)) + a.skip(0));
    } else if i == 0 {
        if same {
            lemma_seq_lt_irreflexive(k);
            assert(!seq_lt(k, a[0].0));
            assert(sorted_insert(a, k, v) =~= a.take(0).push((k, v)) + a.skip(1));
        } else {
            lemma_seq_lt_total(a[0].0, k);
            assert(seq_lt(k, a[0].0));
            assert(sorted_insert(a, k, v) =~= a.take(0).push((k, v)) + a.skip(0));
        }
    } else {
        assert(seq_lt(a[0].0, k));
        lemma_seq_lt_asymmetric(a[0].0, k);
        assert(!seq_lt(k, a[0].0) && k != a[0].0);
        let t = a.drop_first();
        assert(attrs_sorted(t)) by {
            assert(forall|x: int, y: int|
                0 <= x < y < t.len() ==> t[x] == a[x + 1] && t[y] == a[y + 1]);
        }
        assert(forall|j: int| 0 <= j < i - 1 ==> t[j] == a[j + 1] && seq_lt(t[j].0, k));
        assert(same ==> t[i - 1].0 == k);
        assert(!same && i - 1 < t.len() ==> !seq_lt(t[i - 1].0, k) && t[i - 1].0 != k);
        lemma_sorted_insert_at(t, k, v, i - 1, same);
        if same {
            assert(sorted_insert(a, k, v) =~= a.take(i).push((k, v)) + a.skip(i + 1));
        } else {
            assert(sorted_insert(a, k, v) =~= a.take(i).push((k, v)) + a.skip(i));
        }
    }
}

/// An element's data: its tag name and attributes.
#[derive(Debug)]
pub struct ElementData {
    pub tag_name: String,
    pub attributes: AttrMap,
}

/// The mathematical form of an `ElementData`.
#[verifier::ext_equal]
pub ghost struct ElementDataV {
    pub tag_name: Seq<char>,
    pub attributes: Seq<(Seq<char>, Seq<char>)>,
}

impl View for ElementData {
    type V = ElementDataV;

    open spec fn view(&self) -> ElementDataV {
        ElementDataV { tag_name: self.tag_name@, attributes: self.attributes@ }
    }
}

/// The classes of an element: its `class` attribute split on single spaces,
/// or nothing where the attribute is absent.
pub open spec fn element_classes(e: ElementDataV) -> Seq<Seq<char>> {
    match attr_lookup(e.attributes, "class"@) {
        Option::Some(c) => split_on(c, ' '),
        Option::None => Seq::empty(),
    }
}

impl ElementData {
    /// The element's `id` attribute, if present.
    pub fn id(&self) -> (r: Option<&String>)
        ensures
            match r {
                Option::Some(v) => attr_lookup(self@.attributes, "id"@) == Option::Some(v@),
                Option::None => attr_lookup(self@.attributes, "id"@) is None,
            },
    {
        self.attributes.get("id")
    }

    /// The element's classes, in the order the `class` attribute lists them.
    pub fn classes(&self) -> (r: Vec<String>)
        ensures
            r@.map_values(|s: String| s@) == element_classes(self@),
    {
        match self.attributes.get("class") {
            Option::Some(list) => {
                let cs = chars_of(list.as_str());
                let parts = split_chars(&cs, ' ');
                let mut out: Vec<String> = Vec::new();
                let mut i: usize = 0;
                while i < parts.len()
                    invariant
                        i <= parts@.len(),
                        out@.len() == i,
                        forall|j: int| 0 <= j < i ==> out@[j]@ == parts@[j]@,
                    decreases parts@.len() - i,
                {
                    out.push(string_of(&parts[i]));
                    i = i + 1;
                }
                proof {
                    assert(out@.map_values(|s: String| s@) =~= parts@.map_values(
                        |p: Vec<char>| p@,
                    ));
                }
                out
            },
            Option::None => {
                let out: Vec<String> = Vec::new();
                proof {
                    assert(out@.map_values(|s: String| s@) =~= Seq::<Seq<char>>::empty());
                }
                out
            },
        }
    }

    /// An equal copy of the element data.
    pub fn duplicate(&self) -> (r: ElementData)
        ensures
            r@ == self@,
    {
        ElementData { tag_name: self.tag_name.clone(), attributes: self.attributes.duplicate() }
    }
}

/// What a node is: a run of text, or an element.
#[derive(Debug)]
pub enum NodeType {
    Text(String),
    Element(ElementData),
}

/// The mathematical form of a `NodeType`.
#[verifier::ext_equal]
pub ghost enum NodeTypeV {
    Text(Seq<char>),
    Element(ElementDataV),
}

impl View for NodeType {
    type V = NodeTypeV;

    open spec fn view(&self) -> NodeTypeV {
        match self {
            NodeType::Text(t) => NodeTypeV::Text(t@),
            NodeType::Element(e) => NodeTypeV::Element(e@),
        }
    }
}

impl NodeType {
    /// An equal copy of the node data.
    pub fn duplicate(&self) -> (r: NodeType)
        ensures
            r@ == self@,
    {
        match self {
            NodeType::Text(t) => NodeType::Text(t.clone()),
            NodeType::Element(e) => NodeType::Element(e.duplicate()),
        }
    }
}

/// A document node: what it is, and its children in document order.
#[derive(Debug)]
pub struct Node {
    pub node_type: NodeType,
    pub children: Vec<Node>,
}

/// The mathematical form of a `Node`.
#[verifier::ext_equal]
pub ghost struct NodeV {
    pub node_type: NodeTypeV,
    pub children: Seq<NodeV>,
}

/// The views of a sequence of nodes.
pub open spec fn nodes_view(s: Seq<Node>) -> Seq<NodeV>
    decreases s,
{
    if s.len() == 0 {
        Seq::empty()
    } else {
        nodes_view(s.drop_last()).push(node_view(s.last()))
    }
}

/// The view of one node.
pub open spec fn node_view(n: Node) -> NodeV
    decreases n,
{
    NodeV { node_type: n.node_type@, children: nodes_view(n.children@) }
}

impl View for Node {
    type V = NodeV;

    open spec fn view(&self) -> NodeV {
        node_view(*self)
    }
}

/// `nodes_view` is the view, node by node.
pub proof fn lemma_nodes_view(s: Seq<Node>)
    ensures
        nodes_view(s).len() == s.len(),
        forall|i: int| 0 <= i < s.len() ==> nodes_view(s)[i] == node_view(#[trigger] s[i]),
    decreases s,
{
    if s.len() == 0 {
    } else {
        lemma_nodes_view(s.drop_last());
        assert(forall|i: int| 0 <= i < s.len() - 1 ==> s.drop_last()[i] == s[i]);
    }
}

/// A text node with no children.
pub fn text(data: String) -> (r: Node)
    ensures
        r@ == (NodeV { node_type: NodeTypeV::Text(data@), children: Seq::empty() }),
{
    Node { node_type: NodeType::Text(data), children: Vec::new() }
}

/// An element node with the given tag, attributes and children.
pub fn elem(name: String, attrs: AttrMap, children: Vec<Node>) -> (r: Node)
    ensures
        r@ == (NodeV {
            node_type: NodeTypeV::Element(ElementDataV { tag_name: name@, attributes: attrs@ }),
            children: nodes_view(children@),
        }),
{
    Node { node_type: NodeType::Element(ElementData { tag_name: name, attributes: attrs }), children }
}

/// The serialized form of an attribute sequence: a leading space, then
/// `name="value"`, entry by entry in stored (sorted) order.
pub open spec fn render_attrs(attrs: Seq<(Seq<char>, Seq<char>)>) -> Seq<char>
    decreases attrs.len(),
{
    if attrs.len() == 0 {
        Seq::empty()
    } else {
        render_attrs(attrs.drop_last()) + seq![' '] + attrs.last().0 + seq!['=', '"']
            + attrs.last().1 + seq!['"']
    }
}

/// The serialized forms of a node sequence, concatenated.
pub open spec fn render_nodes(children: Seq<NodeV>) -> Seq<char>
    decreases children,
{
    if children.len() == 0 {
        Seq::empty()
    } else {
        render_nodes(children.drop_last()) + render_node(children.last())
    }
}

/// The serialized form of a node: its text, or its bracketed tag with
/// attributes sorted by name, its serialized children, and the closing tag.
pub open spec fn render_node(n: NodeV) -> Seq<char>
    decreases n,
{
    match n.node_type {
        NodeTypeV::Text(t) => t,
        NodeTypeV::Element(e) => seq!['<'] + e.tag_name + render_attrs(e.attributes) + seq!['>']
            + render_nodes(n.children) + seq!['<', '/'] + e.tag_name + seq!['>'],
    }
}

/// Appends a string's characters to the output.
fn push_str_chars(out: &mut Vec<char>, s: &String)
    ensures
        final(out)@ == old(out)@ + s@,
{
    let mut cs = chars_of(s.as_str());
    out.append(&mut cs);
}

/// Writes the serialized attributes after the output gathered so far.
fn write_attrs(a: &AttrMap, out: &mut Vec<char>)
    ensures
        final(out)@ == old(out)@ + render_attrs(a@),
{
    let n = a.len();
    let mut i: usize = 0;
    proof {
        assert(a@.take(0) =~= Seq::<(Seq<char>, Seq<char>)>::empty());
        assert(old(out)@ + render_attrs(a@.take(0)) =~= old(out)@);
    }
    while i < n
        invariant
            n == a@.len(),
            i <= n,
            out@ == old(out)@ + render_attrs(a@.take(i as int)),
        decreases n - i,
    {
        let (name, value) = a.entry_at(i);
        out.push(' ');
        push_str_chars(out, name);
        out.push('=');
        out.push('"');
        push_str_chars(out, value);
        out.push('"');
        proof {
            let p = a@.take(i + 1);
            assert(p.drop_last() =~= a@.take(i as int));
            assert(p.last() == a@[i as int]);
            assert(out@ =~= old(out)@ + render_attrs(a@.take(i + 1)));
        }
        i = i + 1;
    }
    proof {
        assert(a@.take(n as int) =~= a@);
    }
}

/// Writes the serialized form of a node after the output gathered so far.
fn write_node(n: &Node, out: &mut Vec<char>)
    ensures
        final(out)@ == old(out)@ + render_node(n@),
    decreases *n,
{
    match &n.node_type {
        NodeType::Text(t) => {
            push_str_chars(out, t);
        },
        NodeType::Element(e) => {
            out.push('<');
            push_str_chars(out, &e.tag_name);
            write_attrs(&e.attributes, out);
            out.push('>');
            let ghost head = old(out)@ + seq!['<'] + e.tag_name@ + render_attrs(e.attributes@)
                + seq!['>'];
            proof {
                assert(out@ =~= head);
                lemma_nodes_view(n.children@);
                assert(nodes_view(n.children@).take(0) =~= Seq::<NodeV>::empty());
                assert(out@ =~= head + render_nodes(nodes_view(n.children@).take(0)));
            }
            let count = n.children.len();
            let mut i: usize = 0;
            while i < count
                invariant
                    count == n.children@.len(),
                    i <= count,
                    nodes_view(n.children@).len() == count,
                    forall|k: int|
                        0 <= k < count ==> nodes_view(n.children@)[k] == node_view(
                            #[trigger] n.children@[k],
                        ),
                    out@ == head + render_nodes(nodes_view(n.children@).take(i as int)),
                decreases count - i,
            {
                write_node(&n.children[i], out);
                proof {
                    let vs = nodes_view(n.children@);
                    assert(vs.take(i + 1).drop_last() =~= vs.take(i as int));
                    assert(vs.take(i + 1).last() == vs[i as int]);
                    assert(out@ =~= head + render_nodes(vs.take(i + 1)));
                }
                i = i + 1;
            }
            proof {
                let vs = nodes_view(n.children@);
                assert(vs.take(count as int) =~= vs);
            }
            out.push('<');
            out.push('/');
            push_str_chars(out, &e.tag_name);
            out.push('>');
            proof {
                assert(out@ =~= old(out)@ + render_node(n@));
            }
        },
    }
}

impl Node {
    /// Renders the node back to tag-bracketed text: attributes in sorted
    /// order as `name="value"`, children in document order. No escaping and
    /// no self-closing of empty elements.
    pub fn serialize(&self) -> (r: String)
        ensures
            r@ == render_node(self@),
    {
        let mut out: Vec<char> = Vec::new();
        write_node(self, &mut out);
        string_of(&out)
    }
}

} // verus!
