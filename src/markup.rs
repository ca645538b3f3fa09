//! The structured-markup tree: an arena of nodes, where an element refers to
//! its children by position. Every child sits after its parent, and node 0
//! is the root element.
use vstd::prelude::*;
use crate::assoc::{assoc_find, keys_unique, pairs_map};

verus! {

/// An element: its name, attributes and children (positions in the arena).
pub struct MarkupElement {
    pub prefix: Option<String>,
    pub namespace: Option<String>,
    pub namespaces: Option<Vec<(String, String)>>,
    pub name: String,
    pub attributes: Vec<(String, String)>,
    pub children: Vec<usize>,
}

/// One node of a markup document.
pub enum MarkupNode {
    Element(MarkupElement),
    Text(String),
    CData(String),
    Comment(String),
    Instruction(String, Option<String>),
}

/// Why an element could not replace another.
pub enum ReplaceError {
    /// The new element carries no identifier, or no element carries it.
    NotFound,
    /// A child of the new element does not come after it in the arena, or
    /// an attribute name repeats.
    Malformed,
}

/// A markup document; node 0 is the root element.
pub struct MarkupTree {
    pub nodes: Vec<MarkupNode>,
}

pub open spec fn children_of(n: MarkupNode) -> Seq<usize> {
    match n {
        MarkupNode::Element(e) => e.children@,
        _ => Seq::empty(),
    }
}

/// Children come after their parent and lie inside the arena; attribute
/// names are unique within an element.
pub open spec fn nodes_wf(t: Seq<MarkupNode>) -> bool {
    &&& t.len() > 0
    &&& t[0] is Element
    &&& forall|i: int, k: int|
        0 <= i < t.len() && 0 <= k < children_of(t[i]).len() ==> i < #[trigger] children_of(t[i])[k] < t.len()
    &&& forall|i: int| 0 <= i < t.len() && (#[trigger] t[i]) is Element ==> keys_unique(t[i]->Element_0.attributes@)
}

/// The value of attribute `key` of node `i`, if it is an element with one.
pub open spec fn attr_of(t: Seq<MarkupNode>, i: int, key: Seq<char>) -> Option<String> {
    if 0 <= i < t.len() && t[i] is Element && pairs_map(t[i]->Element_0.attributes@).contains_key(key) {
        Some(pairs_map(t[i]->Element_0.attributes@)[key])
    } else {
        None
    }
}

/// Node `i` carries identifier `id`.
pub open spec fn has_id(t: Seq<MarkupNode>, i: int, id: Seq<char>) -> bool {
    attr_of(t, i, "id"@) matches Some(v) && v@ == id
}

/// Positions of the elements named `tag` in the subtree at `i`, in
/// document order: an element before its descendants, siblings in order.
pub open spec fn tagged_from(t: Seq<MarkupNode>, i: int, tag: Seq<char>) -> Seq<int>
    decreases t.len() - i + 1, 0int,
{
    if 0 <= i < t.len() {
        let own: Seq<int> = if t[i] is Element && t[i]->Element_0.name@ == tag {
            seq![i]
        } else {
            Seq::empty()
        };
        own + tagged_in_children(t, i, children_of(t[i]), tag)
    } else {
        Seq::empty()
    }
}

pub open spec fn tagged_in_children(t: Seq<MarkupNode>, parent: int, ch: Seq<usize>, tag: Seq<char>) -> Seq<int>
    decreases t.len() - parent, ch.len(),
{
    if ch.len() == 0 || parent < 0 || parent >= t.len() {
        Seq::empty()
    } else {
        let prev = tagged_in_children(t, parent, ch.drop_last(), tag);
        let c = ch.last() as int;
        if parent < c < t.len() {
            prev + tagged_from(t, c, tag)
        } else {
            prev
        }
    }
}

/// A node found by `find_from` lies inside the arena.
pub proof fn lemma_find_bounds(t: Seq<MarkupNode>, i: int, id: Seq<char>)
    ensures
        find_from(t, i, id) matches Some(x) ==> 0 <= x < t.len() && has_id(t, x, id),
    decreases t.len() - i + 1, 0int,
{
    if 0 <= i < t.len() && !has_id(t, i, id) {
        lemma_find_children_bounds(t, i, children_of(t[i]), id);
    }
}

pub proof fn lemma_find_children_bounds(t: Seq<MarkupNode>, parent: int, ch: Seq<usize>, id: Seq<char>)
    ensures
        find_in_children(t, parent, ch, id) matches Some(x) ==> 0 <= x < t.len() && has_id(t, x, id),
    decreases t.len() - parent, ch.len(),
{
    if !(ch.len() == 0 || parent < 0 || parent >= t.len()) {
        lemma_find_children_bounds(t, parent, ch.drop_last(), id);
        let c = ch.last() as int;
        if parent < c < t.len() {
            lemma_find_bounds(t, c, id);
        }
    }
}

/// Every position found by `tagged_from` lies inside the arena.
pub proof fn lemma_tagged_bounds(t: Seq<MarkupNode>, i: int, tag: Seq<char>)
    ensures
        forall|m: int| 0 <= m < tagged_from(t, i, tag).len() ==> 0 <= #[trigger] tagged_from(t, i, tag)[m] < t.len(),
    decreases t.len() - i + 1, 0int,
{
    if 0 <= i < t.len() {
        lemma_tagged_children_bounds(t, i, children_of(t[i]), tag);
        let a = tagged_in_children(t, i, children_of(t[i]), tag);
        let s = tagged_from(t, i, tag);
        let own: Seq<int> = if t[i] is Element && t[i]->Element_0.name@ == tag {
            seq![i]
        } else {
            Seq::empty()
        };
        assert forall|m: int| 0 <= m < s.len() implies 0 <= #[trigger] s[m] < t.len() by {
            if m < own.len() {
                assert(s[m] == i);
            } else {
                assert(s[m] == a[m - own.len()]);
            }
        }
    }
}

pub proof fn lemma_tagged_children_bounds(t: Seq<MarkupNode>, parent: int, ch: Seq<usize>, tag: Seq<char>)
    ensures
        forall|m: int|
            0 <= m < tagged_in_children(t, parent, ch, tag).len() ==> 0 <= #[trigger] tagged_in_children(t, parent, ch, tag)[m] < t.len(),
    decreases t.len() - parent, ch.len(),
{
    if !(ch.len() == 0 || parent < 0 || parent >= t.len()) {
        lemma_tagged_children_bounds(t, parent, ch.drop_last(), tag);
        let c = ch.last() as int;
        let a = tagged_in_children(t, parent, ch.drop_last(), tag);
        let s = tagged_in_children(t, parent, ch, tag);
        if parent < c < t.len() {
            lemma_tagged_bounds(t, c, tag);
            let b = tagged_from(t, c, tag);
            assert forall|m: int| 0 <= m < s.len() implies 0 <= #[trigger] s[m] < t.len() by {
                if m < a.len() {
                    assert(s[m] == a[m]);
                } else {
                    assert(s[m] == b[m - a.len()]);
                }
            }
        }
    }
}

/// The first node, in document order (a parent before its children), of
/// the subtree at `i` that carries identifier `id`.
pub open spec fn find_from(t: Seq<MarkupNode>, i: int, id: Seq<char>) -> Option<int>
    decreases t.len() - i + 1, 0int,
{
    if 0 <= i < t.len() {
        if has_id(t, i, id) {
            Some(i)
        } else {
            find_in_children(t, i, children_of(t[i]), id)
        }
    } else {
        None
    }
}

pub open spec fn find_in_children(t: Seq<MarkupNode>, parent: int, ch: Seq<usize>, id: Seq<char>) -> Option<int>
    decreases t.len() - parent, ch.len(),
{
    if ch.len() == 0 || parent < 0 || parent >= t.len() {
        None
    } else {
        match find_in_children(t, parent, ch.drop_last(), id) {
            Some(x) => Some(x),
            None => {
                let c = ch.last() as int;
                if parent < c < t.len() {
                    find_from(t, c, id)
                } else {
                    None
                }
            },
        }
    }
}

/// The text and character-data children of a node list, joined.
pub open spec fn joined_text(t: Seq<MarkupNode>, ch: Seq<usize>) -> Seq<char>
    decreases ch.len(),
{
    if ch.len() == 0 {
        Seq::empty()
    } else {
        let prev = joined_text(t, ch.drop_last());
        let c = ch.last() as int;
        if 0 <= c < t.len() {
            match t[c] {
                MarkupNode::Text(s) => prev + s@,
                MarkupNode::CData(s) => prev + s@,
                _ => prev,
            }
        } else {
            prev
        }
    }
}

pub open spec fn is_text_node(n: MarkupNode) -> bool {
    n is Text || n is CData
}

/// Some child in the list is a text or character-data node.
pub open spec fn has_text_child(t: Seq<MarkupNode>, ch: Seq<usize>) -> bool {
    exists|k: int| 0 <= k < ch.len() && 0 <= ch[k] < t.len() && is_text_node(t[ch[k] as int])
}

/// The position of the first child of node `i`, when it is an element.
pub open spec fn first_child_elem(t: Seq<MarkupNode>, i: int) -> Option<int> {
    if 0 <= i < t.len() && children_of(t[i]).len() > 0 && 0 <= children_of(t[i])[0] < t.len()
        && t[children_of(t[i])[0] as int] is Element {
        Some(children_of(t[i])[0] as int)
    } else {
        None
    }
}

/// The text held by the first child element of node `i`.
pub open spec fn inner_text(t: Seq<MarkupNode>, i: int) -> Option<Seq<char>> {
    match first_child_elem(t, i) {
        Some(c) => if has_text_child(t, children_of(t[c])) {
            Some(joined_text(t, children_of(t[c])))
        } else {
            None
        },
        None => None,
    }
}

/// The attribute name that holds an element's identifier.
pub fn id_attr_name() -> (r: String)
    ensures
        r@ == "id"@,
{
    String::from_str("id")
}

/// The value the map gives a key is that of the last pair with the key.
pub proof fn lemma_pairs_map_last(s: Seq<(String, String)>, i: int)
    requires
        0 <= i < s.len(),
        forall|j: int| i < j < s.len() ==> s[j].0@ != s[i].0@,
    ensures
        pairs_map(s).contains_key(s[i].0@),
        pairs_map(s)[s[i].0@] == s[i].1,
    decreases s.len(),
{
    if i < s.len() - 1 {
        assert(s.drop_last()[i] == s[i]);
        assert forall|j: int| i < j < s.len() - 1 implies s.drop_last()[j].0@ != s[i].0@ by {
            assert(s.drop_last()[j] == s[j]);
        }
        lemma_pairs_map_last(s.drop_last(), i);
    }
}

/// Once a prefix of the children finds a node, every longer prefix finds
/// the same one.
pub proof fn lemma_find_in_children_extend(t: Seq<MarkupNode>, parent: int, ch: Seq<usize>, k: int, id: Seq<char>)
    requires
        0 <= k <= ch.len(),
        find_in_children(t, parent, ch.subrange(0, k), id) is Some,
    ensures
        find_in_children(t, parent, ch, id) == find_in_children(t, parent, ch.subrange(0, k), id),
    decreases ch.len() - k,
{
    if k < ch.len() {
        let p = ch.subrange(0, k + 1);
        assert(p.drop_last() =~= ch.subrange(0, k));
        lemma_find_in_children_extend(t, parent, ch, k + 1, id);
    } else {
        assert(ch.subrange(0, k) =~= ch);
    }
}

impl MarkupTree {
    pub open spec fn wf(&self) -> bool {
        nodes_wf(self.nodes@)
    }

    /// Appends to `out` the positions of the elements named `tag` in the
    /// subtree at `i`, in document order.
    pub fn collect_tagged(&self, i: usize, tag: &String, out: &mut Vec<usize>)
        requires
            self.wf(),
            i < self.nodes@.len(),
        ensures
            final(out)@.map_values(|x: usize| x as int) == old(out)@.map_values(|x: usize| x as int) + tagged_from(self.nodes@, i as int, tag@),
        decreases self.nodes@.len() - i,
    {
        let ghost t = self.nodes@;
        let ghost start0 = out@.map_values(|x: usize| x as int);
        match &self.nodes[i] {
            MarkupNode::Element(e) => {
                if e.name.eq(tag) {
                    out.push(i);
                    assert(out@.map_values(|x: usize| x as int) =~= start0 + seq![i as int]);
                }
                let ghost start = out@.map_values(|x: usize| x as int);
                let ghost ch = e.children@;
                let mut k: usize = 0;
                assert(ch.subrange(0, 0) =~= Seq::<usize>::empty());
                assert(start + tagged_in_children(t, i as int, ch.subrange(0, 0), tag@) =~= start);
                while k < e.children.len()
                    invariant
                        self.wf(),
                        t == self.nodes@,
                        i < t.len(),
                        t[i as int] == MarkupNode::Element(*e),
                        ch == e.children@,
                        k <= ch.len(),
                        out@.map_values(|x: usize| x as int) == start + tagged_in_children(t, i as int, ch.subrange(0, k as int), tag@),
                    decreases ch.len() - k,
                {
                    let c = e.children[k];
                    assert(children_of(t[i as int])[k as int] == c);
                    self.collect_tagged(c, tag, out);
                    proof {
                        let p = ch.subrange(0, k + 1);
                        assert(p.drop_last() =~= ch.subrange(0, k as int));
                        assert(p.last() == c);
                        assert(out@.map_values(|x: usize| x as int) =~= start + tagged_in_children(t, i as int, p, tag@));
                    }
                    k = k + 1;
                }
                assert(ch.subrange(0, ch.len() as int) =~= ch);
                assert(out@.map_values(|x: usize| x as int) =~= start0 + tagged_from(t, i as int, tag@));
            },
            _ => {
                assert(out@.map_values(|x: usize| x as int) =~= start0 + tagged_from(t, i as int, tag@));
            },
        }
    }

    /// Tells whether node `i` is an element carrying identifier `id`.
    pub fn node_has_id(&self, i: usize, id: &String) -> (r: bool)
        requires
            self.wf(),
            i < self.nodes@.len(),
        ensures
            r == has_id(self.nodes@, i as int, id@),
    {
        match &self.nodes[i] {
            MarkupNode::Element(e) => {
                let key = id_attr_name();
                match assoc_find(&e.attributes, &key) {
                    Some(k) => {
                        assert(keys_unique(e.attributes@));
                        e.attributes[k].1.eq(id)
                    },
                    None => false,
                }
            },
            _ => false,
        }
    }

    /// The first node of the subtree at `i`, parent before children, that
    /// carries identifier `id`.
    pub fn find_elem_with_id(&self, i: usize, id: &String) -> (r: Option<usize>)
        requires
            self.wf(),
            i < self.nodes@.len(),
        ensures
            r matches Some(x) ==> find_from(self.nodes@, i as int, id@) == Some(x as int),
            r matches Some(x) ==> x < self.nodes@.len() && has_id(self.nodes@, x as int, id@),
            r is None ==> find_from(self.nodes@, i as int, id@) is None,
        decreases self.nodes@.len() - i,
    {
        let ghost t = self.nodes@;
        proof {
            lemma_find_bounds(t, i as int, id@);
        }
        if self.node_has_id(i, id) {
            return Some(i);
        }
        match &self.nodes[i] {
            MarkupNode::Element(e) => {
                let ghost ch = e.children@;
                let mut k: usize = 0;
                assert(ch.subrange(0, 0) =~= Seq::<usize>::empty());
                while k < e.children.len()
                    invariant
                        self.wf(),
                        t == self.nodes@,
                        i < t.len(),
                        t[i as int] == MarkupNode::Element(*e),
                        ch == e.children@,
                        k <= ch.len(),
                        find_in_children(t, i as int, ch.subrange(0, k as int), id@) is None,
                        !has_id(t, i as int, id@),
                    decreases ch.len() - k,
                {
                    let c = e.children[k];
                    assert(children_of(t[i as int])[k as int] == c);
                    let found = self.find_elem_with_id(c, id);
                    proof {
                        let p = ch.subrange(0, k + 1);
                        assert(p.drop_last() =~= ch.subrange(0, k as int));
                        assert(p.last() == c);
                    }
                    if found.is_some() {
                        proof {
                            let p = ch.subrange(0, k + 1);
                            assert(i < c < t.len());
                            assert(find_in_children(t, i as int, p, id@) == find_from(t, c as int, id@));
                            lemma_find_in_children_extend(t, i as int, ch, k as int + 1, id@);
                        }
                        assert(children_of(t[i as int]) == ch);
                        return found;
                    }
                    k = k + 1;
                }
                proof {
                    assert(ch.subrange(0, ch.len() as int) =~= ch);
                }
                None
            },
            _ => None,
        }
    }

    /// The text held by the first child element of node `i`: its text and
    /// character-data children joined, or nothing when it has none.
    pub fn get_inner_text(&self, i: usize) -> (r: Option<String>)
        requires
            self.wf(),
            i < self.nodes@.len(),
        ensures
            r.is_some() == inner_text(self.nodes@, i as int).is_some(),
            r.is_some() ==> r->Some_0@ == inner_text(self.nodes@, i as int)->Some_0,
    {
        let ghost t = self.nodes@;
        let c = match &self.nodes[i] {
            MarkupNode::Element(e) => {
                if e.children.len() == 0 {
                    return None;
                }
                e.children[0]
            },
            _ => {
                return None;
            },
        };
        assert(children_of(t[i as int])[0] == c);
        match &self.nodes[c] {
            MarkupNode::Element(ce) => {
                let ghost ch = ce.children@;
                let mut text = String::new();
                let mut found = false;
                let mut k: usize = 0;
                assert(ch.subrange(0, 0) =~= Seq::<usize>::empty());
                while k < ce.children.len()
                    invariant
                        self.wf(),
                        t == self.nodes@,
                        c < t.len(),
                        t[c as int] == MarkupNode::Element(*ce),
                        ch == ce.children@,
                        k <= ch.len(),
                        text@ == joined_text(t, ch.subrange(0, k as int)),
                        found == has_text_child(t, ch.subrange(0, k as int)),
                    decreases ch.len() - k,
                {
                    let d = ce.children[k];
                    assert(children_of(t[c as int])[k as int] == d);
                    let ghost p = ch.subrange(0, k + 1);
                    assert(p.drop_last() =~= ch.subrange(0, k as int));
                    assert(p.last() == d);
                    match &self.nodes[d] {
                        MarkupNode::Text(s) => {
                            text.append(s.as_str());
                            found = true;
                            assert(has_text_child(t, p)) by {
                                assert(p[k as int] == d);
                            }
                        },
                        MarkupNode::CData(s) => {
                            text.append(s.as_str());
                            found = true;
                            assert(has_text_child(t, p)) by {
                                assert(p[k as int] == d);
                            }
                        },
                        _ => {
                            assert(has_text_child(t, p) == has_text_child(t, ch.subrange(0, k as int))) by {
                                if has_text_child(t, p) {
                                    let w = choose|w: int| 0 <= w < p.len() && 0 <= p[w] < t.len() && is_text_node(t[p[w] as int]);
                                    assert(w != k);
                                    assert(ch.subrange(0, k as int)[w] == p[w]);
                                }
                                if has_text_child(t, ch.subrange(0, k as int)) {
                                    let w = choose|w: int| 0 <= w < k && 0 <= ch.subrange(0, k as int)[w] < t.len() && is_text_node(t[ch.subrange(0, k as int)[w] as int]);
                                    assert(p[w] == ch.subrange(0, k as int)[w]);
                                }
                            }
                        },
                    }
                    proof {
                        if found {
                            if has_text_child(t, ch.subrange(0, k as int)) {
                                let w = choose|w: int| 0 <= w < k && 0 <= ch.subrange(0, k as int)[w] < t.len() && is_text_node(t[ch.subrange(0, k as int)[w] as int]);
                                assert(p[w] == ch.subrange(0, k as int)[w]);
                            }
                        }
                    }
                    k = k + 1;
                }
                assert(ch.subrange(0, ch.len() as int) =~= ch);
                if found {
                    Some(text)
                } else {
                    None
                }
            },
            _ => None,
        }
    }

    /// Makes `text` the only child of the first child element of node `i`:
    /// its first text child is overwritten and kept, or, when it has none, a
    /// new text node is added. Fails when node `i` has no first child
    /// element, or the arena is full and a node would have to be added.
    pub fn set_inner_text(&mut self, i: usize, text: String) -> (r: bool)
        requires
            old(self).wf(),
            i < old(self).nodes@.len(),
        ensures
            r == (first_child_elem(old(self).nodes@, i as int) matches Some(c) && (has_text_child(
                old(self).nodes@,
                children_of(old(self).nodes@[c]),
            ) || old(self).nodes@.len() < usize::MAX)),
            !r ==> *final(self) == *old(self),
            r ==> {
                let t0 = old(self).nodes@;
                let t1 = final(self).nodes@;
                let c = first_child_elem(t0, i as int)->Some_0;
                &&& final(self).wf()
                &&& t1[c] is Element
                &&& t1[c]->Element_0.name == t0[c]->Element_0.name
                &&& t1[c]->Element_0.attributes == t0[c]->Element_0.attributes
                &&& t1[c]->Element_0.children@.len() == 1
                &&& t1[t1[c]->Element_0.children@[0] as int] == MarkupNode::Text(text)
                &&& inner_text(t1, i as int) == Some(text@)
                &&& has_text_child(t1, children_of(t1[c]))
                &&& (has_text_child(t0, children_of(t0[c])) ==> {
                    let d = t1[c]->Element_0.children@[0] as int;
                    &&& t1.len() == t0.len()
                    &&& is_text_node(t0[d])
                    &&& forall|j: int| 0 <= j < t0.len() && j != c && j != d ==> t1[j] == t0[j]
                })
                &&& (!has_text_child(t0, children_of(t0[c])) ==> {
                    &&& t1.len() == t0.len() + 1
                    &&& t1[c]->Element_0.children@[0] == t0.len()
                    &&& forall|j: int| 0 <= j < t0.len() && j != c ==> t1[j] == t0[j]
                })
            },
    {
        let ghost t0 = self.nodes@;
        let c = match &self.nodes[i] {
            MarkupNode::Element(e) => {
                if e.children.len() == 0 {
                    return false;
                }
                e.children[0]
            },
            _ => {
                return false;
            },
        };
        assert(children_of(t0[i as int])[0] == c);
        let mut found: Option<usize> = None;
        match &self.nodes[c] {
            MarkupNode::Element(ce) => {
                let mut k: usize = 0;
                while k < ce.children.len()
                    invariant
                        t0 == self.nodes@,
                        nodes_wf(t0),
                        c < t0.len(),
                        t0[c as int] == MarkupNode::Element(*ce),
                        k <= ce.children@.len(),
                        found is None ==> forall|m: int| 0 <= m < k ==> !is_text_node(t0[#[trigger] ce.children@[m] as int]),
                        found matches Some(d) ==> c < d < t0.len() && is_text_node(t0[d as int]) && ce.children@.contains(d),
                    decreases ce.children@.len() - k,
                {
                    let d = ce.children[k];
                    assert(children_of(t0[c as int])[k as int] == d);
                    let is_text = match &self.nodes[d] {
                        MarkupNode::Text(_) => true,
                        MarkupNode::CData(_) => true,
                        _ => false,
                    };
                    if found.is_none() && is_text {
                        found = Some(d);
                    }
                    k = k + 1;
                }
                proof {
                    if found is None && has_text_child(t0, ce.children@) {
                        let w = choose|w: int| 0 <= w < ce.children@.len() && 0 <= ce.children@[w] < t0.len() && is_text_node(t0[ce.children@[w] as int]);
                        assert(!is_text_node(t0[ce.children@[w] as int]));
                    }
                    if found is Some {
                        let dd = found->Some_0;
                        let w = choose|w: int| 0 <= w < ce.children@.len() && ce.children@[w] == dd;
                        assert(has_text_child(t0, ce.children@));
                    }
                }
            },
            _ => {
                return false;
            },
        }
        let d = match found {
            Some(d) => {
                self.nodes.set(d, MarkupNode::Text(text));
                d
            },
            None => {
                let n = self.nodes.len();
                if n == usize::MAX {
                    return false;
                }
                self.nodes.push(MarkupNode::Text(text));
                n
            },
        };
        let ghost t_mid = self.nodes@;
        match &mut self.nodes[c] {
            MarkupNode::Element(ce) => {
                ce.children = vec![d];
            },
            _ => {},
        }
        proof {
            let t1 = self.nodes@;
            assert(t_mid[c as int] == t0[c as int]);
            assert(t1[d as int] == MarkupNode::Text(text));
            assert(nodes_wf(t1)) by {
                assert forall|j: int, k: int|
                    0 <= j < t1.len() && 0 <= k < children_of(t1[j]).len() implies j < #[trigger] children_of(t1[j])[k] < t1.len() by {
                    if j != c && j != d && j < t0.len() {
                        assert(t1[j] == t0[j]);
                    }
                }
                assert forall|j: int| 0 <= j < t1.len() && (#[trigger] t1[j]) is Element implies keys_unique(t1[j]->Element_0.attributes@) by {
                    if j != c && j != d && j < t0.len() {
                        assert(t1[j] == t0[j]);
                    }
                }
                assert(0 != d);
                if c == 0 {
                    assert(t1[0] is Element);
                } else {
                    assert(t1[0] == t0[0]);
                }
            }
            let ch1 = children_of(t1[c as int]);
            assert(ch1 =~= seq![d]);
            assert(ch1.drop_last() =~= Seq::<usize>::empty());
            assert(joined_text(t1, ch1.drop_last()) =~= Seq::<char>::empty());
            assert(joined_text(t1, ch1) =~= text@);
            assert(has_text_child(t1, ch1)) by {
                assert(ch1[0] == d);
            }
            assert(i != d);
            assert(children_of(t1[i as int]) == children_of(t0[i as int]));
        }
        true
    }

    /// Replaces the attributes of element `i`.
    pub fn set_attributes(&mut self, i: usize, attributes: Vec<(String, String)>) -> (r: bool)
        requires
            old(self).wf(),
            i < old(self).nodes@.len(),
            keys_unique(attributes@),
        ensures
            r == (old(self).nodes@[i as int] is Element),
            !r ==> *final(self) == *old(self),
            r ==> {
                let t0 = old(self).nodes@;
                let t1 = final(self).nodes@;
                &&& final(self).wf()
                &&& t1.len() == t0.len()
                &&& forall|j: int| 0 <= j < t0.len() && j != i ==> t1[j] == t0[j]
                &&& t1[i as int] is Element
                &&& t1[i as int]->Element_0.attributes@ == attributes@
                &&& t1[i as int]->Element_0.children == t0[i as int]->Element_0.children
                &&& t1[i as int]->Element_0.name == t0[i as int]->Element_0.name
            },
    {
        let ghost t0 = self.nodes@;
        match &self.nodes[i] {
            MarkupNode::Element(_) => {},
            _ => {
                return false;
            },
        }
        match &mut self.nodes[i] {
            MarkupNode::Element(e) => {
                e.attributes = attributes;
            },
            _ => {},
        }
        proof {
            let t1 = self.nodes@;
            assert forall|j: int, k: int|
                0 <= j < t1.len() && 0 <= k < children_of(t1[j]).len() implies j < #[trigger] children_of(t1[j])[k] < t1.len() by {
                assert(children_of(t1[j]) == children_of(t0[j]));
            }
        }
        true
    }

    /// The position of the first child of node `i`, which is an element.
    pub fn first_child_position(&self, i: usize) -> (r: usize)
        requires
            self.wf(),
            i < self.nodes@.len(),
            first_child_elem(self.nodes@, i as int) is Some,
        ensures
            r as int == first_child_elem(self.nodes@, i as int)->Some_0,
    {
        match &self.nodes[i] {
            MarkupNode::Element(e) => e.children[0],
            _ => 0,
        }
    }

    /// Tells whether the arena is a well-formed tree: a root element at
    /// position 0, every child after its parent, unique attribute names.
    pub fn check_wf(&self) -> (r: bool)
        ensures
            r == self.wf(),
    {
        let n = self.nodes.len();
        if n == 0 {
            return false;
        }
        match &self.nodes[0] {
            MarkupNode::Element(_) => {},
            _ => {
                return false;
            },
        }
        let mut i: usize = 0;
        while i < n
            invariant
                n == self.nodes@.len(),
                n > 0,
                self.nodes@[0] is Element,
                i <= n,
                forall|j: int, k: int|
                    0 <= j < i && 0 <= k < children_of(self.nodes@[j]).len() ==> j < #[trigger] children_of(self.nodes@[j])[k] < n,
                forall|j: int| 0 <= j < i && (#[trigger] self.nodes@[j]) is Element ==> keys_unique(self.nodes@[j]->Element_0.attributes@),
            decreases n - i,
        {
            match &self.nodes[i] {
                MarkupNode::Element(e) => {
                    let mut k: usize = 0;
                    while k < e.children.len()
                        invariant
                            n == self.nodes@.len(),
                            i < n,
                            self.nodes@[i as int] == MarkupNode::Element(*e),
                            k <= e.children@.len(),
                            forall|m: int| 0 <= m < k ==> i < #[trigger] e.children@[m] < n,
                        decreases e.children@.len() - k,
                    {
                        let c = e.children[k];
                        if c <= i || c >= n {
                            assert(children_of(self.nodes@[i as int])[k as int] == c);
                            return false;
                        }
                        k = k + 1;
                    }
                    if !crate::assoc::has_unique_keys(&e.attributes) {
                        return false;
                    }
                },
                _ => {},
            }
            i = i + 1;
        }
        true
    }

    /// Replaces the first element, in document order, that carries the
    /// identifier of `new_elem` by `new_elem`; every other node stays.
    pub fn replace_elem_by_id(&mut self, new_elem: MarkupElement) -> (r: Result<(), ReplaceError>)
        requires
            old(self).wf(),
        ensures
            final(self).wf(),
            r is Err ==> *final(self) == *old(self),
            r is Ok ==> exists|x: int|
                find_from(old(self).nodes@, 0, pairs_map(new_elem.attributes@)["id"@]@) == Some(x)
                    && final(self).nodes@ == old(self).nodes@.update(x, MarkupNode::Element(new_elem)),
            (r is Err && r->Err_0 is NotFound) <==> !(pairs_map(new_elem.attributes@).contains_key("id"@)
                && find_from(old(self).nodes@, 0, pairs_map(new_elem.attributes@)["id"@]@) is Some),
            r is Ok <==> (pairs_map(new_elem.attributes@).contains_key("id"@) && keys_unique(new_elem.attributes@)
                && (find_from(old(self).nodes@, 0, pairs_map(new_elem.attributes@)["id"@]@) matches Some(x)
                && forall|m: int| 0 <= m < new_elem.children@.len() ==> x < #[trigger] new_elem.children@[m] < old(self).nodes@.len())),
    {
        if !crate::assoc::has_unique_keys(&new_elem.attributes) {
            return Err(self.not_found_or_malformed(&new_elem));
        }
        let key = id_attr_name();
        let key_pos = match assoc_find(&new_elem.attributes, &key) {
            Some(k) => k,
            None => {
                return Err(ReplaceError::NotFound);
            },
        };
        let id = new_elem.attributes[key_pos].1.clone();
        let x = match self.find_elem_with_id(0, &id) {
            Some(x) => x,
            None => {
                return Err(ReplaceError::NotFound);
            },
        };
        let n = self.nodes.len();
        let ghost found_id = pairs_map(new_elem.attributes@).contains_key("id"@)
            && find_from(self.nodes@, 0, pairs_map(new_elem.attributes@)["id"@]@) == Some(x as int);
        assert(found_id);
        let mut k: usize = 0;
        while k < new_elem.children.len()
            invariant
                self.wf(),
                *self == *old(self),
                found_id,
                found_id == (pairs_map(new_elem.attributes@).contains_key("id"@)
                    && find_from(self.nodes@, 0, pairs_map(new_elem.attributes@)["id"@]@) == Some(x as int)),
                n == self.nodes@.len(),
                x < n,
                k <= new_elem.children@.len(),
                forall|m: int| 0 <= m < k ==> x < #[trigger] new_elem.children@[m] < n,
            decreases new_elem.children@.len() - k,
        {
            let c = new_elem.children[k];
            if c <= x || c >= n {
                assert(new_elem.children@[k as int] == c);
                return Err(ReplaceError::Malformed);
            }
            k = k + 1;
        }
        let ghost t0 = self.nodes@;
        proof {
            crate::assoc::lemma_pairs_map_value(new_elem.attributes@, key_pos as int);
        }
        self.nodes.set(x, MarkupNode::Element(new_elem));
        proof {
            let t1 = self.nodes@;
            assert forall|j: int, m: int|
                0 <= j < t1.len() && 0 <= m < children_of(t1[j]).len() implies j < #[trigger] children_of(t1[j])[m] < t1.len() by {
                if j != x {
                    assert(t1[j] == t0[j]);
                }
            }
            assert forall|j: int| 0 <= j < t1.len() && (#[trigger] t1[j]) is Element implies keys_unique(t1[j]->Element_0.attributes@) by {
                if j != x {
                    assert(t1[j] == t0[j]);
                }
            }
            if x == 0 {
                assert(t1[0] is Element);
            }
        }
        Ok(())
    }

    /// The error for an element with repeated attribute names.
    fn not_found_or_malformed(&self, new_elem: &MarkupElement) -> (r: ReplaceError)
        requires
            self.wf(),
        ensures
            r is NotFound <==> !(pairs_map(new_elem.attributes@).contains_key("id"@)
                && find_from(self.nodes@, 0, pairs_map(new_elem.attributes@)["id"@]@) is Some),
    {
        let ghost m = pairs_map(new_elem.attributes@);
        let mut found: Option<usize> = None;
        let mut k: usize = new_elem.attributes.len();
        let key = id_attr_name();
        while k > 0
            invariant
                k <= new_elem.attributes@.len(),
                key@ == "id"@,
                found matches Some(i) ==> i < new_elem.attributes@.len() && new_elem.attributes@[i as int].0@ == "id"@
                    && pairs_map(new_elem.attributes@)["id"@] == new_elem.attributes@[i as int].1
                    && pairs_map(new_elem.attributes@).contains_key("id"@),
                found is None ==> forall|j: int| k <= j < new_elem.attributes@.len() ==> new_elem.attributes@[j].0@ != "id"@,
            decreases k,
        {
            k = k - 1;
            if found.is_none() && new_elem.attributes[k].0.eq(&key) {
                proof {
                    lemma_pairs_map_last(new_elem.attributes@, k as int);
                }
                found = Some(k);
            }
        }
        proof {
            crate::assoc::lemma_pairs_map_domain(new_elem.attributes@, "id"@);
        }
        match found {
            Some(i) => {
                let id = new_elem.attributes[i].1.clone();
                if self.find_elem_with_id(0, &id).is_some() {
                    ReplaceError::Malformed
                } else {
                    ReplaceError::NotFound
                }
            },
            None => ReplaceError::NotFound,
        }
    }
}

} // verus!
