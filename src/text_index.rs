//! The addressable text elements of a markup document: each has an
//! identifier, its attributes and its current text. Changes go through the
//! identifier and are written back into the tree.
use vstd::prelude::*;
use crate::assoc::{assoc_find, keys_unique, pairs_map};
use crate::markup::{
    children_of, has_text_child, is_text_node,
    MarkupNode, MarkupTree, attr_of, find_from, first_child_elem, has_id, id_attr_name, inner_text,
    nodes_wf, tagged_from,
};

verus! {

/// One text-bearing element of a template, addressed by its identifier.
pub struct TextElem {
    pub id: String,
    pub attr: Vec<(String, String)>,
    pub text: String,
}

impl TextElem {
    /// Attribute names are unique.
    pub open spec fn wf(&self) -> bool {
        keys_unique(self.attr@)
    }
}

/// Why the text index could not be built or changed.
pub enum IndexError {
    /// A text element carries no identifier attribute.
    MissingIdentifier { position: usize },
    /// A text element has no child element holding text, or that element is
    /// itself a text element of the document.
    MissingText { id: String },
    /// No text element carries the identifier.
    NotFound { id: String },
}

/// The tree and its text elements, in document order, with the arena
/// position of each.
pub struct SvgEditor {
    pub xml_tree: MarkupTree,
    pub text_elems_ordered: Vec<TextElem>,
    pub positions: Vec<usize>,
}

/// `e` describes node `j` of the tree: same identifier, attributes and text.
pub open spec fn describes(t: Seq<MarkupNode>, j: int, e: TextElem) -> bool {
    &&& attr_of(t, j, "id"@) == Some(e.id)
    &&& t[j] is Element
    &&& e.attr@ == t[j]->Element_0.attributes@
    &&& inner_text(t, j) == Some(e.text@)
}

/// Node `j` has a first child element, which is none of the indexed nodes.
pub open spec fn holds_text(t: Seq<MarkupNode>, pos: Seq<usize>, j: int) -> bool {
    &&& 0 <= j < t.len()
    &&& first_child_elem(t, j) is Some
    &&& has_text_child(t, children_of(t[first_child_elem(t, j)->Some_0]))
    &&& forall|m: int| 0 <= m < pos.len() ==> first_child_elem(t, j)->Some_0 != #[trigger] pos[m]
}

/// Writing a text at the text element `x` keeps every text element's text
/// holder in place.
pub proof fn lemma_holds_text_after_write(t0: Seq<MarkupNode>, t1: Seq<MarkupNode>, pos: Seq<usize>, x: int)
    requires
        holds_text(t0, pos, x),
        exists|q: int| 0 <= q < pos.len() && pos[q] == x,
        forall|q: int| 0 <= q < pos.len() ==> holds_text(t0, pos, #[trigger] pos[q] as int),
        ({
            let c = first_child_elem(t0, x)->Some_0;
            &&& t1.len() == t0.len()
            &&& t1[c] is Element
            &&& t1[c]->Element_0.children@.len() == 1
            &&& is_text_node(t1[t1[c]->Element_0.children@[0] as int])
            &&& is_text_node(t0[t1[c]->Element_0.children@[0] as int])
            &&& has_text_child(t1, children_of(t1[c]))
            &&& forall|j: int| 0 <= j < t0.len() && j != c && j != t1[c]->Element_0.children@[0] ==> t1[j] == t0[j]
        }),
    ensures
        forall|q: int| 0 <= q < pos.len() ==> holds_text(t1, pos, #[trigger] pos[q] as int),
{
    let c = first_child_elem(t0, x)->Some_0;
    let d = t1[c]->Element_0.children@[0] as int;
    assert forall|q: int| 0 <= q < pos.len() implies holds_text(t1, pos, #[trigger] pos[q] as int) by {
        let y = pos[q] as int;
        assert(holds_text(t0, pos, y));
        assert(y != c);
        assert(t0[y] is Element);
        assert(y != d);
        assert(t1[y] == t0[y]);
        let cy = first_child_elem(t0, y)->Some_0;
        assert(cy != d);
        if cy != c {
            assert(t1[cy] == t0[cy]);
            let ch = children_of(t0[cy]);
            let w = choose|w: int| 0 <= w < ch.len() && 0 <= ch[w] < t0.len() && is_text_node(t0[ch[w] as int]);
            if ch[w] as int != d {
                assert(ch[w] as int != c);
                assert(t1[ch[w] as int] == t0[ch[w] as int]);
            }
            assert(has_text_child(t1, children_of(t1[cy])));
        }
        assert(first_child_elem(t1, y) == first_child_elem(t0, y));
    }
}

/// The error for node `j` names what it lacks: its identifier, or else
/// its text.
pub open spec fn error_fits(t: Seq<MarkupNode>, j: int, e: IndexError) -> bool {
    &&& (e is MissingIdentifier) == (attr_of(t, j, "id"@) is None)
    &&& (e is MissingIdentifier || e is MissingText)
}

/// Text element `k` of the list `idx` can be indexed: it has an identifier
/// and a text, and its text is held by an element that is no text element
/// of the list (else its text would not sit in one descendant).
pub open spec fn indexable(t: Seq<MarkupNode>, idx: Seq<int>, k: int) -> bool {
    &&& readable(t, idx[k])
    &&& forall|m: int| 0 <= m < idx.len() ==> first_child_elem(t, idx[k])->Some_0 != #[trigger] idx[m]
}

/// Node `j` can be read as a text element.
pub open spec fn readable(t: Seq<MarkupNode>, j: int) -> bool {
    attr_of(t, j, "id"@) is Some && inner_text(t, j) is Some
}

/// The position of the first element with identifier `id`.
pub open spec fn first_with_id(s: Seq<TextElem>, id: Seq<char>) -> Option<int>
    decreases s.len(),
{
    if s.len() == 0 {
        None
    } else {
        match first_with_id(s.drop_last(), id) {
            Some(k) => Some(k),
            None => if s.last().id@ == id {
                Some(s.len() - 1)
            } else {
                None
            },
        }
    }
}

pub proof fn lemma_first_with_id(s: Seq<TextElem>, id: Seq<char>)
    ensures
        first_with_id(s, id) matches Some(k) ==> 0 <= k < s.len() && s[k].id@ == id && forall|j: int|
            0 <= j < k ==> s[j].id@ != id,
        first_with_id(s, id) is None ==> forall|j: int| 0 <= j < s.len() ==> s[j].id@ != id,
    decreases s.len(),
{
    if s.len() > 0 {
        lemma_first_with_id(s.drop_last(), id);
        assert forall|j: int| 0 <= j < s.len() - 1 implies s[j] == s.drop_last()[j] by {}
    }
}

pub proof fn lemma_first_with_id_char(s: Seq<TextElem>, id: Seq<char>, k: int)
    requires
        0 <= k < s.len(),
        s[k].id@ == id,
        forall|j: int| 0 <= j < k ==> s[j].id@ != id,
    ensures
        first_with_id(s, id) == Some(k),
{
    lemma_first_with_id(s, id);
}

/// The current text of the element with identifier `id`.
pub open spec fn text_of_id(s: Seq<TextElem>, id: Seq<char>) -> Option<Seq<char>> {
    match first_with_id(s, id) {
        Some(k) => Some(s[k].text@),
        None => None,
    }
}

/// The attributes of the element with identifier `id`.
pub open spec fn attr_of_id(s: Seq<TextElem>, id: Seq<char>) -> Option<Map<Seq<char>, String>> {
    match first_with_id(s, id) {
        Some(k) => Some(pairs_map(s[k].attr@)),
        None => None,
    }
}

/// Copies a list of attribute pairs.
pub fn copy_pairs(v: &Vec<(String, String)>) -> (r: Vec<(String, String)>)
    ensures
        r@ == v@,
{
    let mut r: Vec<(String, String)> = Vec::new();
    let mut i: usize = 0;
    while i < v.len()
        invariant
            i <= v@.len(),
            r@ == v@.subrange(0, i as int),
        decreases v@.len() - i,
    {
        let p = (v[i].0.clone(), v[i].1.clone());
        r.push(p);
        assert(r@ =~= v@.subrange(0, i + 1));
        i = i + 1;
    }
    assert(v@.subrange(0, v@.len() as int) =~= v@);
    r
}

/// Sets attribute `key` of a text element to `value`.
pub fn assoc_insert_in_elem(e: &mut TextElem, key: String, value: String)
    requires
        old(e).wf(),
    ensures
        final(e).wf(),
        final(e).id == old(e).id,
        final(e).text == old(e).text,
        pairs_map(final(e).attr@) == pairs_map(old(e).attr@).insert(key@, value),
{
    crate::assoc::assoc_insert(&mut e.attr, key, value);
}

impl SvgEditor {
    pub open spec fn wf(&self) -> bool {
        &&& self.xml_tree.wf()
        &&& self.positions@.len() == self.text_elems_ordered@.len()
        &&& forall|k: int| 0 <= k < self.text_elems_ordered@.len() ==> (#[trigger] self.text_elems_ordered@[k]).wf()
        &&& forall|k: int| 0 <= k < self.positions@.len() ==> holds_text(self.xml_tree.nodes@, self.positions@, #[trigger] self.positions@[k] as int)
    }

    /// The text elements, as values.
    pub open spec fn elems(&self) -> Seq<TextElem> {
        self.text_elems_ordered@
    }

    /// Reads the text element at node `j` of the tree.
    pub fn read_text_elem(tree: &MarkupTree, j: usize) -> (r: Result<TextElem, IndexError>)
        requires
            tree.wf(),
            j < tree.nodes@.len(),
        ensures
            r.is_ok() == readable(tree.nodes@, j as int),
            r is Err ==> error_fits(tree.nodes@, j as int, r->Err_0),
            r is Ok ==> describes(tree.nodes@, j as int, r->Ok_0) && r->Ok_0.wf(),
    {
        let key = id_attr_name();
        match &tree.nodes[j] {
            MarkupNode::Element(e) => {
                let id = match assoc_find(&e.attributes, &key) {
                    Some(k) => e.attributes[k].1.clone(),
                    None => {
                        return Err(IndexError::MissingIdentifier { position: j });
                    },
                };
                assert(keys_unique(e.attributes@));
                match tree.get_inner_text(j) {
                    Some(text) => Ok(TextElem { id, attr: copy_pairs(&e.attributes), text }),
                    None => Err(IndexError::MissingText { id }),
                }
            },
            _ => Err(IndexError::MissingIdentifier { position: j }),
        }
    }

    /// Builds the index over the elements named `text`, in document order.
    pub fn open(xml_tree: MarkupTree) -> (r: Result<SvgEditor, IndexError>)
        requires
            xml_tree.wf(),
        ensures
            r.is_ok() == forall|k: int|
                0 <= k < tagged_from(xml_tree.nodes@, 0, "text"@).len() ==> #[trigger] indexable(
                    xml_tree.nodes@,
                    tagged_from(xml_tree.nodes@, 0, "text"@),
                    k,
                ),
            r is Err ==> exists|k: int|
                0 <= k < tagged_from(xml_tree.nodes@, 0, "text"@).len() && (forall|m: int|
                    0 <= m < k ==> #[trigger] indexable(xml_tree.nodes@, tagged_from(xml_tree.nodes@, 0, "text"@), m))
                    && !indexable(xml_tree.nodes@, tagged_from(xml_tree.nodes@, 0, "text"@), k) && error_fits(
                    xml_tree.nodes@,
                    tagged_from(xml_tree.nodes@, 0, "text"@)[k],
                    r->Err_0,
                ),
            r is Ok ==> {
                let ed = r->Ok_0;
                let idx = tagged_from(xml_tree.nodes@, 0, "text"@);
                &&& ed.wf()
                &&& ed.positions@.map_values(|x: usize| x as int) == idx
                &&& ed.xml_tree == xml_tree
                &&& ed.text_elems_ordered@.len() == idx.len()
                &&& forall|k: int|
                    0 <= k < idx.len() ==> describes(xml_tree.nodes@, idx[k], #[trigger] ed.text_elems_ordered@[k])
            },
    {
        let tag = String::from_str("text");
        let mut positions: Vec<usize> = Vec::new();
        xml_tree.collect_tagged(0, &tag, &mut positions);
        let ghost idx = tagged_from(xml_tree.nodes@, 0, "text"@);
        assert(positions@.map_values(|x: usize| x as int) =~= idx);
        proof {
            crate::markup::lemma_tagged_bounds(xml_tree.nodes@, 0, "text"@);
        }
        let mut elems: Vec<TextElem> = Vec::new();
        let mut k: usize = 0;
        while k < positions.len()
            invariant
                xml_tree.wf(),
                positions@.map_values(|x: usize| x as int) == idx,
                idx == tagged_from(xml_tree.nodes@, 0, "text"@),
                forall|m: int| 0 <= m < idx.len() ==> 0 <= #[trigger] idx[m] < xml_tree.nodes@.len(),
                k <= positions@.len(),
                elems@.len() == k,
                forall|m: int| 0 <= m < k ==> readable(xml_tree.nodes@, #[trigger] idx[m]),
                forall|m: int| 0 <= m < k ==> #[trigger] indexable(xml_tree.nodes@, idx, m),
                forall|m: int| 0 <= m < k ==> holds_text(xml_tree.nodes@, positions@, #[trigger] idx[m]),
                forall|m: int| 0 <= m < k ==> describes(xml_tree.nodes@, idx[m], #[trigger] elems@[m]),
                forall|m: int| 0 <= m < k ==> (#[trigger] elems@[m]).wf(),
            decreases positions@.len() - k,
        {
            let j = positions[k];
            assert(idx[k as int] == j as int);
            let e = match Self::read_text_elem(&xml_tree, j) {
                Ok(e) => e,
                Err(err) => {
                    assert(!indexable(xml_tree.nodes@, idx, k as int));
                    return Err(err);
                },
            };
            let c = xml_tree.first_child_position(j);
            let mut m: usize = 0;
            while m < positions.len()
                invariant
                    xml_tree.wf(),
                    positions@.map_values(|x: usize| x as int) == idx,
                    m <= positions@.len(),
                    c as int == first_child_elem(xml_tree.nodes@, j as int)->Some_0,
                    forall|q: int| 0 <= q < m ==> c != #[trigger] positions@[q],
                    idx == tagged_from(xml_tree.nodes@, 0, "text"@),
                    k < idx.len(),
                    idx[k as int] == j as int,
                    readable(xml_tree.nodes@, j as int),
                    forall|q: int| 0 <= q < k ==> #[trigger] indexable(xml_tree.nodes@, idx, q),
                decreases positions@.len() - m,
            {
                if positions[m] == c {
                    assert(idx[m as int] == c as int);
                    assert(first_child_elem(xml_tree.nodes@, idx[k as int])->Some_0 == idx[m as int]);
                    assert(!indexable(xml_tree.nodes@, idx, k as int));
                    assert(attr_of(xml_tree.nodes@, j as int, "id"@) is Some);
                    return Err(IndexError::MissingText { id: e.id });
                }
                m = m + 1;
            }
            proof {
                assert forall|q: int| 0 <= q < idx.len() implies first_child_elem(xml_tree.nodes@, idx[k as int])->Some_0 != #[trigger] idx[q] by {
                    assert(idx[q] == positions@[q] as int);
                }
                assert(indexable(xml_tree.nodes@, idx, k as int));
            }
            elems.push(e);
            k = k + 1;
        }
        proof {
            assert forall|q: int| 0 <= q < positions@.len() implies holds_text(xml_tree.nodes@, positions@, #[trigger] positions@[q] as int) by {
                assert(idx[q] == positions@[q] as int);
            }
        }
        Ok(SvgEditor { xml_tree, text_elems_ordered: elems, positions })
    }

    /// The text elements in document order.
    pub fn get_text_elems_map_ordered(&self) -> (r: &Vec<TextElem>)
        ensures
            r@ == self.text_elems_ordered@,
    {
        &self.text_elems_ordered
    }

    /// Position of the first text element with identifier `id`.
    pub fn position_of_id(&self, id: &String) -> (r: Option<usize>)
        ensures
            r.is_some() == first_with_id(self.text_elems_ordered@, id@).is_some(),
            r matches Some(k) ==> first_with_id(self.text_elems_ordered@, id@) == Some(k as int),
            r matches Some(k) ==> k < self.text_elems_ordered@.len(),
    {
        let ghost s = self.text_elems_ordered@;
        proof {
            lemma_first_with_id(s, id@);
        }
        let mut k: usize = 0;
        while k < self.text_elems_ordered.len()
            invariant
                s == self.text_elems_ordered@,
                k <= s.len(),
                forall|j: int| 0 <= j < k ==> s[j].id@ != id@,
                first_with_id(s, id@) matches Some(x) ==> 0 <= x < s.len() && s[x].id@ == id@,
            decreases s.len() - k,
        {
            if self.text_elems_ordered[k].id.eq(id) {
                proof {
                    lemma_first_with_id_char(s, id@, k as int);
                }
                return Some(k);
            }
            k = k + 1;
        }
        None
    }

    /// The first text element with identifier `id`.
    pub fn get_elem_with_id(&self, text_elem_id: &String) -> (r: Result<&TextElem, IndexError>)
        ensures
            r.is_ok() == first_with_id(self.text_elems_ordered@, text_elem_id@).is_some(),
            r is Ok ==> *r->Ok_0 == self.text_elems_ordered@[first_with_id(self.text_elems_ordered@, text_elem_id@)->Some_0],
            r is Err ==> r->Err_0 is NotFound,
    {
        match self.position_of_id(text_elem_id) {
            Some(k) => Ok(&self.text_elems_ordered[k]),
            None => Err(IndexError::NotFound { id: text_elem_id.clone() }),
        }
    }

    /// Replaces the text element that has the identifier of `new_text_elem`,
    /// and writes its attributes and text into its tree element.
    pub fn update_text_elem_by_id(&mut self, new_text_elem: TextElem) -> (r: Result<(), IndexError>)
        requires
            old(self).wf(),
            new_text_elem.wf(),
        ensures
            final(self).wf(),
            r.is_ok() == (first_with_id(old(self).elems(), new_text_elem.id@) is Some),
            r is Err ==> *final(self) == *old(self),
            final(self).positions == old(self).positions,
            r is Ok ==> {
                let k = first_with_id(old(self).elems(), new_text_elem.id@)->Some_0;
                let x = old(self).positions@[k] as int;
                let t1 = final(self).xml_tree.nodes@;
                &&& final(self).elems() == old(self).elems().update(k, new_text_elem)
                &&& final(self).xml_tree.nodes@.len() == old(self).xml_tree.nodes@.len()
                &&& t1[x] is Element
                &&& t1[x]->Element_0.attributes@ == new_text_elem.attr@
                &&& inner_text(t1, x) == Some(new_text_elem.text@)
            },
    {
        let k = match self.position_of_id(&new_text_elem.id) {
            Some(k) => k,
            None => {
                return Err(IndexError::NotFound { id: new_text_elem.id.clone() });
            },
        };
        let x = self.positions[k];
        let ghost t0 = self.xml_tree.nodes@;
        let ghost pos = self.positions@;
        assert(holds_text(t0, pos, pos[k as int] as int));
        let attrs = copy_pairs(&new_text_elem.attr);
        let ok_attr = self.xml_tree.set_attributes(x, attrs);
        assert(ok_attr);
        let ghost t_mid = self.xml_tree.nodes@;
        proof {
            assert forall|q: int| 0 <= q < pos.len() implies holds_text(t_mid, pos, #[trigger] pos[q] as int) by {
                let y = pos[q] as int;
                assert(holds_text(t0, pos, y));
                let cy = first_child_elem(t0, y)->Some_0;
                assert(crate::markup::children_of(t_mid[y]) == crate::markup::children_of(t0[y]));
                if cy != x {
                    assert(t_mid[cy] == t0[cy]);
                }
                let ch = children_of(t0[cy]);
                let w = choose|w: int| 0 <= w < ch.len() && 0 <= ch[w] < t0.len() && is_text_node(t0[ch[w] as int]);
                if ch[w] as int != x {
                    assert(t_mid[ch[w] as int] == t0[ch[w] as int]);
                }
                assert(first_child_elem(t_mid, y) == first_child_elem(t0, y));
                assert(has_text_child(t_mid, children_of(t_mid[cy])));
            }
        }
        let ok_text = self.xml_tree.set_inner_text(x, new_text_elem.text.clone());
        assert(ok_text);
        proof {
            let t1 = self.xml_tree.nodes@;
            let c = first_child_elem(t_mid, x as int)->Some_0;
            assert(c != x);
            assert(pos[k as int] == x);
            lemma_holds_text_after_write(t_mid, t1, pos, x as int);
            assert(t1[x as int] == t_mid[x as int]);
        }
        self.text_elems_ordered.set(k, new_text_elem);
        proof {
            let s = self.text_elems_ordered@;
            assert forall|j: int| 0 <= j < s.len() implies (#[trigger] s[j]).wf() by {
                if j != k {
                    assert(s[j] == old(self).text_elems_ordered@[j]);
                }
            }
        }
        Ok(())
    }

    /// Sets the text of the element with identifier `id`, in the index and
    /// in the tree; its identifier and attributes stay.
    pub fn set_text_by_id(&mut self, id: &String, text: String) -> (r: Result<(), IndexError>)
        requires
            old(self).wf(),
        ensures
            final(self).wf(),
            final(self).positions == old(self).positions,
            r.is_ok() == (first_with_id(old(self).elems(), id@) is Some),
            r is Err ==> *final(self) == *old(self),
            r is Ok ==> {
                let k = first_with_id(old(self).elems(), id@)->Some_0;
                let x = old(self).positions@[k] as int;
                &&& final(self).elems() == old(self).elems().update(k, TextElem { text: text, ..old(self).elems()[k] })
                &&& final(self).xml_tree.nodes@.len() == old(self).xml_tree.nodes@.len()
                &&& inner_text(final(self).xml_tree.nodes@, x) == Some(text@)
            },
    {
        let k = match self.position_of_id(id) {
            Some(k) => k,
            None => {
                return Err(IndexError::NotFound { id: id.clone() });
            },
        };
        let x = self.positions[k];
        let ghost t0 = self.xml_tree.nodes@;
        let ghost pos = self.positions@;
        assert(holds_text(t0, pos, pos[k as int] as int));
        let ok_text = self.xml_tree.set_inner_text(x, text.clone());
        assert(ok_text);
        proof {
            let t1 = self.xml_tree.nodes@;
            assert(pos[k as int] == x);
            lemma_holds_text_after_write(t0, t1, pos, x as int);
        }
        self.text_elems_ordered[k].text = text;
        proof {
            let s = self.text_elems_ordered@;
            assert forall|j: int| 0 <= j < s.len() implies (#[trigger] s[j]).wf() by {
                if j != k {
                    assert(s[j] == old(self).text_elems_ordered@[j]);
                }
            }
        }
        Ok(())
    }

    /// Sets attribute `key` of the element with identifier `id` to `value`,
    /// in the index and in the tree; its identifier and text stay.
    pub fn set_attr_by_id(&mut self, id: &String, key: String, value: String) -> (r: Result<(), IndexError>)
        requires
            old(self).wf(),
        ensures
            final(self).wf(),
            final(self).positions == old(self).positions,
            r.is_ok() == (first_with_id(old(self).elems(), id@) is Some),
            r is Err ==> *final(self) == *old(self),
            r is Ok ==> {
                let k = first_with_id(old(self).elems(), id@)->Some_0;
                let s0 = old(self).elems();
                let s1 = final(self).elems();
                &&& s1.len() == s0.len()
                &&& forall|j: int| 0 <= j < s0.len() && j != k ==> s1[j] == s0[j]
                &&& s1[k].id == s0[k].id
                &&& s1[k].text == s0[k].text
                &&& pairs_map(s1[k].attr@) == pairs_map(s0[k].attr@).insert(key@, value)
                &&& final(self).xml_tree.nodes@.len() == old(self).xml_tree.nodes@.len()
            },
    {
        let k = match self.position_of_id(id) {
            Some(k) => k,
            None => {
                return Err(IndexError::NotFound { id: id.clone() });
            },
        };
        let x = self.positions[k];
        let ghost t0 = self.xml_tree.nodes@;
        let ghost pos = self.positions@;
        assert(holds_text(t0, pos, pos[k as int] as int));
        assert(self.text_elems_ordered@[k as int].wf());
        assoc_insert_in_elem(&mut self.text_elems_ordered[k], key, value);
        let attrs = copy_pairs(&self.text_elems_ordered[k].attr);
        let ok = self.xml_tree.set_attributes(x, attrs);
        assert(ok);
        proof {
            let t1 = self.xml_tree.nodes@;
            assert forall|q: int| 0 <= q < pos.len() implies holds_text(t1, pos, #[trigger] pos[q] as int) by {
                let y = pos[q] as int;
                assert(holds_text(t0, pos, y));
                assert(crate::markup::children_of(t1[y]) == crate::markup::children_of(t0[y]));
                let cy = first_child_elem(t0, y)->Some_0;
                if cy != x {
                    assert(t1[cy] == t0[cy]);
                }
                assert(first_child_elem(t1, y) == first_child_elem(t0, y));
            }
            let s = self.text_elems_ordered@;
            assert forall|j: int| 0 <= j < s.len() implies (#[trigger] s[j]).wf() by {
                if j != k {
                    assert(s[j] == old(self).text_elems_ordered@[j]);
                }
            }
        }
        Ok(())
    }
}

} // verus!
