//! The slip writer: binds slip contents to the slots of a template page and
//! writes them into the page's text index.
use vstd::prelude::*;
use crate::assoc::{assoc_find, assoc_insert, keys_unique, pairs_map};
use crate::fortune_splitter::FortuneSlipTextRef;
use crate::svg_keys::{
    KeysView, NR_SLIPS_PER_PAGE, SvgKeys, TemplateError, chunk_valid, fold_keys, page_valid, retrieve_svg_keys,
    slip_chunk, strings_view,
};
use crate::text::{contains_seq, str_contains};
use crate::text_index::{
    IndexError, SvgEditor, TextElem, attr_of_id, first_with_id, lemma_first_with_id, lemma_first_with_id_char,
    text_of_id,
};

verus! {

/// A template page with the key set of each of its slips.
pub struct FortuneSlipWriter {
    pub svg_editor: SvgEditor,
    pub svg_keys_all_slips: Vec<SvgKeys>,
}

/// Why slips could not be written.
pub enum SlipWriterError {
    Template(TemplateError),
    Index(IndexError),
    /// There is no slip at this position of the page.
    OutOfRange { idx: usize },
    /// The slip content has no text for a category of the template.
    MissingCategoryText { category: String },
}

/// The elements after text `t` is written to the element with identifier
/// `id`; nothing changes when there is none.
pub open spec fn write_spec(s: Seq<TextElem>, id: Seq<char>, t: String) -> Seq<TextElem> {
    match first_with_id(s, id) {
        Some(k) => s.update(k, TextElem { text: t, ..s[k] }),
        None => s,
    }
}

/// The elements after a list of writes, in order.
pub open spec fn apply_writes(s: Seq<TextElem>, ws: Seq<(Seq<char>, String)>) -> Seq<TextElem>
    decreases ws.len(),
{
    if ws.len() == 0 {
        s
    } else {
        write_spec(apply_writes(s, ws.drop_last()), ws.last().0, ws.last().1)
    }
}

/// The writes that put slip content `a` into the slots `k`: header, luck
/// level, then each category slot in order.
pub open spec fn slip_writes(k: SvgKeys, a: FortuneSlipTextRef) -> Seq<(Seq<char>, String)> {
    seq![(k.header_key@, a.header), (k.luck_level_key@, a.luck_level)] + k.cat_to_fortune_keys@.map_values(
        |p: (String, String)| (p.1@, pairs_map(a.category_to_fortune@)[p.0@]),
    )
}

/// The elements after the slips `0..n` of a page are written, in order.
pub open spec fn page_applied(s: Seq<TextElem>, keys: Seq<SvgKeys>, texts: Seq<FortuneSlipTextRef>, n: int) -> Seq<TextElem>
    decreases n,
{
    if n <= 0 {
        s
    } else {
        apply_writes(page_applied(s, keys, texts, n - 1), slip_writes(keys[n - 1], texts[n - 1]))
    }
}

/// The slip content has a text for every category slot.
pub open spec fn covers(k: SvgKeys, a: FortuneSlipTextRef) -> bool {
    forall|j: int|
        0 <= j < k.cat_to_fortune_keys@.len() ==> pairs_map(a.category_to_fortune@).contains_key(
            (#[trigger] k.cat_to_fortune_keys@[j]).0@,
        )
}

/// The element with identifier `id` is centred: `x` is `50%` and
/// `text-anchor` is `middle`.
pub open spec fn centered(s: Seq<TextElem>, id: Seq<char>) -> bool {
    attr_of_id(s, id) matches Some(m) && m.contains_key("x"@) && m["x"@]@ == "50%"@ && m.contains_key(
        "text-anchor"@,
    ) && m["text-anchor"@]@ == "middle"@
}

/// The placeholder of the element with identifier `id` asks for centring.
pub open spec fn marked(s: Seq<TextElem>, id: Seq<char>) -> bool {
    text_of_id(s, id) matches Some(t) && contains_seq(t, "[center]"@)
}

/// Two element lists carry the same identifiers, in the same places.
pub open spec fn same_ids(a: Seq<TextElem>, b: Seq<TextElem>) -> bool {
    a.len() == b.len() && forall|j: int| 0 <= j < a.len() ==> (#[trigger] a[j]).id@ == b[j].id@
}

pub proof fn lemma_same_ids_first(a: Seq<TextElem>, b: Seq<TextElem>, id: Seq<char>)
    requires
        same_ids(a, b),
    ensures
        first_with_id(a, id) == first_with_id(b, id),
{
    lemma_first_with_id(a, id);
    lemma_first_with_id(b, id);
    if first_with_id(a, id) is Some {
        let k = first_with_id(a, id)->Some_0;
        assert(b[k].id@ == id);
        assert forall|j: int| 0 <= j < k implies b[j].id@ != id by {
            assert(a[j].id@ == b[j].id@);
        }
        lemma_first_with_id_char(b, id, k);
    } else if first_with_id(b, id) is Some {
        let k = first_with_id(b, id)->Some_0;
        assert(a[k].id@ == id);
    }
}

pub proof fn lemma_write_same_ids(s: Seq<TextElem>, id: Seq<char>, t: String)
    ensures
        same_ids(s, write_spec(s, id, t)),
{
    lemma_first_with_id(s, id);
}

/// Writing text `t` to a slot and reading it back gives `t`; the slot keeps
/// its identifier and its attributes.
pub proof fn lemma_write_then_read(s: Seq<TextElem>, id: Seq<char>, t: String)
    requires
        first_with_id(s, id) is Some,
    ensures
        text_of_id(write_spec(s, id, t), id) == Some(t@),
        first_with_id(write_spec(s, id, t), id) == first_with_id(s, id),
        attr_of_id(write_spec(s, id, t), id) == attr_of_id(s, id),
        same_ids(s, write_spec(s, id, t)),
{
    lemma_write_same_ids(s, id, t);
    lemma_same_ids_first(s, write_spec(s, id, t), id);
    lemma_first_with_id(s, id);
    let k = first_with_id(s, id)->Some_0;
    let w = write_spec(s, id, t);
    assert(w[k] == TextElem { text: t, ..s[k] });
}

/// Writing text never changes any element's attributes.
pub proof fn lemma_write_keeps_attrs(s: Seq<TextElem>, id: Seq<char>, t: String, other: Seq<char>)
    ensures
        attr_of_id(write_spec(s, id, t), other) == attr_of_id(s, other),
{
    lemma_write_same_ids(s, id, t);
    lemma_same_ids_first(s, write_spec(s, id, t), other);
    lemma_first_with_id(s, id);
    lemma_first_with_id(s, other);
    let w = write_spec(s, id, t);
    if first_with_id(s, other) is Some {
        let m = first_with_id(s, other)->Some_0;
        assert(w[m].attr == s[m].attr);
    }
}

/// A slot centred before a write stays centred after two writes to it,
/// and holds the second text.
pub proof fn lemma_centering_survives_writes(s: Seq<TextElem>, id: Seq<char>, t1: String, t2: String)
    requires
        centered(s, id),
    ensures
        centered(write_spec(write_spec(s, id, t1), id, t2), id),
        text_of_id(write_spec(write_spec(s, id, t1), id, t2), id) == Some(t2@),
{
    lemma_write_keeps_attrs(s, id, t1, id);
    let s1 = write_spec(s, id, t1);
    lemma_write_keeps_attrs(s1, id, t2, id);
    lemma_write_then_read(s, id, t1);
    lemma_write_then_read(s1, id, t2);
}

/// The slot identifiers of a key set: header, luck level, then categories.
pub open spec fn slot_ids_of(k: SvgKeys) -> Seq<Seq<char>> {
    seq![k.header_key@, k.luck_level_key@] + k.cat_to_fortune_keys@.map_values(|p: (String, String)| p.1@)
}

/// Every slot of the key set names a text element.
pub open spec fn slots_present(s: Seq<TextElem>, k: SvgKeys) -> bool {
    forall|j: int| 0 <= j < slot_ids_of(k).len() ==> first_with_id(s, #[trigger] slot_ids_of(k)[j]) is Some
}

/// `id` is a slot of one of the key sets.
pub open spec fn is_slot_of(keys: Seq<SvgKeys>, id: Seq<char>) -> bool {
    exists|q: int| 0 <= q < keys.len() && slot_ids_of(keys[q]).contains(id)
}

/// The two lists hold the same texts in the same places.
pub open spec fn same_texts(a: Seq<TextElem>, b: Seq<TextElem>) -> bool {
    a.len() == b.len() && forall|j: int| 0 <= j < a.len() ==> (#[trigger] a[j]).text == b[j].text
}

pub proof fn lemma_slots_present_same_ids(a: Seq<TextElem>, b: Seq<TextElem>, k: SvgKeys)
    requires
        same_ids(a, b),
        slots_present(a, k),
    ensures
        slots_present(b, k),
{
    assert forall|j: int| 0 <= j < slot_ids_of(k).len() implies first_with_id(b, #[trigger] slot_ids_of(k)[j]) is Some by {
        lemma_same_ids_first(a, b, slot_ids_of(k)[j]);
    }
}

pub proof fn lemma_marked_same_texts(a: Seq<TextElem>, b: Seq<TextElem>, id: Seq<char>)
    requires
        same_ids(a, b),
        same_texts(a, b),
    ensures
        marked(a, id) == marked(b, id),
        text_of_id(a, id) == text_of_id(b, id),
{
    lemma_same_ids_first(a, b, id);
    lemma_first_with_id(a, id);
}

/// Writes `fortune` as the text of the element with identifier `elem_id`.
pub fn write_to_elem(svg_editor: &mut SvgEditor, elem_id: &String, fortune: &String) -> (r: Result<(), IndexError>)
    requires
        old(svg_editor).wf(),
    ensures
        final(svg_editor).wf(),
        final(svg_editor).positions == old(svg_editor).positions,
        r.is_ok() == (first_with_id(old(svg_editor).elems(), elem_id@) is Some),
        r is Ok ==> final(svg_editor).elems() == write_spec(old(svg_editor).elems(), elem_id@, *fortune),
        r is Ok ==> final(svg_editor).xml_tree.nodes@.len() == old(svg_editor).xml_tree.nodes@.len(),
        r is Ok ==> text_of_id(final(svg_editor).elems(), elem_id@) == Some(fortune@),
        r is Ok ==> same_ids(old(svg_editor).elems(), final(svg_editor).elems()),
        forall|other: Seq<char>| #[trigger] attr_of_id(final(svg_editor).elems(), other) == attr_of_id(old(svg_editor).elems(), other),
        r is Err ==> *final(svg_editor) == *old(svg_editor),
{
    let r = svg_editor.set_text_by_id(elem_id, fortune.clone());
    proof {
        if r is Ok {
            lemma_write_then_read(old(svg_editor).elems(), elem_id@, *fortune);
            assert forall|other: Seq<char>| #[trigger] attr_of_id(svg_editor.elems(), other) == attr_of_id(old(svg_editor).elems(), other) by {
                lemma_write_keeps_attrs(old(svg_editor).elems(), elem_id@, *fortune, other);
            }
        }
    }
    r
}

/// Centres the element with identifier `id` when its placeholder asks for
/// it; texts, identifiers and every other element stay.
pub fn center_elem_if_marked(svg_editor: &mut SvgEditor, id: &String)
    requires
        old(svg_editor).wf(),
        first_with_id(old(svg_editor).elems(), id@) is Some,
    ensures
        final(svg_editor).wf(),
        final(svg_editor).positions == old(svg_editor).positions,
        same_ids(old(svg_editor).elems(), final(svg_editor).elems()),
        same_texts(old(svg_editor).elems(), final(svg_editor).elems()),
        final(svg_editor).xml_tree.nodes@.len() == old(svg_editor).xml_tree.nodes@.len(),
        marked(old(svg_editor).elems(), id@) ==> centered(final(svg_editor).elems(), id@),
        forall|other: Seq<char>| other != id@ ==> #[trigger] attr_of_id(final(svg_editor).elems(), other) == attr_of_id(old(svg_editor).elems(), other),
        !marked(old(svg_editor).elems(), id@) ==> final(svg_editor).elems() == old(svg_editor).elems(),
{
    let ghost s0 = svg_editor.elems();
    proof {
        lemma_first_with_id(s0, id@);
    }
    let is_marked = match svg_editor.get_elem_with_id(id) {
        Ok(e) => str_contains(e.text.as_str(), "[center]"),
        Err(_) => false,
    };
    if !is_marked {
        return;
    }
    let ghost k = first_with_id(s0, id@)->Some_0;
    let r1 = svg_editor.set_attr_by_id(id, String::from_str("x"), String::from_str("50%"));
    let ghost s1 = svg_editor.elems();
    proof {
        assert(same_ids(s0, s1));
        lemma_same_ids_first(s0, s1, id@);
    }
    let r2 = svg_editor.set_attr_by_id(id, String::from_str("text-anchor"), String::from_str("middle"));
    proof {
        let s2 = svg_editor.elems();
        assert(same_ids(s1, s2));
        lemma_same_ids_first(s1, s2, id@);
        assert(same_ids(s0, s2));
        assert(same_texts(s0, s2));
        assert forall|other: Seq<char>| other != id@ implies #[trigger] attr_of_id(s2, other) == attr_of_id(s0, other) by {
            lemma_same_ids_first(s0, s2, other);
            lemma_first_with_id(s0, other);
            if first_with_id(s0, other) is Some {
                let m = first_with_id(s0, other)->Some_0;
                assert(m != k);
            }
        }
        reveal_strlit("x");
        reveal_strlit("text-anchor");
        assert("x"@ != "text-anchor"@) by {
            assert("x"@.len() != "text-anchor"@.len());
        }
    }
}

/// What centring the first `j` slots of `ids` guarantees, measured against
/// the elements `s0` before any centring.
pub open spec fn centered_prefix(s0: Seq<TextElem>, cur: Seq<TextElem>, ids: Seq<Seq<char>>, j: int) -> bool {
    &&& same_ids(s0, cur)
    &&& same_texts(s0, cur)
    &&& forall|q: int| 0 <= q < j && marked(s0, #[trigger] ids[q]) ==> centered(cur, ids[q])
    &&& forall|other: Seq<char>| !(ids.subrange(0, j).contains(other) && marked(s0, other)) ==> #[trigger] attr_of_id(cur, other)
        == attr_of_id(s0, other)
}

/// Centres slot `j` of `ids`, extending what the first `j` slots guarantee.
fn center_step(svg_editor: &mut SvgEditor, id: &String, Ghost(s0): Ghost<Seq<TextElem>>, Ghost(ids): Ghost<Seq<Seq<char>>>, Ghost(j): Ghost<int>)
    requires
        old(svg_editor).wf(),
        0 <= j < ids.len(),
        id@ == ids[j],
        first_with_id(s0, id@) is Some,
        centered_prefix(s0, old(svg_editor).elems(), ids, j),
    ensures
        final(svg_editor).wf(),
        final(svg_editor).positions == old(svg_editor).positions,
        final(svg_editor).xml_tree.nodes@.len() == old(svg_editor).xml_tree.nodes@.len(),
        centered_prefix(s0, final(svg_editor).elems(), ids, j + 1),
{
    let ghost before = svg_editor.elems();
    proof {
        lemma_same_ids_first(s0, before, id@);
        lemma_marked_same_texts(s0, before, id@);
    }
    center_elem_if_marked(svg_editor, id);
    proof {
        let after = svg_editor.elems();
        assert forall|q: int| 0 <= q < j + 1 && marked(s0, #[trigger] ids[q]) implies centered(after, ids[q]) by {
            if ids[q] != id@ {
                assert(attr_of_id(after, ids[q]) == attr_of_id(before, ids[q]));
            }
        }
        assert forall|other: Seq<char>| !(ids.subrange(0, j + 1).contains(other) && marked(s0, other)) implies #[trigger] attr_of_id(
            after,
            other,
        ) == attr_of_id(s0, other) by {
            assert(ids.subrange(0, j + 1)[j] == ids[j]);
            if ids.subrange(0, j).contains(other) {
                let q = choose|q: int| 0 <= q < j && ids.subrange(0, j)[q] == other;
                assert(ids.subrange(0, j + 1)[q] == other);
            }
            if other == id@ {
                assert(ids.subrange(0, j + 1).contains(other));
                assert(!marked(s0, other));
                assert(!marked(before, other));
                assert(after == before);
            } else {
                assert(attr_of_id(after, other) == attr_of_id(before, other));
            }
        }
    }
}

/// Centres every slot of a slip whose placeholder asks for it.
pub fn center_relevant_elems_single_slip(svg_editor: &mut SvgEditor, svg_keys_slip: &SvgKeys)
    requires
        old(svg_editor).wf(),
        slots_present(old(svg_editor).elems(), *svg_keys_slip),
    ensures
        final(svg_editor).wf(),
        final(svg_editor).positions == old(svg_editor).positions,
        final(svg_editor).xml_tree.nodes@.len() == old(svg_editor).xml_tree.nodes@.len(),
        centered_prefix(
            old(svg_editor).elems(),
            final(svg_editor).elems(),
            slot_ids_of(*svg_keys_slip),
            slot_ids_of(*svg_keys_slip).len() as int,
        ),
{
    let ghost s0 = svg_editor.elems();
    let ghost ids = slot_ids_of(*svg_keys_slip);
    assert(ids.subrange(0, 0) =~= Seq::<Seq<char>>::empty());
    assert(first_with_id(s0, ids[0]) is Some);
    assert(first_with_id(s0, ids[1]) is Some);
    center_step(svg_editor, &svg_keys_slip.header_key, Ghost(s0), Ghost(ids), Ghost(0));
    center_step(svg_editor, &svg_keys_slip.luck_level_key, Ghost(s0), Ghost(ids), Ghost(1));
    let n = svg_keys_slip.cat_to_fortune_keys.len();
    let mut k: usize = 0;
    while k < n
        invariant
            svg_editor.wf(),
            svg_editor.positions == old(svg_editor).positions,
            svg_editor.xml_tree.nodes@.len() == old(svg_editor).xml_tree.nodes@.len(),
            s0 == old(svg_editor).elems(),
            ids == slot_ids_of(*svg_keys_slip),
            ids.len() == n + 2,
            slots_present(s0, *svg_keys_slip),
            k <= n,
            centered_prefix(s0, svg_editor.elems(), ids, k + 2),
        decreases n - k,
    {
        let id = &svg_keys_slip.cat_to_fortune_keys[k].1;
        assert(ids[k + 2] == id@);
        assert(first_with_id(s0, ids[k + 2]) is Some);
        center_step(svg_editor, id, Ghost(s0), Ghost(ids), Ghost(k + 2));
        k = k + 1;
    }
}

/// The slots of a key set read from slip `i` of a page all name elements
/// of the page.
pub proof fn lemma_keys_present(elems: Seq<TextElem>, k: SvgKeys, i: int, cats: Seq<Seq<char>>)
    requires
        0 <= i < NR_SLIPS_PER_PAGE,
        elems.len() as int % (NR_SLIPS_PER_PAGE as int) == 0,
        k.wf(),
        k@ == fold_keys(slip_chunk(elems, i)),
        crate::svg_keys::keys_complete(k@, cats),
    ensures
        slots_present(elems, k),
{
    let chunk = slip_chunk(elems, i);
    let size = elems.len() as int / (NR_SLIPS_PER_PAGE as int);
    assert(0 <= i * size && (i + 1) * size <= elems.len() && (i + 1) * size == i * size + size) by (nonlinear_arith)
        requires
            0 <= i < 4,
            size == elems.len() as int / 4,
            elems.len() as int % 4 == 0,
    ;
    crate::svg_keys::lemma_fold_ids(chunk);
    assert(chunk.len() == size);
    let ids = slot_ids_of(k);
    assert forall|j: int| 0 <= j < ids.len() implies first_with_id(elems, #[trigger] ids[j]) is Some by {
        lemma_first_with_id(elems, ids[j]);
        let w: int = if j == 0 {
            choose|m: int| 0 <= m < chunk.len() && (#[trigger] chunk[m]).id@ == k@.header
        } else if j == 1 {
            choose|m: int| 0 <= m < chunk.len() && (#[trigger] chunk[m]).id@ == k@.luck_level
        } else {
            let p = k.cat_to_fortune_keys@[j - 2];
            crate::assoc::lemma_pairs_map_value(k.cat_to_fortune_keys@, j - 2);
            assert(k@.cats.contains_key(p.0@));
            choose|m: int| 0 <= m < chunk.len() && (#[trigger] chunk[m]).id == k@.cats[p.0@]
        };
        assert(chunk[w] == elems[i * size + w]);
        assert(elems[i * size + w].id@ == ids[j]);
    }
}

/// Centres every slot of every slip whose placeholder asks for it.
pub fn center_relevant_elems(svg_editor: &mut SvgEditor, svg_keys_all_slip: &Vec<SvgKeys>)
    requires
        old(svg_editor).wf(),
        forall|i: int| 0 <= i < svg_keys_all_slip@.len() ==> slots_present(old(svg_editor).elems(), #[trigger] svg_keys_all_slip@[i]),
    ensures
        final(svg_editor).wf(),
        final(svg_editor).positions == old(svg_editor).positions,
        final(svg_editor).xml_tree.nodes@.len() == old(svg_editor).xml_tree.nodes@.len(),
        same_ids(old(svg_editor).elems(), final(svg_editor).elems()),
        same_texts(old(svg_editor).elems(), final(svg_editor).elems()),
        forall|i: int, j: int|
            0 <= i < svg_keys_all_slip@.len() && 0 <= j < slot_ids_of(svg_keys_all_slip@[i]).len() && marked(
                old(svg_editor).elems(),
                #[trigger] slot_ids_of(svg_keys_all_slip@[i])[j],
            ) ==> centered(final(svg_editor).elems(), slot_ids_of(svg_keys_all_slip@[i])[j]),
        forall|other: Seq<char>|
            !(is_slot_of(svg_keys_all_slip@, other) && marked(old(svg_editor).elems(), other)) ==> #[trigger] attr_of_id(
                final(svg_editor).elems(),
                other,
            ) == attr_of_id(old(svg_editor).elems(), other),
{
    let ghost s0 = svg_editor.elems();
    let mut i: usize = 0;
    while i < svg_keys_all_slip.len()
        invariant
            svg_editor.wf(),
            svg_editor.positions == old(svg_editor).positions,
            svg_editor.xml_tree.nodes@.len() == old(svg_editor).xml_tree.nodes@.len(),
            s0 == old(svg_editor).elems(),
            forall|q: int| 0 <= q < svg_keys_all_slip@.len() ==> slots_present(s0, #[trigger] svg_keys_all_slip@[q]),
            i <= svg_keys_all_slip@.len(),
            same_ids(s0, svg_editor.elems()),
            same_texts(s0, svg_editor.elems()),
            forall|q: int, j: int|
                0 <= q < i && 0 <= j < slot_ids_of(svg_keys_all_slip@[q]).len() && marked(s0, #[trigger] slot_ids_of(svg_keys_all_slip@[q])[j])
                    ==> centered(svg_editor.elems(), slot_ids_of(svg_keys_all_slip@[q])[j]),
            forall|other: Seq<char>|
                !(is_slot_of(svg_keys_all_slip@.subrange(0, i as int), other) && marked(s0, other)) ==> #[trigger] attr_of_id(
                    svg_editor.elems(),
                    other,
                ) == attr_of_id(s0, other),
        decreases svg_keys_all_slip@.len() - i,
    {
        let ghost before = svg_editor.elems();
        proof {
            lemma_slots_present_same_ids(s0, before, svg_keys_all_slip@[i as int]);
        }
        center_relevant_elems_single_slip(svg_editor, &svg_keys_all_slip[i]);
        proof {
            let after = svg_editor.elems();
            let ids = slot_ids_of(svg_keys_all_slip@[i as int]);
            assert(ids.subrange(0, ids.len() as int) =~= ids);
            assert forall|q: int, j: int|
                0 <= q < i + 1 && 0 <= j < slot_ids_of(svg_keys_all_slip@[q]).len() && marked(s0, #[trigger] slot_ids_of(svg_keys_all_slip@[q])[j])
                    implies centered(after, slot_ids_of(svg_keys_all_slip@[q])[j]) by {
                let x = slot_ids_of(svg_keys_all_slip@[q])[j];
                lemma_marked_same_texts(s0, before, x);
                if ids.contains(x) {
                    let m = choose|m: int| 0 <= m < ids.len() && ids[m] == x;
                    assert(marked(before, ids[m]));
                } else {
                    assert(attr_of_id(after, x) == attr_of_id(before, x));
                }
            }
            assert(same_ids(s0, after));
            assert(same_texts(s0, after));
            let pre = svg_keys_all_slip@.subrange(0, i as int);
            let pre1 = svg_keys_all_slip@.subrange(0, i + 1);
            assert forall|other: Seq<char>| !(is_slot_of(pre1, other) && marked(s0, other)) implies #[trigger] attr_of_id(after, other)
                == attr_of_id(s0, other) by {
                lemma_marked_same_texts(s0, before, other);
                if is_slot_of(pre, other) {
                    let q = choose|q: int| 0 <= q < pre.len() && slot_ids_of(pre[q]).contains(other);
                    assert(pre1[q] == pre[q]);
                }
                if ids.contains(other) {
                    assert(pre1[i as int] == svg_keys_all_slip@[i as int]);
                }
                assert(attr_of_id(after, other) == attr_of_id(before, other));
            }
        }
        i = i + 1;
    }
    assert(svg_keys_all_slip@.subrange(0, svg_keys_all_slip@.len() as int) =~= svg_keys_all_slip@);
}

impl FortuneSlipWriter {
    /// The editor is consistent, there is one key set per slip, and every
    /// slot names an element.
    pub open spec fn wf(&self) -> bool {
        &&& self.svg_editor.wf()
        &&& self.svg_keys_all_slips@.len() == NR_SLIPS_PER_PAGE
        &&& forall|i: int|
            0 <= i < self.svg_keys_all_slips@.len() ==> {
                &&& (#[trigger] self.svg_keys_all_slips@[i]).wf()
                &&& slots_present(self.svg_editor.elems(), self.svg_keys_all_slips@[i])
            }
    }

    /// Resolves the slots of the template page and centres the slots whose
    /// placeholder asks for it.
    pub fn new(svg_editor: SvgEditor, fortune_categories: &Vec<String>) -> (r: Result<FortuneSlipWriter, SlipWriterError>)
        requires
            svg_editor.wf(),
        ensures
            r.is_ok() == page_valid(svg_editor.elems(), strings_view(fortune_categories@)),
            r is Err ==> r->Err_0 is Template,
            r is Ok ==> {
                let w = r->Ok_0;
                &&& w.wf()
                &&& forall|i: int| 0 <= i < NR_SLIPS_PER_PAGE ==> (#[trigger] w.svg_keys_all_slips@[i])@ == fold_keys(slip_chunk(svg_editor.elems(), i))
                &&& same_ids(svg_editor.elems(), w.svg_editor.elems())
                &&& same_texts(svg_editor.elems(), w.svg_editor.elems())
                &&& forall|i: int, j: int|
                    0 <= i < NR_SLIPS_PER_PAGE && 0 <= j < slot_ids_of(w.svg_keys_all_slips@[i]).len() && marked(
                        svg_editor.elems(),
                        #[trigger] slot_ids_of(w.svg_keys_all_slips@[i])[j],
                    ) ==> centered(w.svg_editor.elems(), slot_ids_of(w.svg_keys_all_slips@[i])[j])
                &&& forall|other: Seq<char>|
                    !(is_slot_of(w.svg_keys_all_slips@, other) && marked(svg_editor.elems(), other)) ==> #[trigger] attr_of_id(
                        w.svg_editor.elems(),
                        other,
                    ) == attr_of_id(svg_editor.elems(), other)
            },
    {
        let mut svg_editor = svg_editor;
        let ghost s0 = svg_editor.elems();
        let svg_keys = match retrieve_svg_keys(&svg_editor.text_elems_ordered, fortune_categories) {
            Ok(k) => k,
            Err(e) => {
                return Err(SlipWriterError::Template(e));
            },
        };
        proof {
            assert forall|i: int| 0 <= i < svg_keys@.len() implies slots_present(s0, #[trigger] svg_keys@[i]) by {
                lemma_keys_present(s0, svg_keys@[i], i, strings_view(fortune_categories@));
            }
        }
        center_relevant_elems(&mut svg_editor, &svg_keys);
        proof {
            assert forall|i: int| 0 <= i < svg_keys@.len() implies slots_present(svg_editor.elems(), #[trigger] svg_keys@[i]) by {
                lemma_slots_present_same_ids(s0, svg_editor.elems(), svg_keys@[i]);
            }
        }
        Ok(FortuneSlipWriter { svg_editor, svg_keys_all_slips: svg_keys })
    }

    /// The text elements of the page.
    pub open spec fn elems(&self) -> Seq<TextElem> {
        self.svg_editor.elems()
    }

    /// The number of nodes of the page's tree.
    pub open spec fn tree_len(&self) -> int {
        self.svg_editor.xml_tree.nodes@.len() as int
    }

    /// Writes slip content `fortune_text` into the slots of slip `idx`:
    /// header, luck level, then each category slot.
    pub fn write_to_slip(&mut self, idx: usize, fortune_text: &FortuneSlipTextRef) -> (r: Result<(), SlipWriterError>)
        requires
            old(self).wf(),
            fortune_text.wf(),
        ensures
            final(self).wf(),
            final(self).svg_keys_all_slips == old(self).svg_keys_all_slips,
            r.is_ok() == (idx < NR_SLIPS_PER_PAGE && covers(old(self).svg_keys_all_slips@[idx as int], *fortune_text)),
            r is Ok ==> final(self).elems() == apply_writes(
                old(self).elems(),
                slip_writes(old(self).svg_keys_all_slips@[idx as int], *fortune_text),
            ),
            final(self).tree_len() == old(self).tree_len(),
            idx >= NR_SLIPS_PER_PAGE ==> r is Err && r->Err_0 is OutOfRange && *final(self) == *old(self),
    {
        if idx >= self.svg_keys_all_slips.len() {
            return Err(SlipWriterError::OutOfRange { idx });
        }
        let ghost s0 = self.elems();
        let ghost k = self.svg_keys_all_slips@[idx as int];
        let ghost ws = slip_writes(k, *fortune_text);
        let ghost len0 = self.tree_len();
        assert(ws.subrange(0, 0) =~= Seq::<(Seq<char>, String)>::empty());
        proof {
            assert(slot_ids_of(k)[0] == k.header_key@);
            assert(slot_ids_of(k)[1] == k.luck_level_key@);
            assert(ws[0] == (k.header_key@, fortune_text.header));
            assert(ws[1] == (k.luck_level_key@, fortune_text.luck_level));
            assert(slots_present(s0, self.svg_keys_all_slips@[idx as int]));
            assert(first_with_id(s0, slot_ids_of(k)[0]) is Some);
            assert(ws.len() >= 2);
        }
        match write_to_elem(&mut self.svg_editor, &self.svg_keys_all_slips[idx].header_key, &fortune_text.header) {
            Ok(()) => {},
            Err(e) => {
                return Err(SlipWriterError::Index(e));
            },
        }
        proof {
            assert(ws.subrange(0, 1).drop_last() =~= ws.subrange(0, 0));
            assert(ws.subrange(0, 1).last() == ws[0]);
            lemma_write_same_ids(s0, k.header_key@, fortune_text.header);
            assert forall|q: int| 0 <= q < self.svg_keys_all_slips@.len() implies slots_present(self.elems(), #[trigger] self.svg_keys_all_slips@[q]) by {
                lemma_slots_present_same_ids(s0, self.elems(), self.svg_keys_all_slips@[q]);
            }
        }
        let ghost s1 = self.elems();
        proof {
            assert(slots_present(s1, self.svg_keys_all_slips@[idx as int]));
            assert(first_with_id(s1, slot_ids_of(k)[1]) is Some);
        }
        match write_to_elem(&mut self.svg_editor, &self.svg_keys_all_slips[idx].luck_level_key, &fortune_text.luck_level) {
            Ok(()) => {},
            Err(e) => {
                return Err(SlipWriterError::Index(e));
            },
        }
        proof {
            assert(ws.subrange(0, 2).drop_last() =~= ws.subrange(0, 1));
            assert(ws.subrange(0, 2).last() == ws[1]);
            lemma_write_same_ids(s1, k.luck_level_key@, fortune_text.luck_level);
            assert forall|q: int| 0 <= q < self.svg_keys_all_slips@.len() implies slots_present(self.elems(), #[trigger] self.svg_keys_all_slips@[q]) by {
                lemma_slots_present_same_ids(s1, self.elems(), self.svg_keys_all_slips@[q]);
            }
        }
        let n = self.svg_keys_all_slips[idx].cat_to_fortune_keys.len();
        proof {
            let s1w = write_spec(s0, ws[0].0, ws[0].1);
            assert(apply_writes(s0, ws.subrange(0, 1)) == write_spec(apply_writes(s0, ws.subrange(0, 0)), ws[0].0, ws[0].1));
            assert(apply_writes(s0, ws.subrange(0, 2)) == write_spec(apply_writes(s0, ws.subrange(0, 1)), ws[1].0, ws[1].1));
        }
        let mut j: usize = 0;
        while j < n
            invariant
                self.wf(),
                self.svg_keys_all_slips == old(self).svg_keys_all_slips,
                idx < NR_SLIPS_PER_PAGE,
                k == self.svg_keys_all_slips@[idx as int],
                n == k.cat_to_fortune_keys@.len(),
                ws == slip_writes(k, *fortune_text),
                ws.len() == n + 2,
                fortune_text.wf(),
                j <= n,
                self.elems() == apply_writes(s0, ws.subrange(0, j + 2)),
                len0 == old(self).tree_len(),
                s0 == old(self).elems(),
                self.tree_len() == len0,
                forall|q: int| 0 <= q < self.svg_keys_all_slips@.len() ==> slots_present(self.elems(), #[trigger] self.svg_keys_all_slips@[q]),
                forall|q: int| 0 <= q < j ==> pairs_map(fortune_text.category_to_fortune@).contains_key(
                    (#[trigger] k.cat_to_fortune_keys@[q]).0@,
                ),
            decreases n - j,
        {
            let category = &self.svg_keys_all_slips[idx].cat_to_fortune_keys[j].0;
            let pos = match assoc_find(&fortune_text.category_to_fortune, category) {
                Some(p) => p,
                None => {
                    assert(!pairs_map(fortune_text.category_to_fortune@).contains_key(k.cat_to_fortune_keys@[j as int].0@));
                    return Err(SlipWriterError::MissingCategoryText { category: category.clone() });
                },
            };
            let ghost before = self.elems();
            proof {
                assert(slot_ids_of(k)[j + 2] == k.cat_to_fortune_keys@[j as int].1@);
                assert(ws[j + 2] == (k.cat_to_fortune_keys@[j as int].1@, fortune_text.category_to_fortune@[pos as int].1));
                assert(slots_present(self.elems(), self.svg_keys_all_slips@[idx as int]));
                assert(first_with_id(self.elems(), slot_ids_of(k)[j + 2]) is Some);
            }
            match write_to_elem(
                &mut self.svg_editor,
                &self.svg_keys_all_slips[idx].cat_to_fortune_keys[j].1,
                &fortune_text.category_to_fortune[pos].1,
            ) {
                Ok(()) => {},
                Err(e) => {
                        return Err(SlipWriterError::Index(e));
                },
            }
            proof {
                let p = ws.subrange(0, j + 3);
                assert(p.drop_last() =~= ws.subrange(0, j + 2));
                assert(p.last() == ws[j + 2]);
                lemma_write_same_ids(before, k.cat_to_fortune_keys@[j as int].1@, fortune_text.category_to_fortune@[pos as int].1);
                assert forall|q: int| 0 <= q < self.svg_keys_all_slips@.len() implies slots_present(self.elems(), #[trigger] self.svg_keys_all_slips@[q]) by {
                    lemma_slots_present_same_ids(before, self.elems(), self.svg_keys_all_slips@[q]);
                }
            }
            j = j + 1;
        }
        assert(ws.subrange(0, n + 2) =~= ws);
        Ok(())
    }

    /// Writes the slip contents of one page, slip `i` into the slots of
    /// slip `i`. Fails before writing anything when there are more contents
    /// than slips on a page.
    pub fn write_page(&mut self, fortune_texts: &Vec<FortuneSlipTextRef>) -> (r: Result<(), SlipWriterError>)
        requires
            old(self).wf(),
            forall|i: int| 0 <= i < fortune_texts@.len() ==> (#[trigger] fortune_texts@[i]).wf(),
        ensures
            final(self).wf(),
            final(self).svg_keys_all_slips == old(self).svg_keys_all_slips,
            r.is_ok() == (fortune_texts@.len() <= NR_SLIPS_PER_PAGE && (forall|i: int|
                0 <= i < fortune_texts@.len() ==> covers(old(self).svg_keys_all_slips@[i], #[trigger] fortune_texts@[i]))),
            r is Ok ==> final(self).elems() == page_applied(
                old(self).elems(),
                old(self).svg_keys_all_slips@,
                fortune_texts@,
                fortune_texts@.len() as int,
            ),
            fortune_texts@.len() > NR_SLIPS_PER_PAGE ==> r is Err && r->Err_0 is OutOfRange && *final(self) == *old(self),
    {
        if fortune_texts.len() > self.svg_keys_all_slips.len() {
            return Err(SlipWriterError::OutOfRange { idx: self.svg_keys_all_slips.len() });
        }
        let ghost s0 = self.elems();
        let ghost keys = self.svg_keys_all_slips@;
        let ghost len0 = self.tree_len();
        let mut i: usize = 0;
        while i < fortune_texts.len()
            invariant
                self.wf(),
                self.svg_keys_all_slips == old(self).svg_keys_all_slips,
                keys == self.svg_keys_all_slips@,
                fortune_texts@.len() <= NR_SLIPS_PER_PAGE,
                forall|q: int| 0 <= q < fortune_texts@.len() ==> (#[trigger] fortune_texts@[q]).wf(),
                i <= fortune_texts@.len(),
                self.elems() == page_applied(s0, keys, fortune_texts@, i as int),
                len0 == old(self).tree_len(),
                s0 == old(self).elems(),
                self.tree_len() == len0,
                forall|q: int| 0 <= q < i ==> covers(keys[q], #[trigger] fortune_texts@[q]),
            decreases fortune_texts@.len() - i,
        {
            let r = self.write_to_slip(i, &fortune_texts[i]);
            match r {
                Ok(()) => {},
                Err(e) => {
                    return Err(e);
                },
            }
            i = i + 1;
        }
        Ok(())
    }
}

} // verus!
