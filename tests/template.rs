use fortune_generator::fortune_slip_writer::{FortuneSlipWriter, SlipWriterError};
use fortune_generator::fortune_splitter::FortuneSlipTextRef;
use fortune_generator::markup::{MarkupElement, MarkupNode, MarkupTree, ReplaceError};
use fortune_generator::svg_keys::{retrieve_svg_keys, TemplateError, NR_SLIPS_PER_PAGE};
use fortune_generator::text_index::{IndexError, SvgEditor, TextElem};

fn s(x: &str) -> String {
    x.to_string()
}

fn element(name: &str, attributes: Vec<(String, String)>, children: Vec<usize>) -> MarkupNode {
    MarkupNode::Element(MarkupElement {
        prefix: None,
        namespace: None,
        namespaces: None,
        name: s(name),
        attributes,
        children,
    })
}

/// A tree whose root holds one `text` element per entry, each with a
/// `tspan` child holding the placeholder.
fn tree(entries: &[(&str, &str)]) -> MarkupTree {
    let mut nodes = vec![element("svg", vec![], vec![])];
    let mut root_children = vec![];
    for (id, text) in entries {
        let e = nodes.len();
        root_children.push(e);
        nodes.push(element("text", vec![(s("id"), s(id)), (s("fill"), s("black"))], vec![e + 1]));
        nodes.push(element("tspan", vec![(s("id"), format!("{}_span", id))], vec![e + 2]));
        nodes.push(MarkupNode::Text(s(text)));
    }
    nodes[0] = element("svg", vec![], root_children);
    MarkupTree { nodes }
}

fn template_entries() -> Vec<(String, String)> {
    let mut v = vec![];
    for slip in 0..NR_SLIPS_PER_PAGE {
        v.push((format!("h{}", slip), s("[center]header_text")));
        v.push((format!("l{}", slip), s("luck_level_text")));
        v.push((format!("g{}", slip), s("general_fortune")));
        v.push((format!("e{}", slip), s("health_fortune")));
        v.push((format!("o{}", slip), s("love_fortune[center]")));
        v.push((format!("d{}", slip), s("decoration")));
    }
    v
}

fn template_tree() -> MarkupTree {
    let e = template_entries();
    let refs: Vec<(&str, &str)> = e.iter().map(|(a, b)| (a.as_str(), b.as_str())).collect();
    tree(&refs)
}

fn categories() -> Vec<String> {
    vec![s("general"), s("health"), s("love")]
}

fn editor() -> SvgEditor {
    SvgEditor::open(template_tree()).ok().unwrap()
}

fn writer() -> FortuneSlipWriter {
    FortuneSlipWriter::new(editor(), &categories()).ok().unwrap()
}

fn content() -> FortuneSlipTextRef {
    FortuneSlipTextRef {
        header: s("header_text"),
        luck_level: s("luck_level_text"),
        category_to_fortune: vec![
            (s("general"), s("general_fortune_text")),
            (s("health"), s("health_fortune_text")),
            (s("love"), s("love_fortune_text")),
        ],
    }
}

fn text_of(w: &FortuneSlipWriter, id: &str) -> String {
    w.svg_editor.get_elem_with_id(&s(id)).ok().unwrap().text.clone()
}

fn attr_of(e: &TextElem, key: &str) -> Option<String> {
    e.attr.iter().find(|(k, _)| k == key).map(|(_, v)| v.clone())
}

fn tree_inner_text(w: &FortuneSlipWriter, id: &str) -> Option<String> {
    let k = w.svg_editor.text_elems_ordered.iter().position(|e| e.id == id).unwrap();
    w.svg_editor.xml_tree.get_inner_text(w.svg_editor.positions[k])
}

#[test]
fn test_get_inner_text() {
    let t = tree(&[("text1", "Mine turtle!")]);
    assert_eq!(t.get_inner_text(1).unwrap(), "Mine turtle!");
}

#[test]
fn test_set_inner_text() {
    let mut t = tree(&[("text1", "Mine turtle!")]);
    assert!(t.set_inner_text(1, s("new text")));
    assert_eq!(t.get_inner_text(1).unwrap(), "new text");
}

#[test]
fn inner_text_joins_text_and_character_data() {
    let nodes = vec![
        element("svg", vec![], vec![1]),
        element("text", vec![(s("id"), s("t"))], vec![2]),
        element("tspan", vec![], vec![3, 4, 5]),
        MarkupNode::Text(s("ab")),
        MarkupNode::Comment(s("skip")),
        MarkupNode::CData(s("cd")),
    ];
    let t = MarkupTree { nodes };
    assert_eq!(t.get_inner_text(1).unwrap(), "abcd");
    assert!(t.get_inner_text(0).is_none());
}

#[test]
fn find_by_id_and_tag() {
    let t = tree(&[("a", "x"), ("b", "y")]);
    assert_eq!(t.find_elem_with_id(0, &s("b")), Some(4));
    assert_eq!(t.find_elem_with_id(0, &s("b_span")), Some(5));
    assert_eq!(t.find_elem_with_id(0, &s("zz")), None);
    let mut found = vec![];
    t.collect_tagged(0, &s("text"), &mut found);
    assert_eq!(found, vec![1, 4]);
}

#[test]
fn text_index_lists_elements_in_order() {
    let ed = SvgEditor::open(tree(&[("text1", "Mine turtle!"), ("text2", "Second")])).ok().unwrap();
    let elems = ed.get_text_elems_map_ordered();
    assert_eq!(elems.len(), 2);
    assert_eq!(elems[0].id, "text1");
    assert_eq!(elems[0].text, "Mine turtle!");
    assert_eq!(attr_of(&elems[0], "fill").unwrap(), "black");
    assert_eq!(elems[1].text, "Second");
}

#[test]
fn text_index_update_writes_through() {
    let mut ed = SvgEditor::open(tree(&[("text1", "Mine turtle!")])).ok().unwrap();
    let old = &ed.get_text_elems_map_ordered()[0];
    let new_elem = TextElem {
        id: old.id.clone(),
        attr: vec![(s("id"), s("text1")), (s("fill"), s("red"))],
        text: s("I like trains"),
    };
    assert!(ed.update_text_elem_by_id(new_elem).is_ok());
    let e = ed.get_elem_with_id(&s("text1")).ok().unwrap();
    assert_eq!(attr_of(e, "fill").unwrap(), "red");
    assert_eq!(e.text, "I like trains");
    assert_eq!(ed.xml_tree.get_inner_text(ed.positions[0]).unwrap(), "I like trains");
}

#[test]
fn text_index_requires_identifier_and_text() {
    let nodes = vec![element("svg", vec![], vec![1]), element("text", vec![], vec![2]), MarkupNode::Text(s("x"))];
    assert!(matches!(SvgEditor::open(MarkupTree { nodes }), Err(IndexError::MissingIdentifier { .. })));
    let nodes = vec![
        element("svg", vec![], vec![1]),
        element("text", vec![(s("id"), s("t"))], vec![2]),
        MarkupNode::Text(s("x")),
    ];
    assert!(matches!(SvgEditor::open(MarkupTree { nodes }), Err(IndexError::MissingText { .. })));
    let ed = editor();
    assert!(matches!(ed.get_elem_with_id(&s("nope")), Err(IndexError::NotFound { .. })));
}

#[test]
fn resolves_one_key_set_per_slip() {
    let ed = editor();
    let keys = retrieve_svg_keys(ed.get_text_elems_map_ordered(), &categories()).ok().unwrap();
    assert_eq!(keys.len(), NR_SLIPS_PER_PAGE);
    for (i, k) in keys.iter().enumerate() {
        assert_eq!(k.header_key, format!("h{}", i));
        assert_eq!(k.luck_level_key, format!("l{}", i));
        assert_eq!(k.cat_to_fortune_keys.len(), 3);
        assert!(k.cat_to_fortune_keys.contains(&(s("general"), format!("g{}", i))));
        assert!(k.cat_to_fortune_keys.contains(&(s("health"), format!("e{}", i))));
        assert!(k.cat_to_fortune_keys.contains(&(s("love"), format!("o{}", i))));
    }
}

#[test]
fn unknown_tag_is_rejected() {
    let mut e = template_entries();
    e[8].1 = s("money_fortune");
    let refs: Vec<(&str, &str)> = e.iter().map(|(a, b)| (a.as_str(), b.as_str())).collect();
    let ed = SvgEditor::open(tree(&refs)).ok().unwrap();
    let r = retrieve_svg_keys(ed.get_text_elems_map_ordered(), &categories());
    assert!(matches!(r, Err(TemplateError::UnknownTag { slip: 1, ref text }) if text == "money_fortune"));
}

#[test]
fn missing_slots_are_rejected() {
    let mut e = template_entries();
    e[6].1 = s("decoration");
    let refs: Vec<(&str, &str)> = e.iter().map(|(a, b)| (a.as_str(), b.as_str())).collect();
    let ed = SvgEditor::open(tree(&refs)).ok().unwrap();
    let r = retrieve_svg_keys(ed.get_text_elems_map_ordered(), &categories());
    assert!(matches!(r, Err(TemplateError::MissingHeader { slip: 1 })));

    let mut e = template_entries();
    e[1].1 = s("decoration");
    let refs: Vec<(&str, &str)> = e.iter().map(|(a, b)| (a.as_str(), b.as_str())).collect();
    let ed = SvgEditor::open(tree(&refs)).ok().unwrap();
    let r = retrieve_svg_keys(ed.get_text_elems_map_ordered(), &categories());
    assert!(matches!(r, Err(TemplateError::MissingLuckLevel { slip: 0 })));

    let mut e = template_entries();
    e[22].1 = s("decoration");
    let refs: Vec<(&str, &str)> = e.iter().map(|(a, b)| (a.as_str(), b.as_str())).collect();
    let ed = SvgEditor::open(tree(&refs)).ok().unwrap();
    let r = retrieve_svg_keys(ed.get_text_elems_map_ordered(), &categories());
    assert!(matches!(r, Err(TemplateError::MissingCategory { slip: 3, ref category }) if category == "love"));
}

#[test]
fn uneven_template_is_rejected() {
    let ed = SvgEditor::open(tree(&[("a", "header"), ("b", "luck_level"), ("c", "x")])).ok().unwrap();
    let r = retrieve_svg_keys(ed.get_text_elems_map_ordered(), &categories());
    assert!(matches!(r, Err(TemplateError::UnevenElements { count: 3 })));
}

#[test]
fn test_nr_fortunes_per_slip() {
    let w = writer();
    assert_eq!(w.svg_keys_all_slips.len(), NR_SLIPS_PER_PAGE);
}

#[test]
fn test_write_slip() {
    let mut w = writer();
    assert!(w.write_to_slip(0, &content()).is_ok());
    assert_eq!(text_of(&w, "h0"), "header_text");
    assert_eq!(text_of(&w, "l0"), "luck_level_text");
    assert_eq!(text_of(&w, "g0"), "general_fortune_text");
    assert_eq!(text_of(&w, "e0"), "health_fortune_text");
    assert_eq!(text_of(&w, "o0"), "love_fortune_text");
    assert_eq!(text_of(&w, "h1"), "[center]header_text");
    assert_eq!(tree_inner_text(&w, "g0").unwrap(), "general_fortune_text");
    assert_eq!(tree_inner_text(&w, "g1").unwrap(), "general_fortune");
}

#[test]
fn test_write_page_3_slips_success() {
    let mut w = writer();
    let page = vec![content(), content(), content()];
    assert!(w.write_page(&page).is_ok());
    for i in 0..3 {
        assert_eq!(text_of(&w, &format!("g{}", i)), "general_fortune_text");
    }
    assert_eq!(text_of(&w, "g3"), "general_fortune");
}

#[test]
fn test_write_page_4_slips_success() {
    let mut w = writer();
    let page = vec![content(), content(), content(), content()];
    assert!(w.write_page(&page).is_ok());
    for i in 0..4 {
        assert_eq!(text_of(&w, &format!("o{}", i)), "love_fortune_text");
    }
}

#[test]
fn test_write_page_5_slips_error() {
    let mut w = writer();
    let page = vec![content(), content(), content(), content(), content()];
    assert!(matches!(w.write_page(&page), Err(SlipWriterError::OutOfRange { .. })));
    assert_eq!(text_of(&w, "g0"), "general_fortune");
    assert!(matches!(w.write_to_slip(4, &content()), Err(SlipWriterError::OutOfRange { idx: 4 })));
}

#[test]
fn test_write_slip_not_enough_categories() {
    let mut w = writer();
    let mut c = content();
    c.category_to_fortune.pop();
    assert!(matches!(w.write_to_slip(0, &c), Err(SlipWriterError::MissingCategoryText { ref category }) if category == "love"));
}

#[test]
fn test_write_slip_check_element_center() {
    let mut w = writer();
    let header = w.svg_editor.get_elem_with_id(&s("h0")).ok().unwrap();
    assert!(header.text.contains("[center]"));
    assert_eq!(attr_of(header, "x").unwrap(), "50%");
    assert_eq!(attr_of(header, "text-anchor").unwrap(), "middle");
    let luck = w.svg_editor.get_elem_with_id(&s("l0")).ok().unwrap();
    assert!(attr_of(luck, "text-anchor").is_none());

    assert!(w.write_to_slip(0, &content()).is_ok());
    let mut second = content();
    second.header = s("second header");
    assert!(w.write_to_slip(0, &second).is_ok());

    let header = w.svg_editor.get_elem_with_id(&s("h0")).ok().unwrap();
    assert!(!header.text.contains("[center]"));
    assert_eq!(header.text, "second header");
    assert_eq!(attr_of(header, "x").unwrap(), "50%");
    assert_eq!(attr_of(header, "text-anchor").unwrap(), "middle");
    let k = w.svg_editor.text_elems_ordered.iter().position(|e| e.id == "h0").unwrap();
    match &w.svg_editor.xml_tree.nodes[w.svg_editor.positions[k]] {
        MarkupNode::Element(e) => {
            assert!(e.attributes.contains(&(s("x"), s("50%"))));
            assert!(e.attributes.contains(&(s("id"), s("h0"))));
        },
        _ => panic!("not an element"),
    }
}

#[test]
fn round_trip_keeps_identifier() {
    let mut w = writer();
    assert!(w.write_to_slip(2, &content()).is_ok());
    let e = w.svg_editor.get_elem_with_id(&s("e2")).ok().unwrap();
    assert_eq!(e.id, "e2");
    assert_eq!(e.text, "health_fortune_text");
}

#[test]
fn test_replace_elem_expect_element_attr_changed() {
    let mut t = tree(&[("text1", "Mine turtle!")]);
    let new_tspan = MarkupElement {
        prefix: None,
        namespace: None,
        namespaces: None,
        name: s("tspan"),
        attributes: vec![(s("id"), s("text1_span")), (s("x"), s("69")), (s("y"), s("24"))],
        children: vec![3],
    };
    assert!(t.replace_elem_by_id(new_tspan).is_ok());
    let mut found = vec![];
    t.collect_tagged(0, &s("tspan"), &mut found);
    assert_eq!(found, vec![2]);
    match &t.nodes[2] {
        MarkupNode::Element(e) => {
            assert_eq!(e.name, "tspan");
            assert!(e.attributes.contains(&(s("x"), s("69"))));
            assert!(e.attributes.contains(&(s("y"), s("24"))));
        },
        _ => panic!("not an element"),
    }
    assert_eq!(t.get_inner_text(1).unwrap(), "Mine turtle!");
}

#[test]
fn replacing_an_unknown_identifier_fails() {
    let mut t = tree(&[("text1", "Mine turtle!")]);
    let e = MarkupElement {
        prefix: None,
        namespace: None,
        namespaces: None,
        name: s("tspan"),
        attributes: vec![(s("id"), s("nowhere"))],
        children: vec![],
    };
    assert!(matches!(t.replace_elem_by_id(e), Err(ReplaceError::NotFound)));
    let bad = MarkupElement {
        prefix: None,
        namespace: None,
        namespaces: None,
        name: s("text"),
        attributes: vec![(s("id"), s("text1"))],
        children: vec![0],
    };
    assert!(matches!(t.replace_elem_by_id(bad), Err(ReplaceError::Malformed)));
}

#[test]
fn nested_text_holder_is_rejected() {
    let nodes = vec![
        element("svg", vec![], vec![1]),
        element("text", vec![(s("id"), s("outer"))], vec![2]),
        element("text", vec![(s("id"), s("inner"))], vec![3, 4]),
        element("tspan", vec![], vec![5]),
        MarkupNode::Text(s("y")),
        MarkupNode::Text(s("x")),
    ];
    let r = SvgEditor::open(MarkupTree { nodes });
    assert!(matches!(r, Err(IndexError::MissingText { ref id }) if id == "outer"));
}

#[test]
fn writer_rejects_an_invalid_template() {
    let ed = SvgEditor::open(tree(&[("a", "header"), ("b", "luck_level")])).ok().unwrap();
    let r = FortuneSlipWriter::new(ed, &categories());
    assert!(matches!(r, Err(SlipWriterError::Template(TemplateError::UnevenElements { count: 2 }))));
}

#[test]
fn tree_well_formedness_is_checked() {
    assert!(template_tree().check_wf());
    let nodes = vec![element("svg", vec![], vec![0])];
    assert!(!MarkupTree { nodes }.check_wf());
    let nodes = vec![element("svg", vec![(s("id"), s("a")), (s("id"), s("b"))], vec![])];
    assert!(!MarkupTree { nodes }.check_wf());
    assert!(!MarkupTree { nodes: vec![MarkupNode::Text(s("x"))] }.check_wf());
}

#[test]
fn duplicate_tag_is_rejected() {
    let mut e = template_entries();
    e[10].1 = s("header_again");
    let refs: Vec<(&str, &str)> = e.iter().map(|(a, b)| (a.as_str(), b.as_str())).collect();
    let ed = SvgEditor::open(tree(&refs)).ok().unwrap();
    let r = retrieve_svg_keys(ed.get_text_elems_map_ordered(), &categories());
    assert!(matches!(r, Err(TemplateError::DuplicateTag { slip: 1, ref tag }) if tag == "header"));

    let mut e = template_entries();
    e[17].1 = s("general_second");
    let refs: Vec<(&str, &str)> = e.iter().map(|(a, b)| (a.as_str(), b.as_str())).collect();
    let ed = SvgEditor::open(tree(&refs)).ok().unwrap();
    let r = retrieve_svg_keys(ed.get_text_elems_map_ordered(), &categories());
    assert!(matches!(r, Err(TemplateError::DuplicateTag { slip: 2, ref tag }) if tag == "general"));
}

#[test]
fn tagged_elements_come_in_document_order() {
    let nodes = vec![
        element("svg", vec![], vec![1, 4]),
        element("g", vec![(s("id"), s("outer"))], vec![2]),
        element("g", vec![(s("id"), s("inner"))], vec![3]),
        MarkupNode::Text(s("x")),
        element("g", vec![(s("id"), s("last"))], vec![]),
    ];
    let t = MarkupTree { nodes };
    let mut found = vec![];
    t.collect_tagged(0, &s("g"), &mut found);
    assert_eq!(found, vec![1, 2, 4]);
}

#[test]
fn rewriting_a_page_keeps_the_tree_size() {
    let mut w = writer();
    let size = w.svg_editor.xml_tree.nodes.len();
    for _ in 0..3 {
        assert!(w.write_page(&vec![content(), content()]).is_ok());
    }
    assert_eq!(w.svg_editor.xml_tree.nodes.len(), size);
    assert_eq!(tree_inner_text(&w, "g1").unwrap(), "general_fortune_text");
}
