use fortune_generator::pdf_graph::{merge_documents, MergeError, ObjectId, PdfDocument, PdfObject};

fn name(x: &str) -> PdfObject {
    PdfObject::Name(x.as_bytes().to_vec())
}

fn key(x: &str) -> Vec<u8> {
    x.as_bytes().to_vec()
}

fn get<'a>(d: &'a [(Vec<u8>, PdfObject)], k: &str) -> Option<&'a PdfObject> {
    d.iter().find(|(x, _)| x == &key(k)).map(|(_, v)| v)
}

fn dict(o: &PdfObject) -> &Vec<(Vec<u8>, PdfObject)> {
    match o {
        PdfObject::Dictionary(d) => d,
        _ => panic!("not a dictionary"),
    }
}

/// A document of one page: catalog 1, page tree 2, page 3, content 4,
/// outline 5.
fn single_page_doc(content: &str) -> PdfDocument {
    let objects: Vec<(ObjectId, PdfObject)> = vec![
        ((1, 0), PdfObject::Dictionary(vec![
            (key("Type"), name("Catalog")),
            (key("Pages"), PdfObject::Reference((2, 0))),
            (key("Outlines"), PdfObject::Reference((5, 0))),
        ])),
        ((2, 0), PdfObject::Dictionary(vec![
            (key("Type"), name("Pages")),
            (key("Kids"), PdfObject::Array(vec![PdfObject::Reference((3, 0))])),
            (key("Count"), PdfObject::Integer(1)),
        ])),
        ((3, 0), PdfObject::Dictionary(vec![
            (key("Type"), name("Page")),
            (key("Parent"), PdfObject::Reference((2, 0))),
            (key("Contents"), PdfObject::Reference((4, 0))),
        ])),
        ((4, 0), PdfObject::Stream(vec![(key("Length"), PdfObject::Integer(content.len() as i64))], content.as_bytes().to_vec(), true)),
        ((5, 0), PdfObject::Dictionary(vec![(key("Type"), name("Outlines"))])),
    ];
    PdfDocument { objects, pages: vec![(3, 0)] }
}

fn page_tree(m: &fortune_generator::pdf_graph::MergedDocument) -> &Vec<(Vec<u8>, PdfObject)> {
    let catalog = m.objects.iter().find(|(id, _)| *id == m.root).unwrap();
    let pages_ref = match get(dict(&catalog.1), "Pages") {
        Some(PdfObject::Reference(id)) => *id,
        _ => panic!("catalog without page tree"),
    };
    dict(&m.objects.iter().find(|(id, _)| *id == pages_ref).unwrap().1)
}

#[test]
fn test_merge_pdf() {
    let docs = vec![single_page_doc("dummy1"), single_page_doc("dummy2")];
    let m = merge_documents(&docs).ok().unwrap();
    assert_eq!(m.page_ids.len(), 2);
    let tree = page_tree(&m);
    assert!(matches!(get(tree, "Count"), Some(PdfObject::Integer(2))));
    match get(tree, "Kids") {
        Some(PdfObject::Array(kids)) => assert_eq!(kids.len(), 2),
        _ => panic!("no kids"),
    }
}

#[test]
fn merged_pages_point_at_the_merged_tree() {
    let docs = vec![single_page_doc("a"), single_page_doc("b"), single_page_doc("c")];
    let m = merge_documents(&docs).ok().unwrap();
    assert_eq!(m.page_ids.len(), 3);
    let catalog = m.objects.iter().find(|(id, _)| *id == m.root).unwrap();
    let pages_ref = match get(dict(&catalog.1), "Pages") {
        Some(PdfObject::Reference(id)) => *id,
        _ => panic!("catalog without page tree"),
    };
    assert!(get(dict(&catalog.1), "Outlines").is_none());
    for page in &m.page_ids {
        let obj = m.objects.iter().find(|(id, _)| id == page).unwrap();
        assert!(matches!(get(dict(&obj.1), "Parent"), Some(PdfObject::Reference(p)) if *p == pages_ref));
        let content = match get(dict(&obj.1), "Contents") {
            Some(PdfObject::Reference(c)) => *c,
            _ => panic!("page without content"),
        };
        assert!(m.objects.iter().any(|(id, o)| *id == content && matches!(o, PdfObject::Stream(..))));
    }
}

#[test]
fn merged_objects_are_numbered_from_one_without_gaps() {
    let docs = vec![single_page_doc("a"), single_page_doc("b")];
    let m = merge_documents(&docs).ok().unwrap();
    for (p, (id, _)) in m.objects.iter().enumerate() {
        assert_eq!(id.0 as usize, p + 1);
    }
    // one catalog, one page tree, two pages, two contents; outlines dropped
    assert_eq!(m.objects.len(), 6);
    assert_eq!(m.root, (1, 0));
}

#[test]
fn bookmarks_mark_the_first_page_of_each_document() {
    let docs = vec![single_page_doc("a"), single_page_doc("b")];
    let m = merge_documents(&docs).ok().unwrap();
    assert_eq!(m.bookmarks.len(), 2);
    assert_eq!(m.bookmarks[0].0, 1);
    assert_eq!(m.bookmarks[1].0, 2);
    assert_eq!(m.bookmarks[0].1, m.page_ids[0]);
    assert_eq!(m.bookmarks[1].1, m.page_ids[1]);
}

fn without_catalog() -> PdfDocument {
    let mut d = single_page_doc("a");
    d.objects.remove(0);
    d
}

#[test]
fn merge_without_catalog_fails() {
    let docs = vec![without_catalog(), without_catalog()];
    assert!(matches!(merge_documents(&docs), Err(MergeError::NoCatalog)));
}

#[test]
fn merge_without_page_tree_fails() {
    let mut doc = single_page_doc("a");
    doc.objects.remove(1);
    assert!(matches!(merge_documents(&vec![doc]), Err(MergeError::NoPageTree)));
}

#[test]
fn merging_nothing_fails() {
    assert!(matches!(merge_documents(&vec![]), Err(MergeError::NoCatalog)));
}

#[test]
fn catalog_must_be_a_dictionary() {
    let mut doc = single_page_doc("a");
    doc.objects[0].1 = PdfObject::Stream(vec![(key("Type"), name("Catalog"))], vec![], true);
    assert!(matches!(merge_documents(&vec![doc]), Err(MergeError::NoCatalog)));
}

#[test]
fn later_page_tree_entries_win() {
    let mut second = single_page_doc("b");
    if let PdfObject::Dictionary(d) = &mut second.objects[1].1 {
        d.push((key("Rotate"), PdfObject::Integer(90)));
    }
    let mut first = single_page_doc("a");
    if let PdfObject::Dictionary(d) = &mut first.objects[1].1 {
        d.push((key("Rotate"), PdfObject::Integer(0)));
    }
    let m = merge_documents(&vec![first, second]).ok().unwrap();
    let tree = page_tree(&m);
    assert!(matches!(get(tree, "Rotate"), Some(PdfObject::Integer(90))));
}

#[test]
fn pages_keep_input_order_and_content() {
    let docs = vec![single_page_doc("front"), single_page_doc("back"), single_page_doc("front2")];
    let m = merge_documents(&docs).ok().unwrap();
    let mut contents = vec![];
    for page in &m.page_ids {
        let obj = m.objects.iter().find(|(id, _)| id == page).unwrap();
        let c = match get(dict(&obj.1), "Contents") {
            Some(PdfObject::Reference(c)) => *c,
            _ => panic!("page without content"),
        };
        match &m.objects.iter().find(|(id, _)| *id == c).unwrap().1 {
            PdfObject::Stream(_, bytes, _) => contents.push(String::from_utf8(bytes.clone()).unwrap()),
            _ => panic!("content is no stream"),
        }
    }
    assert_eq!(contents, vec!["front", "back", "front2"]);
    assert_eq!(m.origins, vec![0, 1, 2, 3, 7, 8, 12, 13]);
}

#[test]
fn outline_objects_are_dropped() {
    let docs = vec![single_page_doc("a"), single_page_doc("b")];
    let m = merge_documents(&docs).ok().unwrap();
    assert!(m.objects.iter().all(|(_, o)| match o {
        PdfObject::Dictionary(d) => !matches!(get(d, "Type"), Some(PdfObject::Name(n)) if n == &key("Outlines")),
        _ => true,
    }));
}
