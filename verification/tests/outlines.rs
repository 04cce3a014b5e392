use caj2pdf::pdf::{build_btree, flat_outline_order, inject_outlines, plan_outline, PdfError};
use caj2pdf::{CajError, FileFormat, OutlineEntry};
use lopdf::{Dictionary, Document, Object};

fn entry(title: &str, page: u32, level: u8) -> OutlineEntry {
    OutlineEntry { title: title.to_string(), page, level }
}

#[test]
fn btree_flat() {
    let toc = vec![entry("A", 1, 1), entry("B", 2, 1), entry("C", 3, 1)];
    let nodes = build_btree(&toc);
    assert_eq!(nodes.len(), 4);
    assert_eq!(nodes[0].lchild, Some(1));
    assert_eq!(nodes[1].rchild, Some(2));
    assert_eq!(nodes[1].parent, Some(0));
    assert_eq!(nodes[2].rchild, Some(3));
    assert_eq!(nodes[2].parent, Some(1));
    assert_eq!(nodes[3].parent, Some(2));
    assert_eq!(nodes[3].rchild, None);
    assert_eq!(nodes[0].rchild, None);
}

#[test]
fn btree_nested() {
    let toc = vec![
        entry("1", 1, 1),
        entry("1.1", 1, 2),
        entry("1.1.1", 1, 3),
        entry("1.2", 1, 2),
        entry("2", 2, 1),
    ];
    let nodes = build_btree(&toc);
    assert_eq!(nodes.len(), 6);
    assert_eq!(nodes[0].lchild, Some(1));
    assert_eq!(nodes[0].rchild, None);
    assert_eq!(nodes[1].parent, Some(0));
    assert_eq!(nodes[1].lchild, Some(2));
    assert_eq!(nodes[1].rchild, None);
    assert_eq!(nodes[2].parent, Some(1));
    assert_eq!(nodes[2].lchild, Some(3));
    assert_eq!(nodes[2].rchild, None);
    assert_eq!(nodes[3].parent, Some(2));
    assert_eq!(nodes[3].lchild, None);
    assert_eq!(nodes[3].rchild, Some(4));
    assert_eq!(nodes[4].parent, Some(2));
    assert_eq!(nodes[4].lchild, None);
    assert_eq!(nodes[4].rchild, Some(5));
    assert_eq!(nodes[5].parent, Some(1));
    assert_eq!(nodes[5].lchild, None);
    assert_eq!(nodes[5].rchild, None);
    let order = flat_outline_order(&nodes);
    assert_eq!(order, vec![1, 2, 3, 4, 5]);
}

#[test]
fn btree_keeps_entry_data_and_page_is_zero_based() {
    let toc = vec![entry("Intro", 0, 1), entry("Body", 7, 1)];
    let nodes = build_btree(&toc);
    assert_eq!(nodes[0].level, 0);
    assert_eq!(nodes[0].index, 0);
    assert_eq!(nodes[0].title, "");
    assert_eq!(nodes[1].title, "Intro");
    assert_eq!(nodes[1].page, 0); // page 0 saturates at 0
    assert_eq!(nodes[1].index, 1);
    assert_eq!(nodes[2].page, 6);
    assert_eq!(nodes[2].level, 1);
    assert_eq!(nodes[2].index, 2);
}

#[test]
fn flat_order_is_entry_order_for_deep_then_shallow_outline() {
    let toc = vec![
        entry("a", 1, 1),
        entry("b", 1, 2),
        entry("c", 1, 3),
        entry("d", 1, 4),
        entry("e", 1, 1),
        entry("f", 1, 3),
        entry("g", 1, 2),
    ];
    let nodes = build_btree(&toc);
    assert_eq!(flat_outline_order(&nodes), vec![1, 2, 3, 4, 5, 6, 7]);
}

#[test]
fn empty_outline_has_no_order_and_no_plan() {
    let nodes = build_btree(&[]);
    assert_eq!(nodes.len(), 1);
    assert_eq!(flat_outline_order(&nodes), Vec::<usize>::new());
    assert!(plan_outline(&[]).is_none());
}

#[test]
fn level_zero_first_entry_is_outside_the_order() {
    // A first entry at level 0 becomes the root's sibling, not its child.
    let toc = vec![entry("zero", 1, 0)];
    let nodes = build_btree(&toc);
    assert_eq!(nodes[0].rchild, Some(1));
    assert_eq!(nodes[0].lchild, None);
    assert_eq!(flat_outline_order(&nodes), Vec::<usize>::new());
}

#[test]
fn plan_links_items_in_depth_first_order() {
    let toc = vec![
        entry("Chapter One", 1, 1),
        entry("Section A", 2, 2),
        entry("Sub A.1", 2, 3),
        entry("Chapter Two", 3, 1),
    ];
    let plan = plan_outline(&toc).expect("non-empty outline has a plan");
    assert_eq!(plan.count, 4);
    assert_eq!(plan.first, Some(1));
    assert_eq!(plan.last, 4);
    assert_eq!(plan.items.len(), 4);
    let titles: Vec<&str> = plan.items.iter().map(|i| i.title.as_str()).collect();
    assert_eq!(titles, vec!["Chapter One", "Section A", "Sub A.1", "Chapter Two"]);
    let pages: Vec<u32> = plan.items.iter().map(|i| i.page).collect();
    assert_eq!(pages, vec![1, 2, 2, 3]);
    for (k, item) in plan.items.iter().enumerate() {
        assert_eq!(item.node, k + 1);
        assert_eq!(item.prev, if k == 0 { None } else { Some(k) });
        assert_eq!(item.next, if k + 1 < 4 { Some(k + 2) } else { None });
    }
    assert_eq!(plan.items[0].first, Some(2));
    // Chapter Two hangs off the end of Chapter One's sub-tree in the binary
    // tree, so it is the last descendant that `/Last` names.
    assert_eq!(plan.items[0].last, 4);
    assert_eq!(plan.items[3].parent, Some(1));
    assert_eq!(plan.items[1].parent, Some(1));
    assert_eq!(plan.items[3].first, None);
    assert_eq!(plan.items[3].last, 4);
}

fn build_pdf(page_count: usize) -> Vec<u8> {
    let mut doc = Document::with_version("1.4");
    let pages_id = doc.new_object_id();
    let mut kids = Vec::new();
    for _ in 0..page_count {
        let mut page = Dictionary::new();
        page.set("Type", Object::Name(b"Page".to_vec()));
        page.set("Parent", Object::Reference(pages_id));
        page.set(
            "MediaBox",
            Object::Array(vec![
                Object::Integer(0),
                Object::Integer(0),
                Object::Integer(40),
                Object::Integer(40),
            ]),
        );
        kids.push(Object::Reference(doc.add_object(page)));
    }
    let mut pages = Dictionary::new();
    pages.set("Type", Object::Name(b"Pages".to_vec()));
    pages.set("Kids", Object::Array(kids));
    pages.set("Count", Object::Integer(page_count as i64));
    doc.objects.insert(pages_id, Object::Dictionary(pages));
    let mut catalog = Dictionary::new();
    catalog.set("Type", Object::Name(b"Catalog".to_vec()));
    catalog.set("Pages", Object::Reference(pages_id));
    let catalog_id = doc.add_object(catalog);
    doc.trailer.set("Root", catalog_id);
    let mut buf = Vec::new();
    doc.save_to(&mut buf).expect("build base");
    buf
}

#[test]
fn inject_outlines_adds_the_outline_dictionary() {
    let base = build_pdf(3);
    let toc = vec![entry("Intro", 1, 1), entry("Body", 2, 1), entry("End", 3, 1)];
    let out = inject_outlines(&base, &toc).expect("inject must succeed");
    assert!(out.starts_with(b"%PDF-"));
    let doc = Document::load_mem(&out).expect("lopdf parses injected");
    assert_eq!(doc.get_pages().len(), 3);
    let catalog = doc.catalog().expect("catalog exists");
    let outlines_id = catalog.get(b"Outlines").expect("/Outlines present").as_reference().unwrap();
    let outlines = doc.get_object(outlines_id).unwrap().as_dict().unwrap();
    assert_eq!(outlines.get(b"Count").unwrap().as_i64().unwrap(), 3);
    let first_id = outlines.get(b"First").unwrap().as_reference().unwrap();
    let first = doc.get_object(first_id).unwrap().as_dict().unwrap();
    assert_eq!(first.get(b"Title").unwrap().as_str().unwrap(), b"Intro");
    let dest = first.get(b"Dest").unwrap().as_array().unwrap();
    assert_eq!(dest[0].as_reference().unwrap(), doc.get_pages()[&1]);
    let second_id = first.get(b"Next").unwrap().as_reference().unwrap();
    let second = doc.get_object(second_id).unwrap().as_dict().unwrap();
    assert_eq!(second.get(b"Title").unwrap().as_str().unwrap(), b"Body");
    assert_eq!(second.get(b"Prev").unwrap().as_reference().unwrap(), first_id);
}

#[test]
fn inject_outlines_out_of_range_page_has_no_destination() {
    let base = build_pdf(1);
    let toc = vec![entry("Far away", 9, 1)];
    let out = inject_outlines(&base, &toc).expect("inject must succeed");
    let doc = Document::load_mem(&out).unwrap();
    let catalog = doc.catalog().unwrap();
    let outlines_id = catalog.get(b"Outlines").unwrap().as_reference().unwrap();
    let outlines = doc.get_object(outlines_id).unwrap().as_dict().unwrap();
    let first_id = outlines.get(b"First").unwrap().as_reference().unwrap();
    let first = doc.get_object(first_id).unwrap().as_dict().unwrap();
    assert!(first.get(b"Dest").is_err());
}

#[test]
fn inject_empty_outline_only_reserialises() {
    let base = build_pdf(2);
    let out = inject_outlines(&base, &[]).expect("re-serialise");
    let doc = Document::load_mem(&out).unwrap();
    assert_eq!(doc.get_pages().len(), 2);
    assert!(doc.catalog().unwrap().get(b"Outlines").is_err());
}

#[test]
fn inject_outlines_rejects_garbage() {
    match inject_outlines(b"this is not a pdf", &[entry("x", 1, 1)]) {
        Err(PdfError::Lopdf(_)) => {}
        other => panic!("expected a lopdf error, got {other:?}"),
    }
}

#[test]
fn pdf_error_messages() {
    let e = PdfError::Assembly("no pages".to_string());
    assert_eq!(e.message(), "page assembly error: no pages");
    let e = PdfError::Core(CajError::Malformed {
        format: FileFormat::Hn,
        message: "bad".to_string(),
    });
    assert_eq!(e.message(), "core error: malformed Hn file: bad");
    let e = inject_outlines(b"garbage", &[]).unwrap_err();
    assert!(e.message().starts_with("PDF construction failed: "));
}

#[test]
fn btree_nodes_never_have_both_links() {
    let toc = vec![
        entry("1", 1, 1),
        entry("1.1", 2, 2),
        entry("1.1.1", 3, 3),
        entry("2", 4, 1),
        entry("2.1", 5, 2),
        entry("3", 6, 1),
    ];
    let nodes = build_btree(&toc);
    assert_eq!(nodes.len(), toc.len() + 1);
    for (i, n) in nodes.iter().enumerate() {
        assert!(!(n.lchild.is_some() && n.rchild.is_some()), "node {} has both links", i);
        if i > 0 {
            let p = n.parent.expect("every item has a parent");
            assert!(p < i);
            assert_eq!(n.title, toc[i - 1].title);
            assert_eq!(n.level, toc[i - 1].level);
            assert_eq!(n.page, toc[i - 1].page - 1);
            assert_eq!(n.index as usize, i);
        }
    }
    assert_eq!(nodes[0].parent, None);
    assert_eq!(nodes[0].level, 0);
}
