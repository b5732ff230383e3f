use pdf_pages::codec::decode_store;
use pdf_pages::delete::delete_pages;
use pdf_pages::extract::extract_pages;
use pdf_pages::merge::merge_documents;
use pdf_pages::reorder::reorder_pages;
use pdf_pages::rotate::rotate_pages;
use pdf_pages::PdfError;

/// Builds a small PDF with `n` pages; page `i` (1-based) is marked by a
/// MediaBox whose width is `99 + i`, so it can be recognized after an edit.
fn sample_pdf(n: u32) -> Vec<u8> {
    let mut doc = lopdf::Document::with_version("1.5");
    let pages_id = (1u32, 0u16);
    let mut kids: Vec<lopdf::Object> = Vec::new();
    let mut page_ids: Vec<(u32, u16)> = Vec::new();
    for i in 0..n {
        let id = (2 + i, 0u16);
        page_ids.push(id);
        kids.push(lopdf::Object::Reference(id));
    }
    let mut pages_dict = lopdf::Dictionary::new();
    pages_dict.set("Type", lopdf::Object::Name(b"Pages".to_vec()));
    pages_dict.set("Kids", lopdf::Object::Array(kids));
    pages_dict.set("Count", lopdf::Object::Integer(n as i64));
    doc.objects
        .insert(pages_id, lopdf::Object::Dictionary(pages_dict));
    for (i, id) in page_ids.iter().enumerate() {
        let mut d = lopdf::Dictionary::new();
        d.set("Type", lopdf::Object::Name(b"Page".to_vec()));
        d.set("Parent", lopdf::Object::Reference(pages_id));
        d.set(
            "MediaBox",
            lopdf::Object::Array(vec![
                lopdf::Object::Integer(0),
                lopdf::Object::Integer(0),
                lopdf::Object::Integer(100 + i as i64),
                lopdf::Object::Integer(100),
            ]),
        );
        doc.objects.insert(*id, lopdf::Object::Dictionary(d));
    }
    let catalog_id = (2 + n, 0u16);
    let mut cat = lopdf::Dictionary::new();
    cat.set("Type", lopdf::Object::Name(b"Catalog".to_vec()));
    cat.set("Pages", lopdf::Object::Reference(pages_id));
    doc.objects
        .insert(catalog_id, lopdf::Object::Dictionary(cat));
    doc.max_id = 2 + n;
    doc.trailer.set("Root", lopdf::Object::Reference(catalog_id));
    let mut out = Vec::new();
    doc.save_to(&mut out).unwrap();
    out
}

fn ok(r: Result<Vec<u8>, PdfError>) -> Vec<u8> {
    match r {
        Ok(b) => b,
        Err(_) => panic!("operation failed"),
    }
}

/// The marker widths of the pages of a PDF buffer, in page order.
fn markers(data: &[u8]) -> Vec<i64> {
    let doc = lopdf::Document::load_mem(data).unwrap();
    let pages = doc.get_pages();
    let mut out = Vec::new();
    for n in 1..=pages.len() as u32 {
        let id = pages[&n];
        let d = doc.objects[&id].as_dict().unwrap();
        let mb = d.get(b"MediaBox").unwrap().as_array().unwrap();
        out.push(mb[2].as_i64().unwrap());
    }
    out
}

fn page_rotation(data: &[u8], n: u32) -> i64 {
    let doc = lopdf::Document::load_mem(data).unwrap();
    let pages = doc.get_pages();
    let id = pages[&n];
    let d = doc.objects[&id].as_dict().unwrap();
    match d.get(b"Rotate") {
        Ok(o) => o.as_i64().unwrap(),
        Err(_) => 0,
    }
}

#[test]
fn delete_middle_of_three() {
    let data = sample_pdf(3);
    let out = ok(delete_pages(&data, &[2]));
    assert_eq!(markers(&out), vec![100, 102]);
}

#[test]
fn extract_reorders_subset() {
    let data = sample_pdf(3);
    let out = ok(extract_pages(&data, &[3, 1]));
    assert_eq!(markers(&out), vec![102, 100]);
}

#[test]
fn extract_all_preserves_count() {
    let data = sample_pdf(4);
    let out = ok(extract_pages(&data, &[1, 2, 3, 4]));
    assert_eq!(markers(&out), vec![100, 101, 102, 103]);
}

#[test]
fn reorder_swaps_two() {
    let data = sample_pdf(2);
    let out = ok(reorder_pages(&data, &[2, 1]));
    assert_eq!(markers(&out), vec![101, 100]);
}

#[test]
fn rotate_ninety_then_one_eighty() {
    let data = sample_pdf(1);
    let once = ok(rotate_pages(&data, &[(1, 90)]));
    let twice = ok(rotate_pages(&once, &[(1, 180)]));
    assert_eq!(page_rotation(&twice, 1), 270);
}

#[test]
fn rotate_wraps_past_full_turn() {
    let data = sample_pdf(1);
    let once = ok(rotate_pages(&data, &[(1, 270)]));
    let twice = ok(rotate_pages(&once, &[(1, 180)]));
    assert_eq!(page_rotation(&twice, 1), 90);
}

#[test]
fn rotate_accumulates_in_one_call() {
    let data = sample_pdf(2);
    let out = ok(rotate_pages(&data, &[(1, 90), (1, 180), (2, 90)]));
    assert_eq!(page_rotation(&out, 1), 270);
    assert_eq!(page_rotation(&out, 2), 90);
}

#[test]
fn merge_two_single_page_documents() {
    let d1 = sample_pdf(1);
    let d2 = sample_pdf(1);
    let s1 = decode_store(&d1).unwrap();
    let s2 = decode_store(&d2).unwrap();
    let out = ok(merge_documents(vec![s1, s2]));
    assert_eq!(markers(&out).len(), 2);
}

#[test]
fn merge_keeps_source_order() {
    let d1 = sample_pdf(2);
    let d2 = sample_pdf(3);
    let s1 = decode_store(&d1).unwrap();
    let s2 = decode_store(&d2).unwrap();
    let out = ok(merge_documents(vec![s1, s2]));
    assert_eq!(markers(&out), vec![100, 101, 100, 101, 102]);
}

#[test]
fn delete_equals_extracting_the_rest() {
    let data = sample_pdf(4);
    let deleted = ok(delete_pages(&data, &[2, 4]));
    let extracted = ok(extract_pages(&data, &[1, 3]));
    assert_eq!(markers(&deleted), markers(&extracted));
    assert_eq!(markers(&deleted), vec![100, 102]);
}

#[test]
fn delete_every_page_is_refused() {
    let data = sample_pdf(1);
    let r = delete_pages(&data, &[1]);
    assert!(matches!(r, Err(PdfError::WouldDeleteAll)));
}

#[test]
fn delete_out_of_range_page() {
    let data = sample_pdf(3);
    let r = delete_pages(&data, &[5]);
    assert!(matches!(
        r,
        Err(PdfError::PageOutOfRange { page: 5, total: 3 })
    ));
}

#[test]
fn extract_out_of_range_page() {
    let data = sample_pdf(3);
    let r = extract_pages(&data, &[2, 4]);
    assert!(matches!(
        r,
        Err(PdfError::PageOutOfRange { page: 4, total: 3 })
    ));
}

#[test]
fn reorder_wrong_length() {
    let data = sample_pdf(3);
    let r = reorder_pages(&data, &[2, 1]);
    assert!(matches!(
        r,
        Err(PdfError::WrongPageCount {
            expected: 3,
            got: 2
        })
    ));
}

#[test]
fn reorder_duplicate_page() {
    let data = sample_pdf(3);
    let r = reorder_pages(&data, &[1, 2, 2]);
    assert!(matches!(r, Err(PdfError::DuplicatePage(2))));
}

#[test]
fn reorder_out_of_range() {
    let data = sample_pdf(2);
    let r = reorder_pages(&data, &[1, 5]);
    assert!(matches!(
        r,
        Err(PdfError::PageOutOfRange { page: 5, total: 2 })
    ));
}

#[test]
fn rotate_out_of_range_page() {
    let data = sample_pdf(2);
    let r = rotate_pages(&data, &[(3, 90)]);
    assert!(matches!(
        r,
        Err(PdfError::PageOutOfRange { page: 3, total: 2 })
    ));
}

#[test]
fn garbage_input_is_a_codec_error() {
    let junk = b"%PDF-not really a pdf".to_vec();
    let r = extract_pages(&junk, &[1]);
    assert!(matches!(r, Err(PdfError::Lopdf(_))));
}

#[test]
fn output_trailer_size_is_highest_plus_one() {
    let data = sample_pdf(3);
    let out = ok(extract_pages(&data, &[1, 2, 3]));
    let doc = lopdf::Document::load_mem(&out).unwrap();
    let size = doc.trailer.get(b"Size").unwrap().as_i64().unwrap();
    let highest = doc.objects.keys().map(|k| k.0).max().unwrap();
    assert_eq!(size, highest as i64 + 1);
}

/// A two-level page tree: the interior node's parent points at the root the
/// rebuild discards; no reference of the output may dangle even so.
#[test]
fn nested_tree_output_has_no_dangling_references() {
    let mut doc = lopdf::Document::with_version("1.5");
    let root_id = (1u32, 0u16);
    let mid_id = (2u32, 0u16);
    let p1 = (3u32, 0u16);
    let p2 = (4u32, 0u16);
    let cat_id = (5u32, 0u16);
    let mut root = lopdf::Dictionary::new();
    root.set("Type", lopdf::Object::Name(b"Pages".to_vec()));
    root.set("Kids", lopdf::Object::Array(vec![lopdf::Object::Reference(mid_id)]));
    root.set("Count", lopdf::Object::Integer(2));
    doc.objects.insert(root_id, lopdf::Object::Dictionary(root));
    let mut mid = lopdf::Dictionary::new();
    mid.set("Type", lopdf::Object::Name(b"Pages".to_vec()));
    mid.set("Parent", lopdf::Object::Reference(root_id));
    mid.set(
        "Kids",
        lopdf::Object::Array(vec![
            lopdf::Object::Reference(p1),
            lopdf::Object::Reference(p2),
        ]),
    );
    mid.set("Count", lopdf::Object::Integer(2));
    doc.objects.insert(mid_id, lopdf::Object::Dictionary(mid));
    for id in [p1, p2] {
        let mut d = lopdf::Dictionary::new();
        d.set("Type", lopdf::Object::Name(b"Page".to_vec()));
        d.set("Parent", lopdf::Object::Reference(mid_id));
        doc.objects.insert(id, lopdf::Object::Dictionary(d));
    }
    let mut cat = lopdf::Dictionary::new();
    cat.set("Type", lopdf::Object::Name(b"Catalog".to_vec()));
    cat.set("Pages", lopdf::Object::Reference(root_id));
    doc.objects.insert(cat_id, lopdf::Object::Dictionary(cat));
    doc.max_id = 5;
    doc.trailer.set("Root", lopdf::Object::Reference(cat_id));
    let mut data = Vec::new();
    doc.save_to(&mut data).unwrap();

    let out = ok(extract_pages(&data, &[1]));
    let got = lopdf::Document::load_mem(&out).unwrap();
    fn refs_of(o: &lopdf::Object, acc: &mut Vec<(u32, u16)>) {
        match o {
            lopdf::Object::Reference(id) => acc.push(*id),
            lopdf::Object::Array(a) => a.iter().for_each(|x| refs_of(x, acc)),
            lopdf::Object::Dictionary(d) => d.iter().for_each(|(_, v)| refs_of(v, acc)),
            lopdf::Object::Stream(s) => s.dict.iter().for_each(|(_, v)| refs_of(v, acc)),
            _ => {}
        }
    }
    let mut all_refs: Vec<(u32, u16)> = Vec::new();
    for (_, o) in got.objects.iter() {
        refs_of(o, &mut all_refs);
    }
    for (_, v) in got.trailer.iter() {
        refs_of(v, &mut all_refs);
    }
    for r in all_refs {
        assert!(got.objects.contains_key(&r), "dangling reference");
    }
    assert_eq!(got.get_pages().len(), 1);
}

#[test]
fn output_references_resolve() {
    let data = sample_pdf(3);
    let out = ok(delete_pages(&data, &[1]));
    let doc = lopdf::Document::load_mem(&out).unwrap();
    let root = doc.trailer.get(b"Root").unwrap().as_reference().unwrap();
    let cat = doc.objects[&root].as_dict().unwrap();
    let pages_ref = cat.get(b"Pages").unwrap().as_reference().unwrap();
    let pages = doc.objects[&pages_ref].as_dict().unwrap();
    for kid in pages.get(b"Kids").unwrap().as_array().unwrap() {
        let kid_id = kid.as_reference().unwrap();
        assert!(doc.objects.contains_key(&kid_id));
    }
}
