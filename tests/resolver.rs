use ofd::document::{CommonData, Document, PageRef, PageRefs};
use ofd::metadata::{CustomData, CustomDataList, DocInfo};
use ofd::ofd::{DocBody, OfdError, OfdNode, OpenEvent, OpenRequest, OpenState};

fn page(id: &str, loc: &str) -> PageRef {
    PageRef { id: id.to_string(), base_loc: loc.to_string() }
}

fn node(doc_root: &str) -> OfdNode {
    OfdNode {
        doc_body: DocBody {
            doc_info: DocInfo {
                doc_id: "abc".to_string(),
                title: String::new(),
                author: "me".to_string(),
                subject: String::new(),
                abstract_text: String::new(),
                creation_date: String::new(),
                mod_date: String::new(),
                doc_usage: String::new(),
                cover: String::new(),
                keywords: None,
                creator: String::new(),
                creator_version: String::new(),
                custom_datas: Some(CustomDataList {
                    custom_data: vec![CustomData { name: Some("k".to_string()), value: "v".to_string() }],
                }),
            },
            doc_root: doc_root.to_string(),
        },
    }
}

fn document() -> Document {
    Document {
        common_data: CommonData {
            max_unit_id: 12,
            public_res: "PublicRes.xml".to_string(),
            template_page: page("2", "Tpls/Tpl_0/Content.xml"),
            document_res: "DocumentRes.xml".to_string(),
        },
        custom_tags: String::new(),
        annotations: String::new(),
        pages: PageRefs { page: vec![page("1", "Pages/Page_0/Content.xml")] },
    }
}

fn not_found() -> OfdError {
    OfdError::ZipError(zip::result::ZipError::FileNotFound)
}

#[test]
fn opening_asks_for_the_manifest_first() {
    let (s, r) = OpenState::start();
    assert!(matches!(s, OpenState::ReadingManifest));
    assert!(matches!(r, OpenRequest::ReadManifest(ref p) if p == "OFD.xml"));
}

#[test]
fn missing_manifest_fails_without_reading_the_doc_root() {
    let (s, _) = OpenState::start();
    let (s, r) = s.step(OpenEvent::ManifestRead(Err(not_found())));
    assert!(matches!(s, OpenState::Failed(OfdError::ZipError(zip::result::ZipError::FileNotFound))));
    assert!(matches!(r, OpenRequest::Stop));
}

#[test]
fn missing_doc_root_fails_after_the_manifest() {
    let (s, _) = OpenState::start();
    let (s, r) = s.step(OpenEvent::ManifestRead(Ok(node("Doc_0/Document.xml"))));
    assert!(matches!(s, OpenState::ReadingDocRoot(_)));
    assert!(matches!(r, OpenRequest::ReadDocRoot(ref p) if p == "Doc_0/Document.xml"));
    let (s, r) = s.step(OpenEvent::DocRootRead(Err(not_found())));
    assert!(matches!(s, OpenState::Failed(OfdError::ZipError(zip::result::ZipError::FileNotFound))));
    assert!(matches!(r, OpenRequest::Stop));
}

#[test]
fn opening_flattens_the_metadata() {
    let (s, _) = OpenState::start();
    let (s, _) = s.step(OpenEvent::ManifestRead(Ok(node("Doc_0/Document.xml"))));
    let (s, r) = s.step(OpenEvent::DocRootRead(Ok(document())));
    assert!(matches!(r, OpenRequest::Stop));
    match s {
        OpenState::Opened(d) => {
            assert_eq!(d.attributes.len(), 2);
            assert_eq!(d.attributes.get("DocId"), Some(&"abc".to_string()));
            assert_eq!(d.attributes.get("Author"), Some(&"me".to_string()));
            assert_eq!(d.custom_datas.get("k"), Some(&"v".to_string()));
            assert_eq!(d.document.pages.page.len(), 1);
            assert_eq!(d.node.doc_body.doc_root, "Doc_0/Document.xml");
        }
        _ => panic!("document not opened"),
    }
}

#[test]
fn an_unasked_event_changes_nothing() {
    let (s, _) = OpenState::start();
    let (s, r) = s.step(OpenEvent::DocRootRead(Ok(document())));
    assert!(matches!(s, OpenState::ReadingManifest));
    assert!(matches!(r, OpenRequest::ReadManifest(ref p) if p == "OFD.xml"));
}
