use ofd::metadata::{CustomData, CustomDataList, DocInfo, Keyword, KeywordList};
use ofd::string_map::StringMap;

fn custom(name: Option<&str>, value: &str) -> CustomData {
    CustomData { name: name.map(|n| n.to_string()), value: value.to_string() }
}

fn info() -> DocInfo {
    DocInfo {
        doc_id: String::new(),
        title: String::new(),
        author: String::new(),
        subject: String::new(),
        abstract_text: String::new(),
        creation_date: String::new(),
        mod_date: String::new(),
        doc_usage: String::new(),
        cover: String::new(),
        keywords: None,
        creator: String::new(),
        creator_version: String::new(),
        custom_datas: None,
    }
}

fn get(m: &StringMap, k: &str) -> Option<String> {
    m.get(k).cloned()
}

#[test]
fn custom_data_earliest_declared_wins() {
    let list = CustomDataList {
        custom_data: vec![custom(Some("k"), "first"), custom(Some("k"), "second")],
    };
    let m = list.to_map();
    assert_eq!(get(&m, "k"), Some("first".to_string()));
    assert_eq!(m.len(), 1);
}

#[test]
fn custom_data_drops_nameless_entries() {
    let list = CustomDataList {
        custom_data: vec![custom(None, "lost"), custom(Some("a"), "1"), custom(Some("b"), "2")],
    };
    let m = list.to_map();
    assert_eq!(m.len(), 2);
    assert_eq!(get(&m, "a"), Some("1".to_string()));
    assert_eq!(get(&m, "b"), Some("2".to_string()));
}

#[test]
fn custom_datas_absent_is_empty() {
    assert_eq!(info().custom_datas().len(), 0);
    let mut d = info();
    d.custom_datas = Some(CustomDataList { custom_data: vec![custom(Some("x"), "y")] });
    assert_eq!(get(&d.custom_datas(), "x"), Some("y".to_string()));
}

#[test]
fn attributes_omit_empty_fields() {
    let mut d = info();
    d.title = "Invoice".to_string();
    d.creator_version = "1.0".to_string();
    let m = d.attributes();
    assert_eq!(m.len(), 2);
    assert_eq!(get(&m, "Title"), Some("Invoice".to_string()));
    assert_eq!(get(&m, "CreatorVersion"), Some("1.0".to_string()));
    assert_eq!(get(&m, "Author"), None);
    assert_eq!(get(&m, "Keywords"), None);
}

#[test]
fn attributes_hold_every_named_field() {
    let mut d = info();
    d.doc_id = "id".to_string();
    d.title = "t".to_string();
    d.author = "a".to_string();
    d.subject = "s".to_string();
    d.abstract_text = "ab".to_string();
    d.creation_date = "2024-01-01".to_string();
    d.mod_date = "2024-02-02".to_string();
    d.doc_usage = "Normal".to_string();
    d.cover = "c.png".to_string();
    d.creator = "cr".to_string();
    d.creator_version = "9".to_string();
    let m = d.attributes();
    assert_eq!(m.len(), 11);
    assert_eq!(get(&m, "DocId"), Some("id".to_string()));
    assert_eq!(get(&m, "Abstract"), Some("ab".to_string()));
    assert_eq!(get(&m, "CreationDate"), Some("2024-01-01".to_string()));
    assert_eq!(get(&m, "ModDate"), Some("2024-02-02".to_string()));
    assert_eq!(get(&m, "DocUsage"), Some("Normal".to_string()));
    assert_eq!(get(&m, "Cover"), Some("c.png".to_string()));
    assert_eq!(get(&m, "Creator"), Some("cr".to_string()));
}

#[test]
fn attributes_keep_empty_keyword_list() {
    let mut d = info();
    d.keywords = Some(KeywordList { keyword: vec![] });
    let m = d.attributes();
    assert_eq!(m.len(), 1);
    assert_eq!(get(&m, "Keywords"), Some(String::new()));
}

#[test]
fn attributes_join_keywords_with_commas() {
    let mut d = info();
    d.keywords = Some(KeywordList {
        keyword: vec![
            Keyword { value: "tax".to_string() },
            Keyword { value: "invoice".to_string() },
            Keyword { value: "2024".to_string() },
        ],
    });
    assert_eq!(get(&d.attributes(), "Keywords"), Some("tax,invoice,2024".to_string()));
    let list = d.keywords.as_ref().unwrap().to_list();
    assert_eq!(list, vec!["tax".to_string(), "invoice".to_string(), "2024".to_string()]);
}

#[test]
fn string_map_insert_replaces() {
    let mut m = StringMap::new();
    m.insert("a".to_string(), "1".to_string());
    m.insert("b".to_string(), "2".to_string());
    m.insert("a".to_string(), "3".to_string());
    assert_eq!(m.len(), 2);
    assert_eq!(get(&m, "a"), Some("3".to_string()));
    assert_eq!(get(&m, "b"), Some("2".to_string()));
    assert_eq!(get(&m, "c"), None);
    assert_eq!(m.entries().len(), 2);
}
