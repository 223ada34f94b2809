//! Document metadata and its two flattened maps: the fixed attributes and the
//! custom name/value pairs.

use vstd::prelude::*;

use crate::string_map::StringMap;
use crate::text::views;

verus! {

/// One keyword of the document.
pub struct Keyword {
    pub value: String,
}

/// The document's keywords, in the order declared.
pub struct KeywordList {
    pub keyword: Vec<Keyword>,
}

/// A custom entry: an optional name attribute and its text.
pub struct CustomData {
    pub name: Option<String>,
    pub value: String,
}

/// The document's custom entries, in the order declared.
pub struct CustomDataList {
    pub custom_data: Vec<CustomData>,
}

/// The document-information block of the package manifest. An absent scalar
/// field reads as the empty string.
pub struct DocInfo {
    pub doc_id: String,
    pub title: String,
    pub author: String,
    pub subject: String,
    pub abstract_text: String,
    pub creation_date: String,
    pub mod_date: String,
    pub doc_usage: String,
    pub cover: String,
    pub keywords: Option<KeywordList>,
    pub creator: String,
    pub creator_version: String,
    pub custom_datas: Option<CustomDataList>,
}

/// The texts of a list of keywords.
pub open spec fn keyword_values(k: Seq<Keyword>) -> Seq<Seq<char>> {
    k.map_values(|w: Keyword| w.value@)
}

/// The texts of `s` joined with commas between them.
pub open spec fn join_comma(s: Seq<Seq<char>>) -> Seq<char>
    decreases s.len(),
{
    if s.len() == 0 {
        seq![]
    } else if s.len() == 1 {
        s[0]
    } else {
        join_comma(s.drop_last()) + seq![','] + s.last()
    }
}

/// `m` with `k` mapped to `v`, unless `v` is empty.
pub open spec fn put_nonempty(m: Map<Seq<char>, Seq<char>>, k: Seq<char>, v: Seq<char>) -> Map<
    Seq<char>,
    Seq<char>,
> {
    if v.len() > 0 {
        m.insert(k, v)
    } else {
        m
    }
}

/// The `Keywords` attribute: the keywords joined by commas, when the list is there.
pub open spec fn put_keywords(m: Map<Seq<char>, Seq<char>>, k: Option<KeywordList>) -> Map<
    Seq<char>,
    Seq<char>,
> {
    match k {
        Some(list) => m.insert("Keywords"@, join_comma(keyword_values(list.keyword@))),
        None => m,
    }
}

/// The flattened attributes: each non-empty scalar field under its public
/// name, and `Keywords` whenever the keyword list is present.
pub open spec fn attribute_map(d: DocInfo) -> Map<Seq<char>, Seq<char>> {
    let m = Map::empty();
    let m = put_nonempty(m, "DocId"@, d.doc_id@);
    let m = put_nonempty(m, "Title"@, d.title@);
    let m = put_nonempty(m, "Author"@, d.author@);
    let m = put_nonempty(m, "Subject"@, d.subject@);
    let m = put_nonempty(m, "Abstract"@, d.abstract_text@);
    let m = put_nonempty(m, "CreationDate"@, d.creation_date@);
    let m = put_nonempty(m, "ModDate"@, d.mod_date@);
    let m = put_nonempty(m, "DocUsage"@, d.doc_usage@);
    let m = put_nonempty(m, "Cover"@, d.cover@);
    let m = put_nonempty(m, "Creator"@, d.creator@);
    let m = put_nonempty(m, "CreatorVersion"@, d.creator_version@);
    put_keywords(m, d.keywords)
}

/// The custom map of a list of entries: nameless entries are left out, and
/// of entries that share a name the earliest declared wins.
pub open spec fn custom_map(c: Seq<CustomData>) -> Map<Seq<char>, Seq<char>>
    decreases c.len(),
{
    if c.len() == 0 {
        Map::empty()
    } else {
        let rest = custom_map(c.drop_first());
        match c[0].name {
            Some(n) => rest.insert(n@, c[0].value@),
            None => rest,
        }
    }
}

pub open spec fn custom_map_of(c: Option<CustomDataList>) -> Map<Seq<char>, Seq<char>> {
    match c {
        Some(list) => custom_map(list.custom_data@),
        None => Map::empty(),
    }
}

/// The attributes hold a scalar field's name exactly when the field is
/// non-empty, with its text; they hold `Keywords` exactly when the keyword
/// list is present, with the keywords joined by commas (the empty text for
/// an empty list); and they hold no other key.
pub proof fn lemma_attribute_keys(d: DocInfo)
    ensures
        attribute_map(d).contains_key("DocId"@) <==> d.doc_id@.len() > 0,
        attribute_map(d).contains_key("Title"@) <==> d.title@.len() > 0,
        attribute_map(d).contains_key("Author"@) <==> d.author@.len() > 0,
        attribute_map(d).contains_key("Subject"@) <==> d.subject@.len() > 0,
        attribute_map(d).contains_key("Abstract"@) <==> d.abstract_text@.len() > 0,
        attribute_map(d).contains_key("CreationDate"@) <==> d.creation_date@.len() > 0,
        attribute_map(d).contains_key("ModDate"@) <==> d.mod_date@.len() > 0,
        attribute_map(d).contains_key("DocUsage"@) <==> d.doc_usage@.len() > 0,
        attribute_map(d).contains_key("Cover"@) <==> d.cover@.len() > 0,
        attribute_map(d).contains_key("Creator"@) <==> d.creator@.len() > 0,
        attribute_map(d).contains_key("CreatorVersion"@) <==> d.creator_version@.len() > 0,
        d.doc_id@.len() > 0 ==> attribute_map(d)["DocId"@] == d.doc_id@,
        d.title@.len() > 0 ==> attribute_map(d)["Title"@] == d.title@,
        d.author@.len() > 0 ==> attribute_map(d)["Author"@] == d.author@,
        d.subject@.len() > 0 ==> attribute_map(d)["Subject"@] == d.subject@,
        d.abstract_text@.len() > 0 ==> attribute_map(d)["Abstract"@] == d.abstract_text@,
        d.creation_date@.len() > 0 ==> attribute_map(d)["CreationDate"@] == d.creation_date@,
        d.mod_date@.len() > 0 ==> attribute_map(d)["ModDate"@] == d.mod_date@,
        d.doc_usage@.len() > 0 ==> attribute_map(d)["DocUsage"@] == d.doc_usage@,
        d.cover@.len() > 0 ==> attribute_map(d)["Cover"@] == d.cover@,
        d.creator@.len() > 0 ==> attribute_map(d)["Creator"@] == d.creator@,
        d.creator_version@.len() > 0 ==> attribute_map(d)["CreatorVersion"@] == d.creator_version@,
        attribute_map(d).contains_key("Keywords"@) <==> d.keywords is Some,
        d.keywords matches Some(k) ==> attribute_map(d)["Keywords"@] == join_comma(
            keyword_values(k.keyword@),
        ),
        d.keywords matches Some(k) && k.keyword@.len() == 0 ==> attribute_map(d)["Keywords"@]
            == Seq::<char>::empty(),
        forall|k: Seq<char>| #[trigger]
            attribute_map(d).contains_key(k) ==> attribute_names().contains(k),
{
    reveal_strlit("DocId");
    assert("DocId"@.len() == 5 && "DocId"@[0] == 'D');
    reveal_strlit("Title");
    assert("Title"@.len() == 5 && "Title"@[0] == 'T');
    reveal_strlit("Author");
    assert("Author"@.len() == 6 && "Author"@[0] == 'A');
    reveal_strlit("Subject");
    assert("Subject"@.len() == 7 && "Subject"@[0] == 'S');
    reveal_strlit("Abstract");
    assert("Abstract"@.len() == 8 && "Abstract"@[0] == 'A');
    reveal_strlit("CreationDate");
    assert("CreationDate"@.len() == 12 && "CreationDate"@[0] == 'C');
    reveal_strlit("ModDate");
    assert("ModDate"@.len() == 7 && "ModDate"@[0] == 'M');
    reveal_strlit("DocUsage");
    assert("DocUsage"@.len() == 8 && "DocUsage"@[0] == 'D');
    reveal_strlit("Cover");
    assert("Cover"@.len() == 5 && "Cover"@[0] == 'C');
    reveal_strlit("Creator");
    assert("Creator"@.len() == 7 && "Creator"@[0] == 'C');
    reveal_strlit("CreatorVersion");
    assert("CreatorVersion"@.len() == 14 && "CreatorVersion"@[0] == 'C');
    reveal_strlit("Keywords");
    assert("Keywords"@.len() == 8 && "Keywords"@[0] == 'K');
}

/// The names that attributes can have.
pub open spec fn attribute_names() -> Set<Seq<char>> {
    set!["DocId"@, "Title"@, "Author"@, "Subject"@, "Abstract"@, "CreationDate"@, "ModDate"@, "DocUsage"@, "Cover"@, "Creator"@, "CreatorVersion"@, "Keywords"@]
}

/// Of custom entries that share a name, the earliest declared gives the value.
pub proof fn lemma_first_declared_wins(c: Seq<CustomData>, i: int, n: Seq<char>)
    requires
        0 <= i < c.len(),
        c[i].name matches Some(m) && m@ == n,
        forall|j: int| 0 <= j < i ==> !(#[trigger] c[j].name matches Some(m) && m@ == n),
    ensures
        custom_map(c).contains_key(n),
        custom_map(c)[n] == c[i].value@,
    decreases i,
{
    if i > 0 {
        assert forall|j: int| 0 <= j < i - 1 implies !(#[trigger] c.drop_first()[j].name matches Some(
            m,
        ) && m@ == n) by {
            assert(c.drop_first()[j] == c[j + 1]);
        }
        lemma_first_declared_wins(c.drop_first(), i - 1, n);
        assert(!(c[0].name matches Some(m) && m@ == n));
    }
}

fn insert_nonempty(m: &mut StringMap, k: &str, v: &String)
    ensures
        final(m)@ == put_nonempty(old(m)@, k@, v@),
{
    if !v.as_str().is_empty() {
        m.insert(k.to_owned(), v.clone());
    }
}

impl KeywordList {
    /// The keywords' texts, in order.
    pub fn to_list(&self) -> (r: Vec<String>)
        ensures
            views(r@) == keyword_values(self.keyword@),
    {
        let mut r: Vec<String> = Vec::new();
        let mut i: usize = 0;
        while i < self.keyword.len()
            invariant
                i <= self.keyword@.len(),
                views(r@) == keyword_values(self.keyword@).take(i as int),
            decreases self.keyword@.len() - i,
        {
            let ghost before = r@;
            r.push(self.keyword[i].value.clone());
            assert(views(r@) == views(before).push(self.keyword@[i as int].value@));
            assert(keyword_values(self.keyword@).take(i + 1) == keyword_values(self.keyword@).take(
                i as int,
            ).push(self.keyword@[i as int].value@));
            i = i + 1;
        }
        assert(keyword_values(self.keyword@).take(i as int) == keyword_values(self.keyword@));
        r
    }
}

/// The texts of `v` joined with commas between them.
pub fn join_with_commas(v: &Vec<String>) -> (r: String)
    ensures
        r@ == join_comma(views(v@)),
{
    let mut r = String::new();
    let mut i: usize = 0;
    proof {
        reveal_strlit(",");
    }
    assert(views(v@).take(0) == Seq::<Seq<char>>::empty());
    while i < v.len()
        invariant
            i <= v@.len(),
            r@ == join_comma(views(v@).take(i as int)),
            ","@ == seq![','],
        decreases v@.len() - i,
    {
        let ghost pre = views(v@).take(i as int);
        let ghost next = views(v@).take(i + 1);
        assert(next.drop_last() == pre);
        assert(next.last() == v@[i as int]@);
        if i > 0 {
            r.append(",");
        }
        r.append(v[i].as_str());
        i = i + 1;
    }
    assert(views(v@).take(i as int) == views(v@));
    r
}

impl CustomDataList {
    /// The custom entries as a map: nameless entries are left out, and of
    /// entries that share a name the earliest declared wins. The entries are
    /// taken from last to first, each replacing what an entry declared after
    /// it left under the same name.
    pub fn to_map(&self) -> (r: StringMap)
        ensures
            r@ == custom_map(self.custom_data@),
    {
        let mut m = StringMap::new();
        let mut i: usize = self.custom_data.len();
        assert(self.custom_data@.skip(i as int) == Seq::<CustomData>::empty());
        while i > 0
            invariant
                i <= self.custom_data@.len(),
                m@ == custom_map(self.custom_data@.skip(i as int)),
            decreases i,
        {
            i = i - 1;
            let ghost c = self.custom_data@.skip(i as int);
            assert(c.drop_first() == self.custom_data@.skip(i + 1));
            assert(c[0] == self.custom_data@[i as int]);
            let data = &self.custom_data[i];
            match &data.name {
                Some(n) => {
                    m.insert(n.clone(), data.value.clone());
                },
                None => {},
            }
        }
        assert(self.custom_data@.skip(0) == self.custom_data@);
        m
    }
}

impl DocInfo {
    /// The flattened attributes.
    pub fn attributes(&self) -> (r: StringMap)
        ensures
            r@ == attribute_map(*self),
    {
        let mut m = StringMap::new();
        insert_nonempty(&mut m, "DocId", &self.doc_id);
        insert_nonempty(&mut m, "Title", &self.title);
        insert_nonempty(&mut m, "Author", &self.author);
        insert_nonempty(&mut m, "Subject", &self.subject);
        insert_nonempty(&mut m, "Abstract", &self.abstract_text);
        insert_nonempty(&mut m, "CreationDate", &self.creation_date);
        insert_nonempty(&mut m, "ModDate", &self.mod_date);
        insert_nonempty(&mut m, "DocUsage", &self.doc_usage);
        insert_nonempty(&mut m, "Cover", &self.cover);
        insert_nonempty(&mut m, "Creator", &self.creator);
        insert_nonempty(&mut m, "CreatorVersion", &self.creator_version);
        match &self.keywords {
            Some(k) => {
                let joined = join_with_commas(&k.to_list());
                m.insert("Keywords".to_owned(), joined);
            },
            None => {},
        }
        m
    }

    /// The custom entries as a map; empty when the block has none.
    pub fn custom_datas(&self) -> (r: StringMap)
        ensures
            r@ == custom_map_of(self.custom_datas),
    {
        match &self.custom_datas {
            Some(c) => c.to_map(),
            None => StringMap::new(),
        }
    }
}

} // verus!
