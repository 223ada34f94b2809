//! The document root: common data and the page list.

use vstd::prelude::*;

verus! {

/// A reference to a page or template: its id and where its content lies.
pub struct PageRef {
    pub id: String,
    pub base_loc: String,
}

/// The document's pages, in order.
pub struct PageRefs {
    pub page: Vec<PageRef>,
}

/// Data shared by the whole document.
pub struct CommonData {
    pub max_unit_id: i32,
    pub public_res: String,
    pub template_page: PageRef,
    pub document_res: String,
}

/// The decoded document-root entry.
pub struct Document {
    pub common_data: CommonData,
    pub custom_tags: String,
    pub annotations: String,
    pub pages: PageRefs,
}

} // verus!
