//! The package manifest, the opened document, and the resolution chain that
//! leads from the manifest entry to the document root.

use vstd::prelude::*;

use crate::document::Document;
use crate::metadata::{attribute_map, custom_map_of, DocInfo};
use crate::string_map::StringMap;

verus! {

/// zip's `ZipError`, declared so that an archive error can be carried in
/// `OfdError`; nothing is assumed of it.
#[verifier::external_type_specification]
#[verifier::external_body]
pub struct ExZipError(zip::result::ZipError);

/// serde_xml_rs's `Error`, declared so that a decoding error can be carried
/// in `OfdError`; nothing is assumed of it.
#[verifier::external_type_specification]
#[verifier::external_body]
pub struct ExXmlError(serde_xml_rs::Error);

/// std's `io::Error`, declared so that a read error can be carried in
/// `OfdError`; nothing is assumed of it.
#[verifier::external_type_specification]
#[verifier::external_body]
pub struct ExIoError(std::io::Error);

/// A value of the document's summary.
pub enum Value {
    String(String),
    ListString(Vec<String>),
    MapString(StringMap),
    LisMapString(Vec<StringMap>),
}

/// Why a document could not be opened.
#[derive(Debug)]
pub enum OfdError {
    /// The archive could not be opened, or lacks an entry that it must hold.
    ZipError(zip::result::ZipError),
    /// An entry could not be read.
    IoError(std::io::Error),
    /// An entry's XML does not have the expected shape.
    SerdeXmlError(serde_xml_rs::Error),
}

/// The body of the package manifest.
pub struct DocBody {
    pub doc_info: DocInfo,
    /// Path of the document-root entry inside the same archive.
    pub doc_root: String,
}

/// The decoded package manifest.
pub struct OfdNode {
    pub doc_body: DocBody,
}

/// An opened document: the manifest, the document root, and the metadata
/// flattened from the manifest.
pub struct OfdDoc {
    pub node: OfdNode,
    pub document: Document,
    pub attributes: StringMap,
    pub custom_datas: StringMap,
}

/// The name of the manifest entry, at the top of every archive.
pub const MANIFEST_ENTRY: &'static str = "OFD.xml";

/// Where the opening of a document stands.
pub enum OpenState {
    /// The manifest entry has been asked for.
    ReadingManifest,
    /// The manifest is decoded; the document root it names has been asked for.
    ReadingDocRoot(OfdNode),
    /// The document is open.
    Opened(OfdDoc),
    /// Opening failed; nothing more is read.
    Failed(OfdError),
}

/// What the caller reports back: the outcome of the read it was asked for.
pub enum OpenEvent {
    /// The manifest entry was read and decoded, or reading or decoding failed.
    ManifestRead(Result<OfdNode, OfdError>),
    /// The document-root entry was read and decoded, or reading or decoding failed.
    DocRootRead(Result<Document, OfdError>),
}

/// What the caller is to do next.
pub enum OpenRequest {
    /// Read the named entry of the archive and decode it as the manifest.
    ReadManifest(String),
    /// Read the named entry of the archive and decode it as the document root.
    ReadDocRoot(String),
    /// Nothing: opening is over.
    Stop,
}

/// `r` asks for the manifest entry.
pub open spec fn asks_manifest(r: OpenRequest) -> bool {
    r matches OpenRequest::ReadManifest(p) && p@ == MANIFEST_ENTRY@
}

/// `r` asks for the document root that `n` names.
pub open spec fn asks_doc_root(r: OpenRequest, n: OfdNode) -> bool {
    r matches OpenRequest::ReadDocRoot(p) && p@ == n.doc_body.doc_root@
}

/// The request that stands while in state `s`.
pub open spec fn pending(s: OpenState, r: OpenRequest) -> bool {
    match s {
        OpenState::ReadingManifest => asks_manifest(r),
        OpenState::ReadingDocRoot(n) => asks_doc_root(r, n),
        _ => r is Stop,
    }
}

/// `d` is the document opened from manifest `n` and document root `doc`.
pub open spec fn opened_from(d: OfdDoc, n: OfdNode, doc: Document) -> bool {
    &&& d.node == n
    &&& d.document == doc
    &&& d.attributes@ == attribute_map(n.doc_body.doc_info)
    &&& d.custom_datas@ == custom_map_of(n.doc_body.doc_info.custom_datas)
}

impl OfdDoc {
    /// The document opened from a decoded manifest and document root.
    pub fn from_parts(node: OfdNode, document: Document) -> (r: OfdDoc)
        ensures
            opened_from(r, node, document),
    {
        let attributes = node.doc_body.doc_info.attributes();
        let custom_datas = node.doc_body.doc_info.custom_datas();
        OfdDoc { node, document, attributes, custom_datas }
    }
}

impl OpenState {
    /// The first state: the manifest entry is asked for.
    pub fn start() -> (r: (OpenState, OpenRequest))
        ensures
            r.0 is ReadingManifest,
            pending(r.0, r.1),
    {
        (OpenState::ReadingManifest, OpenRequest::ReadManifest(MANIFEST_ENTRY.to_owned()))
    }

    /// The next state and request, once the pending request has been answered.
    /// A failed read ends the opening with its error; an event that answers
    /// no pending request changes nothing.
    pub fn step(self, ev: OpenEvent) -> (r: (OpenState, OpenRequest))
        ensures
            pending(r.0, r.1),
            match (self, ev) {
                (OpenState::ReadingManifest, OpenEvent::ManifestRead(Ok(n))) => r.0
                    == OpenState::ReadingDocRoot(n),
                (OpenState::ReadingManifest, OpenEvent::ManifestRead(Err(e))) => r.0
                    == OpenState::Failed(e),
                (OpenState::ReadingDocRoot(n), OpenEvent::DocRootRead(Ok(doc))) => r.0 matches OpenState::Opened(d)
                    && opened_from(d, n, doc),
                (OpenState::ReadingDocRoot(_), OpenEvent::DocRootRead(Err(e))) => r.0
                    == OpenState::Failed(e),
                _ => r.0 == self,
            },
    {
        match (self, ev) {
            (OpenState::ReadingManifest, OpenEvent::ManifestRead(Ok(n))) => {
                let path = n.doc_body.doc_root.clone();
                (OpenState::ReadingDocRoot(n), OpenRequest::ReadDocRoot(path))
            },
            (OpenState::ReadingManifest, OpenEvent::ManifestRead(Err(e))) => {
                (OpenState::Failed(e), OpenRequest::Stop)
            },
            (OpenState::ReadingDocRoot(n), OpenEvent::DocRootRead(Ok(doc))) => {
                (OpenState::Opened(OfdDoc::from_parts(n, doc)), OpenRequest::Stop)
            },
            (OpenState::ReadingDocRoot(_), OpenEvent::DocRootRead(Err(e))) => {
                (OpenState::Failed(e), OpenRequest::Stop)
            },
            (s, _) => {
                let req = s.request();
                (s, req)
            },
        }
    }

    /// The request that stands in this state.
    pub fn request(&self) -> (r: OpenRequest)
        ensures
            pending(*self, r),
    {
        match self {
            OpenState::ReadingManifest => OpenRequest::ReadManifest(MANIFEST_ENTRY.to_owned()),
            OpenState::ReadingDocRoot(n) => OpenRequest::ReadDocRoot(n.doc_body.doc_root.clone()),
            _ => OpenRequest::Stop,
        }
    }
}

} // verus!
