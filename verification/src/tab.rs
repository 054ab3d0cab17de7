use vstd::prelude::*;

verus! {

/// The version number that a UUID carries in bits 76..80 of its big-endian value.
pub open spec fn uuid_version(id: u128) -> u128 {
    (id >> 76u128) & 0xfu128
}

/// The variant field that a UUID carries in bits 62..64 of its big-endian value
/// (`0b10` is the RFC 4122 variant).
pub open spec fn uuid_variant(id: u128) -> u128 {
    (id >> 62u128) & 0x3u128
}

/// A fresh random identifier from `uuid::Uuid::new_v4`, as its big-endian `u128`
/// (`Uuid::as_u128`).
///
/// Trusted: `new_v4` masks a random 128-bit value so that the version nibble is 4
/// and the variant bits are `0b10`; that is all this contract claims. Which random
/// value comes out is left unsaid.
#[verifier::external_body]
pub(crate) fn new_v4_id() -> (id: u128)
    ensures
        uuid_version(id) == 4,
        uuid_variant(id) == 2,
{
    uuid::Uuid::new_v4().as_u128()
}

/// One open document.
#[derive(Clone, Debug)]
pub struct Tab {
    /// Random version-4 UUID, as its big-endian `u128`.
    pub id: u128,
    pub title: String,
    pub content: String,
    /// Whether the content may differ from what was last saved.
    pub dirty: bool,
    /// Where the document was loaded from or last saved to.
    pub file_path: Option<String>,
}

/// The mathematical value of a [`Tab`].
pub struct TabView {
    pub id: u128,
    pub title: Seq<char>,
    pub content: Seq<char>,
    pub dirty: bool,
    pub file_path: Option<Seq<char>>,
}

pub open spec fn opt_string_view(s: Option<String>) -> Option<Seq<char>> {
    match s {
        Some(p) => Some(p@),
        None => None,
    }
}

impl View for Tab {
    type V = TabView;

    open spec fn view(&self) -> TabView {
        TabView {
            id: self.id,
            title: self.title@,
            content: self.content@,
            dirty: self.dirty,
            file_path: opt_string_view(self.file_path),
        }
    }
}

impl Tab {
    /// A new, empty, clean tab with the given title and a fresh random id.
    pub fn new(title: &str) -> (tab: Tab)
        ensures
            tab.title@ == title@,
            tab.content@ == Seq::<char>::empty(),
            !tab.dirty,
            tab.file_path is None,
            uuid_version(tab.id) == 4,
            uuid_variant(tab.id) == 2,
    {
        Tab {
            id: new_v4_id(),
            title: title.to_owned(),
            content: String::new(),
            dirty: false,
            file_path: None,
        }
    }
}

} // verus!
