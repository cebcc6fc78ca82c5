//! The store backend's decision logic, on plain values: what a read of the
//! backing file means for the caller, and what text a save must write. The
//! embedding application performs the file system accesses themselves and
//! passes their outcomes in; absence and corruption both degrade to an
//! empty list, while the reason is kept apart so a caller can tell a fresh
//! start from a damaged file.
//!
//! The store takes no lock of any kind: two callers that read, update and
//! write around the same time each compute from their own read, and the
//! later write wins, silently discarding the earlier update.

use vstd::prelude::*;
use vstd::string::*;
use crate::codec::encode_document;
use crate::codec::encoded_document;
use crate::codec::lemma_document_round_trip;
use crate::codec::parse_document;
use crate::codec::parse_document_spec;
use crate::policy::promote;
use crate::policy::promote_spec;

verus! {

/// What reading the backing file produced: no file at all, a file that
/// could not be read, or its full text.
pub enum ReadOutcome {
    Missing,
    Unreadable,
    Content(String),
}

/// Why a load produced the list it did.
#[derive(Clone, Copy, PartialEq, Eq, Structural, Debug)]
pub enum LoadOrigin {
    FreshStart,
    UnreadableFile,
    MalformedDocument,
    WellFormedDocument,
}

/// The list a read outcome stands for: the document's entries where the
/// text parses, the empty list on absence, unreadability or corruption.
pub open spec fn load_spec(r: ReadOutcome) -> Seq<Seq<char>> {
    match r {
        ReadOutcome::Content(c) => match parse_document_spec(c@) {
            Some(items) => items,
            None => Seq::empty(),
        },
        _ => Seq::empty(),
    }
}

/// The reason a read outcome yields its list.
pub open spec fn origin_spec(r: ReadOutcome) -> LoadOrigin {
    match r {
        ReadOutcome::Missing => LoadOrigin::FreshStart,
        ReadOutcome::Unreadable => LoadOrigin::UnreadableFile,
        ReadOutcome::Content(c) => if parse_document_spec(c@) is Some {
            LoadOrigin::WellFormedDocument
        } else {
            LoadOrigin::MalformedDocument
        },
    }
}

/// Interpret what reading the backing file produced: the list it stands
/// for, together with the reason. A missing file is the expected first-run
/// state; an unreadable or malformed file degrades to the empty list
/// instead of failing the caller.
pub fn interpret_read(r: &ReadOutcome) -> (out: (Vec<String>, LoadOrigin))
    ensures
        out.0.deep_view() == load_spec(*r),
        out.1 == origin_spec(*r),
{
    match r {
        ReadOutcome::Missing => {
            let empty: Vec<String> = Vec::new();
            proof {
                assert(empty.deep_view() =~= Seq::<Seq<char>>::empty());
            }
            (empty, LoadOrigin::FreshStart)
        },
        ReadOutcome::Unreadable => {
            let empty: Vec<String> = Vec::new();
            proof {
                assert(empty.deep_view() =~= Seq::<Seq<char>>::empty());
            }
            (empty, LoadOrigin::UnreadableFile)
        },
        ReadOutcome::Content(c) => {
            match parse_document(c.as_str()) {
                Some(items) => (items, LoadOrigin::WellFormedDocument),
                None => {
                    let empty: Vec<String> = Vec::new();
                    proof {
                        assert(empty.deep_view() =~= Seq::<Seq<char>>::empty());
                    }
                    (empty, LoadOrigin::MalformedDocument)
                },
            }
        },
    }
}

/// The list-read operation on the file's content alone: never fails, and
/// returns the empty list wherever no well-formed document was read.
pub fn load_list(r: &ReadOutcome) -> (list: Vec<String>)
    ensures
        list.deep_view() == load_spec(*r),
{
    let out = interpret_read(r);
    out.0
}

/// The document text that saving `list` must write, replacing any prior
/// content of the backing file.
pub fn render_document(list: &Vec<String>) -> (doc: String)
    ensures
        doc@ == encoded_document(list.deep_view()),
{
    encode_document(list)
}

/// The add-one update on plain values: the text to persist after the
/// entry just used is promoted into whatever list the read produced.
pub fn next_document(r: &ReadOutcome, entry: &String) -> (doc: String)
    ensures
        doc@ == encoded_document(promote_spec(load_spec(*r), entry@)),
{
    let current = load_list(r);
    let updated = promote(&current, entry);
    render_document(&updated)
}

/// The fixed name of the backing file inside the host-supplied
/// application data directory.
pub fn store_file_name() -> (n: String)
    ensures
        n@ == "recent_files.json"@,
{
    String::from_str("recent_files.json")
}

/// The store-level round trip law: loading content that was rendered from
/// a list gives that list back, order and contents alike, and such content
/// is always a well-formed document.
pub proof fn lemma_load_after_save(r: ReadOutcome, items: Seq<Seq<char>>)
    requires
        r matches ReadOutcome::Content(c) && c@ == encoded_document(items),
    ensures
        load_spec(r) == items,
        origin_spec(r) == LoadOrigin::WellFormedDocument,
{
    lemma_document_round_trip(items);
}

} // verus!
