//! The explorer's state machine: which screen is shown, and how each
//! message moves it, independent of any windowing toolkit.
//!
//! The document itself is an opaque handle `D`: the machine stores and
//! returns it but never looks inside.

use vstd::prelude::*;

use crate::dump::push_chars;

verus! {

/// How a pick-and-import workflow ended.
#[derive(Clone, Debug, PartialEq, Eq)]
pub enum PickAndImport<D> {
    NoFileSelected,
    Finished(D),
    Errored(String),
}

/// What the surrounding shell reports to the state machine.
#[derive(Clone, Debug)]
pub enum Message<D> {
    OpenFileDialog,
    DocumentOpenProgress(PickAndImport<D>),
}

/// The explorer's screen: a welcome screen, a file choice over it, a
/// document, or a file choice over a document.
#[derive(Clone, Debug)]
pub enum State<D> {
    Initial,
    ChoosingInitialDocument,
    ExploringDocument(D),
    ChoosingNewDocument(D),
}

/// The transition table: opening the dialog is allowed from the welcome
/// screen and from a shown document; a finished import shows its document;
/// a cancelled or failed pick returns to what was shown before, keeping an
/// already-open document intact.
pub open spec fn spec_update<D>(s: State<D>, m: Message<D>) -> State<D> {
    match m {
        Message::OpenFileDialog => match s {
            State::Initial => State::ChoosingInitialDocument,
            State::ExploringDocument(d) => State::ChoosingNewDocument(d),
            State::ChoosingInitialDocument => State::ChoosingInitialDocument,
            State::ChoosingNewDocument(d) => State::ChoosingNewDocument(d),
        },
        Message::DocumentOpenProgress(p) => match s {
            State::Initial => State::Initial,
            State::ExploringDocument(d) => State::ExploringDocument(d),
            State::ChoosingInitialDocument => match p {
                PickAndImport::NoFileSelected => State::Initial,
                PickAndImport::Finished(d) => State::ExploringDocument(d),
                PickAndImport::Errored(_) => State::Initial,
            },
            State::ChoosingNewDocument(d) => match p {
                PickAndImport::NoFileSelected => State::ExploringDocument(d),
                PickAndImport::Finished(nd) => State::ExploringDocument(nd),
                PickAndImport::Errored(_) => State::ExploringDocument(d),
            },
        },
    }
}

/// The state the explorer starts in: showing the document it was handed,
/// or the welcome screen.
pub fn initial_state<D>(document: Option<D>) -> (r: State<D>)
    ensures
        ({
            match document {
                Some(d) => r == State::ExploringDocument(d),
                None => r == State::<D>::Initial,
            }
        }),
{
    match document {
        Some(d) => State::ExploringDocument(d),
        None => State::Initial,
    }
}

/// Fold one message into the state, as `spec_update` says.
pub fn update<D>(s: State<D>, m: Message<D>) -> (r: State<D>)
    ensures
        r == spec_update(s, m),
{
    match m {
        Message::OpenFileDialog => match s {
            State::Initial => State::ChoosingInitialDocument,
            State::ExploringDocument(d) => State::ChoosingNewDocument(d),
            other => other,
        },
        Message::DocumentOpenProgress(p) => match s {
            State::Initial => State::Initial,
            State::ExploringDocument(d) => State::ExploringDocument(d),
            State::ChoosingInitialDocument => match p {
                PickAndImport::Finished(d) => State::ExploringDocument(d),
                _ => State::Initial,
            },
            State::ChoosingNewDocument(d) => match p {
                PickAndImport::Finished(nd) => State::ExploringDocument(nd),
                _ => State::ExploringDocument(d),
            },
        },
    }
}

/// Whether a file-choice workflow should be running.
pub fn wants_dialog<D>(s: &State<D>) -> (r: bool)
    ensures
        r == (s is ChoosingInitialDocument || s is ChoosingNewDocument),
{
    match s {
        State::ChoosingInitialDocument => true,
        State::ChoosingNewDocument(_) => true,
        _ => false,
    }
}

/// Whether the open-file button should react: only while no choice is
/// already in progress.
pub fn can_open_dialog<D>(s: &State<D>) -> (r: bool)
    ensures
        r == (s is Initial || s is ExploringDocument),
{
    match s {
        State::Initial => true,
        State::ExploringDocument(_) => true,
        _ => false,
    }
}

/// The document currently shown, if any: one is shown while it is
/// explored and while a new choice hovers over it.
pub fn displayed_document<'s, D>(s: &'s State<D>) -> (r: Option<&'s D>)
    ensures
        match r {
            Some(d) => (s is ExploringDocument && *d == s->ExploringDocument_0) || (s
                is ChoosingNewDocument && *d == s->ChoosingNewDocument_0),
            None => s is Initial || s is ChoosingInitialDocument,
        },
{
    match s {
        State::ExploringDocument(d) => Some(d),
        State::ChoosingNewDocument(d) => Some(d),
        _ => None,
    }
}

/// The window title: the application's name, prefixed by the shown
/// document's file name when there is one.
pub fn title(document_name: Option<&str>) -> (out: Vec<char>)
    ensures
        match document_name {
            Some(n) => out@ == n@ + " - "@ + "glTF Explorer"@,
            None => out@ == "glTF Explorer"@,
        },
{
    let mut out: Vec<char> = Vec::new();
    match document_name {
        Some(n) => {
            push_chars(&mut out, n);
            push_chars(&mut out, " - ");
            push_chars(&mut out, "glTF Explorer");
        },
        None => {
            push_chars(&mut out, "glTF Explorer");
        },
    }
    out
}

/// Classify the file dialog's outcome: a chosen path is handed on to the
/// import, anything else already is the workflow's report.
pub fn dialog_result<D>(res: Result<Option<String>, String>) -> (r: Result<
    String,
    PickAndImport<D>,
>)
    ensures
        match res {
            Ok(p) => match p {
                Some(path) => r == Ok::<String, PickAndImport<D>>(path),
                None => r == Err::<String, PickAndImport<D>>(PickAndImport::NoFileSelected),
            },
            Err(e) => r == Err::<String, PickAndImport<D>>(PickAndImport::Errored(e)),
        },
{
    match res {
        Ok(Some(path)) => Ok(path),
        Ok(None) => Err(PickAndImport::NoFileSelected),
        Err(e) => Err(PickAndImport::Errored(e)),
    }
}

/// Classify the import's outcome as the workflow's report.
pub fn import_result<D>(res: Result<D, String>) -> (r: PickAndImport<D>)
    ensures
        match res {
            Ok(d) => r == PickAndImport::Finished(d),
            Err(e) => r == PickAndImport::<D>::Errored(e),
        },
{
    match res {
        Ok(d) => PickAndImport::Finished(d),
        Err(e) => PickAndImport::Errored(e),
    }
}

/// Law: a pick that ends without a new document — cancelled or failed —
/// leaves an already-open document shown, unchanged.
pub proof fn lemma_failed_import_keeps_document<D>(d: D, e: String)
    ensures
        spec_update(
            State::ChoosingNewDocument(d),
            Message::DocumentOpenProgress(PickAndImport::Errored(e)),
        ) == State::ExploringDocument(d),
        spec_update(
            State::ChoosingNewDocument(d),
            Message::DocumentOpenProgress(PickAndImport::<D>::NoFileSelected),
        ) == State::ExploringDocument(d),
{
}

} // verus!
