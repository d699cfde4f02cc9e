//! Requests that a key handler cannot serve itself and hands to its caller.
use vstd::prelude::*;

verus! {

/// What a key asks of the language server or of its diagnostics.
#[derive(Debug, Clone, Copy, PartialEq, Eq, Structural)]
pub enum LspAction {
    GotoDefinition,
    Hover,
    NextDiagnostic,
    PrevDiagnostic,
}

/// The prefix of a two-key jump.
#[derive(Debug, Clone, Copy, PartialEq, Eq, Structural)]
pub enum BracketDir {
    Next,
    Prev,
}

/// A step through the jump list.
#[derive(Debug, Clone, Copy, PartialEq, Eq, Structural)]
pub enum JumpAction {
    Back,
    Forward,
}

/// What a command asks of the list of open buffers and of the disk.
#[derive(Debug, PartialEq, Eq)]
pub enum ExAction {
    OpenFile(String),
    NextBuffer,
    PrevBuffer,
    ListBuffers,
    Save,
    ForceSave,
    SaveAndQuit,
    Quit,
    ForceQuit,
    Reload,
}

/// An `ExAction` with its file name as characters.
pub enum ExRequest {
    OpenFile(Seq<char>),
    NextBuffer,
    PrevBuffer,
    ListBuffers,
    Save,
    ForceSave,
    SaveAndQuit,
    Quit,
    ForceQuit,
    Reload,
}

impl View for ExAction {
    type V = ExRequest;

    open spec fn view(&self) -> ExRequest {
        match self {
            ExAction::OpenFile(p) => ExRequest::OpenFile(p@),
            ExAction::NextBuffer => ExRequest::NextBuffer,
            ExAction::PrevBuffer => ExRequest::PrevBuffer,
            ExAction::ListBuffers => ExRequest::ListBuffers,
            ExAction::Save => ExRequest::Save,
            ExAction::ForceSave => ExRequest::ForceSave,
            ExAction::SaveAndQuit => ExRequest::SaveAndQuit,
            ExAction::Quit => ExRequest::Quit,
            ExAction::ForceQuit => ExRequest::ForceQuit,
            ExAction::Reload => ExRequest::Reload,
        }
    }
}

impl Clone for ExAction {
    fn clone(&self) -> (r: ExAction)
        ensures
            r@ == self@,
    {
        match self {
            ExAction::OpenFile(p) => ExAction::OpenFile(p.clone()),
            ExAction::NextBuffer => ExAction::NextBuffer,
            ExAction::PrevBuffer => ExAction::PrevBuffer,
            ExAction::ListBuffers => ExAction::ListBuffers,
            ExAction::Save => ExAction::Save,
            ExAction::ForceSave => ExAction::ForceSave,
            ExAction::SaveAndQuit => ExAction::SaveAndQuit,
            ExAction::Quit => ExAction::Quit,
            ExAction::ForceQuit => ExAction::ForceQuit,
            ExAction::Reload => ExAction::Reload,
        }
    }
}

pub open spec fn opt_request(o: Option<ExAction>) -> Option<ExRequest> {
    match o {
        Some(a) => Some(a@),
        None => None,
    }
}

}
