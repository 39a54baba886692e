//! What a clipboard backend hands to the daemon.

use vstd::prelude::*;

verus! {

/// The kind of content read from the clipboard.
#[derive(Debug, Clone, Copy, PartialEq, Eq, Structural)]
pub enum ClipKind {
    Text,
    Image,
    Html,
}

/// Content read from the clipboard.
#[derive(Debug, Clone)]
pub struct ClipData {
    pub kind: ClipKind,
    pub bytes: Vec<u8>,
    pub mime: Option<String>,
}

/// A source of clipboard content.
pub trait ClipboardBackend: Send + Sync {
    /// What the clipboard holds now, if anything.
    fn read_current(&self) -> Option<ClipData>;
}

} // verus!
