//! The tray icon: what it shows while a recording runs and while none does.

use vstd::prelude::*;

verus! {

/// Whether the tray icon asks for attention.
#[derive(Debug, Clone, Copy, PartialEq, Eq, Structural)]
pub enum Status {
    Active,
    Passive,
}

/// The state that the tray icon shows.
pub struct DictateTray {
    recording: bool,
}

impl DictateTray {
    /// Whether the icon shows a recording.
    pub closed spec fn recording(&self) -> bool {
        self.recording
    }

    /// An icon that shows no recording.
    pub fn new() -> (tray: DictateTray)
        ensures
            !tray.recording(),
    {
        DictateTray { recording: false }
    }

    /// Shows that a recording runs, or that none does.
    pub fn set_recording(&mut self, recording: bool)
        ensures
            final(self).recording() == recording,
    {
        self.recording = recording;
    }

    /// The name under which the icon is registered.
    pub fn id(&self) -> (r: String)
        ensures
            r@ == "dictate"@,
    {
        "dictate".into()
    }

    /// The icon's title.
    pub fn title(&self) -> (r: String)
        ensures
            r@ == if self.recording() {
                "Dictate (recording)"@
            } else {
                "Dictate"@
            },
    {
        if self.recording {
            "Dictate (recording)".into()
        } else {
            "Dictate".into()
        }
    }

    /// The name of the icon in the icon theme.
    pub fn icon_name(&self) -> (r: String)
        ensures
            r@ == "audio-input-microphone"@,
    {
        "audio-input-microphone".into()
    }

    /// Whether the icon asks for attention: while a recording runs.
    pub fn status(&self) -> (r: Status)
        ensures
            r == if self.recording() {
                Status::Active
            } else {
                Status::Passive
            },
    {
        if self.recording {
            Status::Active
        } else {
            Status::Passive
        }
    }
}

} // verus!
