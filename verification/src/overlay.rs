//! The overlay: a bar at the bottom of the screen that shows the text so far.

use vstd::prelude::*;

verus! {

/// The least height of the bar.
pub const BAR_HEIGHT: u32 = 48;

/// The height of a line of text.
pub const LINE_HEIGHT: i32 = 20;

/// The space left and right of the text.
pub const PADDING_X: i32 = 16;

/// What the overlay is told to do.
pub enum Command {
    Show,
    Hide,
    SetText(String),
    Shutdown,
}

/// What the overlay's state amounts to.
pub struct OverlayView {
    /// The text in the bar.
    pub text: Seq<char>,
    /// Whether the bar is shown.
    pub visible: bool,
    /// Whether the compositor has given the bar a size.
    pub configured: bool,
    pub width: u32,
    pub height: u32,
    /// Whether the overlay is to go away.
    pub exit: bool,
}

/// The state before anything has happened.
pub open spec fn initial() -> OverlayView {
    OverlayView {
        text: Seq::empty(),
        visible: false,
        configured: false,
        width: 0,
        height: BAR_HEIGHT,
        exit: false,
    }
}

/// The state after a command.
pub open spec fn after_command(v: OverlayView, command: Command) -> OverlayView {
    match command {
        Command::Show => OverlayView { visible: true, text: "Recording..."@, ..v },
        Command::Hide => OverlayView { visible: false, ..v },
        Command::SetText(text) => OverlayView { text: text@, ..v },
        Command::Shutdown => OverlayView { exit: true, ..v },
    }
}

/// Whether the bar is to be drawn again after a command: showing and hiding
/// always ask for it, new text only while the bar is shown.
pub open spec fn asks_for_redraw(v: OverlayView, command: Command) -> bool {
    match command {
        Command::Show => true,
        Command::Hide => true,
        Command::SetText(_) => v.visible,
        Command::Shutdown => false,
    }
}

/// The state after the compositor has given the bar a size.
pub open spec fn after_configure(v: OverlayView, width: u32, height: u32) -> OverlayView {
    OverlayView {
        width: if width < 1 {
            1
        } else {
            width
        },
        height: if height < BAR_HEIGHT {
            BAR_HEIGHT
        } else {
            height
        },
        configured: true,
        ..v
    }
}

/// The state after the compositor has closed the bar.
pub open spec fn after_close(v: OverlayView) -> OverlayView {
    OverlayView { exit: true, ..v }
}

/// Whether there is anything to draw on.
pub open spec fn drawable(v: OverlayView) -> bool {
    v.width != 0 && v.configured
}

/// Whether sizes and offsets in a bar of this size are signed 32-bit numbers.
pub open spec fn size_fits(width: int, height: int) -> bool {
    width * 4 <= i32::MAX && height <= i32::MAX && width * height <= i32::MAX
}

/// The measures of a frame to be drawn.
#[derive(Debug, Clone, Copy, PartialEq, Eq, Structural)]
pub struct Frame {
    pub width: i32,
    pub height: i32,
    /// The bytes in a row.
    pub stride: i32,
}

impl Frame {
    /// What holds of the measures of every frame.
    pub open spec fn wf(self) -> bool {
        &&& 1 <= self.width
        &&& BAR_HEIGHT <= self.height
        &&& self.stride == 4 * self.width
        &&& size_fits(self.width as int, self.height as int)
    }

    /// The space above the text: it stands in the middle.
    pub open spec fn pad_y(self) -> int {
        if self.height < LINE_HEIGHT {
            0
        } else {
            (self.height - LINE_HEIGHT) / 2
        }
    }

    /// The width that the text may take; it is negative where the bar is narrower
    /// than its padding.
    pub fn text_width(&self) -> (r: i32)
        requires
            self.wf(),
        ensures
            r == self.width - 2 * PADDING_X,
    {
        self.width - PADDING_X * 2
    }

    /// The space above the text.
    pub fn text_top(&self) -> (r: i32)
        requires
            self.wf(),
        ensures
            r == self.pad_y(),
    {
        (self.height - LINE_HEIGHT) / 2
    }
}

/// The overlay's state.
pub struct Overlay {
    text: String,
    visible: bool,
    configured: bool,
    width: u32,
    height: u32,
    exit: bool,
}

impl View for Overlay {
    type V = OverlayView;

    closed spec fn view(&self) -> OverlayView {
        OverlayView {
            text: self.text@,
            visible: self.visible,
            configured: self.configured,
            width: self.width,
            height: self.height,
            exit: self.exit,
        }
    }
}

impl Overlay {
    /// The overlay's invariant: the bar is never lower than its least height.
    pub open spec fn wf(&self) -> bool {
        self@.height >= BAR_HEIGHT
    }

    /// An overlay that is hidden and has no size yet.
    pub fn new() -> (o: Overlay)
        ensures
            o.wf(),
            o@ == initial(),
    {
        Overlay {
            text: String::new(),
            visible: false,
            configured: false,
            width: 0,
            height: BAR_HEIGHT,
            exit: false,
        }
    }

    /// Carries out a command; says whether the bar is to be drawn again.
    pub fn apply(&mut self, command: Command) -> (redraw: bool)
        requires
            old(self).wf(),
        ensures
            final(self).wf(),
            final(self)@ == after_command(old(self)@, command),
            redraw == asks_for_redraw(old(self)@, command),
    {
        match command {
            Command::Show => {
                self.visible = true;
                self.text = "Recording...".into();
                true
            },
            Command::Hide => {
                self.visible = false;
                true
            },
            Command::SetText(text) => {
                self.text = text;
                self.visible
            },
            Command::Shutdown => {
                self.exit = true;
                false
            },
        }
    }

    /// Takes the size that the compositor gives the bar; the bar is then to be
    /// drawn again.
    pub fn configure(&mut self, width: u32, height: u32)
        ensures
            final(self).wf(),
            final(self)@ == after_configure(old(self)@, width, height),
    {
        self.width = if width < 1 {
            1
        } else {
            width
        };
        self.height = if height < BAR_HEIGHT {
            BAR_HEIGHT
        } else {
            height
        };
        self.configured = true;
    }

    /// Takes note that the compositor has closed the bar.
    pub fn closed(&mut self)
        ensures
            final(self)@ == after_close(old(self)@),
    {
        self.exit = true;
    }

    /// Whether the overlay is to go away.
    pub fn exiting(&self) -> (r: bool)
        ensures
            r == self@.exit,
    {
        self.exit
    }

    /// Whether the bar is shown.
    pub fn is_visible(&self) -> (r: bool)
        ensures
            r == self@.visible,
    {
        self.visible
    }

    /// The text in the bar.
    pub fn text(&self) -> (r: &str)
        ensures
            r@ == self@.text,
    {
        self.text.as_str()
    }

    /// Whether sizes and offsets in the bar are signed 32-bit numbers.
    pub fn fits(&self) -> (r: bool)
        ensures
            r == size_fits(self@.width as int, self@.height as int),
    {
        let width: u64 = self.width as u64;
        let height: u64 = self.height as u64;
        assert(width * height <= u32::MAX * u32::MAX) by (nonlinear_arith)
            requires
                width <= u32::MAX,
                height <= u32::MAX,
        ;
        width * 4 <= i32::MAX as u64 && height <= i32::MAX as u64 && width * height
            <= i32::MAX as u64
    }

    /// The measures to draw the bar with; nothing where there is nothing to draw on.
    pub fn redraw(&self) -> (r: Option<Frame>)
        requires
            self.wf(),
            drawable(self@) ==> size_fits(self@.width as int, self@.height as int),
        ensures
            match r {
                None => !drawable(self@),
                Some(f) => {
                    &&& drawable(self@)
                    &&& f.wf()
                    &&& f.width == self@.width
                    &&& f.height == self@.height
                },
            },
    {
        if self.width == 0 || !self.configured {
            return None;
        }
        let width: i32 = self.width as i32;
        let height: i32 = self.height as i32;
        Some(Frame { width, height, stride: width * 4 })
    }
}

/// Something that happens to the overlay.
pub enum OverlayEvent {
    Command(Command),
    Configure(u32, u32),
    Closed,
}

/// The state after an event.
pub open spec fn after_event(v: OverlayView, event: OverlayEvent) -> OverlayView {
    match event {
        OverlayEvent::Command(command) => after_command(v, command),
        OverlayEvent::Configure(width, height) => after_configure(v, width, height),
        OverlayEvent::Closed => after_close(v),
    }
}

/// The state after a run of events.
pub open spec fn after_events(v: OverlayView, events: Seq<OverlayEvent>) -> OverlayView
    decreases events.len(),
{
    if events.len() == 0 {
        v
    } else {
        after_event(after_events(v, events.drop_last()), events.last())
    }
}

/// Whatever happens, once the overlay is to go away it stays so; once it has a
/// size it keeps having one; and the bar is never empty or too low once it can be
/// drawn.
pub proof fn lemma_overlay_history(v: OverlayView, events: Seq<OverlayEvent>)
    requires
        v.height >= BAR_HEIGHT,
        v.configured ==> v.width >= 1,
    ensures
        v.exit ==> after_events(v, events).exit,
        v.configured ==> after_events(v, events).configured,
        after_events(v, events).height >= BAR_HEIGHT,
        after_events(v, events).configured ==> drawable(after_events(v, events)),
    decreases events.len(),
{
    if events.len() > 0 {
        lemma_overlay_history(v, events.drop_last());
    }
}

/// Whether an event says if the bar is shown.
pub open spec fn sets_visibility(event: OverlayEvent) -> bool {
    event matches OverlayEvent::Command(command) && (command is Show || command is Hide)
}

/// Whether an event says what the text is.
pub open spec fn sets_text(event: OverlayEvent) -> bool {
    event matches OverlayEvent::Command(command) && (command is Show || command is SetText)
}

/// The text that an event gives the bar.
pub open spec fn text_given(event: OverlayEvent) -> Seq<char> {
    match event {
        OverlayEvent::Command(Command::SetText(text)) => text@,
        _ => "Recording..."@,
    }
}

/// Whether `i` is the last of the events of which `p` holds.
pub open spec fn is_last(
    events: Seq<OverlayEvent>,
    p: spec_fn(OverlayEvent) -> bool,
    i: int,
) -> bool {
    &&& 0 <= i < events.len()
    &&& p(events[i])
    &&& forall|j: int| i < j < events.len() ==> !p(#[trigger] events[j])
}

/// Whether the bar is shown is what the last `Show` or `Hide` said, whatever else
/// has happened.
pub proof fn lemma_last_word_on_visibility(v: OverlayView, events: Seq<OverlayEvent>, i: int)
    requires
        is_last(events, |e: OverlayEvent| sets_visibility(e), i),
    ensures
        after_events(v, events).visible == (events[i] == OverlayEvent::Command(Command::Show)),
    decreases events.len(),
{
    let last = events.len() - 1;
    if i < last {
        assert(!sets_visibility(events[last]));
        let short = events.drop_last();
        assert(forall|j: int| 0 <= j < last ==> #[trigger] short[j] == events[j]);
        lemma_last_word_on_visibility(v, short, i);
    }
}

/// The text in the bar is what the last `Show` or `SetText` gave, whatever else
/// has happened.
pub proof fn lemma_last_word_on_text(v: OverlayView, events: Seq<OverlayEvent>, i: int)
    requires
        is_last(events, |e: OverlayEvent| sets_text(e), i),
    ensures
        after_events(v, events).text == text_given(events[i]),
    decreases events.len(),
{
    let last = events.len() - 1;
    if i < last {
        assert(!sets_text(events[last]));
        let short = events.drop_last();
        assert(forall|j: int| 0 <= j < last ==> #[trigger] short[j] == events[j]);
        lemma_last_word_on_text(v, short, i);
    }
}

/// Without a `Show` or `Hide` the bar stays shown or hidden; without a `Show` or
/// `SetText` its text stays.
pub proof fn lemma_nothing_said(v: OverlayView, events: Seq<OverlayEvent>)
    ensures
        (forall|j: int| 0 <= j < events.len() ==> !sets_visibility(#[trigger] events[j]))
            ==> after_events(v, events).visible == v.visible,
        (forall|j: int| 0 <= j < events.len() ==> !sets_text(#[trigger] events[j]))
            ==> after_events(v, events).text == v.text,
    decreases events.len(),
{
    if events.len() > 0 {
        let short = events.drop_last();
        assert(forall|j: int| 0 <= j < short.len() ==> #[trigger] short[j] == events[j]);
        assert(events.last() == events[events.len() - 1]);
        lemma_nothing_said(v, short);
    }
}

/// Commands never change the size of the bar, and no command but `Shutdown` makes
/// it go away.
pub proof fn lemma_commands_keep_size(v: OverlayView, command: Command)
    ensures
        after_command(v, command).width == v.width,
        after_command(v, command).height == v.height,
        after_command(v, command).configured == v.configured,
        command !is Shutdown ==> after_command(v, command).exit == v.exit,
{
}

/// What is on the screen is up to date: a command that does not ask for a redraw
/// changes nothing that a drawn bar shows.
pub proof fn lemma_no_redraw_is_missed(v: OverlayView, command: Command)
    requires
        !asks_for_redraw(v, command),
    ensures
        after_command(v, command).visible == v.visible,
        v.visible ==> after_command(v, command).text == v.text,
{
}

/// Before anything has happened the bar is hidden, without text and without a
/// size of its own, and not to go away.
pub proof fn lemma_before_anything()
    ensures
        initial().text.len() == 0,
        !initial().visible,
        !initial().configured,
        !initial().exit,
        initial().width == 0,
        initial().height == 48,
{
}

/// After a `Show` the bar is shown, and after a `Hide` it is not, whatever else
/// than these two comes behind.
pub proof fn lemma_shown_since(v: OverlayView, events: Seq<OverlayEvent>, i: int)
    requires
        0 <= i < events.len(),
        forall|j: int|
            i < j < events.len() ==> #[trigger] events[j] != OverlayEvent::Command(Command::Show)
                && events[j] != OverlayEvent::Command(Command::Hide),
    ensures
        events[i] == OverlayEvent::Command(Command::Show) ==> after_events(v, events).visible,
        events[i] == OverlayEvent::Command(Command::Hide) ==> !after_events(v, events).visible,
{
    if events[i] == OverlayEvent::Command(Command::Show) || events[i] == OverlayEvent::Command(
        Command::Hide,
    ) {
        assert forall|j: int| i < j < events.len() implies !sets_visibility(
            #[trigger] events[j],
        ) by {
            assert(events[j] != OverlayEvent::Command(Command::Show));
        }
        lemma_last_word_on_visibility(v, events, i);
    }
}

/// After a `SetText` the bar has that text, character for character, and after a
/// `Show` it says that a recording runs, whatever else than these two comes
/// behind.
pub proof fn lemma_text_since(v: OverlayView, events: Seq<OverlayEvent>, i: int)
    requires
        0 <= i < events.len(),
        forall|j: int|
            i < j < events.len() ==> #[trigger] events[j] != OverlayEvent::Command(Command::Show)
                && !(events[j] matches OverlayEvent::Command(Command::SetText(_))),
    ensures
        events[i] == OverlayEvent::Command(Command::Show) ==> after_events(v, events).text
            == "Recording..."@,
        events[i] matches OverlayEvent::Command(Command::SetText(text)) ==> after_events(
            v,
            events,
        ).text == text@,
{
    let sets = events[i] matches OverlayEvent::Command(Command::SetText(_));
    if events[i] == OverlayEvent::Command(Command::Show) || sets {
        assert forall|j: int| i < j < events.len() implies !sets_text(#[trigger] events[j]) by {
            assert(events[j] != OverlayEvent::Command(Command::Show));
        }
        lemma_last_word_on_text(v, events, i);
    }
}

/// After the compositor has given the bar a size, the bar has that size, but never
/// less than one column and 48 rows, until it is given another.
pub proof fn lemma_size_since(v: OverlayView, events: Seq<OverlayEvent>, i: int, w: u32, h: u32)
    requires
        0 <= i < events.len(),
        events[i] == OverlayEvent::Configure(w, h),
        forall|j: int|
            i < j < events.len() ==> !(#[trigger] events[j] matches OverlayEvent::Configure(_, _)),
    ensures
        ({
            let now = after_events(v, events);
            &&& now.configured
            &&& now.width == w || (w == 0 && now.width == 1)
            &&& now.height == h || (h < 48 && now.height == 48)
            &&& now.width >= 1
            &&& now.height >= 48
            &&& drawable(now)
        }),
    decreases events.len(),
{
    let last = events.len() - 1;
    if i < last {
        assert(!(events[last] matches OverlayEvent::Configure(_, _)));
        let short = events.drop_last();
        assert(forall|j: int| 0 <= j < last ==> #[trigger] short[j] == events[j]);
        lemma_size_since(v, short, i, w, h);
    }
}

/// The overlay is to go away once it has been told to or has been closed, and at
/// no other time.
pub proof fn lemma_gone_since(v: OverlayView, events: Seq<OverlayEvent>)
    ensures
        after_events(v, events).exit <==> v.exit || exists|i: int|
            0 <= i < events.len() && (#[trigger] events[i] == OverlayEvent::Closed || events[i]
                == OverlayEvent::Command(Command::Shutdown)),
    decreases events.len(),
{
    if events.len() > 0 {
        let short = events.drop_last();
        let n = events.len() - 1;
        lemma_gone_since(v, short);
        assert(forall|j: int| 0 <= j < n ==> #[trigger] short[j] == events[j]);
        assert(events.last() == events[n]);
        if exists|i: int|
            0 <= i < n && (#[trigger] events[i] == OverlayEvent::Closed || events[i]
                == OverlayEvent::Command(Command::Shutdown)) {
            let i = choose|i: int|
                0 <= i < n && (#[trigger] events[i] == OverlayEvent::Closed || events[i]
                    == OverlayEvent::Command(Command::Shutdown));
            assert(short[i] == events[i]);
        }
        if exists|i: int|
            0 <= i < short.len() && (#[trigger] short[i] == OverlayEvent::Closed || short[i]
                == OverlayEvent::Command(Command::Shutdown)) {
            let i = choose|i: int|
                0 <= i < short.len() && (#[trigger] short[i] == OverlayEvent::Closed || short[i]
                    == OverlayEvent::Command(Command::Shutdown));
            assert(events[i] == short[i]);
        }
    }
}

/// The bar is drawn again after every `Show` and every `Hide`, and after new text
/// if and only if the bar is shown; a `Shutdown` draws nothing.
pub proof fn lemma_when_to_redraw(v: OverlayView, text: String)
    ensures
        asks_for_redraw(v, Command::Show),
        asks_for_redraw(v, Command::Hide),
        asks_for_redraw(v, Command::SetText(text)) <==> v.visible,
        !asks_for_redraw(v, Command::Shutdown),
{
}

/// Nothing is drawn before the bar has a size.
pub proof fn lemma_when_drawable(v: OverlayView)
    ensures
        drawable(v) <==> v.configured && v.width > 0,
{
}

/// The line of text stands in the middle: above it is as much space as below it,
/// or one row less.
pub proof fn lemma_text_in_the_middle(frame: Frame)
    requires
        frame.wf(),
    ensures
        ({
            let above = frame.pad_y();
            let below = frame.height - 20 - above;
            0 <= above <= below <= above + 1
        }),
        frame.stride == 4 * frame.width,
{
}

/// A bar is too large where its rows, its bytes in a row or its pixels are more
/// than a signed 32-bit number can tell, and only there.
pub proof fn lemma_when_a_bar_fits(width: int, height: int)
    ensures
        size_fits(width, height) <==> 4 * width <= 0x7FFF_FFFF && height <= 0x7FFF_FFFF && width
            * height <= 0x7FFF_FFFF,
{
}

} // verus!
