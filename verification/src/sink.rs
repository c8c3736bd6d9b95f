//! What each recognised action means for the replayable buffer: which span
//! is kept, and which state it leaves behind.

use vstd::prelude::*;

use crate::action::{Action, ActionView};
use crate::bytes::{
    bytes_equal, contains_byte, decimal, extend_bytes, parse_u8, parsed_u8, push_decimal,
};
use crate::palette::osc_colors;
use crate::rendition::accumulated;
use crate::status::{StatusCache, StatusView};
use crate::sticky::{StickyState, StickyView};

verus! {

/// What the parser did with the byte just fed. Drives the outer loop's
/// span accumulation, classification, and ring cut/purge decisions.
#[derive(Debug, Clone, Copy, PartialEq, Eq, Structural)]
pub enum SegEvent {
    /// Still mid-sequence (ESC consumed, intermediate, param, or DCS body).
    Partial,
    /// A printable character reached ground state: keep verbatim.
    KeepByte,
    /// A control or sequence reached ground state and is kept verbatim.
    KeepSeq,
    /// A sequence reached ground state and must be dropped from the ring.
    DropSeq,
    /// A full-screen clear reached ground state: purge history.
    ClearSeq,
}

/// Updates sticky state and shell status, and reports a [`SegEvent`].
pub struct Sink {
    sticky: StickyState,
    status: StatusCache,
    event: SegEvent,
    /// Set at the end of an OSC or a device control string to its
    /// classification, so a directly following ST terminator (`ESC \`) is
    /// classified the same way instead of leaking a stray backslash (drop) or
    /// splitting the ST (keep).
    st_pending: Option<SegEvent>,
    /// The device control string under way asks the terminal for an answer.
    request: bool,
}

/// What a [`Sink`] holds.
#[verifier::ext_equal]
pub struct SinkView {
    pub sticky: StickyView,
    pub status: StatusView,
    pub event: SegEvent,
    pub st_pending: Option<SegEvent>,
    pub request: bool,
}

/// The OSC has the number `n` as its first field.
pub open spec fn osc_is(params: Seq<Seq<u8>>, n: nat) -> bool {
    params.len() > 0 && params[0] == decimal(n)
}

/// The OSC sets the window title.
pub open spec fn osc_is_title(params: Seq<Seq<u8>>) -> bool {
    osc_is(params, 0) || osc_is(params, 2)
}

/// The OSC asks for a colour: of the palette (4), the foreground (10), the
/// background (11) or the cursor (12).
pub open spec fn osc_asks_for_color(params: Seq<Seq<u8>>) -> bool {
    (osc_is(params, 4) || osc_is(params, 10) || osc_is(params, 11) || osc_is(params, 12))
        && exists|i: int| 1 <= i < params.len() && #[trigger] params[i] == seq![0x3fu8]
}

/// The OSC must not reach the replay: notifications and progress (9),
/// clipboard writes (52), prompt markers (133), notifications (777) and
/// questions for a colour.
pub open spec fn osc_dropped(params: Seq<Seq<u8>>) -> bool {
    osc_is(params, 9) || osc_is(params, 133) || osc_is(params, 52) || osc_is(params, 777)
        || osc_asks_for_color(params)
}

/// The fields, with `;` between them.
pub open spec fn semicolon_joined(fields: Seq<Seq<u8>>) -> Seq<u8>
    decreases fields.len(),
{
    if fields.len() == 0 {
        Seq::empty()
    } else if fields.len() == 1 {
        fields[0]
    } else {
        semicolon_joined(fields.drop_last()).push(0x3b) + fields.last()
    }
}

/// Everything behind the number of an OSC and its `;`.
pub open spec fn osc_payload(params: Seq<Seq<u8>>) -> Seq<u8> {
    semicolon_joined(params.skip(1))
}

/// The hyperlink that is open after `OSC 8 ; params ; uri`: that one, or none
/// without a URI.
pub open spec fn link_after(params: Seq<Seq<u8>>) -> Option<Seq<u8>> {
    if params.len() == 3 && params[2].len() == 0 {
        None
    } else {
        Some(osc_payload(params))
    }
}

/// The sticky state after an OSC. One that asks for a colour sets none.
pub open spec fn osc_sticky(sticky: StickyView, params: Seq<Seq<u8>>) -> StickyView {
    if osc_is_title(params) && params.len() > 1 {
        StickyView { title: Some(osc_payload(params)), ..sticky }
    } else if osc_is(params, 7) && params.len() > 1 {
        StickyView { cwd: Some(osc_payload(params)), ..sticky }
    } else if osc_is(params, 8) && params.len() > 2 {
        StickyView { link: link_after(params), ..sticky }
    } else if osc_asks_for_color(params) {
        sticky
    } else {
        StickyView { colors: osc_colors(sticky.colors, params), ..sticky }
    }
}

/// The percentage that an `OSC 9 ; 4 ; state ; value` reports: nothing in
/// state 0, else the value if it is a number up to 100.
pub open spec fn progress_value(params: Seq<Seq<u8>>) -> Option<u8> {
    if params.len() > 2 && params[2] == decimal(0) {
        None
    } else if params.len() > 3 {
        match parsed_u8(params[3]) {
            Some(value) if value <= 100 => Some(value),
            _ => None,
        }
    } else {
        None
    }
}

/// The shell status after an OSC.
pub open spec fn osc_status(status: StatusView, params: Seq<Seq<u8>>) -> StatusView {
    if osc_is(params, 9) && params.len() > 1 && params[1] == decimal(4) {
        StatusView { progress: progress_value(params), ..status }
    } else if osc_is(params, 133) {
        let running = if params.len() > 1 && params[1].len() > 0 && params[1][0] == 0x43 {
            true
        } else if params.len() > 1 && params[1].len() > 0 && params[1][0] == 0x44 {
            false
        } else {
            status.running
        };
        StatusView { running, saw_prompt_marker: true, ..status }
    } else {
        status
    }
}

/// The first number of the `i`-th group, 0 if there is none.
pub open spec fn number_at(params: Seq<Seq<u16>>, i: int) -> u16 {
    if i < params.len() && params[i].len() > 0 {
        params[i][0]
    } else {
        0
    }
}

/// The scroll region that a DECSTBM sequence selects.
pub open spec fn region(params: Seq<Seq<u16>>) -> Option<(u16, u16)> {
    if number_at(params, 0) == 0 && number_at(params, 1) == 0 {
        None
    } else {
        Some((number_at(params, 0), number_at(params, 1)))
    }
}

/// The sticky state with the DEC private mode of each group switched.
pub open spec fn switched(sticky: StickyView, params: Seq<Seq<u16>>, on: bool) -> StickyView
    decreases params.len(),
{
    if params.len() == 0 {
        sticky
    } else {
        let before = switched(sticky, params.drop_last(), on);
        if params.last().len() > 0 {
            before.with_mode(params.last()[0], on)
        } else {
            before
        }
    }
}

/// The control sequence makes the terminal answer: status reports (`n`),
/// device attributes (`c`), the terminal's version (`> q`) and the state of a
/// mode (`$ p`).
pub open spec fn csi_asks(intermediates: Seq<u8>, action: char) -> bool {
    ||| action == 'n' || action == 'c'
    ||| action == 'q' && intermediates.len() > 0 && intermediates[0] == 0x3e
    ||| action == 'p' && intermediates.contains(0x24)
}

/// The device control string makes the terminal answer: capabilities (`+ q`)
/// and settings (`$ q`).
pub open spec fn dcs_asks(intermediates: Seq<u8>, action: char) -> bool {
    action == 'q' && (intermediates.contains(0x2b) || intermediates.contains(0x24))
}

/// What becomes of the span that a control sequence ends.
pub open spec fn csi_event(
    params: Seq<Seq<u16>>,
    intermediates: Seq<u8>,
    action: char,
) -> SegEvent {
    if csi_asks(intermediates, action) {
        SegEvent::DropSeq
    } else if action == 'J' && (number_at(params, 0) == 2 || number_at(params, 0) == 3) {
        SegEvent::ClearSeq
    } else {
        SegEvent::KeepSeq
    }
}

/// The sticky state after a control sequence. A rendition and a scroll region
/// are set without markers and intermediates, modes with the marker `?`
/// alone.
pub open spec fn csi_sticky(
    sticky: StickyView,
    params: Seq<Seq<u16>>,
    intermediates: Seq<u8>,
    action: char,
) -> StickyView {
    if action == 'm' && intermediates.len() == 0 {
        StickyView { sgr: accumulated(sticky.sgr, params), ..sticky }
    } else if action == 'r' && intermediates.len() == 0 {
        StickyView { scroll_region: region(params), ..sticky }
    } else if action == 'h' && intermediates == seq![0x3fu8] {
        switched(sticky, params, true)
    } else if action == 'l' && intermediates == seq![0x3fu8] {
        switched(sticky, params, false)
    } else {
        sticky
    }
}

/// Which of G0 to G3 an escape sequence with this first intermediate
/// designates.
pub open spec fn charset_slot(first: u8) -> Option<int> {
    if first == 0x28 {
        Some(0)
    } else if first == 0x29 || first == 0x2d {
        Some(1)
    } else if first == 0x2a || first == 0x2e {
        Some(2)
    } else if first == 0x2b || first == 0x2f {
        Some(3)
    } else {
        None
    }
}

/// The designation that an escape sequence makes. ASCII (`B`) is the default.
pub open spec fn designation(intermediates: Seq<u8>, byte: u8) -> Seq<u8> {
    if intermediates.len() == 1 && byte == 0x42 {
        Seq::empty()
    } else {
        intermediates.push(byte)
    }
}

/// The escape sequence is a full reset, `ESC c`.
pub open spec fn is_full_reset(intermediates: Seq<u8>, byte: u8) -> bool {
    intermediates.len() == 0 && byte == 0x63
}

/// The escape sequence is the terminator of a string, `ESC \`.
pub open spec fn is_terminator(intermediates: Seq<u8>, byte: u8) -> bool {
    intermediates.len() == 0 && byte == 0x5c
}

/// The sticky state after an escape sequence.
pub open spec fn esc_sticky(
    sticky: StickyView,
    intermediates: Seq<u8>,
    ignore: bool,
    byte: u8,
) -> StickyView {
    if is_full_reset(intermediates, byte) {
        sticky.after_reset()
    } else if intermediates.len() == 0 && byte == 0x6e {
        StickyView { shift: 2, ..sticky }
    } else if intermediates.len() == 0 && byte == 0x6f {
        StickyView { shift: 3, ..sticky }
    } else if intermediates.len() > 0 && !ignore {
        match charset_slot(intermediates[0]) {
            Some(slot) => sticky.with_charset(slot, designation(intermediates, byte)),
            None => sticky,
        }
    } else {
        sticky
    }
}

/// The sticky state after a control: 0x0e and 0x0f switch between G1 and G0.
pub open spec fn control_sticky(sticky: StickyView, byte: u8) -> StickyView {
    if byte == 0x0e {
        StickyView { shift: 1, ..sticky }
    } else if byte == 0x0f {
        StickyView { shift: 0, ..sticky }
    } else {
        sticky
    }
}

/// Kept or dropped.
pub open spec fn kept_unless(dropped: bool) -> SegEvent {
    if dropped {
        SegEvent::DropSeq
    } else {
        SegEvent::KeepSeq
    }
}

impl SinkView {
    /// The sink before any action.
    pub open spec fn started() -> SinkView {
        SinkView {
            sticky: StickyView::cold(),
            status: StatusView::idle(),
            event: SegEvent::Partial,
            st_pending: None,
            request: false,
        }
    }

    /// The classification that waits for an ST is that of a string, and the
    /// progress is a percentage.
    pub open spec fn wf(self) -> bool {
        &&& self.st_pending matches Some(event) ==> event == SegEvent::KeepSeq || event
            == SegEvent::DropSeq
        &&& self.status.progress matches Some(value) ==> value <= 100
    }

    /// The sink after one action.
    pub open spec fn perform(self, action: ActionView) -> SinkView {
        match action {
            ActionView::Print(c) => SinkView {
                event: SegEvent::KeepByte,
                st_pending: None,
                ..self
            },
            ActionView::Execute(byte) => SinkView {
                sticky: control_sticky(self.sticky, byte),
                event: kept_unless(byte == 0x07),
                st_pending: None,
                ..self
            },
            ActionView::Hook { params, intermediates, ignore, action } => SinkView {
                event: SegEvent::Partial,
                st_pending: None,
                request: dcs_asks(intermediates, action),
                ..self
            },
            ActionView::Put(byte) => SinkView { event: SegEvent::Partial, st_pending: None, ..self },
            ActionView::Unhook => SinkView {
                event: kept_unless(self.request),
                st_pending: Some(kept_unless(self.request)),
                request: false,
                ..self
            },
            ActionView::Osc { params, bell } => SinkView {
                sticky: osc_sticky(self.sticky, params),
                status: osc_status(self.status, params),
                event: kept_unless(osc_dropped(params)),
                st_pending: Some(kept_unless(osc_dropped(params))),
                ..self
            },
            ActionView::Csi { params, intermediates, ignore, action } => SinkView {
                sticky: csi_sticky(self.sticky, params, intermediates, action),
                event: csi_event(params, intermediates, action),
                st_pending: None,
                ..self
            },
            ActionView::Esc { intermediates, ignore, byte } => SinkView {
                sticky: esc_sticky(self.sticky, intermediates, ignore, byte),
                event: match self.st_pending {
                    Some(event) if is_terminator(intermediates, byte) => event,
                    _ => if is_full_reset(intermediates, byte) {
                        SegEvent::ClearSeq
                    } else {
                        SegEvent::KeepSeq
                    },
                },
                st_pending: None,
                ..self
            },
        }
    }

    /// The sink after actions, in order.
    pub open spec fn perform_all(self, actions: Seq<ActionView>) -> SinkView
        decreases actions.len(),
    {
        if actions.len() == 0 {
            self
        } else {
            self.perform_all(actions.drop_last()).perform(actions.last())
        }
    }
}

/// Actions keep the sink well-formed.
pub proof fn lemma_perform_all_wf(sink: SinkView, actions: Seq<ActionView>)
    requires
        sink.wf(),
    ensures
        sink.perform_all(actions).wf(),
    decreases actions.len(),
{
    if actions.len() > 0 {
        lemma_perform_all_wf(sink, actions.drop_last());
    }
}

impl View for Sink {
    type V = SinkView;

    closed spec fn view(&self) -> SinkView {
        SinkView {
            sticky: self.sticky@,
            status: self.status@,
            event: self.event,
            st_pending: self.st_pending,
            request: self.request,
        }
    }
}

/// Whether the field of an OSC is the number `n` in decimal.
pub(crate) fn field_is(field: &Vec<u8>, n: u32) -> (r: bool)
    ensures
        r == (field@ == decimal(n as nat)),
{
    let mut digits: Vec<u8> = Vec::new();
    push_decimal(&mut digits, n);
    assert(digits@ =~= decimal(n as nat));
    bytes_equal(field.as_slice(), digits.as_slice())
}

/// An OSC opens with at most one number.
pub proof fn lemma_osc_has_one_number(params: Seq<Seq<u8>>)
    ensures
        forall|m: nat, n: nat| #[trigger]
            osc_is(params, m) && #[trigger] osc_is(params, n) ==> m == n,
{
    assert forall|m: nat, n: nat| #[trigger]
        osc_is(params, m) && #[trigger] osc_is(params, n) implies m == n by {
        crate::bytes::law_decimal_is_injective(m, n);
    }
}

/// Whether a field behind the first is `?`.
fn has_question(params: &Vec<Vec<u8>>) -> (r: bool)
    ensures
        r == exists|i: int|
            1 <= i < params@.len() && #[trigger] crate::action::strings(params@)[i] == seq![0x3fu8],
{
    let ghost fields = crate::action::strings(params@);
    let mut i: usize = 1;
    while i < params.len()
        invariant
            1 <= i,
            fields == crate::action::strings(params@),
            forall|j: int| 1 <= j < i && j < params@.len() ==> #[trigger] fields[j] != seq![0x3fu8],
        decreases params@.len() - i,
    {
        if params[i].len() == 1 && params[i][0] == 0x3f {
            assert(fields[i as int] =~= seq![0x3fu8]);
            return true;
        }
        assert(fields[i as int] != seq![0x3fu8]) by {
            assert(fields[i as int] == params@[i as int]@);
            assert(seq![0x3fu8][0] == 0x3f);
        }
        i = i + 1;
    }
    false
}

/// Whether the OSC asks for a colour.
fn asks_for_color(params: &Vec<Vec<u8>>) -> (r: bool)
    ensures
        r == osc_asks_for_color(crate::action::strings(params@)),
{
    if params.len() == 0 {
        return false;
    }
    let code = &params[0];
    let sets_color = field_is(code, 4) || field_is(code, 10) || field_is(code, 11) || field_is(
        code,
        12,
    );
    sets_color && has_question(params)
}

/// Whether the OSC must not reach the replay.
fn is_dropped_osc(params: &Vec<Vec<u8>>) -> (r: bool)
    ensures
        r == osc_dropped(crate::action::strings(params@)),
{
    if params.len() == 0 {
        return false;
    }
    let code = &params[0];
    field_is(code, 9) || field_is(code, 133) || field_is(code, 52) || field_is(code, 777)
        || asks_for_color(params)
}

/// Everything behind the number of an OSC and its `;`.
fn payload(params: &Vec<Vec<u8>>) -> (r: Vec<u8>)
    requires
        params@.len() > 0,
    ensures
        r@ == osc_payload(crate::action::strings(params@)),
{
    let ghost all = crate::action::strings(params@).skip(1);
    let mut r: Vec<u8> = Vec::new();
    let mut i: usize = 1;
    assert(all.take(0) =~= Seq::empty());
    while i < params.len()
        invariant
            1 <= i <= params@.len(),
            all == crate::action::strings(params@).skip(1),
            r@ == semicolon_joined(all.take(i - 1)),
        decreases params@.len() - i,
    {
        assert(all.take(i as int).drop_last() =~= all.take(i - 1));
        assert(all.take(i as int).last() == params@[i as int]@);
        if i > 1 {
            r.push(0x3b);
        }
        extend_bytes(&mut r, params[i].as_slice());
        assert(r@ =~= semicolon_joined(all.take(i as int)));
        i = i + 1;
    }
    assert(all.take(params@.len() - 1) =~= all);
    r
}

/// The first number of the `i`-th group, 0 if there is none.
fn first_number(params: &Vec<Vec<u16>>, i: usize) -> (r: u16)
    ensures
        r == number_at(crate::action::groups(params@), i as int),
{
    if i < params.len() && params[i].len() > 0 {
        params[i][0]
    } else {
        0
    }
}

impl Sink {
    pub fn new() -> (s: Self)
        ensures
            s@ == SinkView::started(),
    {
        Self {
            sticky: StickyState::new(),
            status: StatusCache::new(),
            event: SegEvent::Partial,
            st_pending: None,
            request: false,
        }
    }

    pub fn sticky(&self) -> (r: &StickyState)
        ensures
            r@ == self@.sticky,
    {
        &self.sticky
    }

    pub fn status(&self) -> (r: &StatusCache)
        ensures
            r@ == self@.status,
    {
        &self.status
    }

    /// Hands out the event of the last action and forgets it.
    pub fn take_event(&mut self) -> (event: SegEvent)
        ensures
            event == old(self)@.event,
            final(self)@ == (SinkView { event: SegEvent::Partial, ..old(self)@ }),
    {
        let event = self.event;
        self.event = SegEvent::Partial;
        event
    }

    /// Takes in one action of the parser.
    pub fn perform(&mut self, action: &Action)
        ensures
            final(self)@ == old(self)@.perform(action@),
    {
        match action {
            Action::Print(_) => {
                self.st_pending = None;
                self.event = SegEvent::KeepByte;
            },
            Action::Execute(byte) => {
                // C0 controls. Keep the ones that affect layout; drop the bell.
                self.st_pending = None;
                if *byte == 0x0e {
                    self.sticky.set_shift(1);
                } else if *byte == 0x0f {
                    self.sticky.set_shift(0);
                }
                self.event = if *byte == 0x07 {
                    SegEvent::DropSeq
                } else {
                    SegEvent::KeepSeq
                };
            },
            Action::Hook { params: _, intermediates, ignore: _, action } => {
                self.st_pending = None;
                self.request = *action == 'q' && (contains_byte(intermediates.as_slice(), 0x2b)
                    || contains_byte(intermediates.as_slice(), 0x24));
                self.event = SegEvent::Partial;
            },
            Action::Put(_) => {
                self.st_pending = None;
                self.event = SegEvent::Partial;
            },
            Action::Unhook => {
                let event = if self.request {
                    SegEvent::DropSeq
                } else {
                    SegEvent::KeepSeq
                };
                self.request = false;
                self.event = event;
                self.st_pending = Some(event);
            },
            Action::Osc { params, bell: _ } => self.osc_dispatch(params),
            Action::Csi { params, intermediates, ignore: _, action } => {
                self.csi_dispatch(params, intermediates.as_slice(), *action)
            },
            Action::Esc { intermediates, ignore, byte } => {
                self.esc_dispatch(intermediates, *ignore, *byte)
            },
        }
    }

    fn osc_dispatch(&mut self, params: &Vec<Vec<u8>>)
        ensures
            forall|bell: bool|
                final(self)@ == #[trigger] old(self)@.perform(
                    (ActionView::Osc { params: crate::action::strings(params@), bell }),
                ),
    {
        self.track_osc(params);
        self.report_osc(params);
        let event = if is_dropped_osc(params) {
            SegEvent::DropSeq
        } else {
            SegEvent::KeepSeq
        };
        self.event = event;
        self.st_pending = Some(event);
    }

    /// Takes in the state that an OSC leaves behind.
    fn track_osc(&mut self, params: &Vec<Vec<u8>>)
        ensures
            final(self)@ == (SinkView {
                sticky: osc_sticky(old(self)@.sticky, crate::action::strings(params@)),
                ..old(self)@
            }),
    {
        let ghost fields = crate::action::strings(params@);
        proof {
            lemma_osc_has_one_number(fields);
            crate::palette::lemma_other_oscs_set_no_color(self@.sticky.colors, fields);
        }
        if params.len() == 0 {
            return ;
        }
        let code = &params[0];
        if field_is(code, 0) || field_is(code, 2) {
            assert(osc_is(fields, 0) || osc_is(fields, 2));
            if params.len() > 1 {
                self.sticky.set_title(payload(params));
            }
        } else if field_is(code, 7) {
            assert(osc_is(fields, 7));
            if params.len() > 1 {
                self.sticky.set_cwd(payload(params));
            }
        } else if field_is(code, 8) {
            assert(osc_is(fields, 8));
            if params.len() > 2 {
                self.open_link(params);
            }
        } else if !asks_for_color(params) {
            self.sticky.apply_colors(params);
        }
    }

    /// Takes in the shell status that an OSC reports.
    fn report_osc(&mut self, params: &Vec<Vec<u8>>)
        ensures
            final(self)@ == (SinkView {
                status: osc_status(old(self)@.status, crate::action::strings(params@)),
                ..old(self)@
            }),
    {
        let ghost fields = crate::action::strings(params@);
        proof {
            lemma_osc_has_one_number(fields);
        }
        if params.len() == 0 {
            return ;
        }
        let code = &params[0];
        if field_is(code, 9) {
            assert(osc_is(fields, 9));
            if params.len() > 1 && field_is(&params[1], 4) {
                self.report_progress(params);
            }
        } else if field_is(code, 133) {
            assert(osc_is(fields, 133));
            // Any OSC 133 marker means this shell does prompt marking; latch
            // it so the daemon can stop guessing from the foreground process
            // group.
            self.status.set_prompt_marker_seen();
            if params.len() > 1 && params[1].len() > 0 {
                if params[1][0] == 0x43 {
                    self.status.set_running(true);
                } else if params[1][0] == 0x44 {
                    self.status.set_running(false);
                }
            }
        }
    }

    /// Takes in the hyperlink of an OSC 8.
    fn open_link(&mut self, params: &Vec<Vec<u8>>)
        requires
            params@.len() > 2,
        ensures
            final(self)@ == (SinkView {
                sticky: StickyView {
                    link: link_after(crate::action::strings(params@)),
                    ..old(self)@.sticky
                },
                ..old(self)@
            }),
    {
        if params.len() == 3 && params[2].len() == 0 {
            self.sticky.set_link(None);
        } else {
            self.sticky.set_link(Some(payload(params)));
        }
    }

    /// Takes in the state and value of an `OSC 9 ; 4`.
    fn report_progress(&mut self, params: &Vec<Vec<u8>>)
        ensures
            final(self)@ == (SinkView {
                status: StatusView {
                    progress: progress_value(crate::action::strings(params@)),
                    ..old(self)@.status
                },
                ..old(self)@
            }),
    {
        if params.len() > 2 && field_is(&params[2], 0) {
            self.status.set_progress(None);
        } else if params.len() > 3 {
            let progress = match parse_u8(params[3].as_slice()) {
                Some(value) if value <= 100 => Some(value),
                _ => None,
            };
            self.status.set_progress(progress);
        } else {
            self.status.set_progress(None);
        }
    }

    fn csi_dispatch(&mut self, params: &Vec<Vec<u16>>, intermediates: &[u8], action: char)
        ensures
            forall|ignore: bool|
                final(self)@ == #[trigger] old(self)@.perform(
                    (ActionView::Csi {
                        params: crate::action::groups(params@),
                        intermediates: intermediates@,
                        ignore,
                        action,
                    }),
                ),
    {
        self.st_pending = None;
        let plain = intermediates.len() == 0;
        let private = intermediates.len() == 1 && intermediates[0] == 0x3f;
        assert(private == (intermediates@ =~= seq![0x3fu8]));
        let asks = action == 'n' || action == 'c' || action == 'q' && !plain && intermediates[0]
            == 0x3e || action == 'p' && contains_byte(intermediates, 0x24);
        if asks {
            // A replay must not make the terminal answer.
            self.event = SegEvent::DropSeq;
        } else if action == 'm' && plain {
            self.sticky.apply_sgr(params);
            self.event = SegEvent::KeepSeq;
        } else if action == 'r' && plain {
            let top = first_number(params, 0);
            let bottom = first_number(params, 1);
            if top == 0 && bottom == 0 {
                self.sticky.set_scroll_region(None);
            } else {
                self.sticky.set_scroll_region(Some((top, bottom)));
            }
            self.event = SegEvent::KeepSeq;
        } else if (action == 'h' || action == 'l') && private {
            self.switch_modes(params, action == 'h');
            self.event = SegEvent::KeepSeq;
        } else if action == 'J' {
            let mode = first_number(params, 0);
            self.event = if mode == 2 || mode == 3 {
                SegEvent::ClearSeq
            } else {
                SegEvent::KeepSeq
            };
        } else {
            self.event = SegEvent::KeepSeq;
        }
        assert(self@.sticky =~= csi_sticky(
            old(self)@.sticky,
            crate::action::groups(params@),
            intermediates@,
            action,
        ));
    }

    /// Switches the DEC private mode of each group.
    fn switch_modes(&mut self, params: &Vec<Vec<u16>>, on: bool)
        ensures
            final(self)@ == (SinkView {
                sticky: switched(old(self)@.sticky, crate::action::groups(params@), on),
                ..old(self)@
            }),
    {
        let ghost all = crate::action::groups(params@);
        let mut i: usize = 0;
        while i < params.len()
            invariant
                i <= params@.len(),
                all == crate::action::groups(params@),
                self@ == (SinkView {
                    sticky: switched(old(self)@.sticky, all.take(i as int), on),
                    ..old(self)@
                }),
            decreases params@.len() - i,
        {
            assert(all.take(i + 1).drop_last() =~= all.take(i as int));
            assert(all.take(i + 1).last() == params@[i as int]@);
            if params[i].len() > 0 {
                self.sticky.set_dec_mode(params[i][0], on);
            }
            i = i + 1;
        }
        assert(all.take(params@.len() as int) =~= all);
    }

    fn esc_dispatch(&mut self, intermediates: &Vec<u8>, ignore: bool, byte: u8)
        ensures
            final(self)@ == old(self)@.perform(
                (ActionView::Esc { intermediates: intermediates@, ignore, byte }),
            ),
    {
        let plain = intermediates.len() == 0;
        // ST terminator closing a string: mirror that string's classification
        // so a dropped string drops its `\` and a kept one keeps the full
        // `ESC \`.
        if plain && byte == 0x5c {
            if let Some(event) = self.st_pending {
                self.st_pending = None;
                self.event = event;
                return ;
            }
        }
        self.st_pending = None;
        // ESC c = RIS (full reset): treat as a clear/purge base.
        self.event = if plain && byte == 0x63 {
            SegEvent::ClearSeq
        } else {
            SegEvent::KeepSeq
        };
        if plain {
            if byte == 0x63 {
                self.sticky.reset();
            } else if byte == 0x6e {
                self.sticky.set_shift(2);
            } else if byte == 0x6f {
                self.sticky.set_shift(3);
            }
        } else if !ignore {
            self.designate(intermediates, byte);
        }
    }

    /// Takes in the designation of a character set, if it is one.
    fn designate(&mut self, intermediates: &Vec<u8>, byte: u8)
        requires
            intermediates@.len() > 0,
        ensures
            final(self)@ == (SinkView {
                sticky: esc_sticky(old(self)@.sticky, intermediates@, false, byte),
                ..old(self)@
            }),
    {
        let slot: u8 = match intermediates[0] {
            0x28 => 0,
            0x29 | 0x2d => 1,
            0x2a | 0x2e => 2,
            0x2b | 0x2f => 3,
            _ => {
                return ;
            },
        };
        let mut bytes: Vec<u8> = Vec::new();
        if !(intermediates.len() == 1 && byte == 0x42) {
            extend_bytes(&mut bytes, intermediates.as_slice());
            bytes.push(byte);
        }
        assert(bytes@ =~= designation(intermediates@, byte));
        self.sticky.set_charset(slot, bytes);
    }

    /// Takes in actions of the parser, in order.
    pub fn perform_all(&mut self, list: &Vec<Action>)
        ensures
            final(self)@ == old(self)@.perform_all(crate::action::actions(list@)),
    {
        let ghost all = crate::action::actions(list@);
        let mut i: usize = 0;
        while i < list.len()
            invariant
                i <= list@.len(),
                all == crate::action::actions(list@),
                self@ == old(self)@.perform_all(all.take(i as int)),
            decreases list@.len() - i,
        {
            assert(all.take(i + 1).drop_last() =~= all.take(i as int));
            assert(all.take(i + 1).last() == list@[i as int]@);
            self.perform(&list[i]);
            i = i + 1;
        }
        assert(all.take(list@.len() as int) =~= all);
    }
}

} // verus!
