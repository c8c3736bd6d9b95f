//! What holds of whole terminal streams: how the scanner takes in complete
//! units, and what its ring holds afterwards.

use vstd::prelude::*;

use crate::action::{ground_after, ActionView};
use crate::ring::{law_append_extends_data, law_cut_keeps_everything, law_purge_forgets, RingView};
use crate::scanner::{
    clear_and_home, expand, expand_all, heard, keep_span, law_stream_is_taken_in_by_units,
    law_whole_stream_is_taken_in_by_units, lemma_fed_history, remaining_after, remaining_after_all,
    takes_in_units, ScannerView,
};
use crate::sink::{
    csi_asks, csi_event, dcs_asks, is_full_reset, is_terminator, kept_unless, osc_dropped,
    SegEvent, SinkView,
};
use crate::unit::{
    first_two, numbers, osc_fields, over_limit, units_bytes, units_valid, within_limit, Unit,
};

verus! {

// ---------------------------------------------------------------------
// Splitting the input
// ---------------------------------------------------------------------
proof fn lemma_remaining_add(r: u8, a: Seq<u8>, b: Seq<u8>)
    ensures
        remaining_after_all(r, a + b) == remaining_after_all(remaining_after_all(r, a), b),
    decreases b.len(),
{
    if b.len() == 0 {
        assert(a + b =~= a);
    } else {
        lemma_remaining_add(r, a, b.drop_last());
        assert((a + b).drop_last() =~= a + b.drop_last());
        assert((a + b).last() == b.last());
    }
}

/// What the parser is given for raw output in two parts.
pub proof fn lemma_expand_add(r: u8, a: Seq<u8>, b: Seq<u8>)
    ensures
        expand_all(r, a + b) == expand_all(r, a) + expand_all(remaining_after_all(r, a), b),
    decreases b.len(),
{
    if b.len() == 0 {
        assert(a + b =~= a);
        assert(expand_all(r, a) + expand_all(remaining_after_all(r, a), b) =~= expand_all(r, a));
    } else {
        lemma_expand_add(r, a, b.drop_last());
        lemma_remaining_add(r, a, b.drop_last());
        assert((a + b).drop_last() =~= a + b.drop_last());
        assert((a + b).last() == b.last());
        let mid = remaining_after_all(r, a);
        assert(expand_all(r, a) + expand_all(mid, b) =~= expand_all(r, a) + expand_all(
            mid,
            b.drop_last(),
        ) + expand(remaining_after_all(mid, b.drop_last()), b.last()));
    }
}

/// It does not matter how raw output is split into feeds.
pub proof fn law_feed_in_parts(s: ScannerView, a: Seq<u8>, b: Seq<u8>)
    ensures
        s.feed(a + b) == s.feed(a).feed(b),
{
    let r = s.utf8_remaining;
    lemma_remaining_add(r, a, b);
    lemma_expand_add(r, a, b);
    let mid = remaining_after_all(r, a);
    crate::scanner::lemma_advance_all_add(s, expand_all(r, a), expand_all(mid, b));
    crate::scanner::lemma_advance_all_frame(
        s.advance_all(expand_all(r, a)),
        expand_all(mid, b),
        mid,
    );
}

/// What was fed in pieces was fed as a whole.
pub proof fn law_fed_in_parts(watermark: nat, a: Seq<u8>, b: Seq<u8>)
    ensures
        ScannerView::fed(watermark, a + b) == ScannerView::fed(watermark, a).feed(b),
        ScannerView::fed(watermark, Seq::empty()) == ScannerView::started(watermark),
{
    law_feed_in_parts(ScannerView::started(watermark), a, b);
}

/// A stream without 0x9C reaches the parser as it is.
pub proof fn law_stream_without_c1_is_verbatim(r: u8, bytes: Seq<u8>)
    requires
        !bytes.contains(0x9c),
    ensures
        expand_all(r, bytes) == bytes,
    decreases bytes.len(),
{
    if bytes.len() > 0 {
        let front = bytes.drop_last();
        assert(bytes.last() == bytes[bytes.len() - 1]);
        assert forall|i: int| 0 <= i < front.len() implies front[i] != 0x9c by {
            assert(bytes[i] == front[i]);
        }
        law_stream_without_c1_is_verbatim(r, front);
        assert(expand_all(r, bytes) =~= bytes);
    } else {
        assert(expand_all(r, bytes) =~= bytes);
    }
}

// ---------------------------------------------------------------------
// What stays the same
// ---------------------------------------------------------------------
/// A prompt marker, once seen, stays seen.
pub proof fn law_prompt_marker_latches(s: ScannerView, bytes: Seq<u8>)
    requires
        s.sink.status.saw_prompt_marker,
    ensures
        s.feed(bytes).sink.status.saw_prompt_marker,
{
    lemma_marker_latches(s, expand_all(s.utf8_remaining, bytes));
}

proof fn lemma_marker_latches(s: ScannerView, bytes: Seq<u8>)
    requires
        s.sink.status.saw_prompt_marker,
    ensures
        s.advance_all(bytes).sink.status.saw_prompt_marker,
    decreases bytes.len(),
{
    if bytes.len() > 0 {
        lemma_marker_latches(s, bytes.drop_last());
        let t = s.advance_all(bytes.drop_last());
        lemma_marker_latches_in_sink(
            t.sink,
            crate::action::parser_actions(t.history, bytes.last()),
        );
    }
}

proof fn lemma_marker_latches_in_sink(sink: SinkView, actions: Seq<ActionView>)
    requires
        sink.status.saw_prompt_marker,
    ensures
        sink.perform_all(actions).status.saw_prompt_marker,
    decreases actions.len(),
{
    if actions.len() > 0 {
        lemma_marker_latches_in_sink(sink, actions.drop_last());
    }
}

/// Two scanners that differ only in where they cut their rings.
pub open spec fn same_but_for_cuts(s: ScannerView, t: ScannerView) -> bool {
    &&& s.history == t.history
    &&& s.sink == t.sink
    &&& s.pending == t.pending
    &&& s.ground == t.ground
    &&& s.utf8_remaining == t.utf8_remaining
    &&& s.ring.wf()
    &&& t.ring.wf()
    &&& s.ring.data() == t.ring.data()
    &&& s.ring.chunks[0].prologue == t.ring.chunks[0].prologue
}

proof fn lemma_keep_span_data(ring: RingView, span: Seq<u8>, prologue: Seq<u8>, ground: bool)
    requires
        ring.wf(),
    ensures
        keep_span(ring, span, prologue, ground).wf(),
        keep_span(ring, span, prologue, ground).data() == ring.data() + span,
        keep_span(ring, span, prologue, ground).chunks[0].prologue == ring.chunks[0].prologue,
{
    law_append_extends_data(ring, span);
    law_cut_keeps_everything(ring.append(span), prologue);
}

proof fn lemma_same_advance(s: ScannerView, t: ScannerView, bytes: Seq<u8>)
    requires
        same_but_for_cuts(s, t),
    ensures
        same_but_for_cuts(s.advance_all(bytes), t.advance_all(bytes)),
    decreases bytes.len(),
{
    if bytes.len() > 0 {
        lemma_same_advance(s, t, bytes.drop_last());
        let s1 = s.advance_all(bytes.drop_last());
        let t1 = t.advance_all(bytes.drop_last());
        let b = bytes.last();
        let actions = crate::action::parser_actions(s1.history, b);
        let sink = s1.sink.perform_all(actions);
        let span = s1.pending.push(b);
        let ground = ground_after(s1.ground, b, actions);
        lemma_keep_span_data(s1.ring, span, sink.sticky.prologue(), ground);
        lemma_keep_span_data(t1.ring, span, sink.sticky.prologue(), ground);
        let cleared = clear_and_home() + sink.sticky.prologue();
        law_purge_forgets(s1.ring, cleared, 1);
        law_purge_forgets(t1.ring, cleared, 1);
    }
}

/// The whole replay does not depend on the watermark: where the ring is cut
/// only matters for a capped replay.
pub proof fn law_replay_ignores_watermark(m: nat, n: nat, bytes: Seq<u8>)
    ensures
        ScannerView::started(m).feed(bytes).ring.replay_all() == ScannerView::started(n).feed(
            bytes,
        ).ring.replay_all(),
        ScannerView::started(m).feed(bytes).sink == ScannerView::started(n).feed(bytes).sink,
{
    law_purge_forgets(RingView::started(m, Seq::empty()), Seq::empty(), 1);
    law_purge_forgets(RingView::started(n, Seq::empty()), Seq::empty(), 1);
    lemma_same_advance(
        ScannerView::started(m),
        ScannerView::started(n),
        expand_all(0, bytes),
    );
}

// ---------------------------------------------------------------------
// Spans
// ---------------------------------------------------------------------
/// Whatever the stream, the bytes since the last verdict stay together: they
/// wait for one, are added to the data as a whole, are dropped as a whole, or
/// clear the data. The last action that the parser reports decides.
pub proof fn law_last_action_decides_the_span(s: ScannerView, b: u8, actions: Seq<ActionView>)
    requires
        s.wf(),
        actions.len() > 0,
    ensures
        ({
            let event = s.sink.perform_all(actions.drop_last()).perform(actions.last()).event;
            let span = s.pending.push(b);
            let t = s.absorb(b, actions);
            match event {
                SegEvent::KeepByte | SegEvent::KeepSeq => t.ring.data() == s.ring.data() + span
                    && t.pending == Seq::<u8>::empty(),
                SegEvent::ClearSeq => t.ring.data() == Seq::<u8>::empty() && t.pending == Seq::<
                    u8,
                >::empty(),
                SegEvent::DropSeq => t.ring == s.ring && t.pending == Seq::<u8>::empty(),
                SegEvent::Partial => t.ring == s.ring && t.pending == span,
            }
        }),
{
    let sink = s.sink.perform_all(actions);
    let span = s.pending.push(b);
    let ground = ground_after(s.ground, b, actions);
    lemma_keep_span_data(s.ring, span, sink.sticky.prologue(), ground);
    law_purge_forgets(s.ring, clear_and_home() + sink.sticky.prologue(), 1);
}

/// The parser's report of something that a replay must not repeat: the bell,
/// a notification, a clipboard write, a prompt marker, or a question to the
/// terminal.
pub open spec fn reports_side_effect(action: ActionView) -> bool {
    match action {
        ActionView::Execute(byte) => byte == 0x07,
        ActionView::Osc { params, bell } => osc_dropped(params),
        ActionView::Csi { params, intermediates, ignore, action } => csi_asks(
            intermediates,
            action,
        ),
        _ => false,
    }
}

/// Whatever the stream, a span that ends with such a report leaves no trace
/// in the ring.
pub proof fn law_side_effects_leave_no_trace(s: ScannerView, b: u8, actions: Seq<ActionView>)
    requires
        actions.len() > 0,
        reports_side_effect(actions.last()),
    ensures
        s.absorb(b, actions).ring == s.ring,
        s.absorb(b, actions).pending == Seq::<u8>::empty(),
{
}

/// The scanner after bytes of a device control string.
pub open spec fn absorb_puts(s: ScannerView, data: Seq<u8>) -> ScannerView
    decreases data.len(),
{
    if data.len() == 0 {
        s
    } else {
        absorb_puts(s, data.drop_last()).absorb(data.last(), seq![ActionView::Put(data.last())])
    }
}

/// Whatever came before, a device control string that asks the terminal for an
/// answer leaves no trace in the ring: not its start, which ends with the byte
/// `b`, not its data, not its end, which comes with the byte `e`, and not an
/// `ESC \` behind that.
pub proof fn law_requests_leave_no_trace(
    s: ScannerView,
    b: u8,
    hook: ActionView,
    data: Seq<u8>,
    e: u8,
)
    requires
        hook matches ActionView::Hook { params, intermediates, ignore, action } && dcs_asks(
            intermediates,
            action,
        ),
    ensures
        ({
            let st = ActionView::Esc {
                intermediates: Seq::<u8>::empty(),
                ignore: false,
                byte: 0x5c,
            };
            let ended = absorb_puts(s.absorb(b, seq![hook]), data).absorb(
                e,
                seq![ActionView::Unhook],
            );
            &&& absorb_puts(s.absorb(b, seq![hook]), data).ring == s.ring
            &&& ended.ring == s.ring
            &&& ended.pending == Seq::<u8>::empty()
            &&& ended.absorb(0x5c, seq![st]).ring == s.ring
            &&& ended.absorb(0x5c, seq![st]).pending == Seq::<u8>::empty()
        }),
{
    let started = s.absorb(b, seq![hook]);
    let inside = absorb_puts(started, data);
    let ended = inside.absorb(e, seq![ActionView::Unhook]);
    let st = ActionView::Esc { intermediates: Seq::<u8>::empty(), ignore: false, byte: 0x5c };
    lemma_perform_one(s.sink, hook);
    lemma_absorb_puts(started, data);
    lemma_perform_one(inside.sink, ActionView::Unhook);
    lemma_perform_one(ended.sink, st);
}

proof fn lemma_absorb_puts(s: ScannerView, data: Seq<u8>)
    requires
        s.sink.request,
    ensures
        absorb_puts(s, data).ring == s.ring,
        absorb_puts(s, data).sink.request,
    decreases data.len(),
{
    if data.len() > 0 {
        lemma_absorb_puts(s, data.drop_last());
        lemma_perform_one(
            absorb_puts(s, data.drop_last()).sink,
            ActionView::Put(data.last()),
        );
    }
}

/// Whatever the stream, the progress that clients are told is a percentage.
pub proof fn law_progress_is_a_percentage(watermark: nat, bytes: Seq<u8>)
    ensures
        ScannerView::fed(watermark, bytes).sink.status.snapshot().progress matches Some(value)
            ==> value <= 100,
{
    lemma_advance_all_sink_wf(ScannerView::started(watermark), expand_all(0, bytes));
}

proof fn lemma_advance_all_sink_wf(s: ScannerView, bytes: Seq<u8>)
    requires
        s.sink.wf(),
    ensures
        s.advance_all(bytes).sink.wf(),
    decreases bytes.len(),
{
    if bytes.len() > 0 {
        lemma_advance_all_sink_wf(s, bytes.drop_last());
        let t = s.advance_all(bytes.drop_last());
        crate::sink::lemma_perform_all_wf(
            t.sink,
            crate::action::parser_actions(t.history, bytes.last()),
        );
    }
}

// ---------------------------------------------------------------------
// Units
// ---------------------------------------------------------------------
impl Unit {
    /// What becomes of the unit's bytes.
    pub open spec fn event(self) -> SegEvent {
        match self {
            Unit::Byte(b) => if b == 0x07 {
                SegEvent::DropSeq
            } else if b < 0x20 || 0x80 <= b <= 0x9f {
                SegEvent::KeepSeq
            } else {
                SegEvent::KeepByte
            },
            Unit::Char(c) => SegEvent::KeepByte,
            Unit::Esc { inter, last } => if is_full_reset(inter, last) {
                SegEvent::ClearSeq
            } else {
                SegEvent::KeepSeq
            },
            Unit::Csi { marker, body, inter, last } => csi_event(
                numbers(within_limit(body)),
                first_two(marker + inter),
                last as char,
            ),
            Unit::Osc { body, st } => kept_unless(osc_dropped(osc_fields(body))),
            Unit::Dcs { marker, body, inter, last, data } => kept_unless(
                dcs_asks(first_two(marker + inter), last as char),
            ),
            Unit::Skipped { kind, data } => SegEvent::KeepSeq,
        }
    }

    /// All that the parser reports of the unit is an `ESC \`: it stands alone,
    /// or ends a string that is skipped.
    pub open spec fn is_bare_st(self) -> bool {
        match self {
            Unit::Esc { inter, last } => is_terminator(inter, last),
            Unit::Skipped { kind, data } => true,
            _ => false,
        }
    }

    /// The classification that an `ESC \` right behind the unit takes over.
    pub open spec fn leaves_pending(self) -> Option<SegEvent> {
        match self {
            Unit::Osc { body, st: false } => Some(self.event()),
            _ => None,
        }
    }

    /// The position of the byte at which the verdict on the unit falls.
    pub open spec fn verdict_at(self) -> int {
        match self {
            Unit::Osc { body, st } => body.len() as int + 2,
            Unit::Dcs { .. } => self.bytes().len() - 2,
            _ => self.bytes().len() - 1,
        }
    }

    /// What the parser reports there.
    pub open spec fn action(self) -> ActionView {
        self.actions_at(self.verdict_at())[0]
    }

    /// Whether the parser is known to be at ground state behind the unit,
    /// where `before` tells the same of the unit before.
    pub open spec fn ground(self, before: bool) -> bool {
        match self {
            Unit::Byte(b) => before || 0x20 <= b < 0x80 || b > 0x9f || b == 0x18 || b == 0x1a,
            _ => true,
        }
    }
}

/// What becomes of the unit's bytes, where `pending` waits for an `ESC \`.
pub open spec fn fate(pending: Option<SegEvent>, u: Unit) -> SegEvent {
    match pending {
        Some(event) if u.is_bare_st() => event,
        _ => u.event(),
    }
}

/// What becomes of the bytes of the `i`-th unit, where `pending` waits for an
/// `ESC \` before the first.
pub open spec fn fate_at(pending: Option<SegEvent>, units: Seq<Unit>, i: int) -> SegEvent {
    fate(
        if i == 0 {
            pending
        } else {
            units[i - 1].leaves_pending()
        },
        units[i],
    )
}

/// The sink within a unit, after `k` of its bytes and before the verdict.
pub open spec fn sink_within(sink: SinkView, u: Unit, k: int) -> SinkView {
    match u {
        Unit::Dcs { marker, body, inter, last, data } if k > u.hook_at() => SinkView {
            st_pending: None,
            request: dcs_asks(first_two(marker + inter), last as char),
            ..sink
        },
        _ => sink,
    }
}

/// The sink behind a unit, with the event that the unit ended with.
pub open spec fn sink_after(sink: SinkView, u: Unit) -> SinkView {
    match u {
        Unit::Osc { st: true, .. } | Unit::Dcs { .. } => SinkView {
            st_pending: None,
            ..sink_within(sink, u, u.verdict_at()).perform(u.action())
        },
        _ => sink.perform(u.action()),
    }
}

/// The ring behind a span that ended with `sink`.
pub open spec fn ring_after(
    ring: RingView,
    sink: SinkView,
    span: Seq<u8>,
    ground: bool,
) -> RingView {
    match sink.event {
        SegEvent::KeepByte | SegEvent::KeepSeq => keep_span(
            ring,
            span,
            sink.sticky.prologue(),
            ground,
        ),
        SegEvent::ClearSeq => ring.purge(clear_and_home() + sink.sticky.prologue()),
        SegEvent::Partial | SegEvent::DropSeq => ring,
    }
}

/// The scanner behind a unit that was taken in as one span.
pub open spec fn scanner_after(s: ScannerView, u: Unit) -> ScannerView {
    let sink = sink_after(s.sink, u);
    ScannerView {
        history: s.history + u.bytes(),
        sink: SinkView { event: SegEvent::Partial, ..sink },
        ring: ring_after(s.ring, sink, u.bytes(), u.ground(s.ground)),
        ground: u.ground(s.ground),
        ..s
    }
}

/// The scanner with `k` bytes of the unfinished unit `u` pending.
pub open spec fn within(s: ScannerView, u: Unit, k: int) -> ScannerView {
    ScannerView {
        history: s.history + u.bytes().take(k),
        sink: sink_within(s.sink, u, k),
        pending: u.bytes().take(k),
        ground: s.ground && k == 0,
        ..s
    }
}

/// Up to the verdict on a unit its bytes wait, and nothing else happens.
pub proof fn law_unfinished_unit_waits(s: ScannerView, u: Unit, k: nat)
    requires
        s.wf(),
        s.pending == Seq::<u8>::empty(),
        u.valid(),
        k <= u.verdict_at(),
    ensures
        s.run_part(u, k) == within(s, u, k as int),
    decreases k,
{
    if k == 0 {
        assert(within(s, u, 0) =~= s);
    } else {
        law_unfinished_unit_waits(s, u, (k - 1) as nat);
        let part = u.bytes().take(k - 1);
        let before = within(s, u, k - 1);
        let actions = u.actions_at(k - 1);
        assert(u.bytes().take(k as int) =~= part.push(u.bytes()[k - 1]));
        assert(s.history + u.bytes().take(k as int) =~= (s.history + part).push(
            u.bytes()[k - 1],
        ));
        if let Unit::Dcs { marker, body, inter, last, data } = u {
            if k - 1 == u.hook_at() {
                let hook = ActionView::Hook {
                    params: numbers(within_limit(body)),
                    intermediates: first_two(marker + inter),
                    ignore: over_limit(marker, body, inter),
                    action: last as char,
                };
                assert(actions =~= seq![hook]);
                lemma_perform_one(before.sink, hook);
            } else if k - 1 > u.hook_at() && u.bytes()[k - 1] < 0x7f {
                assert(actions =~= seq![ActionView::Put(u.bytes()[k - 1])]);
                lemma_perform_one(before.sink, ActionView::Put(u.bytes()[k - 1]));
            } else {
                assert(actions =~= Seq::empty());
            }
        } else {
            assert(actions =~= Seq::empty());
        }
        assert(s.run_part(u, k) =~= within(s, u, k as int));
    }
}

proof fn lemma_perform_one(sink: SinkView, action: ActionView)
    ensures
        sink.perform_all(seq![action]) == sink.perform(action),
{
    reveal_with_fuel(SinkView::perform_all, 2);
    assert(seq![action].drop_last() =~= Seq::<ActionView>::empty());
}

/// The unit ends with an `ESC \` behind its verdict.
pub open spec fn ends_with_st(u: Unit) -> bool {
    match u {
        Unit::Osc { body, st } => st,
        Unit::Dcs { .. } => true,
        _ => false,
    }
}

/// A unit that ends at its verdict.
proof fn lemma_run_simple_unit(s: ScannerView, u: Unit)
    requires
        s.wf(),
        s.pending == Seq::<u8>::empty(),
        u.valid(),
        !ends_with_st(u),
    ensures
        s.run_unit(u) == scanner_after(s, u),
{
    let bytes = u.bytes();
    let n = bytes.len();
    let a = u.action();
    assert(u.verdict_at() == n - 1);
    assert(u.actions_at(n - 1) =~= seq![a]);
    law_unfinished_unit_waits(s, u, (n - 1) as nat);
    lemma_perform_one(s.sink, a);
    assert(bytes.take(n - 1).push(bytes[n - 1]) =~= bytes);
    assert((s.history + bytes.take(n - 1)).push(bytes[n - 1]) =~= s.history + bytes);
    assert(sink_after(s.sink, u).event != SegEvent::Partial);
    match u {
        Unit::Byte(b) => {
            assert(bytes[n - 1] == b);
            if 0x20 <= b < 0x80 {
                vstd::utf8::char_u32_cast(b as char, b as u32);
                assert(a == ActionView::Print(b as char));
            }
        },
        Unit::Char(c) => {
            lemma_char_is_verbatim(0, c);
            lemma_char_bytes(c);
        },
        _ => {},
    }
    assert(ground_after(s.ground && n == 1, bytes[n - 1], seq![a]) == u.ground(s.ground));
    assert(s.run_unit(u) =~= scanner_after(s, u));
}

/// What is appended in two parts is appended as a whole.
pub proof fn lemma_append_twice(ring: RingView, a: Seq<u8>, b: Seq<u8>)
    requires
        ring.wf(),
    ensures
        ring.append(a).append(b) == ring.append(a + b),
{
    let once = ring.append(a + b);
    let twice = ring.append(a).append(b);
    assert(ring.append(a).chunks.drop_last() =~= ring.chunks.drop_last());
    assert(once.chunks.last().data =~= twice.chunks.last().data);
    assert(twice.chunks =~= once.chunks);
}

/// The scanner right before the last byte of a unit that ends with `ESC \`:
/// the verdict has fallen, and the ring is not cut.
pub open spec fn before_st_ends(s: ScannerView, u: Unit) -> ScannerView {
    let sink = sink_within(s.sink, u, u.verdict_at()).perform(u.action());
    let front = u.bytes().take(u.bytes().len() - 1);
    ScannerView {
        history: s.history + front,
        sink: SinkView { event: SegEvent::Partial, ..sink },
        ring: if u.event() == SegEvent::KeepSeq {
            s.ring.append(front)
        } else {
            s.ring
        },
        ground: false,
        ..s
    }
}

/// A string that is closed by `ESC \`: at its `ESC` it is kept or dropped.
pub proof fn law_string_is_judged_at_its_escape(s: ScannerView, u: Unit)
    requires
        s.wf(),
        s.pending == Seq::<u8>::empty(),
        u.valid(),
        ends_with_st(u),
    ensures
        u.verdict_at() == u.bytes().len() - 2,
        s.run_part(u, (u.bytes().len() - 1) as nat) == before_st_ends(s, u),
{
    let bytes = u.bytes();
    let n = bytes.len();
    let a = u.action();
    assert(u.verdict_at() == n - 2);
    assert(u.actions_at(n - 2) =~= seq![a]);
    law_unfinished_unit_waits(s, u, (n - 2) as nat);
    let inner = sink_within(s.sink, u, n - 2);
    lemma_perform_one(inner, a);
    let front = bytes.take(n - 1);
    assert(bytes.take(n - 2).push(bytes[n - 2]) =~= front);
    assert((s.history + bytes.take(n - 2)).push(bytes[n - 2]) =~= s.history + front);
    assert(bytes[n - 2] == 0x1b);
    assert(inner.perform(a).event == u.event());
    assert(s.run_part(u, (n - 1) as nat) =~= before_st_ends(s, u));
}

/// A string that is closed by `ESC \`: two spans, and no cut between them.
proof fn lemma_run_st_unit(s: ScannerView, u: Unit)
    requires
        s.wf(),
        s.pending == Seq::<u8>::empty(),
        u.valid(),
        ends_with_st(u),
    ensures
        s.run_unit(u) == scanner_after(s, u),
{
    let bytes = u.bytes();
    let n = bytes.len();
    let a = u.action();
    let e = ActionView::Esc { intermediates: Seq::<u8>::empty(), ignore: false, byte: 0x5c };
    law_string_is_judged_at_its_escape(s, u);
    assert(u.actions_at(n - 1) =~= seq![e]);
    let mid = before_st_ends(s, u);
    lemma_perform_one(mid.sink, e);
    let front = bytes.take(n - 1);
    let last = Seq::<u8>::empty().push(bytes[n - 1]);
    assert((s.history + front).push(bytes[n - 1]) =~= s.history + bytes);
    assert(front + last =~= bytes);
    assert(bytes[n - 1] == 0x5c);
    lemma_append_twice(s.ring, front, last);
    assert(s.run_unit(u) == mid.advance_with(bytes[n - 1], seq![e]));
    assert(s.run_unit(u) =~= scanner_after(s, u));
}

/// A unit is never split: its bytes are kept together, dropped together, or
/// clear the ring together, and the ring is cut only behind it.
pub proof fn law_unit_is_never_split(s: ScannerView, u: Unit)
    requires
        s.wf(),
        s.pending == Seq::<u8>::empty(),
        u.valid(),
    ensures
        s.run_unit(u) == scanner_after(s, u),
        sink_after(s.sink, u).event == fate(s.sink.st_pending, u),
        sink_after(s.sink, u).st_pending == u.leaves_pending(),
{
    if ends_with_st(u) {
        lemma_run_st_unit(s, u);
        law_string_is_judged_at_its_escape(s, u);
    } else {
        lemma_run_simple_unit(s, u);
    }
}

// ---------------------------------------------------------------------
// What a stream of units leaves in the ring
// ---------------------------------------------------------------------
/// `data` after one more unit, of which `event` becomes.
pub open spec fn sanitized_step(data: Seq<u8>, u: Unit, event: SegEvent) -> Seq<u8> {
    match event {
        SegEvent::KeepByte | SegEvent::KeepSeq => data + u.bytes(),
        SegEvent::ClearSeq => Seq::empty(),
        SegEvent::Partial | SegEvent::DropSeq => data,
    }
}

/// The data that units leave behind: the bytes of those that are kept, since
/// the last one that cleared the screen. `pending` waits for an `ESC \` before
/// the first unit.
pub open spec fn sanitized(
    data: Seq<u8>,
    pending: Option<SegEvent>,
    units: Seq<Unit>,
) -> Seq<u8>
    decreases units.len(),
{
    if units.len() == 0 {
        data
    } else {
        sanitized_step(
            sanitized(data, pending, units.drop_last()),
            units.last(),
            fate_at(pending, units, units.len() - 1),
        )
    }
}

proof fn lemma_ring_after_data(ring: RingView, sink: SinkView, span: Seq<u8>, ground: bool)
    requires
        ring.wf(),
    ensures
        ring_after(ring, sink, span, ground).wf(),
        ring_after(ring, sink, span, ground).data() == (match sink.event {
            SegEvent::KeepByte | SegEvent::KeepSeq => ring.data() + span,
            SegEvent::ClearSeq => Seq::empty(),
            SegEvent::Partial | SegEvent::DropSeq => ring.data(),
        }),
{
    lemma_keep_span_data(ring, span, sink.sticky.prologue(), ground);
    law_purge_forgets(ring, clear_and_home() + sink.sticky.prologue(), 1);
}

/// A unit leaves the scanner ready for the next.
pub proof fn lemma_run_unit_ready(s: ScannerView, u: Unit)
    requires
        s.wf(),
        s.pending == Seq::<u8>::empty(),
        u.valid(),
    ensures
        s.run_unit(u).wf(),
        s.run_unit(u).pending == Seq::<u8>::empty(),
        s.run_unit(u).utf8_remaining == s.utf8_remaining,
        s.run_unit(u).history == s.history + u.bytes(),
        s.run_unit(u).sink.st_pending == u.leaves_pending(),
        s.run_unit(u).ring.data() == sanitized_step(
            s.ring.data(),
            u,
            fate(s.sink.st_pending, u),
        ),
{
    law_unit_is_never_split(s, u);
    lemma_ring_after_data(s.ring, sink_after(s.sink, u), u.bytes(), u.ground(s.ground));
}

/// Units leave the scanner ready for the next.
pub proof fn lemma_run_units_ready(s: ScannerView, units: Seq<Unit>)
    requires
        s.wf(),
        s.pending == Seq::<u8>::empty(),
        units_valid(units),
    ensures
        s.run_units(units).wf(),
        s.run_units(units).pending == Seq::<u8>::empty(),
        s.run_units(units).utf8_remaining == s.utf8_remaining,
        s.run_units(units).sink.st_pending == (if units.len() == 0 {
            s.sink.st_pending
        } else {
            units.last().leaves_pending()
        }),
    decreases units.len(),
{
    if units.len() > 0 {
        let front = units.drop_last();
        assert forall|i: int| 0 <= i < front.len() implies (#[trigger] front[i]).valid() by {
            assert(front[i] == units[i]);
        }
        lemma_run_units_ready(s, front);
        assert(units[units.len() - 1].valid());
        lemma_run_unit_ready(s.run_units(front), units.last());
    }
}

/// After complete units the ring holds exactly the kept units since the last
/// clear; nothing of a dropped unit is in it.
pub proof fn law_units_are_sanitized(s: ScannerView, units: Seq<Unit>)
    requires
        s.wf(),
        s.pending == Seq::<u8>::empty(),
        units_valid(units),
    ensures
        s.run_units(units).ring.data() == sanitized(s.ring.data(), s.sink.st_pending, units),
    decreases units.len(),
{
    if units.len() > 0 {
        let front = units.drop_last();
        assert(units.last() == units[units.len() - 1]);
        assert forall|i: int| 0 <= i < front.len() implies (#[trigger] front[i]).valid() by {
            assert(front[i] == units[i]);
        }
        law_units_are_sanitized(s, front);
        lemma_run_units_ready(s, front);
        lemma_run_unit_ready(s.run_units(front), units.last());
        if front.len() > 0 {
            assert(front.last() == units[units.len() - 2]);
        }
    }
}

/// What a feed of complete units leaves in the ring: `after` is a scanner
/// that was `before` and has been fed `bytes`.
pub proof fn law_feed_is_sanitized(
    before: ScannerView,
    bytes: Seq<u8>,
    after: ScannerView,
    units: Seq<Unit>,
)
    requires
        before.wf(),
        before.between_units(),
        takes_in_units(before, bytes, after),
        units_valid(units),
        expand_all(before.utf8_remaining, bytes) == units_bytes(units),
    ensures
        after.between_units(),
        after.ring.data() == sanitized(before.ring.data(), before.sink.st_pending, units),
{
    law_units_are_sanitized(before, units);
}

/// What a stream leaves in the ring, however it was split into feeds: the kept
/// units since the last clear. The bytes of a unit that the stream ends in
/// wait for the verdict.
pub proof fn law_stream_is_sanitized(
    watermark: nat,
    bytes: Seq<u8>,
    units: Seq<Unit>,
    u: Unit,
    k: nat,
)
    requires
        heard(ScannerView::fed(watermark, bytes).history),
        units_valid(units),
        u.valid(),
        k <= u.verdict_at(),
        expand_all(0, bytes) == units_bytes(units) + u.bytes().take(k as int),
    ensures
        ScannerView::fed(watermark, bytes).ring.data() == sanitized(Seq::empty(), None, units),
        ScannerView::fed(watermark, bytes).pending == u.bytes().take(k as int),
{
    let s = ScannerView::started(watermark);
    law_purge_forgets(s.ring, Seq::empty(), 1);
    lemma_verdict_is_within(u);
    law_stream_is_taken_in_by_units(watermark, bytes, units, u, k);
    law_units_are_sanitized(s, units);
    lemma_run_units_ready(s, units);
    law_unfinished_unit_waits(s.run_units(units), u, k);
}

/// The same where the stream ends between the `ESC` and the `\` that close a
/// string: the verdict has fallen.
pub proof fn law_stream_within_st_is_sanitized(
    watermark: nat,
    bytes: Seq<u8>,
    units: Seq<Unit>,
    u: Unit,
)
    requires
        heard(ScannerView::fed(watermark, bytes).history),
        units_valid(units),
        u.valid(),
        ends_with_st(u),
        expand_all(0, bytes) == units_bytes(units) + u.bytes().take(u.bytes().len() - 1),
    ensures
        ScannerView::fed(watermark, bytes).ring.data() == sanitized(Seq::empty(), None, units)
            + if u.event() == SegEvent::KeepSeq {
            u.bytes().take(u.bytes().len() - 1)
        } else {
            Seq::empty()
        },
        ScannerView::fed(watermark, bytes).pending == Seq::<u8>::empty(),
{
    let s = ScannerView::started(watermark);
    let n = u.bytes().len();
    law_purge_forgets(s.ring, Seq::empty(), 1);
    lemma_verdict_is_within(u);
    law_stream_is_taken_in_by_units(watermark, bytes, units, u, (n - 1) as nat);
    law_units_are_sanitized(s, units);
    lemma_run_units_ready(s, units);
    let t = s.run_units(units);
    law_string_is_judged_at_its_escape(t, u);
    law_append_extends_data(t.ring, u.bytes().take(n - 1));
    assert(t.ring.data() + Seq::<u8>::empty() =~= t.ring.data());
}

/// The same of a stream of complete units.
pub proof fn law_whole_stream_is_sanitized(watermark: nat, bytes: Seq<u8>, units: Seq<Unit>)
    requires
        heard(ScannerView::fed(watermark, bytes).history),
        units_valid(units),
        expand_all(0, bytes) == units_bytes(units),
    ensures
        ScannerView::fed(watermark, bytes).ring.data() == sanitized(Seq::empty(), None, units),
        ScannerView::fed(watermark, bytes).pending == Seq::<u8>::empty(),
{
    let s = ScannerView::started(watermark);
    law_purge_forgets(s.ring, Seq::empty(), 1);
    law_whole_stream_is_taken_in_by_units(watermark, bytes, units);
    law_units_are_sanitized(s, units);
    lemma_run_units_ready(s, units);
}

/// The verdict on a unit falls at one of its bytes.
pub proof fn lemma_verdict_is_within(u: Unit)
    requires
        u.valid(),
    ensures
        0 <= u.verdict_at() < u.bytes().len(),
{
    if let Unit::Char(c) = u {
        lemma_char_bytes(c);
    }
}

/// Units that are all kept stand in the ring verbatim.
pub proof fn law_kept_units_are_verbatim(
    data: Seq<u8>,
    pending: Option<SegEvent>,
    units: Seq<Unit>,
)
    requires
        forall|i: int|
            0 <= i < units.len() ==> is_kept(#[trigger] fate_at(pending, units, i)),
    ensures
        sanitized(data, pending, units) == data + units_bytes(units),
    decreases units.len(),
{
    if units.len() == 0 {
        assert(data + units_bytes(units) =~= data);
    } else {
        let front = units.drop_last();
        assert forall|i: int| 0 <= i < front.len() implies is_kept(
            #[trigger] fate_at(pending, front, i),
        ) by {
            assert(fate_at(pending, front, i) == fate_at(pending, units, i));
        }
        law_kept_units_are_verbatim(data, pending, front);
        assert(is_kept(fate_at(pending, units, units.len() - 1)));
        assert(data + units_bytes(units) =~= data + units_bytes(front) + units.last().bytes());
    }
}

/// Units that are all dropped leave nothing in the ring.
pub proof fn law_dropped_units_leave_nothing(
    data: Seq<u8>,
    pending: Option<SegEvent>,
    units: Seq<Unit>,
)
    requires
        forall|i: int|
            0 <= i < units.len() ==> #[trigger] fate_at(pending, units, i) == SegEvent::DropSeq,
    ensures
        sanitized(data, pending, units) == data,
    decreases units.len(),
{
    if units.len() > 0 {
        let front = units.drop_last();
        assert forall|i: int| 0 <= i < front.len() implies #[trigger] fate_at(pending, front, i)
            == SegEvent::DropSeq by {
            assert(fate_at(pending, front, i) == fate_at(pending, units, i));
        }
        law_dropped_units_leave_nothing(data, pending, front);
        assert(fate_at(pending, units, units.len() - 1) == SegEvent::DropSeq);
    }
}

/// A unit that clears the screen forgets everything before it.
pub proof fn law_clear_forgets(
    data: Seq<u8>,
    pending: Option<SegEvent>,
    before: Seq<Unit>,
    u: Unit,
    after: Seq<Unit>,
)
    requires
        u.event() == SegEvent::ClearSeq,
    ensures
        sanitized(data, pending, before.push(u) + after) == sanitized(Seq::empty(), None, after),
    decreases after.len(),
{
    let all = before.push(u) + after;
    if after.len() == 0 {
        assert(all =~= before.push(u));
        assert(all.drop_last() =~= before);
        assert(all[all.len() - 1] == u);
    } else {
        law_clear_forgets(data, pending, before, u, after.drop_last());
        assert(all.drop_last() =~= before.push(u) + after.drop_last());
        assert(all.last() == after.last());
        if after.len() == 1 {
            assert(all[all.len() - 2] == u);
        } else {
            assert(all[all.len() - 2] == after[after.len() - 2]);
        }
        assert(fate_at(pending, all, all.len() - 1) == fate_at(None, after, after.len() - 1));
    }
}

// ---------------------------------------------------------------------
// Text
// ---------------------------------------------------------------------
/// A character as a unit.
pub open spec fn char_unit(c: char) -> Unit {
    if (c as u32) < 0x80 {
        Unit::Byte((c as u32) as u8)
    } else {
        Unit::Char(c)
    }
}

/// The characters of a text as units.
pub open spec fn text_units(text: Seq<char>) -> Seq<Unit> {
    text.map_values(|c: char| char_unit(c))
}

proof fn lemma_width_2(c: u32)
    by (bit_vector)
    requires
        0x80 <= c <= 0x7ff,
    ensures
        0xc2 <= vstd::utf8::leading_byte_width_2(c) <= 0xdf,
        0x80 <= vstd::utf8::last_continuation_byte(c) <= 0xbf,
{
}

proof fn lemma_width_3(c: u32)
    by (bit_vector)
    requires
        0x800 <= c <= 0xffff,
    ensures
        0xe0 <= vstd::utf8::leading_byte_width_3(c) <= 0xef,
        0x80 <= vstd::utf8::second_last_continuation_byte(c) <= 0xbf,
        0x80 <= vstd::utf8::last_continuation_byte(c) <= 0xbf,
{
}

proof fn lemma_width_4(c: u32)
    by (bit_vector)
    requires
        0x10000 <= c <= 0x10ffff,
    ensures
        0xf0 <= vstd::utf8::leading_byte_width_4(c) <= 0xf4,
        0x80 <= vstd::utf8::third_last_continuation_byte(c) <= 0xbf,
        0x80 <= vstd::utf8::second_last_continuation_byte(c) <= 0xbf,
        0x80 <= vstd::utf8::last_continuation_byte(c) <= 0xbf,
{
}

/// A character outside ASCII has no byte of ASCII.
proof fn lemma_char_bytes(c: char)
    requires
        c as u32 >= 0x80,
    ensures
        forall|i: int| 0 <= i < char_unit(c).bytes().len() ==> #[trigger] char_unit(c).bytes()[i] >= 0x80,
        char_unit(c).bytes().len() > 1,
{
    let v = c as u32;
    if v <= 0x7ff {
        lemma_width_2(v);
    } else if v <= 0xffff {
        lemma_width_3(v);
    } else {
        lemma_width_4(v);
    }
}

proof fn lemma_width_1(c: u32)
    by (bit_vector)
    requires
        c <= 0x7f,
    ensures
        vstd::utf8::leading_byte_width_1(c) == c as u8,
{
}

proof fn lemma_expand_push(r: u8, bytes: Seq<u8>, b: u8)
    ensures
        expand_all(r, bytes.push(b)) == expand_all(r, bytes) + expand(
            remaining_after_all(r, bytes),
            b,
        ),
        remaining_after_all(r, bytes.push(b)) == remaining_after(remaining_after_all(r, bytes), b),
{
    assert(bytes.push(b).drop_last() =~= bytes);
}

/// The bytes of one character reach the parser as they are.
proof fn lemma_char_is_verbatim(r: u8, c: char)
    ensures
        expand_all(r, vstd::utf8::encode_scalar(c as u32)) == vstd::utf8::encode_scalar(c as u32),
        remaining_after_all(r, vstd::utf8::encode_scalar(c as u32)) == 0,
        vstd::utf8::encode_scalar(c as u32) == char_unit(c).bytes(),
{
    let v = c as u32;
    let e = vstd::utf8::encode_scalar(v);
    let b0 = e[0];
    let s0 = Seq::<u8>::empty();
    let s1 = s0.push(e[0]);
    lemma_expand_push(r, s0, e[0]);
    if v < 0x80 {
        lemma_width_1(v);
        assert(e =~= s1);
        assert(e =~= char_unit(c).bytes());
    } else {
        let s2 = s1.push(e[1]);
        lemma_expand_push(r, s1, e[1]);
        if v <= 0x7ff {
            lemma_width_2(v);
            assert(e =~= s2);
        } else {
            let s3 = s2.push(e[2]);
            lemma_expand_push(r, s2, e[2]);
            if v <= 0xffff {
                lemma_width_3(v);
                assert(e =~= s3);
            } else {
                lemma_width_4(v);
                lemma_expand_push(r, s3, e[3]);
                assert(e =~= s3.push(e[3]));
            }
        }
    }
    assert(expand_all(r, e) =~= e);
}

proof fn lemma_text_is_verbatim(r: u8, text: Seq<char>)
    ensures
        expand_all(r, vstd::utf8::encode_utf8(text)) == vstd::utf8::encode_utf8(text),
        units_bytes(text_units(text)) == vstd::utf8::encode_utf8(text),
    decreases text.len(),
{
    if text.len() > 0 {
        let rest = text.drop_first();
        let first = vstd::utf8::encode_scalar(text[0] as u32);
        lemma_char_is_verbatim(r, text[0]);
        lemma_text_is_verbatim(0, rest);
        lemma_expand_add(r, first, vstd::utf8::encode_utf8(rest));
        let u = char_unit(text[0]);
        assert(text_units(text) =~= seq![u] + text_units(rest));
        crate::unit::lemma_units_bytes_add(seq![u], text_units(rest));
        reveal_with_fuel(units_bytes, 2);
        assert(seq![u].drop_last() =~= Seq::<Unit>::empty());
        assert(units_bytes(seq![u]) =~= u.bytes());
    } else {
        assert(text_units(text) =~= Seq::<Unit>::empty());
        assert(expand_all(r, Seq::<u8>::empty()) =~= Seq::<u8>::empty());
    }
}

/// Behind text, no continuation byte is expected.
proof fn lemma_text_leaves_nothing_expected(text: Seq<char>)
    ensures
        remaining_after_all(0, vstd::utf8::encode_utf8(text)) == 0,
    decreases text.len(),
{
    if text.len() > 0 {
        let first = vstd::utf8::encode_scalar(text[0] as u32);
        lemma_char_is_verbatim(0, text[0]);
        lemma_text_leaves_nothing_expected(text.drop_first());
        lemma_remaining_add(0, first, vstd::utf8::encode_utf8(text.drop_first()));
    }
}

/// An OSC whose text is closed by the C1 ST reaches the parser as one that is
/// closed by `ESC \`, whatever the characters of its text: a 0x9C within a
/// character is not taken for an ST.
pub proof fn law_c1_st_closes_an_osc(r: u8, text: Seq<char>)
    ensures
        expand_all(r, seq![0x1bu8, 0x5du8] + vstd::utf8::encode_utf8(text) + seq![0x9cu8]) == (
        Unit::Osc { body: vstd::utf8::encode_utf8(text), st: true }).bytes(),
{
    let start = seq![0x1bu8, 0x5du8];
    let body = vstd::utf8::encode_utf8(text);
    let none = Seq::<u8>::empty();
    lemma_expand_push(r, none, 0x1b);
    lemma_expand_push(r, none.push(0x1b), 0x5d);
    assert(none.push(0x1b).push(0x5d) =~= start);
    assert(expand_all(r, start) =~= start);
    assert(remaining_after_all(r, start) == 0);
    lemma_text_is_verbatim(0, text);
    lemma_text_leaves_nothing_expected(text);
    lemma_expand_add(r, start, body);
    lemma_remaining_add(r, start, body);
    assert(start + body + seq![0x9cu8] =~= (start + body).push(0x9c));
    lemma_expand_push(r, start + body, 0x9c);
    assert(expand_all(r, (start + body).push(0x9c)) =~= (Unit::Osc { body, st: true }).bytes());
}

/// Text in UTF-8, whatever its characters but for ESC and BEL, reaches the
/// parser as it is and stands in the ring verbatim.
pub proof fn law_text_is_kept_verbatim(
    r: u8,
    data: Seq<u8>,
    pending: Option<SegEvent>,
    text: Seq<char>,
)
    requires
        !text.contains('\u{1b}'),
        !text.contains('\u{7}'),
    ensures
        expand_all(r, vstd::utf8::encode_utf8(text)) == units_bytes(text_units(text)),
        units_valid(text_units(text)),
        sanitized(data, pending, text_units(text)) == data + vstd::utf8::encode_utf8(text),
{
    let units = text_units(text);
    lemma_text_is_verbatim(r, text);
    assert forall|i: int| 0 <= i < units.len() implies (#[trigger] units[i]).valid()
        && !units[i].is_bare_st() && is_kept(units[i].event()) by {
        let c = text[i];
        assert(units[i] == char_unit(c));
        assert(text.contains(c));
        vstd::utf8::char_u32_cast(c, c as u32);
        assert(0x1bu32 as char == '\u{1b}');
        assert(0x07u32 as char == '\u{7}');
    }
    assert forall|i: int| 0 <= i < units.len() implies is_kept(
        #[trigger] fate_at(pending, units, i),
    ) by {
        assert(!units[i].is_bare_st());
    }
    law_kept_units_are_verbatim(data, pending, units);
}

/// Text that is fed is added to the whole replay as it is: `after` is a
/// scanner that was `before` and has been fed `text` in UTF-8.
pub proof fn law_fed_text_is_replayed_verbatim(
    before: ScannerView,
    text: Seq<char>,
    after: ScannerView,
)
    requires
        before.wf(),
        before.between_units(),
        takes_in_units(before, vstd::utf8::encode_utf8(text), after),
        !text.contains('\u{1b}'),
        !text.contains('\u{7}'),
    ensures
        after.between_units(),
        after.ring.data() == before.ring.data() + vstd::utf8::encode_utf8(text),
{
    law_text_is_kept_verbatim(
        before.utf8_remaining,
        before.ring.data(),
        before.sink.st_pending,
        text,
    );
    law_feed_is_sanitized(before, vstd::utf8::encode_utf8(text), after, text_units(text));
}

/// Text behind a stream of complete units is added to the data as it is,
/// however stream and text were split into feeds.
pub proof fn law_streamed_text_is_replayed_verbatim(
    watermark: nat,
    bytes: Seq<u8>,
    units: Seq<Unit>,
    text: Seq<char>,
)
    requires
        heard(ScannerView::fed(watermark, bytes + vstd::utf8::encode_utf8(text)).history),
        units_valid(units),
        expand_all(0, bytes) == units_bytes(units),
        !text.contains('\u{1b}'),
        !text.contains('\u{7}'),
    ensures
        ScannerView::fed(watermark, bytes + vstd::utf8::encode_utf8(text)).ring.data()
            == ScannerView::fed(watermark, bytes).ring.data() + vstd::utf8::encode_utf8(text),
{
    let s = ScannerView::started(watermark);
    let more = vstd::utf8::encode_utf8(text);
    let t = s.run_units(units);
    let pending = t.sink.st_pending;
    let tail = text_units(text);
    lemma_fed_history(watermark, bytes + more, bytes.len() as int);
    assert((bytes + more).take(bytes.len() as int) =~= bytes);
    lemma_expand_add(0, bytes, more);
    law_text_is_kept_verbatim(remaining_after_all(0, bytes), t.ring.data(), pending, text);
    crate::unit::lemma_units_bytes_add(units, tail);
    law_whole_stream_is_taken_in_by_units(watermark, bytes, units);
    law_whole_stream_is_taken_in_by_units(watermark, bytes + more, units + tail);
    lemma_run_units_ready(s, units);
    lemma_run_units_add(s, units, tail);
    law_units_are_sanitized(t, tail);
}

/// Two runs of units, one after the other.
pub proof fn lemma_run_units_add(s: ScannerView, a: Seq<Unit>, b: Seq<Unit>)
    ensures
        s.run_units(a + b) == s.run_units(a).run_units(b),
    decreases b.len(),
{
    if b.len() == 0 {
        assert(a + b =~= a);
    } else {
        lemma_run_units_add(s, a, b.drop_last());
        assert((a + b).drop_last() =~= a + b.drop_last());
        assert((a + b).last() == b.last());
    }
}

// ---------------------------------------------------------------------
// What never reaches a replay
// ---------------------------------------------------------------------
/// The verdict is to keep.
pub open spec fn is_kept(event: SegEvent) -> bool {
    event == SegEvent::KeepByte || event == SegEvent::KeepSeq
}

/// The units that are kept, since the last one that cleared the screen.
pub open spec fn kept_units(pending: Option<SegEvent>, units: Seq<Unit>) -> Seq<Unit>
    decreases units.len(),
{
    if units.len() == 0 {
        Seq::empty()
    } else {
        let before = kept_units(pending, units.drop_last());
        let event = fate_at(pending, units, units.len() - 1);
        if is_kept(event) {
            before.push(units.last())
        } else if event == SegEvent::ClearSeq {
            Seq::empty()
        } else {
            before
        }
    }
}

/// The unit makes the terminal answer: status reports and device attributes
/// (`CSI n`, `CSI c`), its version (`CSI > q`), the state of a mode
/// (`CSI $ p`), a colour (`OSC 4`, `10`, `11`, `12` with a `?`), capabilities
/// (`DCS + q`) and settings (`DCS $ q`). Of markers and intermediates the
/// first two count.
pub open spec fn asks_the_terminal(u: Unit) -> bool {
    match u {
        Unit::Csi { marker, body, inter, last } => {
            ||| last == 0x6e || last == 0x63
            ||| last == 0x71 && marker == seq![0x3eu8]
            ||| last == 0x70 && first_two(marker + inter).contains(0x24)
        },
        Unit::Osc { body, st } => crate::sink::osc_asks_for_color(osc_fields(body)),
        Unit::Dcs { marker, body, inter, last, data } => last == 0x71 && (first_two(
            marker + inter,
        ).contains(0x2b) || first_two(marker + inter).contains(0x24)),
        _ => false,
    }
}

/// Replaying the unit would do more than draw: ring the bell, notify, write
/// the clipboard, mark a prompt, or make the terminal answer.
pub open spec fn has_side_effect(u: Unit) -> bool {
    ||| asks_the_terminal(u)
    ||| u matches Unit::Byte(b) && b == 0x07
    ||| u matches Unit::Osc { body, st } && osc_dropped(osc_fields(body))
}

/// A unit with a side effect is dropped.
proof fn lemma_side_effect_is_dropped(pending: Option<SegEvent>, u: Unit)
    requires
        has_side_effect(u),
    ensures
        fate(pending, u) == SegEvent::DropSeq,
{
    match u {
        Unit::Csi { marker, body, inter, last } => {
            assert(0x6eu8 as char == 'n');
            assert(0x63u8 as char == 'c');
            assert(0x71u8 as char == 'q');
            assert(0x70u8 as char == 'p');
        },
        Unit::Dcs { marker, body, inter, last, data } => {
            assert(0x71u8 as char == 'q');
        },
        _ => {},
    }
}

/// A unit is dropped if and only if it has a side effect: whatever only draws
/// stays.
pub proof fn law_only_side_effects_are_dropped(u: Unit)
    requires
        u.valid(),
    ensures
        u.event() == SegEvent::DropSeq <==> has_side_effect(u),
        u.event() == SegEvent::DropSeq || u.event() == SegEvent::ClearSeq || is_kept(u.event()),
{
    if has_side_effect(u) {
        lemma_side_effect_is_dropped(None, u);
    }
    match u {
        Unit::Csi { marker, body, inter, last } => {
            let all = first_two(marker + inter);
            if all.len() > 0 && all[0] == 0x3e {
                assert(all[0] == (marker + inter)[0]);
                if marker.len() == 0 {
                    assert(all[0] == inter[0]);
                }
                assert(marker =~= seq![0x3eu8]);
            }
        },
        _ => {},
    }
}

/// The ring holds kept units, one after the other, and none of them has a
/// side effect: no bell, no notification, no clipboard write, no prompt
/// marker and no question to the terminal.
pub proof fn law_replay_has_no_side_effects(pending: Option<SegEvent>, units: Seq<Unit>)
    ensures
        sanitized(Seq::empty(), pending, units) == units_bytes(kept_units(pending, units)),
        forall|i: int|
            0 <= i < kept_units(pending, units).len() ==> !has_side_effect(
                #[trigger] kept_units(pending, units)[i],
            ),
    decreases units.len(),
{
    if units.len() > 0 {
        let front = units.drop_last();
        let u = units.last();
        law_replay_has_no_side_effects(pending, front);
        let kept = kept_units(pending, units);
        let event = fate_at(pending, units, units.len() - 1);
        if is_kept(event) {
            assert(kept.drop_last() =~= kept_units(pending, front));
            assert(!has_side_effect(u)) by {
                if has_side_effect(u) {
                    if units.len() == 1 {
                        lemma_side_effect_is_dropped(pending, u);
                    } else {
                        lemma_side_effect_is_dropped(
                            units[units.len() - 2].leaves_pending(),
                            u,
                        );
                    }
                }
            }
            assert forall|i: int| 0 <= i < kept.len() implies !has_side_effect(
                #[trigger] kept[i],
            ) by {
                if i < kept_units(pending, front).len() {
                    assert(kept[i] == kept_units(pending, front)[i]);
                }
            }
        }
    }
}

// ---------------------------------------------------------------------
// Byte by byte
// ---------------------------------------------------------------------
/// Whatever the stream, a byte at which the parser reports nothing waits with
/// those before it, and changes nothing else.
pub proof fn law_silent_bytes_wait(s: ScannerView, b: u8)
    requires
        s.wf(),
    ensures
        ({
            let t = s.absorb(b, Seq::empty());
            t.pending == s.pending.push(b) && t.ring == s.ring && t.sink == s.sink && !t.ground
        }),
{
}

/// Whatever the stream, the ring is cut only behind a whole character, a
/// control that stands outside a sequence or ends one, a whole sequence, or a
/// command that was closed by BEL: not at an ESC, not at a byte that starts the
/// next character, not within a string, and not below the watermark.
pub proof fn law_cuts_fall_between(s: ScannerView, b: u8, actions: Seq<ActionView>)
    requires
        s.wf(),
        s.absorb(b, actions).ring.chunks.len() > s.ring.chunks.len(),
    ensures
        b != 0x1b,
        actions.len() > 0,
        s.ring.chunks.last().data.len() + s.pending.len() + 1 >= s.ring.watermark,
        match actions.last() {
            ActionView::Print(c) => c != '\u{fffd}' || b < 0xc2 || b > 0xf4,
            ActionView::Execute(c) => s.ground || c == 0x18 || c == 0x1a,
            ActionView::Csi { .. } => true,
            ActionView::Esc { .. } => true,
            ActionView::Osc { params, bell } => bell,
            ActionView::Hook { .. } => false,
            ActionView::Put(_) => false,
            ActionView::Unhook => false,
        },
{
}

} // verus!
