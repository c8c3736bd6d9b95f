//! From a raw terminal byte stream to a sanitized, replayable ring.

use vstd::prelude::*;

use crate::action::{
    actions, advance, follows_units, ground_after, is_ground_after, new_parser, parser_actions,
    parser_history, Action, ActionView,
};
use crate::bytes::extend_bytes;
use crate::ring::{ChunkRing, RingView};
use crate::sink::{SegEvent, Sink, SinkView};
use crate::status::StatusSnapshot;
use crate::unit::{units_bytes, units_valid, Unit};

verus! {

/// Feeds a raw terminal byte stream into a sanitized, replayable ring while
/// tracking sticky state and shell status.
pub struct Scanner {
    parser: vte::Parser,
    sink: Sink,
    ring: ChunkRing,
    /// Raw bytes of the span currently being parsed (not yet classified).
    pending: Vec<u8>,
    /// The parser is at ground state. A span may end before it is: the `ESC`
    /// that ends an OSC is the start of its `ESC \`.
    ground: bool,
    /// Number of UTF-8 continuation bytes still expected for the multibyte
    /// character currently being read. While non-zero the next bytes are
    /// continuation bytes (0x80..=0xBF) and must pass through verbatim; in
    /// particular 0x9C must not be reinterpreted as the C1 ST terminator.
    utf8_remaining: u8,
}

/// What a [`Scanner`] holds, with all bytes that its parser has been given.
#[verifier::ext_equal]
pub struct ScannerView {
    pub history: Seq<u8>,
    pub sink: SinkView,
    pub ring: RingView,
    pub pending: Seq<u8>,
    pub ground: bool,
    pub utf8_remaining: u8,
}

/// A UTF-8 continuation byte.
pub open spec fn is_continuation(b: u8) -> bool {
    0x80 <= b <= 0xbf
}

/// The number of continuation bytes that follow the lead byte `b`.
pub open spec fn continuation_bytes(b: u8) -> u8 {
    if 0xc2 <= b <= 0xdf {
        1
    } else if 0xe0 <= b <= 0xef {
        2
    } else if 0xf0 <= b <= 0xf4 {
        3
    } else {
        0
    }
}

/// What the parser is given for the byte `b`, where `remaining` continuation
/// bytes are expected: a standalone C1 ST becomes `ESC \`.
pub open spec fn expand(remaining: u8, b: u8) -> Seq<u8> {
    if b == 0x9c && remaining == 0 {
        seq![0x1bu8, 0x5cu8]
    } else {
        seq![b]
    }
}

/// The continuation bytes that are expected after the byte `b`.
pub open spec fn remaining_after(remaining: u8, b: u8) -> u8 {
    if remaining > 0 && is_continuation(b) {
        (remaining - 1) as u8
    } else {
        continuation_bytes(b)
    }
}

/// The continuation bytes that are expected after all of `bytes`.
pub open spec fn remaining_after_all(remaining: u8, bytes: Seq<u8>) -> u8
    decreases bytes.len(),
{
    if bytes.len() == 0 {
        remaining
    } else {
        remaining_after(remaining_after_all(remaining, bytes.drop_last()), bytes.last())
    }
}

/// What the parser is given for all of `bytes`.
pub open spec fn expand_all(remaining: u8, bytes: Seq<u8>) -> Seq<u8>
    decreases bytes.len(),
{
    if bytes.len() == 0 {
        Seq::empty()
    } else {
        expand_all(remaining, bytes.drop_last()) + expand(
            remaining_after_all(remaining, bytes.drop_last()),
            bytes.last(),
        )
    }
}

/// `ESC [ 2 J ESC [ H`, which clears the screen and homes the cursor.
pub open spec fn clear_and_home() -> Seq<u8> {
    seq![0x1bu8, 0x5bu8, 0x32u8, 0x4au8, 0x1bu8, 0x5bu8, 0x48u8]
}

/// The ring with `span` kept, and cut at ground state if the open chunk has
/// reached the watermark.
pub open spec fn keep_span(
    ring: RingView,
    span: Seq<u8>,
    prologue: Seq<u8>,
    ground: bool,
) -> RingView {
    if ground && ring.append(span).should_cut() {
        ring.append(span).cut(prologue)
    } else {
        ring.append(span)
    }
}

impl ScannerView {
    /// Ring and sink are well-formed and no event waits to be handled.
    pub open spec fn wf(self) -> bool {
        self.ring.wf() && self.sink.wf() && self.sink.event == SegEvent::Partial
    }

    /// A scanner before any byte.
    pub open spec fn started(watermark: nat) -> ScannerView {
        ScannerView {
            history: Seq::empty(),
            sink: SinkView::started(),
            ring: RingView::started(watermark, Seq::empty()),
            pending: Seq::empty(),
            ground: true,
            utf8_remaining: 0,
        }
    }

    /// After the byte `b`, for which the parser reported `actions`: the span
    /// that ends here is kept, dropped, or clears the ring.
    pub open spec fn absorb(self, b: u8, actions: Seq<ActionView>) -> ScannerView {
        let span = self.pending.push(b);
        let sink = self.sink.perform_all(actions);
        let prologue = sink.sticky.prologue();
        let ground = ground_after(self.ground, b, actions);
        ScannerView {
            sink: SinkView { event: SegEvent::Partial, ..sink },
            ring: match sink.event {
                SegEvent::KeepByte | SegEvent::KeepSeq => keep_span(
                    self.ring,
                    span,
                    prologue,
                    ground,
                ),
                SegEvent::ClearSeq => self.ring.purge(clear_and_home() + prologue),
                SegEvent::Partial | SegEvent::DropSeq => self.ring,
            },
            pending: if sink.event == SegEvent::Partial {
                span
            } else {
                Seq::empty()
            },
            ground,
            ..self
        }
    }

    /// After the parser has been given `b` and reported `actions`.
    pub open spec fn advance_with(self, b: u8, actions: Seq<ActionView>) -> ScannerView {
        ScannerView { history: self.history.push(b), ..self.absorb(b, actions) }
    }

    /// After the parser has been given `b`.
    pub open spec fn advance(self, b: u8) -> ScannerView {
        self.advance_with(b, parser_actions(self.history, b))
    }

    /// After the parser has been given all of `bytes`.
    pub open spec fn advance_all(self, bytes: Seq<u8>) -> ScannerView
        decreases bytes.len(),
    {
        if bytes.len() == 0 {
            self
        } else {
            self.advance_all(bytes.drop_last()).advance(bytes.last())
        }
    }

    /// After the raw output `bytes`.
    pub open spec fn feed(self, bytes: Seq<u8>) -> ScannerView {
        ScannerView {
            utf8_remaining: remaining_after_all(self.utf8_remaining, bytes),
            ..self.advance_all(expand_all(self.utf8_remaining, bytes))
        }
    }

    /// After one byte of raw output.
    pub open spec fn feed_byte(self, b: u8) -> ScannerView {
        ScannerView {
            utf8_remaining: remaining_after(self.utf8_remaining, b),
            ..self.advance_all(expand(self.utf8_remaining, b))
        }
    }

    /// The parser has been given complete units only, and nothing is pending.
    pub open spec fn between_units(self) -> bool {
        &&& self.pending == Seq::<u8>::empty()
        &&& exists|done: Seq<Unit>|
            units_valid(done) && self.history == #[trigger] units_bytes(done)
    }

    /// After the first `k` bytes of the unit `u`.
    pub open spec fn run_part(self, u: Unit, k: nat) -> ScannerView
        decreases k,
    {
        if k == 0 {
            self
        } else {
            self.run_part(u, (k - 1) as nat).advance_with(u.bytes()[k - 1], u.actions_at(k - 1))
        }
    }

    /// After the unit `u`.
    pub open spec fn run_unit(self, u: Unit) -> ScannerView {
        self.run_part(u, u.bytes().len())
    }

    /// After complete units, in order.
    pub open spec fn run_units(self, units: Seq<Unit>) -> ScannerView
        decreases units.len(),
    {
        if units.len() == 0 {
            self
        } else {
            self.run_units(units.drop_last()).run_unit(units.last())
        }
    }
}

/// At each byte of `history` a parser reports what the units stand for that
/// the byte lies in, as far as all before it are complete. Every parser that
/// was given these bytes has shown this.
pub open spec fn heard(history: Seq<u8>) -> bool {
    forall|j: int|
        0 <= j < history.len() ==> follows_units(
            history.take(j),
            history[j],
            #[trigger] parser_actions(history.take(j), history[j]),
        )
}

/// If `bytes` reach the parser as complete units, after complete units, then
/// `after` is `before` with those units taken in, one by one.
pub open spec fn takes_in_units(before: ScannerView, bytes: Seq<u8>, after: ScannerView) -> bool {
    forall|units: Seq<Unit>|
        before.between_units() && units_valid(units) && expand_all(before.utf8_remaining, bytes)
            == #[trigger] units_bytes(units) ==> after.between_units() && after == (ScannerView {
            utf8_remaining: remaining_after_all(before.utf8_remaining, bytes),
            ..before.run_units(units)
        })
}

impl View for Scanner {
    type V = ScannerView;

    closed spec fn view(&self) -> ScannerView {
        ScannerView {
            history: parser_history(self.parser),
            sink: self.sink@,
            ring: self.ring@,
            pending: self.pending@,
            ground: self.ground,
            utf8_remaining: self.utf8_remaining,
        }
    }
}

/// `advance_all` does not look at the expected continuation bytes.
pub proof fn lemma_advance_all_frame(s: ScannerView, bytes: Seq<u8>, r: u8)
    ensures
        (ScannerView { utf8_remaining: r, ..s }).advance_all(bytes) == (ScannerView {
            utf8_remaining: r,
            ..s.advance_all(bytes)
        }),
    decreases bytes.len(),
{
    if bytes.len() > 0 {
        lemma_advance_all_frame(s, bytes.drop_last(), r);
    }
}

/// `advance_all` of bytes in two parts.
pub proof fn lemma_advance_all_add(s: ScannerView, a: Seq<u8>, b: Seq<u8>)
    ensures
        s.advance_all(a + b) == s.advance_all(a).advance_all(b),
    decreases b.len(),
{
    if b.len() == 0 {
        assert(a + b =~= a);
    } else {
        lemma_advance_all_add(s, a, b.drop_last());
        assert((a + b).drop_last() =~= a + b.drop_last());
        assert((a + b).last() == b.last());
    }
}

/// No raw output changes nothing.
pub proof fn lemma_feed_nothing(s: ScannerView)
    ensures
        s.feed(Seq::empty()) == s,
{
}

/// One more byte of raw output.
proof fn lemma_feed_push(s: ScannerView, bytes: Seq<u8>, b: u8)
    ensures
        s.feed(bytes.push(b)) == s.feed(bytes).feed_byte(b),
{
    let r = remaining_after_all(s.utf8_remaining, bytes);
    assert(bytes.push(b).drop_last() =~= bytes);
    lemma_advance_all_add(s, expand_all(s.utf8_remaining, bytes), expand(r, b));
    lemma_advance_all_frame(
        s.advance_all(expand_all(s.utf8_remaining, bytes)),
        expand(r, b),
        r,
    );
}

/// At the `j`-th of `bytes`, given after `history`, the parser reports what
/// complete units stand for.
spec fn step_follows(history: Seq<u8>, bytes: Seq<u8>, j: int) -> bool {
    follows_units(
        history + bytes.take(j),
        bytes[j],
        parser_actions(history + bytes.take(j), bytes[j]),
    )
}

spec fn steps_follow(history: Seq<u8>, bytes: Seq<u8>) -> bool {
    forall|j: int| 0 <= j < bytes.len() ==> #[trigger] step_follows(history, bytes, j)
}

proof fn lemma_steps_push(history: Seq<u8>, bytes: Seq<u8>, b: u8)
    requires
        steps_follow(history, bytes),
        follows_units(history + bytes, b, parser_actions(history + bytes, b)),
    ensures
        steps_follow(history, bytes.push(b)),
{
    let more = bytes.push(b);
    assert forall|j: int| 0 <= j < more.len() implies #[trigger] step_follows(history, more, j) by {
        if j < bytes.len() {
            assert(step_follows(history, bytes, j));
            assert(more.take(j) =~= bytes.take(j));
        } else {
            assert(more.take(j) =~= bytes);
        }
    }
}

/// What is heard of `a`, and of `b` after it.
proof fn lemma_steps_add(history: Seq<u8>, a: Seq<u8>, b: Seq<u8>)
    requires
        steps_follow(history, a),
        steps_follow(history + a, b),
    ensures
        steps_follow(history, a + b),
{
    assert forall|j: int| 0 <= j < (a + b).len() implies #[trigger] step_follows(
        history,
        a + b,
        j,
    ) by {
        if j < a.len() {
            assert(step_follows(history, a, j));
            assert((a + b).take(j) =~= a.take(j));
        } else {
            assert(step_follows(history + a, b, j - a.len()));
            assert(history + (a + b).take(j) =~= history + a + b.take(j - a.len()));
        }
    }
}

/// What is heard of one byte, and of `ESC \`.
proof fn lemma_steps_short(history: Seq<u8>, b: u8)
    ensures
        follows_units(history, b, parser_actions(history, b)) ==> steps_follow(history, seq![b]),
        follows_units(history, 0x1b, parser_actions(history, 0x1b)) && follows_units(
            history.push(0x1b),
            0x5c,
            parser_actions(history.push(0x1b), 0x5c),
        ) ==> steps_follow(history, seq![0x1bu8, 0x5cu8]),
{
    let none = Seq::<u8>::empty();
    assert(history + none =~= history);
    assert(history + none.push(0x1b) =~= history.push(0x1b));
    assert(none.push(b) =~= seq![b]);
    assert(none.push(0x1b).push(0x5c) =~= seq![0x1bu8, 0x5cu8]);
    if follows_units(history, b, parser_actions(history, b)) {
        lemma_steps_push(history, none, b);
    }
    if follows_units(history, 0x1b, parser_actions(history, 0x1b)) && follows_units(
        history.push(0x1b),
        0x5c,
        parser_actions(history.push(0x1b), 0x5c),
    ) {
        lemma_steps_push(history, none, 0x1b);
        lemma_steps_push(history, none.push(0x1b), 0x5c);
    }
}

/// `advance_all` of one byte, and of `ESC \`.
proof fn lemma_advance_short(s: ScannerView, b: u8)
    ensures
        s.advance_all(seq![b]) == s.advance(b),
        s.advance_all(seq![0x1bu8, 0x5cu8]) == s.advance(0x1b).advance(0x5c),
{
    reveal_with_fuel(ScannerView::advance_all, 3);
    assert(seq![b].drop_last() =~= Seq::<u8>::empty());
    assert(seq![0x1bu8, 0x5cu8].drop_last() =~= seq![0x1bu8]);
    assert(seq![0x1bu8].drop_last() =~= Seq::<u8>::empty());
}

/// One more byte of raw output, and what was heard of it.
proof fn lemma_feed_step(s: ScannerView, bytes: Seq<u8>, b: u8)
    requires
        steps_follow(s.history, expand_all(s.utf8_remaining, bytes)),
        steps_follow(s.feed(bytes).history, expand(s.feed(bytes).utf8_remaining, b)),
    ensures
        s.feed(bytes.push(b)) == s.feed(bytes).feed_byte(b),
        steps_follow(s.history, expand_all(s.utf8_remaining, bytes.push(b))),
{
    let given = expand_all(s.utf8_remaining, bytes);
    lemma_feed_push(s, bytes, b);
    lemma_advance_all_history(s, given);
    assert(bytes.push(b).drop_last() =~= bytes);
    lemma_steps_add(s.history, given, expand(s.feed(bytes).utf8_remaining, b));
}

/// A feed of which all was heard takes in complete units, and was heard.
proof fn lemma_feed_takes_in_units(s: ScannerView, bytes: Seq<u8>)
    requires
        s.wf(),
        steps_follow(s.history, expand_all(s.utf8_remaining, bytes)),
    ensures
        takes_in_units(s, bytes, s.feed(bytes)),
        heard(s.history) ==> heard(s.feed(bytes).history),
{
    let given = expand_all(s.utf8_remaining, bytes);
    let now = s.feed(bytes);
    lemma_advance_all_history(s, given);
    lemma_heard_add(s.history, given);
    assert forall|units: Seq<Unit>|
        s.between_units() && units_valid(units) && given == #[trigger] units_bytes(
            units,
        ) implies now.between_units() && now == (ScannerView {
        utf8_remaining: remaining_after_all(s.utf8_remaining, bytes),
        ..s.run_units(units)
    }) by {
        let done = choose|done: Seq<Unit>|
            units_valid(done) && s.history == #[trigger] units_bytes(done);
        lemma_advance_units(s, done, units);
        crate::stream::lemma_run_units_ready(s, units);
        assert(units_valid(done + units));
    }
}

/// What was heard, and what is heard of `bytes` after it.
proof fn lemma_heard_add(history: Seq<u8>, bytes: Seq<u8>)
    requires
        steps_follow(history, bytes),
    ensures
        heard(history) ==> heard(history + bytes),
{
    let all = history + bytes;
    let n = history.len() as int;
    if heard(history) {
        assert forall|j: int| 0 <= j < all.len() implies follows_units(
            all.take(j),
            all[j],
            #[trigger] parser_actions(all.take(j), all[j]),
        ) by {
            if j < n {
                assert(all.take(j) =~= history.take(j));
                assert(all[j] == history[j]);
                assert(follows_units(
                    history.take(j),
                    history[j],
                    parser_actions(history.take(j), history[j]),
                ));
            } else {
                assert(step_follows(history, bytes, j - n));
                assert(all.take(j) =~= history + bytes.take(j - n));
            }
        }
    }
}

/// What was heard of a stream was heard of its start.
proof fn lemma_heard_prefix(history: Seq<u8>, n: int)
    requires
        heard(history),
        0 <= n <= history.len(),
    ensures
        heard(history.take(n)),
{
    let front = history.take(n);
    assert forall|j: int| 0 <= j < front.len() implies follows_units(
        front.take(j),
        front[j],
        #[trigger] parser_actions(front.take(j), front[j]),
    ) by {
        assert(front.take(j) =~= history.take(j));
        assert(follows_units(
            history.take(j),
            history[j],
            parser_actions(history.take(j), history[j]),
        ));
    }
}

/// What was heard of a stream from its start on.
proof fn lemma_heard_from_start(bytes: Seq<u8>)
    requires
        heard(bytes),
    ensures
        steps_follow(Seq::empty(), bytes),
{
    assert forall|j: int| 0 <= j < bytes.len() implies #[trigger] step_follows(
        Seq::empty(),
        bytes,
        j,
    ) by {
        assert(Seq::<u8>::empty() + bytes.take(j) =~= bytes.take(j));
        assert(follows_units(bytes.take(j), bytes[j], parser_actions(bytes.take(j), bytes[j])));
    }
}

proof fn lemma_steps_prefix(history: Seq<u8>, a: Seq<u8>, b: Seq<u8>)
    requires
        steps_follow(history, a + b),
    ensures
        steps_follow(history, a),
{
    assert forall|j: int| 0 <= j < a.len() implies #[trigger] step_follows(history, a, j) by {
        assert(step_follows(history, a + b, j));
        assert((a + b).take(j) =~= a.take(j));
    }
}

proof fn lemma_advance_all_history(s: ScannerView, bytes: Seq<u8>)
    ensures
        s.advance_all(bytes).history == s.history + bytes,
    decreases bytes.len(),
{
    if bytes.len() == 0 {
        assert(s.history + bytes =~= s.history);
    } else {
        lemma_advance_all_history(s, bytes.drop_last());
        assert(s.history + bytes =~= (s.history + bytes.drop_last()).push(bytes.last()));
    }
}

/// Within a unit, after complete units.
proof fn lemma_advance_unit(s: ScannerView, done: Seq<Unit>, u: Unit, k: nat)
    requires
        units_valid(done),
        u.valid(),
        k <= u.bytes().len(),
        s.history == units_bytes(done),
        steps_follow(s.history, u.bytes().take(k as int)),
    ensures
        s.advance_all(u.bytes().take(k as int)) == s.run_part(u, k),
    decreases k,
{
    if k > 0 {
        let part = u.bytes().take(k as int);
        let before = u.bytes().take(k - 1);
        assert(before + seq![u.bytes()[k - 1]] =~= part);
        lemma_steps_prefix(s.history, before, seq![u.bytes()[k - 1]]);
        lemma_advance_unit(s, done, u, (k - 1) as nat);
        assert(part.drop_last() =~= before);
        lemma_advance_all_history(s, before);
        assert(step_follows(s.history, part, k - 1));
        assert(part.take(k - 1) =~= before);
        assert(s.history + before == units_bytes(done) + u.bytes().take(k - 1));
    }
}

/// A stream of complete units, after complete units, is taken in unit by
/// unit.
proof fn lemma_advance_units(s: ScannerView, done: Seq<Unit>, units: Seq<Unit>)
    requires
        units_valid(done),
        units_valid(units),
        s.history == units_bytes(done),
        steps_follow(s.history, units_bytes(units)),
    ensures
        s.advance_all(units_bytes(units)) == s.run_units(units),
        s.advance_all(units_bytes(units)).history == units_bytes(done + units),
    decreases units.len(),
{
    lemma_advance_all_history(s, units_bytes(units));
    crate::unit::lemma_units_bytes_add(done, units);
    if units.len() > 0 {
        let prefix = units.drop_last();
        let u = units.last();
        let a = units_bytes(prefix);
        lemma_steps_prefix(s.history, a, u.bytes());
        lemma_advance_units(s, done, prefix);
        let t = s.advance_all(a);
        lemma_advance_all_add(s, a, u.bytes());
        assert forall|j: int| 0 <= j < u.bytes().len() implies #[trigger] step_follows(
            t.history,
            u.bytes(),
            j,
        ) by {
            lemma_advance_all_history(s, a);
            assert(step_follows(s.history, a + u.bytes(), a.len() + j));
            assert(s.history + (a + u.bytes()).take(a.len() + j) =~= t.history + u.bytes().take(j));
        }
        assert(u.bytes().take(u.bytes().len() as int) =~= u.bytes());
        lemma_advance_unit(t, done + prefix, u, u.bytes().len());
    }
}

impl ScannerView {
    /// A scanner that was given the raw output `bytes`, in whatever pieces.
    pub open spec fn fed(watermark: nat, bytes: Seq<u8>) -> ScannerView {
        ScannerView::started(watermark).feed(bytes)
    }
}

/// What the parser has been given is what the stream stands for, and the start
/// of a stream was heard with the stream.
pub proof fn lemma_fed_history(watermark: nat, bytes: Seq<u8>, n: int)
    requires
        0 <= n <= bytes.len(),
    ensures
        ScannerView::fed(watermark, bytes).history == expand_all(0, bytes),
        heard(ScannerView::fed(watermark, bytes).history) ==> heard(
            ScannerView::fed(watermark, bytes.take(n)).history,
        ),
{
    let s = ScannerView::started(watermark);
    let front = bytes.take(n);
    let rest = bytes.skip(n);
    lemma_advance_all_history(s, expand_all(0, bytes));
    lemma_advance_all_history(s, expand_all(0, front));
    assert(s.history + expand_all(0, bytes) =~= expand_all(0, bytes));
    assert(s.history + expand_all(0, front) =~= expand_all(0, front));
    assert(front + rest =~= bytes);
    crate::stream::lemma_expand_add(0, front, rest);
    let history = expand_all(0, bytes);
    assert(history.take(expand_all(0, front).len() as int) =~= expand_all(0, front));
    if heard(history) {
        lemma_heard_prefix(history, expand_all(0, front).len() as int);
    }
}

/// A stream that ends within the unit `u`, `k` bytes after complete units, is
/// taken in unit by unit, however it was split into feeds.
pub proof fn law_stream_is_taken_in_by_units(
    watermark: nat,
    bytes: Seq<u8>,
    units: Seq<Unit>,
    u: Unit,
    k: nat,
)
    requires
        heard(ScannerView::fed(watermark, bytes).history),
        units_valid(units),
        u.valid(),
        k <= u.bytes().len(),
        expand_all(0, bytes) == units_bytes(units) + u.bytes().take(k as int),
    ensures
        ScannerView::fed(watermark, bytes) == (ScannerView {
            utf8_remaining: remaining_after_all(0, bytes),
            ..ScannerView::started(watermark).run_units(units).run_part(u, k)
        }),
{
    let s = ScannerView::started(watermark);
    let none = Seq::<Unit>::empty();
    let a = units_bytes(units);
    let b = u.bytes().take(k as int);
    let given = expand_all(0, bytes);
    lemma_fed_history(watermark, bytes, 0);
    lemma_heard_from_start(given);
    lemma_steps_prefix(Seq::empty(), a, b);
    assert(s.history =~= units_bytes(none));
    lemma_advance_units(s, none, units);
    assert(none + units =~= units);
    let t = s.advance_all(a);
    lemma_advance_all_add(s, a, b);
    assert forall|j: int| 0 <= j < k implies #[trigger] step_follows(t.history, b, j) by {
        assert(step_follows(Seq::empty(), given, a.len() + j));
        assert(Seq::<u8>::empty() + given.take(a.len() + j) =~= t.history + b.take(j));
    }
    lemma_advance_unit(t, units, u, k);
}

/// The same of a stream of complete units.
pub proof fn law_whole_stream_is_taken_in_by_units(
    watermark: nat,
    bytes: Seq<u8>,
    units: Seq<Unit>,
)
    requires
        heard(ScannerView::fed(watermark, bytes).history),
        units_valid(units),
        expand_all(0, bytes) == units_bytes(units),
    ensures
        ScannerView::fed(watermark, bytes) == (ScannerView {
            utf8_remaining: remaining_after_all(0, bytes),
            ..ScannerView::started(watermark).run_units(units)
        }),
{
    let u = Unit::Byte(0x20);
    assert(units_bytes(units) + u.bytes().take(0) =~= units_bytes(units));
    law_stream_is_taken_in_by_units(watermark, bytes, units, u, 0);
}

impl Scanner {
    pub fn new(watermark: usize) -> (s: Self)
        ensures
            s@ == ScannerView::started(watermark as nat),
            s@.wf(),
            s@.between_units(),
            heard(s@.history),
    {
        let s = Self {
            parser: new_parser(),
            sink: Sink::new(),
            ring: ChunkRing::new(watermark),
            pending: Vec::new(),
            ground: true,
            utf8_remaining: 0,
        };
        assert(s@.pending =~= Seq::<u8>::empty());
        assert(s@.history =~= units_bytes(Seq::empty()));
        s
    }

    /// Takes in a byte for which the parser reported `list`, and updates the
    /// ring.
    pub fn absorb(&mut self, b: u8, list: &Vec<Action>)
        requires
            old(self)@.wf(),
        ensures
            final(self)@ == old(self)@.absorb(b, actions(list@)),
            final(self)@.wf(),
    {
        proof {
            crate::sink::lemma_perform_all_wf(self.sink@, actions(list@));
        }
        self.pending.push(b);
        self.ground = is_ground_after(self.ground, b, list);
        self.sink.perform_all(list);
        match self.sink.take_event() {
            SegEvent::Partial => {},
            SegEvent::KeepByte | SegEvent::KeepSeq => {
                self.ring.append(self.pending.as_slice());
                self.pending.clear();
                self.maybe_cut();
            },
            SegEvent::DropSeq => {
                self.pending.clear();
            },
            SegEvent::ClearSeq => {
                self.pending.clear();
                let mut prologue: Vec<u8> = Vec::new();
                extend_bytes(&mut prologue, &[0x1b, 0x5b, 0x32, 0x4a, 0x1b, 0x5b, 0x48]);
                assert(prologue@ =~= clear_and_home());
                let sticky = self.sink.sticky().serialize();
                extend_bytes(&mut prologue, sticky.as_slice());
                self.ring.purge(prologue);
            },
        }
        assert(self@.pending =~= old(self)@.absorb(b, actions(list@)).pending);
        assert(self@.ring =~= old(self)@.absorb(b, actions(list@)).ring);
        assert(self@ =~= old(self)@.absorb(b, actions(list@)));
    }

    /// Cuts the ring once its open chunk has reached the watermark, but only
    /// at ground state, so that no sequence is split.
    fn maybe_cut(&mut self)
        requires
            old(self)@.ring.wf(),
        ensures
            final(self)@ == (ScannerView {
                ring: if old(self)@.ground && old(self)@.ring.should_cut() {
                    old(self)@.ring.cut(old(self)@.sink.sticky.prologue())
                } else {
                    old(self)@.ring
                },
                ..old(self)@
            }),
            final(self)@.ring.wf(),
    {
        if self.ground && self.ring.should_cut() {
            let prologue = self.sink.sticky().serialize();
            self.ring.cut(prologue);
        }
    }

    /// Process a single pre-expanded byte through the parser and update the
    /// ring.
    fn advance_one(&mut self, b: u8)
        requires
            old(self)@.wf(),
        ensures
            final(self)@ == old(self)@.advance(b),
            final(self)@.wf(),
            follows_units(old(self)@.history, b, parser_actions(old(self)@.history, b)),
    {
        // Exactly one byte, so a completing action delimits the span.
        let list = advance(&mut self.parser, b);
        self.absorb(b, &list);
    }

    /// Take in one byte of raw terminal output.
    #[verifier::spinoff_prover]
    fn feed_byte(&mut self, b: u8)
        requires
            old(self)@.wf(),
        ensures
            final(self)@ == old(self)@.feed_byte(b),
            final(self)@.wf(),
            steps_follow(old(self)@.history, expand(old(self)@.utf8_remaining, b)),
    {
        let ghost start = self@;
        let remaining = self.utf8_remaining;
        // A 0x9C byte is ambiguous: it is the 8-bit C1 ST terminator, but it
        // is also a legal UTF-8 continuation byte. Only a standalone 0x9C (not
        // part of a multibyte character) is a C1 ST.
        if remaining > 0 && 0x80 <= b && b <= 0xbf {
            self.utf8_remaining = remaining - 1;
        } else {
            // A non-continuation byte in the middle of a character abandons
            // the character and starts afresh.
            self.utf8_remaining = match b {
                0xc2..=0xdf => 1,
                0xe0..=0xef => 2,
                0xf0..=0xf4 => 3,
                _ => 0,
            };
        }
        proof {
            lemma_advance_all_frame(start, expand(remaining, b), self@.utf8_remaining);
            lemma_advance_short(self@, b);
            lemma_steps_short(start.history, b);
        }
        if b == 0x9c && remaining == 0 {
            // The parser only knows 7-bit codes, so it is given the equivalent
            // two-byte form `ESC \`.
            self.advance_one(0x1b);
            self.advance_one(0x5c);
        } else {
            self.advance_one(b);
        }
    }

    /// Feed a chunk of raw terminal output.
    #[verifier::spinoff_prover]
    pub fn feed(&mut self, bytes: &[u8])
        requires
            old(self)@.wf(),
        ensures
            final(self)@ == old(self)@.feed(bytes@),
            final(self)@.wf(),
            takes_in_units(old(self)@, bytes@, final(self)@),
            heard(old(self)@.history) ==> heard(final(self)@.history),
    {
        let ghost start = self@;
        let mut i: usize = 0;
        proof {
            assert(bytes@.take(0) =~= Seq::empty());
        }
        while i < bytes.len()
            invariant
                i <= bytes@.len(),
                self@.wf(),
                self@ == start.feed(bytes@.take(i as int)),
                steps_follow(
                    start.history,
                    expand_all(start.utf8_remaining, bytes@.take(i as int)),
                ),
            decreases bytes@.len() - i,
        {
            let b = bytes[i];
            self.feed_byte(b);
            proof {
                lemma_feed_step(start, bytes@.take(i as int), b);
                assert(bytes@.take(i + 1) =~= bytes@.take(i as int).push(b));
            }
            i = i + 1;
        }
        proof {
            assert(bytes@.take(bytes@.len() as int) =~= bytes@);
            lemma_feed_takes_in_units(start, bytes@);
        }
    }

    /// Replay the most recent `want_chunks` chunks (see `ChunkRing::replay`).
    pub fn replay(&self, want_chunks: usize) -> (out: Vec<u8>)
        requires
            self@.wf(),
        ensures
            out@ == self@.ring.replay(want_chunks as nat),
            want_chunks == usize::MAX ==> out@ == self@.ring.replay_all(),
    {
        self.ring.replay(want_chunks)
    }

    /// Current shell-status snapshot.
    pub fn status(&self) -> (s: StatusSnapshot)
        ensures
            s == self@.sink.status.snapshot(),
    {
        self.sink.status().snapshot()
    }

    /// Whether any OSC 133 prompt marker has been observed (latched).
    pub fn saw_prompt_marker(&self) -> (r: bool)
        ensures
            r == self@.sink.status.saw_prompt_marker,
    {
        self.sink.status().saw_prompt_marker()
    }
}

/// How many continuation bytes are expected behind `b`: as many as a lead byte
/// of UTF-8 announces, one less behind a continuation byte that was expected,
/// and none behind anything else.
pub proof fn law_continuation_bytes_are_counted(bytes: Seq<u8>, b: u8)
    ensures
        ({
            let before = remaining_after_all(0, bytes);
            remaining_after_all(0, bytes.push(b)) == if 0xc2 <= b <= 0xdf {
                1
            } else if 0xe0 <= b <= 0xef {
                2
            } else if 0xf0 <= b <= 0xf4 {
                3
            } else if 0x80 <= b <= 0xbf && before > 0 {
                before - 1
            } else {
                0
            }
        }),
        remaining_after_all(0, Seq::empty()) == 0,
{
    assert(bytes.push(b).drop_last() =~= bytes);
}

/// A byte 0x9C reaches the parser as `ESC \` if and only if no continuation
/// byte is expected; every other byte reaches it as it is.
pub proof fn law_standalone_c1_terminator(bytes: Seq<u8>, b: u8)
    ensures
        expand_all(0, bytes.push(b)) == expand_all(0, bytes) + if b == 0x9c && remaining_after_all(
            0,
            bytes,
        ) == 0 {
            seq![0x1bu8, 0x5cu8]
        } else {
            seq![b]
        },
{
    assert(bytes.push(b).drop_last() =~= bytes);
}

} // verus!
