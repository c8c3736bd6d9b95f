//! A capped replay is as good as a full one for sticky state: read by a cold
//! terminal, the newest chunks leave the state that the whole stream left.

use vstd::prelude::*;

use crate::restore::{
    is_designation, is_link, is_payload, lemma_fields_add, lemma_fields_single,
    lemma_occurrences_add, lemma_occurrences_none,
    lemma_prologue_units, lemma_sticky_after_add, lemma_sticky_after_one, modes_restorable,
    prologue_units, restorable, sticky_after, sticky_after_all,
};
use crate::ring::{chunk_data, law_append_extends_replay, ChunkView, RingView};
use crate::scanner::{
    clear_and_home, expand_all, heard, law_stream_is_taken_in_by_units, takes_in_units, ScannerView,
};
use crate::palette::is_field;
use crate::sink::{
    osc_asks_for_color, osc_is, osc_payload, semicolon_joined, switched, SegEvent, SinkView,
};
use crate::sticky::StickyView;
use crate::stream::{
    before_st_ends, ends_with_st, law_string_is_judged_at_its_escape, law_unfinished_unit_waits,
    law_unit_is_never_split, lemma_run_units_ready, lemma_verdict_is_within, sink_after,
};
use crate::unit::{
    fields, lemma_units_bytes_add, numbers, occurrences, osc_fields, separators, units_bytes,
    units_valid, within_limit, without_controls, Unit,
};

verus! {

// ---------------------------------------------------------------------
// What the parser reports can be restored
// ---------------------------------------------------------------------
proof fn lemma_without_controls(s: Seq<u8>)
    ensures
        forall|i: int|
            0 <= i < without_controls(s).len() ==> 0x20 <= #[trigger] without_controls(s)[i],
    decreases s.len(),
{
    if s.len() > 0 {
        let front = without_controls(s.drop_last());
        lemma_without_controls(s.drop_last());
        assert forall|i: int| 0 <= i < without_controls(s).len() implies 0x20
            <= #[trigger] without_controls(s)[i] by {
            if i < front.len() {
                assert(without_controls(s)[i] == front[i]);
            }
        }
    }
}

/// Every field holds bytes that an OSC can carry, and no `;`.
spec fn all_plain(list: Seq<Seq<u8>>) -> bool {
    forall|i: int| 0 <= i < list.len() ==> is_plain(#[trigger] list[i])
}

/// The text has no controls and no `;`.
pub open spec fn is_plain(s: Seq<u8>) -> bool {
    forall|i: int| 0 <= i < s.len() ==> 0x20 <= #[trigger] s[i] && s[i] != 0x3b
}

proof fn lemma_fields_are_plain(s: Seq<u8>)
    requires
        forall|i: int| 0 <= i < s.len() ==> 0x20 <= #[trigger] s[i],
    ensures
        fields(s).len() > 0,
        all_plain(fields(s)),
    decreases s.len(),
{
    if s.len() > 0 {
        lemma_fields_are_plain(s.drop_last());
        assert(0x20 <= s[s.len() - 1]);
        let before = fields(s.drop_last());
        assert(is_plain(before[before.len() - 1]));
    }
}

/// Plain fields, joined, have a `;` less than there are fields.
proof fn lemma_joined_fields(list: Seq<Seq<u8>>)
    requires
        list.len() > 0,
        all_plain(list),
    ensures
        occurrences(semicolon_joined(list), 0x3b) == list.len() - 1,
        forall|i: int|
            0 <= i < semicolon_joined(list).len() ==> 0x20 <= #[trigger] semicolon_joined(list)[i],
    decreases list.len(),
{
    let last = list.last();
    assert(is_plain(list[list.len() - 1]));
    lemma_occurrences_none(last, 0x3b);
    if list.len() > 1 {
        let front = list.drop_last();
        assert forall|i: int| 0 <= i < front.len() implies is_plain(#[trigger] front[i]) by {
            assert(front[i] == list[i]);
        }
        lemma_joined_fields(front);
        let head = semicolon_joined(front).push(0x3b);
        assert(head.drop_last() =~= semicolon_joined(front));
        lemma_occurrences_add(head, last, 0x3b);
        assert forall|i: int| 0 <= i < semicolon_joined(list).len() implies 0x20
            <= #[trigger] semicolon_joined(list)[i] by {
            if i < semicolon_joined(front).len() {
                assert(semicolon_joined(list)[i] == semicolon_joined(front)[i]);
            } else if i >= head.len() {
                assert(semicolon_joined(list)[i] == last[i - head.len()]);
            }
        }
    }
}

/// Plain fields that are joined are cut again.
proof fn lemma_fields_of_joined(list: Seq<Seq<u8>>)
    requires
        list.len() > 0,
        all_plain(list),
    ensures
        fields(semicolon_joined(list)) == list,
    decreases list.len(),
{
    let last = list.last();
    assert(is_plain(list[list.len() - 1]));
    lemma_fields_single(last);
    if list.len() == 1 {
        assert(list =~= seq![last]);
    } else {
        let front = list.drop_last();
        assert forall|i: int| 0 <= i < front.len() implies is_plain(#[trigger] front[i]) by {
            assert(front[i] == list[i]);
        }
        lemma_fields_of_joined(front);
        lemma_fields_add(semicolon_joined(front), last);
        assert(front + seq![last] =~= list);
    }
}

/// What stands behind the first field of an OSC can be carried by another, and
/// is cut in the same way.
pub proof fn lemma_payload_of_fields(body: Seq<u8>)
    requires
        osc_fields(body).len() > 1,
    ensures
        is_payload(osc_payload(osc_fields(body))),
        fields(osc_payload(osc_fields(body))) == osc_fields(body).skip(1),
        forall|i: int| 0 <= i < osc_fields(body).len() ==> is_plain(#[trigger] osc_fields(body)[i]),
{
    let list = osc_fields(body);
    let rest = list.skip(1);
    lemma_without_controls(body);
    lemma_fields_are_plain(without_controls(body));
    assert forall|i: int| 0 <= i < rest.len() implies is_plain(#[trigger] rest[i]) by {
        assert(rest[i] == fields(without_controls(body))[i + 1]);
    }
    lemma_joined_fields(rest);
    lemma_fields_of_joined(rest);
    assert forall|i: int| 0 <= i < list.len() implies is_plain(#[trigger] list[i]) by {
        assert(list[i] == fields(without_controls(body))[i]);
    }
}

/// The numbers of a control sequence: one more than its separators, in groups
/// that are not empty.
pub proof fn lemma_numbers_count(s: Seq<u8>)
    ensures
        numbers(s).len() > 0,
        forall|i: int| 0 <= i < numbers(s).len() ==> (#[trigger] numbers(s)[i]).len() > 0,
        numbers(s).flatten().len() == separators(s) + 1,
    decreases s.len(),
{
    let n = numbers(s);
    if s.len() == 0 {
        n.lemma_flatten_one_element();
    } else {
        let before = numbers(s.drop_last());
        lemma_numbers_count(s.drop_last());
        let head = before.drop_last();
        assert(before[before.len() - 1].len() > 0);
        head.lemma_flatten_push(before.last());
        assert(head.push(before.last()) =~= before);
        if s.last() == 0x3b {
            before.lemma_flatten_push(seq![0u16]);
        } else {
            head.lemma_flatten_push(n.last());
        }
    }
}

pub proof fn lemma_within_limit(body: Seq<u8>)
    ensures
        separators(within_limit(body)) <= 31,
    decreases body.len(),
{
    if separators(body) > 31 {
        lemma_within_limit(body.drop_last());
    }
}

/// Switching modes changes nothing else, and leaves them restorable.
proof fn lemma_switched(v: StickyView, params: Seq<Seq<u16>>, on: bool)
    requires
        modes_restorable(v.dec_modes),
    ensures
        switched(v, params, on) == (StickyView {
            dec_modes: switched(v, params, on).dec_modes,
            ..v
        }),
        modes_restorable(switched(v, params, on).dec_modes),
    decreases params.len(),
{
    if params.len() > 0 {
        lemma_switched(v, params.drop_last(), on);
    }
}

/// What units leave behind can be restored.
pub proof fn lemma_sticky_after_restorable(v: StickyView, u: Unit)
    requires
        restorable(v),
        u.valid(),
    ensures
        restorable(sticky_after(v, u)),
{
    match u {
        Unit::Esc { inter, last } => {
            crate::rendition::lemma_default_is_settled();
            let w = sticky_after(v, u);
            if 0 < inter.len() <= 2 {
                let d = inter.push(last);
                assert(d.drop_last() =~= inter);
                if let Some(slot) = crate::sink::charset_slot(inter[0]) {
                    assert(is_designation(slot, crate::sink::designation(inter, last)));
                    assert forall|i: int| 0 <= i < 4 implies is_designation(
                        i,
                        #[trigger] w.charsets[i],
                    ) by {
                        assert(is_designation(i, v.charsets[i]));
                    }
                }
            }
        },
        Unit::Csi { marker, body, inter, last } => {
            let params = numbers(within_limit(body));
            lemma_switched(v, params, true);
            lemma_switched(v, params, false);
            lemma_numbers_count(within_limit(body));
            lemma_within_limit(body);
            crate::rendition::law_accumulated_is_settled(v.sgr, params);
        },
        Unit::Osc { body, st } => {
            let params = osc_fields(body);
            if params.len() > 1 {
                lemma_payload_of_fields(body);
                if params.len() > 2 {
                    assert(params.skip(1)[1] == params[2]);
                }
            }
            if !osc_asks_for_color(params) {
                if osc_is(params, 4) || osc_is(params, 10) || osc_is(params, 11) || osc_is(
                    params,
                    12,
                ) {
                    assert forall|i: int| 1 <= i < params.len() implies is_field(
                        #[trigger] params[i],
                    ) by {
                        assert(is_plain(params[i]));
                    }
                }
                crate::palette::lemma_osc_colors_restorable(v.colors, params);
            }
        },
        _ => {},
    }
}

// ---------------------------------------------------------------------
// Chunks and the states they start from
// ---------------------------------------------------------------------
/// `prologue` brings a cold terminal to the state `v`.
pub open spec fn is_base(prologue: Seq<u8>, v: StickyView) -> bool {
    ||| prologue == Seq::<u8>::empty() && v == StickyView::cold()
    ||| prologue == v.prologue()
    ||| prologue == clear_and_home() + v.prologue()
}

/// Each chunk holds complete units, starts from the state its prologue
/// restores, and ends in the state the next chunk starts from.
pub open spec fn chunks_follow(
    chunks: Seq<ChunkView>,
    now: StickyView,
    units: Seq<Seq<Unit>>,
    bases: Seq<StickyView>,
) -> bool {
    &&& 0 < chunks.len() == units.len() == bases.len()
    &&& forall|i: int|
        0 <= i < chunks.len() ==> {
            &&& units_valid(#[trigger] units[i])
            &&& chunks[i].data == units_bytes(units[i])
            &&& restorable(bases[i])
            &&& is_base(chunks[i].prologue, bases[i])
            &&& sticky_after_all(bases[i], units[i]) == if i == chunks.len() - 1 {
                now
            } else {
                bases[i + 1]
            }
        }
}

/// Every chunk of the ring can be replayed on its own, from the state that
/// its prologue restores.
pub open spec fn self_contained(s: ScannerView) -> bool {
    exists|units: Seq<Seq<Unit>>, bases: Seq<StickyView>| #[trigger]
        chunks_follow(s.ring.chunks, s.sink.sticky, units, bases)
}

/// A new scanner is self-contained.
pub proof fn law_started_is_self_contained(watermark: nat)
    ensures
        self_contained(ScannerView::started(watermark)),
{
    let s = ScannerView::started(watermark);
    crate::rendition::lemma_default_is_settled();
    let units: Seq<Seq<Unit>> = seq![Seq::empty()];
    let bases = seq![StickyView::cold()];
    assert(chunks_follow(s.ring.chunks, s.sink.sticky, units, bases));
}

/// The sticky state that the sink reaches is that of the unit; a dropped unit
/// changes none.
proof fn lemma_unit_sticky(sink: SinkView, u: Unit)
    requires
        sink.wf(),
        u.valid(),
    ensures
        u.event() == SegEvent::DropSeq ==> sticky_after(sink.sticky, u) == sink.sticky,
        sink_after(sink, u).sticky == sticky_after(sink.sticky, u),
        sink_after(sink, u).event == SegEvent::DropSeq ==> sticky_after(sink.sticky, u)
            == sink.sticky,
        sink_after(sink, u).event != SegEvent::Partial,
{
    match u {
        Unit::Osc { body, st } => {
            let params = osc_fields(body);
            crate::sink::lemma_osc_has_one_number(params);
            crate::palette::lemma_other_oscs_set_no_color(sink.sticky.colors, params);
        },
        _ => {},
    }
}

proof fn lemma_follow_keep(
    ring: RingView,
    before: StickyView,
    u: Unit,
    units: Seq<Seq<Unit>>,
    bases: Seq<StickyView>,
)
    requires
        chunks_follow(ring.chunks, before, units, bases),
        u.valid(),
    ensures
        chunks_follow(
            ring.append(u.bytes()).chunks,
            sticky_after(before, u),
            units.drop_last().push(units.last().push(u)),
            bases,
        ),
{
    let n = ring.chunks.len();
    let after = ring.append(u.bytes()).chunks;
    let more = units.last().push(u);
    let units1 = units.drop_last().push(more);
    assert(more.drop_last() =~= units.last());
    assert(units_valid(units[n - 1]));
    assert forall|i: int| 0 <= i < more.len() implies (#[trigger] more[i]).valid() by {
        if i < units.last().len() {
            assert(more[i] == units[n - 1][i]);
        }
    }
    assert forall|i: int| 0 <= i < n implies {
        &&& units_valid(#[trigger] units1[i])
        &&& after[i].data == units_bytes(units1[i])
        &&& restorable(bases[i])
        &&& is_base(after[i].prologue, bases[i])
        &&& sticky_after_all(bases[i], units1[i]) == if i == n - 1 {
            sticky_after(before, u)
        } else {
            bases[i + 1]
        }
    } by {
        if i < n - 1 {
            assert(units1[i] == units[i]);
        } else {
            assert(units1[i] == more);
        }
    }
}

proof fn lemma_follow_cut(
    ring: RingView,
    now: StickyView,
    units: Seq<Seq<Unit>>,
    bases: Seq<StickyView>,
)
    requires
        chunks_follow(ring.chunks, now, units, bases),
        restorable(now),
    ensures
        chunks_follow(
            ring.cut(now.prologue()).chunks,
            now,
            units.push(Seq::empty()),
            bases.push(now),
        ),
{
    let n = ring.chunks.len();
    let after = ring.cut(now.prologue()).chunks;
    let units1 = units.push(Seq::empty());
    let bases1 = bases.push(now);
    assert forall|i: int| 0 <= i < n + 1 implies {
        &&& units_valid(#[trigger] units1[i])
        &&& after[i].data == units_bytes(units1[i])
        &&& restorable(bases1[i])
        &&& is_base(after[i].prologue, bases1[i])
        &&& sticky_after_all(bases1[i], units1[i]) == if i == n {
            now
        } else {
            bases1[i + 1]
        }
    } by {
        if i < n {
            assert(units1[i] == units[i]);
        }
    }
}

/// The state that the sink tracks can be restored.
proof fn lemma_now_restorable(
    chunks: Seq<ChunkView>,
    now: StickyView,
    units: Seq<Seq<Unit>>,
    bases: Seq<StickyView>,
)
    requires
        chunks_follow(chunks, now, units, bases),
    ensures
        restorable(now),
{
    let i = chunks.len() - 1;
    assert(units_valid(units[i]));
    lemma_all_restorable(bases[i], units[i]);
}

proof fn lemma_all_restorable(v: StickyView, units: Seq<Unit>)
    requires
        restorable(v),
        units_valid(units),
    ensures
        restorable(sticky_after_all(v, units)),
    decreases units.len(),
{
    if units.len() > 0 {
        let front = units.drop_last();
        assert forall|i: int| 0 <= i < front.len() implies (#[trigger] front[i]).valid() by {
            assert(front[i] == units[i]);
        }
        lemma_all_restorable(v, front);
        assert(units[units.len() - 1].valid());
        lemma_sticky_after_restorable(sticky_after_all(v, front), units.last());
    }
}

/// Units keep the ring self-contained.
pub proof fn law_units_keep_self_contained(s: ScannerView, units: Seq<Unit>)
    requires
        s.wf(),
        s.pending == Seq::<u8>::empty(),
        self_contained(s),
        units_valid(units),
    ensures
        self_contained(s.run_units(units)),
    decreases units.len(),
{
    if units.len() > 0 {
        let front = units.drop_last();
        assert forall|i: int| 0 <= i < front.len() implies (#[trigger] front[i]).valid() by {
            assert(front[i] == units[i]);
        }
        law_units_keep_self_contained(s, front);
        crate::stream::lemma_run_units_ready(s, front);
        assert(units[units.len() - 1].valid());
        lemma_unit_keeps_self_contained(s.run_units(front), units.last());
    }
}

proof fn lemma_unit_keeps_self_contained(s: ScannerView, u: Unit)
    requires
        s.wf(),
        s.pending == Seq::<u8>::empty(),
        self_contained(s),
        u.valid(),
    ensures
        self_contained(s.run_unit(u)),
{
    let (units, bases) = choose|units: Seq<Seq<Unit>>, bases: Seq<StickyView>| #[trigger]
        chunks_follow(s.ring.chunks, s.sink.sticky, units, bases);
    let before = s.sink.sticky;
    let sink = sink_after(s.sink, u);
    let now = sticky_after(before, u);
    let r = s.run_unit(u);
    law_unit_is_never_split(s, u);
    lemma_unit_sticky(s.sink, u);
    lemma_now_restorable(s.ring.chunks, before, units, bases);
    lemma_sticky_after_restorable(before, u);
    match sink.event {
        SegEvent::KeepByte | SegEvent::KeepSeq => {
            lemma_follow_keep(s.ring, before, u, units, bases);
            let units1 = units.drop_last().push(units.last().push(u));
            let ring1 = s.ring.append(u.bytes());
            if u.ground(s.ground) && ring1.should_cut() {
                lemma_follow_cut(ring1, now, units1, bases);
                assert(r.ring == ring1.cut(now.prologue()));
            } else {
                assert(r.ring == ring1);
            }
        },
        SegEvent::ClearSeq => {
            let units1: Seq<Seq<Unit>> = seq![Seq::empty()];
            assert(chunks_follow(r.ring.chunks, now, units1, seq![now]));
        },
        SegEvent::DropSeq | SegEvent::Partial => {
            assert(r.ring == s.ring);
        },
    }
}

/// A feed of complete units keeps the ring self-contained: `after` is a
/// scanner that was `before` and has been fed `bytes`.
pub proof fn law_feed_keeps_self_contained(
    before: ScannerView,
    bytes: Seq<u8>,
    after: ScannerView,
    units: Seq<Unit>,
)
    requires
        before.wf(),
        before.between_units(),
        self_contained(before),
        takes_in_units(before, bytes, after),
        units_valid(units),
        expand_all(before.utf8_remaining, bytes) == units_bytes(units),
    ensures
        self_contained(after),
{
    law_units_keep_self_contained(before, units);
    let run = before.run_units(units);
    assert(after.ring == run.ring && after.sink == run.sink);
}

// ---------------------------------------------------------------------
// Replaying
// ---------------------------------------------------------------------
/// `ESC [ body last`.
spec fn csi_final(body: Seq<u8>, last: u8) -> Unit {
    Unit::Csi { marker: Seq::empty(), body, inter: Seq::empty(), last }
}

/// The clear sequence as units.
spec fn clear_units() -> Seq<Unit> {
    seq![
        csi_final(seq![0x32u8], 0x4a),
        csi_final(Seq::empty(), 0x48),
    ]
}

proof fn lemma_clear_units(v: StickyView)
    ensures
        units_bytes(clear_units()) == clear_and_home(),
        units_valid(clear_units()),
        sticky_after_all(v, clear_units()) == v,
{
    let a = csi_final(seq![0x32u8], 0x4a);
    let b = csi_final(Seq::empty(), 0x48);
    lemma_sticky_after_one(v, a);
    lemma_sticky_after_one(v, b);
    lemma_sticky_after_add(v, seq![a], seq![b]);
    lemma_units_bytes_add(seq![a], seq![b]);
    assert(clear_units() =~= seq![a] + seq![b]);
    assert(a.bytes() + b.bytes() =~= clear_and_home());
    reveal_with_fuel(occurrences, 2);
    assert(seq![0x32u8].drop_last() =~= Seq::<u8>::empty());
}

/// The units that bring a cold terminal to `v`.
proof fn lemma_base_units(prologue: Seq<u8>, v: StickyView) -> (units: Seq<Unit>)
    requires
        is_base(prologue, v),
        restorable(v),
    ensures
        units_valid(units),
        units_bytes(units) == prologue,
        sticky_after_all(StickyView::cold(), units) == v,
{
    lemma_prologue_units(v);
    if prologue == v.prologue() {
        prologue_units(v)
    } else if prologue == clear_and_home() + v.prologue() {
        lemma_clear_units(StickyView::cold());
        lemma_units_bytes_add(clear_units(), prologue_units(v));
        lemma_sticky_after_add(StickyView::cold(), clear_units(), prologue_units(v));
        clear_units() + prologue_units(v)
    } else {
        Seq::empty()
    }
}

/// The units of the chunks from `start` on, and the state they lead to.
proof fn lemma_chunks_from(
    chunks: Seq<ChunkView>,
    now: StickyView,
    units: Seq<Seq<Unit>>,
    bases: Seq<StickyView>,
    start: int,
) -> (all: Seq<Unit>)
    requires
        chunks_follow(chunks, now, units, bases),
        0 <= start < chunks.len(),
    ensures
        units_valid(all),
        units_bytes(all) == chunk_data(chunks.skip(start)),
        sticky_after_all(bases[start], all) == now,
    decreases chunks.len() - start,
{
    assert(units_valid(units[start]));
    let head = seq![chunks[start]];
    crate::ring::lemma_chunk_data_one(chunks[start]);
    if start == chunks.len() - 1 {
        assert(chunks.skip(start) =~= head);
        units[start]
    } else {
        let rest = lemma_chunks_from(chunks, now, units, bases, start + 1);
        assert(chunks.skip(start) =~= head + chunks.skip(start + 1));
        crate::ring::lemma_chunk_data_add(head, chunks.skip(start + 1));
        lemma_units_bytes_add(units[start], rest);
        lemma_sticky_after_add(bases[start], units[start], rest);
        units[start] + rest
    }
}

/// The newest chunks, read by a cold terminal, lead to the state `now`.
proof fn lemma_chunks_restore(
    ring: RingView,
    now: StickyView,
    units: Seq<Seq<Unit>>,
    bases: Seq<StickyView>,
    want: nat,
) -> (all: Seq<Unit>)
    requires
        chunks_follow(ring.chunks, now, units, bases),
    ensures
        units_valid(all),
        units_bytes(all) == ring.replay(want),
        sticky_after_all(StickyView::cold(), all) == now,
{
    let start = ring.replay_start(want);
    assert(units_valid(units[start]));
    let head = lemma_base_units(ring.chunks[start].prologue, bases[start]);
    let tail = lemma_chunks_from(ring.chunks, now, units, bases, start);
    lemma_units_bytes_add(head, tail);
    lemma_sticky_after_add(StickyView::cold(), head, tail);
    head + tail
}

/// `bytes` are complete units that bring a cold terminal to the state `v`.
pub open spec fn restores(bytes: Seq<u8>, v: StickyView) -> bool {
    exists|units: Seq<Unit>|
        units_valid(units) && #[trigger] units_bytes(units) == bytes && sticky_after_all(
            StickyView::cold(),
            units,
        ) == v
}

/// However many chunks are replayed, a cold terminal that reads them is left
/// in the sticky state that the scanner tracks. Rendition, modes, scroll
/// region, character sets, working directory, title, the colours last set and
/// the open hyperlink stay correct via the prologue even when the replay is
/// capped.
pub proof fn law_capped_replay_restores_state(s: ScannerView, want: nat)
    requires
        s.wf(),
        self_contained(s),
    ensures
        restores(s.ring.replay(want), s.sink.sticky),
{
    let (units, bases) = choose|units: Seq<Seq<Unit>>, bases: Seq<StickyView>| #[trigger]
        chunks_follow(s.ring.chunks, s.sink.sticky, units, bases);
    let all = lemma_chunks_restore(s.ring, s.sink.sticky, units, bases, want);
    assert(units_bytes(all) == s.ring.replay(want));
}

/// The same of a stream that ends within the unit `u`, `k` bytes after
/// complete units, however it was split into feeds: up to the verdict on that
/// unit the replay is made of complete units.
pub proof fn law_capped_replay_of_a_stream(
    watermark: nat,
    bytes: Seq<u8>,
    units: Seq<Unit>,
    u: Unit,
    k: nat,
    want: nat,
)
    requires
        heard(ScannerView::fed(watermark, bytes).history),
        units_valid(units),
        u.valid(),
        k <= u.verdict_at(),
        expand_all(0, bytes) == units_bytes(units) + u.bytes().take(k as int),
    ensures
        self_contained(ScannerView::fed(watermark, bytes)),
        restores(
            ScannerView::fed(watermark, bytes).ring.replay(want),
            ScannerView::fed(watermark, bytes).sink.sticky,
        ),
{
    let s = ScannerView::started(watermark);
    let t = s.run_units(units);
    lemma_verdict_is_within(u);
    law_stream_is_taken_in_by_units(watermark, bytes, units, u, k);
    law_started_is_self_contained(watermark);
    law_units_keep_self_contained(s, units);
    lemma_run_units_ready(s, units);
    law_unfinished_unit_waits(t, u, k);
    let now = ScannerView::fed(watermark, bytes);
    assert(now.ring == t.ring && now.sink.sticky == t.sink.sticky);
    law_capped_replay_restores_state(t, want);
}

/// The same where the stream ends between the `ESC` and the `\` that close a
/// string: a kept string is complete with the `\` that is still to come, and
/// of a dropped one nothing is there.
pub proof fn law_capped_replay_within_st(
    watermark: nat,
    bytes: Seq<u8>,
    units: Seq<Unit>,
    u: Unit,
    want: nat,
)
    requires
        heard(ScannerView::fed(watermark, bytes).history),
        units_valid(units),
        u.valid(),
        ends_with_st(u),
        expand_all(0, bytes) == units_bytes(units) + u.bytes().take(u.bytes().len() - 1),
    ensures
        ({
            let now = ScannerView::fed(watermark, bytes);
            restores(
                if u.event() == SegEvent::KeepSeq {
                    now.ring.replay(want).push(0x5c)
                } else {
                    now.ring.replay(want)
                },
                now.sink.sticky,
            )
        }),
{
    let s = ScannerView::started(watermark);
    let t = s.run_units(units);
    lemma_verdict_is_within(u);
    law_stream_is_taken_in_by_units(watermark, bytes, units, u, (u.bytes().len() - 1) as nat);
    law_started_is_self_contained(watermark);
    law_units_keep_self_contained(s, units);
    lemma_run_units_ready(s, units);
    law_string_is_judged_at_its_escape(t, u);
    lemma_within_st_restores(t, u, want);
    let now = ScannerView::fed(watermark, bytes);
    let mid = before_st_ends(t, u);
    assert(now.ring == mid.ring && now.sink == mid.sink);
}

/// The same of the scanner `s` before the unit.
proof fn lemma_within_st_restores(s: ScannerView, u: Unit, want: nat)
    requires
        s.wf(),
        self_contained(s),
        u.valid(),
        ends_with_st(u),
    ensures
        restores(
            if u.event() == SegEvent::KeepSeq {
                before_st_ends(s, u).ring.replay(want).push(0x5c)
            } else {
                before_st_ends(s, u).ring.replay(want)
            },
            before_st_ends(s, u).sink.sticky,
        ),
{
    let n = u.bytes().len();
    let mid = before_st_ends(s, u);
    lemma_unit_sticky(s.sink, u);
    let (list, bases) = choose|list: Seq<Seq<Unit>>, bases: Seq<StickyView>| #[trigger]
        chunks_follow(s.ring.chunks, s.sink.sticky, list, bases);
    assert(mid.sink.sticky == sticky_after(s.sink.sticky, u));
    if u.event() == SegEvent::KeepSeq {
        let front = u.bytes().take(n - 1);
        let last = seq![0x5cu8];
        lemma_follow_keep(s.ring, s.sink.sticky, u, list, bases);
        assert(u.bytes()[n - 1] == 0x5c);
        assert(front + last =~= u.bytes());
        crate::stream::lemma_append_twice(s.ring, front, last);
        law_append_extends_replay(mid.ring, last, want);
        assert(mid.ring.replay(want) + last =~= mid.ring.replay(want).push(0x5c));
        let all = lemma_chunks_restore(
            s.ring.append(u.bytes()),
            mid.sink.sticky,
            list.drop_last().push(list.last().push(u)),
            bases,
            want,
        );
        assert(units_bytes(all) == mid.ring.replay(want).push(0x5c));
    } else {
        let all = lemma_chunks_restore(s.ring, s.sink.sticky, list, bases, want);
        assert(units_bytes(all) == mid.ring.replay(want));
    }
}

} // verus!
