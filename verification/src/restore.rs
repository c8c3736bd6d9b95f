//! A prologue re-establishes sticky state: read back from a cold terminal, it
//! leaves the state that it was written from.

use vstd::prelude::*;

use crate::bytes::{decimal, digit};
use crate::palette::{
    color_bytes, colors_bytes, colors_restorable, is_color, is_field, lemma_osc_sets_one_color,
    lemma_without_absent, palette_name, ColorView,
};
use crate::rendition::{
    is_readable, is_state, law_settled_is_read_back, law_zero_resets, lemma_state_groups, packed,
    settled,
};
use crate::sink::{
    charset_slot, control_sticky, csi_sticky, designation, esc_sticky, link_after, osc_is,
    osc_payload, osc_sticky, region, semicolon_joined, switched,
};
use crate::sticky::{
    charset_bytes, colon_joined, joined, mode_bytes, modes_bytes, on_by_default, sgr_bytes,
    sgr_reset, shift_bytes, StickyView,
};
use crate::unit::{
    all_intermediate, fields, first_two, lemma_units_bytes_add, numbers, occurrences, osc_fields,
    separators, units_bytes, units_valid, with_digit, within_limit, without_controls,
    Unit,
};

verus! {

// ---------------------------------------------------------------------
// What units do to sticky state
// ---------------------------------------------------------------------
/// The sticky state after one unit.
pub open spec fn sticky_after(v: StickyView, u: Unit) -> StickyView {
    match u {
        Unit::Byte(b) => control_sticky(v, b),
        Unit::Esc { inter, last } => esc_sticky(v, first_two(inter), inter.len() > 2, last),
        Unit::Csi { marker, body, inter, last } => csi_sticky(
            v,
            numbers(within_limit(body)),
            first_two(marker + inter),
            last as char,
        ),
        Unit::Osc { body, st } => osc_sticky(v, osc_fields(body)),
        _ => v,
    }
}

/// The sticky state after units, in order.
pub open spec fn sticky_after_all(v: StickyView, units: Seq<Unit>) -> StickyView
    decreases units.len(),
{
    if units.len() == 0 {
        v
    } else {
        sticky_after(sticky_after_all(v, units.drop_last()), units.last())
    }
}

pub proof fn lemma_sticky_after_add(v: StickyView, a: Seq<Unit>, b: Seq<Unit>)
    ensures
        sticky_after_all(v, a + b) == sticky_after_all(sticky_after_all(v, a), b),
    decreases b.len(),
{
    if b.len() == 0 {
        assert(a + b =~= a);
    } else {
        lemma_sticky_after_add(v, a, b.drop_last());
        assert((a + b).drop_last() =~= a + b.drop_last());
        assert((a + b).last() == b.last());
    }
}

pub proof fn lemma_sticky_after_one(v: StickyView, u: Unit)
    ensures
        sticky_after_all(v, seq![u]) == sticky_after(v, u),
        units_bytes(seq![u]) == u.bytes(),
{
    reveal_with_fuel(sticky_after_all, 2);
    reveal_with_fuel(units_bytes, 2);
    assert(seq![u].drop_last() =~= Seq::<Unit>::empty());
    assert(Seq::<u8>::empty() + u.bytes() =~= u.bytes());
}

// ---------------------------------------------------------------------
// Counting and cutting
// ---------------------------------------------------------------------
/// Occurrences in two parts.
pub proof fn lemma_occurrences_add(a: Seq<u8>, b: Seq<u8>, c: u8)
    ensures
        occurrences(a + b, c) == occurrences(a, c) + occurrences(b, c),
    decreases b.len(),
{
    if b.len() == 0 {
        assert(a + b =~= a);
    } else {
        lemma_occurrences_add(a, b.drop_last(), c);
        assert((a + b).drop_last() =~= a + b.drop_last());
        assert((a + b).last() == b.last());
    }
}

/// What is not there does not occur.
pub proof fn lemma_occurrences_none(s: Seq<u8>, c: u8)
    requires
        forall|i: int| 0 <= i < s.len() ==> #[trigger] s[i] != c,
    ensures
        occurrences(s, c) == 0,
    decreases s.len(),
{
    if s.len() > 0 {
        lemma_occurrences_none(s.drop_last(), c);
        assert(s.last() == s[s.len() - 1]);
    }
}

proof fn lemma_decimal_digits(n: nat)
    ensures
        decimal(n).len() > 0,
        forall|i: int| 0 <= i < decimal(n).len() ==> 0x30 <= #[trigger] decimal(n)[i] <= 0x39,
{
    crate::bytes::lemma_decimal_stands_for_itself(n);
}

/// A text without `;` is one field.
pub proof fn lemma_fields_single(s: Seq<u8>)
    requires
        forall|i: int| 0 <= i < s.len() ==> #[trigger] s[i] != 0x3b,
    ensures
        fields(s) == seq![s],
    decreases s.len(),
{
    if s.len() == 0 {
        assert(s =~= Seq::<u8>::empty());
    } else {
        let front = s.drop_last();
        lemma_fields_single(front);
        assert(s.last() == s[s.len() - 1]);
        assert(front.push(s.last()) =~= s);
        assert(fields(s) =~= seq![s]);
    }
}

/// What stands behind a `;` is cut by itself.
pub proof fn lemma_fields_add(a: Seq<u8>, b: Seq<u8>)
    ensures
        fields(b).len() > 0,
        fields(a.push(0x3b) + b) == fields(a) + fields(b),
    decreases b.len(),
{
    let s = a.push(0x3b) + b;
    if b.len() == 0 {
        assert(s =~= a.push(0x3b));
        assert(s.drop_last() =~= a);
        assert(fields(s) =~= fields(a) + fields(b));
    } else {
        let front = b.drop_last();
        lemma_fields_add(a, front);
        assert(s.drop_last() =~= a.push(0x3b) + front);
        assert(s.last() == b.last());
        assert(fields(s) =~= fields(a) + fields(b));
    }
}

/// Fields that are joined again give what was cut.
pub proof fn lemma_fields_rejoin(s: Seq<u8>)
    ensures
        fields(s).len() > 0,
        semicolon_joined(fields(s)) == s,
    decreases s.len(),
{
    if s.len() == 0 {
        assert(semicolon_joined(fields(s)) =~= s);
    } else {
        let before = fields(s.drop_last());
        let now = fields(s);
        lemma_fields_rejoin(s.drop_last());
        let front = s.drop_last();
        assert(front.push(s.last()) =~= s);
        if s.last() == 0x3b {
            assert(now.drop_last() =~= before);
            assert(semicolon_joined(now) =~= front.push(0x3b));
        } else if before.len() == 1 {
            assert(semicolon_joined(now) == before[0].push(s.last()));
        } else {
            let head = semicolon_joined(before.drop_last()).push(0x3b);
            assert(now.drop_last() =~= before.drop_last());
            assert(semicolon_joined(now) == head + before.last().push(s.last()));
            assert(head + before.last().push(s.last()) =~= (head + before.last()).push(s.last()));
        }
    }
}

/// One field more than there are `;`.
pub proof fn lemma_fields_count(s: Seq<u8>)
    ensures
        fields(s).len() == occurrences(s, 0x3b) + 1,
    decreases s.len(),
{
    if s.len() > 0 {
        lemma_fields_count(s.drop_last());
    }
}

/// A text without controls stays as it is.
pub proof fn lemma_nothing_to_leave_out(s: Seq<u8>)
    requires
        forall|i: int| 0 <= i < s.len() ==> 0x20 <= #[trigger] s[i],
    ensures
        without_controls(s) == s,
    decreases s.len(),
{
    if s.len() > 0 {
        lemma_nothing_to_leave_out(s.drop_last());
        assert(0x20 <= s[s.len() - 1]);
        assert(s.drop_last().push(s.last()) =~= s);
    }
}

/// A number in decimal is read as that number.
pub proof fn lemma_numbers_decimal(s: Seq<u8>, n: u16)
    requires
        s.len() == 0 || s.last() == 0x3b || s.last() == 0x3a,
    ensures
        numbers(s).len() > 0,
        numbers(s).last().len() > 0,
        numbers(s + decimal(n as nat)) == numbers(s).drop_last().push(
            numbers(s).last().drop_last().push(n),
        ),
    decreases n,
{
    let t = s + decimal(n as nat);
    let group = numbers(s).last();
    lemma_numbers_not_empty(s);
    assert(group.last() == 0);
    if n < 10 {
        assert(t.drop_last() =~= s);
        assert(t.last() == digit(n as nat));
        assert(with_digit(0, digit(n as nat)) == n);
    } else {
        let m = (n / 10) as u16;
        lemma_numbers_decimal(s, m);
        assert(t.drop_last() =~= s + decimal(m as nat));
        assert(t.last() == digit((n % 10) as nat));
        assert(with_digit(m, digit((n % 10) as nat)) == n);
        assert(group.drop_last().push(m).drop_last() =~= group.drop_last());
        assert(numbers(s).drop_last().push(group.drop_last().push(m)).drop_last()
            =~= numbers(s).drop_last());
    }
}

proof fn lemma_numbers_not_empty(s: Seq<u8>)
    ensures
        numbers(s).len() > 0,
        numbers(s).last().len() > 0,
    decreases s.len(),
{
    if s.len() > 0 {
        lemma_numbers_not_empty(s.drop_last());
    }
}

/// A group is read as that group.
proof fn lemma_colon_joined(s: Seq<u8>, group: Seq<u16>)
    requires
        s.len() == 0 || s.last() == 0x3b,
        group.len() > 0,
    ensures
        numbers(s + colon_joined(group)) == numbers(s).drop_last().push(group),
        occurrences(colon_joined(group), 0x3a) == group.len() - 1,
        occurrences(colon_joined(group), 0x3b) == 0,
        forall|i: int|
            0 <= i < colon_joined(group).len() ==> 0x30 <= #[trigger] colon_joined(group)[i]
                <= 0x3a,
    decreases group.len(),
{
    let last = decimal(group.last() as nat);
    lemma_decimal_digits(group.last() as nat);
    lemma_occurrences_none(last, 0x3a);
    lemma_occurrences_none(last, 0x3b);
    if group.len() == 1 {
        lemma_numbers_decimal(s, group.last());
        assert(numbers(s).last() =~= seq![0u16]);
        assert(seq![0u16].drop_last().push(group.last()) =~= group);
    } else {
        let front = group.drop_last();
        let head = colon_joined(front).push(0x3a);
        lemma_colon_joined(s, front);
        let t = s + head;
        assert(t.drop_last() =~= s + colon_joined(front));
        assert(numbers(t) =~= numbers(s).drop_last().push(front.push(0u16)));
        lemma_numbers_decimal(t, group.last());
        assert(t + last =~= s + colon_joined(group));
        assert(front.push(0u16).drop_last().push(group.last()) =~= group);
        assert(numbers(t).drop_last() =~= numbers(s).drop_last());
        assert(head.drop_last() =~= colon_joined(front));
        lemma_occurrences_add(head, last, 0x3a);
        lemma_occurrences_add(head, last, 0x3b);
        assert forall|i: int| 0 <= i < colon_joined(group).len() implies 0x30
            <= #[trigger] colon_joined(group)[i] <= 0x3a by {
            if i < colon_joined(front).len() {
                assert(colon_joined(group)[i] == colon_joined(front)[i]);
            } else if i > colon_joined(front).len() {
                assert(colon_joined(group)[i] == last[i - colon_joined(front).len() - 1]);
            }
        }
    }
}

/// Joined groups are read as those groups.
proof fn lemma_joined(params: Seq<Seq<u16>>)
    requires
        params.len() > 0,
        forall|i: int| 0 <= i < params.len() ==> (#[trigger] params[i]).len() > 0,
    ensures
        numbers(joined(params)) == params,
        occurrences(joined(params), 0x3a) + occurrences(joined(params), 0x3b)
            == params.flatten().len() - 1,
        forall|i: int|
            0 <= i < joined(params).len() ==> 0x30 <= #[trigger] joined(params)[i] <= 0x3b,
    decreases params.len(),
{
    let group = params.last();
    let last = colon_joined(group);
    assert(group == params[params.len() - 1]);
    let front = params.drop_last();
    front.lemma_flatten_push(group);
    assert(front.push(group) =~= params);
    if params.len() == 1 {
        let none = Seq::<u8>::empty();
        lemma_colon_joined(none, group);
        assert(none + last =~= last);
        assert(numbers(none).drop_last() =~= Seq::<Seq<u16>>::empty());
        assert(params =~= seq![group]);
        assert(front.flatten() =~= Seq::<u16>::empty());
    } else {
        assert forall|i: int| 0 <= i < front.len() implies (#[trigger] front[i]).len() > 0 by {
            assert(front[i] == params[i]);
        }
        lemma_joined(front);
        let head = joined(front).push(0x3b);
        lemma_colon_joined(head, group);
        assert(head.drop_last() =~= joined(front));
        assert(numbers(head).drop_last() =~= front);
        lemma_occurrences_add(head, last, 0x3a);
        lemma_occurrences_add(head, last, 0x3b);
        assert forall|i: int| 0 <= i < joined(params).len() implies 0x30
            <= #[trigger] joined(params)[i] <= 0x3b by {
            if i < joined(front).len() {
                assert(joined(params)[i] == joined(front)[i]);
            } else if i > joined(front).len() {
                assert(joined(params)[i] == last[i - joined(front).len() - 1]);
            }
        }
    }
}

// ---------------------------------------------------------------------
// The prologue as units
// ---------------------------------------------------------------------
/// A payload that an OSC can carry: no control bytes, and no more `;` than
/// the parser cuts at.
pub open spec fn is_payload(s: Seq<u8>) -> bool {
    &&& forall|i: int| 0 <= i < s.len() ==> 0x20 <= #[trigger] s[i]
    &&& occurrences(s, 0x3b) <= 14
}

/// A designation of one of G0 to G3, or its default.
pub open spec fn is_designation(slot: int, d: Seq<u8>) -> bool {
    d.len() == 0 || {
        &&& 2 <= d.len() <= 3
        &&& all_intermediate(d.drop_last())
        &&& 0x30 <= d.last() <= 0x7e
        &&& charset_slot(d[0]) == Some(slot)
        &&& designation(d.drop_last(), d.last()) == d
    }
}

/// Only modes that are on by default are remembered as off.
pub open spec fn modes_restorable(modes: Map<u16, bool>) -> bool {
    forall|c: u16| #[trigger] modes.contains_key(c) && !modes[c] ==> on_by_default(c)
}

/// A payload of an OSC 8 that opens a hyperlink: parameters and a URI.
pub open spec fn is_link(s: Seq<u8>) -> bool {
    &&& is_payload(s)
    &&& fields(s).len() >= 2
    &&& fields(s).len() == 2 ==> fields(s)[1].len() > 0
}

/// The state can be written down and read back: a rendition that is in force
/// as it is written, a region other than the absent one, designations in their
/// places, payloads that an OSC can carry, and colours that one can set.
pub open spec fn restorable(v: StickyView) -> bool {
    &&& settled(v.sgr)
    &&& modes_restorable(v.dec_modes)
    &&& v.scroll_region != Some((0u16, 0u16))
    &&& v.charsets.len() == 4
    &&& forall|i: int| 0 <= i < 4 ==> is_designation(i, #[trigger] v.charsets[i])
    &&& v.shift <= 3
    &&& v.cwd matches Some(cwd) ==> is_payload(cwd)
    &&& v.title matches Some(title) ==> is_payload(title)
    &&& colors_restorable(v.colors)
    &&& v.link matches Some(link) ==> is_link(link)
}

/// A control sequence with joined parameters.
pub open spec fn csi_unit(marker: Seq<u8>, params: Seq<Seq<u16>>, last: u8) -> Unit {
    Unit::Csi { marker, body: joined(params), inter: Seq::empty(), last }
}

/// An OSC of one number and one payload.
pub open spec fn osc_unit(number: u8, payload: Seq<u8>) -> Unit {
    Unit::Osc { body: seq![number, 0x3bu8] + payload, st: false }
}

pub proof fn lemma_csi_unit(marker: Seq<u8>, params: Seq<Seq<u16>>, last: u8)
    requires
        params.len() > 0,
        params.flatten().len() <= 32,
        forall|i: int| 0 <= i < params.len() ==> (#[trigger] params[i]).len() > 0,
        marker.len() <= 1,
        marker.len() == 1 ==> 0x3c <= marker[0] <= 0x3f,
        0x40 <= last <= 0x7e,
    ensures
        csi_unit(marker, params, last).valid(),
        numbers(within_limit(joined(params))) == params,
        first_two(marker + Seq::<u8>::empty()) == marker,
{
    lemma_joined(params);
    assert(separators(joined(params)) <= 31);
    assert(marker + Seq::<u8>::empty() =~= marker);
}

proof fn lemma_osc_unit(number: u8, payload: Seq<u8>)
    requires
        number == 0x37 || number == 0x32 || number == 0x38,
        is_payload(payload),
    ensures
        osc_fields(seq![number, 0x3bu8] + payload) == seq![seq![number]] + fields(payload),
        osc_unit(number, payload).valid(),
        osc_fields(seq![number, 0x3bu8] + payload).len() > 1,
        osc_fields(seq![number, 0x3bu8] + payload)[0] == seq![number],
        osc_payload(osc_fields(seq![number, 0x3bu8] + payload)) == payload,
{
    let head = seq![number];
    let body = seq![number, 0x3bu8] + payload;
    lemma_fields_single(head);
    lemma_fields_add(head, payload);
    assert(head.push(0x3b) + payload =~= body);
    lemma_fields_rejoin(payload);
    assert(fields(body).skip(1) =~= fields(payload));
    lemma_occurrences_add(seq![number, 0x3bu8], payload, 0x3b);
    reveal_with_fuel(occurrences, 3);
    assert(seq![number, 0x3bu8].drop_last() =~= head);
    assert(head.drop_last() =~= Seq::<u8>::empty());
    lemma_fields_count(body);
    assert forall|i: int| 0 <= i < body.len() implies 0x20 <= #[trigger] body[i] by {
        if i >= 2 {
            assert(body[i] == payload[i - 2]);
        }
    }
    lemma_nothing_to_leave_out(body);
}

/// The final byte that switches a mode on or off.
pub open spec fn mode_final(on: bool) -> u8 {
    if on {
        0x68
    } else {
        0x6c
    }
}

/// The units that switch those of `modes` whose code is below `limit`.
pub open spec fn mode_units(modes: Map<u16, bool>, limit: nat) -> Seq<Unit>
    decreases limit,
{
    if limit == 0 {
        Seq::empty()
    } else {
        let code = (limit - 1) as u16;
        let before = mode_units(modes, (limit - 1) as nat);
        if modes.contains_key(code) {
            before.push(csi_unit(seq![0x3fu8], seq![seq![code]], mode_final(modes[code])))
        } else {
            before
        }
    }
}

/// The modes whose code is below `limit`.
spec fn modes_below(modes: Map<u16, bool>, limit: nat) -> Map<u16, bool> {
    Map::new(|c: u16| modes.contains_key(c) && c < limit, |c: u16| modes[c])
}

pub proof fn lemma_one_number(n: u16)
    ensures
        seq![seq![n]].flatten().len() == 1,
        joined(seq![seq![n]]) == decimal(n as nat),
{
    seq![seq![n]].lemma_flatten_one_element();
}

proof fn lemma_mode_units(v: StickyView, modes: Map<u16, bool>, limit: nat)
    requires
        limit <= 0x10000,
        modes_restorable(modes),
        v.dec_modes == Map::<u16, bool>::empty(),
    ensures
        units_bytes(mode_units(modes, limit)) == modes_bytes(modes, limit),
        units_valid(mode_units(modes, limit)),
        sticky_after_all(v, mode_units(modes, limit)) == (StickyView {
            dec_modes: modes_below(modes, limit),
            ..v
        }),
    decreases limit,
{
    if limit == 0 {
        assert(modes_below(modes, 0) =~= v.dec_modes);
    } else {
        let code = (limit - 1) as u16;
        let before = mode_units(modes, (limit - 1) as nat);
        lemma_mode_units(v, modes, (limit - 1) as nat);
        if modes.contains_key(code) {
            let on = modes[code];
            let groups = seq![seq![code]];
            let u = csi_unit(seq![0x3fu8], groups, mode_final(on));
            let all = mode_units(modes, limit);
            assert(all.drop_last() =~= before);
            lemma_one_number(code);
            lemma_csi_unit(seq![0x3fu8], groups, mode_final(on));
            assert(u.bytes() =~= mode_bytes(code, on));
            let w = sticky_after_all(v, before);
            reveal_with_fuel(switched, 2);
            assert(groups.drop_last() =~= Seq::<Seq<u16>>::empty());
            assert(switched(w, groups, on) == w.with_mode(code, on));
            assert(modes_below(modes, limit) =~= w.dec_modes.insert(code, on));
            assert(0x68u8 as char == 'h');
            assert(0x6cu8 as char == 'l');
            assert(sticky_after(w, u) == w.with_mode(code, on));
        } else {
            assert(modes_bytes(modes, limit) =~= modes_bytes(modes, (limit - 1) as nat));
            assert(modes_below(modes, limit) =~= modes_below(modes, (limit - 1) as nat));
        }
    }
}

/// The parts of a prologue, as units.
pub open spec fn reset_units() -> Seq<Unit> {
    seq![csi_unit(Seq::empty(), seq![seq![0u16]], 0x6d)]
}

pub open spec fn sgr_units(sgr: Seq<Seq<Seq<u16>>>) -> Seq<Unit>
    decreases sgr.len(),
{
    if sgr.len() == 0 {
        Seq::empty()
    } else {
        sgr_units(sgr.drop_last()).push(csi_unit(Seq::empty(), sgr.last(), 0x6d))
    }
}

pub open spec fn region_units(v: StickyView) -> Seq<Unit> {
    match v.scroll_region {
        Some((top, bottom)) => seq![csi_unit(Seq::empty(), seq![seq![top], seq![bottom]], 0x72)],
        None => Seq::empty(),
    }
}

/// The unit that makes a designation.
pub open spec fn designation_units(d: Seq<u8>) -> Seq<Unit> {
    if d.len() == 0 {
        Seq::empty()
    } else {
        seq![Unit::Esc { inter: d.drop_last(), last: d.last() }]
    }
}

/// The unit that brings one of G0 to G3 into use.
pub open spec fn shift_units(shift: u8) -> Seq<Unit> {
    if shift == 1 {
        seq![Unit::Byte(0x0e)]
    } else if shift == 2 {
        seq![Unit::Esc { inter: Seq::empty(), last: 0x6e }]
    } else if shift == 3 {
        seq![Unit::Esc { inter: Seq::empty(), last: 0x6f }]
    } else {
        Seq::empty()
    }
}

pub open spec fn charset_units(v: StickyView) -> Seq<Unit> {
    designation_units(v.charsets[0]) + designation_units(v.charsets[1]) + designation_units(
        v.charsets[2],
    ) + designation_units(v.charsets[3]) + shift_units(v.shift)
}

pub open spec fn cwd_units(v: StickyView) -> Seq<Unit> {
    match v.cwd {
        Some(cwd) => seq![osc_unit(0x37, cwd)],
        None => Seq::empty(),
    }
}

pub open spec fn title_units(v: StickyView) -> Seq<Unit> {
    match v.title {
        Some(title) => seq![osc_unit(0x32, title)],
        None => Seq::empty(),
    }
}

/// An OSC that sets a colour.
pub open spec fn color_unit(c: ColorView) -> Unit {
    Unit::Osc { body: c.name.push(0x3b) + c.value, st: false }
}

pub open spec fn color_units(list: Seq<ColorView>) -> Seq<Unit>
    decreases list.len(),
{
    if list.len() == 0 {
        Seq::empty()
    } else {
        color_units(list.drop_last()).push(color_unit(list.last()))
    }
}

pub open spec fn link_units(v: StickyView) -> Seq<Unit> {
    match v.link {
        Some(link) => seq![osc_unit(0x38, link)],
        None => Seq::empty(),
    }
}

/// The units that a prologue consists of.
pub open spec fn prologue_units(v: StickyView) -> Seq<Unit> {
    reset_units() + sgr_units(v.sgr) + mode_units(v.dec_modes, 0x10000) + region_units(v)
        + charset_units(v) + cwd_units(v) + title_units(v) + color_units(v.colors) + link_units(v)
}

proof fn lemma_reset_part(w: StickyView)
    ensures
        units_bytes(reset_units()) == sgr_reset(),
        units_valid(reset_units()),
        sticky_after_all(w, reset_units()) == (StickyView { sgr: Seq::empty(), ..w }),
{
    let zero = seq![seq![0u16]];
    let u = csi_unit(Seq::empty(), zero, 0x6d);
    lemma_one_number(0);
    lemma_csi_unit(Seq::empty(), zero, 0x6d);
    law_zero_resets(w.sgr);
    lemma_sticky_after_one(w, u);
    assert(decimal(0) =~= seq![0x30u8]);
    assert(u.bytes() =~= sgr_reset());
    assert(0x6du8 as char == 'm');
}

/// One more SGR sequence.
proof fn lemma_sgr_push(
    w: StickyView,
    front: Seq<Seq<Seq<u16>>>,
    params: Seq<Seq<u16>>,
    before: Seq<Seq<Seq<u16>>>,
    after: Seq<Seq<Seq<u16>>>,
)
    requires
        params.len() > 0,
        params.flatten().len() <= 32,
        forall|i: int| 0 <= i < params.len() ==> (#[trigger] params[i]).len() > 0,
        units_bytes(sgr_units(front)) == sgr_bytes(front),
        units_valid(sgr_units(front)),
        sticky_after_all(w, sgr_units(front)) == (StickyView { sgr: before, ..w }),
        crate::rendition::accumulated(before, params) == after,
    ensures
        units_bytes(sgr_units(front.push(params))) == sgr_bytes(front.push(params)),
        units_valid(sgr_units(front.push(params))),
        sticky_after_all(w, sgr_units(front.push(params))) == (StickyView { sgr: after, ..w }),
{
    let list = front.push(params);
    let u = csi_unit(Seq::empty(), params, 0x6d);
    let all = sgr_units(list);
    assert(list.drop_last() =~= front);
    assert(all == sgr_units(front).push(u));
    assert(all.drop_last() =~= sgr_units(front));
    lemma_csi_unit(Seq::empty(), params, 0x6d);
    assert(u.bytes() =~= crate::sticky::csi() + joined(params).push(0x6d));
    assert(0x6du8 as char == 'm');
}

/// The sequences of a rendition, one for each item.
proof fn lemma_sgr_items(w: StickyView, state: Seq<Seq<Seq<u16>>>, k: int)
    requires
        is_state(state),
        0 <= k <= state.len(),
        w.sgr == Seq::<Seq<Seq<u16>>>::empty(),
    ensures
        units_bytes(sgr_units(state.take(k))) == sgr_bytes(state.take(k)),
        units_valid(sgr_units(state.take(k))),
        sticky_after_all(w, sgr_units(state.take(k))) == (StickyView {
            sgr: packed(state.take(k)),
            ..w
        }),
    decreases k,
{
    if k == 0 {
        assert(state.take(0) =~= Seq::empty());
    } else {
        let front = state.take(k - 1);
        lemma_sgr_items(w, state, k - 1);
        law_settled_is_read_back(state, k - 1);
        assert(is_readable(state[k - 1]));
        assert(front.push(state[k - 1]) =~= state.take(k));
        lemma_sgr_push(w, front, state[k - 1], packed(front), packed(state.take(k)));
    }
}

proof fn lemma_sgr_part(w: StickyView, v: StickyView)
    requires
        restorable(v),
        w.sgr == Seq::<Seq<Seq<u16>>>::empty(),
    ensures
        units_bytes(sgr_units(v.sgr)) == v.sgr_part(),
        units_valid(sgr_units(v.sgr)),
        sticky_after_all(w, sgr_units(v.sgr)) == (StickyView { sgr: v.sgr, ..w }),
{
    let state = choose|state: Seq<Seq<Seq<u16>>>|
        is_state(state) && v.sgr == #[trigger] packed(state);
    if state.len() > 0 && state.flatten().flatten().len() <= 32 {
        let none = Seq::<Seq<Seq<u16>>>::empty();
        law_settled_is_read_back(state, 0);
        lemma_state_groups(state);
        assert(none.push(state.flatten()) =~= v.sgr);
        lemma_sgr_push(w, none, state.flatten(), none, v.sgr);
    } else {
        lemma_sgr_items(w, state, state.len() as int);
        assert(state.take(state.len() as int) =~= state);
    }
}

proof fn lemma_region_part(w: StickyView, v: StickyView)
    requires
        restorable(v),
        w.scroll_region is None,
    ensures
        units_bytes(region_units(v)) == v.region_part(),
        units_valid(region_units(v)),
        sticky_after_all(w, region_units(v)) == (StickyView {
            scroll_region: v.scroll_region,
            ..w
        }),
{
    match v.scroll_region {
        Some((top, bottom)) => {
            let groups = seq![seq![top], seq![bottom]];
            let u = csi_unit(Seq::empty(), groups, 0x72);
            assert(groups.drop_last() =~= seq![seq![top]]);
            seq![seq![top]].lemma_flatten_push(seq![bottom]);
            assert(seq![seq![top]].push(seq![bottom]) =~= groups);
            lemma_one_number(top);
            lemma_csi_unit(Seq::empty(), groups, 0x72);
            lemma_sticky_after_one(w, u);
            assert(joined(groups) =~= decimal(top as nat).push(0x3b) + decimal(bottom as nat));
            assert(u.bytes() =~= v.region_part());
            assert(region(groups) == v.scroll_region);
            assert(0x72u8 as char == 'r');
        },
        None => {},
    }
}

proof fn lemma_designation_part(w: StickyView, slot: int, d: Seq<u8>)
    requires
        0 <= slot < 4,
        w.charsets.len() == 4,
        w.charsets[slot] == Seq::<u8>::empty(),
        is_designation(slot, d),
    ensures
        units_bytes(designation_units(d)) == charset_bytes(d),
        units_valid(designation_units(d)),
        sticky_after_all(w, designation_units(d)) == w.with_charset(slot, d),
{
    if d.len() > 0 {
        let u = Unit::Esc { inter: d.drop_last(), last: d.last() };
        lemma_sticky_after_one(w, u);
        assert(d.drop_last().push(d.last()) =~= d);
        assert(d.drop_last()[0] == d[0]);
    } else {
        assert(d =~= Seq::<u8>::empty());
        assert(w.charsets.update(slot, d) =~= w.charsets);
    }
}

proof fn lemma_shift_part(w: StickyView, shift: u8)
    requires
        w.shift == 0,
        shift <= 3,
    ensures
        units_bytes(shift_units(shift)) == shift_bytes(shift),
        units_valid(shift_units(shift)),
        sticky_after_all(w, shift_units(shift)) == (StickyView { shift, ..w }),
{
    if shift == 1 {
        lemma_sticky_after_one(w, Unit::Byte(0x0e));
    } else if shift == 2 || shift == 3 {
        let last = if shift == 2 {
            0x6eu8
        } else {
            0x6fu8
        };
        let u = Unit::Esc { inter: Seq::empty(), last };
        lemma_sticky_after_one(w, u);
        assert(u.bytes() =~= seq![0x1bu8, last]);
    }
}

#[verifier::spinoff_prover]
proof fn lemma_charset_part(w: StickyView, v: StickyView)
    requires
        restorable(v),
        w.charsets == StickyView::cold().charsets,
        w.shift == 0,
    ensures
        units_bytes(charset_units(v)) == v.charset_part(),
        units_valid(charset_units(v)),
        sticky_after_all(w, charset_units(v)) == (StickyView {
            charsets: v.charsets,
            shift: v.shift,
            ..w
        }),
{
    let (c0, c1, c2, c3) = (v.charsets[0], v.charsets[1], v.charsets[2], v.charsets[3]);
    let w1 = w.with_charset(0, c0);
    let w2 = w1.with_charset(1, c1);
    let w3 = w2.with_charset(2, c2);
    let w4 = w3.with_charset(3, c3);
    lemma_designation_part(w, 0, c0);
    lemma_designation_part(w1, 1, c1);
    lemma_designation_part(w2, 2, c2);
    lemma_designation_part(w3, 3, c3);
    lemma_shift_part(w4, v.shift);
    lemma_parts_add(w, designation_units(c0), designation_units(c1));
    lemma_parts_add(w, designation_units(c0) + designation_units(c1), designation_units(c2));
    lemma_parts_add(
        w,
        designation_units(c0) + designation_units(c1) + designation_units(c2),
        designation_units(c3),
    );
    lemma_parts_add(
        w,
        designation_units(c0) + designation_units(c1) + designation_units(c2) + designation_units(
            c3,
        ),
        shift_units(v.shift),
    );
    assert(w4.charsets =~= v.charsets);
}

/// Two runs of units, one after the other.
proof fn lemma_parts_add(w: StickyView, a: Seq<Unit>, b: Seq<Unit>)
    requires
        units_valid(a),
        units_valid(b),
    ensures
        units_valid(a + b),
        units_bytes(a + b) == units_bytes(a) + units_bytes(b),
        sticky_after_all(w, a + b) == sticky_after_all(sticky_after_all(w, a), b),
{
    lemma_units_bytes_add(a, b);
    lemma_sticky_after_add(w, a, b);
}

proof fn lemma_cwd_part(w: StickyView, v: StickyView)
    requires
        restorable(v),
        w.cwd is None,
    ensures
        units_bytes(cwd_units(v)) == v.cwd_part(),
        units_valid(cwd_units(v)),
        sticky_after_all(w, cwd_units(v)) == (StickyView { cwd: v.cwd, ..w }),
{
    match v.cwd {
        Some(cwd) => {
            let u = osc_unit(0x37, cwd);
            let params = osc_fields(seq![0x37u8, 0x3bu8] + cwd);
            lemma_osc_unit(0x37, cwd);
            lemma_sticky_after_one(w, u);
            assert(u.bytes() =~= v.cwd_part());
            assert(decimal(7) =~= seq![0x37u8]);
            assert(osc_is(params, 7));
            crate::sink::lemma_osc_has_one_number(params);
            assert(!osc_is(params, 0) && !osc_is(params, 2));
        },
        None => {},
    }
}

proof fn lemma_title_part(w: StickyView, v: StickyView)
    requires
        restorable(v),
        w.title is None,
    ensures
        units_bytes(title_units(v)) == v.title_part(),
        units_valid(title_units(v)),
        sticky_after_all(w, title_units(v)) == (StickyView { title: v.title, ..w }),
{
    match v.title {
        Some(title) => {
            let u = osc_unit(0x32, title);
            let params = osc_fields(seq![0x32u8, 0x3bu8] + title);
            lemma_osc_unit(0x32, title);
            lemma_sticky_after_one(w, u);
            assert(u.bytes() =~= v.title_part());
            assert(decimal(2) =~= seq![0x32u8]);
            assert(osc_is(params, 2));
        },
        None => {},
    }
}

/// The fields of an OSC that sets a colour.
proof fn lemma_color_fields(c: ColorView)
    requires
        is_color(c),
    ensures
        color_unit(c).valid(),
        ({
            let params = osc_fields(c.name.push(0x3b) + c.value);
            ||| params.len() == 2 && (osc_is(params, 10) || osc_is(params, 11) || osc_is(
                params,
                12,
            )) && c.name == params[0] && params[1] == c.value
            ||| params.len() == 3 && osc_is(params, 4) && c.name == palette_name(params[1])
                && is_field(params[1]) && params[2] == c.value
        }),
{
    let body = c.name.push(0x3b) + c.value;
    let params = osc_fields(body);
    lemma_fields_single(c.value);
    lemma_fields_add(c.name, c.value);
    if c.name == decimal(10) || c.name == decimal(11) || c.name == decimal(12) {
        lemma_decimal_digits(10);
        lemma_decimal_digits(11);
        lemma_decimal_digits(12);
        lemma_fields_single(c.name);
        assert forall|i: int| 0 <= i < body.len() implies 0x20 <= #[trigger] body[i] by {
            if i < c.name.len() {
                assert(body[i] == c.name[i]);
            } else if i > c.name.len() {
                assert(body[i] == c.value[i - c.name.len() - 1]);
            }
        }
        lemma_nothing_to_leave_out(body);
        assert(params =~= seq![c.name, c.value]);
    } else {
        let index = choose|index: Seq<u8>| is_field(index) && c.name == #[trigger] palette_name(
            index,
        );
        let four = seq![0x34u8];
        assert(decimal(4) =~= four);
        lemma_fields_single(four);
        lemma_fields_single(index);
        lemma_fields_add(four, index);
        assert(four.push(0x3b) + index =~= c.name);
        assert forall|i: int| 0 <= i < body.len() implies 0x20 <= #[trigger] body[i] by {
            if 2 <= i < c.name.len() {
                assert(body[i] == index[i - 2]);
            } else if i > c.name.len() {
                assert(body[i] == c.value[i - c.name.len() - 1]);
            }
        }
        lemma_nothing_to_leave_out(body);
        assert(params =~= seq![four, index, c.value]);
    }
}

proof fn lemma_color_unit(w: StickyView, c: ColorView)
    requires
        is_color(c),
        forall|i: int| 0 <= i < w.colors.len() ==> (#[trigger] w.colors[i]).name != c.name,
    ensures
        color_unit(c).valid(),
        color_unit(c).bytes() == color_bytes(c),
        sticky_after(w, color_unit(c)) == (StickyView { colors: w.colors.push(c), ..w }),
{
    let params = osc_fields(c.name.push(0x3b) + c.value);
    lemma_color_fields(c);
    assert(color_unit(c).bytes() =~= color_bytes(c));
    crate::sink::lemma_osc_has_one_number(params);
    assert(!osc_is(params, 0) && !osc_is(params, 2) && !osc_is(params, 7) && !osc_is(params, 8));
    assert(!crate::sink::osc_asks_for_color(params));
    lemma_osc_sets_one_color(w.colors, params);
    lemma_without_absent(w.colors, c.name);
}

proof fn lemma_colors_part(w: StickyView, list: Seq<ColorView>)
    requires
        colors_restorable(list),
        w.colors == Seq::<ColorView>::empty(),
    ensures
        units_bytes(color_units(list)) == colors_bytes(list),
        units_valid(color_units(list)),
        sticky_after_all(w, color_units(list)) == (StickyView { colors: list, ..w }),
    decreases list.len(),
{
    if list.len() == 0 {
        assert(list =~= w.colors);
    } else {
        let front = list.drop_last();
        let last = list.last();
        let n = list.len() - 1;
        assert(last == list[n]);
        assert forall|i: int| 0 <= i < front.len() implies is_color(#[trigger] front[i])
            && front[i].name != last.name by {
            assert(front[i] == list[i]);
        }
        assert forall|i: int, j: int| 0 <= i < j < front.len() implies (#[trigger] front[i]).name
            != (#[trigger] front[j]).name by {
            assert(front[i] == list[i] && front[j] == list[j]);
        }
        lemma_colors_part(w, front);
        let t = StickyView { colors: front, ..w };
        lemma_color_unit(t, last);
        let all = color_units(list);
        assert(all.drop_last() =~= color_units(front));
        assert(front.push(last) =~= list);
    }
}

proof fn lemma_link_part(w: StickyView, v: StickyView)
    requires
        restorable(v),
        w.link is None,
    ensures
        units_bytes(link_units(v)) == v.link_part(),
        units_valid(link_units(v)),
        sticky_after_all(w, link_units(v)) == (StickyView { link: v.link, ..w }),
{
    match v.link {
        Some(link) => {
            let u = osc_unit(0x38, link);
            let params = osc_fields(seq![0x38u8, 0x3bu8] + link);
            lemma_osc_unit(0x38, link);
            lemma_sticky_after_one(w, u);
            assert(u.bytes() =~= v.link_part());
            assert(decimal(8) =~= seq![0x38u8]);
            assert(osc_is(params, 8));
            crate::sink::lemma_osc_has_one_number(params);
            assert(!osc_is(params, 0) && !osc_is(params, 2) && !osc_is(params, 7));
            assert(params[2] == fields(link)[1]);
            assert(link_after(params) == Some(link));
        },
        None => {},
    }
}

/// A prologue is made of complete units, which set the parts one by one.
pub proof fn lemma_prologue_units(v: StickyView)
    requires
        restorable(v),
    ensures
        units_bytes(prologue_units(v)) == v.prologue(),
        units_valid(prologue_units(v)),
        sticky_after_all(StickyView::cold(), prologue_units(v)) == v,
{
    let p1 = reset_units();
    let p2 = sgr_units(v.sgr);
    let p3 = mode_units(v.dec_modes, 0x10000);
    let p4 = region_units(v);
    let p5 = charset_units(v);
    let p6 = cwd_units(v);
    let p7 = title_units(v);
    let p8 = color_units(v.colors);
    let p9 = link_units(v);
    let v0 = StickyView::cold();
    let v2 = StickyView { sgr: v.sgr, ..v0 };
    let v3 = StickyView { dec_modes: v.dec_modes, ..v2 };
    let v4 = StickyView { scroll_region: v.scroll_region, ..v3 };
    let v5 = StickyView { charsets: v.charsets, shift: v.shift, ..v4 };
    let v6 = StickyView { cwd: v.cwd, ..v5 };
    let v7 = StickyView { title: v.title, ..v6 };
    let v8 = StickyView { colors: v.colors, ..v7 };
    lemma_reset_part(v0);
    lemma_sgr_part(v0, v);
    lemma_mode_units(v2, v.dec_modes, 0x10000);
    assert(modes_below(v.dec_modes, 0x10000) =~= v.dec_modes);
    lemma_region_part(v3, v);
    lemma_charset_part(v4, v);
    lemma_cwd_part(v5, v);
    lemma_title_part(v6, v);
    lemma_colors_part(v7, v.colors);
    lemma_link_part(v8, v);
    lemma_parts_add(v0, p1, p2);
    lemma_parts_add(v0, p1 + p2, p3);
    lemma_parts_add(v0, p1 + p2 + p3, p4);
    lemma_parts_add(v0, p1 + p2 + p3 + p4, p5);
    lemma_parts_add(v0, p1 + p2 + p3 + p4 + p5, p6);
    lemma_parts_add(v0, p1 + p2 + p3 + p4 + p5 + p6, p7);
    lemma_parts_add(v0, p1 + p2 + p3 + p4 + p5 + p6 + p7, p8);
    lemma_parts_add(v0, p1 + p2 + p3 + p4 + p5 + p6 + p7 + p8, p9);
}

/// The prologue of a state, read by a cold terminal, re-establishes that
/// state.
pub proof fn law_prologue_restores_state(v: StickyView)
    requires
        restorable(v),
    ensures
        exists|units: Seq<Unit>|
            units_valid(units) && #[trigger] units_bytes(units) == v.prologue()
                && sticky_after_all(StickyView::cold(), units) == v,
{
    lemma_prologue_units(v);
}

/// A prologue begins with a full reset of the graphic rendition.
pub proof fn law_prologue_begins_with_reset(v: StickyView)
    ensures
        sgr_reset().is_prefix_of(v.prologue()),
{
    assert(v.prologue().take(4) =~= sgr_reset());
}

} // verus!
