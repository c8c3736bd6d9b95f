//! What each complete unit of a stream does, told by its bytes: whether it is
//! kept, what it says of the shell, and which state it leaves behind.

use vstd::prelude::*;

use crate::bytes::{all_digits, decimal, decimal_value};
use crate::replay::lemma_numbers_count;
use crate::restore::{
    lemma_fields_add, lemma_fields_count, lemma_fields_rejoin, lemma_fields_single,
    lemma_nothing_to_leave_out, lemma_occurrences_add,
};
use crate::scanner::ScannerView;
use crate::sink::{osc_is, switched, SegEvent};
use crate::sticky::StickyView;
use crate::stream::{law_unit_is_never_split, lemma_run_unit_ready};
use crate::unit::{
    fields, numbers, occurrences, osc_fields, within_limit, without_controls, Unit,
};

verus! {

/// The scanner is between two units, and `u` comes next.
pub open spec fn ready(s: ScannerView, u: Unit) -> bool {
    s.wf() && s.pending == Seq::<u8>::empty() && u.valid()
}

// ---------------------------------------------------------------------
// Kept, dropped, or clearing the screen
// ---------------------------------------------------------------------
/// A control sequence is dropped if and only if it is a question: a status
/// report (`n`), device attributes (`c`), the version (`> q`) or the state of a
/// mode (`$ p`). It clears the replay if and only if it erases the display
/// (`J`) with 2 or 3. Every other one is kept as it is.
pub proof fn law_control_sequences(
    s: ScannerView,
    marker: Seq<u8>,
    body: Seq<u8>,
    inter: Seq<u8>,
    last: u8,
)
    requires
        ready(s, Unit::Csi { marker, body, inter, last }),
    ensures
        ({
            let u = Unit::Csi { marker, body, inter, last };
            let first = numbers(within_limit(body))[0][0];
            let dollar = inter.len() > 0 && inter[0] == 0x24 || marker.len() == 0 && inter.len() > 1
                && inter[1] == 0x24;
            let question = last == 0x6e || last == 0x63 || last == 0x71 && marker == seq![0x3eu8]
                || last == 0x70 && dollar;
            let clears = last == 0x4a && (first == 2 || first == 3);
            &&& u.event() == SegEvent::DropSeq <==> question
            &&& u.event() == SegEvent::ClearSeq <==> clears
            &&& u.event() == SegEvent::KeepSeq <==> !question && !clears
            &&& s.run_unit(u).ring.data() == if question {
                s.ring.data()
            } else if clears {
                Seq::empty()
            } else {
                s.ring.data() + u.bytes()
            }
        }),
{
    let u = Unit::Csi { marker, body, inter, last };
    lemma_run_unit_ready(s, u);
    lemma_numbers_count(within_limit(body));
    lemma_first_bytes(marker, inter, 0x24);
    lemma_chars(last);
    let all = crate::unit::first_two(marker + inter);
    if marker.len() == 1 {
        assert(all[0] == marker[0]);
        assert(marker =~= seq![marker[0]]);
        assert(seq![0x3eu8][0] == 0x3e);
    } else if inter.len() > 0 {
        assert(all[0] == inter[0]);
        assert(0x20 <= inter[0] <= 0x2f);
    }
}

/// The byte is among the first two of marker and intermediates.
proof fn lemma_first_bytes(marker: Seq<u8>, inter: Seq<u8>, b: u8)
    requires
        marker.len() <= 1,
        marker.len() == 1 ==> marker[0] != b,
    ensures
        crate::unit::first_two(marker + inter).contains(b) <==> inter.len() > 0 && inter[0] == b
            || marker.len() == 0 && inter.len() > 1 && inter[1] == b,
{
    let all = crate::unit::first_two(marker + inter);
    if all.contains(b) {
        let k = choose|k: int| 0 <= k < all.len() && all[k] == b;
        assert(k == 0 || k == 1);
        assert(all[k] == (marker + inter)[k]);
    }
    if inter.len() > 0 && inter[0] == b {
        assert(all[marker.len() as int] == b);
    }
    if marker.len() == 0 && inter.len() > 1 && inter[1] == b {
        assert(all[1] == b);
    }
}

/// The letters that have a meaning.
proof fn lemma_chars(last: u8)
    requires
        0x40 <= last <= 0x7e,
    ensures
        last as char == 'n' <==> last == 0x6e,
        last as char == 'c' <==> last == 0x63,
        last as char == 'q' <==> last == 0x71,
        last as char == 'p' <==> last == 0x70,
        last as char == 'J' <==> last == 0x4a,
        last as char == 'm' <==> last == 0x6d,
        last as char == 'r' <==> last == 0x72,
        last as char == 'h' <==> last == 0x68,
        last as char == 'l' <==> last == 0x6c,
{
}

/// Of single bytes only the bell is dropped; characters are all kept.
pub proof fn law_single_bytes(s: ScannerView, u: Unit)
    requires
        ready(s, u),
        u is Byte || u is Char,
    ensures
        s.run_unit(u).ring.data() == if u == Unit::Byte(0x07) {
            s.ring.data()
        } else {
            s.ring.data() + u.bytes()
        },
{
    lemma_run_unit_ready(s, u);
}

/// A full reset clears the replay, and every other escape sequence is kept,
/// but for an `ESC \` that belongs to a string that was dropped.
pub proof fn law_escape_sequences(s: ScannerView, inter: Seq<u8>, last: u8)
    requires
        ready(s, Unit::Esc { inter, last }),
    ensures
        ({
            let u = Unit::Esc { inter, last };
            let dropped = inter.len() == 0 && last == 0x5c && s.sink.st_pending == Some(
                SegEvent::DropSeq,
            );
            s.run_unit(u).ring.data() == if dropped {
                s.ring.data()
            } else if inter.len() == 0 && last == 0x63 {
                Seq::empty()
            } else {
                s.ring.data() + u.bytes()
            }
        }),
{
    lemma_run_unit_ready(s, Unit::Esc { inter, last });
}

/// The number that a command opens with, in decimal, up to the first `;`.
pub open spec fn opens_with(text: Seq<u8>, number: Seq<u8>) -> bool {
    let n = number.len() as int;
    text == number || text.len() > n && text.take(n) == number && text[n] == 0x3b
}

/// A command opens with its first field.
proof fn lemma_first_field(text: Seq<u8>)
    ensures
        fields(text).len() > 0,
        forall|number: Seq<u8>|
            !number.contains(0x3b) ==> (#[trigger] opens_with(text, number) <==> fields(text)[0]
                == number),
        !text.contains(0x3b) ==> fields(text) == seq![text],
        text.contains(0x3b) ==> fields(text) == seq![text.take(text.index_of_first(0x3b)->0)]
            + fields(text.skip(text.index_of_first(0x3b)->0 + 1)),
{
    if !text.contains(0x3b) {
        assert forall|i: int| 0 <= i < text.len() implies #[trigger] text[i] != 0x3b by {
            assert(text.contains(text[i]));
        }
        lemma_fields_single(text);
        assert forall|number: Seq<u8>| !number.contains(0x3b) implies (#[trigger] opens_with(
            text,
            number,
        ) <==> fields(text)[0] == number) by {
            if text.len() > number.len() {
                assert(text.contains(text[number.len() as int]));
            }
        }
    } else {
        text.index_of_first_ensures(0x3b);
        let k = text.index_of_first(0x3b)->0;
        let head = text.take(k);
        let tail = text.skip(k + 1);
        assert(text[k] == 0x3b);
        assert forall|i: int| 0 <= i < head.len() implies #[trigger] head[i] != 0x3b by {}
        lemma_fields_single(head);
        lemma_fields_add(head, tail);
        assert(head.push(0x3b) + tail =~= text);
        assert forall|number: Seq<u8>| !number.contains(0x3b) implies (#[trigger] opens_with(
            text,
            number,
        ) <==> fields(text)[0] == number) by {
            let n = number.len() as int;
            if opens_with(text, number) {
                assert(text != number) by {
                    assert(text.contains(0x3b));
                }
                if k < n {
                    assert(number[k] == text[k]);
                    assert(number.contains(0x3b));
                }
                assert(k == n);
            }
            if head == number {
                assert(text.take(n) == number);
            }
        }
    }
}

/// The decimal form of the numbers that have a meaning.
proof fn lemma_command_numbers()
    ensures
        decimal(0) == seq![0x30u8],
        decimal(2) == seq![0x32u8],
        decimal(4) == seq![0x34u8],
        decimal(7) == seq![0x37u8],
        decimal(8) == seq![0x38u8],
        decimal(9) == seq![0x39u8],
        decimal(10) == seq![0x31u8, 0x30u8],
        decimal(11) == seq![0x31u8, 0x31u8],
        decimal(12) == seq![0x31u8, 0x32u8],
        decimal(52) == seq![0x35u8, 0x32u8],
        decimal(104) == seq![0x31u8, 0x30u8, 0x34u8],
        decimal(110) == seq![0x31u8, 0x31u8, 0x30u8],
        decimal(111) == seq![0x31u8, 0x31u8, 0x31u8],
        decimal(112) == seq![0x31u8, 0x31u8, 0x32u8],
        decimal(133) == seq![0x31u8, 0x33u8, 0x33u8],
        decimal(777) == seq![0x37u8, 0x37u8, 0x37u8],
{
    reveal_with_fuel(decimal, 4);
    assert(decimal(0) =~= seq![0x30u8]);
    assert(decimal(2) =~= seq![0x32u8]);
    assert(decimal(4) =~= seq![0x34u8]);
    assert(decimal(7) =~= seq![0x37u8]);
    assert(decimal(8) =~= seq![0x38u8]);
    assert(decimal(9) =~= seq![0x39u8]);
    assert(decimal(10) =~= seq![0x31u8, 0x30u8]);
    assert(decimal(11) =~= seq![0x31u8, 0x31u8]);
    assert(decimal(12) =~= seq![0x31u8, 0x32u8]);
    assert(decimal(52) =~= seq![0x35u8, 0x32u8]);
    assert(decimal(104) =~= seq![0x31u8, 0x30u8, 0x34u8]);
    assert(decimal(110) =~= seq![0x31u8, 0x31u8, 0x30u8]);
    assert(decimal(111) =~= seq![0x31u8, 0x31u8, 0x31u8]);
    assert(decimal(112) =~= seq![0x31u8, 0x31u8, 0x32u8]);
    assert(decimal(133) =~= seq![0x31u8, 0x33u8, 0x33u8]);
    assert(decimal(777) =~= seq![0x37u8, 0x37u8, 0x37u8]);
}

/// An operating system command opens with a number if and only if its text
/// does.
proof fn lemma_command(body: Seq<u8>)
    ensures
        osc_fields(body).len() > 0,
        forall|n: nat| #[trigger]
            osc_is(osc_fields(body), n) <==> opens_with(without_controls(body), decimal(n)),
{
    let text = without_controls(body);
    lemma_first_field(text);
    assert(osc_fields(body)[0] == fields(text)[0]);
    assert forall|n: nat| #[trigger]
        osc_is(osc_fields(body), n) <==> opens_with(without_controls(body), decimal(n)) by {
        crate::bytes::lemma_decimal_stands_for_itself(n);
        assert(!decimal(n).contains(0x3b));
    }
}

/// An operating system command is dropped if and only if its number is 9, 52,
/// 133 or 777, or it is 4, 10, 11 or 12 and one of its other fields is a
/// question mark. Every other one is kept as it is.
pub proof fn law_system_commands(s: ScannerView, body: Seq<u8>, st: bool)
    requires
        ready(s, Unit::Osc { body, st }),
    ensures
        ({
            let u = Unit::Osc { body, st };
            let text = without_controls(body);
            let dropped = {
                ||| opens_with(text, seq![0x39u8])
                ||| opens_with(text, seq![0x35u8, 0x32u8])
                ||| opens_with(text, seq![0x31u8, 0x33u8, 0x33u8])
                ||| opens_with(text, seq![0x37u8, 0x37u8, 0x37u8])
                ||| {
                    &&& opens_with(text, seq![0x34u8]) || opens_with(text, seq![0x31u8, 0x30u8])
                        || opens_with(text, seq![0x31u8, 0x31u8]) || opens_with(
                        text,
                        seq![0x31u8, 0x32u8],
                    )
                    &&& osc_fields(body).skip(1).contains(seq![0x3fu8])
                }
            };
            &&& u.event() == SegEvent::DropSeq <==> dropped
            &&& u.event() == SegEvent::KeepSeq <==> !dropped
            &&& s.run_unit(u).ring.data() == if dropped {
                s.ring.data()
            } else {
                s.ring.data() + u.bytes()
            }
        }),
{
    let u = Unit::Osc { body, st };
    let params = osc_fields(body);
    lemma_run_unit_ready(s, u);
    lemma_command(body);
    lemma_command_numbers();
    let rest = params.skip(1);
    if rest.contains(seq![0x3fu8]) {
        let k = choose|k: int| 0 <= k < rest.len() && rest[k] == seq![0x3fu8];
        assert(params[k + 1] == seq![0x3fu8]);
    }
    if exists|i: int| 1 <= i < params.len() && #[trigger] params[i] == seq![0x3fu8] {
        let i = choose|i: int| 1 <= i < params.len() && #[trigger] params[i] == seq![0x3fu8];
        assert(rest[i - 1] == seq![0x3fu8]);
    }
}

/// A device control string is dropped if and only if it asks for capabilities
/// (`+ q`) or settings (`$ q`). Every other one is kept as it is.
pub proof fn law_device_control_strings(s: ScannerView, u: Unit)
    requires
        ready(s, u),
        u is Dcs,
    ensures
        ({
            let inter = u->Dcs_inter;
            let first = inter.len() > 0 && (inter[0] == 0x2b || inter[0] == 0x24);
            let second = u->Dcs_marker.len() == 0 && inter.len() > 1 && (inter[1] == 0x2b
                || inter[1] == 0x24);
            let question = u->Dcs_last == 0x71 && (first || second);
            &&& u.event() == SegEvent::DropSeq <==> question
            &&& s.run_unit(u).ring.data() == if question {
                s.ring.data()
            } else {
                s.ring.data() + u.bytes()
            }
        }),
{
    lemma_run_unit_ready(s, u);
    lemma_first_bytes(u->Dcs_marker, u->Dcs_inter, 0x24);
    lemma_first_bytes(u->Dcs_marker, u->Dcs_inter, 0x2b);
    lemma_chars(u->Dcs_last);
}

/// A string that terminals skip is kept as it is, but for one right behind a
/// command that was dropped and closed by BEL: its terminator is taken for
/// that of the command.
pub proof fn law_skipped_strings(s: ScannerView, u: Unit)
    requires
        ready(s, u),
        u is Skipped,
    ensures
        s.run_unit(u).ring.data() == if s.sink.st_pending == Some(SegEvent::DropSeq) {
            s.ring.data()
        } else {
            s.ring.data() + u.bytes()
        },
{
    lemma_run_unit_ready(s, u);
}

/// An `ESC \` right behind a command that was closed by BEL shares its fate.
pub proof fn law_terminator_shares_the_fate(s: ScannerView, body: Seq<u8>)
    requires
        ready(s, Unit::Osc { body, st: false }),
    ensures
        ({
            let u = Unit::Osc { body, st: false };
            let t = s.run_unit(u);
            let after = t.run_unit(Unit::Esc { inter: Seq::empty(), last: 0x5c });
            after.ring.data() == if t.ring.data() == s.ring.data() {
                s.ring.data()
            } else {
                s.ring.data() + u.bytes() + seq![0x1bu8, 0x5cu8]
            }
        }),
{
    let u = Unit::Osc { body, st: false };
    let e = Unit::Esc { inter: Seq::empty(), last: 0x5c };
    lemma_run_unit_ready(s, u);
    lemma_run_unit_ready(s.run_unit(u), e);
    assert(e.bytes() =~= seq![0x1bu8, 0x5cu8]);
    if u.event() == SegEvent::KeepSeq {
        assert(s.run_unit(u).ring.data().len() > s.ring.data().len());
    }
}

// ---------------------------------------------------------------------
// What is said of the shell
// ---------------------------------------------------------------------
/// The text begins with these bytes.
pub open spec fn begins_with(text: Seq<u8>, head: Seq<u8>) -> bool {
    head.is_prefix_of(text)
}

/// `133;C`, whatever follows, says that a command runs, and `133;D`, whatever
/// follows, that it has finished. Every other unit leaves that as it was. Any
/// command with the number 133 shows that prompts are marked.
pub proof fn law_prompt_markers(s: ScannerView, u: Unit)
    requires
        ready(s, u),
    ensures
        ({
            let before = s.sink.status;
            let after = s.run_unit(u).sink.status;
            match u {
                Unit::Osc { body, st } => {
                    let text = without_controls(body);
                    &&& after.running == if begins_with(
                        text,
                        seq![0x31u8, 0x33u8, 0x33u8, 0x3bu8, 0x43u8],
                    ) {
                        true
                    } else if begins_with(text, seq![0x31u8, 0x33u8, 0x33u8, 0x3bu8, 0x44u8]) {
                        false
                    } else {
                        before.running
                    }
                    &&& after.saw_prompt_marker == (before.saw_prompt_marker || opens_with(
                        text,
                        seq![0x31u8, 0x33u8, 0x33u8],
                    ))
                },
                _ => after == before,
            }
        }),
{
    law_unit_is_never_split(s, u);
    if let Unit::Osc { body, st } = u {
        let text = without_controls(body);
        let params = osc_fields(body);
        let number = seq![0x31u8, 0x33u8, 0x33u8];
        lemma_command(body);
        lemma_command_numbers();
        crate::sink::lemma_osc_has_one_number(params);
        assert(decimal(133) == number);
        crate::bytes::lemma_decimal_stands_for_itself(133);
        assert(!number.contains(0x3b));
        if opens_with(text, number) {
            assert(osc_is(params, 133));
            lemma_second_field(text, number);
        }
        let list = fields(text);
        assert(list.len() > 1 ==> params.len() > 1 && params[1] == list[1]);
        lemma_prefix_of_five(text, 0x43);
        lemma_prefix_of_five(text, 0x44);
    }
}

/// `133;` and one more byte.
proof fn lemma_prefix_of_five(text: Seq<u8>, b: u8)
    ensures
        begins_with(text, seq![0x31u8, 0x33u8, 0x33u8, 0x3bu8, b]) <==> opens_with(
            text,
            seq![0x31u8, 0x33u8, 0x33u8],
        ) && text.len() > 4 && text[4] == b,
{
    let p = seq![0x31u8, 0x33u8, 0x33u8, 0x3bu8, b];
    let n = seq![0x31u8, 0x33u8, 0x33u8];
    if begins_with(text, p) {
        assert(text[0] == p[0] && text[1] == p[1] && text[2] == p[2] && text[3] == p[3] && text[4]
            == p[4]);
        assert(text.take(3) =~= n);
    }
    if opens_with(text, n) && text.len() > 4 && text[4] == b {
        assert(text.take(3)[0] == 0x31 && text.take(3)[1] == 0x33 && text.take(3)[2] == 0x33);
        assert(text.subrange(0, 5) =~= p);
    }
}

/// What stands behind the number and its `;`.
proof fn lemma_second_field(text: Seq<u8>, number: Seq<u8>)
    requires
        opens_with(text, number),
        !number.contains(0x3b),
    ensures
        text == number ==> fields(text) == seq![number],
        text != number ==> {
            let rest = text.skip(number.len() as int + 1);
            &&& fields(text) == seq![number] + fields(rest)
            &&& fields(rest).len() > 0
            &&& fields(rest)[0].len() > 0 <==> rest.len() > 0 && rest[0] != 0x3b
            &&& fields(rest)[0].len() > 0 ==> fields(rest)[0][0] == rest[0]
        },
{
    lemma_first_field(text);
    let n = number.len() as int;
    if text != number {
        let rest = text.skip(n + 1);
        assert(text.contains(text[n]));
        text.index_of_first_ensures(0x3b);
        let k = text.index_of_first(0x3b)->0;
        assert(fields(text)[0] == number);
        assert(text.take(k) == number);
        assert(k == n);
        lemma_first_field(rest);
        if rest.contains(0x3b) {
            rest.index_of_first_ensures(0x3b);
        } else if rest.len() > 0 {
            assert(rest.contains(rest[0]));
        }
    } else {
        assert forall|i: int| 0 <= i < text.len() implies text[i] != 0x3b by {
            assert(text.contains(text[i]));
        }
    }
}

/// Leaving out controls of two parts.
proof fn lemma_without_controls_add(a: Seq<u8>, b: Seq<u8>)
    ensures
        without_controls(a + b) == without_controls(a) + without_controls(b),
    decreases b.len(),
{
    if b.len() == 0 {
        assert(a + b =~= a);
        assert(without_controls(a) + without_controls(b) =~= without_controls(a));
    } else {
        lemma_without_controls_add(a, b.drop_last());
        assert((a + b).drop_last() =~= a + b.drop_last());
        assert((a + b).last() == b.last());
        assert(without_controls(a + b) =~= without_controls(a) + without_controls(b));
    }
}

/// A command with more printable text in front.
proof fn lemma_longer_command(head: Seq<u8>, rest: Seq<u8>, st: bool)
    requires
        (Unit::Osc { body: rest, st }).valid(),
        forall|i: int| 0 <= i < head.len() ==> 0x20 <= #[trigger] head[i],
    ensures
        (Unit::Osc { body: head + rest, st }).valid(),
{
    let body = head + rest;
    let v = Unit::Osc { body: rest, st };
    assert(v.valid());
    assert forall|i: int| 0 <= i < body.len() implies crate::unit::stays_in_string(
        #[trigger] body[i],
    ) && body[i] != 0x07 by {
        if i < head.len() {
            assert(body[i] == head[i]);
        } else {
            let k = i - head.len();
            assert(body[i] == rest[k]);
            assert(crate::unit::stays_in_string(v->Osc_body[k]));
        }
    }
}

/// As bytes of the stream: `133;C` and anything behind it says that a command
/// runs, and `133;D` and anything behind it that it has finished.
pub proof fn law_commands_start_and_finish(s: ScannerView, rest: Seq<u8>, st: bool)
    requires
        ready(s, Unit::Osc { body: rest, st }),
    ensures
        s.run_unit(
            Unit::Osc { body: seq![0x31u8, 0x33u8, 0x33u8, 0x3bu8, 0x43u8] + rest, st },
        ).sink.status.running,
        !s.run_unit(
            Unit::Osc { body: seq![0x31u8, 0x33u8, 0x33u8, 0x3bu8, 0x44u8] + rest, st },
        ).sink.status.running,
{
    let c = seq![0x31u8, 0x33u8, 0x33u8, 0x3bu8, 0x43u8];
    let d = seq![0x31u8, 0x33u8, 0x33u8, 0x3bu8, 0x44u8];
    lemma_without_controls_add(c, rest);
    lemma_without_controls_add(d, rest);
    lemma_nothing_to_leave_out(c);
    lemma_nothing_to_leave_out(d);
    let text = without_controls(rest);
    assert((c + text).subrange(0, 5) =~= c);
    assert((d + text).subrange(0, 5) =~= d);
    let uc = Unit::Osc { body: c + rest, st };
    let ud = Unit::Osc { body: d + rest, st };
    lemma_longer_command(c, rest, st);
    lemma_longer_command(d, rest, st);
    law_prompt_markers(s, uc);
    law_prompt_markers(s, ud);
    if begins_with(d + text, c) {
        assert((d + text)[4] == c[4]);
    }
}

/// The progress changes only with `9;4`.
pub proof fn law_only_progress_reports_change_the_progress(s: ScannerView, u: Unit)
    requires
        ready(s, u),
    ensures
        ({
            let before = s.sink.status.progress;
            let after = s.run_unit(u).sink.status.progress;
            match u {
                Unit::Osc { body, st } => {
                    let text = without_controls(body);
                    &&& !begins_with(text, seq![0x39u8, 0x3bu8, 0x34u8]) ==> after == before
                    &&& text == seq![0x39u8, 0x3bu8, 0x34u8] ==> after is None
                },
                _ => after == before,
            }
        }),
{
    law_unit_is_never_split(s, u);
    if let Unit::Osc { body, st } = u {
        let text = without_controls(body);
        let params = osc_fields(body);
        let head = seq![0x39u8, 0x3bu8, 0x34u8];
        lemma_command(body);
        lemma_command_numbers();
        crate::sink::lemma_osc_has_one_number(params);
        let nine = seq![0x39u8];
        assert(decimal(9) == nine);
        assert(!nine.contains(0x3b));
        if opens_with(text, nine) {
            assert(osc_is(params, 9));
            lemma_second_field(text, nine);
            if text != nine {
                assert(text.take(1)[0] == 0x39);
                let rest = text.skip(2);
                assert(params[1] == fields(rest)[0]);
                lemma_first_field(rest);
                let four = seq![0x34u8];
                assert(!four.contains(0x3b));
                if params[1] == four {
                    assert(opens_with(rest, four));
                    assert(rest.len() > 0 && rest[0] == 0x34) by {
                        if rest != four {
                            assert(rest.take(1)[0] == four[0]);
                        }
                    }
                    assert(text.subrange(0, 3) =~= head);
                }
                if text == head {
                    assert(rest =~= four);
                    assert(!rest.contains(0x3b));
                    assert(fields(rest) == seq![four]);
                    assert(fields(text).len() == 2);
                    assert(params.len() == 2);
                }
            }
        } else if text == head {
            assert(text.take(1) =~= nine);
        }
    }
}

/// A text of printable bytes without `;`.
pub open spec fn is_one_field(s: Seq<u8>) -> bool {
    forall|i: int| 0 <= i < s.len() ==> 0x20 <= #[trigger] s[i] && s[i] != 0x3b
}

/// `9;4;state;value` reports the value in per cent, if it is a number up to
/// 100, and no progress in state 0. Without a value there is no progress
/// either.
pub proof fn law_progress_is_what_is_reported(
    s: ScannerView,
    state: Seq<u8>,
    value: Seq<u8>,
    st: bool,
)
    requires
        s.wf(),
        s.pending == Seq::<u8>::empty(),
        is_one_field(state),
        is_one_field(value),
    ensures
        ({
            let head = seq![0x39u8, 0x3bu8, 0x34u8, 0x3bu8];
            let told = s.run_unit(
                Unit::Osc { body: head + state.push(0x3b) + value, st },
            ).sink.status.progress;
            let untold = s.run_unit(Unit::Osc { body: head + state, st }).sink.status.progress;
            &&& untold is None
            &&& state == seq![0x30u8] ==> told is None
            &&& state != seq![0x30u8] && value.len() > 0 && all_digits(value) ==> told == (
            if decimal_value(value) <= 100 {
                Some(decimal_value(value) as u8)
            } else {
                None
            })
            &&& told is Some ==> value.len() > 0 && all_digits(value.drop_first())
        }),
{
    let head = seq![0x39u8, 0x3bu8, 0x34u8, 0x3bu8];
    let nine = seq![0x39u8];
    let four = seq![0x34u8];
    lemma_command_numbers();
    crate::bytes::law_parse_reads_digits(value);
    lemma_fields_single(nine);
    lemma_fields_single(four);
    lemma_fields_single(state);
    lemma_fields_single(value);
    // With a value.
    let pair = state.push(0x3b) + value;
    let body = head + state.push(0x3b) + value;
    lemma_fields_add(state, value);
    lemma_fields_add(four, pair);
    lemma_fields_add(nine, four.push(0x3b) + pair);
    assert(nine.push(0x3b) + (four.push(0x3b) + pair) =~= body);
    assert(fields(body) =~= seq![nine, four, state, value]);
    assert forall|i: int| 0 <= i < body.len() implies 0x20 <= #[trigger] body[i] by {
        if i > 4 + state.len() {
            assert(body[i] == value[i - 5 - state.len()]);
        } else if 4 <= i < 4 + state.len() {
            assert(body[i] == state[i - 4]);
        }
    }
    lemma_nothing_to_leave_out(body);
    let u = Unit::Osc { body, st };
    assert(u.valid());
    law_unit_is_never_split(s, u);
    crate::sink::lemma_osc_has_one_number(osc_fields(body));
    assert(osc_is(osc_fields(body), 9));
    // Without one.
    let short = head + state;
    lemma_fields_add(four, state);
    lemma_fields_add(nine, four.push(0x3b) + state);
    assert(nine.push(0x3b) + (four.push(0x3b) + state) =~= short);
    assert(fields(short) =~= seq![nine, four, state]);
    assert forall|i: int| 0 <= i < short.len() implies 0x20 <= #[trigger] short[i] by {
        if 4 <= i {
            assert(short[i] == state[i - 4]);
        }
    }
    lemma_nothing_to_leave_out(short);
    let v = Unit::Osc { body: short, st };
    assert(v.valid());
    law_unit_is_never_split(s, v);
    crate::sink::lemma_osc_has_one_number(osc_fields(short));
    assert(osc_is(osc_fields(short), 9));
}

// ---------------------------------------------------------------------
// What a unit leaves behind
// ---------------------------------------------------------------------
/// The unit is `ESC c`, a full reset.
pub open spec fn resets(u: Unit) -> bool {
    u matches Unit::Esc { inter, last } && inter.len() == 0 && last == 0x63
}

/// The unit is a control sequence without intermediates that ends so, with
/// the given marker or none.
pub open spec fn is_plain_sequence(u: Unit, marked: Option<u8>, end: u8) -> bool {
    u matches Unit::Csi { marker, body, inter, last } && inter.len() == 0 && last == end && match marked {
        Some(b) => marker == seq![b],
        None => marker.len() == 0,
    }
}

/// The unit is a command whose text begins so.
pub open spec fn says(u: Unit, head: Seq<u8>) -> bool {
    u matches Unit::Osc { body, st } && begins_with(without_controls(body), head)
}

/// The unit is a command with this number.
pub open spec fn has_number(u: Unit, number: Seq<u8>) -> bool {
    u matches Unit::Osc { body, st } && opens_with(without_controls(body), number)
}

/// The unit is a command about colours.
pub open spec fn is_about_colors(u: Unit) -> bool {
    ||| has_number(u, seq![0x34u8])
    ||| has_number(u, seq![0x31u8, 0x30u8])
    ||| has_number(u, seq![0x31u8, 0x31u8])
    ||| has_number(u, seq![0x31u8, 0x32u8])
    ||| has_number(u, seq![0x31u8, 0x30u8, 0x34u8])
    ||| has_number(u, seq![0x31u8, 0x31u8, 0x30u8])
    ||| has_number(u, seq![0x31u8, 0x31u8, 0x31u8])
    ||| has_number(u, seq![0x31u8, 0x31u8, 0x32u8])
}

/// Each part of the state is changed only by the units that are about it, and
/// by a full reset, which leaves title and working directory alone.
pub proof fn law_state_changes_only_for_cause(s: ScannerView, u: Unit)
    requires
        ready(s, u),
    ensures
        ({
            let a = s.sink.sticky;
            let b = s.run_unit(u).sink.sticky;
            &&& b.title != a.title ==> says(u, seq![0x30u8, 0x3bu8]) || says(
                u,
                seq![0x32u8, 0x3bu8],
            )
            &&& b.cwd != a.cwd ==> says(u, seq![0x37u8, 0x3bu8])
            &&& b.link != a.link ==> says(u, seq![0x38u8, 0x3bu8]) || resets(u)
            &&& b.colors != a.colors ==> is_about_colors(u) || resets(u)
            &&& b.sgr != a.sgr ==> is_plain_sequence(u, None, 0x6d) || resets(u)
            &&& b.scroll_region != a.scroll_region ==> is_plain_sequence(u, None, 0x72) || resets(u)
            &&& b.dec_modes != a.dec_modes ==> is_plain_sequence(u, Some(0x3f), 0x68)
                || is_plain_sequence(u, Some(0x3f), 0x6c) || resets(u)
            &&& b.charsets != a.charsets ==> u is Esc
            &&& b.shift != a.shift ==> u == Unit::Byte(0x0e) || u == Unit::Byte(0x0f) || u is Esc
        }),
{
    law_unit_is_never_split(s, u);
    match u {
        Unit::Osc { body, st } => {
            let text = without_controls(body);
            lemma_command(body);
            lemma_command_numbers();
            let params = osc_fields(body);
            lemma_two_begin(text, 0x30);
            lemma_two_begin(text, 0x32);
            lemma_two_begin(text, 0x37);
            lemma_two_begin(text, 0x38);
        },
        Unit::Csi { marker, body, inter, last } => {
            lemma_chars(last);
            lemma_plain_marks(marker, inter);
            let a = s.sink.sticky;
            let params = numbers(within_limit(body));
            lemma_switched_frame(a, params, true);
            lemma_switched_frame(a, params, false);
        },
        _ => {},
    }
}

/// A number of one digit and a `;`.
proof fn lemma_two_begin(text: Seq<u8>, d: u8)
    requires
        d != 0x3b,
    ensures
        begins_with(text, seq![d, 0x3bu8]) <==> opens_with(text, seq![d]) && fields(text).len() > 1,
{
    let p = seq![d, 0x3bu8];
    let n = seq![d];
    assert(!n.contains(0x3b));
    if begins_with(text, p) {
        assert(text[0] == p[0] && text[1] == p[1]);
        assert(text.take(1) =~= n);
        lemma_second_field(text, n);
        assert(text.len() >= 2);
    }
    if opens_with(text, n) {
        lemma_second_field(text, n);
        if fields(text).len() > 1 {
            assert(text != n);
            assert(text.take(1)[0] == d);
            assert(text.subrange(0, 2) =~= p);
        }
    }
}

/// Markers and intermediates that are none, or one marker.
proof fn lemma_plain_marks(marker: Seq<u8>, inter: Seq<u8>)
    requires
        marker.len() <= 1,
        crate::unit::all_intermediate(inter),
    ensures
        crate::unit::first_two(marker + inter).len() == 0 <==> marker.len() == 0 && inter.len()
            == 0,
        crate::unit::first_two(marker + inter) == seq![0x3fu8] <==> marker == seq![0x3fu8]
            && inter.len() == 0,
{
    let all = crate::unit::first_two(marker + inter);
    if all == seq![0x3fu8] {
        assert(all[0] == 0x3f);
        assert(all.len() == 1);
        if marker.len() == 0 {
            assert(all[0] == inter[0]);
        }
        assert(marker =~= seq![0x3fu8]);
    }
    if marker == seq![0x3fu8] && inter.len() == 0 {
        assert(all =~= seq![0x3fu8]);
    }
}

proof fn lemma_switched_frame(v: StickyView, params: Seq<Seq<u16>>, on: bool)
    ensures
        switched(v, params, on) == (StickyView {
            dec_modes: switched(v, params, on).dec_modes,
            ..v
        }),
    decreases params.len(),
{
    if params.len() > 0 {
        lemma_switched_frame(v, params.drop_last(), on);
    }
}

/// A full reset leaves nothing behind but title and working directory.
pub proof fn law_full_reset(s: ScannerView, u: Unit)
    requires
        ready(s, u),
        resets(u),
    ensures
        ({
            let a = s.sink.sticky;
            let b = s.run_unit(u).sink.sticky;
            &&& b.title == a.title
            &&& b.cwd == a.cwd
            &&& b.link is None
            &&& b.colors.len() == 0
            &&& b.sgr.len() == 0
            &&& b.scroll_region is None
            &&& b.dec_modes =~= Map::<u16, bool>::empty()
            &&& b.charsets.len() == 4
            &&& forall|i: int| 0 <= i < 4 ==> (#[trigger] b.charsets[i]).len() == 0
            &&& b.shift == 0
        }),
{
    law_unit_is_never_split(s, u);
}

/// The text behind a number of one digit: printable, and of few enough fields.
pub open spec fn is_text(payload: Seq<u8>) -> bool {
    &&& forall|i: int| 0 <= i < payload.len() ==> 0x20 <= #[trigger] payload[i]
    &&& occurrences(payload, 0x3b) <= 14
}

/// What is behind a number of one digit comes back as it is.
proof fn lemma_payload(d: u8, payload: Seq<u8>, st: bool)
    requires
        0x30 <= d <= 0x39,
        is_text(payload),
    ensures
        ({
            let body = seq![d, 0x3bu8] + payload;
            let params = osc_fields(body);
            &&& (Unit::Osc { body, st }).valid()
            &&& params == seq![seq![d]] + fields(payload)
            &&& params.len() > 1
            &&& crate::sink::osc_payload(params) == payload
        }),
{
    let head = seq![d];
    let body = seq![d, 0x3bu8] + payload;
    lemma_fields_single(head);
    lemma_fields_add(head, payload);
    lemma_fields_rejoin(payload);
    lemma_fields_count(payload);
    assert(head.push(0x3b) + payload =~= body);
    assert forall|i: int| 0 <= i < body.len() implies 0x20 <= #[trigger] body[i] by {
        if i >= 2 {
            assert(body[i] == payload[i - 2]);
        }
    }
    lemma_nothing_to_leave_out(body);
    assert(fields(body) =~= seq![head] + fields(payload));
    assert(osc_fields(body).skip(1) =~= fields(payload));
}

/// `0;text` and `2;text` make the text the title, and `7;text` makes it the
/// working directory, as it is.
pub proof fn law_title_and_directory_are_taken_over(
    s: ScannerView,
    d: u8,
    payload: Seq<u8>,
    st: bool,
)
    requires
        s.wf(),
        s.pending == Seq::<u8>::empty(),
        d == 0x30 || d == 0x32 || d == 0x37,
        is_text(payload),
    ensures
        ({
            let after = s.run_unit(Unit::Osc { body: seq![d, 0x3bu8] + payload, st }).sink.sticky;
            if d == 0x37 {
                after.cwd == Some(payload)
            } else {
                after.title == Some(payload)
            }
        }),
{
    let body = seq![d, 0x3bu8] + payload;
    lemma_payload(d, payload, st);
    lemma_command_numbers();
    law_unit_is_never_split(s, Unit::Osc { body, st });
    let params = osc_fields(body);
    crate::sink::lemma_osc_has_one_number(params);
    assert(params[0] == seq![d]);
    if d == 0x30 {
        assert(osc_is(params, 0));
    } else if d == 0x32 {
        assert(osc_is(params, 2));
    } else {
        assert(osc_is(params, 7));
    }
}

/// `8;params;uri` opens a hyperlink, which is remembered as it is, and without
/// a URI closes it.
pub proof fn law_links_open_and_close(s: ScannerView, params: Seq<u8>, uri: Seq<u8>, st: bool)
    requires
        s.wf(),
        s.pending == Seq::<u8>::empty(),
        is_one_field(params),
        is_text(params.push(0x3b) + uri),
    ensures
        ({
            let payload = params.push(0x3b) + uri;
            let after = s.run_unit(
                Unit::Osc { body: seq![0x38u8, 0x3bu8] + payload, st },
            ).sink.sticky;
            after.link == if uri.len() == 0 {
                None
            } else {
                Some(payload)
            }
        }),
{
    let payload = params.push(0x3b) + uri;
    let body = seq![0x38u8, 0x3bu8] + payload;
    lemma_payload(0x38, payload, st);
    lemma_command_numbers();
    law_unit_is_never_split(s, Unit::Osc { body, st });
    lemma_fields_single(params);
    lemma_fields_add(params, uri);
    lemma_fields_rejoin(uri);
    let list = osc_fields(body);
    crate::sink::lemma_osc_has_one_number(list);
    assert(list =~= seq![seq![0x38u8], params] + fields(uri));
    assert(osc_is(list, 8));
    if list.len() == 3 {
        assert(fields(uri) =~= seq![list[2]]);
        assert(crate::sink::semicolon_joined(fields(uri)) == list[2]);
    }
    if uri.len() == 0 {
        assert(fields(uri) =~= seq![Seq::<u8>::empty()]);
    }
}

/// `CSI top ; bottom r` selects the scroll region, and with neither the whole
/// screen.
pub proof fn law_scroll_region_is_what_is_sent(s: ScannerView, u: Unit)
    requires
        ready(s, u),
        is_plain_sequence(u, None, 0x72),
    ensures
        ({
            let n = numbers(within_limit(u->Csi_body));
            let top = n[0][0];
            let bottom = if n.len() > 1 {
                n[1][0]
            } else {
                0
            };
            s.run_unit(u).sink.sticky.scroll_region == if top == 0 && bottom == 0 {
                None
            } else {
                Some((top, bottom))
            }
        }),
{
    law_unit_is_never_split(s, u);
    lemma_chars(0x72);
    lemma_numbers_count(within_limit(u->Csi_body));
    lemma_plain_marks(u->Csi_marker, u->Csi_inter);
}

/// `CSI ? codes h` switches each of the modes on and leaves the others;
/// `CSI ? codes l` switches each of them off, which is remembered only of
/// autowrap (7) and the cursor (25), for these are on by default.
pub proof fn law_modes_are_switched(s: ScannerView, u: Unit, code: u16)
    requires
        ready(s, u),
        is_plain_sequence(u, Some(0x3f), 0x68) || is_plain_sequence(u, Some(0x3f), 0x6c),
    ensures
        ({
            let n = numbers(within_limit(u->Csi_body));
            let a = s.sink.sticky.dec_modes;
            let b = s.run_unit(u).sink.sticky.dec_modes;
            if exists|i: int| 0 <= i < n.len() && (#[trigger] n[i])[0] == code {
                if u->Csi_last == 0x68 {
                    b.contains_key(code) && b[code]
                } else if code == 7 || code == 25 {
                    b.contains_key(code) && !b[code]
                } else {
                    !b.contains_key(code)
                }
            } else {
                (b.contains_key(code) <==> a.contains_key(code)) && (a.contains_key(code)
                    ==> b[code] == a[code])
            }
        }),
{
    law_unit_is_never_split(s, u);
    let n = numbers(within_limit(u->Csi_body));
    lemma_chars(0x68);
    lemma_chars(0x6c);
    lemma_numbers_count(within_limit(u->Csi_body));
    lemma_plain_marks(u->Csi_marker, u->Csi_inter);
    lemma_switched(s.sink.sticky, n, true, code);
    lemma_switched(s.sink.sticky, n, false, code);
}

proof fn lemma_switched(v: StickyView, n: Seq<Seq<u16>>, on: bool, code: u16)
    requires
        forall|i: int| 0 <= i < n.len() ==> (#[trigger] n[i]).len() > 0,
    ensures
        ({
            let a = v.dec_modes;
            let b = switched(v, n, on).dec_modes;
            if exists|i: int| 0 <= i < n.len() && (#[trigger] n[i])[0] == code {
                if on {
                    b.contains_key(code) && b[code]
                } else if code == 7 || code == 25 {
                    b.contains_key(code) && !b[code]
                } else {
                    !b.contains_key(code)
                }
            } else {
                (b.contains_key(code) <==> a.contains_key(code)) && (a.contains_key(code)
                    ==> b[code] == a[code])
            }
        }),
    decreases n.len(),
{
    if n.len() > 0 {
        let front = n.drop_last();
        assert forall|i: int| 0 <= i < front.len() implies (#[trigger] front[i]).len() > 0 by {
            assert(front[i] == n[i]);
        }
        lemma_switched(v, front, on, code);
        assert(n[n.len() - 1].len() > 0);
        if exists|i: int| 0 <= i < front.len() && (#[trigger] front[i])[0] == code {
            let i = choose|i: int| 0 <= i < front.len() && (#[trigger] front[i])[0] == code;
            assert(n[i][0] == code);
        }
        if exists|i: int| 0 <= i < n.len() && (#[trigger] n[i])[0] == code {
            let i = choose|i: int| 0 <= i < n.len() && (#[trigger] n[i])[0] == code;
            if i < front.len() {
                assert(front[i][0] == code);
            }
        }
    }
}

/// SO and SI bring G1 and G0 into use, `ESC n` and `ESC o` G2 and G3. `ESC ( x`
/// designates G0, `)` and `-` G1, `*` and `.` G2, `+` and `/` G3; what is
/// remembered is what is behind the `ESC`, and nothing for ASCII (`B`). No
/// other escape sequence but a full reset changes either.
pub proof fn law_character_sets(s: ScannerView, u: Unit)
    requires
        ready(s, u),
        s.sink.sticky.charsets.len() == 4,
    ensures
        ({
            let a = s.sink.sticky;
            let b = s.run_unit(u).sink.sticky;
            match u {
                Unit::Byte(c) => b.shift == if c == 0x0e {
                    1
                } else if c == 0x0f {
                    0
                } else {
                    a.shift
                },
                Unit::Esc { inter, last } => {
                    let slot: int = if inter.len() == 0 || inter.len() > 2 {
                        4
                    } else if inter[0] == 0x28 {
                        0
                    } else if inter[0] == 0x29 || inter[0] == 0x2d {
                        1
                    } else if inter[0] == 0x2a || inter[0] == 0x2e {
                        2
                    } else if inter[0] == 0x2b || inter[0] == 0x2f {
                        3
                    } else {
                        4
                    };
                    &&& !resets(u) ==> b.shift == if inter.len() == 0 && last == 0x6e {
                        2
                    } else if inter.len() == 0 && last == 0x6f {
                        3
                    } else {
                        a.shift
                    }
                    &&& !resets(u) ==> b.charsets.len() == 4 && forall|i: int|
                        0 <= i < 4 ==> #[trigger] b.charsets[i] == if i != slot {
                            a.charsets[i]
                        } else if inter.len() == 1 && last == 0x42 {
                            Seq::empty()
                        } else {
                            inter.push(last)
                        }
                },
                _ => true,
            }
        }),
{
    law_unit_is_never_split(s, u);
}

// ---------------------------------------------------------------------
// Where the ring is cut
// ---------------------------------------------------------------------
/// Behind a unit that was kept the ring is cut if and only if the open chunk
/// has reached the watermark and no sequence is under way; the new chunk opens
/// with the state as it is then. A unit that is dropped cuts nothing.
pub proof fn law_full_chunks_are_cut(s: ScannerView, u: Unit)
    requires
        ready(s, u),
    ensures
        ({
            let t = s.run_unit(u);
            let before = s.ring.chunks;
            let after = t.ring.chunks;
            let n = before.len() as int;
            let kept = t.ring.data() == s.ring.data() + u.bytes();
            let full = t.ground && before[n - 1].data.len() + u.bytes().len() >= s.ring.watermark;
            &&& kept && full ==> after.len() == n + 1 && after[n].prologue
                == t.sink.sticky.prologue() && after[n].data.len() == 0
            &&& kept && !full ==> after.len() == n
            &&& kept ==> after[n - 1].data == before[n - 1].data + u.bytes() && after[n - 1].prologue
                == before[n - 1].prologue
            &&& kept ==> forall|i: int| 0 <= i < n - 1 ==> #[trigger] after[i] == before[i]
            &&& t.ring.data() == s.ring.data() && u.event() == SegEvent::DropSeq ==> after == before
            &&& t.ring.watermark == s.ring.watermark
        }),
{
    law_unit_is_never_split(s, u);
    lemma_run_unit_ready(s, u);
    crate::stream::lemma_verdict_is_within(u);
    assert(u.bytes().len() > 0);
    let t = s.run_unit(u);
    if t.ring.data() == s.ring.data() + u.bytes() {
        assert(t.ring.data().len() == s.ring.data().len() + u.bytes().len());
    }
}

/// A unit that clears the screen leaves one chunk, which clears the screen,
/// homes the cursor and restores the state, and any replay is just that.
pub proof fn law_clearing_leaves_a_clean_start(s: ScannerView, u: Unit, want: nat)
    requires
        ready(s, u),
        resets(u) || u.event() == SegEvent::ClearSeq,
    ensures
        ({
            let t = s.run_unit(u);
            let clean = seq![0x1bu8, 0x5bu8, 0x32u8, 0x4au8, 0x1bu8, 0x5bu8, 0x48u8]
                + t.sink.sticky.prologue();
            &&& t.ring.chunks.len() == 1
            &&& t.ring.data().len() == 0
            &&& t.ring.replay(want) == clean
            &&& t.ring.replay_all() == clean
        }),
{
    law_unit_is_never_split(s, u);
    let t = s.run_unit(u);
    crate::ring::law_purge_forgets(
        s.ring,
        crate::scanner::clear_and_home() + t.sink.sticky.prologue(),
        want,
    );
}

/// A scanner starts with nothing: an idle shell, a cold terminal, no data.
pub proof fn law_scanner_starts_idle(watermark: nat)
    ensures
        ({
            let s = ScannerView::started(watermark);
            &&& !s.sink.status.running && !s.sink.status.saw_prompt_marker
            &&& s.sink.status.progress is None
            &&& s.sink.status.snapshot().progress is None && !s.sink.status.snapshot().running
            &&& s.sink.sticky.sgr.len() == 0 && s.sink.sticky.colors.len() == 0
            &&& s.sink.sticky.dec_modes =~= Map::<u16, bool>::empty()
            &&& s.sink.sticky.scroll_region is None && s.sink.sticky.link is None
            &&& s.sink.sticky.title is None && s.sink.sticky.cwd is None
            &&& s.sink.sticky.shift == 0 && s.sink.sticky.charsets.len() == 4
            &&& forall|i: int| 0 <= i < 4 ==> (#[trigger] s.sink.sticky.charsets[i]).len() == 0
            &&& s.pending.len() == 0 && s.ring.data().len() == 0 && s.ring.chunks.len() == 1
            &&& s.ground && s.utf8_remaining == 0 && s.sink.st_pending is None && !s.sink.request
            &&& s.ring.chunks[0].prologue.len() == 0 && s.ring.watermark == watermark
        }),
{
    crate::ring::law_purge_forgets(ScannerView::started(watermark).ring, Seq::empty(), 1);
}

/// A command about colours changes them by its fields, unless one of these is
/// a question mark and it asks.
pub proof fn law_colors_follow_the_stream(s: ScannerView, body: Seq<u8>, st: bool)
    requires
        ready(s, Unit::Osc { body, st }),
    ensures
        ({
            let u = Unit::Osc { body, st };
            let text = without_controls(body);
            let asks = (opens_with(text, seq![0x34u8]) || opens_with(text, seq![0x31u8, 0x30u8])
                || opens_with(text, seq![0x31u8, 0x31u8]) || opens_with(
                text,
                seq![0x31u8, 0x32u8],
            )) && osc_fields(body).skip(1).contains(seq![0x3fu8]);
            s.run_unit(u).sink.sticky.colors == if asks {
                s.sink.sticky.colors
            } else {
                crate::palette::osc_colors(s.sink.sticky.colors, osc_fields(body))
            }
        }),
{
    let u = Unit::Osc { body, st };
    let params = osc_fields(body);
    law_unit_is_never_split(s, u);
    lemma_command(body);
    lemma_command_numbers();
    crate::palette::lemma_other_oscs_set_no_color(s.sink.sticky.colors, params);
    crate::sink::lemma_osc_has_one_number(params);
    let rest = params.skip(1);
    if rest.contains(seq![0x3fu8]) {
        let k = choose|k: int| 0 <= k < rest.len() && rest[k] == seq![0x3fu8];
        assert(params[k + 1] == seq![0x3fu8]);
    }
    if exists|i: int| 1 <= i < params.len() && #[trigger] params[i] == seq![0x3fu8] {
        let i = choose|i: int| 1 <= i < params.len() && #[trigger] params[i] == seq![0x3fu8];
        assert(rest[i - 1] == seq![0x3fu8]);
    }
    assert(osc_is(params, 0) || osc_is(params, 2) || osc_is(params, 7) || osc_is(params, 8)
        ==> crate::palette::osc_colors(s.sink.sticky.colors, params) == s.sink.sticky.colors);
}

/// Between sequences the ring may be cut, and so it may behind any unit, but
/// for a control that stands inside an unfinished sequence.
pub proof fn law_ground_is_reached(s: ScannerView, u: Unit)
    requires
        ready(s, u),
    ensures
        s.run_unit(u).ground <==> match u {
            Unit::Byte(b) => s.ground || 0x20 <= b < 0x80 || b > 0x9f || b == 0x18 || b == 0x1a,
            _ => true,
        },
        !s.run_unit(u).ground ==> s.run_unit(u).ring.chunks.len() == s.ring.chunks.len(),
{
    law_unit_is_never_split(s, u);
}

/// Whatever the text of `0;`, `2;` and `7;` is, the title or the working
/// directory has the same fields, as far as the parser hands them on.
pub proof fn law_title_and_directory_by_field(s: ScannerView, u: Unit)
    requires
        ready(s, u),
    ensures
        ({
            let after = s.run_unit(u).sink.sticky;
            let rest = osc_fields(u->Osc_body).skip(1);
            &&& says(u, seq![0x30u8, 0x3bu8]) || says(u, seq![0x32u8, 0x3bu8]) ==> (
            after.title matches Some(text) && fields(text) == rest)
            &&& says(u, seq![0x37u8, 0x3bu8]) ==> (after.cwd matches Some(text) && fields(text)
                == rest)
        }),
{
    law_unit_is_never_split(s, u);
    if let Unit::Osc { body, st } = u {
        lemma_text_command(body, 0x30);
        lemma_text_command(body, 0x32);
        lemma_text_command(body, 0x37);
        lemma_command_numbers();
        crate::sink::lemma_osc_has_one_number(osc_fields(body));
    }
}

/// Whatever is behind `8;`: with two fields or more there a hyperlink is
/// opened, with the same fields, or closed by an empty URI; with fewer nothing
/// happens.
pub proof fn law_links_by_field(s: ScannerView, u: Unit)
    requires
        ready(s, u),
        says(u, seq![0x38u8, 0x3bu8]),
    ensures
        ({
            let before = s.sink.sticky.link;
            let after = s.run_unit(u).sink.sticky.link;
            let rest = osc_fields(u->Osc_body).skip(1);
            if rest.len() < 2 {
                after == before
            } else if rest.len() == 2 && rest[1].len() == 0 {
                after is None
            } else {
                after matches Some(text) && fields(text) == rest
            }
        }),
{
    law_unit_is_never_split(s, u);
    let body = u->Osc_body;
    lemma_text_command(body, 0x38);
    lemma_command_numbers();
    let params = osc_fields(body);
    crate::sink::lemma_osc_has_one_number(params);
    assert(osc_is(params, 8));
}

/// A command with a number of one digit and text behind it.
proof fn lemma_text_command(body: Seq<u8>, d: u8)
    requires
        0x30 <= d <= 0x39,
    ensures
        begins_with(without_controls(body), seq![d, 0x3bu8]) ==> {
            let params = osc_fields(body);
            &&& params.len() > 1
            &&& params[0] == seq![d]
            &&& fields(crate::sink::osc_payload(params)) == params.skip(1)
        },
{
    let text = without_controls(body);
    if begins_with(text, seq![d, 0x3bu8]) {
        lemma_two_begin(text, d);
        lemma_first_field(text);
        assert(!seq![d].contains(0x3b));
        assert(opens_with(text, seq![d]));
        assert(osc_fields(body)[0] == fields(text)[0]);
        crate::replay::lemma_payload_of_fields(body);
    }
}

/// A command whose first two fields are 9 and 4 reports the progress: none in
/// state 0 (its third field) or without a value (its fourth), and otherwise
/// the value, if that is a number up to 100, with a `+` in front or without.
/// Further fields do not matter, and no other unit changes the progress.
pub proof fn law_progress_by_field(s: ScannerView, u: Unit)
    requires
        ready(s, u),
    ensures
        ({
            let before = s.sink.status.progress;
            let after = s.run_unit(u).sink.status.progress;
            match u {
                Unit::Osc { body, st } => {
                    let list = osc_fields(body);
                    let value = list[3];
                    let digits = if value.len() > 0 && value[0] == 0x2b {
                        value.drop_first()
                    } else {
                        value
                    };
                    after == if list.len() < 2 || list[0] != seq![0x39u8] || list[1]
                        != seq![0x34u8] {
                        before
                    } else if list.len() > 3 && list[2] != seq![0x30u8] && digits.len() > 0
                        && all_digits(digits) && decimal_value(digits) <= 100 {
                        Some(decimal_value(digits) as u8)
                    } else {
                        None
                    }
                },
                _ => after == before,
            }
        }),
{
    law_unit_is_never_split(s, u);
    if let Unit::Osc { body, st } = u {
        let list = osc_fields(body);
        lemma_command_numbers();
        lemma_command(body);
        crate::sink::lemma_osc_has_one_number(list);
        assert(osc_is(list, 9) <==> list[0] == seq![0x39u8]);
        if list.len() > 3 {
            let value = list[3];
            crate::bytes::law_parse_reads_digits(value);
            if value.len() > 0 && value[0] == 0x2b {
                let digits = value.drop_first();
                crate::bytes::law_parse_reads_digits(digits);
                assert(seq![0x2bu8] + digits =~= value);
            } else if value.len() > 0 && crate::bytes::parsed_u8(value) is Some {
                assert forall|i: int| 0 <= i < value.len() implies 0x30 <= #[trigger] value[i]
                    <= 0x39 by {
                    if i > 0 {
                        assert(value.drop_first()[i - 1] == value[i]);
                    }
                }
            }
        }
    }
}

} // verus!
