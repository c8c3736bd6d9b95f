//! Complete pieces of a terminal stream: a character, a control, or a whole
//! escape sequence of a common form.

use vstd::prelude::*;

use crate::action::ActionView;

verus! {

/// A complete piece of a terminal stream.
pub enum Unit {
    /// A byte that stands for itself: an ASCII character, a control other than
    /// ESC, or one that starts no character of UTF-8.
    Byte(u8),
    /// A character outside ASCII, in UTF-8.
    Char(char),
    /// `ESC inter last`, an escape sequence.
    Esc { inter: Seq<u8>, last: u8 },
    /// `ESC [ marker body inter last`, a control sequence. The marker is at
    /// most one of `<`, `=`, `>` and `?`; the body is made of digits, `;` and
    /// `:`.
    Csi { marker: Seq<u8>, body: Seq<u8>, inter: Seq<u8>, last: u8 },
    /// `ESC ] body BEL`, or `ESC ] body ESC \` where `st` holds.
    Osc { body: Seq<u8>, st: bool },
    /// `ESC P marker body inter last data ESC \`, a device control string. Up
    /// to `last` it has the form of a control sequence.
    Dcs { marker: Seq<u8>, body: Seq<u8>, inter: Seq<u8>, last: u8, data: Seq<u8> },
    /// `ESC kind data ESC \`, a string that terminals skip: SOS (`X`), PM
    /// (`^`) or APC (`_`).
    Skipped { kind: u8, data: Seq<u8> },
}

/// How often `b` occurs in `s`.
pub open spec fn occurrences(s: Seq<u8>, b: u8) -> nat
    decreases s.len(),
{
    if s.len() == 0 {
        0
    } else {
        occurrences(s.drop_last(), b) + if s.last() == b {
            1nat
        } else {
            0nat
        }
    }
}

/// `s` cut at each `;`.
pub open spec fn fields(s: Seq<u8>) -> Seq<Seq<u8>>
    decreases s.len(),
{
    if s.len() == 0 {
        seq![Seq::empty()]
    } else {
        let before = fields(s.drop_last());
        if s.last() == 0x3b {
            before.push(Seq::empty())
        } else {
            before.drop_last().push(before.last().push(s.last()))
        }
    }
}

/// The number `n` with the digit `d` behind it, at most 65535.
pub open spec fn with_digit(n: u16, d: u8) -> u16 {
    let value = n * 10 + (d - 0x30);
    if value > 0xffff {
        0xffff
    } else {
        value as u16
    }
}

/// The numbers of a control sequence: `;` starts a new group, `:` a new
/// number in the same group. A number without digits is 0.
pub open spec fn numbers(s: Seq<u8>) -> Seq<Seq<u16>>
    decreases s.len(),
{
    if s.len() == 0 {
        seq![seq![0u16]]
    } else {
        let before = numbers(s.drop_last());
        let group = before.last();
        if s.last() == 0x3b {
            before.push(seq![0u16])
        } else if s.last() == 0x3a {
            before.drop_last().push(group.push(0u16))
        } else {
            before.drop_last().push(group.drop_last().push(with_digit(group.last(), s.last())))
        }
    }
}

/// Intermediate bytes: space to `/`.
pub open spec fn all_intermediate(s: Seq<u8>) -> bool {
    forall|i: int| 0 <= i < s.len() ==> 0x20 <= #[trigger] s[i] <= 0x2f
}

/// How many separators a control sequence has.
pub open spec fn separators(body: Seq<u8>) -> nat {
    occurrences(body, 0x3a) + occurrences(body, 0x3b)
}

/// The part of `body` that the parser takes in: up to 32 numbers.
pub open spec fn within_limit(body: Seq<u8>) -> Seq<u8>
    decreases body.len(),
{
    if separators(body) <= 31 {
        body
    } else {
        within_limit(body.drop_last())
    }
}

/// The markers and intermediates that the parser takes in: up to two.
pub open spec fn first_two(s: Seq<u8>) -> Seq<u8> {
    if s.len() <= 2 {
        s
    } else {
        s.take(2)
    }
}

/// `s` without C0 controls.
pub open spec fn without_controls(s: Seq<u8>) -> Seq<u8>
    decreases s.len(),
{
    if s.len() == 0 {
        s
    } else if s.last() < 0x20 {
        without_controls(s.drop_last())
    } else {
        without_controls(s.drop_last()).push(s.last())
    }
}

/// The fields of an operating system command that the parser hands on: up to
/// 16, without controls.
pub open spec fn osc_fields(body: Seq<u8>) -> Seq<Seq<u8>> {
    let list = fields(without_controls(body));
    if list.len() <= 16 {
        list
    } else {
        list.take(16)
    }
}

/// `marker body inter last` has the form of a control sequence.
pub open spec fn is_sequence(marker: Seq<u8>, body: Seq<u8>, inter: Seq<u8>, last: u8) -> bool {
    &&& marker.len() <= 1
    &&& marker.len() == 1 ==> 0x3c <= marker[0] <= 0x3f
    &&& forall|i: int| 0 <= i < body.len() ==> 0x30 <= #[trigger] body[i] <= 0x3b
    &&& all_intermediate(inter)
    &&& 0x40 <= last <= 0x7e
}

/// The sequence has more markers, intermediates or numbers than the parser
/// takes in.
pub open spec fn over_limit(marker: Seq<u8>, body: Seq<u8>, inter: Seq<u8>) -> bool {
    marker.len() + inter.len() > 2 || separators(body) > 31
}

/// A byte that does not end a string: neither CAN, SUB nor ESC.
pub open spec fn stays_in_string(b: u8) -> bool {
    b != 0x18 && b != 0x1a && b != 0x1b
}

impl Unit {
    /// The unit is of the form its variant promises.
    pub open spec fn valid(self) -> bool {
        match self {
            Unit::Byte(b) => b != 0x1b && !(0xc2 <= b <= 0xf4),
            Unit::Char(c) => c as u32 >= 0x80,
            Unit::Esc { inter, last } => {
                &&& all_intermediate(inter)
                &&& 0x30 <= last <= 0x7e
                // These start a string or a control sequence.
                &&& inter.len() == 0 ==> last != 0x50 && last != 0x58 && last != 0x5b && last
                    != 0x5d && last != 0x5e && last != 0x5f
            },
            Unit::Csi { marker, body, inter, last } => is_sequence(marker, body, inter, last),
            Unit::Osc { body, st } => forall|i: int|
                0 <= i < body.len() ==> stays_in_string(#[trigger] body[i]) && body[i] != 0x07,
            Unit::Dcs { marker, body, inter, last, data } => {
                &&& is_sequence(marker, body, inter, last)
                &&& forall|i: int|
                    0 <= i < data.len() ==> stays_in_string(#[trigger] data[i]) && data[i] != 0x9c
            },
            Unit::Skipped { kind, data } => {
                &&& kind == 0x58 || kind == 0x5e || kind == 0x5f
                &&& forall|i: int| 0 <= i < data.len() ==> stays_in_string(#[trigger] data[i])
            },
        }
    }

    /// The bytes of the unit.
    pub open spec fn bytes(self) -> Seq<u8> {
        match self {
            Unit::Byte(b) => seq![b],
            Unit::Char(c) => vstd::utf8::encode_scalar(c as u32),
            Unit::Esc { inter, last } => seq![0x1bu8] + inter.push(last),
            Unit::Csi { marker, body, inter, last } => seq![0x1bu8, 0x5bu8] + marker + body
                + inter.push(last),
            Unit::Osc { body, st } => seq![0x1bu8, 0x5du8] + body + if st {
                seq![0x1bu8, 0x5cu8]
            } else {
                seq![0x07u8]
            },
            Unit::Dcs { marker, body, inter, last, data } => seq![0x1bu8, 0x50u8] + marker + body
                + inter.push(last) + data + seq![0x1bu8, 0x5cu8],
            Unit::Skipped { kind, data } => seq![0x1bu8, kind] + data + seq![0x1bu8, 0x5cu8],
        }
    }

    /// Where a device control string names its function.
    pub open spec fn hook_at(self) -> int {
        match self {
            Unit::Dcs { marker, body, inter, last, data } => (2 + marker.len() + body.len()
                + inter.len()) as int,
            _ => 0,
        }
    }

    /// What the parser reports at the `k`-th byte of the unit: a character,
    /// a control or a sequence at its last byte, and an operating system
    /// command at its terminator. A device control string is reported byte by
    /// byte from its function on, and its end at its terminator. An `ESC \` is
    /// then reported as an escape sequence of its own, and is all that is
    /// reported of a string that is skipped.
    pub open spec fn actions_at(self, k: int) -> Seq<ActionView> {
        let last_index = self.bytes().len() - 1;
        match self {
            Unit::Byte(b) => seq![
                if b < 0x20 || 0x80 <= b <= 0x9f {
                    ActionView::Execute(b)
                } else if b < 0x80 {
                    ActionView::Print(b as char)
                } else {
                    ActionView::Print('\u{fffd}')
                },
            ],
            Unit::Char(c) if k == last_index => seq![ActionView::Print(c)],
            Unit::Esc { inter, last } if k == last_index => seq![
                ActionView::Esc {
                    intermediates: first_two(inter),
                    ignore: inter.len() > 2,
                    byte: last,
                },
            ],
            Unit::Csi { marker, body, inter, last } if k == last_index => seq![
                ActionView::Csi {
                    params: numbers(within_limit(body)),
                    intermediates: first_two(marker + inter),
                    ignore: over_limit(marker, body, inter),
                    action: last as char,
                },
            ],
            Unit::Osc { body, st } if k == body.len() + 2 => seq![
                ActionView::Osc { params: osc_fields(body), bell: !st },
            ],
            Unit::Osc { st: true, .. } if k == last_index => seq![
                ActionView::Esc { intermediates: Seq::empty(), ignore: false, byte: 0x5c },
            ],
            Unit::Dcs { marker, body, inter, last, data } if k == self.hook_at() => seq![
                ActionView::Hook {
                    params: numbers(within_limit(body)),
                    intermediates: first_two(marker + inter),
                    ignore: over_limit(marker, body, inter),
                    action: last as char,
                },
            ],
            Unit::Dcs { .. } if self.hook_at() < k < last_index - 1 && self.bytes()[k] < 0x7f => seq![
                ActionView::Put(self.bytes()[k]),
            ],
            Unit::Dcs { .. } if k == last_index - 1 => seq![ActionView::Unhook],
            Unit::Dcs { .. } if k == last_index => seq![
                ActionView::Esc { intermediates: Seq::empty(), ignore: false, byte: 0x5c },
            ],
            Unit::Skipped { .. } if k == last_index => seq![
                ActionView::Esc { intermediates: Seq::empty(), ignore: false, byte: 0x5c },
            ],
            _ => Seq::empty(),
        }
    }
}

/// All units are of the form their variants promise.
pub open spec fn units_valid(units: Seq<Unit>) -> bool {
    forall|i: int| 0 <= i < units.len() ==> (#[trigger] units[i]).valid()
}

/// The bytes of the units, in order.
pub open spec fn units_bytes(units: Seq<Unit>) -> Seq<u8>
    decreases units.len(),
{
    if units.len() == 0 {
        Seq::empty()
    } else {
        units_bytes(units.drop_last()) + units.last().bytes()
    }
}

/// The bytes of two runs of units, one after the other.
pub proof fn lemma_units_bytes_add(a: Seq<Unit>, b: Seq<Unit>)
    ensures
        units_bytes(a + b) == units_bytes(a) + units_bytes(b),
    decreases b.len(),
{
    if b.len() == 0 {
        assert(a + b =~= a);
        assert(units_bytes(a) + units_bytes(b) =~= units_bytes(a));
    } else {
        lemma_units_bytes_add(a, b.drop_last());
        assert((a + b).drop_last() =~= a + b.drop_last());
        assert((a + b).last() == b.last());
        assert(units_bytes(a) + units_bytes(b) =~= units_bytes(a) + units_bytes(b.drop_last())
            + b.last().bytes());
    }
}

} // verus!
