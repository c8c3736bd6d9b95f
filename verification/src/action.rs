//! The escape-sequence parser of the `vte` crate, one byte at a time.
//!
//! `vte` reports what it recognises through callbacks. Here the callbacks are
//! recorded as [`Action`] values, so that everything after the parser works on
//! plain data.

use vstd::prelude::*;

use crate::unit::{units_bytes, units_valid, Unit};

verus! {

/// One callback of the parser.
#[derive(Debug, Clone, PartialEq, Eq)]
pub enum Action {
    /// A printable character.
    Print(char),
    /// A C0 control.
    Execute(u8),
    /// The start of a device control string.
    Hook { params: Vec<Vec<u16>>, intermediates: Vec<u8>, ignore: bool, action: char },
    /// A byte of a device control string.
    Put(u8),
    /// The end of a device control string.
    Unhook,
    /// An operating system command, split at `;`.
    Osc { params: Vec<Vec<u8>>, bell: bool },
    /// A control sequence, with its parameters grouped by `;`.
    Csi { params: Vec<Vec<u16>>, intermediates: Vec<u8>, ignore: bool, action: char },
    /// An escape sequence.
    Esc { intermediates: Vec<u8>, ignore: bool, byte: u8 },
}

/// What an [`Action`] holds.
#[verifier::ext_equal]
pub enum ActionView {
    Print(char),
    Execute(u8),
    Hook { params: Seq<Seq<u16>>, intermediates: Seq<u8>, ignore: bool, action: char },
    Put(u8),
    Unhook,
    Osc { params: Seq<Seq<u8>>, bell: bool },
    Csi { params: Seq<Seq<u16>>, intermediates: Seq<u8>, ignore: bool, action: char },
    Esc { intermediates: Seq<u8>, ignore: bool, byte: u8 },
}

/// The contents of vectors of bytes.
pub open spec fn strings(v: Seq<Vec<u8>>) -> Seq<Seq<u8>> {
    v.map_values(|x: Vec<u8>| x@)
}

/// The contents of vectors of numbers.
pub open spec fn groups(v: Seq<Vec<u16>>) -> Seq<Seq<u16>> {
    v.map_values(|x: Vec<u16>| x@)
}

/// The contents of slices of bytes.
pub open spec fn slices(v: Seq<&[u8]>) -> Seq<Seq<u8>> {
    v.map_values(|x: &[u8]| x@)
}

/// The contents of recorded actions.
pub open spec fn actions(v: Seq<Action>) -> Seq<ActionView> {
    v.map_values(|x: Action| x@)
}

impl View for Action {
    type V = ActionView;

    open spec fn view(&self) -> ActionView {
        match *self {
            Action::Print(c) => ActionView::Print(c),
            Action::Execute(b) => ActionView::Execute(b),
            Action::Hook { params, intermediates, ignore, action } => ActionView::Hook {
                params: groups(params@),
                intermediates: intermediates@,
                ignore,
                action,
            },
            Action::Put(b) => ActionView::Put(b),
            Action::Unhook => ActionView::Unhook,
            Action::Osc { params, bell } => ActionView::Osc { params: strings(params@), bell },
            Action::Csi { params, intermediates, ignore, action } => ActionView::Csi {
                params: groups(params@),
                intermediates: intermediates@,
                ignore,
                action,
            },
            Action::Esc { intermediates, ignore, byte } => ActionView::Esc {
                intermediates: intermediates@,
                ignore,
                byte,
            },
        }
    }
}

/// The parser of the `vte` crate.
#[verifier::external_type_specification]
#[verifier::external_body]
pub struct ExParser<const N: usize>(vte::Parser<N>);

/// The parameters of a control sequence, as the `vte` crate holds them.
#[verifier::external_type_specification]
#[verifier::external_body]
pub struct ExParams(vte::Params);

/// The bytes that a parser has been given since it was made.
pub uninterp spec fn parser_history(parser: vte::Parser) -> Seq<u8>;

/// The callbacks of a parser that is given `byte` after `history`.
pub uninterp spec fn parser_actions(history: Seq<u8>, byte: u8) -> Seq<ActionView>;

/// The parameter groups, in order.
pub uninterp spec fn param_groups(params: vte::Params) -> Seq<Seq<u16>>;

/// Calls `vte::Params::iter`, which hands out the groups of subparameters in
/// order, each a slice of numbers.
#[verifier::external_body]
fn copy_params(params: &vte::Params) -> (r: Vec<Vec<u16>>)
    ensures
        groups(r@) == param_groups(*params),
{
    params.iter().map(|group| group.to_vec()).collect()
}

fn copy_strings(params: &[&[u8]]) -> (r: Vec<Vec<u8>>)
    ensures
        strings(r@) == slices(params@),
{
    let mut r: Vec<Vec<u8>> = Vec::new();
    let mut i: usize = 0;
    while i < params.len()
        invariant
            i <= params@.len(),
            r@.len() == i,
            forall|j: int| 0 <= j < i ==> (#[trigger] r@[j])@ == params@[j]@,
        decreases params@.len() - i,
    {
        r.push(vstd::slice::slice_to_vec(params[i]));
        i = i + 1;
    }
    assert(strings(r@) =~= slices(params@));
    r
}

/// Records the callbacks of the parser.
pub struct ActionLog {
    actions: Vec<Action>,
}

impl View for ActionLog {
    type V = Seq<ActionView>;

    closed spec fn view(&self) -> Seq<ActionView> {
        actions(self.actions@)
    }
}

impl ActionLog {
    fn new() -> (log: Self)
        ensures
            log@ == Seq::<ActionView>::empty(),
    {
        let log = Self { actions: Vec::new() };
        assert(log@ =~= Seq::<ActionView>::empty());
        log
    }

    fn record(&mut self, action: Action)
        ensures
            final(self)@ == old(self)@.push(action@),
    {
        self.actions.push(action);
        assert(self@ =~= old(self)@.push(action@));
    }

    fn into_actions(self) -> (r: Vec<Action>)
        ensures
            actions(r@) == self@,
    {
        self.actions
    }
}

impl vte::Perform for ActionLog {
    fn print(&mut self, c: char)
        ensures
            final(self)@ == old(self)@.push(ActionView::Print(c)),
    {
        self.record(Action::Print(c));
    }

    fn execute(&mut self, byte: u8)
        ensures
            final(self)@ == old(self)@.push(ActionView::Execute(byte)),
    {
        self.record(Action::Execute(byte));
    }

    fn hook(&mut self, params: &vte::Params, intermediates: &[u8], ignore: bool, action: char)
        ensures
            final(self)@ == old(self)@.push(
                (ActionView::Hook {
                    params: param_groups(*params),
                    intermediates: intermediates@,
                    ignore,
                    action,
                }),
            ),
    {
        let params = copy_params(params);
        let intermediates = vstd::slice::slice_to_vec(intermediates);
        self.record(Action::Hook { params, intermediates, ignore, action });
    }

    fn put(&mut self, byte: u8)
        ensures
            final(self)@ == old(self)@.push(ActionView::Put(byte)),
    {
        self.record(Action::Put(byte));
    }

    fn unhook(&mut self)
        ensures
            final(self)@ == old(self)@.push(ActionView::Unhook),
    {
        self.record(Action::Unhook);
    }

    fn osc_dispatch(&mut self, params: &[&[u8]], bell_terminated: bool)
        ensures
            final(self)@ == old(self)@.push(
                (ActionView::Osc { params: slices(params@), bell: bell_terminated }),
            ),
    {
        let params = copy_strings(params);
        self.record(Action::Osc { params, bell: bell_terminated });
    }

    fn csi_dispatch(
        &mut self,
        params: &vte::Params,
        intermediates: &[u8],
        ignore: bool,
        action: char,
    )
        ensures
            final(self)@ == old(self)@.push(
                (ActionView::Csi {
                    params: param_groups(*params),
                    intermediates: intermediates@,
                    ignore,
                    action,
                }),
            ),
    {
        let params = copy_params(params);
        let intermediates = vstd::slice::slice_to_vec(intermediates);
        self.record(Action::Csi { params, intermediates, ignore, action });
    }

    fn esc_dispatch(&mut self, intermediates: &[u8], ignore: bool, byte: u8)
        ensures
            final(self)@ == old(self)@.push(
                (ActionView::Esc { intermediates: intermediates@, ignore, byte }),
            ),
    {
        let intermediates = vstd::slice::slice_to_vec(intermediates);
        self.record(Action::Esc { intermediates, ignore, byte });
    }
}

/// `result` is what a parser reports for `byte` after `history`, as far as
/// both lie in a stream of complete units: after any complete units, the
/// bytes of one more unit give that unit's actions, each at its byte.
pub open spec fn follows_units(history: Seq<u8>, byte: u8, result: Seq<ActionView>) -> bool {
    forall|done: Seq<Unit>, u: Unit, k: int|
        units_valid(done) && u.valid() && 0 <= k < u.bytes().len() && history == #[trigger] (
        units_bytes(done) + u.bytes().take(k)) && byte == u.bytes()[k] ==> result
            == u.actions_at(k)
}

/// Whether the parser is at ground state, as far as its actions tell, after
/// it was given `byte` and reported `actions`. At ground state the next byte
/// starts a new character, control or sequence. `before` tells the same of
/// the byte before. At a byte that starts a character outside ASCII, a
/// replacement character stands for what came before, and the parser is within
/// the next character.
pub open spec fn ground_after(before: bool, byte: u8, actions: Seq<ActionView>) -> bool {
    byte != 0x1b && actions.len() > 0 && match actions.last() {
        ActionView::Print(c) => c != '\u{fffd}' || !(0xc2 <= byte <= 0xf4),
        ActionView::Execute(b) => before || b == 0x18 || b == 0x1a,
        ActionView::Csi { .. } => true,
        ActionView::Esc { .. } => true,
        ActionView::Osc { bell, .. } => bell,
        _ => false,
    }
}

/// Whether the parser is at ground state (see [`ground_after`]).
pub fn is_ground_after(before: bool, byte: u8, list: &Vec<Action>) -> (r: bool)
    ensures
        r == ground_after(before, byte, actions(list@)),
{
    if byte == 0x1b || list.len() == 0 {
        return false;
    }
    let last = &list[list.len() - 1];
    assert(actions(list@).last() == last@);
    match last {
        Action::Print(c) => *c != '\u{fffd}' || byte < 0xc2 || byte > 0xf4,
        Action::Execute(b) => before || *b == 0x18 || *b == 0x1a,
        Action::Csi { .. } => true,
        Action::Esc { .. } => true,
        Action::Osc { params: _, bell } => *bell,
        _ => false,
    }
}

/// Calls `vte::Parser::new`. A new parser has been given nothing.
#[verifier::external_body]
pub(crate) fn new_parser() -> (parser: vte::Parser)
    ensures
        parser_history(parser) == Seq::<u8>::empty(),
{
    vte::Parser::new()
}

/// Calls `vte::Parser::advance` with the single byte `byte` and hands back
/// the callbacks that it made. They depend only on the bytes given before and
/// on this byte. In a stream of complete units, which may end within one, they
/// are those that the units stand for. What a parser makes of other streams is
/// not stated: controls within a sequence, sequences and strings that are cut
/// short, and characters that are cut off.
#[verifier::external_body]
fn log_advance(parser: &mut vte::Parser, byte: u8) -> (log: ActionLog)
    ensures
        parser_history(*final(parser)) == parser_history(*old(parser)).push(byte),
        log@ == parser_actions(parser_history(*old(parser)), byte),
        follows_units(parser_history(*old(parser)), byte, log@),
{
    let mut log = ActionLog::new();
    parser.advance(&mut log, &[byte]);
    log
}

/// Gives `parser` one byte and returns the actions that it reports.
pub(crate) fn advance(parser: &mut vte::Parser, byte: u8) -> (r: Vec<Action>)
    ensures
        parser_history(*final(parser)) == parser_history(*old(parser)).push(byte),
        actions(r@) == parser_actions(parser_history(*old(parser)), byte),
        follows_units(parser_history(*old(parser)), byte, actions(r@)),
{
    log_advance(parser, byte).into_actions()
}

} // verus!
