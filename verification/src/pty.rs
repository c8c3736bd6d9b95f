//! The decisions around a PTY and its shell process: what is handed to the
//! new process, and what each outcome of a system call means. The calls
//! themselves are made by the daemon.

use vstd::prelude::*;

use crate::bytes::extend_bytes;

verus! {

/// A terminal size in characters and pixels.
#[derive(Debug, Clone, Copy, PartialEq, Eq, Structural)]
pub struct Winsize {
    pub ws_row: u16,
    pub ws_col: u16,
    pub ws_xpixel: u16,
    pub ws_ypixel: u16,
}

/// Build a `Winsize` from columns/rows (pixel sizes left zero).
pub fn winsize(cols: u16, rows: u16) -> (w: Winsize)
    ensures
        w == (Winsize { ws_row: rows, ws_col: cols, ws_xpixel: 0, ws_ypixel: 0 }),
{
    Winsize { ws_row: rows, ws_col: cols, ws_xpixel: 0, ws_ypixel: 0 }
}

// ---------------------------------------------------------------------
// Starting a shell
// ---------------------------------------------------------------------
/// What a new shell process is given: byte strings without NUL, ready to be
/// passed to the system.
#[derive(Debug, Clone, PartialEq, Eq)]
pub struct SpawnPlan {
    pub argv: Vec<Vec<u8>>,
    pub env: Vec<Vec<u8>>,
    pub cwd: Vec<u8>,
}

/// Why a shell cannot be started.
#[derive(Debug, Clone, Copy, PartialEq, Eq, Structural)]
pub enum SpawnError {
    /// A string to be passed to the system holds a NUL at this position.
    Nul(usize),
    /// There is no program to run.
    EmptyArgv,
}

/// The text of a string in UTF-8.
pub open spec fn utf8(s: Seq<char>) -> Seq<u8> {
    vstd::utf8::encode_utf8(s)
}

/// The position of the first NUL.
pub open spec fn nul_position(s: Seq<u8>) -> Option<int> {
    if s.contains(0) {
        Some(s.index_of_first(0)->0)
    } else {
        None
    }
}

/// The first string that holds a NUL, by the position of that NUL.
pub open spec fn first_nul(list: Seq<Seq<u8>>) -> Option<int>
    decreases list.len(),
{
    if list.len() == 0 {
        None
    } else {
        match first_nul(list.drop_last()) {
            Some(p) => Some(p),
            None => nul_position(list.last()),
        }
    }
}

/// The strings in UTF-8.
pub open spec fn utf8_all(list: Seq<String>) -> Seq<Seq<u8>> {
    list.map_values(|s: String| utf8(s@))
}

/// The variable says what the terminal is capable of.
pub open spec fn is_capability(name: Seq<char>) -> bool {
    name == "TERM"@ || name == "COLORTERM"@
}

/// `name=value` in UTF-8.
pub open spec fn assignment(name: Seq<char>, value: Seq<char>) -> Seq<u8> {
    utf8(name).push(0x3d) + utf8(value)
}

/// The inherited variables, without those that say what the terminal is
/// capable of.
pub open spec fn kept_env(vars: Seq<(String, String)>) -> Seq<Seq<u8>>
    decreases vars.len(),
{
    if vars.len() == 0 {
        Seq::empty()
    } else {
        let before = kept_env(vars.drop_last());
        let (name, value) = vars.last();
        if is_capability(name@) {
            before
        } else {
            before.push(assignment(name@, value@))
        }
    }
}

/// The environment of a new shell.
pub open spec fn shell_env(vars: Seq<(String, String)>) -> Seq<Seq<u8>> {
    kept_env(vars) + seq![utf8("TERM=xterm-256color"@), utf8("COLORTERM=truecolor"@)]
}

/// Why a shell cannot be started with these, if so.
pub open spec fn spawn_refused(
    argv: Seq<String>,
    vars: Seq<(String, String)>,
    cwd: Seq<u8>,
) -> Option<SpawnError> {
    match first_nul(utf8_all(argv)) {
        Some(p) => Some(SpawnError::Nul(p as usize)),
        None => if argv.len() == 0 {
            Some(SpawnError::EmptyArgv)
        } else {
            match first_nul(kept_env(vars)) {
                Some(p) => Some(SpawnError::Nul(p as usize)),
                None => match nul_position(cwd) {
                    Some(p) => Some(SpawnError::Nul(p as usize)),
                    None => None,
                },
            }
        },
    }
}

/// The position of the first NUL in `s`.
fn find_nul(s: &[u8]) -> (r: Option<usize>)
    ensures
        match r {
            Some(p) => nul_position(s@) == Some(p as int),
            None => nul_position(s@) is None,
        },
{
    let mut i: usize = 0;
    while i < s.len()
        invariant
            i <= s@.len(),
            forall|j: int| 0 <= j < i ==> s@[j] != 0,
        decreases s@.len() - i,
    {
        if s[i] == 0 {
            assert(s@.contains(0)) by {
                assert(s@[i as int] == 0);
            }
            proof {
                s@.index_of_first_ensures(0);
            }
            return Some(i);
        }
        i = i + 1;
    }
    None
}

/// The contents of byte strings.
pub open spec fn contents(list: Seq<Vec<u8>>) -> Seq<Seq<u8>> {
    list.map_values(|v: Vec<u8>| v@)
}

/// The first of the strings that holds a NUL, by the position of that NUL.
fn find_first_nul(list: &Vec<Vec<u8>>) -> (r: Option<usize>)
    ensures
        match r {
            Some(p) => first_nul(contents(list@)) == Some(p as int),
            None => first_nul(contents(list@)) is None,
        },
{
    let ghost all = contents(list@);
    let mut found: Option<usize> = None;
    let mut i: usize = 0;
    while i < list.len()
        invariant
            i <= list@.len(),
            all == contents(list@),
            match found {
                Some(p) => first_nul(all.take(i as int)) == Some(p as int),
                None => first_nul(all.take(i as int)) is None,
            },
        decreases list@.len() - i,
    {
        assert(all.take(i + 1).drop_last() =~= all.take(i as int));
        assert(all.take(i + 1).last() == list@[i as int]@);
        if found.is_none() {
            found = find_nul(list[i].as_slice());
        }
        i = i + 1;
    }
    assert(all.take(list@.len() as int) =~= all);
    found
}

fn text_bytes(s: &str) -> (r: Vec<u8>)
    ensures
        r@ == utf8(s@),
{
    vstd::slice::slice_to_vec(s.as_bytes())
}

fn all_text_bytes(list: &Vec<String>) -> (r: Vec<Vec<u8>>)
    ensures
        contents(r@) == utf8_all(list@),
{
    let mut r: Vec<Vec<u8>> = Vec::new();
    let mut i: usize = 0;
    while i < list.len()
        invariant
            i <= list@.len(),
            r@.len() == i,
            forall|j: int| 0 <= j < i ==> (#[trigger] r@[j])@ == utf8(list@[j]@),
        decreases list@.len() - i,
    {
        r.push(text_bytes(list[i].as_str()));
        i = i + 1;
    }
    assert(contents(r@) =~= utf8_all(list@));
    r
}

fn inherited_env(vars: &Vec<(String, String)>) -> (r: Vec<Vec<u8>>)
    ensures
        contents(r@) == kept_env(vars@),
{
    let term = "TERM".to_owned();
    let colorterm = "COLORTERM".to_owned();
    let mut r: Vec<Vec<u8>> = Vec::new();
    assert(contents(r@) =~= kept_env(vars@.take(0)));
    let mut i: usize = 0;
    while i < vars.len()
        invariant
            i <= vars@.len(),
            term@ == "TERM"@,
            colorterm@ == "COLORTERM"@,
            contents(r@) == kept_env(vars@.take(i as int)),
        decreases vars@.len() - i,
    {
        assert(vars@.take(i + 1).drop_last() =~= vars@.take(i as int));
        let ghost before = contents(r@);
        let name = &vars[i].0;
        if *name != term && *name != colorterm {
            let mut entry = text_bytes(name.as_str());
            entry.push(0x3d);
            let value = text_bytes(vars[i].1.as_str());
            extend_bytes(&mut entry, value.as_slice());
            r.push(entry);
            assert(contents(r@) =~= before.push(entry@));
        }
        i = i + 1;
    }
    assert(vars@.take(vars@.len() as int) =~= vars@);
    r
}

/// Prepares what a new shell is given. `argv[0]` is run via PATH in `cwd`;
/// the emulator-capability variables are forced, and inherited values of
/// them dropped, so that they tell what the terminal actually supports.
pub fn plan_spawn(argv: &Vec<String>, vars: &Vec<(String, String)>, cwd: &[u8]) -> (r: Result<
    SpawnPlan,
    SpawnError,
>)
    ensures
        match r {
            Ok(plan) => {
                &&& spawn_refused(argv@, vars@, cwd@) is None
                &&& contents(plan.argv@) == utf8_all(argv@)
                &&& contents(plan.env@) == shell_env(vars@)
                &&& plan.cwd@ == cwd@
            },
            Err(e) => spawn_refused(argv@, vars@, cwd@) == Some(e),
        },
{
    let args = all_text_bytes(argv);
    if let Some(p) = find_first_nul(&args) {
        return Err(SpawnError::Nul(p));
    }
    if args.len() == 0 {
        assert(utf8_all(argv@).len() == 0);
        return Err(SpawnError::EmptyArgv);
    }
    assert(utf8_all(argv@).len() == argv@.len());
    let mut env = inherited_env(vars);
    if let Some(p) = find_first_nul(&env) {
        return Err(SpawnError::Nul(p));
    }
    if let Some(p) = find_nul(cwd) {
        return Err(SpawnError::Nul(p));
    }
    let ghost kept = contents(env@);
    env.push(text_bytes("TERM=xterm-256color"));
    env.push(text_bytes("COLORTERM=truecolor"));
    assert(contents(env@) =~= kept + seq![
        utf8("TERM=xterm-256color"@),
        utf8("COLORTERM=truecolor"@),
    ]);
    Ok(SpawnPlan { argv: args, env, cwd: vstd::slice::slice_to_vec(cwd) })
}

/// A shell's environment ends with what the terminal supports, and all before
/// that was inherited under other names.
pub proof fn law_capabilities_are_forced(vars: Seq<(String, String)>)
    ensures
        shell_env(vars).len() >= 2,
        shell_env(vars)[shell_env(vars).len() - 2] == utf8("TERM=xterm-256color"@),
        shell_env(vars).last() == utf8("COLORTERM=truecolor"@),
        forall|i: int|
            0 <= i < shell_env(vars).len() - 2 ==> exists|j: int|
                0 <= j < vars.len() && !is_capability((#[trigger] vars[j]).0@)
                    && #[trigger] shell_env(vars)[i] == assignment(vars[j].0@, vars[j].1@),
{
    assert forall|i: int| 0 <= i < shell_env(vars).len() - 2 implies exists|j: int|
        0 <= j < vars.len() && !is_capability((#[trigger] vars[j]).0@)
            && #[trigger] shell_env(vars)[i] == assignment(vars[j].0@, vars[j].1@) by {
        let j = lemma_kept_source(vars, i);
        assert(shell_env(vars)[i] == kept_env(vars)[i]);
        assert(!is_capability(vars[j].0@));
    }
}

/// Where a kept variable comes from.
proof fn lemma_kept_source(vars: Seq<(String, String)>, i: int) -> (j: int)
    requires
        0 <= i < kept_env(vars).len(),
    ensures
        0 <= j < vars.len(),
        !is_capability(vars[j].0@),
        kept_env(vars)[i] == assignment(vars[j].0@, vars[j].1@),
    decreases vars.len(),
{
    let before = kept_env(vars.drop_last());
    if i < before.len() {
        let j = lemma_kept_source(vars.drop_last(), i);
        assert(vars.drop_last()[j] == vars[j]);
        j
    } else {
        vars.len() - 1
    }
}

// ---------------------------------------------------------------------
// Reading output
// ---------------------------------------------------------------------
/// Result of draining all currently-available PTY output.
#[derive(Debug, Clone, PartialEq, Eq)]
pub struct DrainResult {
    /// Bytes read this drain (may be empty if nothing was ready).
    pub bytes: Vec<u8>,
    /// True once the master hit EOF (slave fully closed: child gone).
    pub eof: bool,
}

/// What a [`DrainResult`] holds.
#[verifier::ext_equal]
pub struct DrainView {
    pub bytes: Seq<u8>,
    pub eof: bool,
}

impl View for DrainResult {
    type V = DrainView;

    open spec fn view(&self) -> DrainView {
        DrainView { bytes: self.bytes@, eof: self.eof }
    }
}

impl Default for DrainResult {
    fn default() -> (d: Self)
        ensures
            d@ == (DrainView { bytes: Seq::empty(), eof: false }),
    {
        let d = Self { bytes: Vec::new(), eof: false };
        assert(d@.bytes =~= Seq::<u8>::empty());
        d
    }
}

/// The outcome of one read of the PTY master.
#[derive(Debug, Clone, Copy, PartialEq, Eq, Structural)]
pub enum ReadOutcome {
    /// Bytes were read, or none at end of file.
    Bytes,
    /// EAGAIN.
    WouldBlock,
    /// EINTR.
    Interrupted,
    /// EIO, which Linux reports once the slave side has fully closed.
    InputOutput,
    /// Any other error.
    Other(i32),
}

/// What to do after a read.
#[derive(Debug, Clone, Copy, PartialEq, Eq, Structural)]
pub enum DrainStep {
    /// Read again.
    More,
    /// All that was available has been read.
    Done,
    /// Give up with this error.
    Failed(i32),
}

/// The drain after a read, and what to do next.
pub open spec fn drain_step(d: DrainView, outcome: ReadOutcome, bytes: Seq<u8>) -> (
    DrainView,
    DrainStep,
) {
    match outcome {
        ReadOutcome::Bytes => if bytes.len() == 0 {
            (DrainView { eof: true, ..d }, DrainStep::Done)
        } else {
            (DrainView { bytes: d.bytes + bytes, ..d }, DrainStep::More)
        },
        ReadOutcome::WouldBlock => (d, DrainStep::Done),
        ReadOutcome::Interrupted => (d, DrainStep::More),
        ReadOutcome::InputOutput => (DrainView { eof: true, ..d }, DrainStep::Done),
        ReadOutcome::Other(errno) => (d, DrainStep::Failed(errno)),
    }
}

impl DrainResult {
    /// Takes in the outcome of one read. `bytes` are those that were read.
    pub fn step(&mut self, outcome: ReadOutcome, bytes: &[u8]) -> (step: DrainStep)
        ensures
            (final(self)@, step) == drain_step(old(self)@, outcome, bytes@),
    {
        match outcome {
            ReadOutcome::Bytes => {
                if bytes.len() == 0 {
                    self.eof = true;
                    DrainStep::Done
                } else {
                    extend_bytes(&mut self.bytes, bytes);
                    DrainStep::More
                }
            },
            ReadOutcome::WouldBlock => DrainStep::Done,
            ReadOutcome::Interrupted => DrainStep::More,
            ReadOutcome::InputOutput => {
                self.eof = true;
                DrainStep::Done
            },
            ReadOutcome::Other(errno) => DrainStep::Failed(errno),
        }
    }
}

/// The drain after reads, all of which asked for more.
pub open spec fn drain_all(d: DrainView, reads: Seq<(ReadOutcome, Seq<u8>)>) -> DrainView
    decreases reads.len(),
{
    if reads.len() == 0 {
        d
    } else {
        drain_step(drain_all(d, reads.drop_last()), reads.last().0, reads.last().1).0
    }
}

/// The bytes of reads, one after the other.
pub open spec fn read_bytes(reads: Seq<(ReadOutcome, Seq<u8>)>) -> Seq<u8>
    decreases reads.len(),
{
    if reads.len() == 0 {
        Seq::empty()
    } else {
        read_bytes(reads.drop_last()) + if reads.last().0 == ReadOutcome::Bytes {
            reads.last().1
        } else {
            Seq::empty()
        }
    }
}

/// A drain loses and adds nothing: it holds the bytes of all its reads, in
/// order.
pub proof fn law_drain_keeps_all_bytes(reads: Seq<(ReadOutcome, Seq<u8>)>)
    ensures
        drain_all(DrainView { bytes: Seq::empty(), eof: false }, reads).bytes == read_bytes(reads),
    decreases reads.len(),
{
    let start = DrainView { bytes: Seq::<u8>::empty(), eof: false };
    if reads.len() > 0 {
        law_drain_keeps_all_bytes(reads.drop_last());
        assert(drain_all(start, reads).bytes =~= read_bytes(reads));
    }
}

// ---------------------------------------------------------------------
// Waiting for the shell
// ---------------------------------------------------------------------
/// The outcome of asking the system for the state of the shell process.
#[derive(Debug, Clone, Copy, PartialEq, Eq, Structural)]
pub enum WaitOutcome {
    /// It exited with this code.
    Exited(i32),
    /// It was ended by this signal.
    Signaled(u8),
    /// It is running, stopped, or has been continued.
    NotTerminal,
    /// ECHILD: there is no such child, or it was reaped before.
    NoChild,
    /// Any other error.
    Other(i32),
}

/// The exit status that an outcome tells, if any: the exit code, or 128 plus
/// the signal.
pub open spec fn exit_status(outcome: WaitOutcome) -> Option<i32> {
    match outcome {
        WaitOutcome::Exited(code) => Some(code),
        WaitOutcome::Signaled(signal) => Some((128 + signal) as i32),
        _ => None,
    }
}

/// Non-blocking reap. `Some(status)` once reaped (128+sig for signals),
/// `None` while still running or if the status is not yet observable. A lost
/// status is never turned into a code.
pub fn try_reap(outcome: WaitOutcome) -> (r: Result<Option<i32>, i32>)
    ensures
        r == match outcome {
            WaitOutcome::Other(errno) => Err::<Option<i32>, i32>(errno),
            _ => Ok::<Option<i32>, i32>(exit_status(outcome)),
        },
{
    match outcome {
        WaitOutcome::Exited(code) => Ok(Some(code)),
        WaitOutcome::Signaled(signal) => Ok(Some(128 + signal as i32)),
        WaitOutcome::NotTerminal => Ok(None),
        WaitOutcome::NoChild => Ok(None),
        WaitOutcome::Other(errno) => Err(errno),
    }
}

/// How often the state of the shell is asked for before giving up.
pub const MAX_TRIES: u32 = 200;

/// A bounded number of tries.
#[derive(Debug, Clone, Copy, PartialEq, Eq, Structural)]
pub struct Tries {
    left: u32,
}

impl View for Tries {
    type V = nat;

    /// The tries that are left.
    closed spec fn view(&self) -> nat {
        self.left as nat
    }
}

/// What to do after a try.
#[derive(Debug, Clone, Copy, PartialEq, Eq, Structural)]
pub enum ReapStep {
    /// Wait a moment, then try again if a try is left.
    Wait,
    /// Report this exit status, or that none can be had.
    Done(Option<i32>),
    /// Give up with this error.
    Failed(i32),
}

impl Tries {
    pub fn new() -> (t: Self)
        ensures
            t@ == MAX_TRIES,
    {
        Self { left: MAX_TRIES }
    }

    /// Whether a try is left.
    pub fn any_left(&self) -> (r: bool)
        ensures
            r == (self@ > 0),
    {
        self.left > 0
    }

    /// One try of a reap that waits for the true exit status. Used at EOF,
    /// where the shell is known to be terminating, so that the real code is
    /// not lost to an outcome that is not terminal.
    pub fn reap_blocking(&mut self, outcome: WaitOutcome) -> (step: ReapStep)
        requires
            old(self)@ > 0,
        ensures
            final(self)@ == old(self)@ - 1,
            step == match outcome {
                WaitOutcome::NotTerminal => ReapStep::Wait,
                WaitOutcome::Other(errno) => ReapStep::Failed(errno),
                _ => ReapStep::Done(exit_status(outcome)),
            },
    {
        self.left = self.left - 1;
        match outcome {
            WaitOutcome::Exited(code) => ReapStep::Done(Some(code)),
            WaitOutcome::Signaled(signal) => ReapStep::Done(Some(128 + signal as i32)),
            WaitOutcome::NotTerminal => ReapStep::Wait,
            WaitOutcome::NoChild => ReapStep::Done(None),
            WaitOutcome::Other(errno) => ReapStep::Failed(errno),
        }
    }

    /// One try of waiting for the shell to lead its own process group, so
    /// that signals to the group of its process id reach it. Whether to wait
    /// a moment and try again.
    pub fn await_own_process_group(&mut self, group: GroupOutcome, child: i32) -> (wait: bool)
        requires
            old(self)@ > 0,
        ensures
            final(self)@ == old(self)@ - 1,
            wait == !(group == GroupOutcome::Group(child) || group == GroupOutcome::Gone),
    {
        self.left = self.left - 1;
        match group {
            GroupOutcome::Group(pgid) => pgid != child,
            GroupOutcome::Gone => false,
            GroupOutcome::Other => true,
        }
    }
}

/// The outcome of asking the system for the process group of the shell.
#[derive(Debug, Clone, Copy, PartialEq, Eq, Structural)]
pub enum GroupOutcome {
    /// It is in this process group.
    Group(i32),
    /// ESRCH: it is gone already.
    Gone,
    /// Any other error.
    Other,
}

/// True when a foreground process group other than the shell itself owns the
/// terminal, that is, a command is running. The `running` fallback for shells
/// without OSC 133.
pub fn foreground_busy(foreground: i32, child: i32) -> (busy: bool)
    ensures
        busy == (foreground != child),
{
    foreground != child
}

/// An exit code is reported only where the system reported one: waiting,
/// a missing child and errors never become a code.
pub proof fn law_exit_code_is_never_made_up(outcome: WaitOutcome)
    ensures
        exit_status(outcome) is Some <==> outcome is Exited || outcome is Signaled,
        outcome matches WaitOutcome::Signaled(signal) ==> exit_status(outcome) == Some(
            (128 + signal) as i32,
        ) && 128 + signal <= i32::MAX,
{
}

// ---------------------------------------------------------------------
// What a shell is given
// ---------------------------------------------------------------------
/// How many of the first `n` variables are named neither `TERM` nor
/// `COLORTERM`.
pub open spec fn others_before(vars: Seq<(String, String)>, n: int) -> nat
    decreases n,
{
    if n <= 0 {
        0
    } else {
        others_before(vars, n - 1) + if vars[n - 1].0@ != "TERM"@ && vars[n - 1].0@
            != "COLORTERM"@ {
            1nat
        } else {
            0nat
        }
    }
}

/// Every inherited variable but `TERM` and `COLORTERM` is in a shell's
/// environment as `name=value`, in the order in which they were inherited, and
/// only the two that are forced follow.
pub proof fn law_environment_is_inherited_in_order(vars: Seq<(String, String)>, k: int)
    requires
        0 <= k < vars.len(),
    ensures
        shell_env(vars).len() == others_before(vars, vars.len() as int) + 2,
        others_before(vars, k) <= others_before(vars, vars.len() as int),
        vars[k].0@ != "TERM"@ && vars[k].0@ != "COLORTERM"@ ==> others_before(vars, k)
            < others_before(vars, vars.len() as int) && shell_env(vars)[others_before(
            vars,
            k,
        ) as int] == vstd::utf8::encode_utf8(vars[k].0@) + seq![0x3du8] + vstd::utf8::encode_utf8(
            vars[k].1@,
        ),
{
    law_kept_variables_keep_their_order(vars, k);
    let name = vstd::utf8::encode_utf8(vars[k].0@);
    let value = vstd::utf8::encode_utf8(vars[k].1@);
    assert(name.push(0x3d) + value =~= name + seq![0x3du8] + value);
}

proof fn lemma_others_of_front(vars: Seq<(String, String)>, n: int)
    requires
        0 <= n < vars.len(),
    ensures
        others_before(vars.drop_last(), n) == others_before(vars, n),
    decreases n,
{
    if n > 0 {
        lemma_others_of_front(vars, n - 1);
        assert(vars.drop_last()[n - 1] == vars[n - 1]);
    }
}

/// The inherited part alone: as many entries as there are such variables, each
/// at its place.
pub proof fn law_kept_variables_keep_their_order(vars: Seq<(String, String)>, k: int)
    requires
        0 <= k < vars.len(),
    ensures
        kept_env(vars).len() == others_before(vars, vars.len() as int),
        others_before(vars, k) <= others_before(vars, vars.len() as int),
        vars[k].0@ != "TERM"@ && vars[k].0@ != "COLORTERM"@ ==> others_before(vars, k)
            < others_before(vars, vars.len() as int) && kept_env(vars)[others_before(
            vars,
            k,
        ) as int] == vstd::utf8::encode_utf8(vars[k].0@).push(0x3d) + vstd::utf8::encode_utf8(
            vars[k].1@,
        ),
    decreases vars.len(),
{
    let front = vars.drop_last();
    let n = vars.len() - 1;
    reveal_with_fuel(others_before, 2);
    reveal_with_fuel(kept_env, 2);
    lemma_others_of_front(vars, n);
    lemma_others_of_front(vars, k);
    if front.len() > 0 {
        law_kept_variables_keep_their_order(front, if k < n { k } else { 0 });
    }
    if k < n {
        assert(front[k] == vars[k]);
    }
}

/// An empty environment is inherited as nothing.
pub proof fn law_nothing_is_made_up_in_the_environment(vars: Seq<(String, String)>)
    requires
        vars.len() == 0,
    ensures
        shell_env(vars).len() == 2,
{
}

/// `s` has its first NUL at `p`.
pub open spec fn first_nul_at(s: Seq<u8>, p: int) -> bool {
    0 <= p < s.len() && s[p] == 0 && forall|q: int| 0 <= q < p ==> s[q] != 0
}

proof fn lemma_nul_position(s: Seq<u8>)
    ensures
        match nul_position(s) {
            Some(p) => first_nul_at(s, p),
            None => !s.contains(0),
        },
{
    if s.contains(0) {
        s.index_of_first_ensures(0);
    }
}

/// The first string with a NUL decides, by its first NUL.
proof fn lemma_first_nul(list: Seq<Seq<u8>>)
    ensures
        match first_nul(list) {
            Some(p) => exists|i: int|
                0 <= i < list.len() && first_nul_at(#[trigger] list[i], p) && forall|j: int|
                    0 <= j < i ==> !(#[trigger] list[j]).contains(0),
            None => forall|i: int| 0 <= i < list.len() ==> !(#[trigger] list[i]).contains(0),
        },
    decreases list.len(),
{
    if list.len() > 0 {
        let front = list.drop_last();
        let n = list.len() - 1;
        lemma_first_nul(front);
        lemma_nul_position(list.last());
        match first_nul(front) {
            Some(p) => {
                let i = choose|i: int|
                    0 <= i < front.len() && first_nul_at(#[trigger] front[i], p) && forall|j: int|
                        0 <= j < i ==> !(#[trigger] front[j]).contains(0);
                assert(first_nul_at(list[i], p));
                assert forall|j: int| 0 <= j < i implies !(#[trigger] list[j]).contains(0) by {
                    assert(front[j] == list[j]);
                }
            },
            None => {
                assert forall|j: int| 0 <= j < n implies !(#[trigger] list[j]).contains(0) by {
                    assert(front[j] == list[j]);
                }
                if let Some(p) = nul_position(list.last()) {
                    assert(first_nul_at(list[n], p));
                }
            },
        }
    }
}

/// A shell is refused if and only if there is no program to run, or an
/// argument, a variable or the directory holds a NUL.
pub proof fn law_shell_is_refused_only_for_cause(
    argv: Seq<String>,
    vars: Seq<(String, String)>,
    cwd: Seq<u8>,
)
    ensures
        spawn_refused(argv, vars, cwd) is None <==> {
            &&& argv.len() > 0
            &&& forall|i: int|
                0 <= i < argv.len() ==> !vstd::utf8::encode_utf8((#[trigger] argv[i])@).contains(0)
            &&& forall|i: int|
                0 <= i < shell_env(vars).len() - 2 ==> !(#[trigger] shell_env(vars)[i]).contains(0)
            &&& !cwd.contains(0)
        },
        spawn_refused(argv, vars, cwd) == Some(SpawnError::EmptyArgv) <==> argv.len() == 0,
{
    let args = utf8_all(argv);
    let env = kept_env(vars);
    lemma_first_nul(args);
    lemma_first_nul(env);
    lemma_nul_position(cwd);
    assert forall|i: int| 0 <= i < argv.len() implies args[i] == vstd::utf8::encode_utf8(
        (#[trigger] argv[i])@,
    ) by {}
    assert forall|i: int| 0 <= i < env.len() implies env[i] == #[trigger] shell_env(vars)[i] by {}
    if first_nul(args) is Some {
        let p = first_nul(args)->0;
        let i = choose|i: int|
            0 <= i < args.len() && first_nul_at(#[trigger] args[i], p) && forall|j: int|
                0 <= j < i ==> !(#[trigger] args[j]).contains(0);
        assert(args[i].contains(0));
        assert(vstd::utf8::encode_utf8(argv[i]@).contains(0));
    } else {
        assert forall|i: int| 0 <= i < argv.len() implies !vstd::utf8::encode_utf8(
            (#[trigger] argv[i])@,
        ).contains(0) by {
            assert(!args[i].contains(0));
        }
        if first_nul(env) is Some {
            let p = first_nul(env)->0;
            let i = choose|i: int|
                0 <= i < env.len() && first_nul_at(#[trigger] env[i], p) && forall|j: int|
                    0 <= j < i ==> !(#[trigger] env[j]).contains(0);
            assert(env[i].contains(0));
            assert(shell_env(vars)[i].contains(0));
        } else {
            assert forall|i: int| 0 <= i < shell_env(vars).len() - 2 implies !(
            #[trigger] shell_env(vars)[i]).contains(0) by {
                assert(!env[i].contains(0));
            }
        }
    }
}

/// The error names the position of the first NUL of the first string that
/// holds one: of the arguments, then of the variables, then of the directory.
pub proof fn law_refusal_names_the_first_nul(
    argv: Seq<String>,
    vars: Seq<(String, String)>,
    cwd: Seq<u8>,
    p: usize,
)
    requires
        spawn_refused(argv, vars, cwd) == Some(SpawnError::Nul(p)),
        cwd.len() <= usize::MAX,
        forall|i: int|
            0 <= i < argv.len() ==> vstd::utf8::encode_utf8((#[trigger] argv[i])@).len()
                <= usize::MAX,
        forall|i: int|
            0 <= i < shell_env(vars).len() - 2 ==> (#[trigger] shell_env(vars)[i]).len()
                <= usize::MAX,
    ensures
        ({
            let env = shell_env(vars);
            let n = env.len() - 2;
            if exists|i: int|
                0 <= i < argv.len() && vstd::utf8::encode_utf8((#[trigger] argv[i])@).contains(0) {
                exists|i: int|
                    {
                        &&& 0 <= i < argv.len()
                        &&& first_nul_at(vstd::utf8::encode_utf8((#[trigger] argv[i])@), p as int)
                        &&& forall|j: int|
                            0 <= j < i ==> !vstd::utf8::encode_utf8(
                                (#[trigger] argv[j])@,
                            ).contains(0)
                    }
            } else if exists|i: int| 0 <= i < n && (#[trigger] env[i]).contains(0) {
                exists|i: int|
                    {
                        &&& 0 <= i < n
                        &&& first_nul_at(#[trigger] env[i], p as int)
                        &&& forall|j: int| 0 <= j < i ==> !(#[trigger] env[j]).contains(0)
                    }
            } else {
                first_nul_at(cwd, p as int)
            }
        }),
{
    let args = utf8_all(argv);
    let env = kept_env(vars);
    let whole = shell_env(vars);
    lemma_first_nul(args);
    lemma_first_nul(env);
    lemma_nul_position(cwd);
    assert forall|i: int| 0 <= i < argv.len() implies #[trigger] args[i]
        == vstd::utf8::encode_utf8(argv[i]@) by {}
    assert forall|i: int| 0 <= i < env.len() implies #[trigger] env[i] == whole[i] by {}
    if first_nul(args) is Some {
        let q = first_nul(args)->0;
        let i = choose|i: int|
            0 <= i < args.len() && first_nul_at(#[trigger] args[i], q) && forall|j: int|
                0 <= j < i ==> !(#[trigger] args[j]).contains(0);
        assert(args[i] == vstd::utf8::encode_utf8(argv[i]@));
        assert(q == p);
        assert forall|j: int| 0 <= j < i implies !vstd::utf8::encode_utf8(
            (#[trigger] argv[j])@,
        ).contains(0) by {
            assert(!args[j].contains(0));
        }
        assert(first_nul_at(vstd::utf8::encode_utf8(argv[i]@), p as int));
        assert(vstd::utf8::encode_utf8(argv[i]@).contains(0));
    } else {
        assert forall|i: int| 0 <= i < argv.len() implies !vstd::utf8::encode_utf8(
            (#[trigger] argv[i])@,
        ).contains(0) by {
            assert(!args[i].contains(0));
        }
        if first_nul(env) is Some {
            let q = first_nul(env)->0;
            let i = choose|i: int|
                0 <= i < env.len() && first_nul_at(#[trigger] env[i], q) && forall|j: int|
                    0 <= j < i ==> !(#[trigger] env[j]).contains(0);
            assert(env[i] == whole[i]);
            assert(q == p);
            assert forall|j: int| 0 <= j < i implies !(#[trigger] whole[j]).contains(0) by {
                assert(!env[j].contains(0));
            }
            assert(first_nul_at(whole[i], p as int));
            assert(whole[i].contains(0));
        } else {
            assert forall|i: int| 0 <= i < whole.len() - 2 implies !(
            #[trigger] whole[i]).contains(0) by {
                assert(!env[i].contains(0));
            }
        }
    }
}

/// What a read means: bytes are added and more is read; nothing, or EIO, is
/// the end; EAGAIN ends the drain without the end of file; EINTR reads again;
/// and any other error is handed on. Nothing that was read is lost.
pub proof fn law_each_read_has_its_meaning(d: DrainView, outcome: ReadOutcome, bytes: Seq<u8>)
    ensures
        ({
            let (after, step) = drain_step(d, outcome, bytes);
            &&& after.eof <==> d.eof || outcome is InputOutput || outcome is Bytes && bytes.len()
                == 0
            &&& after.bytes == d.bytes + (if outcome is Bytes {
                bytes
            } else {
                Seq::empty()
            })
            &&& step == DrainStep::More <==> outcome is Interrupted || outcome is Bytes
                && bytes.len() > 0
            &&& step is Failed <==> outcome is Other
            &&& step is Failed ==> step->Failed_0 == outcome->Other_0
        }),
{
    assert(d.bytes + Seq::<u8>::empty() =~= d.bytes);
    if outcome is Bytes && bytes.len() == 0 {
        assert(d.bytes + bytes =~= d.bytes);
    }
}

/// An exit code is reported as it is, and a signal as 128 and its number.
pub proof fn law_exit_codes_are_reported_as_they_are(code: i32, signal: u8)
    ensures
        exit_status(WaitOutcome::Exited(code)) == Some(code),
        exit_status(WaitOutcome::Signaled(signal)) matches Some(status) && status == 128 + signal,
        exit_status(WaitOutcome::NotTerminal) is None,
        exit_status(WaitOutcome::NoChild) is None,
{
}

/// At five milliseconds a try the wait for an exit status takes a second at
/// most.
pub proof fn law_waiting_is_bounded(tries: nat)
    ensures
        tries <= MAX_TRIES <==> tries * 5 <= 1000,
{
}

} // verus!
