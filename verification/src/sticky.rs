//! Visual terminal state that outlives the bytes which set it.

use std::collections::BTreeMap;

use vstd::prelude::*;

use crate::action::groups;
use crate::bytes::{decimal, extend_bytes, push_decimal};
use crate::palette::{colors, colors_after, colors_bytes, osc_colors, push_colors, Color, ColorView};
use crate::rendition::{accumulate, accumulated, item_views, one_sequence, singles};

verus! {

/// Visual terminal state that must be re-asserted to make a chunk
/// self-contained for replay. Updated by the scanner; serialized into each
/// chunk's prologue.
#[derive(Debug, Clone)]
pub struct StickyState {
    /// The SGR sequences that select the current graphic rendition, each as
    /// its parameter groups (empty == default).
    sgr: Vec<Vec<Vec<u16>>>,
    /// DEC private modes that are not at their default (code -> on), and those
    /// that were set. Resetting a mode that is off by default removes its
    /// entry.
    dec_modes: BTreeMap<u16, bool>,
    /// DECSTBM scroll region as the 1-based (top, bottom) CSI params sent.
    scroll_region: Option<(u16, u16)>,
    /// What designates the character sets G0 to G3, behind its `ESC` (empty ==
    /// default).
    g0: Vec<u8>,
    g1: Vec<u8>,
    g2: Vec<u8>,
    g3: Vec<u8>,
    /// Which of G0 to G3 is in use.
    shift: u8,
    /// Last OSC 7 payload (e.g. `file:///home/jfim`), opaque bytes.
    cwd: Option<Vec<u8>>,
    /// Last OSC 0/2 title payload, opaque bytes.
    title: Option<Vec<u8>>,
    /// The colours that were set.
    colors: Vec<Color>,
    /// The payload of the OSC 8 that opened the current hyperlink.
    link: Option<Vec<u8>>,
}

/// What a [`StickyState`] holds.
#[verifier::ext_equal]
pub struct StickyView {
    pub sgr: Seq<Seq<Seq<u16>>>,
    pub dec_modes: Map<u16, bool>,
    pub scroll_region: Option<(u16, u16)>,
    /// The designations of G0 to G3.
    pub charsets: Seq<Seq<u8>>,
    pub shift: u8,
    pub cwd: Option<Seq<u8>>,
    pub title: Option<Seq<u8>>,
    pub colors: Seq<ColorView>,
    pub link: Option<Seq<u8>>,
}

/// `ESC [`.
pub open spec fn csi() -> Seq<u8> {
    seq![0x1bu8, 0x5bu8]
}

/// `ESC [ 0 m`, the reset of all graphic rendition.
pub open spec fn sgr_reset() -> Seq<u8> {
    seq![0x1bu8, 0x5bu8, 0x30u8, 0x6du8]
}

/// The numbers of a group in decimal, with `:` between them.
pub open spec fn colon_joined(group: Seq<u16>) -> Seq<u8>
    decreases group.len(),
{
    if group.len() == 0 {
        Seq::empty()
    } else if group.len() == 1 {
        decimal(group[0] as nat)
    } else {
        colon_joined(group.drop_last()).push(0x3a) + decimal(group.last() as nat)
    }
}

/// The groups, with `;` between them.
pub open spec fn joined(params: Seq<Seq<u16>>) -> Seq<u8>
    decreases params.len(),
{
    if params.len() == 0 {
        Seq::empty()
    } else if params.len() == 1 {
        colon_joined(params[0])
    } else {
        joined(params.drop_last()).push(0x3b) + colon_joined(params.last())
    }
}

/// The DEC private mode is on in a terminal that has just been reset:
/// autowrap and the visible cursor.
pub open spec fn on_by_default(code: u16) -> bool {
    code == 7 || code == 25
}

/// `ESC [ ? code h` or `ESC [ ? code l`, which switches one DEC private mode.
pub open spec fn mode_bytes(code: u16, on: bool) -> Seq<u8> {
    seq![0x1bu8, 0x5bu8, 0x3fu8] + decimal(code as nat).push(
        if on {
            0x68u8
        } else {
            0x6cu8
        },
    )
}

/// The sequences that switch those of `modes` whose code is below `limit`, in
/// ascending order of code.
pub open spec fn modes_bytes(modes: Map<u16, bool>, limit: nat) -> Seq<u8>
    decreases limit,
{
    if limit == 0 {
        Seq::empty()
    } else {
        let code = (limit - 1) as u16;
        modes_bytes(modes, (limit - 1) as nat) + if modes.contains_key(code) {
            mode_bytes(code, modes[code])
        } else {
            Seq::empty()
        }
    }
}

/// The escape sequence with this designation, nothing for the default.
pub open spec fn charset_bytes(designation: Seq<u8>) -> Seq<u8> {
    if designation.len() == 0 {
        Seq::empty()
    } else {
        seq![0x1bu8] + designation
    }
}

/// What brings the given one of G0 to G3 into use, nothing for G0.
pub open spec fn shift_bytes(shift: u8) -> Seq<u8> {
    if shift == 1 {
        seq![0x0eu8]
    } else if shift == 2 {
        seq![0x1bu8, 0x6eu8]
    } else if shift == 3 {
        seq![0x1bu8, 0x6fu8]
    } else {
        Seq::empty()
    }
}

/// The SGR sequences, in order.
pub open spec fn sgr_bytes(sgr: Seq<Seq<Seq<u16>>>) -> Seq<u8>
    decreases sgr.len(),
{
    if sgr.len() == 0 {
        Seq::empty()
    } else {
        sgr_bytes(sgr.drop_last()) + (csi() + joined(sgr.last()).push(0x6d))
    }
}

impl StickyView {
    /// The state of a terminal that has just been reset.
    pub open spec fn cold() -> StickyView {
        StickyView {
            sgr: Seq::empty(),
            dec_modes: Map::empty(),
            scroll_region: None,
            charsets: seq![Seq::empty(), Seq::empty(), Seq::empty(), Seq::empty()],
            shift: 0,
            cwd: None,
            title: None,
            colors: Seq::empty(),
            link: None,
        }
    }

    /// The state after a full reset: cwd and title are not the terminal's.
    pub open spec fn after_reset(self) -> StickyView {
        StickyView { cwd: self.cwd, title: self.title, ..StickyView::cold() }
    }

    /// The state with one DEC private mode switched.
    pub open spec fn with_mode(self, code: u16, on: bool) -> StickyView {
        StickyView {
            dec_modes: if on || on_by_default(code) {
                self.dec_modes.insert(code, on)
            } else {
                self.dec_modes.remove(code)
            },
            ..self
        }
    }

    /// The state with one of G0 to G3 designated.
    pub open spec fn with_charset(self, slot: int, designation: Seq<u8>) -> StickyView {
        StickyView { charsets: self.charsets.update(slot, designation), ..self }
    }

    /// The graphic rendition part of the prologue.
    pub open spec fn sgr_part(self) -> Seq<u8> {
        sgr_bytes(self.sgr)
    }

    /// The DEC private modes part of the prologue.
    pub open spec fn modes_part(self) -> Seq<u8> {
        modes_bytes(self.dec_modes, 0x10000)
    }

    /// The scroll region part of the prologue.
    pub open spec fn region_part(self) -> Seq<u8> {
        match self.scroll_region {
            Some((top, bottom)) => csi() + decimal(top as nat).push(0x3b) + decimal(
                bottom as nat,
            ).push(0x72),
            None => Seq::empty(),
        }
    }

    /// The character set part of the prologue.
    pub open spec fn charset_part(self) -> Seq<u8> {
        charset_bytes(self.charsets[0]) + charset_bytes(self.charsets[1]) + charset_bytes(
            self.charsets[2],
        ) + charset_bytes(self.charsets[3]) + shift_bytes(self.shift)
    }

    /// The working directory part of the prologue: `ESC ] 7 ; cwd BEL`.
    pub open spec fn cwd_part(self) -> Seq<u8> {
        match self.cwd {
            Some(cwd) => seq![0x1bu8, 0x5du8, 0x37u8, 0x3bu8] + cwd.push(0x07),
            None => Seq::empty(),
        }
    }

    /// The title part of the prologue: `ESC ] 2 ; title BEL`.
    pub open spec fn title_part(self) -> Seq<u8> {
        match self.title {
            Some(title) => seq![0x1bu8, 0x5du8, 0x32u8, 0x3bu8] + title.push(0x07),
            None => Seq::empty(),
        }
    }

    /// The colour part of the prologue.
    pub open spec fn colors_part(self) -> Seq<u8> {
        colors_bytes(self.colors)
    }

    /// The hyperlink part of the prologue: `ESC ] 8 ; link BEL`.
    pub open spec fn link_part(self) -> Seq<u8> {
        match self.link {
            Some(link) => seq![0x1bu8, 0x5du8, 0x38u8, 0x3bu8] + link.push(0x07),
            None => Seq::empty(),
        }
    }

    /// The bytes that re-establish this state from a cold terminal.
    pub open spec fn prologue(self) -> Seq<u8> {
        sgr_reset() + self.sgr_part() + self.modes_part() + self.region_part()
            + self.charset_part() + self.cwd_part() + self.title_part() + self.colors_part()
            + self.link_part()
    }
}

/// Codes that are not among `modes` add nothing.
proof fn lemma_modes_gap(modes: Map<u16, bool>, low: nat, high: nat)
    requires
        low <= high <= 0x10000,
        forall|c: u16| low <= c < high ==> !modes.contains_key(c),
    ensures
        modes_bytes(modes, high) == modes_bytes(modes, low),
    decreases high,
{
    if low < high {
        lemma_modes_gap(modes, low, (high - 1) as nat);
        assert(modes_bytes(modes, high) =~= modes_bytes(modes, (high - 1) as nat));
    }
}

impl View for StickyState {
    type V = StickyView;

    closed spec fn view(&self) -> StickyView {
        StickyView {
            sgr: item_views(self.sgr@),
            dec_modes: self.dec_modes@,
            scroll_region: self.scroll_region,
            charsets: seq![self.g0@, self.g1@, self.g2@, self.g3@],
            shift: self.shift,
            cwd: match self.cwd {
                Some(v) => Some(v@),
                None => None,
            },
            title: match self.title {
                Some(v) => Some(v@),
                None => None,
            },
            colors: colors(self.colors@),
            link: match self.link {
                Some(v) => Some(v@),
                None => None,
            },
        }
    }
}

impl StickyState {
    pub fn new() -> (s: Self)
        ensures
            s@ == StickyView::cold(),
    {
        let s = Self {
            sgr: Vec::new(),
            dec_modes: BTreeMap::new(),
            scroll_region: None,
            g0: Vec::new(),
            g1: Vec::new(),
            g2: Vec::new(),
            g3: Vec::new(),
            shift: 0,
            cwd: None,
            title: None,
            colors: Vec::new(),
            link: None,
        };
        assert(s@.colors =~= Seq::empty());
        assert(s@.dec_modes =~= Map::empty());
        assert(s@.sgr =~= Seq::empty());
        assert(s@ =~~= StickyView::cold());
        s
    }

    /// Replaces the graphic rendition parameters.
    pub fn set_sgr(&mut self, params: &[u16])
        ensures
            final(self)@ == (StickyView { sgr: one_sequence(singles(params@)), ..old(self)@ }),
    {
        let mut sgr: Vec<Vec<u16>> = Vec::new();
        let mut i: usize = 0;
        while i < params.len()
            invariant
                i <= params@.len(),
                groups(sgr@) =~= singles(params@).take(i as int),
            decreases params@.len() - i,
        {
            let mut group: Vec<u16> = Vec::new();
            group.push(params[i]);
            let ghost before = groups(sgr@);
            assert(group@ =~= seq![params@[i as int]]);
            sgr.push(group);
            assert(groups(sgr@) =~= before.push(seq![params@[i as int]]));
            i = i + 1;
        }
        let mut list: Vec<Vec<Vec<u16>>> = Vec::new();
        assert(groups(sgr@) =~= singles(params@));
        if sgr.len() > 0 {
            list.push(sgr);
        }
        self.sgr = list;
        assert(self@.sgr =~= one_sequence(singles(params@)));
    }

    /// Takes in the groups of an SGR sequence: they change the rendition that
    /// is in force.
    pub fn apply_sgr(&mut self, params: &Vec<Vec<u16>>)
        ensures
            final(self)@ == (StickyView {
                sgr: accumulated(old(self)@.sgr, groups(params@)),
                ..old(self)@
            }),
    {
        self.sgr = accumulate(&self.sgr, params);
    }

    /// Designates one of the character sets G0 to G3.
    pub fn set_charset(&mut self, slot: u8, designation: Vec<u8>)
        requires
            slot < 4,
        ensures
            final(self)@ == old(self)@.with_charset(slot as int, designation@),
    {
        if slot == 0 {
            self.g0 = designation;
        } else if slot == 1 {
            self.g1 = designation;
        } else if slot == 2 {
            self.g2 = designation;
        } else {
            self.g3 = designation;
        }
        assert(self@.charsets =~= old(self)@.with_charset(slot as int, designation@).charsets);
    }

    /// Brings one of the character sets G0 to G3 into use.
    pub fn set_shift(&mut self, shift: u8)
        ensures
            final(self)@ == (StickyView { shift, ..old(self)@ }),
    {
        self.shift = shift;
    }

    /// Takes in a full reset of the terminal.
    pub fn reset(&mut self)
        ensures
            final(self)@ == old(self)@.after_reset(),
    {
        let cold = StickyState::new();
        self.sgr = cold.sgr;
        self.dec_modes = cold.dec_modes;
        self.scroll_region = None;
        self.g0 = cold.g0;
        self.g1 = cold.g1;
        self.g2 = cold.g2;
        self.g3 = cold.g3;
        self.shift = 0;
        self.colors = cold.colors;
        self.link = None;
        assert(self@ =~= old(self)@.after_reset());
    }

    /// Sets or resets one DEC private mode. A mode that is on by default is
    /// remembered when it is off.
    pub fn set_dec_mode(&mut self, code: u16, on: bool)
        ensures
            final(self)@ == old(self)@.with_mode(code, on),
    {
        broadcast use vstd::laws_cmp::group_laws_cmp;
        broadcast use vstd::std_specs::btree::group_btree_axioms;

        if on || code == 7 || code == 25 {
            self.dec_modes.insert(code, on);
        } else {
            self.dec_modes.remove(&code);
        }
        assert(self@.dec_modes =~= old(self)@.with_mode(code, on).dec_modes);
    }

    pub fn set_scroll_region(&mut self, region: Option<(u16, u16)>)
        ensures
            final(self)@ == (StickyView { scroll_region: region, ..old(self)@ }),
    {
        self.scroll_region = region;
    }

    pub fn set_cwd(&mut self, cwd: Vec<u8>)
        ensures
            final(self)@ == (StickyView { cwd: Some(cwd@), ..old(self)@ }),
    {
        self.cwd = Some(cwd);
    }

    pub fn set_title(&mut self, title: Vec<u8>)
        ensures
            final(self)@ == (StickyView { title: Some(title@), ..old(self)@ }),
    {
        self.title = Some(title);
    }

    /// Takes in an OSC that sets or resets colours.
    pub fn apply_colors(&mut self, params: &Vec<Vec<u8>>)
        ensures
            final(self)@ == (StickyView {
                colors: osc_colors(old(self)@.colors, crate::action::strings(params@)),
                ..old(self)@
            }),
    {
        self.colors = colors_after(&self.colors, params);
    }

    /// Opens a hyperlink, or closes it.
    pub fn set_link(&mut self, link: Option<Vec<u8>>)
        ensures
            final(self)@ == (StickyView {
                link: match link {
                    Some(v) => Some(v@),
                    None => None,
                },
                ..old(self)@
            }),
    {
        self.link = link;
    }

    /// Emit a byte string that re-establishes this state from a cold terminal.
    /// Always begins with a full SGR reset so the chunk is self-contained.
    pub fn serialize(&self) -> (out: Vec<u8>)
        ensures
            out@ == self@.prologue(),
    {
        let mut out: Vec<u8> = Vec::new();
        extend_bytes(&mut out, &[0x1b, 0x5b, 0x30, 0x6d]);
        assert(out@ =~= sgr_reset());
        self.push_sgr(&mut out);
        self.push_modes(&mut out);
        self.push_region(&mut out);
        self.push_charsets(&mut out);
        push_osc(&mut out, 0x37, &self.cwd);
        push_osc(&mut out, 0x32, &self.title);
        push_colors(&mut out, &self.colors);
        push_osc(&mut out, 0x38, &self.link);
        out
    }

    fn push_sgr(&self, out: &mut Vec<u8>)
        ensures
            final(out)@ == old(out)@ + self@.sgr_part(),
    {
        let ghost all = item_views(self.sgr@);
        let mut i: usize = 0;
        assert(all.take(0) =~= Seq::empty());
        while i < self.sgr.len()
            invariant
                i <= self.sgr@.len(),
                all == item_views(self.sgr@),
                out@ =~= old(out)@ + sgr_bytes(all.take(i as int)),
            decreases self.sgr@.len() - i,
        {
            assert(all.take(i + 1).drop_last() =~= all.take(i as int));
            assert(all.take(i + 1).last() == groups(self.sgr@[i as int]@));
            push_sequence(out, &self.sgr[i]);
            i = i + 1;
        }
        assert(all.take(self.sgr@.len() as int) =~= all);
    }

    fn push_charsets(&self, out: &mut Vec<u8>)
        ensures
            final(out)@ == old(out)@ + self@.charset_part(),
    {
        push_charset(out, &self.g0);
        push_charset(out, &self.g1);
        push_charset(out, &self.g2);
        push_charset(out, &self.g3);
        push_shift(out, self.shift);
        proof {
            lemma_add_five(
                old(out)@,
                charset_bytes(self.g0@),
                charset_bytes(self.g1@),
                charset_bytes(self.g2@),
                charset_bytes(self.g3@),
                shift_bytes(self.shift),
            );
        }
    }

    fn push_region(&self, out: &mut Vec<u8>)
        ensures
            final(out)@ == old(out)@ + self@.region_part(),
    {
        match self.scroll_region {
            Some((top, bottom)) => {
                extend_bytes(out, &[0x1b, 0x5b]);
                push_decimal(out, top as u32);
                out.push(0x3b);
                push_decimal(out, bottom as u32);
                out.push(0x72);
            },
            None => {},
        }
        assert(out@ =~= old(out)@ + self@.region_part());
    }
}

/// Appends an SGR sequence to `out`.
fn push_sequence(out: &mut Vec<u8>, params: &Vec<Vec<u16>>)
    ensures
        final(out)@ == old(out)@ + (csi() + joined(groups(params@)).push(0x6d)),
{
    extend_bytes(out, &[0x1b, 0x5b]);
    let ghost all = groups(params@);
    let mut i: usize = 0;
    assert(all.take(0) =~= Seq::empty());
    while i < params.len()
        invariant
            i <= params@.len(),
            all == groups(params@),
            out@ =~= old(out)@ + csi() + joined(all.take(i as int)),
        decreases params@.len() - i,
    {
        let ghost before = all.take(i as int);
        let ghost after = all.take(i + 1);
        assert(after.drop_last() =~= before);
        assert(after.last() == params@[i as int]@);
        if i > 0 {
            out.push(0x3b);
        }
        push_group(out, &params[i]);
        i = i + 1;
    }
    assert(all.take(params@.len() as int) =~= all);
    out.push(0x6d);
    assert(out@ =~= old(out)@ + (csi() + joined(all).push(0x6d)));
}

/// Appends the numbers of a group to `out`, with `:` between them.
fn push_group(out: &mut Vec<u8>, group: &Vec<u16>)
    ensures
        final(out)@ == old(out)@ + colon_joined(group@),
{
    let mut i: usize = 0;
    while i < group.len()
        invariant
            i <= group@.len(),
            out@ =~= old(out)@ + colon_joined(group@.take(i as int)),
        decreases group@.len() - i,
    {
        assert(group@.take(i + 1).drop_last() =~= group@.take(i as int));
        if i > 0 {
            out.push(0x3a);
        }
        push_decimal(out, group[i] as u32);
        i = i + 1;
    }
    assert(group@.take(group@.len() as int) =~= group@);
}

/// Appends the escape sequence with this designation to `out`, nothing for
/// the default.
fn push_charset(out: &mut Vec<u8>, designation: &Vec<u8>)
    ensures
        final(out)@ == old(out)@ + charset_bytes(designation@),
{
    if designation.len() > 0 {
        out.push(0x1b);
        extend_bytes(out, designation.as_slice());
    }
    assert(out@ =~= old(out)@ + charset_bytes(designation@));
}

/// Appends to `out` what brings the given one of G0 to G3 into use.
fn push_shift(out: &mut Vec<u8>, shift: u8)
    ensures
        final(out)@ == old(out)@ + shift_bytes(shift),
{
    if shift == 1 {
        out.push(0x0e);
    } else if shift == 2 {
        extend_bytes(out, &[0x1b, 0x6e]);
    } else if shift == 3 {
        extend_bytes(out, &[0x1b, 0x6f]);
    }
    assert(out@ =~= old(out)@ + shift_bytes(shift));
}

proof fn lemma_add_five(
    s: Seq<u8>,
    a: Seq<u8>,
    b: Seq<u8>,
    c: Seq<u8>,
    d: Seq<u8>,
    e: Seq<u8>,
)
    ensures
        s + a + b + c + d + e == s + (a + b + c + d + e),
{
    assert(s + a + b + c + d + e =~= s + (a + b + c + d + e));
}

/// Appends `ESC ] code ; payload BEL` to `out`, or nothing if there is no
/// payload.
fn push_osc(out: &mut Vec<u8>, code: u8, payload: &Option<Vec<u8>>)
    ensures
        final(out)@ == old(out)@ + match payload {
            Some(p) => seq![0x1bu8, 0x5du8, code, 0x3bu8] + p@.push(0x07),
            None => Seq::empty(),
        },
{
    match payload {
        Some(p) => {
            extend_bytes(out, &[0x1b, 0x5d, code, 0x3b]);
            extend_bytes(out, p.as_slice());
            out.push(0x07);
            assert(out@ =~= old(out)@ + (seq![0x1bu8, 0x5du8, code, 0x3bu8] + p@.push(0x07)));
        },
        None => {
            assert(out@ =~= old(out)@ + Seq::<u8>::empty());
        },
    }
}

impl StickyState {
    /// The codes of the DEC private modes that are remembered, in ascending
    /// order.
    fn mode_codes(&self) -> (codes: Vec<u16>)
        ensures
            codes@.to_set() == self@.dec_modes.dom(),
            forall|i: int, j: int| 0 <= i < j < codes@.len() ==> codes@[i] < codes@[j],
    {
        broadcast use vstd::laws_cmp::group_laws_cmp;
        broadcast use vstd::std_specs::btree::group_btree_axioms;

        let ghost keys: Seq<&u16> = vstd::std_specs::iter::IteratorSpec::remaining(
            &vstd::std_specs::btree::spec_keys_iter(&self.dec_modes),
        );
        let mut codes: Vec<u16> = Vec::new();
        for code in it: self.dec_modes.keys()
            invariant
                it.seq() == keys,
                codes@ =~= keys.take(it.index()).unref(),
        {
            codes.push(*code);
        }
        assert(codes@ =~= keys.unref());
        assert forall|i: int, j: int| 0 <= i < j < codes@.len() implies codes@[i] < codes@[j] by {
            assert(vstd::std_specs::btree::increasing_seq(keys));
            assert(vstd::laws_cmp::obeys_cmp::<&u16>());
            assert(vstd::std_specs::cmp::OrdSpec::cmp_spec(&keys[i], &keys[j]) is Less);
            assert(vstd::std_specs::cmp::OrdSpec::cmp_spec(keys[i], keys[j]) is Less);
        }
        codes
    }

    /// Whether a DEC private mode that is remembered is on.
    fn mode_is_on(&self, code: u16) -> (on: bool)
        requires
            self@.dec_modes.contains_key(code),
        ensures
            on == self@.dec_modes[code],
    {
        broadcast use vstd::laws_cmp::group_laws_cmp;
        broadcast use vstd::std_specs::btree::group_btree_axioms;

        match self.dec_modes.get(&code) {
            Some(on) => *on,
            None => false,
        }
    }

    fn push_modes(&self, out: &mut Vec<u8>)
        ensures
            final(out)@ == old(out)@ + self@.modes_part(),
    {
        let codes = self.mode_codes();
        let ghost modes = self@.dec_modes;
        let ghost mut limit: nat = 0;
        let mut i: usize = 0;
        while i < codes.len()
            invariant
                i <= codes@.len(),
                codes@.to_set() == modes.dom(),
                modes == self@.dec_modes,
                forall|a: int, b: int| 0 <= a < b < codes@.len() ==> codes@[a] < codes@[b],
                i == 0 ==> limit == 0,
                i > 0 ==> limit == codes@[i - 1] + 1,
                out@ =~= old(out)@ + modes_bytes(modes, limit),
            decreases codes@.len() - i,
        {
            let code = codes[i];
            proof {
                assert forall|c: u16| limit <= c < code implies !modes.contains_key(c) by {
                    if modes.contains_key(c) {
                        assert(codes@.contains(c));
                        let k = codes@.index_of(c);
                        assert(codes@[k] == c);
                    }
                }
                lemma_modes_gap(modes, limit, code as nat);
                assert(codes@.contains(code));
                limit = (code + 1) as nat;
            }
            extend_bytes(out, &[0x1b, 0x5b, 0x3f]);
            push_decimal(out, code as u32);
            out.push(if self.mode_is_on(code) { 0x68 } else { 0x6c });
            i = i + 1;
        }
        proof {
            assert forall|c: u16| limit <= c < 0x10000 implies !modes.contains_key(c) by {
                if modes.contains_key(c) {
                    assert(codes@.contains(c));
                    let k = codes@.index_of(c);
                    assert(codes@[k] == c);
                }
            }
            lemma_modes_gap(modes, limit, 0x10000);
        }
    }
}

impl Default for StickyState {
    fn default() -> (s: Self)
        ensures
            s@ == StickyView::cold(),
    {
        Self::new()
    }
}

/// Resetting a mode that is off by default undoes setting it.
pub proof fn law_reset_undoes_set(v: StickyView, code: u16)
    requires
        !v.dec_modes.contains_key(code),
        !on_by_default(code),
    ensures
        v.with_mode(code, true).with_mode(code, false) == v,
        v.with_mode(code, true).with_mode(code, false).prologue() == v.prologue(),
{
    assert(v.with_mode(code, true).with_mode(code, false) =~= v);
}

/// Every mode that is remembered is switched by the prologue, to what it was
/// last: also one that is on by default and was switched off.
pub proof fn law_prologue_switches_every_mode(v: StickyView, code: u16)
    requires
        v.dec_modes.contains_key(code),
    ensures
        exists|a: Seq<u8>, b: Seq<u8>| v.prologue() == #[trigger] around(
            a,
            mode_bytes(code, v.dec_modes[code]),
            b,
        ),
{
    let part = mode_bytes(code, v.dec_modes[code]);
    let (a, b) = lemma_modes_hold(v.dec_modes, code, 0x10000);
    let front = sgr_reset() + v.sgr_part();
    let tail = v.region_part() + v.charset_part() + v.cwd_part() + v.title_part()
        + v.colors_part() + v.link_part();
    lemma_tail_of_six(
        front + v.modes_part(),
        v.region_part(),
        v.charset_part(),
        v.cwd_part(),
        v.title_part(),
        v.colors_part(),
        v.link_part(),
    );
    lemma_around(front, a, part, b, tail);
    assert(v.prologue() == around(front + a, part, b + tail));
}

proof fn lemma_tail_of_six(
    s: Seq<u8>,
    a: Seq<u8>,
    b: Seq<u8>,
    c: Seq<u8>,
    d: Seq<u8>,
    e: Seq<u8>,
    f: Seq<u8>,
)
    ensures
        s + a + b + c + d + e + f == s + (a + b + c + d + e + f),
{
    assert(s + a + b + c + d + e + f =~= s + (a + b + c + d + e + f));
}

proof fn lemma_around(front: Seq<u8>, a: Seq<u8>, part: Seq<u8>, b: Seq<u8>, tail: Seq<u8>)
    ensures
        front + around(a, part, b) + tail == around(front + a, part, b + tail),
{
    assert(front + around(a, part, b) + tail =~= around(front + a, part, b + tail));
}

/// `part` with `a` before and `b` behind it.
pub open spec fn around(a: Seq<u8>, part: Seq<u8>, b: Seq<u8>) -> Seq<u8> {
    a + part + b
}

proof fn lemma_modes_hold(modes: Map<u16, bool>, code: u16, limit: nat) -> (r: (
    Seq<u8>,
    Seq<u8>,
))
    requires
        modes.contains_key(code),
        code < limit <= 0x10000,
    ensures
        modes_bytes(modes, limit) == around(r.0, mode_bytes(code, modes[code]), r.1),
    decreases limit,
{
    let last = (limit - 1) as u16;
    let part = mode_bytes(code, modes[code]);
    let before = modes_bytes(modes, (limit - 1) as nat);
    if code == last {
        assert(modes_bytes(modes, limit) =~= around(before, part, Seq::empty()));
        (before, Seq::empty())
    } else {
        let (a, b) = lemma_modes_hold(modes, code, (limit - 1) as nat);
        let more = if modes.contains_key(last) {
            mode_bytes(last, modes[last])
        } else {
            Seq::empty()
        };
        assert(modes_bytes(modes, limit) =~= around(a, part, b + more));
        (a, b + more)
    }
}

/// A mode that is on by default is remembered when it is switched off.
pub proof fn law_modes_switched_off_are_remembered(v: StickyView, code: u16)
    requires
        on_by_default(code),
    ensures
        v.with_mode(code, false).dec_modes.contains_key(code),
        !v.with_mode(code, false).dec_modes[code],
{
}

/// The order in which modes are set does not matter.
pub proof fn law_modes_commute(v: StickyView, a: u16, on_a: bool, b: u16, on_b: bool)
    requires
        a != b,
    ensures
        v.with_mode(a, on_a).with_mode(b, on_b) == v.with_mode(b, on_b).with_mode(a, on_a),
{
    assert(v.with_mode(a, on_a).with_mode(b, on_b) =~= v.with_mode(b, on_b).with_mode(a, on_a));
}

// ---------------------------------------------------------------------
// The bytes of a prologue
// ---------------------------------------------------------------------
/// Every prologue begins with a reset of the rendition, and that of a terminal
/// that was just reset is nothing else.
pub proof fn law_prologue_begins_with_a_reset(v: StickyView)
    ensures
        v.prologue().len() >= 4,
        v.prologue().take(4) == seq![0x1bu8, 0x5bu8, 0x30u8, 0x6du8],
        StickyView::cold().prologue() == seq![0x1bu8, 0x5bu8, 0x30u8, 0x6du8],
{
    lemma_reset_in_front(
        v.sgr_part(),
        v.modes_part(),
        v.region_part(),
        v.charset_part(),
        v.cwd_part(),
        v.title_part(),
        v.colors_part(),
        v.link_part(),
    );
    lemma_cold_parts();
    let none = Seq::<u8>::empty();
    lemma_only(none, none, none, none, none, none, none, none);
    assert(sgr_reset() + none =~= sgr_reset());
}

proof fn lemma_reset_in_front(
    a: Seq<u8>,
    b: Seq<u8>,
    c: Seq<u8>,
    d: Seq<u8>,
    e: Seq<u8>,
    f: Seq<u8>,
    g: Seq<u8>,
    h: Seq<u8>,
)
    ensures
        ({
            let all = sgr_reset() + a + b + c + d + e + f + g + h;
            all.len() >= 4 && all.take(4) == sgr_reset()
        }),
{
    let all = sgr_reset() + a + b + c + d + e + f + g + h;
    assert(all.take(4) =~= sgr_reset());
}

/// At most one of the parts is there.
proof fn lemma_only(
    a: Seq<u8>,
    b: Seq<u8>,
    c: Seq<u8>,
    d: Seq<u8>,
    e: Seq<u8>,
    f: Seq<u8>,
    g: Seq<u8>,
    h: Seq<u8>,
)
    ensures
        ({
            let all = sgr_reset() + a + b + c + d + e + f + g + h;
            let n = all.len() - 4;
            &&& a.len() == n ==> all == sgr_reset() + a
            &&& b.len() == n ==> all == sgr_reset() + b
            &&& c.len() == n ==> all == sgr_reset() + c
            &&& d.len() == n ==> all == sgr_reset() + d
            &&& e.len() == n ==> all == sgr_reset() + e
            &&& f.len() == n ==> all == sgr_reset() + f
            &&& g.len() == n ==> all == sgr_reset() + g
            &&& h.len() == n ==> all == sgr_reset() + h
        }),
{
    let all = sgr_reset() + a + b + c + d + e + f + g + h;
    let n = all.len() - 4;
    if a.len() == n {
        assert(all =~= sgr_reset() + a);
    }
    if b.len() == n {
        assert(all =~= sgr_reset() + b);
    }
    if c.len() == n {
        assert(all =~= sgr_reset() + c);
    }
    if d.len() == n {
        assert(all =~= sgr_reset() + d);
    }
    if e.len() == n {
        assert(all =~= sgr_reset() + e);
    }
    if f.len() == n {
        assert(all =~= sgr_reset() + f);
    }
    if g.len() == n {
        assert(all =~= sgr_reset() + g);
    }
    if h.len() == n {
        assert(all =~= sgr_reset() + h);
    }
}

proof fn lemma_cold_parts()
    ensures
        StickyView::cold().sgr_part() == Seq::<u8>::empty(),
        StickyView::cold().modes_part() == Seq::<u8>::empty(),
        StickyView::cold().region_part() == Seq::<u8>::empty(),
        StickyView::cold().charset_part() == Seq::<u8>::empty(),
        StickyView::cold().cwd_part() == Seq::<u8>::empty(),
        StickyView::cold().title_part() == Seq::<u8>::empty(),
        StickyView::cold().colors_part() == Seq::<u8>::empty(),
        StickyView::cold().link_part() == Seq::<u8>::empty(),
{
    lemma_modes_gap(Map::empty(), 0, 0x10000);
    assert(StickyView::cold().charset_part() =~= Seq::<u8>::empty());
}

/// The bytes by which each part of the state is restored, where nothing else
/// is set: the title by `ESC ] 2`, the working directory by `ESC ] 7`, an open
/// hyperlink by `ESC ] 8`, and the scroll region by `ESC [ top ; bottom r`.
pub proof fn law_prologue_of_texts_and_region(text: Seq<u8>, top: u16, bottom: u16)
    ensures
        ({
            let cold = StickyView::cold();
            let reset = seq![0x1bu8, 0x5bu8, 0x30u8, 0x6du8];
            &&& (StickyView { title: Some(text), ..cold }).prologue() == reset + (seq![
                0x1bu8,
                0x5du8,
                0x32u8,
                0x3bu8,
            ] + text + seq![0x07u8])
            &&& (StickyView { cwd: Some(text), ..cold }).prologue() == reset + (seq![
                0x1bu8,
                0x5du8,
                0x37u8,
                0x3bu8,
            ] + text + seq![0x07u8])
            &&& (StickyView { link: Some(text), ..cold }).prologue() == reset + (seq![
                0x1bu8,
                0x5du8,
                0x38u8,
                0x3bu8,
            ] + text + seq![0x07u8])
            &&& (StickyView { scroll_region: Some((top, bottom)), ..cold }).prologue() == reset + (
            seq![0x1bu8, 0x5bu8] + decimal(top as nat) + seq![0x3bu8] + decimal(bottom as nat)
                + seq![0x72u8])
        }),
{
    lemma_cold_parts();
    let cold = StickyView::cold();
    let none = Seq::<u8>::empty();
    let t = StickyView { title: Some(text), ..cold };
    assert(t.title_part() =~= seq![0x1bu8, 0x5du8, 0x32u8, 0x3bu8] + text + seq![0x07u8]);
    lemma_only(none, none, none, none, none, t.title_part(), none, none);
    let c = StickyView { cwd: Some(text), ..cold };
    assert(c.cwd_part() =~= seq![0x1bu8, 0x5du8, 0x37u8, 0x3bu8] + text + seq![0x07u8]);
    lemma_only(none, none, none, none, c.cwd_part(), none, none, none);
    let l = StickyView { link: Some(text), ..cold };
    assert(l.link_part() =~= seq![0x1bu8, 0x5du8, 0x38u8, 0x3bu8] + text + seq![0x07u8]);
    lemma_only(none, none, none, none, none, none, none, l.link_part());
    let r = StickyView { scroll_region: Some((top, bottom)), ..cold };
    assert(r.region_part() =~= seq![0x1bu8, 0x5bu8] + decimal(top as nat) + seq![0x3bu8] + decimal(
        bottom as nat,
    ) + seq![0x72u8]);
    lemma_only(none, none, r.region_part(), none, none, none, none, none);
}

/// The same of a mode, `ESC [ ? code h` or `l`, of a character set, `ESC` and
/// its designation, and of the set in use, SO, `ESC n` or `ESC o`.
pub proof fn law_prologue_of_modes_and_charsets(code: u16, on: bool, slot: int, text: Seq<u8>)
    requires
        0 <= slot < 4,
        text.len() > 0,
    ensures
        ({
            let cold = StickyView::cold();
            let reset = seq![0x1bu8, 0x5bu8, 0x30u8, 0x6du8];
            &&& (StickyView {
                dec_modes: Map::<u16, bool>::empty().insert(code, on),
                ..cold
            }).prologue() == reset + (seq![0x1bu8, 0x5bu8, 0x3fu8] + decimal(code as nat) + seq![
                if on {
                    0x68u8
                } else {
                    0x6cu8
                },
            ])
            &&& (StickyView { charsets: cold.charsets.update(slot, text), ..cold }).prologue()
                == reset + (seq![0x1bu8] + text)
            &&& (StickyView { shift: 1, ..cold }).prologue() == reset + seq![0x0eu8]
            &&& (StickyView { shift: 2, ..cold }).prologue() == reset + seq![0x1bu8, 0x6eu8]
            &&& (StickyView { shift: 3, ..cold }).prologue() == reset + seq![0x1bu8, 0x6fu8]
        }),
{
    lemma_cold_parts();
    let cold = StickyView::cold();
    let none = Seq::<u8>::empty();
    let modes = Map::<u16, bool>::empty().insert(code, on);
    let m = StickyView { dec_modes: modes, ..cold };
    lemma_modes_gap(modes, 0, code as nat);
    lemma_modes_gap(modes, (code + 1) as nat, 0x10000);
    assert(modes_bytes(modes, 0) =~= none);
    assert(m.modes_part() =~= mode_bytes(code, on));
    assert(mode_bytes(code, on) =~= seq![0x1bu8, 0x5bu8, 0x3fu8] + decimal(code as nat) + seq![
        if on {
            0x68u8
        } else {
            0x6cu8
        },
    ]);
    lemma_only(none, m.modes_part(), none, none, none, none, none, none);
    let c = StickyView { charsets: cold.charsets.update(slot, text), ..cold };
    assert(c.charset_part() =~= seq![0x1bu8] + text);
    lemma_only(none, none, none, c.charset_part(), none, none, none, none);
    let one = StickyView { shift: 1, ..cold };
    assert(one.charset_part() =~= seq![0x0eu8]);
    lemma_only(none, none, none, one.charset_part(), none, none, none, none);
    let two = StickyView { shift: 2, ..cold };
    assert(two.charset_part() =~= seq![0x1bu8, 0x6eu8]);
    lemma_only(none, none, none, two.charset_part(), none, none, none, none);
    let three = StickyView { shift: 3, ..cold };
    assert(three.charset_part() =~= seq![0x1bu8, 0x6fu8]);
    lemma_only(none, none, none, three.charset_part(), none, none, none, none);
}

/// An SGR sequence is written out as `ESC [`, its groups with `;` between them
/// and the numbers of each with `:` between them, and `m`: one more group or
/// number is one more separator and its digits.
pub proof fn law_renditions_are_written_out(
    sgr: Seq<Seq<Seq<u16>>>,
    params: Seq<Seq<u16>>,
    group: Seq<u16>,
    n: u16,
)
    ensures
        sgr_bytes(Seq::empty()).len() == 0,
        sgr_bytes(sgr.push(params)) == sgr_bytes(sgr) + (seq![0x1bu8, 0x5bu8] + joined(params)
            + seq![0x6du8]),
        joined(seq![group]) == colon_joined(group),
        params.len() > 0 ==> joined(params.push(group)) == joined(params) + seq![0x3bu8]
            + colon_joined(group),
        colon_joined(seq![n]) == decimal(n as nat),
        group.len() > 0 ==> colon_joined(group.push(n)) == colon_joined(group) + seq![0x3au8]
            + decimal(n as nat),
{
    assert(sgr.push(params).drop_last() =~= sgr);
    assert(csi() + joined(params).push(0x6d) =~= seq![0x1bu8, 0x5bu8] + joined(params)
        + seq![0x6du8]);
    assert(params.push(group).drop_last() =~= params);
    assert(group.push(n).drop_last() =~= group);
    assert(joined(params).push(0x3b) + colon_joined(group) =~= joined(params) + seq![0x3bu8]
        + colon_joined(group));
    assert(colon_joined(group).push(0x3a) + decimal(n as nat) =~= colon_joined(group)
        + seq![0x3au8] + decimal(n as nat));
}

/// Modes are switched in ascending order of their codes.
pub proof fn law_modes_are_switched_in_order(a: u16, on_a: bool, b: u16, on_b: bool)
    requires
        a < b,
    ensures
        ({
            let cold = StickyView::cold();
            let none = Map::<u16, bool>::empty();
            let first = StickyView { dec_modes: none.insert(a, on_a), ..cold };
            let second = StickyView { dec_modes: none.insert(b, on_b), ..cold };
            let both = StickyView { dec_modes: none.insert(a, on_a).insert(b, on_b), ..cold };
            both.prologue() == first.prologue() + second.prologue().skip(4)
        }),
{
    let cold = StickyView::cold();
    let none = Map::<u16, bool>::empty();
    let empty = Seq::<u8>::empty();
    let first = StickyView { dec_modes: none.insert(a, on_a), ..cold };
    let second = StickyView { dec_modes: none.insert(b, on_b), ..cold };
    let modes = none.insert(a, on_a).insert(b, on_b);
    let both = StickyView { dec_modes: modes, ..cold };
    lemma_cold_parts();
    lemma_modes_gap(first.dec_modes, 0, a as nat);
    lemma_modes_gap(first.dec_modes, (a + 1) as nat, 0x10000);
    lemma_modes_gap(second.dec_modes, 0, b as nat);
    lemma_modes_gap(second.dec_modes, (b + 1) as nat, 0x10000);
    lemma_modes_gap(modes, 0, a as nat);
    lemma_modes_gap(modes, (a + 1) as nat, b as nat);
    lemma_modes_gap(modes, (b + 1) as nat, 0x10000);
    assert(first.modes_part() =~= mode_bytes(a, on_a));
    assert(second.modes_part() =~= mode_bytes(b, on_b));
    assert(modes_bytes(modes, (a + 1) as nat) =~= mode_bytes(a, on_a));
    assert(both.modes_part() =~= mode_bytes(a, on_a) + mode_bytes(b, on_b));
    lemma_only(empty, first.modes_part(), empty, empty, empty, empty, empty, empty);
    lemma_only(empty, second.modes_part(), empty, empty, empty, empty, empty, empty);
    lemma_only(empty, both.modes_part(), empty, empty, empty, empty, empty, empty);
    assert(second.prologue().skip(4) =~= second.modes_part());
    assert(sgr_reset() + (first.modes_part() + second.modes_part()) =~= sgr_reset()
        + first.modes_part() + second.modes_part());
}

/// A prologue is the reset and what restores each part of the state by itself,
/// in a fixed order and with nothing left out.
pub proof fn law_prologue_restores_each_part(v: StickyView)
    ensures
        ({
            let cold = StickyView::cold();
            let sgr = StickyView { sgr: v.sgr, ..cold };
            let modes = StickyView { dec_modes: v.dec_modes, ..cold };
            let region = StickyView { scroll_region: v.scroll_region, ..cold };
            let charsets = StickyView { charsets: v.charsets, shift: v.shift, ..cold };
            let cwd = StickyView { cwd: v.cwd, ..cold };
            let title = StickyView { title: v.title, ..cold };
            let colors = StickyView { colors: v.colors, ..cold };
            let link = StickyView { link: v.link, ..cold };
            v.prologue() == seq![0x1bu8, 0x5bu8, 0x30u8, 0x6du8] + sgr.prologue().skip(4)
                + modes.prologue().skip(4) + region.prologue().skip(4) + charsets.prologue().skip(4)
                + cwd.prologue().skip(4) + title.prologue().skip(4) + colors.prologue().skip(4)
                + link.prologue().skip(4)
        }),
{
    let cold = StickyView::cold();
    let none = Seq::<u8>::empty();
    lemma_cold_parts();
    let sgr = StickyView { sgr: v.sgr, ..cold };
    lemma_only(v.sgr_part(), none, none, none, none, none, none, none);
    lemma_behind_reset(v.sgr_part());
    assert(sgr.prologue().skip(4) == v.sgr_part());
    let modes = StickyView { dec_modes: v.dec_modes, ..cold };
    lemma_only(none, v.modes_part(), none, none, none, none, none, none);
    lemma_behind_reset(v.modes_part());
    assert(modes.prologue().skip(4) == v.modes_part());
    let region = StickyView { scroll_region: v.scroll_region, ..cold };
    lemma_only(none, none, v.region_part(), none, none, none, none, none);
    lemma_behind_reset(v.region_part());
    assert(region.prologue().skip(4) == v.region_part());
    let charsets = StickyView { charsets: v.charsets, shift: v.shift, ..cold };
    lemma_only(none, none, none, v.charset_part(), none, none, none, none);
    lemma_behind_reset(v.charset_part());
    assert(charsets.prologue().skip(4) == v.charset_part());
    let cwd = StickyView { cwd: v.cwd, ..cold };
    lemma_only(none, none, none, none, v.cwd_part(), none, none, none);
    lemma_behind_reset(v.cwd_part());
    assert(cwd.prologue().skip(4) == v.cwd_part());
    let title = StickyView { title: v.title, ..cold };
    lemma_only(none, none, none, none, none, v.title_part(), none, none);
    lemma_behind_reset(v.title_part());
    assert(title.prologue().skip(4) == v.title_part());
    let colors = StickyView { colors: v.colors, ..cold };
    lemma_only(none, none, none, none, none, none, v.colors_part(), none);
    lemma_behind_reset(v.colors_part());
    assert(colors.prologue().skip(4) == v.colors_part());
    let link = StickyView { link: v.link, ..cold };
    lemma_only(none, none, none, none, none, none, none, v.link_part());
    lemma_behind_reset(v.link_part());
    assert(link.prologue().skip(4) == v.link_part());
}

proof fn lemma_behind_reset(part: Seq<u8>)
    ensures
        (sgr_reset() + part).skip(4) == part,
{
    assert((sgr_reset() + part).skip(4) =~= part);
}

/// The same of a rendition and of colours: the sequences that select them.
pub proof fn law_prologue_of_rendition_and_colors(
    sgr: Seq<Seq<Seq<u16>>>,
    list: Seq<ColorView>,
)
    ensures
        ({
            let cold = StickyView::cold();
            let reset = seq![0x1bu8, 0x5bu8, 0x30u8, 0x6du8];
            &&& (StickyView { sgr, ..cold }).prologue() == reset + sgr_bytes(sgr)
            &&& (StickyView { colors: list, ..cold }).prologue() == reset + colors_bytes(list)
        }),
{
    let none = Seq::<u8>::empty();
    lemma_cold_parts();
    lemma_only(sgr_bytes(sgr), none, none, none, none, none, none, none);
    lemma_only(none, none, none, none, none, none, colors_bytes(list), none);
}

} // verus!
