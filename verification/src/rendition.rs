//! The graphic rendition that SGR sequences add up to.
//!
//! A rendition is written down as the SGR sequences that select it, each a
//! list of parameter groups. Each new sequence changes single attributes and
//! leaves the others in force.

use vstd::prelude::*;

use crate::action::groups;

verus! {

/// One attribute of the graphic rendition.
#[derive(Debug, Clone, Copy, PartialEq, Eq, Structural)]
pub enum Attribute {
    Bold,
    Faint,
    Italic,
    Fraktur,
    Underline,
    Blink,
    Inverse,
    Hidden,
    Struck,
    Font,
    Spacing,
    Frame,
    Overline,
    Ideogram,
    Script,
    Foreground,
    Background,
    UnderlineColor,
    /// What a code without a known meaning selects.
    Other(u16),
    /// What a code selects in a form without a known meaning: with
    /// subparameters, or as an unknown kind of colour.
    Form(u16),
    /// A colour whose arguments are missing. It can only stand last.
    Unfinished,
}

/// The attribute that the code selects a value of, none for a code that puts
/// attributes back to their defaults.
pub open spec fn attribute_of(code: u16) -> Option<Attribute> {
    if is_default_code(code) {
        None
    } else if code == 1 {
        Some(Attribute::Bold)
    } else if code == 2 {
        Some(Attribute::Faint)
    } else if code == 3 {
        Some(Attribute::Italic)
    } else if code == 4 || code == 21 {
        Some(Attribute::Underline)
    } else if code == 5 || code == 6 {
        Some(Attribute::Blink)
    } else if code == 7 {
        Some(Attribute::Inverse)
    } else if code == 8 {
        Some(Attribute::Hidden)
    } else if code == 9 {
        Some(Attribute::Struck)
    } else if 11 <= code <= 19 {
        Some(Attribute::Font)
    } else if code == 20 {
        Some(Attribute::Fraktur)
    } else if code == 26 || code == 50 {
        Some(Attribute::Spacing)
    } else if 30 <= code <= 38 || 90 <= code <= 97 {
        Some(Attribute::Foreground)
    } else if 40 <= code <= 48 || 100 <= code <= 107 {
        Some(Attribute::Background)
    } else if code == 51 || code == 52 {
        Some(Attribute::Frame)
    } else if code == 53 {
        Some(Attribute::Overline)
    } else if code == 58 {
        Some(Attribute::UnderlineColor)
    } else if 60 <= code <= 64 {
        Some(Attribute::Ideogram)
    } else if code == 73 || code == 74 {
        Some(Attribute::Script)
    } else {
        Some(Attribute::Other(code))
    }
}

/// The code puts attributes back to their defaults.
pub open spec fn is_default_code(code: u16) -> bool {
    code == 0 || code == 10 || 22 <= code <= 25 || 27 <= code <= 29 || code == 39 || code == 49
        || code == 54 || code == 55 || code == 59 || code == 65 || code == 75
}

/// The code that puts the attribute back to its default, besides 0, which does
/// so with all.
pub open spec fn default_code(a: Attribute) -> u16 {
    match a {
        Attribute::Bold | Attribute::Faint => 22,
        Attribute::Italic | Attribute::Fraktur => 23,
        Attribute::Underline => 24,
        Attribute::Blink => 25,
        Attribute::Inverse => 27,
        Attribute::Hidden => 28,
        Attribute::Struck => 29,
        Attribute::Font => 10,
        Attribute::Frame => 54,
        Attribute::Overline => 55,
        Attribute::Ideogram => 65,
        Attribute::Script => 75,
        Attribute::Foreground => 39,
        Attribute::Background => 49,
        Attribute::UnderlineColor => 59,
        _ => 0,
    }
}

/// The code puts the attribute back to its default.
pub open spec fn code_clears(code: u16, a: Attribute) -> bool {
    code == 0 || code == match a {
        Attribute::Form(own) => match attribute_of(own) {
            Some(b) => default_code(b),
            None => 0,
        },
        _ => default_code(a),
    }
}

/// The code introduces a colour, which its arguments give.
pub open spec fn takes_color(code: u16) -> bool {
    code == 38 || code == 48 || code == 58
}

/// The groups start with a code whose colour is given in groups of its own.
pub open spec fn starts_color(list: Seq<Seq<u16>>) -> bool {
    list.len() > 0 && list[0].len() == 1 && takes_color(list[0][0])
}

/// How many groups belong together at the start of `list`, if there are as
/// many: `38 ; 5 ; n` and `38 ; 2 ; r ; g ; b` spread a colour over several
/// groups, and `38` alone goes with the kind of colour behind it.
pub open spec fn wanted_len(list: Seq<Seq<u16>>) -> int {
    if !starts_color(list) {
        1
    } else if list.len() > 1 && list[1] == seq![5u16] {
        3
    } else if list.len() > 1 && list[1] == seq![2u16] {
        5
    } else {
        2
    }
}

/// How many groups belong together at the start of `list`.
pub open spec fn item_len(list: Seq<Seq<u16>>) -> int {
    if wanted_len(list) <= list.len() {
        wanted_len(list)
    } else {
        list.len() as int
    }
}

/// The groups of `list`, cut into those that belong together.
pub open spec fn items(list: Seq<Seq<u16>>) -> Seq<Seq<Seq<u16>>>
    decreases list.len(),
{
    if list.len() == 0 {
        Seq::empty()
    } else {
        seq![list.take(item_len(list))] + items(list.skip(item_len(list)))
    }
}

/// The items of all sequences, in order.
pub open spec fn all_items(sgr: Seq<Seq<Seq<u16>>>) -> Seq<Seq<Seq<u16>>>
    decreases sgr.len(),
{
    if sgr.len() == 0 {
        Seq::empty()
    } else {
        all_items(sgr.drop_last()) + items(sgr.last())
    }
}

/// Every group is one number.
pub open spec fn all_single(list: Seq<Seq<u16>>) -> bool {
    forall|i: int| 0 <= i < list.len() ==> (#[trigger] list[i]).len() == 1
}

/// The attribute that the item selects a value of, none if it puts attributes
/// back to their defaults. A colour has its arguments in groups of their own
/// or after colons; an underline may give its style after a colon.
pub open spec fn sets(item: Seq<Seq<u16>>) -> Option<Attribute> {
    if item.len() == 0 || item[0].len() == 0 {
        None
    } else if starts_color(item) {
        if item.len() < wanted_len(item) {
            Some(Attribute::Unfinished)
        } else if item.len() == wanted_len(item) && item.len() > 2 && all_single(item) {
            attribute_of(item[0][0])
        } else {
            Some(Attribute::Form(item[0][0]))
        }
    } else if item[0].len() == 1 {
        attribute_of(item[0][0])
    } else if takes_color(item[0][0]) && item[0].len() > 2 {
        attribute_of(item[0][0])
    } else if item[0] == seq![4u16, 0u16] {
        None
    } else if item[0][0] == 4 && item[0][1] != 0 {
        Some(Attribute::Underline)
    } else {
        Some(Attribute::Form(item[0][0]))
    }
}

/// The item puts the attribute back to its default.
pub open spec fn clears(item: Seq<Seq<u16>>, a: Attribute) -> bool {
    sets(item) is None && item.len() > 0 && (item[0].len() == 1 && code_clears(item[0][0], a)
        || item[0].len() == 2 && a == Attribute::Underline)
}

/// What the earlier item `x` selected is over once `item` has come. A colour
/// whose arguments are missing is over with whatever comes.
pub open spec fn overrides(item: Seq<Seq<u16>>, x: Seq<Seq<u16>>) -> bool {
    sets(x) matches Some(a) && (a == Attribute::Unfinished || sets(item) == Some(a) || clears(
        item,
        a,
    ))
}

/// Those of the items that `item` leaves in force.
pub open spec fn surviving(state: Seq<Seq<Seq<u16>>>, item: Seq<Seq<u16>>) -> Seq<Seq<Seq<u16>>>
    decreases state.len(),
{
    if state.len() == 0 {
        Seq::empty()
    } else {
        let before = surviving(state.drop_last(), item);
        if overrides(item, state.last()) {
            before
        } else {
            before.push(state.last())
        }
    }
}

/// The items in force after one more.
pub open spec fn with_item(state: Seq<Seq<Seq<u16>>>, item: Seq<Seq<u16>>) -> Seq<Seq<Seq<u16>>> {
    if sets(item) is Some {
        surviving(state, item).push(item)
    } else {
        surviving(state, item)
    }
}

/// The items in force after `list`, in order.
pub open spec fn in_force(list: Seq<Seq<Seq<u16>>>) -> Seq<Seq<Seq<u16>>>
    decreases list.len(),
{
    if list.len() == 0 {
        Seq::empty()
    } else {
        with_item(in_force(list.drop_last()), list.last())
    }
}

/// The items as sequences: one, if it has no more numbers than a control
/// sequence holds, else one for each item.
pub open spec fn packed(state: Seq<Seq<Seq<u16>>>) -> Seq<Seq<Seq<u16>>> {
    if state.len() > 0 && state.flatten().flatten().len() <= 32 {
        seq![state.flatten()]
    } else {
        state
    }
}

/// The rendition `sgr` after an SGR sequence with the groups `params`: each of
/// them changes its attribute, and the others stay as they were. A sequence
/// without parameters resets all.
pub open spec fn accumulated(
    sgr: Seq<Seq<Seq<u16>>>,
    params: Seq<Seq<u16>>,
) -> Seq<Seq<Seq<u16>>> {
    if params.len() == 0 {
        Seq::empty()
    } else {
        packed(in_force(all_items(sgr) + items(params)))
    }
}

/// Numbers, each in a group of its own.
pub open spec fn singles(params: Seq<u16>) -> Seq<Seq<u16>> {
    params.map_values(|p: u16| seq![p])
}

/// The rendition that one sequence selects as it stands, the default without
/// parameters.
pub open spec fn one_sequence(params: Seq<Seq<u16>>) -> Seq<Seq<Seq<u16>>> {
    if params.len() == 0 {
        Seq::empty()
    } else {
        seq![params]
    }
}

// ---------------------------------------------------------------------
// Computing it
// ---------------------------------------------------------------------
/// The contents of sequences or items.
pub open spec fn item_views(v: Seq<Vec<Vec<u16>>>) -> Seq<Seq<Seq<u16>>> {
    v.map_values(|x: Vec<Vec<u16>>| groups(x@))
}

fn attribute(code: u16) -> (r: Option<Attribute>)
    ensures
        r == attribute_of(code),
{
    match code {
        0 | 10 | 22..=25 | 27..=29 | 39 | 49 | 54 | 55 | 59 | 65 | 75 => None,
        1 => Some(Attribute::Bold),
        2 => Some(Attribute::Faint),
        3 => Some(Attribute::Italic),
        4 | 21 => Some(Attribute::Underline),
        5 | 6 => Some(Attribute::Blink),
        7 => Some(Attribute::Inverse),
        8 => Some(Attribute::Hidden),
        9 => Some(Attribute::Struck),
        11..=19 => Some(Attribute::Font),
        20 => Some(Attribute::Fraktur),
        26 | 50 => Some(Attribute::Spacing),
        30..=38 | 90..=97 => Some(Attribute::Foreground),
        40..=48 | 100..=107 => Some(Attribute::Background),
        51 | 52 => Some(Attribute::Frame),
        53 => Some(Attribute::Overline),
        58 => Some(Attribute::UnderlineColor),
        60..=64 => Some(Attribute::Ideogram),
        73 | 74 => Some(Attribute::Script),
        _ => Some(Attribute::Other(code)),
    }
}

fn own_default_code(a: Attribute) -> (r: u16)
    ensures
        r == default_code(a),
{
    match a {
        Attribute::Bold | Attribute::Faint => 22,
        Attribute::Italic | Attribute::Fraktur => 23,
        Attribute::Underline => 24,
        Attribute::Blink => 25,
        Attribute::Inverse => 27,
        Attribute::Hidden => 28,
        Attribute::Struck => 29,
        Attribute::Font => 10,
        Attribute::Frame => 54,
        Attribute::Overline => 55,
        Attribute::Ideogram => 65,
        Attribute::Script => 75,
        Attribute::Foreground => 39,
        Attribute::Background => 49,
        Attribute::UnderlineColor => 59,
        _ => 0,
    }
}

fn is_clear_code(code: u16, a: Attribute) -> (r: bool)
    ensures
        r == code_clears(code, a),
{
    let own = match a {
        Attribute::Form(own) => match attribute(own) {
            Some(b) => own_default_code(b),
            None => 0,
        },
        _ => own_default_code(a),
    };
    code == 0 || code == own
}

/// Whether the group is the number `n` alone.
fn is_number(group: &Vec<u16>, n: u16) -> (r: bool)
    ensures
        r == (group@ == seq![n]),
{
    if group.len() == 1 && group[0] == n {
        assert(group@ =~= seq![n]);
        true
    } else {
        false
    }
}

fn is_color_code(code: u16) -> (r: bool)
    ensures
        r == takes_color(code),
{
    code == 38 || code == 48 || code == 58
}

/// How many groups belong together from the `i`-th on, if there are as many.
fn wanted_len_at(list: &Vec<Vec<u16>>, i: usize) -> (n: usize)
    requires
        i < list@.len(),
    ensures
        n == wanted_len(groups(list@).skip(i as int)),
        0 < n <= 5,
{
    let ghost rest = groups(list@).skip(i as int);
    assert(rest[0] == list@[i as int]@);
    if list[i].len() != 1 || !is_color_code(list[i][0]) {
        return 1;
    }
    if list.len() - i > 1 {
        assert(rest[1] == list@[i + 1]@);
        if is_number(&list[i + 1], 5) {
            return 3;
        }
        if is_number(&list[i + 1], 2) {
            assert(seq![5u16][0] == 5u16);
            return 5;
        }
    }
    2
}

fn is_all_single(item: &Vec<Vec<u16>>) -> (r: bool)
    ensures
        r == all_single(groups(item@)),
{
    let mut i: usize = 0;
    while i < item.len()
        invariant
            i <= item@.len(),
            forall|j: int| 0 <= j < i ==> (#[trigger] groups(item@)[j]).len() == 1,
        decreases item@.len() - i,
    {
        if item[i].len() != 1 {
            assert(groups(item@)[i as int].len() != 1);
            return false;
        }
        i = i + 1;
    }
    true
}

fn attribute_set(item: &Vec<Vec<u16>>) -> (r: Option<Attribute>)
    ensures
        r == sets(groups(item@)),
{
    if item.len() == 0 || item[0].len() == 0 {
        return None;
    }
    let code = item[0][0];
    assert(groups(item@).skip(0) =~= groups(item@));
    assert(groups(item@)[0] == item@[0]@);
    if item[0].len() == 1 && is_color_code(code) {
        let wanted = wanted_len_at(item, 0);
        if item.len() < wanted {
            Some(Attribute::Unfinished)
        } else if item.len() == wanted && item.len() > 2 && is_all_single(item) {
            attribute(code)
        } else {
            Some(Attribute::Form(code))
        }
    } else if item[0].len() == 1 {
        attribute(code)
    } else if is_color_code(code) && item[0].len() > 2 {
        attribute(code)
    } else if item[0].len() == 2 && code == 4 && item[0][1] == 0 {
        assert(item@[0]@ =~= seq![4u16, 0u16]);
        None
    } else if code == 4 && item[0][1] != 0 {
        assert(seq![4u16, 0u16][1] == 0);
        Some(Attribute::Underline)
    } else {
        assert(item@[0]@ != seq![4u16, 0u16]) by {
            assert(seq![4u16, 0u16].len() == 2 && seq![4u16, 0u16][0] == 4 && seq![4u16, 0u16][1]
                == 0);
        }
        Some(Attribute::Form(code))
    }
}

fn is_cleared(item: &Vec<Vec<u16>>, a: Attribute) -> (r: bool)
    ensures
        r == clears(groups(item@), a),
{
    if item.len() == 0 || attribute_set(item).is_some() {
        return false;
    }
    assert(groups(item@)[0] == item@[0]@);
    if item[0].len() == 1 {
        is_clear_code(item[0][0], a)
    } else {
        item[0].len() == 2 && a == Attribute::Underline
    }
}

/// Whether what `x` selected is over once `item` has come.
fn is_overridden(item: &Vec<Vec<u16>>, x: &Vec<Vec<u16>>) -> (r: bool)
    ensures
        r == overrides(groups(item@), groups(x@)),
{
    match attribute_set(x) {
        Some(a) => {
            let same = match attribute_set(item) {
                Some(b) => a == b,
                None => false,
            };
            a == Attribute::Unfinished || same || is_cleared(item, a)
        },
        None => false,
    }
}

/// Takes in one more item.
fn put_item(state: Vec<Vec<Vec<u16>>>, item: Vec<Vec<u16>>) -> (r: Vec<Vec<Vec<u16>>>)
    ensures
        item_views(r@) == with_item(item_views(state@), groups(item@)),
{
    let ghost all = item_views(state@);
    let mut r: Vec<Vec<Vec<u16>>> = Vec::new();
    assert(item_views(r@) =~= surviving(all.take(0), groups(item@)));
    for x in it: state
        invariant
            it.seq() == state@,
            all == item_views(state@),
            item_views(r@) == surviving(all.take(it.index()), groups(item@)),
    {
        proof {
            let k = it.index();
            assert(all.take(k + 1).drop_last() =~= all.take(k));
            assert(all.take(k + 1).last() == groups(x@));
        }
        if !is_overridden(&item, &x) {
            let ghost before = item_views(r@);
            r.push(x);
            assert(item_views(r@) =~= before.push(groups(x@)));
        }
    }
    assert(all.take(state@.len() as int) =~= all);
    if attribute_set(&item).is_some() {
        let ghost before = item_views(r@);
        r.push(item);
        assert(item_views(r@) =~= before.push(groups(item@)));
    }
    r
}

fn copy_groups(list: &Vec<Vec<u16>>, from: usize, to: usize) -> (r: Vec<Vec<u16>>)
    requires
        from <= to <= list@.len(),
    ensures
        groups(r@) == groups(list@).subrange(from as int, to as int),
{
    let mut r: Vec<Vec<u16>> = Vec::new();
    let mut i: usize = from;
    while i < to
        invariant
            from <= i <= to <= list@.len(),
            groups(r@) =~= groups(list@).subrange(from as int, i as int),
        decreases to - i,
    {
        let ghost before = groups(r@);
        r.push(vstd::slice::slice_to_vec(list[i].as_slice()));
        assert(groups(r@) =~= before.push(list@[i as int]@));
        i = i + 1;
    }
    r
}

/// The next item of a list.
proof fn lemma_in_force_step(done: Seq<Seq<Seq<u16>>>, list: Seq<Seq<u16>>, i: int)
    requires
        0 <= i < list.len(),
        0 < item_len(list.skip(i)) <= list.len() - i,
    ensures
        ({
            let n = item_len(list.skip(i));
            &&& items(list.skip(i)) == seq![list.subrange(i, i + n)] + items(list.skip(i + n))
            &&& done + items(list.skip(i)) == done.push(list.subrange(i, i + n)) + items(
                list.skip(i + n),
            )
        }),
{
    let n = item_len(list.skip(i));
    assert(list.skip(i).take(n) =~= list.subrange(i, i + n));
    assert(list.skip(i).skip(n) =~= list.skip(i + n));
    assert(done + items(list.skip(i)) =~= done.push(list.subrange(i, i + n)) + items(
        list.skip(i + n),
    ));
}

/// Takes in the items of `list`, where `done` have been taken in.
fn put_items(
    state: Vec<Vec<Vec<u16>>>,
    list: &Vec<Vec<u16>>,
    done: Ghost<Seq<Seq<Seq<u16>>>>,
) -> (r: Vec<Vec<Vec<u16>>>)
    requires
        item_views(state@) == in_force(done@),
    ensures
        item_views(r@) == in_force(done@ + items(groups(list@))),
{
    let mut r = state;
    let ghost all = groups(list@);
    let ghost mut taken = done@;
    let mut i: usize = 0;
    assert(all.skip(0) =~= all);
    while i < list.len()
        invariant
            i <= list@.len(),
            all == groups(list@),
            item_views(r@) == in_force(taken),
            taken + items(all.skip(i as int)) == done@ + items(all),
        decreases list@.len() - i,
    {
        let wanted = wanted_len_at(list, i);
        let left = list.len() - i;
        let n = if wanted <= left { wanted } else { left };
        let item = copy_groups(list, i, i + n);
        proof {
            lemma_in_force_step(taken, all, i as int);
            let next = taken.push(groups(item@));
            assert(next.drop_last() =~= taken);
            taken = next;
        }
        r = put_item(r, item);
        i = i + n;
    }
    assert(taken + items(all.skip(i as int)) =~= taken);
    r
}

/// Takes in the items of sequences, in order.
fn put_sequences(sgr: &Vec<Vec<Vec<u16>>>) -> (r: Vec<Vec<Vec<u16>>>)
    ensures
        item_views(r@) == in_force(all_items(item_views(sgr@))),
{
    let ghost all = item_views(sgr@);
    let mut r: Vec<Vec<Vec<u16>>> = Vec::new();
    let mut i: usize = 0;
    assert(all.take(0) =~= Seq::empty());
    assert(item_views(r@) =~= in_force(all_items(all.take(0))));
    while i < sgr.len()
        invariant
            i <= sgr@.len(),
            all == item_views(sgr@),
            item_views(r@) == in_force(all_items(all.take(i as int))),
        decreases sgr@.len() - i,
    {
        assert(all.take(i + 1).drop_last() =~= all.take(i as int));
        assert(all.take(i + 1).last() == groups(sgr@[i as int]@));
        r = put_items(r, &sgr[i], Ghost(all_items(all.take(i as int))));
        i = i + 1;
    }
    assert(all.take(sgr@.len() as int) =~= all);
    r
}

/// Whether the groups have no more numbers than a control sequence holds.
fn fits(list: &Vec<Vec<u16>>) -> (r: bool)
    ensures
        r == (groups(list@).flatten().len() <= 32),
{
    let ghost all = groups(list@);
    let mut count: usize = 0;
    let mut i: usize = 0;
    assert(all.take(0) =~= Seq::empty());
    while i < list.len()
        invariant
            i <= list@.len(),
            all == groups(list@),
            count == all.take(i as int).flatten().len(),
            count <= 32,
        decreases list@.len() - i,
    {
        proof {
            assert(all.take(i + 1) =~= all.take(i as int).push(all[i as int]));
            all.take(i as int).lemma_flatten_push(all[i as int]);
            assert(all.take(i + 1) + all.skip(i + 1) =~= all);
            vstd::seq_lib::lemma_flatten_concat(all.take(i + 1), all.skip(i + 1));
        }
        if list[i].len() > 32 - count {
            return false;
        }
        count = count + list[i].len();
        i = i + 1;
    }
    assert(all.take(list@.len() as int) =~= all);
    true
}

/// The groups of all items, in order.
fn flat(state: &Vec<Vec<Vec<u16>>>) -> (r: Vec<Vec<u16>>)
    ensures
        groups(r@) == item_views(state@).flatten(),
{
    let mut r: Vec<Vec<u16>> = Vec::new();
    let ghost all = item_views(state@);
    let mut i: usize = 0;
    assert(all.take(0) =~= Seq::empty());
    assert(groups(r@) =~= all.take(0).flatten());
    while i < state.len()
        invariant
            i <= state@.len(),
            all == item_views(state@),
            groups(r@) == all.take(i as int).flatten(),
        decreases state@.len() - i,
    {
        let ghost before = groups(r@);
        let mut item = copy_groups(&state[i], 0, state[i].len());
        proof {
            assert(groups(state@[i as int]@).subrange(0, state@[i as int]@.len() as int)
                =~= all[i as int]);
            assert(all.take(i + 1) =~= all.take(i as int).push(all[i as int]));
            all.take(i as int).lemma_flatten_push(all[i as int]);
        }
        let ghost r0 = r@;
        let ghost item0 = item@;
        r.append(&mut item);
        assert(groups(r@) =~= before + groups(item0)) by {
            assert(r@ =~= r0 + item0);
        }
        i = i + 1;
    }
    assert(all.take(state@.len() as int) =~= all);
    r
}

/// The rendition after an SGR sequence (see [`accumulated`]).
pub fn accumulate(sgr: &Vec<Vec<Vec<u16>>>, params: &Vec<Vec<u16>>) -> (r: Vec<Vec<Vec<u16>>>)
    ensures
        item_views(r@) == accumulated(item_views(sgr@), groups(params@)),
{
    let mut r: Vec<Vec<Vec<u16>>> = Vec::new();
    if params.len() == 0 {
        assert(item_views(r@) =~= Seq::empty());
        return r;
    }
    let before = put_sequences(sgr);
    let state = put_items(before, params, Ghost(all_items(item_views(sgr@))));
    if state.len() == 0 {
        return state;
    }
    let list = flat(&state);
    if fits(&list) {
        r.push(list);
        assert(item_views(r@) =~= seq![item_views(state@).flatten()]);
        r
    } else {
        state
    }
}

// ---------------------------------------------------------------------
// What holds of it
// ---------------------------------------------------------------------
pub proof fn lemma_surviving_contains(
    state: Seq<Seq<Seq<u16>>>,
    item: Seq<Seq<u16>>,
    x: Seq<Seq<u16>>,
)
    ensures
        surviving(state, item).contains(x) <==> state.contains(x) && !overrides(item, x),
    decreases state.len(),
{
    if state.len() > 0 {
        let front = state.drop_last();
        let last = state.last();
        lemma_surviving_contains(front, item, x);
        assert(state =~= front.push(last));
        lemma_push_contains(front, last, x);
        lemma_push_contains(surviving(front, item), last, x);
    }
}

proof fn lemma_push_contains(s: Seq<Seq<Seq<u16>>>, y: Seq<Seq<u16>>, x: Seq<Seq<u16>>)
    ensures
        s.push(y).contains(x) <==> s.contains(x) || x == y,
{
    let t = s.push(y);
    if s.contains(x) {
        let k = choose|k: int| 0 <= k < s.len() && s[k] == x;
        assert(t[k] == x);
    }
    if x == y {
        assert(t[s.len() as int] == x);
    }
    if t.contains(x) {
        let k = choose|k: int| 0 <= k < t.len() && t[k] == x;
        if k < s.len() {
            assert(s[k] == x);
        }
    }
}

/// The item at `i` selects something that no later item of the list ends.
pub open spec fn lasts(list: Seq<Seq<Seq<u16>>>, i: int) -> bool {
    sets(list[i]) is Some && forall|j: int|
        i < j < list.len() ==> !overrides(#[trigger] list[j], list[i])
}

/// Of all items that came, those are in force that select something and that
/// no later item overrides or clears.
pub proof fn law_attributes_last_until_overridden(
    list: Seq<Seq<Seq<u16>>>,
    x: Seq<Seq<u16>>,
)
    ensures
        in_force(list).contains(x) <==> exists|i: int|
            0 <= i < list.len() && list[i] == x && #[trigger] lasts(list, i),
    decreases list.len(),
{
    if list.len() > 0 {
        let front = list.drop_last();
        let last = list.last();
        let n = front.len() as int;
        law_attributes_last_until_overridden(front, x);
        lemma_surviving_contains(in_force(front), last, x);
        lemma_push_contains(surviving(in_force(front), last), last, x);
        if in_force(list).contains(x) {
            if sets(last) is Some && x == last {
                assert(lasts(list, n));
            } else {
                let i = choose|i: int|
                    0 <= i < front.len() && front[i] == x && #[trigger] lasts(front, i);
                assert forall|j: int| i < j < list.len() implies !overrides(
                    #[trigger] list[j],
                    list[i],
                ) by {
                    if j < n {
                        assert(list[j] == front[j]);
                    }
                }
                assert(lasts(list, i));
            }
        }
        if exists|i: int| 0 <= i < list.len() && list[i] == x && #[trigger] lasts(list, i) {
            let i = choose|i: int|
                0 <= i < list.len() && list[i] == x && #[trigger] lasts(list, i);
            if i < n {
                assert forall|j: int| i < j < front.len() implies !overrides(
                    #[trigger] front[j],
                    front[i],
                ) by {
                    assert(list[j] == front[j]);
                }
                assert(lasts(front, i));
                assert(!overrides(list[n], list[i]));
            }
        }
    }
}

/// Every item selects something, and none is over with a later one.
pub open spec fn tidy(state: Seq<Seq<Seq<u16>>>) -> bool {
    &&& forall|i: int| 0 <= i < state.len() ==> sets(#[trigger] state[i]) is Some
    &&& forall|i: int, j: int|
        0 <= i < j < state.len() ==> !overrides(#[trigger] state[j], #[trigger] state[i])
}

/// The start of tidy items is tidy.
proof fn lemma_tidy_take(state: Seq<Seq<Seq<u16>>>, n: int)
    requires
        tidy(state),
        0 <= n <= state.len(),
    ensures
        tidy(state.take(n)),
{
    let front = state.take(n);
    assert forall|i: int| 0 <= i < front.len() implies sets(#[trigger] front[i]) is Some by {
        assert(front[i] == state[i]);
    }
    assert forall|i: int, j: int| 0 <= i < j < front.len() implies !overrides(
        #[trigger] front[j],
        #[trigger] front[i],
    ) by {
        assert(front[i] == state[i] && front[j] == state[j]);
    }
}

proof fn lemma_surviving_tidy(state: Seq<Seq<Seq<u16>>>, item: Seq<Seq<u16>>)
    requires
        tidy(state),
    ensures
        tidy(surviving(state, item)),
    decreases state.len(),
{
    if state.len() > 0 {
        let front = state.drop_last();
        let last = state.last();
        let before = surviving(front, item);
        let n = state.len() - 1;
        assert(front =~= state.take(n));
        lemma_tidy_take(state, n);
        lemma_surviving_tidy(front, item);
        assert forall|i: int| 0 <= i < before.len() implies !overrides(
            last,
            #[trigger] before[i],
        ) by {
            lemma_surviving_contains(front, item, before[i]);
            assert(before.contains(before[i]));
            let k = choose|k: int| 0 <= k < front.len() && front[k] == before[i];
            assert(front[k] == state[k]);
            assert(last == state[n]);
        }
        assert(sets(state[n]) is Some);
    }
}

/// In a rendition no attribute is selected twice.
pub proof fn law_in_force_is_tidy(list: Seq<Seq<Seq<u16>>>)
    ensures
        tidy(in_force(list)),
        forall|x: Seq<Seq<u16>>| #[trigger] in_force(list).contains(x) ==> list.contains(x),
    decreases list.len(),
{
    if list.len() > 0 {
        let before = in_force(list.drop_last());
        let item = list.last();
        let kept = surviving(before, item);
        law_in_force_is_tidy(list.drop_last());
        lemma_surviving_tidy(before, item);
        assert forall|i: int| 0 <= i < kept.len() implies !overrides(item, #[trigger] kept[i]) by {
            lemma_surviving_contains(before, item, kept[i]);
            assert(kept.contains(kept[i]));
        }
        assert forall|x: Seq<Seq<u16>>| #[trigger] in_force(list).contains(x) implies list.contains(
            x,
        ) by {
            lemma_surviving_contains(before, item, x);
            lemma_push_contains(kept, item, x);
            lemma_push_contains(list.drop_last(), item, x);
            assert(list.drop_last().push(item) =~= list);
        }
    }
}

/// An item that selects something stays whole, whatever follows it, unless it
/// is an unfinished colour.
proof fn lemma_item_is_whole(item: Seq<Seq<u16>>, rest: Seq<Seq<u16>>)
    requires
        is_item(item),
        rest.len() == 0 || sets(item) != Some(Attribute::Unfinished),
    ensures
        item.len() > 0,
        item_len(item + rest) == item.len(),
{
    let list = item + rest;
    assert(list[0] == item[0]);
    if item.len() > 1 {
        assert(list[1] == item[1]);
    }
}

/// The groups belong together, and select something.
pub open spec fn is_item(item: Seq<Seq<u16>>) -> bool {
    sets(item) is Some && item.len() == item_len(item)
}

proof fn lemma_items_are_items(list: Seq<Seq<u16>>)
    ensures
        forall|x: Seq<Seq<u16>>| #[trigger]
            items(list).contains(x) ==> x.len() == item_len(x) && x.len() > 0,
    decreases list.len(),
{
    if list.len() > 0 {
        let n = item_len(list);
        let first = list.take(n);
        let rest = items(list.skip(n));
        lemma_items_are_items(list.skip(n));
        assert(first.len() == item_len(first)) by {
            assert(first[0] == list[0]);
            if n > 1 {
                assert(first[1] == list[1]);
            }
        }
        assert forall|x: Seq<Seq<u16>>| #[trigger] items(list).contains(x) implies x.len()
            == item_len(x) && x.len() > 0 by {
            let k = choose|k: int| 0 <= k < items(list).len() && items(list)[k] == x;
            if k > 0 {
                assert(rest[k - 1] == x);
                assert(rest.contains(x));
            }
        }
    }
}

/// Tidy items can be told apart in their groups.
proof fn lemma_items_of_tidy(state: Seq<Seq<Seq<u16>>>)
    requires
        tidy(state),
        forall|i: int| 0 <= i < state.len() ==> is_item(#[trigger] state[i]),
    ensures
        items(state.flatten()) == state,
    decreases state.len(),
{
    let flat = state.flatten();
    if state.len() > 0 {
        let item = state[0];
        let others = state.drop_first();
        let rest = others.flatten();
        assert forall|i: int| 0 <= i < others.len() implies is_item(#[trigger] others[i]) by {
            assert(others[i] == state[i + 1]);
        }
        assert forall|i: int, j: int| 0 <= i < j < others.len() implies !overrides(
            #[trigger] others[j],
            #[trigger] others[i],
        ) by {
            assert(others[i] == state[i + 1] && others[j] == state[j + 1]);
        }
        lemma_items_of_tidy(others);
        assert(is_item(item));
        if others.len() > 0 {
            assert(!overrides(state[1], state[0]));
        }
        lemma_item_is_whole(item, rest);
        assert(flat == item + rest);
        assert(flat.take(item.len() as int) =~= item);
        assert(flat.skip(item.len() as int) =~= rest);
        assert(seq![item] + others =~= state);
    }
}

/// Nothing is overridden, so everything survives.
proof fn lemma_all_survive(state: Seq<Seq<Seq<u16>>>, item: Seq<Seq<u16>>)
    requires
        forall|i: int| 0 <= i < state.len() ==> !overrides(item, #[trigger] state[i]),
    ensures
        surviving(state, item) == state,
    decreases state.len(),
{
    if state.len() > 0 {
        let front = state.drop_last();
        assert forall|i: int| 0 <= i < front.len() implies !overrides(item, #[trigger] front[i]) by {
            assert(front[i] == state[i]);
        }
        lemma_all_survive(front, item);
        assert(!overrides(item, state[state.len() - 1]));
        assert(front.push(state.last()) =~= state);
    }
}

/// Tidy items are all in force.
proof fn lemma_tidy_is_in_force(state: Seq<Seq<Seq<u16>>>)
    requires
        tidy(state),
    ensures
        in_force(state) == state,
    decreases state.len(),
{
    if state.len() > 0 {
        let n = state.len() - 1;
        let front = state.drop_last();
        let last = state.last();
        assert(front =~= state.take(n));
        lemma_tidy_take(state, n);
        lemma_tidy_is_in_force(front);
        assert forall|i: int| 0 <= i < front.len() implies !overrides(last, #[trigger] front[i]) by {
            assert(front[i] == state[i]);
            assert(last == state[n]);
        }
        lemma_all_survive(front, last);
        assert(front.push(last) =~= state);
        assert(sets(state[n]) is Some);
    }
}

/// The item fits into a control sequence and can be told from others.
pub open spec fn is_readable(item: Seq<Seq<u16>>) -> bool {
    &&& is_item(item)
    &&& item.flatten().len() <= 32
    &&& forall|i: int| 0 <= i < item.len() ==> (#[trigger] item[i]).len() > 0
}

/// Tidy items that can be read back.
pub open spec fn is_state(state: Seq<Seq<Seq<u16>>>) -> bool {
    &&& tidy(state)
    &&& forall|i: int| 0 <= i < state.len() ==> is_readable(#[trigger] state[i])
}

/// The sequences are those of a rendition in force.
pub open spec fn settled(sgr: Seq<Seq<Seq<u16>>>) -> bool {
    exists|state: Seq<Seq<Seq<u16>>>| is_state(state) && sgr == #[trigger] packed(state)
}

/// The default rendition is settled.
pub proof fn lemma_default_is_settled()
    ensures
        settled(Seq::empty()),
{
    let none = Seq::<Seq<Seq<u16>>>::empty();
    assert(is_state(none));
    assert(packed(none) == none);
}

/// An item by itself.
proof fn lemma_items_of_one(item: Seq<Seq<u16>>)
    requires
        is_item(item),
    ensures
        items(item) == seq![item],
{
    reveal_with_fuel(items, 2);
    assert(item.take(item.len() as int) =~= item);
    assert(item.skip(item.len() as int) =~= Seq::<Seq<u16>>::empty());
    assert(items(item) =~= seq![item]);
}

proof fn lemma_all_items_of_state(state: Seq<Seq<Seq<u16>>>)
    requires
        forall|i: int| 0 <= i < state.len() ==> is_item(#[trigger] state[i]),
    ensures
        all_items(state) == state,
    decreases state.len(),
{
    if state.len() > 0 {
        let front = state.drop_last();
        assert forall|i: int| 0 <= i < front.len() implies is_item(#[trigger] front[i]) by {
            assert(front[i] == state[i]);
        }
        lemma_all_items_of_state(front);
        assert(is_item(state[state.len() - 1]));
        lemma_items_of_one(state.last());
        assert(front + seq![state.last()] =~= state);
    }
}

/// Whatever sequences the items were packed into, they are read as themselves.
pub proof fn lemma_unpack(state: Seq<Seq<Seq<u16>>>)
    requires
        is_state(state),
    ensures
        all_items(packed(state)) == state,
{
    assert forall|i: int| 0 <= i < state.len() implies is_item(#[trigger] state[i]) by {
        assert(is_readable(state[i]));
    }
    if state.len() > 0 && state.flatten().flatten().len() <= 32 {
        let one = packed(state);
        reveal_with_fuel(all_items, 2);
        assert(one.drop_last() =~= Seq::<Seq<Seq<u16>>>::empty());
        lemma_items_of_tidy(state);
        assert(all_items(one) =~= state);
    } else {
        lemma_all_items_of_state(state);
    }
}

/// The numbers of each item are among those of the list.
proof fn lemma_items_are_readable(list: Seq<Seq<u16>>)
    requires
        list.flatten().len() <= 32,
        forall|i: int| 0 <= i < list.len() ==> (#[trigger] list[i]).len() > 0,
    ensures
        forall|x: Seq<Seq<u16>>| #[trigger]
            items(list).contains(x) && sets(x) is Some ==> is_readable(x),
    decreases list.len(),
{
    if list.len() > 0 {
        let n = item_len(list);
        let first = list.take(n);
        let others = list.skip(n);
        let rest = items(others);
        assert(first + others =~= list);
        vstd::seq_lib::lemma_flatten_concat(first, others);
        assert forall|i: int| 0 <= i < others.len() implies (#[trigger] others[i]).len() > 0 by {
            assert(others[i] == list[n + i]);
        }
        assert forall|i: int| 0 <= i < first.len() implies (#[trigger] first[i]).len() > 0 by {
            assert(first[i] == list[i]);
        }
        lemma_items_are_readable(others);
        lemma_items_are_items(list);
        assert forall|x: Seq<Seq<u16>>| #[trigger]
            items(list).contains(x) && sets(x) is Some implies is_readable(x) by {
            let k = choose|k: int| 0 <= k < items(list).len() && items(list)[k] == x;
            if k > 0 {
                assert(rest[k - 1] == x);
                assert(rest.contains(x));
            }
        }
    }
}

/// SGR sequences lead to renditions that are in force as they are written.
pub proof fn law_accumulated_is_settled(sgr: Seq<Seq<Seq<u16>>>, params: Seq<Seq<u16>>)
    requires
        settled(sgr),
        params.flatten().len() <= 32,
        forall|i: int| 0 <= i < params.len() ==> (#[trigger] params[i]).len() > 0,
    ensures
        settled(accumulated(sgr, params)),
{
    if params.len() == 0 {
        lemma_default_is_settled();
    } else {
        lemma_in_force_is_state(sgr, params);
    }
}

/// The items in force after one more sequence can be read back.
pub proof fn lemma_in_force_is_state(sgr: Seq<Seq<Seq<u16>>>, params: Seq<Seq<u16>>)
    requires
        settled(sgr),
        params.flatten().len() <= 32,
        forall|i: int| 0 <= i < params.len() ==> (#[trigger] params[i]).len() > 0,
    ensures
        is_state(in_force(all_items(sgr) + items(params))),
{
    let before = choose|state: Seq<Seq<Seq<u16>>>|
        is_state(state) && sgr == #[trigger] packed(state);
    lemma_unpack(before);
    let list = before + items(params);
    let state = in_force(list);
    law_in_force_is_tidy(list);
    lemma_items_are_readable(params);
    assert forall|i: int| 0 <= i < state.len() implies is_readable(#[trigger] state[i]) by {
        assert(state.contains(state[i]));
        assert(list.contains(state[i]));
        let k = choose|k: int| 0 <= k < list.len() && list[k] == state[i];
        if k < before.len() {
            assert(is_readable(before[k]));
        } else {
            assert(items(params)[k - before.len()] == state[i]);
            assert(items(params).contains(state[i]));
        }
    }
}

/// A rendition that is written down after a reset is read as itself: after the
/// first `k` sequences, the items of these are in force.
pub proof fn law_settled_is_read_back(state: Seq<Seq<Seq<u16>>>, k: int)
    requires
        is_state(state),
    ensures
        state.len() > 0 ==> accumulated(Seq::empty(), state.flatten()) == packed(state),
        0 <= k < state.len() ==> accumulated(packed(state.take(k)), state[k]) == packed(
            state.take(k + 1),
        ),
{
    assert forall|i: int| 0 <= i < state.len() implies is_item(#[trigger] state[i]) by {
        assert(is_readable(state[i]));
    }
    if state.len() > 0 {
        lemma_items_of_tidy(state);
        lemma_tidy_is_in_force(state);
        assert(all_items(Seq::empty()) + state =~= state);
        assert(is_readable(state[0]));
        assert(state.flatten().len() > 0) by {
            assert(state.flatten() == state[0] + state.drop_first().flatten());
        }
    }
    if 0 <= k < state.len() {
        let front = state.take(k);
        assert(is_readable(state[k]));
        lemma_tidy_take(state, k);
        lemma_tidy_take(state, k + 1);
        assert forall|i: int| 0 <= i < front.len() implies is_readable(#[trigger] front[i]) by {
            assert(is_readable(state[i]));
        }
        lemma_unpack(front);
        lemma_items_of_one(state[k]);
        lemma_tidy_is_in_force(state.take(k + 1));
        assert(front + seq![state[k]] =~= state.take(k + 1));
    }
}

/// The groups of a rendition can be told apart.
pub proof fn lemma_state_groups(state: Seq<Seq<Seq<u16>>>)
    requires
        is_state(state),
    ensures
        forall|i: int|
            0 <= i < state.flatten().len() ==> (#[trigger] state.flatten()[i]).len() > 0,
        state.len() > 0 ==> state.flatten().len() > 0,
    decreases state.len(),
{
    if state.len() > 0 {
        let n = state.len() - 1;
        let front = state.take(n);
        let last = state[n];
        let flat = state.flatten();
        assert(is_readable(last));
        lemma_tidy_take(state, n);
        assert forall|i: int| 0 <= i < front.len() implies is_readable(#[trigger] front[i]) by {
            assert(is_readable(state[i]));
        }
        lemma_state_groups(front);
        front.lemma_flatten_push(last);
        assert(front.push(last) =~= state);
        assert forall|i: int| 0 <= i < flat.len() implies (#[trigger] flat[i]).len() > 0 by {
            if i < front.flatten().len() {
                assert(flat[i] == front.flatten()[i]);
            } else {
                assert(flat[i] == last[i - front.flatten().len()]);
            }
        }
    }
}

/// The parameter 0 resets everything.
pub proof fn law_zero_resets(sgr: Seq<Seq<Seq<u16>>>)
    ensures
        accumulated(sgr, seq![seq![0u16]]) == Seq::<Seq<Seq<u16>>>::empty(),
{
    let zero = seq![seq![0u16]];
    let list = all_items(sgr);
    law_in_force_is_tidy(list);
    reveal_with_fuel(items, 2);
    assert(zero.take(1) =~= zero);
    assert(zero.skip(1) =~= Seq::<Seq<u16>>::empty());
    assert(items(zero) =~= seq![zero]);
    assert((list + seq![zero]).drop_last() =~= list);
    lemma_none_survive(in_force(list), zero);
}

proof fn lemma_none_survive(state: Seq<Seq<Seq<u16>>>, item: Seq<Seq<u16>>)
    requires
        forall|i: int| 0 <= i < state.len() ==> overrides(item, #[trigger] state[i]),
    ensures
        surviving(state, item) == Seq::<Seq<Seq<u16>>>::empty(),
    decreases state.len(),
{
    if state.len() > 0 {
        let front = state.drop_last();
        assert forall|i: int| 0 <= i < front.len() implies overrides(item, #[trigger] front[i]) by {
            assert(front[i] == state[i]);
        }
        lemma_none_survive(front, item);
        assert(overrides(item, state[state.len() - 1]));
    }
}

/// Every parameter that no later one ends is kept: a sequence whose items all
/// select different things is tracked as it stands, whatever its codes.
pub proof fn law_sequence_is_tracked_as_it_stands(params: Seq<Seq<u16>>)
    requires
        tidy(items(params)),
        params.flatten().len() <= 32,
    ensures
        accumulated(Seq::empty(), params) == one_sequence(params),
{
    if params.len() > 0 {
        let list = items(params);
        lemma_tidy_is_in_force(list);
        lemma_items_flatten(params);
        assert(all_items(Seq::empty()) + list =~= list);
    }
}

/// Cutting groups into items loses none of them.
proof fn lemma_items_flatten(list: Seq<Seq<u16>>)
    ensures
        items(list).flatten() == list,
        list.len() > 0 ==> items(list).len() > 0,
    decreases list.len(),
{
    if list.len() > 0 {
        let n = item_len(list);
        let first = list.take(n);
        let rest = list.skip(n);
        lemma_items_flatten(rest);
        assert(items(list).drop_first() =~= items(rest));
        assert(items(list)[0] == first);
        assert(first + rest =~= list);
    } else {
        assert(items(list).flatten() =~= list);
    }
}

/// Numbers that are set as one sequence are that sequence, each in a group of
/// its own and in order; no numbers are the default.
pub proof fn law_numbers_are_one_sequence(params: Seq<u16>)
    ensures
        params.len() == 0 ==> one_sequence(singles(params)).len() == 0,
        params.len() > 0 ==> one_sequence(singles(params)).len() == 1 && one_sequence(
            singles(params),
        )[0].len() == params.len() && forall|i: int|
            0 <= i < params.len() ==> #[trigger] one_sequence(singles(params))[0][i]
                == seq![params[i]],
{
}

/// What is in force stays in the order in which it came.
pub proof fn law_in_force_keeps_the_order(list: Seq<Seq<Seq<u16>>>, i: int, j: int) -> (r: (
    int,
    int,
))
    requires
        0 <= i < j < in_force(list).len(),
    ensures
        0 <= r.0 < r.1 < list.len(),
        list[r.0] == in_force(list)[i],
        list[r.1] == in_force(list)[j],
    decreases list.len(),
{
    let front = list.drop_last();
    let item = list.last();
    let state = in_force(front);
    let kept = surviving(state, item);
    if j < kept.len() {
        let (a, b) = lemma_surviving_order(state, item, i, j);
        law_in_force_keeps_the_order(front, a, b)
    } else {
        assert(kept.contains(kept[i]));
        lemma_surviving_contains(state, item, kept[i]);
        law_in_force_is_tidy(front);
        assert(front.contains(kept[i]));
        let a = choose|a: int| 0 <= a < front.len() && front[a] == kept[i];
        assert(list[a] == kept[i]);
        (a, list.len() - 1)
    }
}

proof fn lemma_surviving_order(
    state: Seq<Seq<Seq<u16>>>,
    item: Seq<Seq<u16>>,
    i: int,
    j: int,
) -> (r: (int, int))
    requires
        0 <= i < j < surviving(state, item).len(),
    ensures
        0 <= r.0 < r.1 < state.len(),
        state[r.0] == surviving(state, item)[i],
        state[r.1] == surviving(state, item)[j],
    decreases state.len(),
{
    let front = state.drop_last();
    let before = surviving(front, item);
    if j < before.len() {
        lemma_surviving_order(front, item, i, j)
    } else {
        assert(before.contains(before[i]));
        lemma_surviving_contains(front, item, before[i]);
        let a = choose|a: int| 0 <= a < front.len() && front[a] == before[i];
        assert(state[a] == before[i]);
        (a, state.len() - 1)
    }
}

} // verus!
