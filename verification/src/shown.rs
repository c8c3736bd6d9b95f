//! What a terminal shows after SGR sequences, attribute by attribute, and that
//! the rendition which is kept for a replay shows the same.

use vstd::prelude::*;

use crate::effects::{is_plain_sequence, ready};
use crate::rendition::{
    accumulated, all_items, clears, in_force, items, law_in_force_is_tidy, lemma_in_force_is_state,
    lemma_surviving_contains, lemma_unpack, overrides, packed, sets, settled, surviving, Attribute,
};
use crate::replay::{lemma_numbers_count, lemma_within_limit};
use crate::scanner::ScannerView;
use crate::stream::law_unit_is_never_split;
use crate::unit::{numbers, within_limit, Unit};

verus! {

/// The code by itself selects a value of the attribute.
pub open spec fn selects(code: u16, a: Attribute) -> bool {
    match a {
        Attribute::Bold => code == 1,
        Attribute::Faint => code == 2,
        Attribute::Italic => code == 3,
        Attribute::Underline => code == 4 || code == 21,
        Attribute::Blink => code == 5 || code == 6,
        Attribute::Inverse => code == 7,
        Attribute::Hidden => code == 8,
        Attribute::Struck => code == 9,
        Attribute::Font => 11 <= code <= 19,
        Attribute::Fraktur => code == 20,
        Attribute::Spacing => code == 26 || code == 50,
        Attribute::Foreground => 30 <= code <= 37 || 90 <= code <= 97,
        Attribute::Background => 40 <= code <= 47 || 100 <= code <= 107,
        Attribute::UnderlineColor => false,
        Attribute::Frame => code == 51 || code == 52,
        Attribute::Overline => code == 53,
        Attribute::Ideogram => 60 <= code <= 64,
        Attribute::Script => code == 73 || code == 74,
        Attribute::Other(own) => code == own && (code == 56 || code == 57 || 66 <= code <= 72 || 76
            <= code <= 89 || 98 <= code <= 99 || code >= 108),
        _ => false,
    }
}

/// The code puts the attribute back to its default. One that was selected in
/// an unknown form goes with the attribute that its code is about.
pub open spec fn puts_back(code: u16, a: Attribute) -> bool {
    code == 0 || match a {
        Attribute::Bold => code == 22,
        Attribute::Faint => code == 22,
        Attribute::Italic => code == 23,
        Attribute::Fraktur => code == 23,
        Attribute::Underline => code == 24,
        Attribute::Blink => code == 25,
        Attribute::Inverse => code == 27,
        Attribute::Hidden => code == 28,
        Attribute::Struck => code == 29,
        Attribute::Font => code == 10,
        Attribute::Foreground => code == 39,
        Attribute::Background => code == 49,
        Attribute::UnderlineColor => code == 59,
        Attribute::Frame => code == 54,
        Attribute::Overline => code == 55,
        Attribute::Ideogram => code == 65,
        Attribute::Script => code == 75,
        Attribute::Form(own) => {
            ||| code == 22 && (own == 1 || own == 2)
            ||| code == 23 && (own == 3 || own == 20)
            ||| code == 24 && (own == 4 || own == 21)
            ||| code == 25 && (own == 5 || own == 6)
            ||| code == 27 && own == 7
            ||| code == 28 && own == 8
            ||| code == 29 && own == 9
            ||| code == 10 && 11 <= own <= 19
            ||| code == 39 && (30 <= own <= 38 || 90 <= own <= 97)
            ||| code == 49 && (40 <= own <= 48 || 100 <= own <= 107)
            ||| code == 59 && own == 58
            ||| code == 54 && (own == 51 || own == 52)
            ||| code == 55 && own == 53
            ||| code == 65 && 60 <= own <= 64
            ||| code == 75 && (own == 73 || own == 74)
        },
        _ => false,
    }
}

/// The attribute is the colour that 38, 48 or 58 introduces.
pub open spec fn is_color_of(code: u16, a: Attribute) -> bool {
    match a {
        Attribute::Foreground => code == 38,
        Attribute::Background => code == 48,
        Attribute::UnderlineColor => code == 58,
        _ => false,
    }
}

/// One group selects a value of the attribute: a code by itself, a colour with
/// its arguments after colons, an underline with its style after a colon, or a
/// code in an unknown form.
pub open spec fn group_selects(g: Seq<u16>, a: Attribute) -> bool {
    if g.len() == 0 {
        false
    } else if g.len() == 1 {
        selects(g[0], a)
    } else if (g[0] == 38 || g[0] == 48 || g[0] == 58) && g.len() > 2 {
        is_color_of(g[0], a)
    } else if g[0] == 4 && g[1] != 0 {
        a is Underline
    } else if g == seq![4u16, 0u16] {
        false
    } else {
        a == Attribute::Form(g[0])
    }
}

/// One group puts the attribute back to its default; `4:0` does so with the
/// underline.
pub open spec fn group_puts_back(g: Seq<u16>, a: Attribute) -> bool {
    g.len() == 1 && puts_back(g[0], a) || g == seq![4u16, 0u16] && a is Underline
}

/// How many groups a colour takes that 38, 48 or 58 alone introduces: itself,
/// the kind, and one number (kind 5) or three (kind 2).
pub open spec fn color_len(list: Seq<Seq<u16>>) -> int {
    if list.len() > 1 && list[1] == seq![5u16] {
        3
    } else if list.len() > 1 && list[1] == seq![2u16] {
        5
    } else {
        2
    }
}

/// What is shown of the attribute after the groups of one sequence, where
/// `before` was shown: the groups that selected it, or none for its default.
/// A colour whose arguments are missing selects nothing.
pub open spec fn shown_after(
    before: Option<Seq<Seq<u16>>>,
    list: Seq<Seq<u16>>,
    a: Attribute,
) -> Option<Seq<Seq<u16>>>
    decreases list.len(),
{
    if list.len() == 0 {
        before
    } else if list[0] == seq![38u16] || list[0] == seq![48u16] || list[0] == seq![58u16] {
        let n = color_len(list);
        if n > list.len() {
            before
        } else {
            let known = n > 2 && forall|i: int| 0 <= i < n ==> (#[trigger] list[i]).len() == 1;
            let now = if known && is_color_of(list[0][0], a) || !known && a == Attribute::Form(
                list[0][0],
            ) {
                Some(list.take(n))
            } else {
                before
            };
            shown_after(now, list.skip(n), a)
        }
    } else {
        let now = if group_selects(list[0], a) {
            Some(list.take(1))
        } else if group_puts_back(list[0], a) {
            None
        } else {
            before
        };
        shown_after(now, list.skip(1), a)
    }
}

/// What is shown of the attribute after the sequences, from the default.
pub open spec fn shown(sgr: Seq<Seq<Seq<u16>>>, a: Attribute) -> Option<Seq<Seq<u16>>>
    decreases sgr.len(),
{
    if sgr.len() == 0 {
        None
    } else {
        shown_after(shown(sgr.drop_last(), a), sgr.last(), a)
    }
}

// ---------------------------------------------------------------------
// Item by item
// ---------------------------------------------------------------------
spec fn item_effect(
    before: Option<Seq<Seq<u16>>>,
    item: Seq<Seq<u16>>,
    a: Attribute,
) -> Option<Seq<Seq<u16>>> {
    if sets(item) == Some(a) {
        Some(item)
    } else if clears(item, a) {
        None
    } else {
        before
    }
}

spec fn look(
    before: Option<Seq<Seq<u16>>>,
    list: Seq<Seq<Seq<u16>>>,
    a: Attribute,
) -> Option<Seq<Seq<u16>>>
    decreases list.len(),
{
    if list.len() == 0 {
        before
    } else {
        item_effect(look(before, list.drop_last(), a), list.last(), a)
    }
}

proof fn lemma_look_add(
    before: Option<Seq<Seq<u16>>>,
    x: Seq<Seq<Seq<u16>>>,
    y: Seq<Seq<Seq<u16>>>,
    a: Attribute,
)
    ensures
        look(before, x + y, a) == look(look(before, x, a), y, a),
    decreases y.len(),
{
    if y.len() == 0 {
        assert(x + y =~= x);
    } else {
        lemma_look_add(before, x, y.drop_last(), a);
        assert((x + y).drop_last() =~= x + y.drop_last());
        assert((x + y).last() == y.last());
    }
}

proof fn lemma_codes(code: u16, a: Attribute)
    requires
        !(a is Unfinished),
        code != 38 && code != 48 && code != 58,
    ensures
        crate::rendition::attribute_of(code) == Some(a) <==> selects(code, a),
{
}

proof fn lemma_default_codes(code: u16, a: Attribute)
    requires
        !(a is Unfinished),
    ensures
        crate::rendition::is_default_code(code) && crate::rendition::code_clears(code, a)
            <==> puts_back(code, a),
{
}

/// A group by itself.
proof fn lemma_one_group(before: Option<Seq<Seq<u16>>>, item: Seq<Seq<u16>>, a: Attribute)
    requires
        !(a is Unfinished),
        item.len() == 1,
        item[0].len() > 0,
        !(item[0].len() == 1 && crate::rendition::takes_color(item[0][0])),
    ensures
        item_effect(before, item, a) == if group_selects(item[0], a) {
            Some(item)
        } else if group_puts_back(item[0], a) {
            None
        } else {
            before
        },
{
    let g = item[0];
    let four = seq![4u16, 0u16];
    assert(four.len() == 2 && four[0] == 4 && four[1] == 0);
    if g.len() == 2 && g[0] == 4 && g[1] == 0 {
        assert(g =~= four);
    }
    if g.len() == 1 {
        lemma_codes(g[0], a);
        lemma_default_codes(g[0], a);
    }
}

/// A colour over several groups.
proof fn lemma_color_groups(before: Option<Seq<Seq<u16>>>, item: Seq<Seq<u16>>, a: Attribute)
    requires
        !(a is Unfinished),
        item.len() > 0,
        item[0].len() == 1,
        crate::rendition::takes_color(item[0][0]),
        item.len() == color_len(item),
    ensures
        ({
            let known = item.len() > 2 && forall|i: int|
                0 <= i < item.len() ==> (#[trigger] item[i]).len() == 1;
            item_effect(before, item, a) == if known && is_color_of(item[0][0], a) || !known && a
                == Attribute::Form(item[0][0]) {
                Some(item)
            } else {
                before
            }
        }),
{
}

proof fn lemma_shown_by_items(before: Option<Seq<Seq<u16>>>, list: Seq<Seq<u16>>, a: Attribute)
    requires
        !(a is Unfinished),
        forall|i: int| 0 <= i < list.len() ==> (#[trigger] list[i]).len() > 0,
    ensures
        shown_after(before, list, a) == look(before, items(list), a),
    decreases list.len(),
{
    if list.len() > 0 {
        let n = crate::rendition::item_len(list);
        let item = list.take(n);
        let rest = list.skip(n);
        let first = seq![item];
        assert forall|i: int| 0 <= i < rest.len() implies (#[trigger] rest[i]).len() > 0 by {
            assert(rest[i] == list[n + i]);
        }
        assert(first.drop_last() =~= Seq::empty());
        reveal_with_fuel(look, 2);
        assert(look(before, first, a) == item_effect(before, item, a));
        lemma_look_add(before, first, items(rest), a);
        let color = list[0].len() == 1 && crate::rendition::takes_color(list[0][0]);
        assert(color <==> list[0] == seq![38u16] || list[0] == seq![48u16] || list[0]
            == seq![58u16]) by {
            if color {
                assert(list[0] =~= seq![list[0][0]]);
            }
        }
        assert(item[0] == list[0]);
        if n > 1 {
            assert(item[1] == list[1]);
        }
        if color {
            if color_len(list) <= list.len() {
                assert(n == color_len(list));
                assert(color_len(item) == n);
                lemma_color_groups(before, item, a);
                assert forall|i: int| 0 <= i < n implies item[i] == #[trigger] list[i] by {}
                assert((forall|i: int| 0 <= i < n ==> (#[trigger] list[i]).len() == 1) <==> (
                forall|i: int| 0 <= i < item.len() ==> (#[trigger] item[i]).len() == 1)) by {
                    if forall|i: int| 0 <= i < item.len() ==> (#[trigger] item[i]).len() == 1 {
                        assert forall|i: int| 0 <= i < n implies (#[trigger] list[i]).len() == 1 by {
                            assert(item[i].len() == 1);
                        }
                    }
                    if forall|i: int| 0 <= i < n ==> (#[trigger] list[i]).len() == 1 {
                        assert forall|i: int| 0 <= i < item.len() implies (#[trigger] item[i]).len()
                            == 1 by {
                            assert(list[i].len() == 1);
                        }
                    }
                }
                lemma_shown_by_items(item_effect(before, item, a), rest, a);
            } else {
                assert(n == list.len());
                assert(sets(item) == Some(Attribute::Unfinished));
                assert(rest =~= Seq::empty());
                assert(items(rest) =~= Seq::empty());
            }
        } else {
            assert(n == 1);
            lemma_one_group(before, item, a);
            lemma_shown_by_items(item_effect(before, item, a), rest, a);
        }
    }
}

/// Items that do not select the attribute do not show it.
proof fn lemma_not_selected(list: Seq<Seq<Seq<u16>>>, a: Attribute)
    requires
        forall|i: int| 0 <= i < list.len() ==> sets(#[trigger] list[i]) != Some(a),
    ensures
        look(None, list, a) is None,
    decreases list.len(),
{
    if list.len() > 0 {
        let front = list.drop_last();
        assert forall|i: int| 0 <= i < front.len() implies sets(#[trigger] front[i]) != Some(a) by {
            assert(front[i] == list[i]);
        }
        lemma_not_selected(front, a);
        assert(sets(list[list.len() - 1]) != Some(a));
    }
}

/// An item that is not about the attribute leaves it shown as it was.
proof fn lemma_survivors_show(state: Seq<Seq<Seq<u16>>>, item: Seq<Seq<u16>>, a: Attribute)
    requires
        !(a is Unfinished),
        forall|i: int| 0 <= i < state.len() ==> sets(#[trigger] state[i]) is Some,
        sets(item) != Some(a),
        !clears(item, a),
    ensures
        look(None, surviving(state, item), a) == look(None, state, a),
    decreases state.len(),
{
    if state.len() > 0 {
        let front = state.drop_last();
        let last = state.last();
        assert forall|i: int| 0 <= i < front.len() implies sets(#[trigger] front[i]) is Some by {
            assert(front[i] == state[i]);
        }
        lemma_survivors_show(front, item, a);
        assert(sets(state[state.len() - 1]) is Some);
        let before = surviving(front, item);
        assert(before.push(last).drop_last() =~= before);
    }
}

/// What is in force shows what the list shows.
proof fn lemma_in_force_shows(list: Seq<Seq<Seq<u16>>>, a: Attribute)
    requires
        !(a is Unfinished),
    ensures
        look(None, in_force(list), a) == look(None, list, a),
    decreases list.len(),
{
    if list.len() > 0 {
        let front = list.drop_last();
        let item = list.last();
        let state = in_force(front);
        let kept = surviving(state, item);
        lemma_in_force_shows(front, a);
        law_in_force_is_tidy(front);
        assert(kept.push(item).drop_last() =~= kept);
        if sets(item) == Some(a) {
        } else if clears(item, a) {
            assert forall|i: int| 0 <= i < kept.len() implies sets(#[trigger] kept[i]) != Some(a) by {
                lemma_surviving_contains(state, item, kept[i]);
                assert(kept.contains(kept[i]));
            }
            lemma_not_selected(kept, a);
        } else {
            lemma_survivors_show(state, item, a);
        }
    }
}

proof fn lemma_shown_by_all_items(sgr: Seq<Seq<Seq<u16>>>, a: Attribute)
    requires
        !(a is Unfinished),
        forall|i: int, j: int|
            0 <= i < sgr.len() && 0 <= j < sgr[i].len() ==> (#[trigger] sgr[i][j]).len() > 0,
    ensures
        shown(sgr, a) == look(None, all_items(sgr), a),
    decreases sgr.len(),
{
    if sgr.len() > 0 {
        let front = sgr.drop_last();
        assert forall|i: int, j: int|
            0 <= i < front.len() && 0 <= j < front[i].len() implies (#[trigger] front[i][j]).len()
            > 0 by {
            assert(front[i][j] == sgr[i][j]);
        }
        lemma_shown_by_all_items(front, a);
        let last = sgr.last();
        assert forall|j: int| 0 <= j < last.len() implies (#[trigger] last[j]).len() > 0 by {
            assert(sgr[sgr.len() - 1][j].len() > 0);
        }
        lemma_shown_by_items(shown(front, a), last, a);
        lemma_look_add(None, all_items(front), items(last), a);
    }
}

/// Sequences that are in force hold no empty group.
proof fn lemma_settled_groups(sgr: Seq<Seq<Seq<u16>>>)
    requires
        settled(sgr),
    ensures
        forall|i: int, j: int|
            0 <= i < sgr.len() && 0 <= j < sgr[i].len() ==> (#[trigger] sgr[i][j]).len() > 0,
{
    let state = choose|state: Seq<Seq<Seq<u16>>>|
        crate::rendition::is_state(state) && sgr == #[trigger] packed(state);
    crate::rendition::lemma_state_groups(state);
    assert forall|i: int, j: int| 0 <= i < sgr.len() && 0 <= j < sgr[i].len() implies (
    #[trigger] sgr[i][j]).len() > 0 by {
        if state.len() > 0 && state.flatten().flatten().len() <= 32 {
            assert(sgr[i] == state.flatten());
        } else {
            assert(crate::rendition::is_readable(state[i]));
        }
    }
}

/// The rendition that is kept shows of every attribute what the sequences
/// show that led to it: after one more sequence, what was shown before, as that
/// sequence changes it.
pub proof fn law_kept_rendition_shows_the_same(
    sgr: Seq<Seq<Seq<u16>>>,
    params: Seq<Seq<u16>>,
    a: Attribute,
)
    requires
        settled(sgr),
        params.len() > 0,
        params.flatten().len() <= 32,
        forall|i: int| 0 <= i < params.len() ==> (#[trigger] params[i]).len() > 0,
        !(a is Unfinished),
    ensures
        shown(accumulated(sgr, params), a) == shown_after(shown(sgr, a), params, a),
{
    let list = all_items(sgr) + items(params);
    let state = in_force(list);
    let now = accumulated(sgr, params);
    lemma_in_force_is_state(sgr, params);
    lemma_unpack(state);
    crate::rendition::law_accumulated_is_settled(sgr, params);
    lemma_settled_groups(sgr);
    lemma_settled_groups(now);
    lemma_shown_by_all_items(sgr, a);
    lemma_shown_by_all_items(now, a);
    lemma_shown_by_items(shown(sgr, a), params, a);
    lemma_look_add(None, all_items(sgr), items(params), a);
    lemma_in_force_shows(list, a);
}

/// A rendition is kept in one sequence wherever its numbers fit into one, and
/// no sequence has more of them than fit.
pub proof fn law_kept_rendition_is_short(sgr: Seq<Seq<Seq<u16>>>, params: Seq<Seq<u16>>)
    requires
        settled(sgr),
        params.len() > 0,
        params.flatten().len() <= 32,
        forall|i: int| 0 <= i < params.len() ==> (#[trigger] params[i]).len() > 0,
    ensures
        ({
            let now = accumulated(sgr, params);
            &&& now.len() > 1 ==> now.flatten().flatten().len() > 32
            &&& forall|i: int| 0 <= i < now.len() ==> (#[trigger] now[i]).flatten().len() <= 32
        }),
{
    let state = in_force(all_items(sgr) + items(params));
    let now = accumulated(sgr, params);
    lemma_in_force_is_state(sgr, params);
    assert forall|i: int| 0 <= i < now.len() implies (#[trigger] now[i]).flatten().len() <= 32 by {
        if state.len() > 0 && state.flatten().flatten().len() <= 32 {
            assert(now[i] == state.flatten());
        } else {
            assert(crate::rendition::is_readable(state[i]));
        }
    }
}

/// An SGR sequence in a stream changes what is shown of each attribute as its
/// numbers say.
pub proof fn law_rendition_follows_the_stream(s: ScannerView, u: Unit, a: Attribute)
    requires
        ready(s, u),
        is_plain_sequence(u, None, 0x6d),
        settled(s.sink.sticky.sgr),
        !(a is Unfinished),
    ensures
        shown(s.run_unit(u).sink.sticky.sgr, a) == shown_after(
            shown(s.sink.sticky.sgr, a),
            numbers(within_limit(u->Csi_body)),
            a,
        ),
{
    law_unit_is_never_split(s, u);
    let body = u->Csi_body;
    let n = numbers(within_limit(body));
    assert(0x6du8 as char == 'm');
    assert(u->Csi_marker + u->Csi_inter =~= Seq::<u8>::empty());
    lemma_numbers_count(within_limit(body));
    lemma_within_limit(body);
    law_kept_rendition_shows_the_same(s.sink.sticky.sgr, n, a);
}

} // verus!
