//! Colours that a shell has set: entries of the palette, the foreground, the
//! background and the cursor.

use vstd::prelude::*;

use crate::action::strings;
use crate::bytes::{bytes_equal, decimal, extend_bytes, push_decimal};
use crate::sink::{field_is, lemma_osc_has_one_number, osc_is};

verus! {

/// A colour that was set. Its name is what an OSC begins with that sets it:
/// `4 ; index` for an entry of the palette, `10`, `11` or `12` for the
/// foreground, the background and the cursor.
#[derive(Debug, Clone, PartialEq, Eq)]
pub struct Color {
    name: Vec<u8>,
    value: Vec<u8>,
}

/// What a [`Color`] holds.
#[verifier::ext_equal]
pub struct ColorView {
    pub name: Seq<u8>,
    pub value: Seq<u8>,
}

impl View for Color {
    type V = ColorView;

    closed spec fn view(&self) -> ColorView {
        ColorView { name: self.name@, value: self.value@ }
    }
}

/// What colours hold.
pub open spec fn colors(v: Seq<Color>) -> Seq<ColorView> {
    v.map_values(|c: Color| c@)
}

/// `4 ; index`.
pub open spec fn palette_name(index: Seq<u8>) -> Seq<u8> {
    seq![0x34u8, 0x3bu8] + index
}

/// The name is that of an entry of the palette.
pub open spec fn is_palette_name(name: Seq<u8>) -> bool {
    name.len() >= 2 && name[0] == 0x34 && name[1] == 0x3b
}

/// The colours with all of these names taken out: one name, or those of the
/// whole palette.
pub open spec fn without(list: Seq<ColorView>, which: Option<Seq<u8>>) -> Seq<ColorView>
    decreases list.len(),
{
    if list.len() == 0 {
        Seq::empty()
    } else {
        let before = without(list.drop_last(), which);
        if names(which, list.last().name) {
            before
        } else {
            before.push(list.last())
        }
    }
}

/// The name is the one, or of the whole palette.
pub open spec fn names(which: Option<Seq<u8>>, name: Seq<u8>) -> bool {
    match which {
        Some(one) => name == one,
        None => is_palette_name(name),
    }
}

/// The colours with one more set. Nothing is set to no value.
pub open spec fn with_color(list: Seq<ColorView>, name: Seq<u8>, value: Seq<u8>) -> Seq<
    ColorView,
> {
    if value.len() == 0 {
        list
    } else {
        without(list, Some(name)).push(ColorView { name, value })
    }
}

/// The colours after the first `n` pairs of `4 ; index ; value ; index ; value
/// ...`.
pub open spec fn with_pairs(list: Seq<ColorView>, params: Seq<Seq<u8>>, n: nat) -> Seq<ColorView>
    decreases n,
{
    if n == 0 {
        list
    } else {
        with_color(
            with_pairs(list, params, (n - 1) as nat),
            palette_name(params[2 * n - 1]),
            params[2 * n as int],
        )
    }
}

/// The colours after the first `n` values of `first ; value ; value ...`: each
/// value is for the next number.
pub open spec fn with_values(
    list: Seq<ColorView>,
    params: Seq<Seq<u8>>,
    first: nat,
    n: nat,
) -> Seq<ColorView>
    decreases n,
{
    if n == 0 {
        list
    } else {
        with_color(
            with_values(list, params, first, (n - 1) as nat),
            decimal((first + n - 1) as nat),
            params[n as int],
        )
    }
}

/// How many values of such an OSC are for the numbers up to 12.
pub open spec fn value_count(params: Seq<Seq<u8>>, first: nat) -> nat {
    if params.len() - 1 <= 13 - first {
        (params.len() - 1) as nat
    } else {
        (13 - first) as nat
    }
}

/// The colours after the first `n` indices of `104 ; index ; index ...`.
pub open spec fn without_indices(list: Seq<ColorView>, params: Seq<Seq<u8>>, n: nat) -> Seq<
    ColorView,
>
    decreases n,
{
    if n == 0 {
        list
    } else {
        without(
            without_indices(list, params, (n - 1) as nat),
            Some(palette_name(params[n as int])),
        )
    }
}

/// The colours after an OSC. 104 resets entries of the palette, or all of it;
/// 110, 111 and 112 reset the foreground, the background and the cursor.
pub open spec fn osc_colors(list: Seq<ColorView>, params: Seq<Seq<u8>>) -> Seq<ColorView> {
    if osc_is(params, 4) {
        with_pairs(list, params, ((params.len() - 1) / 2) as nat)
    } else if osc_is(params, 10) {
        with_values(list, params, 10, value_count(params, 10))
    } else if osc_is(params, 11) {
        with_values(list, params, 11, value_count(params, 11))
    } else if osc_is(params, 12) {
        with_values(list, params, 12, value_count(params, 12))
    } else if osc_is(params, 104) && (params.len() == 1 || params.len() == 2 && params[1].len()
        == 0) {
        without(list, None)
    } else if osc_is(params, 104) {
        without_indices(list, params, (params.len() - 1) as nat)
    } else if osc_is(params, 110) {
        without(list, Some(decimal(10)))
    } else if osc_is(params, 111) {
        without(list, Some(decimal(11)))
    } else if osc_is(params, 112) {
        without(list, Some(decimal(12)))
    } else {
        list
    }
}

/// `ESC ] name ; value BEL`, which sets the colour.
pub open spec fn color_bytes(c: ColorView) -> Seq<u8> {
    seq![0x1bu8, 0x5du8] + c.name.push(0x3b) + c.value.push(0x07)
}

/// The sequences that set the colours, in order.
pub open spec fn colors_bytes(list: Seq<ColorView>) -> Seq<u8>
    decreases list.len(),
{
    if list.len() == 0 {
        Seq::empty()
    } else {
        colors_bytes(list.drop_last()) + color_bytes(list.last())
    }
}

impl Color {
    fn copy(&self) -> (r: Self)
        ensures
            r@ == self@,
    {
        let r = Color {
            name: vstd::slice::slice_to_vec(self.name.as_slice()),
            value: vstd::slice::slice_to_vec(self.value.as_slice()),
        };
        assert(r@ =~= self@);
        r
    }
}

/// The colours with all of these names taken out.
fn take_out(list: &Vec<Color>, which: &Option<Vec<u8>>) -> (r: Vec<Color>)
    ensures
        colors(r@) == without(
            colors(list@),
            match which {
                Some(name) => Some(name@),
                None => None,
            },
        ),
{
    let ghost one = match which {
        Some(name) => Some(name@),
        None => None,
    };
    let ghost all = colors(list@);
    let mut r: Vec<Color> = Vec::new();
    let mut i: usize = 0;
    assert(all.take(0) =~= Seq::empty());
    assert(colors(r@) =~= without(all.take(0), one));
    while i < list.len()
        invariant
            i <= list@.len(),
            all == colors(list@),
            one == (match which {
                Some(name) => Some(name@),
                None => None,
            }),
            colors(r@) == without(all.take(i as int), one),
        decreases list@.len() - i,
    {
        assert(all.take(i + 1).drop_last() =~= all.take(i as int));
        assert(all.take(i + 1).last() == list@[i as int]@);
        let name = &list[i].name;
        let taken = match which {
            Some(own) => bytes_equal(name.as_slice(), own.as_slice()),
            None => name.len() >= 2 && name[0] == 0x34 && name[1] == 0x3b,
        };
        if !taken {
            let ghost before = colors(r@);
            let c = list[i].copy();
            r.push(c);
            assert(colors(r@) =~= before.push(list@[i as int]@));
        }
        i = i + 1;
    }
    assert(all.take(list@.len() as int) =~= all);
    r
}

/// The colours with one more set.
fn put_color(list: Vec<Color>, name: Vec<u8>, value: &Vec<u8>) -> (r: Vec<Color>)
    ensures
        colors(r@) == with_color(colors(list@), name@, value@),
{
    if value.len() == 0 {
        return list;
    }
    let ghost view = ColorView { name: name@, value: value@ };
    let copy = vstd::slice::slice_to_vec(name.as_slice());
    let mut r = take_out(&list, &Some(copy));
    let ghost before = colors(r@);
    let c = Color { name, value: vstd::slice::slice_to_vec(value.as_slice()) };
    assert(c@ =~= view);
    r.push(c);
    assert(colors(r@) =~= before.push(view));
    r
}

fn palette_name_of(index: &Vec<u8>) -> (r: Vec<u8>)
    ensures
        r@ == palette_name(index@),
{
    let mut r: Vec<u8> = Vec::new();
    r.push(0x34);
    r.push(0x3b);
    extend_bytes(&mut r, index.as_slice());
    assert(r@ =~= palette_name(index@));
    r
}

fn number_name(n: u32) -> (r: Vec<u8>)
    ensures
        r@ == decimal(n as nat),
{
    let mut r: Vec<u8> = Vec::new();
    push_decimal(&mut r, n);
    assert(r@ =~= decimal(n as nat));
    r
}

fn put_pairs(list: Vec<Color>, params: &Vec<Vec<u8>>) -> (r: Vec<Color>)
    requires
        params@.len() > 0,
    ensures
        colors(r@) == with_pairs(
            colors(list@),
            strings(params@),
            ((params@.len() - 1) / 2) as nat,
        ),
{
    let ghost fields = strings(params@);
    let ghost before = colors(list@);
    let mut r = list;
    let count = (params.len() - 1) / 2;
    let mut n: usize = 0;
    while n < count
        invariant
            n <= count,
            0 < 2 * count + 1 <= params@.len() <= usize::MAX,
            fields == strings(params@),
            colors(r@) == with_pairs(before, fields, n as nat),
        decreases count - n,
    {
        r = put_color(r, palette_name_of(&params[2 * n + 1]), &params[2 * n + 2]);
        n = n + 1;
        assert(fields[2 * n - 1] == params@[2 * n - 1]@);
        assert(fields[2 * n as int] == params@[2 * n as int]@);
    }
    r
}

fn put_values(list: Vec<Color>, params: &Vec<Vec<u8>>, first: u32) -> (r: Vec<Color>)
    requires
        params@.len() > 0,
        10 <= first <= 12,
    ensures
        colors(r@) == with_values(
            colors(list@),
            strings(params@),
            first as nat,
            value_count(strings(params@), first as nat),
        ),
{
    let ghost fields = strings(params@);
    let ghost before = colors(list@);
    let mut r = list;
    let mut n: u32 = 0;
    while n < 13 - first && (n as usize) < params.len() - 1
        invariant
            params@.len() > 0,
            10 <= first <= 12,
            fields == strings(params@),
            n <= value_count(fields, first as nat),
            colors(r@) == with_values(before, fields, first as nat, n as nat),
        decreases 13 - n,
    {
        r = put_color(r, number_name(first + n), &params[n as usize + 1]);
        n = n + 1;
        assert(fields[n as int] == params@[n as int]@);
    }
    r
}

fn take_out_indices(list: Vec<Color>, params: &Vec<Vec<u8>>) -> (r: Vec<Color>)
    requires
        params@.len() > 0,
    ensures
        colors(r@) == without_indices(
            colors(list@),
            strings(params@),
            (params@.len() - 1) as nat,
        ),
{
    let ghost fields = strings(params@);
    let ghost before = colors(list@);
    let mut r = list;
    let mut n: usize = 0;
    while n < params.len() - 1
        invariant
            n <= params@.len() - 1,
            params@.len() > 0,
            fields == strings(params@),
            colors(r@) == without_indices(before, fields, n as nat),
        decreases params@.len() - n,
    {
        let name = palette_name_of(&params[n + 1]);
        r = take_out(&r, &Some(name));
        n = n + 1;
        assert(fields[n as int] == params@[n as int]@);
    }
    r
}

fn copy_colors(list: &Vec<Color>) -> (r: Vec<Color>)
    ensures
        colors(r@) == colors(list@),
{
    let mut r: Vec<Color> = Vec::new();
    let mut i: usize = 0;
    while i < list.len()
        invariant
            i <= list@.len(),
            colors(r@) =~= colors(list@).take(i as int),
        decreases list@.len() - i,
    {
        let ghost before = colors(r@);
        let c = list[i].copy();
        r.push(c);
        assert(colors(r@) =~= before.push(list@[i as int]@));
        i = i + 1;
    }
    assert(colors(r@) =~= colors(list@));
    r
}

/// The colours after an OSC (see [`osc_colors`]).
pub fn colors_after(list: &Vec<Color>, params: &Vec<Vec<u8>>) -> (r: Vec<Color>)
    ensures
        colors(r@) == osc_colors(colors(list@), strings(params@)),
{
    let ghost fields = strings(params@);
    proof {
        lemma_osc_has_one_number(fields);
    }
    let list = copy_colors(list);
    if params.len() == 0 {
        return list;
    }
    let code = &params[0];
    if field_is(code, 4) {
        put_pairs(list, params)
    } else if field_is(code, 10) {
        put_values(list, params, 10)
    } else if field_is(code, 11) {
        put_values(list, params, 11)
    } else if field_is(code, 12) {
        put_values(list, params, 12)
    } else if field_is(code, 104) {
        if params.len() == 1 || params.len() == 2 && params[1].len() == 0 {
            take_out(&list, &None)
        } else {
            take_out_indices(list, params)
        }
    } else if field_is(code, 110) {
        take_out(&list, &Some(number_name(10)))
    } else if field_is(code, 111) {
        take_out(&list, &Some(number_name(11)))
    } else if field_is(code, 112) {
        take_out(&list, &Some(number_name(12)))
    } else {
        list
    }
}

/// Appends the sequences that set the colours to `out`.
pub fn push_colors(out: &mut Vec<u8>, list: &Vec<Color>)
    ensures
        final(out)@ == old(out)@ + colors_bytes(colors(list@)),
{
    let ghost all = colors(list@);
    let mut i: usize = 0;
    assert(all.take(0) =~= Seq::empty());
    while i < list.len()
        invariant
            i <= list@.len(),
            all == colors(list@),
            out@ =~= old(out)@ + colors_bytes(all.take(i as int)),
        decreases list@.len() - i,
    {
        assert(all.take(i + 1).drop_last() =~= all.take(i as int));
        assert(all.take(i + 1).last() == list@[i as int]@);
        let ghost before = out@;
        extend_bytes(out, &[0x1b, 0x5d]);
        extend_bytes(out, list[i].name.as_slice());
        out.push(0x3b);
        extend_bytes(out, list[i].value.as_slice());
        out.push(0x07);
        assert(out@ =~= before + color_bytes(list@[i as int]@));
        i = i + 1;
    }
    assert(all.take(list@.len() as int) =~= all);
}

// ---------------------------------------------------------------------
// What holds of it
// ---------------------------------------------------------------------
/// The colours with a given name taken out are the others, in order.
proof fn lemma_without(list: Seq<ColorView>, which: Option<Seq<u8>>)
    ensures
        forall|i: int|
            0 <= i < without(list, which).len() ==> !names(
                which,
                (#[trigger] without(list, which)[i]).name,
            ) && list.contains(without(list, which)[i]),
        all_distinct(list) ==> all_distinct(without(list, which)),
    decreases list.len(),
{
    if list.len() > 0 {
        let front = list.drop_last();
        let last = list.last();
        let before = without(front, which);
        let now = without(list, which);
        lemma_without(front, which);
        assert forall|i: int| 0 <= i < now.len() implies !names(which, (#[trigger] now[i]).name)
            && list.contains(now[i]) by {
            if i < before.len() {
                assert(now[i] == before[i]);
                let k = choose|k: int| 0 <= k < front.len() && front[k] == before[i];
                assert(list[k] == now[i]);
            } else {
                assert(list[list.len() - 1] == now[i]);
            }
        }
        if all_distinct(list) {
            assert forall|i: int, j: int| 0 <= i < j < front.len() implies (
            #[trigger] front[i]).name != (#[trigger] front[j]).name by {
                assert(front[i] == list[i] && front[j] == list[j]);
            }
            assert forall|i: int, j: int| 0 <= i < j < now.len() implies (#[trigger] now[i]).name
                != (#[trigger] now[j]).name by {
                if j < before.len() {
                    assert(now[i] == before[i] && now[j] == before[j]);
                } else {
                    assert(now[i] == before[i]);
                    let k = choose|k: int| 0 <= k < front.len() && front[k] == before[i];
                    assert(list[k] == now[i] && list[list.len() - 1] == now[j]);
                }
            }
        }
    }
}

/// No two colours have the same name.
pub open spec fn all_distinct(list: Seq<ColorView>) -> bool {
    forall|i: int, j: int|
        0 <= i < j < list.len() ==> (#[trigger] list[i]).name != (#[trigger] list[j]).name
}

/// A colour that is set is there with its last value, and nothing else is
/// there under its name.
pub proof fn law_last_value_is_kept(list: Seq<ColorView>, name: Seq<u8>, value: Seq<u8>)
    requires
        value.len() > 0,
    ensures
        with_color(list, name, value).last() == (ColorView { name, value }),
        forall|i: int|
            0 <= i < with_color(list, name, value).len() - 1 ==> (#[trigger] with_color(
                list,
                name,
                value,
            )[i]).name != name,
{
    lemma_without(list, Some(name));
    let kept = without(list, Some(name));
    assert forall|i: int| 0 <= i < with_color(list, name, value).len() - 1 implies (
    #[trigger] with_color(list, name, value)[i]).name != name by {
        assert(with_color(list, name, value)[i] == kept[i]);
    }
}

/// Bytes that an OSC can carry in one field, other than a question.
pub open spec fn is_field(s: Seq<u8>) -> bool {
    &&& forall|i: int| 0 <= i < s.len() ==> 0x20 <= #[trigger] s[i] && s[i] != 0x3b
    &&& s != seq![0x3fu8]
}

/// The colour can be set by an OSC.
pub open spec fn is_color(c: ColorView) -> bool {
    &&& is_field(c.value) && c.value.len() > 0
    &&& c.name == decimal(10) || c.name == decimal(11) || c.name == decimal(12) || (
    exists|index: Seq<u8>| is_field(index) && c.name == #[trigger] palette_name(index))
}

/// The colours can be set by OSCs, and each is there once.
pub open spec fn colors_restorable(list: Seq<ColorView>) -> bool {
    &&& all_distinct(list)
    &&& forall|i: int| 0 <= i < list.len() ==> is_color(#[trigger] list[i])
}

proof fn lemma_without_restorable(list: Seq<ColorView>, which: Option<Seq<u8>>)
    requires
        colors_restorable(list),
    ensures
        colors_restorable(without(list, which)),
{
    lemma_without(list, which);
    let now = without(list, which);
    assert forall|i: int| 0 <= i < now.len() implies is_color(#[trigger] now[i]) by {
        let k = choose|k: int| 0 <= k < list.len() && list[k] == now[i];
        assert(is_color(list[k]));
    }
}

proof fn lemma_with_color_restorable(list: Seq<ColorView>, name: Seq<u8>, value: Seq<u8>)
    requires
        colors_restorable(list),
        value.len() > 0 ==> is_color(ColorView { name, value }),
    ensures
        colors_restorable(with_color(list, name, value)),
{
    lemma_without(list, Some(name));
    lemma_without_restorable(list, Some(name));
    let kept = without(list, Some(name));
    assert forall|i: int| 0 <= i < kept.len() implies (#[trigger] kept[i]).name != name by {
        assert(!names(Some(name), kept[i].name));
    }
}

/// Every field behind the first can be carried, and is no question.
pub open spec fn all_fields(params: Seq<Seq<u8>>) -> bool {
    forall|i: int| 1 <= i < params.len() ==> is_field(#[trigger] params[i])
}

proof fn lemma_with_pairs_restorable(list: Seq<ColorView>, params: Seq<Seq<u8>>, n: nat)
    requires
        colors_restorable(list),
        all_fields(params),
        2 * n < params.len(),
    ensures
        colors_restorable(with_pairs(list, params, n)),
    decreases n,
{
    if n > 0 {
        lemma_with_pairs_restorable(list, params, (n - 1) as nat);
        assert(is_field(params[2 * n - 1]));
        assert(is_field(params[2 * n as int]));
        let name = palette_name(params[2 * n - 1]);
        lemma_with_color_restorable(
            with_pairs(list, params, (n - 1) as nat),
            name,
            params[2 * n as int],
        );
    }
}

proof fn lemma_with_values_restorable(
    list: Seq<ColorView>,
    params: Seq<Seq<u8>>,
    first: nat,
    n: nat,
)
    requires
        colors_restorable(list),
        all_fields(params),
        10 <= first,
        first + n <= 13,
        n < params.len(),
    ensures
        colors_restorable(with_values(list, params, first, n)),
    decreases n,
{
    if n > 0 {
        lemma_with_values_restorable(list, params, first, (n - 1) as nat);
        assert(is_field(params[n as int]));
        lemma_with_color_restorable(
            with_values(list, params, first, (n - 1) as nat),
            decimal((first + n - 1) as nat),
            params[n as int],
        );
    }
}

proof fn lemma_without_indices_restorable(list: Seq<ColorView>, params: Seq<Seq<u8>>, n: nat)
    requires
        colors_restorable(list),
    ensures
        colors_restorable(without_indices(list, params, n)),
    decreases n,
{
    if n > 0 {
        lemma_without_indices_restorable(list, params, (n - 1) as nat);
        lemma_without_restorable(
            without_indices(list, params, (n - 1) as nat),
            Some(palette_name(params[n as int])),
        );
    }
}

/// An OSC leaves colours that can be set again.
pub proof fn lemma_osc_colors_restorable(list: Seq<ColorView>, params: Seq<Seq<u8>>)
    requires
        colors_restorable(list),
        osc_is(params, 4) || osc_is(params, 10) || osc_is(params, 11) || osc_is(params, 12)
            ==> all_fields(params),
    ensures
        colors_restorable(osc_colors(list, params)),
{
    lemma_osc_has_one_number(params);
    if osc_is(params, 4) {
        lemma_with_pairs_restorable(list, params, ((params.len() - 1) / 2) as nat);
    } else if osc_is(params, 10) {
        lemma_with_values_restorable(list, params, 10, value_count(params, 10));
    } else if osc_is(params, 11) {
        lemma_with_values_restorable(list, params, 11, value_count(params, 11));
    } else if osc_is(params, 12) {
        lemma_with_values_restorable(list, params, 12, value_count(params, 12));
    } else if osc_is(params, 104) {
        lemma_without_restorable(list, None);
        lemma_without_indices_restorable(list, params, (params.len() - 1) as nat);
    } else {
        lemma_without_restorable(list, Some(decimal(10)));
        lemma_without_restorable(list, Some(decimal(11)));
        lemma_without_restorable(list, Some(decimal(12)));
    }
}

/// The OSCs that set and reset colours.
pub open spec fn is_color_number(n: nat) -> bool {
    n == 4 || 10 <= n <= 12 || n == 104 || 110 <= n <= 112
}

/// Other OSCs change no colour.
pub proof fn lemma_other_oscs_set_no_color(list: Seq<ColorView>, params: Seq<Seq<u8>>)
    ensures
        params.len() == 0 ==> osc_colors(list, params) == list,
        forall|n: nat| #[trigger]
            osc_is(params, n) && !is_color_number(n) ==> osc_colors(list, params) == list,
{
    lemma_osc_has_one_number(params);
}

/// Nothing of that name is there, so nothing is taken out.
pub proof fn lemma_without_absent(list: Seq<ColorView>, name: Seq<u8>)
    requires
        forall|i: int| 0 <= i < list.len() ==> (#[trigger] list[i]).name != name,
    ensures
        without(list, Some(name)) == list,
    decreases list.len(),
{
    if list.len() > 0 {
        let front = list.drop_last();
        assert forall|i: int| 0 <= i < front.len() implies (#[trigger] front[i]).name != name by {
            assert(front[i] == list[i]);
        }
        lemma_without_absent(front, name);
        assert(list[list.len() - 1].name != name);
        assert(front.push(list.last()) =~= list);
    }
}

/// What an OSC of one palette entry does, and one of one other colour.
pub proof fn lemma_osc_sets_one_color(list: Seq<ColorView>, params: Seq<Seq<u8>>)
    ensures
        params.len() == 3 && osc_is(params, 4) ==> osc_colors(list, params) == with_color(
            list,
            palette_name(params[1]),
            params[2],
        ),
        forall|n: nat|
            10 <= n <= 12 && params.len() == 2 && #[trigger] osc_is(params, n) ==> osc_colors(
                list,
                params,
            ) == with_color(list, decimal(n), params[1]),
{
    lemma_osc_has_one_number(params);
    reveal_with_fuel(with_pairs, 2);
    reveal_with_fuel(with_values, 2);
}

// ---------------------------------------------------------------------
// Colour by colour
// ---------------------------------------------------------------------
/// What the colour with this name is set to, if it is.
pub open spec fn value_of(list: Seq<ColorView>, name: Seq<u8>) -> Option<Seq<u8>>
    decreases list.len(),
{
    if list.len() == 0 {
        None
    } else if list.last().name == name {
        Some(list.last().value)
    } else {
        value_of(list.drop_last(), name)
    }
}

/// Taking colours out takes out those that are named, and leaves the others
/// set to what they were.
pub proof fn law_taking_out_leaves_the_others(
    list: Seq<ColorView>,
    which: Option<Seq<u8>>,
    name: Seq<u8>,
)
    ensures
        value_of(without(list, which), name) == if which == Some(name) || which is None
            && name.len() >= 2 && name[0] == 0x34 && name[1] == 0x3b {
            None
        } else {
            value_of(list, name)
        },
    decreases list.len(),
{
    if list.len() > 0 {
        let before = without(list.drop_last(), which);
        law_taking_out_leaves_the_others(list.drop_last(), which, name);
        assert(before.push(list.last()).drop_last() =~= before);
    }
}

/// Setting a colour sets that one, to the value, and leaves the others set to
/// what they were. An empty value sets nothing.
pub proof fn law_setting_leaves_the_others(
    list: Seq<ColorView>,
    set: Seq<u8>,
    value: Seq<u8>,
    name: Seq<u8>,
)
    ensures
        value_of(with_color(list, set, value), name) == if name == set && value.len() > 0 {
            Some(value)
        } else {
            value_of(list, name)
        },
{
    law_taking_out_leaves_the_others(list, Some(set), name);
    let before = without(list, Some(set));
    assert(before.push(ColorView { name: set, value }).drop_last() =~= before);
}

/// `4 ; index ; value ...` takes its fields in pairs: one more pair sets one
/// more entry of the palette, and an index without a value sets nothing.
pub proof fn law_palette_is_set_in_pairs(
    list: Seq<ColorView>,
    params: Seq<Seq<u8>>,
    index: Seq<u8>,
    value: Seq<u8>,
    name: Seq<u8>,
)
    requires
        params.len() % 2 == 1,
        params[0] == seq![0x34u8],
    ensures
        params.len() == 1 ==> osc_colors(list, params) == list,
        osc_colors(list, params.push(index)) == osc_colors(list, params),
        value_of(osc_colors(list, params.push(index).push(value)), name) == if name
            == seq![0x34u8, 0x3bu8] + index && value.len() > 0 {
            Some(value)
        } else {
            value_of(osc_colors(list, params), name)
        },
{
    assert(decimal(4) =~= seq![0x34u8]);
    let one = params.push(index);
    let two = one.push(value);
    let n = ((params.len() - 1) / 2) as nat;
    assert(osc_is(params, 4) && osc_is(one, 4) && osc_is(two, 4));
    assert((one.len() - 1) / 2 == n);
    assert((two.len() - 1) / 2 == n + 1);
    lemma_same_pairs(list, params, one, n);
    lemma_same_pairs(list, params, two, n);
    assert(two[2 * (n + 1) - 1] == index);
    assert(two[2 * (n + 1) as int] == value);
    law_setting_leaves_the_others(osc_colors(list, params), palette_name(index), value, name);
}

proof fn lemma_same_pairs(list: Seq<ColorView>, a: Seq<Seq<u8>>, b: Seq<Seq<u8>>, n: nat)
    requires
        2 * n < a.len() <= b.len(),
        forall|i: int| 0 <= i < a.len() ==> a[i] == b[i],
    ensures
        with_pairs(list, a, n) == with_pairs(list, b, n),
    decreases n,
{
    if n > 0 {
        lemma_same_pairs(list, a, b, (n - 1) as nat);
        assert(a[2 * n - 1] == b[2 * n - 1]);
        assert(a[2 * n as int] == b[2 * n as int]);
    }
}

/// `10 ; value ; value ...` sets the foreground, then the background, then the
/// cursor, and `11` and `12` start with those: each value is for the next
/// number up to 12, and one more sets nothing.
pub proof fn law_special_colors_are_set_in_turn(
    list: Seq<ColorView>,
    params: Seq<Seq<u8>>,
    first: nat,
    value: Seq<u8>,
    name: Seq<u8>,
)
    requires
        10 <= first <= 12,
        params.len() > 0,
        params[0] == seq![0x31u8, (0x30 + (first - 10)) as u8],
    ensures
        params.len() == 1 ==> osc_colors(list, params) == list,
        ({
            let number = first + params.len() - 1;
            value_of(osc_colors(list, params.push(value)), name) == if number <= 12 && value.len()
                > 0 && name == seq![0x31u8, (0x30 + (number - 10)) as u8] {
                Some(value)
            } else {
                value_of(osc_colors(list, params), name)
            }
        }),
{
    let more = params.push(value);
    lemma_special_names();
    assert(osc_is(params, first) && osc_is(more, first));
    lemma_osc_has_one_number(params);
    lemma_osc_has_one_number(more);
    let n = value_count(params, first);
    lemma_same_values(list, params, more, first, n);
    let number = first + params.len() - 1;
    if number <= 12 {
        assert(n == params.len() - 1);
        assert(value_count(more, first) == n + 1);
        law_setting_leaves_the_others(
            osc_colors(list, params),
            decimal(number as nat),
            value,
            name,
        );
    } else {
        assert(value_count(more, first) == n);
    }
}

proof fn lemma_special_names()
    ensures
        forall|n: nat|
            10 <= n <= 12 ==> #[trigger] decimal(n) == seq![0x31u8, (0x30 + (n - 10)) as u8],
{
    reveal_with_fuel(decimal, 3);
    assert(decimal(10) =~= seq![0x31u8, 0x30u8]);
    assert(decimal(11) =~= seq![0x31u8, 0x31u8]);
    assert(decimal(12) =~= seq![0x31u8, 0x32u8]);
}

proof fn lemma_same_values(
    list: Seq<ColorView>,
    a: Seq<Seq<u8>>,
    b: Seq<Seq<u8>>,
    first: nat,
    n: nat,
)
    requires
        n < a.len() <= b.len(),
        forall|i: int| 0 <= i < a.len() ==> a[i] == b[i],
    ensures
        with_values(list, a, first, n) == with_values(list, b, first, n),
    decreases n,
{
    if n > 0 {
        lemma_same_values(list, a, b, first, (n - 1) as nat);
        assert(a[n as int] == b[n as int]);
    }
}

/// `104` with indices resets these entries of the palette, and without any the
/// whole palette; `110`, `111` and `112` reset the foreground, the background
/// and the cursor. The other colours stay as they were.
pub proof fn law_colors_are_reset(list: Seq<ColorView>, params: Seq<Seq<u8>>, name: Seq<u8>)
    requires
        params.len() > 0,
    ensures
        ({
            let now = value_of(osc_colors(list, params), name);
            let all = params.len() == 1 || params.len() == 2 && params[1].len() == 0;
            let is_entry = name.len() >= 2 && name[0] == 0x34 && name[1] == 0x3b;
            let is_named = exists|i: int|
                1 <= i < params.len() && name == seq![0x34u8, 0x3bu8] + #[trigger] params[i];
            &&& params[0] == seq![0x31u8, 0x30u8, 0x34u8] ==> now == (if all && is_entry || !all
                && is_named {
                None
            } else {
                value_of(list, name)
            })
            &&& params[0] == seq![0x31u8, 0x31u8, 0x30u8] ==> now == (if name == seq![
                0x31u8,
                0x30u8,
            ] {
                None
            } else {
                value_of(list, name)
            })
            &&& params[0] == seq![0x31u8, 0x31u8, 0x31u8] ==> now == (if name == seq![
                0x31u8,
                0x31u8,
            ] {
                None
            } else {
                value_of(list, name)
            })
            &&& params[0] == seq![0x31u8, 0x31u8, 0x32u8] ==> now == (if name == seq![
                0x31u8,
                0x32u8,
            ] {
                None
            } else {
                value_of(list, name)
            })
        }),
{
    reveal_with_fuel(decimal, 4);
    assert(decimal(104) =~= seq![0x31u8, 0x30u8, 0x34u8]);
    assert(decimal(110) =~= seq![0x31u8, 0x31u8, 0x30u8]);
    assert(decimal(111) =~= seq![0x31u8, 0x31u8, 0x31u8]);
    assert(decimal(112) =~= seq![0x31u8, 0x31u8, 0x32u8]);
    lemma_special_names();
    lemma_osc_has_one_number(params);
    assert(params[0] == decimal(104) ==> osc_is(params, 104));
    assert(params[0] == decimal(110) ==> osc_is(params, 110));
    assert(params[0] == decimal(111) ==> osc_is(params, 111));
    assert(params[0] == decimal(112) ==> osc_is(params, 112));
    law_taking_out_leaves_the_others(list, None, name);
    law_taking_out_leaves_the_others(list, Some(decimal(10)), name);
    law_taking_out_leaves_the_others(list, Some(decimal(11)), name);
    law_taking_out_leaves_the_others(list, Some(decimal(12)), name);
    lemma_without_indices(list, params, (params.len() - 1) as nat, name);
    assert(decimal(10) == seq![0x31u8, 0x30u8]);
    assert(decimal(11) == seq![0x31u8, 0x31u8]);
    assert(decimal(12) == seq![0x31u8, 0x32u8]);
}

proof fn lemma_without_indices(
    list: Seq<ColorView>,
    params: Seq<Seq<u8>>,
    n: nat,
    name: Seq<u8>,
)
    requires
        n < params.len(),
    ensures
        value_of(without_indices(list, params, n), name) == if exists|i: int|
            1 <= i <= n && name == seq![0x34u8, 0x3bu8] + #[trigger] params[i] {
            None
        } else {
            value_of(list, name)
        },
    decreases n,
{
    if n > 0 {
        lemma_without_indices(list, params, (n - 1) as nat, name);
        law_taking_out_leaves_the_others(
            without_indices(list, params, (n - 1) as nat),
            Some(palette_name(params[n as int])),
            name,
        );
    }
}

/// A colour is set again by `ESC ] name ; value BEL`, one after the other.
pub proof fn law_colors_are_written_out(list: Seq<ColorView>, c: ColorView)
    ensures
        colors_bytes(Seq::empty()).len() == 0,
        colors_bytes(list.push(c)) == colors_bytes(list) + seq![0x1bu8, 0x5du8] + c.name
            + seq![0x3bu8] + c.value + seq![0x07u8],
{
    assert(list.push(c).drop_last() =~= list);
    assert(color_bytes(c) =~= seq![0x1bu8, 0x5du8] + c.name + seq![0x3bu8] + c.value
        + seq![0x07u8]);
    assert(colors_bytes(list.push(c)) =~= colors_bytes(list) + seq![0x1bu8, 0x5du8] + c.name
        + seq![0x3bu8] + c.value + seq![0x07u8]);
}

} // verus!
