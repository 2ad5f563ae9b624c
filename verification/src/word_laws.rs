//! What the words and numbers on the screen are made of.
use vstd::prelude::*;
use crate::labels::{
    alarming, crc_tone, cut_left, downlink_kind_words, first_true, has_device, listed, listed_upto,
    percent, sat_words, Tone,
};
use crate::model::TelemetryField;
use crate::ordering::{
    before, goes_first, has_group, is_grouping, is_order, law_order_is_total, positions, FieldGroup,
};
use crate::satellite::{DownlinkDef, ImageDef, SatelliteDefinition};
use crate::session::InputKind;
use crate::text::{decimal, hex_value, law_decimal_is_read_back, number};
use crate::words::{
    hexadecimal, is_space, lowered, occurs, padded, signed_decimal, stands_at, trimmed,
};

verus! {

/// The code points of white space.
#[verifier::opaque]
pub open spec fn blank(code: int) -> bool {
    ||| 9 <= code <= 13
    ||| code == 32
    ||| code == 133
    ||| code == 160
    ||| code == 5760
    ||| 8192 <= code <= 8202
    ||| code == 8232
    ||| code == 8233
    ||| code == 8239
    ||| code == 8287
    ||| code == 12288
}

pub proof fn lemma_blank(c: char)
    ensures
        is_space(c) <==> blank(c as int),
{
    reveal(blank);
}

/// From `a` to `b` the text is `middle`, and elsewhere it is white space.
pub open spec fn blank_around(text: Seq<char>, middle: Seq<char>, a: int, b: int) -> bool {
    &&& 0 <= a <= b <= text.len()
    &&& text.subrange(a, b) == middle
    &&& forall|i: int| 0 <= i < a ==> blank(#[trigger] text[i] as int)
    &&& forall|i: int| b <= i < text.len() ==> blank(#[trigger] text[i] as int)
}

proof fn lemma_blank_before(text: Seq<char>, middle: Seq<char>, a: int, b: int)
    requires
        text.len() > 0,
        blank(text[0] as int),
        blank_around(text.drop_first(), middle, a, b),
    ensures
        blank_around(text, middle, a + 1, b + 1),
{
    let rest = text.drop_first();
    assert(text.subrange(a + 1, b + 1) =~= rest.subrange(a, b));
    assert forall|i: int| 0 <= i < a + 1 implies blank(#[trigger] text[i] as int) by {
        if i > 0 {
            assert(rest[i - 1] == text[i]);
        }
    }
    assert forall|i: int| b + 1 <= i < text.len() implies blank(#[trigger] text[i] as int) by {
        assert(rest[i - 1] == text[i]);
    }
}

proof fn lemma_blank_behind(text: Seq<char>, middle: Seq<char>, a: int, b: int)
    requires
        text.len() > 0,
        blank(text.last() as int),
        blank_around(text.drop_last(), middle, a, b),
    ensures
        blank_around(text, middle, a, b),
{
    let rest = text.drop_last();
    assert(text.subrange(a, b) =~= rest.subrange(a, b));
    assert forall|i: int| 0 <= i < a implies blank(#[trigger] text[i] as int) by {
        assert(rest[i] == text[i]);
    }
    assert forall|i: int| b <= i < text.len() implies blank(#[trigger] text[i] as int) by {
        if i < text.len() - 1 {
            assert(rest[i] == text[i]);
        }
    }
}

proof fn lemma_blank_around(text: Seq<char>) -> (ends: (int, int))
    ensures
        blank_around(text, trimmed(text), ends.0, ends.1),
    decreases text.len(),
{
    if text.len() > 0 {
        lemma_blank(text[0]);
        lemma_blank(text.last());
    }
    if text.len() > 0 && blank(text[0] as int) {
        let e = lemma_blank_around(text.drop_first());
        lemma_blank_before(text, trimmed(text), e.0, e.1);
        (e.0 + 1, e.1 + 1)
    } else if text.len() > 0 && blank(text.last() as int) {
        let e = lemma_blank_around(text.drop_last());
        lemma_blank_behind(text, trimmed(text), e.0, e.1);
        e
    } else {
        assert(text.subrange(0, text.len() as int) =~= text);
        (0, text.len() as int)
    }
}

proof fn lemma_trimmed_ends(text: Seq<char>)
    ensures
        trimmed(text).len() > 0 ==> !blank(trimmed(text)[0] as int) && !blank(
            trimmed(text).last() as int,
        ),
    decreases text.len(),
{
    if text.len() > 0 {
        lemma_blank(text[0]);
        lemma_blank(text.last());
        lemma_trimmed_ends(text.drop_first());
        lemma_trimmed_ends(text.drop_last());
    }
}

/// Trimming takes away the white space at both ends and nothing else.
pub proof fn law_ends_are_trimmed(text: Seq<char>)
    ensures
        exists|a: int, b: int| #[trigger] blank_around(text, trimmed(text), a, b),
        trimmed(text).len() > 0 ==> !blank(trimmed(text)[0] as int) && !blank(
            trimmed(text).last() as int,
        ),
{
    let e = lemma_blank_around(text);
    assert(blank_around(text, trimmed(text), e.0, e.1));
    lemma_trimmed_ends(text);
}

/// Text is put in lower case letter by letter, by the place in the alphabet.
pub proof fn law_lower_case(text: Seq<char>, i: int)
    requires
        0 <= i < text.len(),
    ensures
        lowered(text).len() == text.len(),
        'A' <= text[i] <= 'Z' ==> lowered(text)[i] as int - 'a' as int == text[i] as int - 'A' as int,
        !('A' <= text[i] <= 'Z') ==> lowered(text)[i] == text[i],
{
}

/// A text holds another if it is that other with something before it and behind it.
pub proof fn law_found_within(hay: Seq<char>, needle: Seq<char>)
    ensures
        occurs(hay, needle) <==> exists|before: Seq<char>, behind: Seq<char>|
            hay == #[trigger] (before + needle + behind),
{
    if occurs(hay, needle) {
        let at = choose|at: int| stands_at(hay, needle, at);
        let before = hay.take(at);
        let behind = hay.skip(at + needle.len());
        assert(hay =~= before + needle + behind);
    }
    if exists|before: Seq<char>, behind: Seq<char>| hay == #[trigger] (before + needle + behind) {
        let (before, behind) = choose|before: Seq<char>, behind: Seq<char>|
            hay == #[trigger] (before + needle + behind);
        let at = before.len() as int;
        assert(hay.subrange(at, at + needle.len()) =~= needle);
        assert(stands_at(hay, needle, at));
    }
}

/// A padded text ends in the text and has only the filling before it, as much as is
/// needed for the width.
pub proof fn law_padding(text: Seq<char>, fill: char, width: nat)
    ensures
        ({
            let p = padded(text, fill, width);
            let extra = p.len() - text.len();
            &&& p.len() == if text.len() < width {
                width
            } else {
                text.len()
            }
            &&& forall|i: int| 0 <= i < extra ==> #[trigger] p[i] == fill
            &&& forall|i: int| 0 <= i < text.len() ==> p[extra + i] == #[trigger] text[i]
        }),
{
}

/// The number that hexadecimal digits stand for, the high one first.
pub open spec fn hex_number(text: Seq<char>) -> nat
    decreases text.len(),
{
    if text.len() == 0 {
        0
    } else {
        16 * hex_number(text.drop_last()) + hex_value(text.last()).unwrap()
    }
}

/// A number in hexadecimal is written in digits that stand for it, in capital letters, and
/// begins with a zero only if it is zero.
pub proof fn law_hexadecimal_is_read_back(n: nat)
    ensures
        hexadecimal(n).len() > 0,
        forall|i: int|
            0 <= i < hexadecimal(n).len() ==> hex_value(#[trigger] hexadecimal(n)[i]) is Some && !(
            'a' <= hexadecimal(n)[i] <= 'f'),
        hex_number(hexadecimal(n)) == n,
        hexadecimal(n)[0] == '0' ==> n == 0,
        n == 0 ==> hexadecimal(n).len() == 1,
    decreases n,
{
    if n < 16 {
        reveal_with_fuel(hex_number, 2);
        assert(hexadecimal(n).drop_last() =~= Seq::empty());
    } else {
        law_hexadecimal_is_read_back(n / 16);
        assert(hexadecimal(n).drop_last() =~= hexadecimal(n / 16));
        assert(hexadecimal(n)[0] == hexadecimal(n / 16)[0]);
    }
}

/// A negative number has a minus before its figures, and no other number has.
pub proof fn law_signed_number_is_read_back(n: int)
    ensures
        n < 0 <==> signed_decimal(n)[0] == '-',
        n >= 0 ==> number(signed_decimal(n)) == n,
        n < 0 ==> number(signed_decimal(n).skip(1)) == -n,
        n < 0 ==> signed_decimal(n)[1] != '0',
{
    if n < 0 {
        reveal_strlit("-");
        law_decimal_is_read_back((-n) as nat);
        assert(signed_decimal(n).skip(1) =~= decimal((-n) as nat));
    } else {
        law_decimal_is_read_back(n as nat);
    }
}

/// The hundredths that were read are rounded down and stay within a hundred.
pub proof fn law_share_is_rounded_down(done: u64, total: u64)
    ensures
        0 <= percent(done, total) <= 100,
        total == 0 ==> percent(done, total) == 0,
        total > 0 && done < total && done <= u64::MAX / 100 ==> percent(done, total) * total <= 100
            * done && 100 * done < (percent(done, total) + 1) * total,
        total > 0 && done >= total && done <= u64::MAX / 100 ==> percent(done, total) == 100,
{
    if total > 0 && done <= u64::MAX / 100 {
        let q = (done * 100) / total as int;
        vstd::arithmetic::div_mod::lemma_fundamental_div_mod(done * 100, total as int);
        vstd::arithmetic::div_mod::lemma_div_pos_is_pos(done * 100, total as int);
        assert(total * q == q * total) by (nonlinear_arith);
        assert((q + 1) * total == q * total + total) by (nonlinear_arith);
        if done < total {
            assert(q < 100) by (nonlinear_arith)
                requires
                    q * total <= 100 * done,
                    done < total,
            ;
        } else {
            assert(q >= 100) by (nonlinear_arith)
                requires
                    100 * done < (q + 1) * total,
                    done >= total,
                    total > 0,
            ;
        }
    } else if total > 0 {
        vstd::arithmetic::div_mod::lemma_div_pos_is_pos(
            if done * 100 > u64::MAX {
                u64::MAX as int
            } else {
                done * 100
            },
            total as int,
        );
    }
}

/// The checksums are good while no more of them fail than hold.
pub proof fn law_checksum_colour(crc_ok: u64, crc_fail: u64)
    requires
        crc_ok + crc_fail <= u64::MAX / 2,
    ensures
        crc_tone(crc_ok, crc_fail) == Tone::Muted <==> crc_ok == 0 && crc_fail == 0,
        crc_tone(crc_ok, crc_fail) == Tone::Good <==> crc_ok >= crc_fail && crc_ok > 0,
        crc_tone(crc_ok, crc_fail) == Tone::Bad <==> crc_ok < crc_fail,
{
}

/// A text that is cut keeps its end, one character less than there is room for.
pub proof fn law_cut_text_keeps_its_end(text: Seq<char>, max_chars: int)
    requires
        1 <= max_chars < text.len(),
    ensures
        cut_left(text, max_chars).len() == max_chars,
        cut_left(text, max_chars)[0] as int == 0x2026,
        forall|i: int|
            1 <= i < max_chars ==> #[trigger] cut_left(text, max_chars)[i] == text[text.len()
                - max_chars + i],
{
}

/// The satellite's name, in any case, or its number holds the filter.
pub open spec fn sought(satellite: SatelliteDefinition, filter: Seq<char>) -> bool {
    ||| filter.len() == 0
    ||| occurs(lowered(satellite.satellite.name@), lowered(filter))
    ||| occurs(decimal(satellite.satellite.norad_id as nat), lowered(filter))
}

/// The list shows exactly the satellites whose name, in any case, or whose number holds
/// the filter, in order; without a filter it shows all of them.
pub proof fn law_list_is_exact(satellites: Seq<SatelliteDefinition>, filter: Seq<char>, n: nat)
    requires
        n <= satellites.len() <= usize::MAX,
    ensures
        forall|i: int|
            0 <= i < n ==> (listed_upto(satellites, filter, n).contains(i as usize)
                <==> #[trigger] sought(satellites[i], filter)),
        forall|a: int, b: int|
            0 <= a < b < listed_upto(satellites, filter, n).len() ==> listed_upto(
                satellites,
                filter,
                n,
            )[a] < listed_upto(satellites, filter, n)[b],
        forall|a: int|
            0 <= a < listed_upto(satellites, filter, n).len() ==> #[trigger] listed_upto(
                satellites,
                filter,
                n,
            )[a] < n,
    decreases n,
{
    if n > 0 {
        let m = (n - 1) as nat;
        law_list_is_exact(satellites, filter, m);
        let before = listed_upto(satellites, filter, m);
        let all = listed_upto(satellites, filter, n);
        assert forall|i: int| 0 <= i < n implies (all.contains(i as usize)
            <==> #[trigger] sought(satellites[i], filter)) by {
            assert(listed(satellites[i], filter) == sought(satellites[i], filter));
            if i < m {
                if before.contains(i as usize) {
                    let k = choose|k: int| 0 <= k < before.len() && before[k] == i as usize;
                    assert(all[k] == i as usize);
                }
                if all.contains(i as usize) {
                    let k = choose|k: int| 0 <= k < all.len() && all[k] == i as usize;
                    assert(before[k] == i as usize);
                }
            } else {
                if listed(satellites[i], filter) {
                    assert(all[all.len() - 1] == i as usize);
                } else if all.contains(i as usize) {
                    let k = choose|k: int| 0 <= k < all.len() && all[k] == i as usize;
                    assert(before[k] < m);
                }
            }
        }
    }
}

/// The first mark is found, if there is one.
pub proof fn law_first_mark(flags: Seq<bool>, from: int)
    requires
        0 <= from,
    ensures
        match first_true(flags, from) {
            Some(i) => from <= i < flags.len() && flags[i] && forall|j: int|
                from <= j < i ==> !#[trigger] flags[j],
            None => forall|j: int| from <= j < flags.len() ==> !#[trigger] flags[j],
        },
    decreases flags.len() - from,
{
    if from < flags.len() && !flags[from] {
        law_first_mark(flags, from + 1);
    }
}

/// A status line alarms wherever one of the words for trouble stands in it, in any case.
pub proof fn law_trouble_is_seen(before: Seq<char>, behind: Seq<char>, status: Seq<char>)
    requires
        ({
            let low = lowered(status);
            ||| low == before + "failed"@ + behind
            ||| low == before + "error"@ + behind
            ||| low == before + "unsupported"@ + behind
            ||| low == before + "requires"@ + behind
            ||| low == before + "missing"@ + behind
        }),
    ensures
        alarming(status),
{
    law_found_within(lowered(status), "failed"@);
    law_found_within(lowered(status), "error"@);
    law_found_within(lowered(status), "unsupported"@);
    law_found_within(lowered(status), "requires"@);
    law_found_within(lowered(status), "missing"@);
}

/// A text stands before another if it is the beginning of it, or if it has the lower
/// character where the two first differ.
pub proof fn law_dictionary_order(
    start: Seq<char>,
    x: char,
    y: char,
    rest: Seq<char>,
    other: Seq<char>,
)
    ensures
        before(start, start.push(x) + rest),
        !before(start.push(x) + rest, start),
        x < y ==> before(start.push(x) + rest, start.push(y) + other),
        y < x ==> !before(start.push(x) + rest, start.push(y) + other),
    decreases start.len(),
{
    let a = start.push(x) + rest;
    let b = start.push(y) + other;
    if start.len() > 0 {
        let s = start.drop_first();
        assert(a.drop_first() =~= s.push(x) + rest);
        assert(b.drop_first() =~= s.push(y) + other);
        assert(a[0] == start[0] && b[0] == start[0]);
        law_dictionary_order(s, x, y, rest, other);
    }
}

/// The fields of a group are all those with its name, in their order.
pub proof fn law_fields_of_a_group(fields: Seq<TelemetryField>, name: Seq<char>, n: nat)
    requires
        n <= fields.len() <= usize::MAX,
    ensures
        forall|i: int|
            0 <= i < n ==> (positions(fields, name, n).contains(i as usize)
                <==> (#[trigger] fields[i]).group@ == name),
        forall|a: int, b: int|
            0 <= a < b < positions(fields, name, n).len() ==> positions(fields, name, n)[a]
                < positions(fields, name, n)[b],
        forall|a: int|
            0 <= a < positions(fields, name, n).len() ==> #[trigger] positions(fields, name, n)[a]
                < n,
    decreases n,
{
    if n > 0 {
        let m = (n - 1) as nat;
        law_fields_of_a_group(fields, name, m);
        let earlier = positions(fields, name, m);
        let all = positions(fields, name, n);
        assert forall|i: int| 0 <= i < n implies (all.contains(i as usize) <==> (
        #[trigger] fields[i]).group@ == name) by {
            if i < m {
                if earlier.contains(i as usize) {
                    let k = choose|k: int| 0 <= k < earlier.len() && earlier[k] == i as usize;
                    assert(all[k] == i as usize);
                }
                if all.contains(i as usize) {
                    let k = choose|k: int| 0 <= k < all.len() && all[k] == i as usize;
                    assert(earlier[k] == i as usize);
                }
            } else {
                if fields[i].group@ == name {
                    assert(all[all.len() - 1] == i as usize);
                } else if all.contains(i as usize) {
                    let k = choose|k: int| 0 <= k < all.len() && all[k] == i as usize;
                    assert(earlier[k] < m);
                }
            }
        }
    }
}

/// A satellite is shown with its first other name in brackets, if it has one.
pub proof fn law_names_of_satellites(satellite: SatelliteDefinition)
    ensures
        ({
            let name = satellite.satellite.name@;
            let others = satellite.satellite.aliases@;
            let shown = sat_words(satellite);
            &&& others.len() == 0 ==> shown == name
            &&& others.len() > 0 ==> {
                &&& shown.len() == name.len() + others[0]@.len() + 3
                &&& shown.take(name.len() as int) == name
                &&& shown.subrange(name.len() as int + 2, shown.len() - 1) == others[0]@
                &&& shown[name.len() as int] == ' ' && shown[name.len() as int + 1] == '('
                &&& shown.last() == ')'
            }
        }),
{
    let name = satellite.satellite.name@;
    let others = satellite.satellite.aliases@;
    let shown = sat_words(satellite);
    reveal_strlit(" (");
    reveal_strlit(")");
    if others.len() > 0 {
        assert(shown.take(name.len() as int) =~= name);
        assert(shown.subrange(name.len() as int + 2, shown.len() - 1) =~= others[0]@);
    }
}

/// An order of names holds every position once, and no name stands before an earlier one.
pub proof fn law_names_are_ordered(names: Seq<String>, order: Seq<usize>)
    requires
        is_order(names, order, names.len() as int),
    ensures
        order.len() == names.len(),
        forall|i: int| 0 <= i < names.len() ==> #[trigger] order.contains(i as usize),
        forall|k: int| 0 <= k < order.len() ==> #[trigger] order[k] < names.len(),
        forall|a: int, b: int|
            #![trigger order[a], order[b]]
            0 <= a < b < order.len() ==> !before(
                names[order[b] as int]@,
                names[order[a] as int]@,
            ) && (names[order[a] as int]@ == names[order[b] as int]@ ==> order[a] < order[b]),
{
    assert forall|a: int, b: int|
        #![trigger order[a], order[b]]
        0 <= a < b < order.len() implies !before(
        names[order[b] as int]@,
        names[order[a] as int]@,
    ) && (names[order[a] as int]@ == names[order[b] as int]@ ==> order[a] < order[b]) by {
        assert(goes_first(names, order[a] as int, order[b] as int));
        law_order_is_total(names[order[a] as int]@, names[order[b] as int]@);
    }
}

/// The groups of fields stand in the order of their names, none of them twice or empty, and
/// hold every field once.
pub proof fn law_groups_hold_all_fields(
    fields: Seq<TelemetryField>,
    groups: Seq<FieldGroup>,
    i: int,
)
    requires
        fields.len() <= usize::MAX,
        is_grouping(fields, groups, fields.len()),
        0 <= i < fields.len(),
    ensures
        exists|g: int|
            0 <= g < groups.len() && #[trigger] groups[g].name@ == fields[i].group@
                && groups[g].fields@.contains(i as usize),
        forall|g: int|
            0 <= g < groups.len() && (#[trigger] groups[g]).fields@.contains(i as usize)
                ==> groups[g].name@ == fields[i].group@,
        forall|g: int, h: int|
            0 <= g < h < groups.len() ==> before(
                #[trigger] groups[g].name@,
                #[trigger] groups[h].name@,
            ),
        forall|g: int| 0 <= g < groups.len() ==> (#[trigger] groups[g]).fields@.len() > 0,
{
    assert(has_group(groups, fields[i].group@));
    let g = choose|g: int| 0 <= g < groups.len() && #[trigger] groups[g].name@ == fields[i].group@;
    law_fields_of_a_group(fields, groups[g].name@, fields.len());
    assert(groups[g].fields@.contains(i as usize));
    assert forall|h: int|
        0 <= h < groups.len() && (#[trigger] groups[h]).fields@.contains(
            i as usize,
        ) implies groups[h].name@ == fields[i].group@ by {
        law_fields_of_a_group(fields, groups[h].name@, fields.len());
    }
    assert forall|a: int, b: int| 0 <= a < b < groups.len() implies before(
        #[trigger] groups[a].name@,
        #[trigger] groups[b].name@,
    ) by {}
}

/// SSTV downlinks are named as such, and the others by what they need.
pub proof fn law_words_for_inputs(downlink: DownlinkDef, kind: Option<InputKind>)
    ensures
        (downlink.image matches Some(ImageDef::Sstv {  })) ==> downlink_kind_words(downlink, kind)
            == "audio (SSTV)"@,
        !(downlink.image matches Some(ImageDef::Sstv {  })) ==> downlink_kind_words(downlink, kind)
            == match kind {
            Some(InputKind::Audio) => "audio"@,
            Some(InputKind::Iq) => "IQ"@,
            Some(InputKind::FmAudio) => "FM audio"@,
            None => "unsupported"@,
        },
{
}

/// A device is there if its name is in the list.
pub proof fn law_device_is_listed(present: Seq<String>, i: int)
    requires
        0 <= i < present.len(),
    ensures
        has_device(present, present[i]@),
        !has_device(Seq::<String>::empty(), present[i]@),
{
}

} // verus!
