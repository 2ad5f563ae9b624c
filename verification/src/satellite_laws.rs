//! Which satellite definitions are valid, and what is said of the others.
use vstd::prelude::*;
use crate::model::ConfigError;
use crate::satellite::{
    candidates, definition_fault, downlink_fault, downlinks_fault, fec_fault, field_fault,
    fields_fault, find_text, framer_fault, missing_field, modem_fault, pipeline_fault, repeated,
    reports, schema_fault, schemas_fault, text_at, variant_scope, variants_fault, zero_at,
    DownlinkDef, FecDef, FieldEncoding, FramerDef, ImageDef, ModemDef, Real32, SatelliteDefinition,
    TelemetryFieldDef, TelemetrySchemaDef, TelemetryVariantDef,
};
use crate::words::{occurs, stands_at};

verus! {

/// The single-precision number with these bits is above zero, or no number at all.
pub open spec fn above_zero(v: Real32) -> bool {
    0 < v.bits < 0x8000_0000 || v.bits > 0xFF80_0000
}

/// The single-precision number with these bits is a number, and not infinite.
pub open spec fn is_number(v: Real32) -> bool {
    v.bits < 0x7F80_0000 || 0x8000_0000 <= v.bits < 0xFF80_0000
}

/// The single-precision number with these bits is zero, of either sign, or between zero
/// and one, whose bits are 127 in the exponent alone.
pub open spec fn up_to_one(v: Real32) -> bool {
    v.bits <= 127 * 0x80_0000 || v.bits == 0x8000_0000
}

/// A modem that can be built.
pub open spec fn sound_modem(modem: ModemDef) -> bool {
    match modem {
        ModemDef::Afsk { mark_hz, space_hz } => above_zero(mark_hz) && above_zero(space_hz),
        ModemDef::Cpm { modulation_index, frequency_offset_hz, gaussian_bt, .. } => {
            &&& modulation_index matches Some(v) ==> above_zero(v)
            &&& is_number(frequency_offset_hz)
            &&& gaussian_bt matches Some(v) ==> above_zero(v)
        },
        ModemDef::Linear { frequency_offset_hz, matched_filter_rolloff, .. } => is_number(
            frequency_offset_hz,
        ) && up_to_one(matched_filter_rolloff),
        ModemDef::Lora { spreading_factor, bandwidth_hz } => 6 <= spreading_factor <= 12
            && bandwidth_hz > 0,
        ModemDef::FourFsk { freq_offsets_hz } => is_number(freq_offsets_hz@[0]) && is_number(
            freq_offsets_hz@[1],
        ) && is_number(freq_offsets_hz@[2]) && is_number(freq_offsets_hz@[3]),
    }
}

/// A framer that can be built: no threshold beyond the length of its syncword.
pub open spec fn sound_framer(framer: FramerDef) -> bool {
    match framer {
        FramerDef::Hdlc => true,
        FramerDef::Ao40 { threshold } => threshold <= 65,
        FramerDef::Syncword { syncword, threshold, payload_bits } => {
            &&& syncword@.len() > 0
            &&& forall|i: int|
                0 <= i < syncword@.len() ==> #[trigger] syncword@[i] == '0' || syncword@[i] == '1'
            &&& threshold <= syncword@.len()
            &&& payload_bits > 0
        },
        FramerDef::Ax100Asm { threshold } => threshold <= 32,
    }
}

/// A downlink that can be received.
pub open spec fn sound_downlink(
    d: DownlinkDef,
    schemas: Seq<(String, TelemetrySchemaDef)>,
) -> bool {
    &&& d.baudrate > 0 || (d.image matches Some(ImageDef::Sstv {  }))
    &&& d.telemetry_schema matches Some(name) ==> exists|i: int|
        0 <= i < schemas.len() && (#[trigger] schemas[i]).0@ == name@
    &&& d.modem matches Some(m) ==> sound_modem(m)
    &&& d.framer matches Some(f) ==> sound_framer(f)
    &&& d.fec matches Some(FecDef::ReedSolomon { interleave }) ==> interleave > 0
}

proof fn lemma_modem(label: Seq<char>, modem: ModemDef)
    ensures
        modem_fault(label, modem) is None <==> sound_modem(modem),
{
    if let ModemDef::FourFsk { freq_offsets_hz } = modem {
        let f = freq_offsets_hz@;
        assert(f.len() == 4);
        if sound_modem(modem) {
            assert forall|i: int| 0 <= i < 4 implies (#[trigger] f[i]).finite() by {
                assert(i == 0 || i == 1 || i == 2 || i == 3);
            }
        } else {
            let k: int = if !is_number(f[0]) {
                0
            } else if !is_number(f[1]) {
                1
            } else if !is_number(f[2]) {
                2
            } else {
                3
            };
            assert(!f[k].finite());
        }
    }
}

proof fn lemma_downlink(d: DownlinkDef, schemas: Seq<(String, TelemetrySchemaDef)>)
    ensures
        downlink_fault(d, schemas) is None <==> sound_downlink(d, schemas),
{
    if let Some(m) = d.modem {
        lemma_modem(d.label@, m);
    }
    if let Some(f) = d.framer {
        assert(framer_fault(d.label@, f) is None <==> sound_framer(f));
    }
    if let Some(f) = d.fec {
        assert(fec_fault(d.label@, f) is None <==> !(f matches FecDef::ReedSolomon {
            interleave: 0,
        }));
    }
}

proof fn lemma_downlinks(
    downlinks: Seq<DownlinkDef>,
    schemas: Seq<(String, TelemetrySchemaDef)>,
    from: int,
)
    requires
        0 <= from,
    ensures
        downlinks_fault(downlinks, schemas, from) is None <==> forall|i: int|
            from <= i < downlinks.len() ==> #[trigger] sound_downlink(downlinks[i], schemas),
    decreases downlinks.len() - from,
{
    if from < downlinks.len() {
        lemma_downlink(downlinks[from], schemas);
        lemma_downlinks(downlinks, schemas, from + 1);
    }
}

/// A field that can be read: whole bytes or up to 64 bits, given by place and length, and of
/// the length that its encoding has.
pub open spec fn sound_field(f: TelemetryFieldDef) -> bool {
    &&& if f.bit_offset is None && f.bit_length is None {
        &&& f.offset is Some && f.length is Some
        &&& f.length->Some_0 > 0
        &&& match f.encoding {
            FieldEncoding::Integer => true,
            FieldEncoding::Float32 => f.length->Some_0 == 4,
            FieldEncoding::Float64 => f.length->Some_0 == 8,
            FieldEncoding::BcdSplit => f.length->Some_0 == 2,
            FieldEncoding::SignMagnitude8 => f.length->Some_0 == 1,
            FieldEncoding::Q15Signed => f.length->Some_0 == 2,
        }
    } else {
        &&& f.offset is None && f.length is None
        &&& f.bit_offset is Some && f.bit_length is Some
        &&& 1 <= f.bit_length->Some_0 <= 64
        &&& f.encoding == FieldEncoding::Integer
    }
    &&& f.encoding == FieldEncoding::BcdSplit ==> 1 <= f.decimal_places <= 9
}

proof fn lemma_fields(scope: Seq<char>, fields: Seq<TelemetryFieldDef>, from: int)
    requires
        0 <= from,
    ensures
        fields_fault(scope, fields, from) is None <==> forall|i: int|
            from <= i < fields.len() ==> sound_field(#[trigger] fields[i]),
    decreases fields.len() - from,
{
    if from < fields.len() {
        assert(field_fault(scope, fields[from]) is None <==> sound_field(fields[from]));
        lemma_fields(scope, fields, from + 1);
    }
}

/// The values that select a variant.
pub open spec fn selectors(v: TelemetryVariantDef) -> Seq<u64> {
    if v.match_values@.len() > 0 {
        v.match_values@
    } else {
        seq![v.match_value]
    }
}

/// All values of the variants from `from` on, in order.
pub open spec fn all_selectors(variants: Seq<TelemetryVariantDef>, from: int) -> Seq<u64>
    decreases variants.len() - from,
{
    if from >= variants.len() {
        Seq::empty()
    } else {
        selectors(variants[from]) + all_selectors(variants, from + 1)
    }
}

proof fn lemma_repeated(seen: Seq<u64>, values: Seq<u64>, k: int)
    requires
        0 <= k <= values.len(),
        (seen + values.take(k)).no_duplicates(),
    ensures
        repeated(seen, values, k) is None <==> (seen + values).no_duplicates(),
    decreases values.len() - k,
{
    let before = seen + values.take(k);
    if k < values.len() {
        let next = seen + values.take(k + 1);
        assert(next =~= before.push(values[k]));
        if before.contains(values[k]) {
            let at = choose|at: int| 0 <= at < before.len() && before[at] == values[k];
            let all = seen + values;
            assert(all[at] == before[at]);
            assert(all[seen.len() + k] == values[k]);
        } else {
            lemma_repeated(seen, values, k + 1);
        }
    } else {
        assert(values.take(k) =~= values);
    }
}

proof fn lemma_variants(
    name: Seq<char>,
    variants: Seq<TelemetryVariantDef>,
    seen: Seq<u64>,
    from: int,
)
    requires
        0 <= from,
        seen.no_duplicates(),
    ensures
        variants_fault(name, variants, seen, from) is None <==> {
            &&& (seen + all_selectors(variants, from)).no_duplicates()
            &&& forall|i: int|
                from <= i < variants.len() ==> sound_fields((#[trigger] variants[i]).fields@)
        },
    decreases variants.len() - from,
{
    if from < variants.len() {
        let v = variants[from];
        let now = selectors(v);
        let rest = all_selectors(variants, from + 1);
        assert(candidates(v) =~= now);
        assert(seen + now.take(0) =~= seen);
        lemma_repeated(seen, now, 0);
        lemma_fields(variant_scope(name, v), v.fields@, 0);
        assert(seen + (now + rest) =~= (seen + now) + rest);
        if (seen + now).no_duplicates() {
            lemma_variants(name, variants, seen + now, from + 1);
        } else {
            let (a, b) = choose|a: int, b: int|
                0 <= a < b < (seen + now).len() && (seen + now)[a] == (seen + now)[b];
            let all = (seen + now) + rest;
            assert(all[a] == (seen + now)[a] && all[b] == (seen + now)[b]);
        }
    } else {
        assert(seen + all_selectors(variants, from) =~= seen);
    }
}

/// Every field can be read.
pub open spec fn sound_fields(fields: Seq<TelemetryFieldDef>) -> bool {
    forall|i: int| 0 <= i < fields.len() ==> sound_field(#[trigger] fields[i])
}

/// A schema that can be applied: its discriminator is a whole machine word, no length is
/// zero, there are variants only with a discriminator, no value selects twice, and every
/// field can be read.
pub open spec fn sound_schema(s: TelemetrySchemaDef) -> bool {
    &&& s.discriminator matches Some(d) ==> (d.length == 1 || d.length == 2 || d.length == 4
        || d.length == 8)
    &&& forall|i: int| 0 <= i < s.match_lengths@.len() ==> #[trigger] s.match_lengths@[i] > 0
    &&& s.variants@.len() > 0 ==> s.discriminator is Some
    &&& all_selectors(s.variants@, 0).no_duplicates()
    &&& forall|i: int|
        0 <= i < s.variants@.len() ==> sound_fields((#[trigger] s.variants@[i]).fields@)
    &&& sound_fields(s.fields@)
}

proof fn lemma_zero_at(lens: Seq<usize>, from: int)
    requires
        0 <= from,
    ensures
        zero_at(lens, from) is None <==> forall|i: int|
            from <= i < lens.len() ==> #[trigger] lens[i] > 0,
    decreases lens.len() - from,
{
    if from < lens.len() {
        lemma_zero_at(lens, from + 1);
    }
}

proof fn lemma_schema(name: Seq<char>, s: TelemetrySchemaDef)
    ensures
        schema_fault(name, s) is None <==> sound_schema(s),
{
    lemma_zero_at(s.match_lengths@, 0);
    lemma_variants(name, s.variants@, Seq::empty(), 0);
    lemma_fields("telemetry."@ + name, s.fields@, 0);
    assert(Seq::<u64>::empty() + all_selectors(s.variants@, 0) =~= all_selectors(s.variants@, 0));
}

proof fn lemma_schemas(schemas: Seq<(String, TelemetrySchemaDef)>, from: int)
    requires
        0 <= from,
    ensures
        schemas_fault(schemas, from) is None <==> forall|i: int|
            from <= i < schemas.len() ==> sound_schema((#[trigger] schemas[i]).1),
    decreases schemas.len() - from,
{
    if from < schemas.len() {
        lemma_schema(schemas[from].0@, schemas[from].1);
        lemma_schemas(schemas, from + 1);
    }
}

/// A definition is valid exactly if every downlink can be received and every schema can be
/// applied.
pub proof fn law_valid_definitions(def: SatelliteDefinition)
    ensures
        definition_fault(def) is None <==> {
            &&& forall|i: int|
                0 <= i < def.downlinks@.len() ==> #[trigger] sound_downlink(
                    def.downlinks@[i],
                    def.telemetry@,
                )
            &&& forall|i: int|
                0 <= i < def.telemetry@.len() ==> sound_schema((#[trigger] def.telemetry@[i]).1)
        },
{
    lemma_downlinks(def.downlinks@, def.telemetry@, 0);
    lemma_schemas(def.telemetry@, 0);
}

/// The fault that is reported of a definition with bad downlinks is of the first of them,
/// and names it.
pub proof fn law_first_bad_downlink_is_named(def: SatelliteDefinition, i: int)
    requires
        0 <= i < def.downlinks@.len(),
        !sound_downlink(def.downlinks@[i], def.telemetry@),
        forall|j: int|
            0 <= j < i ==> #[trigger] sound_downlink(def.downlinks@[j], def.telemetry@),
    ensures
        definition_fault(def) is Some,
        ({
            let field = definition_fault(def)->Some_0.0;
            let head = "downlink["@ + def.downlinks@[i].label@ + "]."@;
            field.len() >= head.len() && field.take(head.len() as int) == head
        }),
{
    let d = def.downlinks@[i];
    lemma_first_downlink(def.downlinks@, def.telemetry@, 0, i);
    lemma_downlink(d, def.telemetry@);
    let head = "downlink["@ + d.label@ + "]."@;
    let field = downlink_fault(d, def.telemetry@)->Some_0.0;
    assert(pipeline_fault(d) is Some ==> {
        let f = pipeline_fault(d)->Some_0.0;
        f.len() >= head.len() && f.take(head.len() as int) == head
    }) by {
        lemma_part(d.label@, "modem.mark_hz"@);
        lemma_part(d.label@, "modem.space_hz"@);
        lemma_part(d.label@, "modem.modulation_index"@);
        lemma_part(d.label@, "modem.frequency_offset_hz"@);
        lemma_part(d.label@, "modem.gaussian_bt"@);
        lemma_part(d.label@, "modem.matched_filter_rolloff"@);
        lemma_part(d.label@, "modem.spreading_factor"@);
        lemma_part(d.label@, "modem.bandwidth_hz"@);
        lemma_part(d.label@, "modem.freq_offsets_hz"@);
        lemma_part(d.label@, "framer.threshold"@);
        lemma_part(d.label@, "framer.syncword"@);
        lemma_part(d.label@, "framer.payload_bits"@);
        lemma_part(d.label@, "fec.interleave"@);
    }
    lemma_part(d.label@, "baudrate"@);
    lemma_part(d.label@, "telemetry_schema"@);
}

proof fn lemma_part(label: Seq<char>, part: Seq<char>)
    ensures
        ({
            let head = "downlink["@ + label + "]."@;
            (head + part).take(head.len() as int) == head && (head + part).len() >= head.len()
        }),
{
    let head = "downlink["@ + label + "]."@;
    assert((head + part).take(head.len() as int) =~= head);
}

proof fn lemma_first_downlink(
    downlinks: Seq<DownlinkDef>,
    schemas: Seq<(String, TelemetrySchemaDef)>,
    from: int,
    i: int,
)
    requires
        0 <= from <= i < downlinks.len(),
        !sound_downlink(downlinks[i], schemas),
        forall|j: int| from <= j < i ==> #[trigger] sound_downlink(downlinks[j], schemas),
    ensures
        downlinks_fault(downlinks, schemas, from) == downlink_fault(downlinks[i], schemas),
    decreases i - from,
{
    lemma_downlink(downlinks[from], schemas);
    if from < i {
        assert(sound_downlink(downlinks[from], schemas));
        lemma_first_downlink(downlinks, schemas, from + 1, i);
    }
}

proof fn lemma_find(s: Seq<char>, text: Seq<char>, from: int, at: int)
    requires
        0 <= from <= at,
        at + text.len() <= s.len(),
        s.subrange(at, at + text.len()) == text,
        forall|j: int| from <= j < at ==> !#[trigger] text_at(s, text, j),
    ensures
        find_text(s, text, from) == Some(at),
    decreases at - from,
{
    if from < at {
        assert(!text_at(s, text, from));
        lemma_find(s, text, from + 1, at);
    }
}

/// The name of a missing field is what stands between backquotes behind the parser's words
/// for it, where these come first.
pub proof fn law_missing_field_is_named(before: Seq<char>, name: Seq<char>, behind: Seq<char>)
    requires
        forall|j: int|
            0 <= j < before.len() ==> !#[trigger] text_at(
                before + "missing field `"@ + name + "`"@ + behind,
                "missing field `"@,
                j,
            ),
        forall|j: int| 0 <= j < name.len() ==> #[trigger] name[j] != '`',
    ensures
        missing_field(before + "missing field `"@ + name + "`"@ + behind) == Some(name),
{
    let words = "missing field `"@;
    let quote = "`"@;
    let msg = before + words + name + quote + behind;
    let at = before.len() as int;
    reveal_strlit("`");
    assert(msg.subrange(at, at + words.len()) =~= words);
    lemma_find(msg, words, 0, at);
    let rest = msg.skip(at + words.len());
    let end = name.len() as int;
    assert(rest =~= name + quote + behind);
    assert(rest.subrange(end, end + 1) =~= quote);
    assert forall|j: int| 0 <= j < end implies !#[trigger] text_at(rest, quote, j) by {
        assert(rest[j] == name[j]);
        assert(rest.subrange(j, j + 1)[0] == rest[j]);
        assert(quote[0] == '`');
    }
    lemma_find(rest, quote, 0, end);
    assert(rest.take(end) =~= name);
}

/// A message without those words names no field.
pub proof fn law_other_messages_name_no_field(msg: Seq<char>)
    requires
        !occurs(msg, "missing field `"@),
    ensures
        missing_field(msg) is None,
{
    lemma_not_found(msg, "missing field `"@, 0);
}

proof fn lemma_not_found(s: Seq<char>, text: Seq<char>, from: int)
    requires
        0 <= from,
        !occurs(s, text),
    ensures
        find_text(s, text, from) is None,
    decreases s.len() + 1 - from,
{
    if from <= s.len() {
        if text_at(s, text, from) {
            assert(stands_at(s, text, from));
        }
        lemma_not_found(s, text, from + 1);
    }
}

/// A definition without fault is accepted, and a fault is reported with its field and its
/// reason.
pub proof fn law_faults_are_reported(
    res: Result<(), ConfigError>,
    def: SatelliteDefinition,
)
    requires
        reports(res, definition_fault(def)),
    ensures
        res is Ok <==> definition_fault(def) is None,
        definition_fault(def) matches Some((f, r)) ==> {
            &&& res matches Err(ConfigError::InvalidValue { field, reason })
            &&& field@ == f
            &&& reason@ == r
        },
{
}

} // verus!
