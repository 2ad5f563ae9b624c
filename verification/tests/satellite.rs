//! Validation of satellite definitions.
use openhoshimi::model::ConfigError;
use openhoshimi::satellite::{
    find, missing_field_name, translate_toml_error, validate, CodecDef, DiscriminatorDef,
    DownlinkDef, Endian, FecDef, FieldEncoding, FramerDef, ImageDef, LinearModeDef, ModemDef,
    Real32, Real64, SatelliteDefinition, SatelliteHeader, TelemetryFieldDef, TelemetrySchemaDef,
    TelemetryVariantDef,
};

fn real32(value: f32) -> Real32 {
    Real32 { bits: value.to_bits() }
}

fn real64(value: f64) -> Real64 {
    Real64 { bits: value.to_bits() }
}

fn bare_downlink() -> DownlinkDef {
    DownlinkDef {
        label: "x".to_string(),
        freq_hz: 1,
        modulation: "FSK".to_string(),
        baudrate: 1200,
        framing: "UNKNOWN".to_string(),
        telemetry_schema: None,
        modem: None,
        line_coding: None,
        descrambler: None,
        framer: None,
        fec: None,
        codec: None,
        image: None,
    }
}

fn satellite(downlink: DownlinkDef) -> SatelliteDefinition {
    SatelliteDefinition {
        satellite: SatelliteHeader { name: "X".to_string(), aliases: vec![], norad_id: 1 },
        downlinks: vec![downlink],
        telemetry: vec![],
    }
}

fn fault(def: &SatelliteDefinition) -> (String, String) {
    match validate(def) {
        Err(ConfigError::InvalidValue { field, reason }) => (field, reason),
        other => panic!("expected InvalidValue, got {other:?}"),
    }
}

#[test]
fn missing_required_field_is_reported() {
    // norad_id is required and is missing here.
    let message = "TOML parse error at line 2, column 1\n  |\n2 | [satellite]\n  | ^^^^^^^^^^^\nmissing field `norad_id`\n";
    let err = translate_toml_error(message, message.to_string());
    match err {
        ConfigError::MissingField(name) => assert_eq!(name, "norad_id"),
        other => panic!("expected MissingField, got {other:?}"),
    }
}

#[test]
fn other_parse_errors_are_passed_on() {
    let err = translate_toml_error("expected an equals", "whole text".to_string());
    match err {
        ConfigError::Toml(text) => assert_eq!(text, "whole text"),
        other => panic!("expected Toml, got {other:?}"),
    }
    assert_eq!(missing_field_name("missing field `a`"), Some("a".to_string()));
    assert_eq!(missing_field_name("missing field a"), None);
    assert_eq!(find("abcabc", "bc", 2), Some(4));
    assert_eq!(find("abcabc", "x", 0), None);
}

#[test]
fn invalid_syncword_is_reported() {
    let mut downlink = bare_downlink();
    downlink.framer = Some(FramerDef::Syncword {
        syncword: "10x1".to_string(),
        threshold: 0,
        payload_bits: 8,
    });
    let (field, reason) = fault(&satellite(downlink));
    assert_eq!(field, "downlink[x].framer.syncword");
    assert_eq!(reason, "must contain only 0 and 1 characters");
}

#[test]
fn sstv_downlink_loads_without_pipeline_stages() {
    // SSTV downlinks have no modem, framer or codec and a meaningless baud rate; only
    // the image block is mandatory.
    let mut downlink = bare_downlink();
    downlink.label = "SSTV image".to_string();
    downlink.freq_hz = 145_800_000;
    downlink.modulation = "FM".to_string();
    downlink.baudrate = 0;
    downlink.framing = "none".to_string();
    downlink.image = Some(ImageDef::Sstv {});
    let def = satellite(downlink);
    assert!(validate(&def).is_ok());
    assert_eq!(def.downlinks.len(), 1);
    assert!(matches!(def.downlinks[0].image, Some(ImageDef::Sstv {})));
    assert!(def.downlinks[0].modem.is_none());
    assert!(def.downlinks[0].framer.is_none());
    assert!(def.downlinks[0].codec.is_none());
}

fn field(name: &str) -> TelemetryFieldDef {
    TelemetryFieldDef {
        name: name.to_string(),
        group: "eps".to_string(),
        offset: Some(2),
        length: Some(2),
        bit_offset: None,
        bit_length: None,
        endian: Endian::Big,
        scale: real64(0.001),
        bias: real64(0.0),
        power: real64(1.0),
        unit: Some("V".to_string()),
        warn_below: Some(real64(6.5)),
        warn_above: Some(real64(8.4)),
        signed: false,
        encoding: FieldEncoding::Integer,
        decimal_places: 1,
    }
}

fn funcube() -> SatelliteDefinition {
    let mut downlink = bare_downlink();
    downlink.label = "1k2 BPSK beacon".to_string();
    downlink.freq_hz = 145_935_000;
    downlink.modulation = "DBPSK".to_string();
    downlink.framing = "AO40_FEC".to_string();
    downlink.telemetry_schema = Some("funcube_1".to_string());
    downlink.modem = Some(ModemDef::Linear {
        mode: LinearModeDef::Dbpsk,
        frequency_offset_hz: real32(-6000.0),
        differential: true,
        invert: false,
        swap_iq: true,
        carrier_loop_bandwidth: real32(0.0),
        frequency_loop_bandwidth: real32(0.0),
        nco_max_offset_hz: real32(0.0),
        matched_filter_rolloff: real32(0.0),
        matched_filter_span_symbols: 0,
    });
    downlink.framer = Some(FramerDef::Ao40 { threshold: 0 });
    downlink.fec = Some(FecDef::Ao40);
    downlink.codec = Some(CodecDef::Ao40Fec);
    let mut def = satellite(downlink);
    def.telemetry.push((
        "funcube_1".to_string(),
        TelemetrySchemaDef {
            prefix_skip: 0,
            match_lengths: vec![],
            discriminator: None,
            variants: vec![],
            fields: vec![field("bat_voltage")],
        },
    ));
    def
}

#[test]
fn whole_definition_is_valid() {
    assert!(validate(&funcube()).is_ok());
}

#[test]
fn unknown_schema_is_reported() {
    let mut def = funcube();
    def.downlinks[0].telemetry_schema = Some("other".to_string());
    let (name, reason) = fault(&def);
    assert_eq!(name, "downlink[1k2 BPSK beacon].telemetry_schema");
    assert_eq!(reason, "references unknown schema 'other'");
}

#[test]
fn bad_modem_values_are_reported() {
    let mut def = funcube();
    def.downlinks[0].modem = Some(ModemDef::Afsk {
        mark_hz: real32(-1.0),
        space_hz: real32(2200.0),
    });
    let (name, _) = fault(&def);
    assert_eq!(name, "downlink[1k2 BPSK beacon].modem.mark_hz");
}

#[test]
fn telemetry_selectors_must_differ() {
    let mut def = funcube();
    let variant = |name: &str| TelemetryVariantDef {
        name: name.to_string(),
        match_value: 7,
        match_values: vec![],
        fields: vec![field("a")],
    };
    def.telemetry[0].1.discriminator =
        Some(DiscriminatorDef { offset: 0, length: 1, endian: Endian::Big });
    def.telemetry[0].1.variants = vec![variant("one"), variant("two")];
    let (name, _) = fault(&def);
    assert!(name.contains("funcube_1"), "{name}");
}

#[test]
fn encodings_have_their_names() {
    assert_eq!(FieldEncoding::default(), FieldEncoding::Integer);
    assert_eq!(FieldEncoding::Float32.required_length(), Some(4));
    assert_eq!(FieldEncoding::Integer.required_length(), None);
    assert!(real32(1.5).is_finite());
    assert!(!real32(f32::INFINITY).is_finite());
    assert!(real32(-0.0).is_not_positive());
    assert!(real32(0.35).is_in_unit_range());
    assert!(!real32(1.01).is_in_unit_range());
}
