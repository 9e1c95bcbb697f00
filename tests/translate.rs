use gcode_meta::catalog::{has_unique_keys, metadata_properties, MetadataProperty, Transform};
use gcode_meta::extract::{
    extract_filament_used_as_um_x10, extract_time_data_as_seconds, ParsingError,
};
use gcode_meta::format::InterestingFields;
use gcode_meta::pipeline::{process_lines, process_lines_with};

fn owned(lines: &[&str]) -> Vec<String> {
    lines.iter().map(|l| l.to_string()).collect()
}

fn key_of(p: &MetadataProperty) -> &'static str {
    match p {
        MetadataProperty::Constant { name, value: _ } => name,
        MetadataProperty::Field { prusa: _, anker, translate_fn: _ } => anker,
    }
}

#[test]
fn assert_no_duplicate_metadata_properties() {
    let props = metadata_properties();
    props.iter().for_each(|property| {
        let anker_field_name = key_of(property);
        assert_eq!(
            1,
            props.iter().filter(|other| anker_field_name == key_of(other)).count()
        );
    })
}

#[test]
fn catalog_validation_accepts_fixed_list() {
    assert!(has_unique_keys(&metadata_properties()));
}

#[test]
fn catalog_validation_rejects_duplicate() {
    let mut props = metadata_properties();
    props.push(MetadataProperty::Constant { name: "TIME", value: "0" });
    assert!(!has_unique_keys(&props));
    let mut props = metadata_properties();
    props.push(MetadataProperty::Field {
        prusa: "max_print_speed",
        anker: "FLAVOR",
        translate_fn: None,
    });
    assert!(!has_unique_keys(&props));
}

#[test]
fn duration_examples() {
    assert_eq!(extract_time_data_as_seconds("estimated printing time = 1h 30m 0s").unwrap(), 5400);
    assert_eq!(extract_time_data_as_seconds("estimated printing time = 45s").unwrap(), 45);
    assert_eq!(extract_time_data_as_seconds("estimated printing time = 2h").unwrap(), 7200);
}

#[test]
fn duration_components_in_any_order() {
    assert_eq!(extract_time_data_as_seconds("t = 5s 2m 1h").unwrap(), 3600 + 120 + 5);
    assert_eq!(extract_time_data_as_seconds("t=  3m   7s  ").unwrap(), 187);
    assert_eq!(extract_time_data_as_seconds("t = 1d 2h 3m 4s").is_err(), true);
}

#[test]
fn duration_without_equals_is_missing_value() {
    match extract_time_data_as_seconds("estimated printing time 1h") {
        Err(ParsingError::MissingValue(s)) => assert_eq!(s, "estimated printing time 1h"),
        other => panic!("unexpected {:?}", other),
    }
}

#[test]
fn duration_bad_suffix_is_recoverable() {
    match extract_time_data_as_seconds("estimated printing time = 1h 10x 5s") {
        Err(ParsingError::StringParsingError(kind, s)) => {
            assert_eq!(kind, "duration-component");
            assert_eq!(s, "10x");
        }
        other => panic!("unexpected {:?}", other),
    }
}

#[test]
fn duration_bad_number_and_empty_value() {
    match extract_time_data_as_seconds("t = 1h xm") {
        Err(ParsingError::StringParsingError(_, s)) => assert_eq!(s, "xm"),
        other => panic!("unexpected {:?}", other),
    }
    match extract_time_data_as_seconds("t =   ") {
        Err(ParsingError::StringParsingError(kind, s)) => {
            assert_eq!(kind, "duration-component");
            assert_eq!(s, "");
        }
        other => panic!("unexpected {:?}", other),
    }
}

#[test]
fn duration_overflow_reports_component() {
    match extract_time_data_as_seconds("t = 18446744073709551615s 1s") {
        Err(ParsingError::StringParsingError(_, s)) => assert_eq!(s, "1s"),
        other => panic!("unexpected {:?}", other),
    }
    assert_eq!(
        extract_time_data_as_seconds("t = 18446744073709551615s").unwrap(),
        u64::MAX
    );
}

#[test]
fn length_example() {
    assert_eq!(extract_filament_used_as_um_x10("filament used [mm] = 2500.00").unwrap(), 250000);
    assert_eq!(extract_filament_used_as_um_x10("filament used [mm] =0.07 ").unwrap(), 7);
    assert_eq!(
        InterestingFields::FilamentUsed(250000).to_string(),
        ";Filament used: 2.5m"
    );
}

#[test]
fn length_errors() {
    match extract_filament_used_as_um_x10("filament used [mm] 2500.00") {
        Err(ParsingError::MissingValue(s)) => assert_eq!(s, "filament used [mm] 2500.00"),
        other => panic!("unexpected {:?}", other),
    }
    match extract_filament_used_as_um_x10("filament used [mm] = 25a0.00") {
        Err(ParsingError::StringParsingError(kind, s)) => {
            assert_eq!(kind, "length");
            assert_eq!(s, "25a000");
        }
        other => panic!("unexpected {:?}", other),
    }
    match extract_filament_used_as_um_x10("filament used [mm] = 12.5") {
        Err(ParsingError::StringParsingError(_, s)) => assert_eq!(s, "125"),
        other => panic!("unexpected {:?}", other),
    }
    match extract_filament_used_as_um_x10("filament used [mm] = 1234") {
        Err(ParsingError::StringParsingError(_, s)) => assert_eq!(s, "1234"),
        other => panic!("unexpected {:?}", other),
    }
    assert!(extract_filament_used_as_um_x10("x = 999999999999999999.99").is_err());
}

#[test]
fn formatter_values() {
    assert_eq!(InterestingFields::Time(5400).to_string(), ";TIME:5400");
    assert_eq!(InterestingFields::Time(0).to_string(), ";TIME:0");
    assert_eq!(InterestingFields::FilamentUsed(0).to_string(), ";Filament used: 0m");
    assert_eq!(InterestingFields::FilamentUsed(123456).to_string(), ";Filament used: 1.23456m");
    assert_eq!(InterestingFields::FilamentUsed(100000).to_string(), ";Filament used: 1m");
    assert_eq!(InterestingFields::FilamentUsed(7).to_string(), ";Filament used: 0.00007m");
    assert_eq!(InterestingFields::Flavour("Marlin".to_string()).to_string(), ";FLAVOR:Marlin");
}

#[test]
fn formatter_agrees_with_float_division() {
    for u in [0u64, 7, 10, 250000, 123456, 99999, 100000, 3141592, 987654321] {
        let float_text = format!(";Filament used: {}m", (u as f64) / 100000.0);
        assert_eq!(InterestingFields::FilamentUsed(u).to_string(), float_text);
    }
}

const SCENARIO_IN: [&str; 4] = [
    "; generated by Slicer",
    "; estimated printing time = 1h 30m 0s",
    "; filament used [mm] = 2500.00",
    "G1 X10 Y10",
];

#[test]
fn end_to_end_scenario() {
    let out = process_lines(&owned(&SCENARIO_IN)).unwrap();
    assert_eq!(
        out,
        ";FLAVOR:Marlin\n;TIME:5400\n;Filament used: 2.5m\n; generated by Slicer\n; estimated printing time = 1h 30m 0s\n; filament used [mm] = 2500.00\nG1 X10 Y10"
    );
}

#[test]
fn running_twice_duplicates_header() {
    let once = process_lines(&owned(&SCENARIO_IN)).unwrap();
    let lines: Vec<String> = once.split('\n').map(|l| l.to_string()).collect();
    let twice = process_lines(&lines).unwrap();
    let expected = [
        ";FLAVOR:Marlin",
        ";TIME:5400",
        ";Filament used: 2.5m",
        ";FLAVOR:Marlin",
        ";TIME:5400",
        ";Filament used: 2.5m",
        "; generated by Slicer",
        "; estimated printing time = 1h 30m 0s",
        "; filament used [mm] = 2500.00",
        "G1 X10 Y10",
    ];
    assert_eq!(twice, expected.join("\n"));
    let header_lines = twice.split('\n').take(6).collect::<Vec<_>>();
    assert_eq!(header_lines[0..3], header_lines[3..6]);
}

#[test]
fn unrecognized_lines_pass_through() {
    let input = owned(&["G28", "; some comment", "", "M104 S200"]);
    let out = process_lines(&input).unwrap();
    assert_eq!(out, ";FLAVOR:Marlin\nG28\n; some comment\n\nM104 S200");
    assert_eq!(process_lines(&Vec::new()).unwrap(), ";FLAVOR:Marlin");
}

#[test]
fn fields_follow_line_order() {
    let input = owned(&[
        "; filament used [mm] = 10.00",
        "; estimated printing time = 1m",
        "; filament used [mm] = 0.50",
    ]);
    let out = process_lines(&input).unwrap();
    assert_eq!(
        out,
        ";FLAVOR:Marlin\n;Filament used: 0.01m\n;TIME:60\n;Filament used: 0.0005m\n; filament used [mm] = 10.00\n; estimated printing time = 1m\n; filament used [mm] = 0.50"
    );
}

#[test]
fn pipeline_reports_bad_line() {
    let input = owned(&["; estimated printing time 1h", "; filament used [mm] = x"]);
    match process_lines(&input) {
        Err(ParsingError::MissingValue(s)) => assert_eq!(s, "estimated printing time 1h"),
        other => panic!("unexpected {:?}", other),
    }
}

#[test]
fn custom_catalog_with_passthrough_field() {
    let catalog = vec![
        MetadataProperty::Constant { name: "Print Mode", value: "fast" },
        MetadataProperty::Field {
            prusa: "nozzle_diameter",
            anker: "Machine Nozzle Size",
            translate_fn: None,
        },
        MetadataProperty::Field {
            prusa: "estimated printing time",
            anker: "TIME",
            translate_fn: Some(Transform::Duration),
        },
    ];
    let input = owned(&["; nozzle_diameter =  0.4 ", "; estimated printing time = 2m"]);
    let out = process_lines_with(&catalog, &input).unwrap();
    assert_eq!(
        out,
        ";Print Mode:fast\n;Machine Nozzle Size:0.4\n;TIME:120\n; nozzle_diameter =  0.4 \n; estimated printing time = 2m"
    );
}
