use std::str;
use std::time::Instant;

use parcel_sourcemap::mapping::{Mapping, OriginalLocation};
use parcel_sourcemap::sourcemap_error::SourceMapErrorType;
use parcel_sourcemap::SourceMap;

#[test]
fn write_vlq_mappings() {
    let mut source_map = SourceMap::new();
    source_map.add_mapping(Mapping::new(12, 7, Some(OriginalLocation::new(0, 5, 0, Some(0)))));
    source_map.add_mapping(Mapping::new(25, 12, None));
    source_map.add_mapping(Mapping::new(15, 9, Some(OriginalLocation::new(0, 5, 1, Some(0)))));

    let mut output = vec![];
    match source_map.write_vlq(&mut output) {
        Ok(()) => {
            let vlq_string = str::from_utf8(&output).unwrap();
            assert_eq!(vlq_string, ";;;;;;;;;;;;OAAKA;;;SCAAA;;;;;;;;;;Y");
        }
        Err(err) => {
            panic!("{:?}", err);
        }
    };

    // Basic find closest test
    match source_map.find_closest_mapping(12, 10) {
        Some(mapping) => {
            assert_eq!(mapping.generated_line, 12);
            assert_eq!(mapping.generated_column, 7);
            match mapping.original {
                Some(original) => {
                    assert_eq!(original.original_line, 0);
                    assert_eq!(original.original_column, 5);
                    assert_eq!(original.source, 0);
                    match original.name {
                        Some(name) => {
                            assert_eq!(name, 0);
                        }
                        None => {
                            panic!("No name attached to mapping")
                        }
                    }
                }
                None => {
                    panic!("No original position attached to mapping")
                }
            }
        }
        None => {
            panic!("Mapping not found");
        }
    }
}

#[test]
fn read_vlq_mappings() {
    let vlq_mappings = b";;;;;;;;;;;;OAAKA;;;SCAAA;;;;;;;;;;Y";
    let sources = vec![String::from("a.js"), String::from("b.js")];
    let names = vec![String::from("test")];
    let mut source_map = SourceMap::new();

    match source_map.add_vql_mappings(vlq_mappings, sources, names) {
        Ok(()) => {}
        Err(err) => panic!("{:?}", err),
    }

    // Should be able to write the vlq mappings again...
    let mut output = vec![];
    match source_map.write_vlq(&mut output) {
        Ok(()) => {
            let vlq_string = str::from_utf8(&output).unwrap();
            assert_eq!(vlq_string, ";;;;;;;;;;;;OAAKA;;;SCAAA;;;;;;;;;;Y");
        }
        Err(err) => {
            panic!("{:?}", err);
        }
    };
}

#[test]
fn offset_columns() {
    let mut source_map_one = SourceMap::new();
    source_map_one.add_mapping(Mapping::new(12, 7, Some(OriginalLocation::new(0, 5, 0, Some(0)))));
    source_map_one.add_mapping(Mapping::new(15, 9, Some(OriginalLocation::new(0, 5, 1, Some(0)))));
    source_map_one.add_mapping(Mapping::new(12, 2, None));
    source_map_one.add_mapping(Mapping::new(12, 15, Some(OriginalLocation::new(0, 5, 0, Some(0)))));
    source_map_one.add_mapping(Mapping::new(12, 43, None));

    match source_map_one.offset_columns(12, 14, -9) {
        Ok(_) => {}
        Err(err) => panic!("{:?}", err),
    }

    let mut source_map_two = SourceMap::new();
    source_map_two.add_mapping(Mapping::new(12, 2, None));
    source_map_two.add_mapping(Mapping::new(12, 6, Some(OriginalLocation::new(0, 5, 0, Some(0)))));
    source_map_two.add_mapping(Mapping::new(12, 34, None));
    source_map_two.add_mapping(Mapping::new(15, 9, Some(OriginalLocation::new(0, 5, 1, Some(0)))));

    let mut output_one = vec![];
    match source_map_one.write_vlq(&mut output_one) {
        Ok(()) => {
            let mut output_two = vec![];
            match source_map_two.write_vlq(&mut output_two) {
                Ok(()) => {
                    let string_one = str::from_utf8(&output_one).unwrap();
                    let string_two = str::from_utf8(&output_two).unwrap();
                    assert_eq!(string_one, string_two);
                }
                Err(err) => {
                    panic!("{:?}", err);
                }
            };
        }
        Err(err) => {
            panic!("{:?}", err);
        }
    };
}

#[test]
fn offset_benchmark() {
    let start_time = Instant::now();
    let mut source_map = SourceMap::new();

    // Based on amount of mappings in kitchen-sink example
    for mapping_id in 1..25000 {
        source_map.add_mapping(Mapping::new(1, mapping_id, None));
    }

    match source_map.offset_columns(1, 500, -251) {
        Ok(_) => {}
        Err(err) => {
            panic!("{:?}", err)
        }
    }

    let elapsed = start_time.elapsed().as_millis();
    println!("Offset mappings duration: {}ms", elapsed);
}

#[test]
fn find_benchmark() {
    let start_time = Instant::now();
    let mut source_map = SourceMap::new();

    // Based on amount of mappings in kitchen-sink example
    for mapping_id in 1..25000 {
        source_map.add_mapping(Mapping::new(1, mapping_id, None));
    }

    source_map.find_closest_mapping(1, 25000);

    let elapsed = start_time.elapsed().as_millis();
    println!("Find closest mapping duration: {}ms", elapsed);
}

#[test]
fn find_closest_is_strict_and_line_bound() {
    let mut source_map = SourceMap::new();
    source_map.add_mapping(Mapping::new(12, 7, Some(OriginalLocation::new(0, 5, 0, Some(0)))));
    // The search is strictly below the given column...
    assert!(source_map.find_closest_mapping(12, 7).is_none());
    // ...and never falls back to an earlier line.
    assert!(source_map.find_closest_mapping(13, 0).is_none());
    assert!(source_map.find_closest_mapping(11, 100).is_none());
}

#[test]
fn source_and_name_tables_deduplicate() {
    let mut source_map = SourceMap::new();
    let first = source_map.add_source(String::from("a.js"));
    let second = source_map.add_source(String::from("b.js"));
    let again = source_map.add_source(String::from("a.js"));
    assert_eq!(first, 0);
    assert_eq!(second, 1);
    assert_eq!(again, 0);
    assert_eq!(source_map.sources.len(), 2);

    let n_first = source_map.add_name(String::from("test"));
    let n_again = source_map.add_name(String::from("test"));
    assert_eq!(n_first, 0);
    assert_eq!(n_again, 0);
    assert_eq!(source_map.names.len(), 1);

    let indexes = source_map.add_sources(vec![
        String::from("b.js"),
        String::from("c.js"),
        String::from("b.js"),
    ]);
    assert_eq!(indexes, vec![1, 2, 1]);
    assert_eq!(source_map.sources.len(), 3);
}

#[test]
fn set_source_content_bounds() {
    let mut source_map = SourceMap::new();
    // No sources yet: every index is out of range.
    match source_map.set_source_content(0, String::from("text")) {
        Ok(()) => panic!("content accepted for a source that does not exist"),
        Err(err) => assert!(matches!(err.error_type, SourceMapErrorType::SourceOutOfRange)),
    }
    source_map.add_source(String::from("a.js"));
    assert!(source_map.set_source_content(0, String::from("text")).is_ok());
    assert_eq!(source_map.sources_content.len(), 1);
    assert_eq!(source_map.sources_content[0].0, 0);
    assert_eq!(source_map.sources_content[0].1, "text");
    // Overwriting keeps a single entry.
    assert!(source_map.set_source_content(0, String::from("other")).is_ok());
    assert_eq!(source_map.sources_content.len(), 1);
    assert_eq!(source_map.sources_content[0].1, "other");
}

#[test]
fn read_vlq_source_out_of_range() {
    // One segment whose wire source index is 3 while two sources are given.
    let mut source_map = SourceMap::new();
    let result = source_map.add_vql_mappings(
        b"AGAA",
        vec![String::from("a.js"), String::from("b.js")],
        vec![],
    );
    match result {
        Ok(()) => panic!("out-of-range source accepted"),
        Err(err) => assert!(matches!(err.error_type, SourceMapErrorType::SourceOutOfRange)),
    }
}

#[test]
fn read_vlq_name_out_of_range() {
    // One segment with a name index while no names are given.
    let mut source_map = SourceMap::new();
    let result = source_map.add_vql_mappings(b"AAAAA", vec![String::from("a.js")], vec![]);
    match result {
        Ok(()) => panic!("out-of-range name accepted"),
        Err(err) => assert!(matches!(err.error_type, SourceMapErrorType::NameOutOfRange)),
    }
}

#[test]
fn read_vlq_invalid_byte() {
    let mut source_map = SourceMap::new();
    let result = source_map.add_vql_mappings(b"%", vec![], vec![]);
    match result {
        Ok(()) => panic!("invalid byte accepted"),
        Err(err) => assert!(matches!(err.error_type, SourceMapErrorType::VlqInvalid)),
    }
}

#[test]
fn read_vlq_unexpected_eof() {
    // 'g' carries a continuation bit and nothing follows it.
    let mut source_map = SourceMap::new();
    let result = source_map.add_vql_mappings(b"g", vec![], vec![]);
    match result {
        Ok(()) => panic!("truncated number accepted"),
        Err(err) => assert!(matches!(err.error_type, SourceMapErrorType::VlqUnexpectedEof)),
    }
}

#[test]
fn read_vlq_negative_column() {
    // 'D' decodes to -1, which drives the column counter below zero.
    let mut source_map = SourceMap::new();
    let result = source_map.add_vql_mappings(b"D", vec![], vec![]);
    match result {
        Ok(()) => panic!("negative column accepted"),
        Err(err) => {
            assert!(matches!(err.error_type, SourceMapErrorType::UnexpectedNegativeNumber))
        }
    }
}

#[test]
fn write_vlq_empty_map() {
    let source_map = SourceMap::new();
    let mut output = vec![];
    assert!(source_map.write_vlq(&mut output).is_ok());
    assert_eq!(output.len(), 0);
}

#[test]
fn boundary_mapping_round_trip() {
    // A mapping with no original position round-trips through the codec.
    let mut source_map = SourceMap::new();
    source_map.add_mapping(Mapping::new(0, 0, None));
    let mut output = vec![];
    assert!(source_map.write_vlq(&mut output).is_ok());
    assert_eq!(str::from_utf8(&output).unwrap(), "A");

    let mut reread = SourceMap::new();
    assert!(reread.add_vql_mappings(&output, vec![], vec![]).is_ok());
    let mut output_two = vec![];
    assert!(reread.write_vlq(&mut output_two).is_ok());
    assert_eq!(output, output_two);
}

#[test]
fn add_mapping_overwrites_column() {
    let mut source_map = SourceMap::new();
    source_map.add_mapping(Mapping::new(3, 4, None));
    source_map.add_mapping(Mapping::new(3, 4, Some(OriginalLocation::new(1, 2, 0, None))));
    assert_eq!(source_map.mapping_lines.len(), 1);
    assert_eq!(source_map.mapping_lines[0].0, 3);
    assert_eq!(source_map.mapping_lines[0].1.mappings.len(), 1);
    let entry = source_map.mapping_lines[0].1.mappings[0];
    assert_eq!(entry.0, 4);
    let original = entry.1.expect("original position was dropped");
    assert_eq!(original.original_line, 1);
    assert_eq!(original.original_column, 2);
    assert_eq!(original.source, 0);
    assert!(original.name.is_none());
}

#[test]
fn offset_lines_shifts_and_drops() {
    // Lines {0, 1, 2, 5}: shifting from line 3 by -1 moves 5 to 4.
    let mut source_map = SourceMap::new();
    for line in [0u32, 1, 2, 5] {
        source_map.add_mapping(Mapping::new(line, 0, None));
    }
    assert!(source_map.offset_lines(3, -1).is_ok());
    let lines: Vec<u32> = source_map.mapping_lines.iter().map(|e| e.0).collect();
    assert_eq!(lines, vec![0, 1, 2, 4]);

    // Lines {0, 1, 2, 5}: shifting from line 5 by -4 lands line 5's content
    // on line 1, replacing what was there; the lines it did not land on
    // keep their content.
    let mut source_map_two = SourceMap::new();
    source_map_two.add_mapping(Mapping::new(0, 10, None));
    source_map_two.add_mapping(Mapping::new(1, 11, None));
    source_map_two.add_mapping(Mapping::new(2, 12, None));
    source_map_two.add_mapping(Mapping::new(5, 15, None));
    assert!(source_map_two.offset_lines(5, -4).is_ok());
    let lines_two: Vec<u32> = source_map_two.mapping_lines.iter().map(|e| e.0).collect();
    assert_eq!(lines_two, vec![0, 1, 2]);
    assert_eq!(source_map_two.mapping_lines[1].1.mappings[0].0, 15);
    assert_eq!(source_map_two.mapping_lines[2].1.mappings[0].0, 12);
}

#[test]
fn offset_lines_rejects_negative_result() {
    let mut source_map = SourceMap::new();
    source_map.add_mapping(Mapping::new(2, 0, None));
    match source_map.offset_lines(0, -5) {
        Ok(()) => panic!("negative line accepted"),
        Err(err) => {
            assert!(matches!(err.error_type, SourceMapErrorType::UnexpectedNegativeNumber))
        }
    }
    // The map is untouched on failure.
    assert_eq!(source_map.mapping_lines.len(), 1);
    assert_eq!(source_map.mapping_lines[0].0, 2);
}

#[test]
fn offset_columns_rejects_negative_result() {
    let mut source_map = SourceMap::new();
    source_map.add_mapping(Mapping::new(0, 5, None));
    match source_map.offset_columns(0, 0, -10) {
        Ok(()) => panic!("negative column accepted"),
        Err(err) => {
            assert!(matches!(err.error_type, SourceMapErrorType::UnexpectedNegativeNumber))
        }
    }
    assert_eq!(source_map.mapping_lines[0].1.mappings[0].0, 5);
}

#[test]
fn offset_columns_missing_line_is_silent() {
    let mut source_map = SourceMap::new();
    source_map.add_mapping(Mapping::new(0, 5, None));
    assert!(source_map.offset_columns(7, 0, -100).is_ok());
    assert_eq!(source_map.mapping_lines.len(), 1);
}

#[test]
fn offset_columns_there_and_back() {
    // Shifting right and back restores the line when nothing collides.
    let mut source_map = SourceMap::new();
    source_map.add_mapping(Mapping::new(0, 2, None));
    source_map.add_mapping(Mapping::new(0, 8, Some(OriginalLocation::new(0, 1, 0, None))));
    source_map.add_mapping(Mapping::new(0, 20, None));
    assert!(source_map.offset_columns(0, 8, 0).is_ok());
    assert!(source_map.offset_columns(0, 8, 5).is_ok());
    assert!(source_map.offset_columns(0, 13, -5).is_ok());
    let cols: Vec<u32> = source_map.mapping_lines[0].1.mappings.iter().map(|e| e.0).collect();
    assert_eq!(cols, vec![2, 8, 20]);
}

#[test]
fn offset_lines_there_and_back() {
    let mut source_map = SourceMap::new();
    source_map.add_mapping(Mapping::new(1, 0, None));
    source_map.add_mapping(Mapping::new(4, 0, None));
    assert!(source_map.offset_lines(2, 3).is_ok());
    let lines: Vec<u32> = source_map.mapping_lines.iter().map(|e| e.0).collect();
    assert_eq!(lines, vec![1, 7]);
    assert!(source_map.offset_lines(5, -3).is_ok());
    let lines_back: Vec<u32> = source_map.mapping_lines.iter().map(|e| e.0).collect();
    assert_eq!(lines_back, vec![1, 4]);
}

#[test]
fn read_vlq_merges_tables() {
    // Reading a second map reuses matching table entries and remaps the rest.
    let mut source_map = SourceMap::new();
    source_map.add_source(String::from("a.js"));
    source_map.add_name(String::from("kept"));
    // Segment "AAAAA": column 0, source 0, line 0, column 0, name 0.
    assert!(source_map
        .add_vql_mappings(b"AAAAA", vec![String::from("b.js")], vec![String::from("kept")])
        .is_ok());
    assert_eq!(source_map.sources, vec![String::from("a.js"), String::from("b.js")]);
    assert_eq!(source_map.names, vec![String::from("kept")]);
    let entry = source_map.mapping_lines[0].1.mappings[0];
    let original = entry.1.expect("original position was dropped");
    // Wire source 0 means "b.js", which merged to table slot 1.
    assert_eq!(original.source, 1);
    assert_eq!(original.name, Some(0));
}
