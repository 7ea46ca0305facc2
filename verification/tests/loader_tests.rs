use bog_engine::loader::{parse_particle_data, parse_particle_report, read_density, DropReason, DroppedBlock};

fn chars(s: &str) -> Vec<char> {
    s.chars().collect()
}

const SAND: &str = "[10]\nname: Sand\ncategory: 4\nbase_color: #C2B280\nvariant_color: #A89060\nis_movable: true\ndensity: 1.6\n";

#[test]
fn one_block_and_the_empty_material() {
    let catalog = parse_particle_data(SAND);
    let mut ids: Vec<u16> = catalog.keys().copied().collect();
    ids.sort();
    assert_eq!(ids, vec![0, 10]);
    let sand = &catalog[&10];
    assert_eq!(sand.id, 10);
    assert_eq!(sand.name, "Sand");
    assert_eq!(sand.category, 4);
    assert_eq!(sand.base_color, "#C2B280");
    assert_eq!(sand.variant_color, "#A89060");
    assert!(sand.is_movable);
    assert_eq!(sand.density, 1_600_000);
}

#[test]
fn the_empty_material_is_always_there() {
    for text in ["", "\n\n", "# nothing here\n", "[0]\nname: Mine\n", "name: Stray\n"] {
        let catalog = parse_particle_data(text);
        assert_eq!(catalog.len(), 1);
        let empty = &catalog[&0];
        assert_eq!(empty.id, 0);
        assert_eq!(empty.name, "Empty");
        assert_eq!(empty.category, 0);
        assert_eq!(empty.base_color, "#0E0E11");
        assert_eq!(empty.variant_color, "#0E0E11");
        assert!(empty.is_movable);
        assert_eq!(empty.density, 0);
    }
}

#[test]
fn a_second_block_with_the_same_id_is_ignored() {
    let text = format!(
        "{}\n[10]\nname: Other\ncategory: 7\nbase_color: #000\nvariant_color: #FFF\nis_movable: false\ndensity: 9\n",
        SAND
    );
    let catalog = parse_particle_data(&text);
    assert_eq!(catalog.len(), 2);
    assert_eq!(catalog[&10].name, "Sand");
    assert_eq!(catalog[&10].category, 4);
    assert_eq!(catalog[&10].density, 1_600_000);
}

#[test]
fn a_block_without_density_is_dropped() {
    let text = "[11]\nname: Dust\ncategory: 4\nbase_color: #111\nvariant_color: #222\nis_movable: true\n";
    let catalog = parse_particle_data(text);
    assert_eq!(catalog.len(), 1);
    assert!(catalog.contains_key(&0));
    let both = format!("{}{}", text, SAND);
    let catalog = parse_particle_data(&both);
    let mut ids: Vec<u16> = catalog.keys().copied().collect();
    ids.sort();
    assert_eq!(ids, vec![0, 10]);
}

#[test]
fn each_missing_key_drops_the_block() {
    let lines = [
        "name: Sand",
        "category: 4",
        "base_color: #C2B280",
        "variant_color: #A89060",
        "is_movable: true",
        "density: 1.6",
    ];
    for skip in 0..lines.len() {
        let mut text = String::from("[10]\n");
        for (i, line) in lines.iter().enumerate() {
            if i != skip {
                text.push_str(line);
                text.push('\n');
            }
        }
        assert_eq!(parse_particle_data(&text).len(), 1, "without {}", lines[skip]);
    }
}

#[test]
fn ids_below_ten_are_rejected() {
    let text = SAND.replace("[10]", "[9]");
    assert_eq!(parse_particle_data(&text).len(), 1);
    let text = SAND.replace("[10]", "[0]");
    let catalog = parse_particle_data(&text);
    assert_eq!(catalog.len(), 1);
    assert_eq!(catalog[&0].name, "Empty");
}

#[test]
fn comments_blank_lines_and_white_space_are_skipped() {
    let text = "# materials\n\n   [12]  \r\n\tname:   Wet Sand  \n# a comment\ncategory:4\nbase_color: #123\n\nvariant_color: #456\nis_movable: false\ndensity: 2\nunknown: key\n";
    let catalog = parse_particle_data(text);
    assert_eq!(catalog.len(), 2);
    let m = &catalog[&12];
    assert_eq!(m.name, "Wet Sand");
    assert_eq!(m.category, 4);
    assert_eq!(m.base_color, "#123");
    assert_eq!(m.variant_color, "#456");
    assert!(!m.is_movable);
    assert_eq!(m.density, 2_000_000);
}

#[test]
fn a_later_line_replaces_an_earlier_one() {
    let text = format!("{}name: Gravel\ndensity: 2.5\n", SAND);
    let catalog = parse_particle_data(&text);
    assert_eq!(catalog[&10].name, "Gravel");
    assert_eq!(catalog[&10].density, 2_500_000);
    // a value that cannot be read empties the field again
    let text = format!("{}category: many\n", SAND);
    assert_eq!(parse_particle_data(&text).len(), 1);
    let text = format!("{}is_movable: yes\n", SAND);
    assert_eq!(parse_particle_data(&text).len(), 1);
}

#[test]
fn a_key_needs_its_colon_right_behind_it() {
    let text = SAND.replace("density: 1.6", "density : 1.6");
    assert_eq!(parse_particle_data(&text).len(), 1);
}

#[test]
fn lines_after_an_ignored_header_fill_no_block() {
    let text = format!("{}[10]\ndensity: 7\nname: Other\n[20]\nname: Twenty\n", SAND);
    let catalog = parse_particle_data(&text);
    assert_eq!(catalog.len(), 2);
    assert_eq!(catalog[&10].name, "Sand");
    assert_eq!(catalog[&10].density, 1_600_000);
}

#[test]
fn a_header_that_names_no_number_stands_for_zero() {
    let text = "[sand]\nname: Sand\ncategory: 4\nbase_color: #C2B280\nvariant_color: #A89060\nis_movable: true\ndensity: 1.6\n";
    let catalog = parse_particle_data(text);
    assert_eq!(catalog.len(), 1);
    assert_eq!(catalog[&0].name, "Empty");
}

#[test]
fn several_blocks_are_all_read() {
    let text = format!(
        "{}[300]\nname: Water\ncategory: 5\nbase_color: #2266FF\nvariant_color: #3377FF\nis_movable: true\ndensity: 1.0\n[65535]\nname: Wall\ncategory: 1\nbase_color: #888\nvariant_color: #999\nis_movable: false\ndensity: 100\n",
        SAND
    );
    let catalog = parse_particle_data(&text);
    let mut ids: Vec<u16> = catalog.keys().copied().collect();
    ids.sort();
    assert_eq!(ids, vec![0, 10, 300, 65535]);
    assert_eq!(catalog[&300].density, 1_000_000);
    assert_eq!(catalog[&65535].density, 100_000_000);
    assert!(!catalog[&65535].is_movable);
}

#[test]
fn density_is_read_in_millionths() {
    assert_eq!(read_density(&chars("1.6")), Some(1_600_000));
    assert_eq!(read_density(&chars("0")), Some(0));
    assert_eq!(read_density(&chars("0.0")), Some(0));
    assert_eq!(read_density(&chars("2")), Some(2_000_000));
    assert_eq!(read_density(&chars("5.")), Some(5_000_000));
    assert_eq!(read_density(&chars(".5")), Some(500_000));
    assert_eq!(read_density(&chars("+0.25")), Some(250_000));
    assert_eq!(read_density(&chars("0.000001")), Some(1));
    assert_eq!(read_density(&chars("12.345678")), Some(12_345_678));
    assert_eq!(read_density(&chars("007.5")), Some(7_500_000));
}

#[test]
fn density_drops_digits_beyond_the_sixth() {
    assert_eq!(read_density(&chars("1.6000009")), Some(1_600_000));
    assert_eq!(read_density(&chars("0.9999999")), Some(999_999));
    assert_eq!(read_density(&chars("0.0000001")), Some(0));
}

#[test]
fn density_of_another_form_is_none() {
    for text in ["", ".", "+", "+.", "-1", "-0.5", "1e3", "inf", "NaN", "1.2.3", "1,5", " 1", "1 ", "1.5x", "x", "++1", "1.+5", "1.0000000x"] {
        assert_eq!(read_density(&chars(text)), None, "{:?}", text);
    }
}

#[test]
fn density_beyond_sixty_four_bits_is_none() {
    assert_eq!(read_density(&chars("18446744073709.551615")), Some(u64::MAX));
    assert_eq!(read_density(&chars("18446744073709.551616")), None);
    assert_eq!(read_density(&chars("18446744073710")), None);
    assert_eq!(read_density(&chars("99999999999999999999999999999999")), None);
}

fn dropped(id: u16, reason: DropReason) -> DroppedBlock {
    DroppedBlock { id, reason }
}

#[test]
fn a_text_without_faults_drops_nothing() {
    let report = parse_particle_report(SAND);
    assert_eq!(report.catalog.len(), 2);
    assert!(report.dropped.is_empty());
    assert!(parse_particle_report("").dropped.is_empty());
    assert!(parse_particle_report("# only a comment\n\nname: Stray\n").dropped.is_empty());
}

#[test]
fn a_second_block_with_the_same_id_is_named_as_a_duplicate() {
    let text = format!("{}[10]\nname: Other\n[10]\n", SAND);
    let report = parse_particle_report(&text);
    assert_eq!(report.catalog[&10].name, "Sand");
    assert_eq!(
        report.dropped,
        vec![dropped(10, DropReason::DuplicateId), dropped(10, DropReason::DuplicateId)]
    );
}

#[test]
fn a_block_without_a_key_is_named_as_incomplete() {
    let text = "[11]\nname: Dust\ncategory: 4\nbase_color: #111\nvariant_color: #222\nis_movable: true\n";
    let report = parse_particle_report(text);
    assert_eq!(report.catalog.len(), 1);
    assert_eq!(report.dropped, vec![dropped(11, DropReason::MissingKey)]);
    let report = parse_particle_report(&format!("{}category: many\n", SAND));
    assert_eq!(report.dropped, vec![dropped(10, DropReason::MissingKey)]);
}

#[test]
fn a_block_with_an_id_below_ten_is_named_as_reserved() {
    let report = parse_particle_report(&SAND.replace("[10]", "[9]"));
    assert_eq!(report.catalog.len(), 1);
    assert_eq!(report.dropped, vec![dropped(9, DropReason::ReservedId)]);
    let report = parse_particle_report(&SAND.replace("[10]", "[sand]"));
    assert_eq!(report.dropped, vec![dropped(0, DropReason::ReservedId)]);
    let report = parse_particle_report("[3]\nname: Short\n");
    assert_eq!(report.dropped, vec![dropped(3, DropReason::MissingKey)]);
}

#[test]
fn duplicates_are_named_first_and_the_rest_in_the_order_of_the_text() {
    let text = format!(
        "[12]\nname: First\n[5]\nname: Five\n{}[12]\n[7]\n[5]\n[10]\n",
        SAND
    );
    let report = parse_particle_report(&text);
    let mut ids: Vec<u16> = report.catalog.keys().copied().collect();
    ids.sort();
    assert_eq!(ids, vec![0, 10]);
    assert_eq!(
        report.dropped,
        vec![
            dropped(12, DropReason::DuplicateId),
            dropped(5, DropReason::DuplicateId),
            dropped(10, DropReason::DuplicateId),
            dropped(12, DropReason::MissingKey),
            dropped(5, DropReason::MissingKey),
            dropped(7, DropReason::MissingKey),
        ]
    );
}

#[test]
fn every_material_is_filed_under_its_own_id() {
    let text = format!("{}{}", SAND, SAND.replace("[10]", "[77]"));
    let catalog = parse_particle_data(&text);
    assert_eq!(catalog.len(), 3);
    for (id, material) in &catalog {
        assert_eq!(material.id, *id);
    }
}
