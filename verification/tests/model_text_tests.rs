use proof_engine::model_text::{glyph_of_code, model_text_records};

fn text_of(chars: &[char]) -> String {
    chars.iter().collect()
}

fn fields_of(record: &[Vec<char>]) -> Vec<String> {
    record.iter().map(|w| text_of(w)).collect()
}

#[test]
fn test_export_import_roundtrip() {
    // one particle at (1, 2, 3), glyph 'A', colour (1, 0.5, 0, 1), written as
    // the exporter writes it
    let (x, y, z) = (1.0f32, 2.0f32, 3.0f32);
    let (r, g, b, a, e) = (1.0f32, 0.5f32, 0.0f32, 1.0f32, 0.0f32);
    let text = format!(
        "# ParticleModel: {} id:{}\n{:.6} {:.6} {:.6} {} {:.4} {:.4} {:.4} {:.4} {:.4}",
        "test", 1, x, y, z, 'A' as u32, r, g, b, a, e
    );
    let (name, records) = model_text_records(&text);
    assert_eq!(text_of(&name), "test");
    assert_eq!(records.len(), 1);
    let f = fields_of(&records[0]);
    let code: u32 = f[3].parse().unwrap();
    assert_eq!(glyph_of_code(code), 'A');
    let px: f32 = f[0].parse().unwrap();
    let py: f32 = f[1].parse().unwrap();
    let pz: f32 = f[2].parse().unwrap();
    let d = ((px - 1.0).powi(2) + (py - 2.0).powi(2) + (pz - 3.0).powi(2)).sqrt();
    assert!(d < 1e-4);
}

#[test]
fn model_text_frames_header_and_records() {
    let text = "  # ParticleModel:  Tower  id:7\r\n\
                # a comment line\n\
                \n\
                1 2 3 65 1 1 1 1 0\n\
                1 2 3 65 1 1 1\n\
                \t4  5 6 66 0 0 0 1 2 extra\t\n";
    let (name, records) = model_text_records(text);
    assert_eq!(text_of(&name), "Tower");
    assert_eq!(records.len(), 2);
    assert_eq!(fields_of(&records[0]), vec!["1", "2", "3", "65", "1", "1", "1", "1", "0"]);
    assert_eq!(
        fields_of(&records[1]),
        vec!["4", "5", "6", "66", "0", "0", "0", "1", "2", "extra"]
    );
}

#[test]
fn model_text_names_and_defaults() {
    // no header: the default name, and no records from short lines
    let (name, records) = model_text_records("1 2 3\n");
    assert_eq!(text_of(&name), "imported");
    assert!(records.is_empty());
    // the last header wins; without `id:` the whole rest is the name
    let (name, _) = model_text_records("# ParticleModel: A id:1\n# ParticleModel: B C");
    assert_eq!(text_of(&name), "B C");
    // empty text
    let (name, records) = model_text_records("");
    assert_eq!(text_of(&name), "imported");
    assert!(records.is_empty());
}

#[test]
fn glyph_codes_fall_back_to_a_dot() {
    assert_eq!(glyph_of_code(65), 'A');
    assert_eq!(glyph_of_code(0xD800), '.');
    assert_eq!(glyph_of_code(0x110000), '.');
}
