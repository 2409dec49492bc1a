use gltf_explorer::digits::decimal_digits;
use gltf_explorer::document_statistics::{stats, DocumentCounts};

fn digits_string(n: u64) -> String {
    decimal_digits(n).into_iter().collect()
}

#[test]
fn decimal_rendering_is_exact() {
    assert_eq!(digits_string(0), "0");
    assert_eq!(digits_string(7), "7");
    assert_eq!(digits_string(10), "10");
    assert_eq!(digits_string(12345), "12345");
    assert_eq!(digits_string(u64::MAX), "18446744073709551615");
}

#[test]
fn stats_lines_carry_every_count_in_order() {
    let counts = DocumentCounts {
        accessors: 12,
        animations: 0,
        buffers: 1,
        cameras: 2,
        has_default_scene: true,
        extensions_used: 3,
        extensions_required: 4,
        images: 5,
        materials: 6,
        meshes: 7,
        samplers: 8,
        skins: 9,
        textures: 10,
        views: 11,
    };
    let lines: Vec<String> = stats(&counts)
        .into_iter()
        .map(|l| l.into_iter().collect())
        .collect();
    assert_eq!(
        lines,
        vec![
            "Accessors: 12",
            "Animations: 0",
            "Buffers: 1",
            "Cameras: 2",
            "Has default scene: true",
            "Extensions used: 3",
            "Extensions required: 4",
            "Images: 5",
            "Materials: 6",
            "Meshes: 7",
            "Samplers: 8",
            "Skins: 9",
            "Textures: 10",
            "Buffer views: 11",
        ]
    );
}

#[test]
fn stats_report_a_missing_default_scene() {
    let counts = DocumentCounts {
        accessors: 0,
        animations: 0,
        buffers: 0,
        cameras: 0,
        has_default_scene: false,
        extensions_used: 0,
        extensions_required: 0,
        images: 0,
        materials: 0,
        meshes: 0,
        samplers: 0,
        skins: 0,
        textures: 0,
        views: 0,
    };
    let lines: Vec<String> = stats(&counts)
        .into_iter()
        .map(|l| l.into_iter().collect())
        .collect();
    assert_eq!(lines[4], "Has default scene: false");
}
