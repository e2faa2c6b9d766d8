use base64::engine::general_purpose::STANDARD;
use base64::Engine;
use state_visual::error::VisualError;
use state_visual::geometry::ModelInfo;
use state_visual::geometry::ModelVersion;
use state_visual::layout::decode;
use state_visual::quantile::quantile_picks;
use state_visual::render::Tone;
use state_visual::visual::StateStats;
use state_visual::visual::StateVisual;

fn info(version: ModelVersion, num_layer: usize, num_head: usize, num_emb: usize) -> ModelInfo {
    ModelInfo { version, num_layer, num_head, num_emb }
}

fn mean(a: u32, b: u32) -> u32 {
    ((f32::from_bits(a) + f32::from_bits(b)) / 2.0).to_bits()
}

fn grade(cell: u32, bins: [u32; 7]) -> Tone {
    let [_, q0, q1, _, q3, q4, _] = bins.map(f32::from_bits);
    let inner = (q3 - q1).max(f32::EPSILON);
    let outer = (q4 - q0).max(f32::EPSILON);
    let value = f32::from_bits(cell);
    let red = ((value - q1) / inner).clamp(0.0, 1.0) * 255.0;
    let blue = ((value - q0) / outer).clamp(0.0, 1.0) * 255.0;
    Tone { red: red as u8, blue: blue as u8 }
}

/// The whole way from a state to its visual, with single-precision
/// arithmetic for the means and the grading.
fn visualise(info: &ModelInfo, state: &[f32]) -> Result<StateVisual, VisualError> {
    let cells: Vec<u32> = state.iter().map(|value| value.to_bits()).collect();
    StateVisual::new(info, &cells, mean, grade)
}

fn ramp(count: usize) -> Vec<f32> {
    (0..count).map(|index| ((index * 37) % 101) as f32 - 50.0).collect()
}

#[test]
fn visual_has_a_picture_and_bins_for_each_head() {
    // Three layers of two heads, each head four by four.
    let info = info(ModelVersion::V7, 3, 2, 8);
    let visual = visualise(&info, &ramp(3 * 6 * 8)).unwrap();
    assert_eq!(visual.num_layer(), 3);
    assert_eq!(visual.num_head(), 2);
    assert_eq!(visual.images().len(), 3);
    for row in visual.images() {
        assert_eq!(row.len(), 2);
    }
    let places: Vec<(usize, usize)> =
        visual.stats().iter().map(|entry| (entry.layer, entry.head)).collect();
    assert_eq!(places, vec![(0, 0), (0, 1), (1, 0), (1, 1), (2, 0), (2, 1)]);
    for pair in places.windows(2) {
        assert!(pair[0] < pair[1]);
    }
}

#[test]
fn bins_of_each_head_rise() {
    let info = info(ModelVersion::V6, 2, 2, 16);
    let visual = visualise(&info, &ramp(2 * 10 * 16)).unwrap();
    for entry in visual.stats() {
        let bins = entry.bins.map(f32::from_bits);
        for pair in bins.windows(2) {
            assert!(pair[0] <= pair[1], "{bins:?}");
        }
    }
}

#[test]
fn visual_of_the_two_by_two_example() {
    let info = info(ModelVersion::V7, 1, 1, 2);
    let visual = visualise(&info, &[0.0, 0.0, 1.0, 2.0, 3.0, 4.0, 0.0, 0.0]).unwrap();
    let expected = [1.0f32, 1.5, 1.5, 2.5, 3.5, 3.5, 4.0].map(|bin| bin.to_bits());
    assert_eq!(visual.stats(), &vec![StateStats { layer: 0, head: 0, bins: expected }]);
    let png = STANDARD.decode(&visual.images()[0][0]).unwrap();
    let picture = image::load_from_memory(&png).unwrap().to_rgb8();
    assert_eq!(picture.dimensions(), (8, 8));
    // Red rises from the first quartile to the third, blue from the lowest
    // half percent to the highest; both spreads are two.
    assert_eq!(picture.get_pixel(0, 0).0, [0, 0, 0]);
    assert_eq!(picture.get_pixel(7, 3).0, [63, 0, 63]);
    assert_eq!(picture.get_pixel(0, 4).0, [191, 0, 191]);
    assert_eq!(picture.get_pixel(7, 7).0, [255, 0, 255]);
}

#[test]
fn constant_state_gives_constant_bins_and_a_dark_picture() {
    let info = info(ModelVersion::V5, 1, 2, 8);
    let visual = visualise(&info, &vec![0.75f32; 6 * 8]).unwrap();
    for entry in visual.stats() {
        assert_eq!(entry.bins, [0.75f32.to_bits(); 7]);
    }
    for text in &visual.images()[0] {
        let picture = image::load_from_memory(&STANDARD.decode(text).unwrap()).unwrap().to_rgb8();
        assert_eq!(picture.dimensions(), (16, 16));
        assert!(picture.pixels().all(|pixel| pixel.0 == [0, 0, 0]));
    }
}

#[test]
fn same_state_gives_the_same_visual() {
    let info = info(ModelVersion::V7, 2, 3, 12);
    let state = ramp(2 * 6 * 12);
    let first = visualise(&info, &state).unwrap();
    let second = visualise(&info, &state).unwrap();
    assert_eq!(first.num_layer(), second.num_layer());
    assert_eq!(first.num_head(), second.num_head());
    assert_eq!(first.stats(), second.stats());
    assert_eq!(first.images(), second.images());
}

#[test]
fn pictures_decode_to_the_size_of_their_head() {
    let info = info(ModelVersion::V7, 2, 2, 6);
    let state = ramp(2 * 5 * 6);
    let visual = visualise(&info, &state).unwrap();
    let cells: Vec<u32> = state.iter().map(|value| value.to_bits()).collect();
    let heads = decode(&info, &cells).unwrap();
    for (slot, entry) in visual.stats().iter().enumerate() {
        let text = &visual.images()[entry.layer][entry.head];
        let picture = image::load_from_memory(&STANDARD.decode(text).unwrap()).unwrap().to_rgb8();
        assert_eq!(picture.dimensions(), (12, 12));
        let picks = quantile_picks(&heads[slot].cells).unwrap();
        assert_eq!(entry.bins[0], picks.min);
        assert_eq!(entry.bins[3], mean(picks.median.0, picks.median.1));
        assert_eq!(entry.bins[6], picks.max);
    }
}

#[test]
fn oldest_generation_gives_a_blank_visual() {
    let info = info(ModelVersion::V4, 2, 3, 12);
    let visual = visualise(&info, &ramp(100)).unwrap();
    assert_eq!(visual.num_layer(), 2);
    assert_eq!(visual.num_head(), 3);
    assert!(visual.stats().is_empty());
    assert!(visual.images().is_empty());
    let given = StateVisual::assemble(&info, &[[0; 7]], &[vec![Tone { red: 1, blue: 1 }; 16]]).unwrap();
    assert!(given.stats().is_empty());
    assert!(given.images().is_empty());
}

#[test]
fn model_without_layers_gives_an_empty_grid() {
    let info = info(ModelVersion::V7, 0, 2, 8);
    let visual = visualise(&info, &[]).unwrap();
    assert_eq!(visual.num_layer(), 0);
    assert_eq!(visual.num_head(), 2);
    assert!(visual.stats().is_empty());
    assert!(visual.images().is_empty());
}

#[test]
fn geometry_is_checked_first() {
    let bins = [[0u32; 7]];
    let tones = [vec![Tone { red: 0, blue: 0 }; 4]];
    let no_head = StateVisual::assemble(&info(ModelVersion::V7, 1, 0, 2), &bins, &tones);
    assert_eq!(no_head.err(), Some(VisualError::Geometry));
    let one_row = StateVisual::assemble(&info(ModelVersion::V7, 1, 1, 1), &[], &[]);
    assert_eq!(one_row.err(), Some(VisualError::Geometry));
}

#[test]
fn bins_and_tones_must_fit_the_geometry() {
    let info = info(ModelVersion::V7, 1, 2, 4);
    let dark = vec![Tone { red: 0, blue: 0 }; 4];
    let fitting = StateVisual::assemble(&info, &[[0; 7]; 2], &[dark.clone(), dark.clone()]);
    assert!(fitting.is_ok());
    let few_bins = StateVisual::assemble(&info, &[[0; 7]], &[dark.clone(), dark.clone()]);
    assert_eq!(few_bins.err(), Some(VisualError::Shape));
    let few_heads = StateVisual::assemble(&info, &[[0; 7]; 2], &[dark.clone()]);
    assert_eq!(few_heads.err(), Some(VisualError::Shape));
    let many_heads =
        StateVisual::assemble(&info, &[[0; 7]; 3], &[dark.clone(), dark.clone(), dark.clone()]);
    assert_eq!(many_heads.err(), Some(VisualError::Shape));
    let short_head = StateVisual::assemble(&info, &[[0; 7]; 2], &[dark.clone(), dark[..3].to_vec()]);
    assert_eq!(short_head.err(), Some(VisualError::Shape));
}

#[test]
fn bins_are_kept_as_given_and_labelled_by_place() {
    let info = info(ModelVersion::V7, 2, 1, 2);
    let dark = vec![Tone { red: 0, blue: 0 }; 4];
    let bins = [[1, 2, 3, 4, 5, 6, 7], [8, 9, 10, 11, 12, 13, 14]];
    let visual = StateVisual::assemble(&info, &bins, &[dark.clone(), dark]).unwrap();
    assert_eq!(
        visual.stats(),
        &vec![
            StateStats { layer: 0, head: 0, bins: bins[0] },
            StateStats { layer: 1, head: 0, bins: bins[1] },
        ]
    );
}

#[test]
fn each_picture_shows_its_own_head() {
    let info = info(ModelVersion::V7, 2, 2, 4);
    let tones: Vec<Vec<Tone>> =
        (0..4u8).map(|slot| vec![Tone { red: 10 * slot, blue: 200 + slot }; 4]).collect();
    let visual = StateVisual::assemble(&info, &[[0; 7]; 4], &tones).unwrap();
    for layer in 0..2usize {
        for head in 0..2usize {
            let text = &visual.images()[layer][head];
            let picture =
                image::load_from_memory(&STANDARD.decode(text).unwrap()).unwrap().to_rgb8();
            let slot = (2 * layer + head) as u8;
            assert!(picture.pixels().all(|pixel| pixel.0 == [10 * slot, 0, 200 + slot]));
        }
    }
}

#[test]
fn errors_describe_themselves() {
    assert_eq!(VisualError::Geometry.message(), "model geometry cannot be plotted");
    assert_eq!(VisualError::Shape.message(), "bins or tones do not match the geometry");
    assert_eq!(VisualError::Encoding.message(), "failed to write image to bytes");
}

#[test]
fn visual_survives_a_round_trip_through_json() {
    let info = info(ModelVersion::V7, 2, 2, 4);
    let visual = visualise(&info, &ramp(2 * 4 * 4)).unwrap();
    let stats: Vec<serde_json::Value> = visual
        .stats()
        .iter()
        .map(|entry| {
            let bins: Vec<serde_json::Value> = entry
                .bins
                .iter()
                .map(|bin| serde_json::Value::from(f32::from_bits(*bin)))
                .collect();
            let mut object = serde_json::Map::new();
            object.insert("layer".to_string(), serde_json::Value::from(entry.layer));
            object.insert("head".to_string(), serde_json::Value::from(entry.head));
            object.insert("bins".to_string(), serde_json::Value::from(bins));
            serde_json::Value::Object(object)
        })
        .collect();
    let images: Vec<serde_json::Value> =
        visual.images().iter().map(|row| serde_json::Value::from(row.clone())).collect();
    let mut object = serde_json::Map::new();
    object.insert("num_layer".to_string(), serde_json::Value::from(visual.num_layer()));
    object.insert("num_head".to_string(), serde_json::Value::from(visual.num_head()));
    object.insert("stats".to_string(), serde_json::Value::from(stats));
    object.insert("images".to_string(), serde_json::Value::from(images));
    let text = serde_json::to_string(&serde_json::Value::Object(object)).unwrap();

    let parsed: serde_json::Value = serde_json::from_str(&text).unwrap();
    assert_eq!(parsed["num_layer"].as_u64(), Some(2));
    assert_eq!(parsed["num_head"].as_u64(), Some(2));
    let parsed_stats = parsed["stats"].as_array().unwrap();
    assert_eq!(parsed_stats.len(), 4);
    for (entry, found) in visual.stats().iter().zip(parsed_stats) {
        assert_eq!(found["layer"].as_u64(), Some(entry.layer as u64));
        assert_eq!(found["head"].as_u64(), Some(entry.head as u64));
        let bins: Vec<u32> = found["bins"]
            .as_array()
            .unwrap()
            .iter()
            .map(|bin| (bin.as_f64().unwrap() as f32).to_bits())
            .collect();
        assert_eq!(bins, entry.bins.to_vec());
    }
    let rows = parsed["images"].as_array().unwrap();
    assert_eq!(rows.len(), 2);
    for (row, found) in visual.images().iter().zip(rows) {
        let found = found.as_array().unwrap();
        assert_eq!(found.len(), 2);
        for (text, found) in row.iter().zip(found) {
            assert_eq!(found.as_str(), Some(text.as_str()));
            let png = STANDARD.decode(found.as_str().unwrap()).unwrap();
            let picture = image::load_from_memory(&png).unwrap().to_rgb8();
            assert_eq!(picture.dimensions(), (8, 8));
        }
    }
}

#[test]
fn geometry_that_cannot_be_plotted_gives_no_visual() {
    let state = ramp(16);
    let no_head = visualise(&info(ModelVersion::V7, 1, 0, 2), &state);
    assert_eq!(no_head.err(), Some(VisualError::Geometry));
    let one_row = visualise(&info(ModelVersion::V6, 1, 2, 2), &state);
    assert_eq!(one_row.err(), Some(VisualError::Geometry));
}

#[test]
fn short_state_is_drawn_with_zeros() {
    let info = info(ModelVersion::V7, 1, 1, 2);
    let visual = visualise(&info, &[0.0, 0.0, 8.0]).unwrap();
    let expected = [0.0f32, 0.0, 0.0, 0.0, 4.0, 4.0, 8.0].map(|bin| bin.to_bits());
    assert_eq!(visual.stats()[0].bins, expected);
}

#[test]
fn means_and_grades_are_taken_as_the_caller_gives_them() {
    let info = info(ModelVersion::V7, 1, 1, 2);
    let cells = [0, 0, 40, 10, 30, 20, 0, 0];
    let visual = StateVisual::new(
        &info,
        &cells,
        |a, b| 1000 + 10 * a + b / 10,
        |cell, bins| Tone { red: cell as u8, blue: (bins[3] / 10) as u8 },
    )
    .unwrap();
    // Sorted: 10, 20, 30, 40. The pairs, in the order of the bins: (10, 20),
    // (10, 20), (20, 30), (30, 40), (30, 40).
    assert_eq!(visual.stats()[0].bins, [10, 1102, 1102, 1203, 1304, 1304, 40]);
    let png = STANDARD.decode(&visual.images()[0][0]).unwrap();
    let picture = image::load_from_memory(&png).unwrap().to_rgb8();
    assert_eq!(picture.get_pixel(0, 0).0, [40, 0, 120]);
    assert_eq!(picture.get_pixel(4, 0).0, [10, 0, 120]);
    assert_eq!(picture.get_pixel(3, 4).0, [30, 0, 120]);
    assert_eq!(picture.get_pixel(7, 7).0, [20, 0, 120]);
}

#[test]
fn heads_of_sixty_four_rows() {
    let info = info(ModelVersion::V7, 2, 4, 256);
    let state: Vec<f32> =
        (0..2 * 66 * 256usize).map(|index| ((index * 2654435761) % 4093) as f32 / 64.0).collect();
    let visual = visualise(&info, &state).unwrap();
    assert_eq!(visual.stats().len(), 8);
    assert_eq!(visual.images().len(), 2);
    for row in visual.images() {
        assert_eq!(row.len(), 4);
        for text in row {
            let png = STANDARD.decode(text).unwrap();
            let picture = image::load_from_memory(&png).unwrap().to_rgb8();
            assert_eq!(picture.dimensions(), (256, 256));
        }
    }
    for entry in visual.stats() {
        let bins = entry.bins.map(f32::from_bits);
        for pair in bins.windows(2) {
            assert!(pair[0] <= pair[1]);
        }
    }
}

#[test]
fn model_without_layers_gives_the_empty_visual_whatever_its_heads() {
    for (num_head, num_emb) in [(1usize, 1usize), (1, 0), (4, 2), (1, usize::MAX), (2, 8)] {
        let info = info(ModelVersion::V7, 0, num_head, num_emb);
        for state in [Vec::new(), ramp(5)] {
            let visual = visualise(&info, &state).unwrap();
            assert_eq!(visual.num_layer(), 0);
            assert_eq!(visual.num_head(), num_head);
            assert!(visual.stats().is_empty());
            assert!(visual.images().is_empty());
        }
        let assembled = StateVisual::assemble(&info, &[], &[]).unwrap();
        assert_eq!(assembled.num_head(), num_head);
        assert!(assembled.images().is_empty());
        let given = StateVisual::assemble(&info, &[[0; 7]], &[Vec::new()]);
        assert_eq!(given.err(), Some(VisualError::Shape));
    }
    let no_head = visualise(&info(ModelVersion::V7, 0, 0, 8), &[]);
    assert_eq!(no_head.err(), Some(VisualError::Geometry));
}
