use state_visual::error::VisualError;
use state_visual::geometry::ModelInfo;
use state_visual::geometry::ModelVersion;
use state_visual::order::rank_of;
use state_visual::render::Tone;
use state_visual::shading::shade;

fn info(version: ModelVersion, num_layer: usize, num_head: usize, num_emb: usize) -> ModelInfo {
    ModelInfo { version, num_layer, num_head, num_emb }
}

fn mean(a: u32, b: u32) -> u32 {
    ((f32::from_bits(a) + f32::from_bits(b)) / 2.0).to_bits()
}

fn grey(cell: u32, bins: [u32; 7]) -> Tone {
    let least = f32::from_bits(bins[0]);
    let spread = (f32::from_bits(bins[6]) - least).max(f32::EPSILON);
    let level = ((f32::from_bits(cell) - least) / spread * 255.0) as u8;
    Tone { red: level, blue: level }
}

fn cells_of(values: &[f32]) -> Vec<u32> {
    values.iter().map(|value| value.to_bits()).collect()
}

#[test]
fn shades_each_head_from_its_own_cells() {
    // One layer of two heads, each two by two.
    let state = cells_of(&[
        0.0, 0.0, 0.0, 0.0, //
        1.0, 2.0, 10.0, 20.0, //
        3.0, 4.0, 30.0, 40.0, //
        0.0, 0.0, 0.0, 0.0,
    ]);
    let shading = shade(&info(ModelVersion::V7, 1, 2, 4), &state, &mean, &grey).unwrap();
    assert_eq!(shading.bins.len(), 2);
    assert_eq!(shading.bins[0], cells_of(&[1.0, 1.5, 1.5, 2.5, 3.5, 3.5, 4.0])[..]);
    assert_eq!(shading.bins[1], cells_of(&[10.0, 15.0, 15.0, 25.0, 35.0, 35.0, 40.0])[..]);
    let levels: Vec<Vec<u8>> =
        shading.tones.iter().map(|head| head.iter().map(|tone| tone.red).collect()).collect();
    assert_eq!(levels, vec![vec![0, 85, 170, 255], vec![0, 85, 170, 255]]);
}

#[test]
fn first_and_last_bin_are_cells_of_the_head() {
    let state: Vec<u32> = (0..6 * 4u32).map(|index| (index * 7919) % 1000).collect();
    let info = info(ModelVersion::V5, 1, 1, 4);
    let shading = shade(&info, &state, &|a, _| a, &|_, _| Tone { red: 0, blue: 0 }).unwrap();
    let body: Vec<u32> = state[4..20].to_vec();
    assert_eq!(shading.bins[0][0], *body.iter().min().unwrap());
    assert_eq!(shading.bins[0][6], *body.iter().max().unwrap());
    assert_eq!(shading.tones[0].len(), 16);
}

#[test]
fn bins_rise_where_the_mean_lies_between() {
    let mut seed: u32 = 99;
    let mut state = Vec::new();
    for _ in 0..3 * 10 * 16 {
        seed = seed.wrapping_mul(1664525).wrapping_add(1013904223);
        state.push((((seed >> 8) as f32 / 65536.0) - 128.0).to_bits());
    }
    let shading = shade(&info(ModelVersion::V6, 3, 2, 16), &state, &mean, &grey).unwrap();
    assert_eq!(shading.bins.len(), 6);
    for bins in &shading.bins {
        for pair in bins.windows(2) {
            assert!(rank_of(pair[0]) <= rank_of(pair[1]));
        }
    }
}

#[test]
fn constant_head_has_constant_bins() {
    let cell = 0.375f32.to_bits();
    let shading = shade(&info(ModelVersion::V7, 2, 1, 3), &[cell; 30], &mean, &grey).unwrap();
    assert_eq!(shading.bins, vec![[cell; 7]; 2]);
    for head in &shading.tones {
        assert_eq!(head, &vec![Tone { red: 0, blue: 0 }; 9]);
    }
}

#[test]
fn oldest_generation_has_nothing_to_shade() {
    let shading = shade(&info(ModelVersion::V4, 2, 2, 8), &[1; 64], &mean, &grey).unwrap();
    assert!(shading.bins.is_empty());
    assert!(shading.tones.is_empty());
}

#[test]
fn shading_needs_a_plottable_geometry() {
    let refused = shade(&info(ModelVersion::V7, 1, 1, 1), &[1; 64], &mean, &grey);
    assert_eq!(refused.err(), Some(VisualError::Geometry));
}

#[test]
fn model_without_layers_has_nothing_to_shade() {
    let shading = shade(&info(ModelVersion::V7, 0, 1, 1), &[1, 2, 3], &mean, &grey).unwrap();
    assert!(shading.bins.is_empty());
    assert!(shading.tones.is_empty());
    let refused = shade(&info(ModelVersion::V7, 0, 0, 1), &[], &mean, &grey);
    assert_eq!(refused.err(), Some(VisualError::Geometry));
}
