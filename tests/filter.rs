use synth_core::filter::{one_pole, svf};

#[test]
fn default_modes_are_allpass() {
    assert_eq!(one_pole::FilterMode::default(), one_pole::FilterMode::AP);
    assert_eq!(svf::FilterMode::default(), svf::FilterMode::AP);
}
