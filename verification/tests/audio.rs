//! Audio outputs.

use stardust::audio::{
    choose_config, list_outputs, AudioOutputInfo, AudioSpec, ChosenConfig,
    DefaultConfig, SupportedConfig,
};
use stardust::text::find_name;

fn names(all: &[Option<&str>]) -> Vec<Option<String>> {
    all.iter().map(|n| n.map(str::to_string)).collect()
}

#[test]
fn the_default_output_comes_first() {
    let devices = names(&[Some("A"), None, Some("B"), Some("C"), Some("B")]);
    let info = |name: &str, is_default| AudioOutputInfo { name: name.to_string(), is_default };
    assert_eq!(
        list_outputs(&devices, "B"),
        vec![info("B", true), info("B", true), info("A", false), info("C", false)]
    );
    assert_eq!(
        list_outputs(&names(&[Some("A"), Some("")]), ""),
        vec![info("A", false), info("", false)]
    );
}

#[test]
fn an_output_is_found_by_its_name() {
    let devices = names(&[Some("A"), None, Some("B"), Some("B")]);
    assert_eq!(find_name(&devices, "B"), Some(2));
    assert_eq!(find_name(&devices, "D"), None);
}

#[test]
fn the_preferred_rate_is_taken_where_it_is_supported() {
    let config = |min, max, channels, is_float| SupportedConfig {
        min_sample_rate: min,
        max_sample_rate: max,
        channels,
        is_float,
    };
    let supported = vec![
        config(44100, 96000, 1, false),
        config(44100, 44100, 1, true),
        config(44100, 96000, 2, true),
    ];
    let default = DefaultConfig { sample_rate: 44100, channels: 6, is_float: false };
    assert_eq!(
        choose_config(&supported, default, Some(48000)),
        ChosenConfig::Supported(2, AudioSpec { sample_rate: 48000, channels: 2 })
    );
    assert_eq!(
        choose_config(&supported, default, Some(8000)),
        ChosenConfig::Default(AudioSpec { sample_rate: 44100, channels: 6 })
    );
    assert_eq!(
        choose_config(&supported, default, None),
        ChosenConfig::Default(AudioSpec { sample_rate: 44100, channels: 6 })
    );
    assert_eq!(
        choose_config(&vec![config(1, 96000, 2, false)], default, Some(48000)),
        ChosenConfig::Unsupported
    );
    let float = DefaultConfig { sample_rate: 48000, channels: 2, is_float: true };
    assert_eq!(
        choose_config(&vec![], float, Some(44100)),
        ChosenConfig::Default(AudioSpec { sample_rate: 48000, channels: 2 })
    );
}
