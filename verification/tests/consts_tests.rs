use nhvsampler::consts::{
    config_entries, config_from_entries, hop_size, is_v3x_model, parse_bool_text, parse_count_text, thop_samples,
    NHVConfig, SAMPLE_RATE,
};
use std::path::Path;

/// The configuration the server runs with when, as where these tests run,
/// there is no `nhvconfig.ini` to read.
fn global_config() -> NHVConfig {
    config_from_text(None)
}

fn config_from_text(text: Option<&str>) -> NHVConfig {
    let entries = config_entries(text);
    let reals: Vec<Option<u32>> = entries.iter().map(|(_, v)| v.parse::<f32>().ok().map(f32::to_bits)).collect();
    config_from_entries(&entries, &reals)
}

#[test]
fn test_default_config() {
    let default = NHVConfig::default();
    assert_eq!(default.vocoder_path, "./model/nhv_v3x.onnx");
    assert_eq!(default.wave_norm, true);
    assert_eq!(default.trim_silence, true);
    assert_eq!(f32::from_bits(default.silence_threshold), -52.0);
    assert_eq!(default.loop_mode, true);
    assert_eq!(f32::from_bits(default.peak_limit), 1.0);
    assert_eq!(default.fill, 6);
    assert_eq!(default.max_workers, 2);
    assert_eq!(f32::from_bits(default.voiced_threshold), 0.93);
}

#[test]
fn test_global_config_init() {
    let cfg = global_config();
    assert!(!cfg.vocoder_path.is_empty());
    assert!(f32::from_bits(cfg.silence_threshold).is_finite());
    assert!(f32::from_bits(cfg.peak_limit).is_finite());
    assert!(cfg.fill > 0);
    assert!(cfg.max_workers <= 32);
}

#[test]
fn test_real_ini_load() {
    let ini_exists = Path::new("nhvconfig.ini").exists();
    let cfg = global_config();
    if ini_exists {
        println!("Real nhvconfig.ini exists, verify parsed result is valid");
        assert!(!cfg.vocoder_path.is_empty());
    } else {
        println!("Real nhvconfig.ini does not exist, verify default config is returned");
        assert_eq!(cfg, NHVConfig::default());
    }
}

#[test]
fn test_parse_fault_tolerance() {
    let cfg = global_config();
    assert!(f32::from_bits(cfg.silence_threshold).is_finite());
    assert!(f32::from_bits(cfg.peak_limit).is_finite());
    assert!(cfg.fill <= 100);
    assert!(cfg.max_workers >= 1 && cfg.max_workers <= 32);
}

#[test]
fn test_vocoder_hop_consistency() {
    let cfg = global_config();
    let name = Path::new(&cfg.vocoder_path).file_name().and_then(|n| n.to_str()).unwrap_or("");
    let is_v3x = is_v3x_model(name);
    let hop = hop_size(is_v3x);
    let thop = thop_samples(is_v3x) as f32 / SAMPLE_RATE as f32;
    assert!(hop == 256 || hop == 512, "HOP_SIZE must be 256 (v3) or 512 (v3x)");
    assert_eq!(hop, if is_v3x { 512 } else { 256 });
    let expected = hop as f32 / SAMPLE_RATE as f32 * if is_v3x { 1.0 } else { 0.5 };
    assert!((thop - expected).abs() < 1e-6, "thop must equal hop/SR times 1.0 for v3x or 0.5 for v3");
}

#[test]
fn config_missing_file_is_default() {
    assert_eq!(config_from_text(None), NHVConfig::default());
}

#[test]
fn config_unparsable_text_is_default() {
    // A value without a key is not valid INI: the whole file is ignored.
    let cfg = config_from_text(Some("= 3\nfill = 4\n"));
    assert_eq!(cfg, NHVConfig::default());
}

#[test]
fn config_reads_every_setting() {
    let text = "vocoder_path = ./model/nhv_v3.onnx\nwave_norm = false\ntrim_silence = false\n\
                silence_threshold = -40.5\nloop_mode = false\npeak_limit = 0.5\nfill = 10\nmax_workers = 8\n\
                voiced_threshold = 0.8\n";
    let cfg = config_from_text(Some(text));
    assert_eq!(cfg.vocoder_path, "./model/nhv_v3.onnx");
    assert!(!cfg.wave_norm);
    assert!(!cfg.trim_silence);
    assert_eq!(f32::from_bits(cfg.silence_threshold), -40.5);
    assert!(!cfg.loop_mode);
    assert_eq!(f32::from_bits(cfg.peak_limit), 0.5);
    assert_eq!(cfg.fill, 10);
    assert_eq!(cfg.max_workers, 8);
    assert_eq!(f32::from_bits(cfg.voiced_threshold), 0.8);
}

#[test]
fn config_bad_values_keep_defaults() {
    let text = "wave_norm = yes\nfill = -3\nmax_workers = many\npeak_limit = loud\n";
    let cfg = config_from_text(Some(text));
    assert!(cfg.wave_norm);
    assert_eq!(cfg.fill, 6);
    assert_eq!(cfg.max_workers, 2);
    assert_eq!(f32::from_bits(cfg.peak_limit), 1.0);
}

#[test]
fn config_later_entry_wins() {
    let cfg = config_from_text(Some("fill = 3\nfill = 9\n"));
    assert_eq!(cfg.fill, 9);
}

#[test]
fn config_sections_are_ignored() {
    let cfg = config_from_text(Some("[other]\nfill = 3\n"));
    assert_eq!(cfg.fill, 6);
}

#[test]
fn config_later_unreadable_entry_gives_default() {
    let cfg = config_from_text(Some("fill = 3\nfill = x\n"));
    assert_eq!(cfg.fill, 6);
}

#[test]
fn bool_text_exact() {
    assert_eq!(parse_bool_text("true"), Some(true));
    assert_eq!(parse_bool_text("false"), Some(false));
    assert_eq!(parse_bool_text("True"), None);
    assert_eq!(parse_bool_text(""), None);
    assert_eq!(parse_bool_text("1"), None);
}

#[test]
fn count_text_like_std() {
    for s in ["0", "6", "+12", "007", "", "+", "-1", "1.5", " 3", "18446744073709551615", "18446744073709551616", "٣"] {
        assert_eq!(parse_count_text(s), s.parse::<usize>().ok(), "{s:?}");
    }
}

#[test]
fn v3x_model_names() {
    assert!(is_v3x_model("nhv_v3x.onnx"));
    assert!(is_v3x_model("NHV_V3X.ONNX"));
    assert!(!is_v3x_model("nhv_v3.onnx"));
    assert!(!is_v3x_model("NHV_V3.onnx"));
    assert!(is_v3x_model("model.onnx"));
    assert!(is_v3x_model(""));
    assert!(is_v3x_model("v3_then_v3x"));
}

#[test]
fn hop_sizes() {
    assert_eq!(hop_size(true), 512);
    assert_eq!(hop_size(false), 256);
    assert_eq!(thop_samples(true), 512);
    assert_eq!(thop_samples(false), 128);
}
