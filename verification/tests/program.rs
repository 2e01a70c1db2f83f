use babiniku::audio::cpal_backend::{
    find_device, monitor_action, BackendOptions, CpalBackend, MonitorAction, Pending, Route,
};
use babiniku::audio::pulse::{
    capture_buffer, device_names, loopback_args, noise_suppression_args, null_sink_args,
    recovered, remap_source_args, stale_babiniku_modules, virtual_mic_status, MonitorStep,
    PulseBackend, DENOISED_SRC, SINK, VIRT_MIC,
};
use babiniku::audio::ring::Ring;
use babiniku::buildinfo::{active_features, gpl_notice, version_line, Features, VERSION};
use babiniku::ckpt::{default_ckpt_dir, platform_default_for, resolve_from, Environment, Place, Var};
use std::path::{Path, PathBuf};

/// A realistic `pactl list modules short` listing: the four modules a
/// killed demo leaks, plus lookalikes that must be left alone.
const LISTING: &str = "\
5\tmodule-native-protocol-unix\t
21\tmodule-null-sink\tsink_name=babiniku sink_properties=device.description=Babiniku-Output
22\tmodule-remap-source\tsource_name=babiniku_mic master=babiniku.monitor source_properties=device.description=Babiniku-Virtual-Mic
23\tmodule-loopback\tsource=babiniku.monitor latency_msec=60
24\tmodule-echo-cancel\tsource_name=babiniku_denoised aec_method=webrtc source_properties=device.description=Babiniku-Denoised-Input
25\tmodule-null-sink\tsink_name=babiniku2
26\tmodule-null-sink\tsink_name=other sink_properties=device.description=babiniku
";

#[test]
fn finds_exactly_the_leaked_babiniku_modules() {
    let stale = stale_babiniku_modules(LISTING);
    let ids: Vec<&str> = stale.iter().map(|(id, _)| id.as_str()).collect();
    assert_eq!(ids, ["21", "22", "23", "24"]);
    assert_eq!(stale[0].1, "module-null-sink");
    assert_eq!(stale[2].1, "module-loopback");
}

#[test]
fn empty_or_malformed_listings_match_nothing() {
    assert!(stale_babiniku_modules("").is_empty());
    assert!(stale_babiniku_modules("garbage without tabs\n\n").is_empty());
}

#[test]
fn listings_are_judged_line_by_line() {
    let a = LISTING.trim_end_matches('\n');
    for b in [LISTING, "", "31\tmodule-null-sink\tsink_name=babiniku\r\n", "no tabs"] {
        for first in [a.to_string(), format!("{a}\r"), String::new()] {
            let mut both = stale_babiniku_modules(&first);
            both.extend(stale_babiniku_modules(b));
            assert_eq!(stale_babiniku_modules(&format!("{first}\n{b}")), both);
        }
    }
}

#[test]
fn every_loaded_module_is_found_again() {
    let modules = [
        null_sink_args(),
        remap_source_args(),
        loopback_args(),
        noise_suppression_args(None),
        noise_suppression_args(Some("alsa_input.usb")),
    ];
    let mut listing = String::new();
    for (i, m) in modules.iter().enumerate() {
        listing.push_str(&format!("{}\t{}\t{}\r\n", 40 + i, m[0], m[1..].join(" ")));
    }
    let stale = stale_babiniku_modules(&listing);
    assert_eq!(stale.len(), 5);
    for (i, m) in modules.iter().enumerate() {
        assert_eq!(stale[i], (format!("{}", 40 + i), m[0].clone()));
    }
    // The last one loaded goes first.
    let order: Vec<String> = stale.iter().rev().map(|(id, _)| id.clone()).collect();
    assert_eq!(order[0], "44");
}

#[test]
fn lines_need_three_columns() {
    assert!(stale_babiniku_modules("7\tsink_name=babiniku").is_empty());
    assert!(stale_babiniku_modules("sink_name=babiniku").is_empty());
    // White space around id and name is dropped; words may stand anywhere in the arguments.
    let got = stale_babiniku_modules(" 7 \t module-x \ta=b   source=babiniku.monitor\tc=d\n");
    assert_eq!(got, vec![("7".to_string(), "module-x".to_string())]);
    // A word is a whole word.
    assert!(stale_babiniku_modules("7\tm\txsink_name=babiniku sink_name=babiniku.").is_empty());
}

#[test]
fn device_listing_gives_second_columns() {
    let listing = "0\talsa_output.pci\tmodule-alsa\tRUNNING\n1\tbabiniku\n\nnothing\n2\t\tx";
    assert_eq!(device_names(listing), vec!["alsa_output.pci", "babiniku", ""]);
}

#[test]
fn module_arguments_name_the_devices() {
    assert_eq!(null_sink_args()[1], format!("sink_name={SINK}"));
    assert_eq!(remap_source_args()[1], format!("source_name={VIRT_MIC}"));
    assert_eq!(remap_source_args()[2], format!("master={SINK}.monitor"));
    assert_eq!(loopback_args()[1], format!("source={SINK}.monitor"));
    let n = noise_suppression_args(Some("mic"));
    assert_eq!(n[1], format!("source_name={DENOISED_SRC}"));
    assert_eq!(n[4], "source_master=mic");
    assert_eq!(noise_suppression_args(None).len(), 4);
    assert!(virtual_mic_status().contains(VIRT_MIC));
}

#[test]
fn pulse_modules_are_unloaded_in_reverse() {
    let mut b = PulseBackend::new(BackendOptions { output_device: None });
    assert_eq!(b.name(), "pulse");
    b.loaded("21\n");
    b.loaded(" 22 \r\n");
    assert_eq!(b.destroy_virtual_mic(), vec!["22", "21"]);
    assert!(b.destroy_virtual_mic().is_empty());
}

#[test]
fn pulse_monitor_is_loaded_once() {
    let mut b = PulseBackend::new(BackendOptions { output_device: None });
    assert!(matches!(b.toggle_monitor(), MonitorStep::Load));
    b.monitor_loaded("31\n");
    match b.toggle_monitor() {
        MonitorStep::Unload(id) => assert_eq!(id, "31"),
        MonitorStep::Load => panic!("the monitor was on"),
    }
    assert_eq!(b.monitor_off(), None);
    b.monitor_loaded("32");
    assert_eq!(b.monitor_off(), Some("32".to_string()));
}

#[test]
fn recovery_is_reported() {
    assert_eq!(
        recovered("21", "module-null-sink", true),
        "recovered stale module-null-sink (module 21) left by a previous run"
    );
    assert_eq!(
        recovered("21", "module-null-sink", false),
        "recovered stale module-null-sink (module 21) left by a previous run — unload failed"
    );
}

#[test]
fn capture_buffer_holds_two_seconds() {
    let b = capture_buffer(16_000, 3_840);
    assert_eq!(b.maxlength, 128_000);
    assert_eq!(b.fragsize, 15_360);
}

#[test]
fn ring_drops_the_oldest_captured_samples() {
    let mut r = Ring::new(4);
    r.push_capture(&[1, 2, 3]);
    r.push_capture(&[4, 5, 6]);
    assert_eq!(r.pop(2), vec![3, 4]);
    assert_eq!(r.pop(9), vec![5, 6]);
    assert!(r.pop(1).is_empty());
    // In one go or in two, the same is kept.
    let mut a = Ring::new(3);
    a.push_capture(&[1, 2, 3, 4, 5]);
    let mut b = Ring::new(3);
    b.push_capture(&[1, 2]);
    b.push_capture(&[3, 4, 5]);
    assert_eq!(a.pop(9), b.pop(9));
}

#[test]
fn ring_takes_what_fits() {
    let mut r = Ring::new(4);
    let x = [1, 2, 3, 4, 5, 6];
    let i = r.push_room(&x, 0);
    assert_eq!(i, 4);
    assert_eq!(r.push_room(&x, i), 4);
    assert_eq!(r.pop(3), vec![1, 2, 3]);
    assert_eq!(r.push_room(&x, i), 6);
    assert_eq!(r.pop(9), vec![4, 5, 6]);
    let mut l = Ring::new(2);
    l.push_lossy(&[1, 2, 3]);
    l.push_lossy(&[4]);
    assert_eq!(l.pop(9), vec![1, 2]);
    let mut none: Ring<i32> = Ring::new(0);
    none.push_capture(&[1]);
    assert!(none.pop(9).is_empty());
}

#[test]
fn ring_fills_frames_and_then_silence() {
    let mut r = Ring::new(8);
    r.push_capture(&[1, 2, 3]);
    let mut data = [9; 7];
    r.fill_frames(&mut data, 2, 0);
    // Four frames, the last cut off; three samples, then silence.
    assert_eq!(data, [1, 1, 2, 2, 3, 3, 0]);
    r.push_capture(&[4, 5]);
    let mut one = [9; 3];
    r.fill_frames(&mut one, 3, 0);
    assert_eq!(one, [4, 4, 4]);
    assert_eq!(r.pop(9), vec![5]);
    let mut empty: [i32; 0] = [];
    r.fill_frames(&mut empty, 2, 0);
}

#[test]
fn cpal_routes_and_toggles() {
    let mut b = CpalBackend::new(BackendOptions { output_device: Some("x".to_string()) });
    assert_eq!(b.name(), "cpal");
    assert_eq!(b.opts.output_device.as_deref(), Some("x"));
    assert!(b.route.is_none() && !b.monitor_on);
    let s = b.take_route(Route::Requested("CABLE Input".to_string()));
    assert!(s.starts_with("routing the converted voice to \"CABLE Input\" — select"));
    assert_eq!(b.route.as_deref(), Some("CABLE Input"));
    b.take_route(Route::AutoDetected("BlackHole 2ch".to_string()));
    assert_eq!(b.route.as_deref(), Some("BlackHole 2ch"));
    let s = b.take_route(Route::DefaultOutput);
    assert!(s.starts_with("no loopback device found"));
    assert!(b.route.is_none());
    b.take_route(Route::Requested("y".to_string()));
    b.destroy_virtual_mic();
    assert!(b.route.is_none());
    assert!(b.toggle_monitor());
    assert!(!b.toggle_monitor());
    b.toggle_monitor();
    b.monitor_off();
    assert!(!b.monitor_on);
}

#[test]
fn monitor_follows_flag_and_route() {
    assert_eq!(monitor_action(true, false, false), MonitorAction::Open);
    assert_eq!(monitor_action(true, false, true), MonitorAction::Keep);
    assert_eq!(monitor_action(true, true, true), MonitorAction::Close);
    assert_eq!(monitor_action(false, false, true), MonitorAction::Close);
    assert_eq!(monitor_action(false, true, false), MonitorAction::Close);
}

#[test]
fn devices_are_found_by_name() {
    let names = vec![None, Some("a".to_string()), Some("b".to_string()), Some("a".to_string())];
    assert_eq!(find_device(&names, &"a".to_string()), Some(1));
    assert_eq!(find_device(&names, &"c".to_string()), None);
}

#[test]
fn pending_samples_come_out_in_order() {
    let mut p = Pending::new();
    p.push(&[1, 2]);
    assert_eq!(p.take(3), None);
    p.push(&[3, 4]);
    assert_eq!(p.take(3), Some(vec![1, 2, 3]));
    assert_eq!(p.take(1), Some(vec![4]));
    assert_eq!(p.take(0), Some(vec![]));
}

#[test]
fn version_line_names_crate_and_version() {
    let line = version_line(&Features::default());
    assert!(line.starts_with(&format!("babiniku {}", VERSION)));
    assert!(line.contains("features:"));
}

#[test]
fn version_line_reflects_compiled_features() {
    for bits in 0..32u32 {
        let f = Features {
            wavlm: bits & 1 != 0,
            cuda: bits & 2 != 0,
            metal: bits & 4 != 0,
            seedvc: bits & 8 != 0,
            cpal_backend: bits & 16 != 0,
        };
        let line = version_line(&f);
        for feat in ["wavlm", "cuda", "metal", "seedvc", "cpal-backend"] {
            let expected = match feat {
                "wavlm" => f.wavlm,
                "cuda" => f.cuda,
                "metal" => f.metal,
                "seedvc" => f.seedvc,
                "cpal-backend" => f.cpal_backend,
                _ => unreachable!(),
            };
            assert_eq!(
                line.contains(feat),
                expected,
                "feature {feat} mis-reported in {line:?}"
            );
        }
        if active_features(&f).is_empty() {
            assert!(line.contains("CPU baseline"));
        }
    }
}

#[test]
fn version_lines_read_as_documented() {
    let f = Features { wavlm: true, cuda: true, ..Features::default() };
    assert_eq!(version_line(&f), "babiniku 0.1.0 (features: wavlm, cuda)");
    assert_eq!(
        version_line(&Features::default()),
        "babiniku 0.1.0 (features: none — CPU baseline)"
    );
}

#[test]
fn gpl_notice_tracks_the_seedvc_feature() {
    let f = Features::default();
    assert_eq!(gpl_notice(&f).is_some(), f.seedvc);
    let g = Features { seedvc: true, ..f };
    assert_eq!(gpl_notice(&g).is_some(), g.seedvc);
    assert!(gpl_notice(&g).unwrap().contains("GPL-3.0"));
}

/// The path of a directory.
fn path(d: Place<PathBuf>) -> PathBuf {
    let mut p = d.root.unwrap_or_default();
    for c in d.parts {
        p = p.join(c);
    }
    p
}

/// The variables of an environment.
fn env_of(pairs: &[(&str, &str)]) -> Environment<PathBuf> {
    let get = |k: &str| match pairs.iter().find(|(name, _)| *name == k) {
        None => Var::Unset,
        Some((_, "")) => Var::Empty,
        Some((_, v)) => Var::Value(PathBuf::from(v)),
    };
    Environment {
        babiniku_ckpt_dir: get("BABINIKU_CKPT_DIR"),
        xdg_data_home: get("XDG_DATA_HOME"),
        home: get("HOME"),
        appdata: get("APPDATA"),
    }
}

#[test]
fn flag_wins_over_everything() {
    let env = env_of(&[("BABINIKU_CKPT_DIR", "/from/env")]);
    let got = path(resolve_from(Some(PathBuf::from("/from/flag")), env, true, "linux"));
    assert_eq!(got, PathBuf::from("/from/flag"));
}

#[test]
fn env_var_wins_over_repo_ckpt() {
    let env = env_of(&[("BABINIKU_CKPT_DIR", "/from/env")]);
    let got = path(resolve_from(None, env, true, "linux"));
    assert_eq!(got, PathBuf::from("/from/env"));
}

#[test]
fn empty_env_var_is_ignored() {
    let env = env_of(&[("BABINIKU_CKPT_DIR", "")]);
    let got = path(resolve_from(None, env, true, "linux"));
    assert_eq!(got, PathBuf::from("ckpt"));
}

#[test]
fn repo_ckpt_wins_over_platform_default() {
    let env = env_of(&[("HOME", "/home/alice")]);
    let got = path(resolve_from(None, env, true, "linux"));
    assert_eq!(got, PathBuf::from("ckpt"));
}

#[test]
fn linux_default_is_xdg_data_home() {
    let env = env_of(&[
        ("XDG_DATA_HOME", "/home/alice/xdg"),
        ("HOME", "/home/alice"),
    ]);
    let got = path(resolve_from(None, env, false, "linux"));
    assert_eq!(got, PathBuf::from("/home/alice/xdg/babiniku/ckpt"));
}

#[test]
fn linux_default_falls_back_to_home_local_share() {
    let env = env_of(&[("HOME", "/home/alice")]);
    let got = path(resolve_from(None, env, false, "linux"));
    assert_eq!(got, PathBuf::from("/home/alice/.local/share/babiniku/ckpt"));
}

#[test]
fn macos_default_is_application_support() {
    let env = env_of(&[("HOME", "/Users/alice")]);
    let got = path(resolve_from(None, env, false, "macos"));
    assert_eq!(
        got,
        PathBuf::from("/Users/alice/Library/Application Support/babiniku/ckpt")
    );
}

#[test]
fn windows_default_is_appdata() {
    let env = env_of(&[("APPDATA", r"C:\Users\alice\AppData\Roaming")]);
    let got = path(resolve_from(None, env, false, "windows"));
    assert_eq!(
        got,
        Path::new(r"C:\Users\alice\AppData\Roaming")
            .join("babiniku")
            .join("ckpt")
    );
}

#[test]
fn bare_environment_keeps_relative_ckpt() {
    let env = env_of(&[]);
    let got = path(resolve_from(None, env, false, "linux"));
    assert_eq!(got, PathBuf::from("ckpt"));
}

#[test]
fn empty_variables_name_no_data_directory() {
    let env = env_of(&[("XDG_DATA_HOME", ""), ("HOME", "/home/alice")]);
    assert_eq!(
        path(platform_default_for(env, "freebsd")),
        PathBuf::from("/home/alice/.local/share/babiniku/ckpt")
    );
    assert_eq!(path(platform_default_for(env_of(&[("HOME", "")]), "macos")), PathBuf::from("ckpt"));
    assert_eq!(path(platform_default_for(env_of(&[]), "windows")), PathBuf::from("ckpt"));
}

/// An environment without a variable of the program's own.
fn variables(xdg: Var<PathBuf>, home: Var<PathBuf>, appdata: Var<PathBuf>) -> Environment<PathBuf> {
    Environment { babiniku_ckpt_dir: Var::Unset, xdg_data_home: xdg, home, appdata }
}

fn value(s: &str) -> Var<PathBuf> {
    Var::Value(PathBuf::from(s))
}

#[test]
fn default_ckpt_dir_prefers_checkout() {
    for local in [true, false] {
        let env = variables(Var::Unset, value("/home/alice"), Var::Unset);
        let d = path(default_ckpt_dir(local, env, "linux").unwrap());
        assert!(d.to_string_lossy().contains("ckpt"));
        assert_eq!(d == PathBuf::from("ckpt"), local);
    }
    for os in ["linux", "macos", "windows"] {
        assert!(default_ckpt_dir(false, variables(Var::Unset, Var::Unset, Var::Unset), os).is_none());
        // An empty variable is there, and names nothing: the directory is that of the program.
        let empty = || variables(Var::Empty, Var::Empty, Var::Empty);
        let d = path(default_ckpt_dir(false, empty(), os).unwrap());
        assert_eq!(d, PathBuf::from("ckpt"));
        assert_eq!(d, path(resolve_from(None, empty(), false, os)));
    }
}

#[test]
fn downloads_are_found_where_they_went() {
    for os in ["linux", "macos", "windows"] {
        for empty in [true, false] {
            let xdg = || if empty { Var::Empty } else { Var::Unset };
            let env = || variables(xdg(), value("/h"), value("/d"));
            let to = default_ckpt_dir(false, env(), os);
            assert_eq!(path(to.unwrap()), path(resolve_from(None, env(), false, os)));
        }
    }
}
