use babiniku::arith::Real;
use babiniku::fetch::args::{accepted, engine, parse, ArgError, Engine, EngineError, Options, Parsed};
use babiniku::fetch::fold::fold_weight_norm_dim;
use babiniku::fetch::names::{
    fold_weight_norm, hubert_plan, loader_names, parse_number, repcodec_plan, select,
    select_pickled, select_under, Entry, HubertError, Source,
};
use babiniku::fetch::npy::{
    array_of, is_complete, read_npy_f32, read_npz_mean_std, stats_of, NpyError, NpzError, ZipIssue,
};
use babiniku::fetch::steps::{
    copy_needed, fetch_seedvc, fetch_vevo, prefix_of, select_for, Origin, Rule,
};
use std::io::Write;

fn args(a: &[&str]) -> Vec<String> {
    a.iter().map(|s| s.to_string()).collect()
}

fn run(a: &[&str]) -> Options {
    match parse(&args(a)) {
        Ok(Parsed::Run(o)) => o,
        _ => panic!("not a run: {a:?}"),
    }
}

#[test]
fn command_lines_are_read_from_left_to_right() {
    let o = run(&["seedvc", "--ckpt-dir", "/c", "-y", "--from-pth", "a.pth", "--out-prefix", "ft"]);
    assert_eq!(o.cmd.as_deref(), Some("seedvc"));
    assert_eq!(o.ckpt_dir.as_deref(), Some("/c"));
    assert!(o.yes);
    assert_eq!(o.from_pth.as_deref(), Some("a.pth"));
    assert_eq!(o.out_prefix, "ft");
    let o = run(&[]);
    assert!(o.cmd.is_none() && o.ckpt_dir.is_none() && !o.yes && o.from_pth.is_none());
    assert_eq!(o.out_prefix, "seedvc");
    // The last one counts, and a value may look like a flag.
    let o = run(&["--ckpt-dir", "a", "--ckpt-dir", "--yes", "vevo"]);
    assert_eq!(o.ckpt_dir.as_deref(), Some("--yes"));
    assert!(!o.yes);
}

#[test]
fn wrong_arguments_are_named() {
    let unknown = |a: &[&str]| match parse(&args(a)) {
        Err(ArgError::Unknown(s)) => s,
        _ => panic!("{a:?}"),
    };
    assert_eq!(unknown(&["--no"]), "--no");
    assert_eq!(unknown(&["seedvc", "vevo"]), "vevo");
    let missing = |a: &[&str]| match parse(&args(a)) {
        Err(ArgError::Missing(s)) => s,
        _ => panic!("{a:?}"),
    };
    assert_eq!(missing(&["--ckpt-dir"]), "--ckpt-dir <dir>");
    assert_eq!(missing(&["vevo", "--from-pth"]), "--from-pth <ft_model.pth>");
    assert_eq!(missing(&["--out-prefix"]), "--out-prefix <name>");
    assert!(matches!(parse(&args(&["seedvc", "--help", "--no"])), Ok(Parsed::Help)));
    assert!(matches!(parse(&args(&["-h"])), Ok(Parsed::Help)));
    assert!(matches!(parse(&args(&["--no", "-h"])), Err(ArgError::Unknown(_))));
}

#[test]
fn engines_are_selected_by_name() {
    assert!(matches!(engine(&Some("seedvc".to_string())), Ok(Engine::Seedvc)));
    assert!(matches!(engine(&Some("vevo".to_string())), Ok(Engine::Vevo)));
    match engine(&Some("xvc".to_string())) {
        Err(EngineError::Unknown(e)) => assert_eq!(e, "xvc"),
        _ => panic!(),
    }
    assert!(matches!(engine(&None), Err(EngineError::Usage)));
}

#[test]
fn only_three_answers_mean_yes() {
    for a in ["y", "Y", "yes", " yes \n", "y\r\n"] {
        assert!(accepted(a), "{a:?}");
    }
    for a in ["", "\n", "n", "YES", "Yes", "ye", "y y"] {
        assert!(!accepted(a), "{a:?}");
    }
}

/// Minimal handwritten .npy: magic + v1.0 header + f32s.
fn npy(header: &str, data: &[f32]) -> Vec<u8> {
    let mut padded = header.to_string();
    // npy pads the header so data starts at a 64-byte boundary,
    // total-header-including-padding ending in '\n'.
    let prefix_len = 10; // magic(6) + version(2) + header_len(2)
    while (prefix_len + padded.len() + 1) % 64 != 0 {
        padded.push(' ');
    }
    padded.push('\n');
    let mut bytes = b"\x93NUMPY\x01\x00".to_vec();
    bytes.extend_from_slice(&(padded.len() as u16).to_le_bytes());
    bytes.extend_from_slice(padded.as_bytes());
    for v in data {
        bytes.extend_from_slice(&v.to_le_bytes());
    }
    bytes
}

fn from_bits(v: Vec<u32>) -> Vec<f32> {
    v.into_iter().map(f32::from_bits).collect()
}

const HEADER: &str = "{'descr': '<f4', 'fortran_order': False, 'shape': (3,), }";

#[test]
fn npy_f32_roundtrip() {
    let bytes = npy(HEADER, &[1.0f32, -2.5, 3.25]);
    assert!(is_complete(&bytes));
    let got = from_bits(read_npy_f32(&bytes).unwrap());
    assert_eq!(got, vec![1.0, -2.5, 3.25]);
}

#[test]
fn npy_of_the_second_version_has_a_longer_length() {
    let mut bytes = b"\x93NUMPY\x02\x00".to_vec();
    bytes.extend_from_slice(&(HEADER.len() as u32).to_le_bytes());
    bytes.extend_from_slice(HEADER.as_bytes());
    bytes.extend_from_slice(&0.5f32.to_le_bytes());
    // Bytes that do not make up a number are passed over.
    bytes.extend_from_slice(&[1, 2, 3]);
    assert!(is_complete(&bytes));
    assert_eq!(from_bits(read_npy_f32(&bytes).unwrap()), vec![0.5]);
}

#[test]
fn npy_errors() {
    assert_eq!(read_npy_f32(b"\x93NUMPX rest").unwrap_err(), NpyError::Magic);
    let f8 = npy("{'descr': '<f8', 'fortran_order': False, 'shape': (3,), }", &[1.0]);
    assert_eq!(read_npy_f32(&f8).unwrap_err(), NpyError::Type);
    let mut bad = npy(HEADER, &[1.0]);
    bad[20] = 0xff;
    assert_eq!(read_npy_f32(&bad).unwrap_err(), NpyError::Header);
    assert!(!is_complete(b"\x93NUM"));
    assert!(!is_complete(b"\x93NUMPY"));
    assert!(!is_complete(b"\x93NUMPY\x01\x00"));
    assert!(!is_complete(b"\x93NUMPY\x01\x00\x05\x00abcd"));
    assert!(is_complete(b"\x93NUMPY\x01\x00\x04\x00abcd"));
    assert!(is_complete(b"no array"));
}

fn npz(members: &[(&str, Vec<u8>)], method: zip::CompressionMethod) -> Vec<u8> {
    let mut w = zip::ZipWriter::new(std::io::Cursor::new(Vec::new()));
    let o = zip::write::SimpleFileOptions::default().compression_method(method);
    for (name, data) in members {
        w.start_file(*name, o).unwrap();
        w.write_all(data).unwrap();
    }
    w.finish().unwrap().into_inner()
}

#[test]
fn npz_holds_mean_and_std() {
    for method in [zip::CompressionMethod::Stored, zip::CompressionMethod::Deflated] {
        let z = npz(
            &[
                ("std.npy", npy(HEADER, &[4.0, 5.0])),
                ("mean.npy", npy(HEADER, &[1.0, -2.0, 3.0])),
            ],
            method,
        );
        let (mean, std) = read_npz_mean_std(&z).unwrap();
        assert_eq!(from_bits(mean), vec![1.0, -2.0, 3.0]);
        assert_eq!(from_bits(std), vec![4.0, 5.0]);
    }
}

#[test]
fn npz_errors() {
    assert_eq!(
        read_npz_mean_std(b"no archive").unwrap_err(),
        NpzError::Member(ZipIssue::Archive)
    );
    let z = npz(&[("mean.npy", npy(HEADER, &[1.0]))], zip::CompressionMethod::Stored);
    assert_eq!(read_npz_mean_std(&z).unwrap_err(), NpzError::Member(ZipIssue::Missing));
    let z = npz(
        &[("mean.npy", b"\x93NUM".to_vec()), ("std.npy", npy(HEADER, &[1.0]))],
        zip::CompressionMethod::Stored,
    );
    assert_eq!(read_npz_mean_std(&z).unwrap_err(), NpzError::Truncated);
    let z = npz(
        &[("mean.npy", npy(HEADER, &[1.0])), ("std.npy", b"something".to_vec())],
        zip::CompressionMethod::Stored,
    );
    assert_eq!(read_npz_mean_std(&z).unwrap_err(), NpzError::Array(NpyError::Magic));
    // A damaged member is found by its checksum.
    let mut z = npz(
        &[("mean.npy", npy(HEADER, &[1.0])), ("std.npy", npy(HEADER, &[1.0]))],
        zip::CompressionMethod::Stored,
    );
    let at = z.windows(6).position(|w| w == b"\x93NUMPY").unwrap();
    z[at + 20] ^= 1;
    assert_eq!(read_npz_mean_std(&z).unwrap_err(), NpzError::Member(ZipIssue::Unreadable));
}

#[test]
fn stats_come_from_two_members() {
    let a = || Ok(npy(HEADER, &[1.0]));
    let b = || Ok(npy(HEADER, &[2.0]));
    let (m, s) = stats_of(a(), b()).unwrap();
    assert_eq!((from_bits(m), from_bits(s)), (vec![1.0], vec![2.0]));
    assert_eq!(
        stats_of(Err(ZipIssue::Missing), Err(ZipIssue::Archive)).unwrap_err(),
        NpzError::Member(ZipIssue::Missing)
    );
    assert_eq!(stats_of(a(), Ok(vec![])).unwrap_err(), NpzError::Truncated);
    assert_eq!(from_bits(array_of(b()).unwrap()), vec![2.0]);
    assert_eq!(
        array_of(Err(ZipIssue::Unreadable)).unwrap_err(),
        NpzError::Member(ZipIssue::Unreadable)
    );
}

fn plan(v: &[Entry]) -> Vec<(String, Source)> {
    v.iter().map(|e| (e.name.clone(), e.source)).collect()
}

fn entry(name: &str, s: Source) -> (String, Source) {
    (name.to_string(), s)
}

#[test]
fn tensors_are_selected_by_prefix() {
    let names = args(&["net.cfm.a", "net.b", "net.cfm.", "cfm.net.cfm.c"]);
    let v = select(&names, Some("net.cfm."), None);
    assert_eq!(plan(&v), vec![entry("a", Source::Kept(0)), entry("", Source::Kept(2))]);
    let v = select(&names, None, Some("net."));
    assert_eq!(plan(&v), vec![entry("cfm.net.cfm.c", Source::Kept(3))]);
    assert_eq!(select(&names, None, None).len(), 4);
    assert!(select_pickled(&names, Some("gpt.")).is_none());
    assert_eq!(select_pickled(&names, Some("net.")).unwrap().len(), 3);
    let v = select_under(&names, "net.cfm.");
    assert_eq!(
        plan(&v),
        vec![entry("net.cfm.a", Source::Kept(0)), entry("net.cfm.", Source::Kept(2))]
    );
}

#[test]
fn tuned_checkpoints_get_the_module_prefix() {
    let bare = args(&["estimator.a", "b"]);
    assert_eq!(loader_names(&bare, true), args(&["module.estimator.a", "module.b"]));
    assert_eq!(loader_names(&bare, false), bare);
    let wrapped = args(&["b", "module.a"]);
    assert_eq!(loader_names(&wrapped, true), wrapped);
}

#[test]
fn magnitudes_are_folded_with_their_directions() {
    let names = args(&["conv.weight_v", "conv.weight_g", "conv.bias"]);
    let v = fold_weight_norm(&names).unwrap();
    assert_eq!(
        plan(&v),
        vec![
            entry("conv.weight", Source::Folded(1, 0, 0)),
            entry("conv.bias", Source::Kept(2)),
        ]
    );
    // A direction without a magnitude is an ordinary tensor.
    let v = fold_weight_norm(&args(&["a.weight_v", "weight"])).unwrap();
    assert_eq!(
        plan(&v),
        vec![entry("a.weight_v", Source::Kept(0)), entry("weight", Source::Kept(1))]
    );
    // A bare pair folds too; a magnitude without a direction does not.
    let v = fold_weight_norm(&args(&["weight_g", "weight_v"])).unwrap();
    assert_eq!(plan(&v), vec![entry("weight", Source::Folded(0, 1, 0))]);
    assert!(matches!(fold_weight_norm(&args(&["b", "a.weight_g"])), Err(n) if n == "a.weight_g"));
    let plain = args(&["a", "b.weight"]);
    assert_eq!(
        plan(&fold_weight_norm(&plain).unwrap()),
        vec![entry("a", Source::Kept(0)), entry("b.weight", Source::Kept(1))]
    );
}

#[test]
fn numbers_are_read_as_the_standard_library_reads_them() {
    for s in ["0", "17", "018", "+5", "", "+", "-1", "1a", "4294967296", "99999999999999999999", "++1"] {
        assert_eq!(parse_number(s), s.parse::<usize>().ok(), "{s:?}");
    }
}

const POS: &str = "encoder.transformer.pos_conv_embed.conv.";

#[test]
fn hubert_keeps_eighteen_layers() {
    let names = args(&[
        "feature_extractor.a",
        "encoder.transformer.layers.0.w",
        "encoder.transformer.layers.17.w",
        "encoder.transformer.layers.18.w",
        "encoder.transformer.layers.23",
        "encoder.transformer.layer_norm.weight",
        "encoder.transformer.layer_norm.bias",
        "encoder.transformer.layer_norm.other",
        &format!("{POS}weight_g"),
        &format!("{POS}weight_v"),
        &format!("{POS}bias"),
    ]);
    let v = match hubert_plan(&names) {
        Ok(v) => v,
        Err(_) => panic!(),
    };
    assert_eq!(
        plan(&v),
        vec![
            entry(&format!("{POS}weight"), Source::Folded(8, 9, 2)),
            entry("feature_extractor.a", Source::Kept(0)),
            entry("encoder.transformer.layers.0.w", Source::Kept(1)),
            entry("encoder.transformer.layers.17.w", Source::Kept(2)),
            entry("encoder.transformer.layer_norm.other", Source::Kept(7)),
            entry(&format!("{POS}bias"), Source::Kept(10)),
        ]
    );
}

#[test]
fn hubert_errors() {
    let g = format!("{POS}weight_g");
    let v = format!("{POS}weight_v");
    assert!(matches!(hubert_plan(&args(&[&v])), Err(HubertError::MissingMagnitude)));
    assert!(matches!(hubert_plan(&args(&[&g])), Err(HubertError::MissingDirection)));
    let bad = "encoder.transformer.layers.x.w";
    match hubert_plan(&args(&[&g, bad, &v])) {
        Err(HubertError::Layer(n)) => assert_eq!(n, bad),
        _ => panic!(),
    }
}

#[test]
fn tokenizer_parts_are_renamed() {
    let q = "quantizer.quantizers.0.";
    let parts = ["in_project.weight_g", "in_project.weight_v", "in_project.bias", "codebook.weight"];
    let mut all: Vec<String> = vec!["encoder.a".into(), "decoder.b".into()];
    for p in parts {
        all.push(format!("{q}{p}"));
    }
    all.push(format!("{q}out_project.bias"));
    let v = repcodec_plan(&all).unwrap_or_else(|_| panic!());
    assert_eq!(
        plan(&v),
        vec![
            entry("encoder.a", Source::Kept(0)),
            entry("quantizer.in_project.weight", Source::Squeezed(2, 3, 0, 2)),
            entry("quantizer.in_project.bias", Source::Kept(4)),
            entry("quantizer.codebook.weight", Source::Kept(5)),
        ]
    );
    for (k, _) in parts.iter().enumerate() {
        let mut some = all.clone();
        some.remove(2 + k);
        assert!(matches!(repcodec_plan(&some), Err(e) if e == k));
    }
}

/// A single-precision number.
#[derive(Clone, Copy, Debug, PartialEq)]
struct S(f32);

impl Real for S {
    fn whole(n: i64) -> Self {
        S(n as f32)
    }
    fn count(n: usize) -> Self {
        S(n as f32)
    }
    fn fraction(n: i64, d: i64) -> Self {
        S((n as f64 / d as f64) as f32)
    }
    fn unranked(n: u64) -> Self {
        S(f32::from_bits(n as u32))
    }
    fn pi() -> Self {
        S(std::f32::consts::PI)
    }
    fn lowest() -> Self {
        S(f32::MIN)
    }
    fn plus(self, other: Self) -> Self {
        S(self.0 + other.0)
    }
    fn minus(self, other: Self) -> Self {
        S(self.0 - other.0)
    }
    fn times(self, other: Self) -> Self {
        S(self.0 * other.0)
    }
    fn over(self, other: Self) -> Self {
        S(self.0 / other.0)
    }
    fn larger(self, other: Self) -> Self {
        S(self.0.max(other.0))
    }
    fn smaller(self, other: Self) -> Self {
        S(self.0.min(other.0))
    }
    fn power(self, other: Self) -> Self {
        S(self.0.powf(other.0))
    }
    fn negated(self) -> Self {
        S(-self.0)
    }
    fn absolute(self) -> Self {
        S(self.0.abs())
    }
    fn sign(self) -> Self {
        S(self.0.signum())
    }
    fn fractional(self) -> Self {
        S(self.0.fract())
    }
    fn root(self) -> Self {
        S(self.0.sqrt())
    }
    fn sine(self) -> Self {
        S(self.0.sin())
    }
    fn cosine(self) -> Self {
        S(self.0.cos())
    }
    fn exponential(self) -> Self {
        S(self.0.exp())
    }
    fn logarithm(self) -> Self {
        S(self.0.ln())
    }
    fn decimal_logarithm(self) -> Self {
        S(self.0.log10())
    }
    fn tangent(self) -> Self {
        S(self.0.tanh())
    }
    fn below(self, other: Self) -> bool {
        self.0 < other.0
    }
    fn at_most(self, other: Self) -> bool {
        self.0 <= other.0
    }
    fn rank(self) -> u64 {
        self.0.abs().to_bits() as u64
    }
    fn floor(self) -> i64 {
        self.0.floor() as i64
    }
    fn ceiling(self) -> i64 {
        self.0.ceil() as i64
    }
    fn truncated(self) -> usize {
        self.0 as usize
    }
}

fn numbers(v: &[f32]) -> Vec<S> {
    v.iter().map(|x| S(*x)).collect()
}

#[test]
fn weight_norm_fold_matches_torch_semantics() {
    let names = args(&["conv.weight_v", "conv.weight_g", "conv.bias"]);
    let v = numbers(&[3.0, 4.0, 0.0, 5.0]);
    let g = numbers(&[10.0, 1.0]);
    let out = fold_weight_norm(&names).unwrap();
    assert!(out.iter().any(|e| e.name == "conv.weight"));
    assert!(out.iter().any(|e| e.name == "conv.bias"));
    assert!(!out.iter().any(|e| e.name == "conv.weight_v"));
    let weight = out.iter().find(|e| e.name == "conv.weight").unwrap();
    assert!(matches!(weight.source, Source::Folded(1, 0, 0)));
    let w = fold_weight_norm_dim(&v, &vec![2, 2, 1], &g, 0);
    let want = [6.0f32, 8.0, 0.0, 1.0];
    assert_eq!(w.len(), want.len());
    for (a, b) in w.iter().zip(want) {
        assert!((a.0 - b).abs() < 1e-6, "{} vs {b}", a.0);
    }
}

#[test]
fn weight_norm_fold_dim_matches_hubert_pos_conv_semantics() {
    let v = numbers(&[3.0, 0.0, 4.0, 0.0, 0.0, 6.0, 0.0, 8.0]);
    let g = numbers(&[10.0, 1.0]);
    let got = fold_weight_norm_dim(&v, &vec![2, 2, 2], &g, 2);
    let want = [6.0f32, 0.0, 8.0, 0.0, 0.0, 0.6, 0.0, 0.8];
    assert_eq!(got.len(), want.len());
    for (a, b) in got.iter().zip(want) {
        assert!((a.0 - b).abs() < 1e-6, "{} vs {b}", a.0);
    }
}

#[test]
fn folding_takes_the_norm_over_every_other_dimension() {
    let v = numbers(&[3.0, 5.0, 4.0, 12.0]);
    // Along the columns of a matrix.
    let w = fold_weight_norm_dim(&v, &vec![2, 2], &numbers(&[1.0, 26.0]), 1);
    assert_eq!(w, numbers(&[3.0 * (1.0 / 5.0), 5.0 * (26.0 / 13.0), 4.0 * (1.0 / 5.0), 24.0]));
    // One magnitude for all rows.
    let w = fold_weight_norm_dim(&numbers(&[3.0, 4.0, 0.0, 5.0]), &vec![2, 2], &numbers(&[10.0]), 0);
    assert_eq!(w, numbers(&[6.0, 8.0, 0.0, 10.0]));
    // Along a dimension that is not there: the norm of all.
    let w = fold_weight_norm_dim(&numbers(&[3.0, 4.0]), &vec![2], &numbers(&[5.0]), 7);
    assert_eq!(w, numbers(&[3.0, 4.0]));
    // Nothing to fold.
    assert!(fold_weight_norm_dim(&numbers(&[]), &vec![0, 3], &numbers(&[1.0]), 0).is_empty());
}

#[test]
fn seedvc_is_fetched_in_five_parts() {
    let p = fetch_seedvc(&None, "seedvc");
    let out: Vec<&str> = p.steps.iter().map(|s| s.out.as_str()).collect();
    assert_eq!(
        out,
        [
            "seedvc_dit.safetensors",
            "seedvc_regulator.safetensors",
            "seedvc_campplus.safetensors",
            "seedvc_bigvgan.safetensors",
            "seedvc_whisper.safetensors",
        ]
    );
    let rules: Vec<Rule> = p.steps.iter().map(|s| s.rule).collect();
    assert_eq!(
        rules,
        [Rule::Flow, Rule::Regulator, Rule::Pickle, Rule::Generator, Rule::Encoder]
    );
    assert!(p.copies.is_empty());
    match &p.steps[4].origin {
        Origin::Hub { repo, file } => {
            assert_eq!((*repo, *file), ("openai/whisper-small", "model.safetensors"))
        }
        _ => panic!(),
    }
}

#[test]
fn tuned_seedvc_reuses_the_other_parts() {
    let p = fetch_seedvc(&Some("ft_model.pth".to_string()), "alice");
    assert_eq!(p.steps.len(), 2);
    assert_eq!(p.steps[0].out, "alice_dit.safetensors");
    assert_eq!(p.steps[1].out, "alice_regulator.safetensors");
    for s in &p.steps {
        match &s.origin {
            Origin::Local(l) => assert_eq!(l, "ft_model.pth"),
            _ => panic!(),
        }
    }
    for (i, part) in ["campplus", "bigvgan", "whisper"].iter().enumerate() {
        assert_eq!(p.copies[i].0, format!("seedvc_{part}.safetensors"));
        assert_eq!(p.copies[i].1, format!("alice_{part}.safetensors"));
    }
    assert!(copy_needed(true, false));
    assert!(!copy_needed(true, true) && !copy_needed(false, false));
}

#[test]
fn vevo_is_fetched_in_five_parts() {
    let v = fetch_vevo();
    let rules: Vec<Rule> = v.iter().map(|s| s.rule).collect();
    assert_eq!(rules, [Rule::Hubert, Rule::Stats, Rule::Tokenizer, Rule::All, Rule::All]);
    let out: Vec<&str> = v.iter().map(|s| s.out.as_str()).collect();
    assert_eq!(
        out,
        [
            "vevo_hubert.safetensors",
            "vevo_hubert_stats.safetensors",
            "vevo_repcodec.safetensors",
            "vevo_fmt.safetensors",
            "vevo_vocos.safetensors",
        ]
    );
    assert!(matches!(v[0].origin, Origin::Web(u) if u.ends_with("hubert_fairseq_large_ll60k.pth")));
}

#[test]
fn rules_read_what_they_are_about() {
    assert_eq!(prefix_of(Rule::Flow), Some("net.cfm."));
    assert_eq!(prefix_of(Rule::Regulator), Some("net.length_regulator."));
    assert_eq!(prefix_of(Rule::Generator), Some("generator."));
    assert_eq!(prefix_of(Rule::Encoder), Some("model.encoder."));
    assert_eq!(prefix_of(Rule::Pickle), None);
    let names = args(&["net.cfm.a", "net.length_regulator.module.b", "net.cfm.c", "other"]);
    let read = |r: Rule, tuned: bool, n: &Vec<String>| select_for(r, tuned, n).map(|v| plan(&v));
    assert_eq!(
        read(Rule::Flow, true, &names),
        Some(vec![entry("module.a", Source::Kept(0)), entry("module.c", Source::Kept(2))])
    );
    assert_eq!(
        read(Rule::Flow, false, &names),
        Some(vec![entry("a", Source::Kept(0)), entry("c", Source::Kept(2))])
    );
    assert_eq!(
        read(Rule::Regulator, true, &names),
        Some(vec![entry("module.b", Source::Kept(1))])
    );
    assert!(select_for(Rule::Flow, false, &args(&["x"])).is_none());
    let generator = args(&["generator.x", "y"]);
    assert_eq!(read(Rule::Generator, false, &generator), Some(vec![entry("x", Source::Kept(0))]));
    assert_eq!(
        read(Rule::Generator, false, &args(&["x"])),
        Some(vec![entry("x", Source::Kept(0))])
    );
    let whisper = args(&["model.encoder.conv1.weight", "model.decoder.x"]);
    assert_eq!(
        read(Rule::Encoder, false, &whisper),
        Some(vec![entry("model.encoder.conv1.weight", Source::Kept(0))])
    );
    assert!(select_for(Rule::Pickle, false, &args(&[])).is_none());
    assert_eq!(read(Rule::All, false, &args(&[])), Some(vec![]));
}
