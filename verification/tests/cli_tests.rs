use rust_umap::cli::{
    parse_ann_mode, parse_bool, parse_init, parse_metric, parse_parametric_train_mode, parse_umap_args,
    precomputed_arg_arity, metric_name, parse_u64, parse_usize, CliError, IntErrorKind, ParsedUmapArgs,
};
use rust_umap::options::{extract_optional_args, parse_flag_value, OptFlag, OptionError, OptionalArgsScan};
use rust_umap::params::{should_use_approximate_knn};
use rust_umap::types::{AnnMode, InitMethod, Metric, ParametricTrainMode};

fn strings(items: &[&str]) -> Vec<String> {
    items.iter().map(|s| s.to_string()).collect()
}

/// The option scan, told which arguments read as floating-point numbers.
fn scan_args(args: &mut Vec<String>) -> OptionalArgsScan {
    let float_ok: Vec<bool> = args.iter().map(|a| a.parse::<f32>().is_ok()).collect();
    extract_optional_args(args, &float_ok)
}

#[test]
fn precomputed_arg_arity_accepts_zero_or_two_extra_paths() {
    assert_eq!(precomputed_arg_arity(14).unwrap(), None);
    assert_eq!(precomputed_arg_arity(16).unwrap(), Some((14, 15)));
}

#[test]
fn precomputed_arg_arity_rejects_partial_or_extra_paths() {
    let one_path = precomputed_arg_arity(15).expect_err("single precomputed path should fail");
    assert!(one_path
        .message()
        .contains("precomputed kNN requires both knn_idx.csv and knn_dist.csv"));

    let too_many = precomputed_arg_arity(17).expect_err("extra positional args should fail");
    assert!(too_many
        .message()
        .contains("unexpected positional arguments after repeats"));
}

#[test]
fn parse_umap_args_reads_shared_positional_fields() {
    let args = strings(&[
        "fit_csv", "in.csv", "out.csv", "15", "2", "120", "99", "random", "true", "40", "11", "2048",
    ]);

    let parsed = parse_umap_args(&args).expect("shared positional args should parse");
    assert_eq!(
        parsed,
        ParsedUmapArgs {
            n_neighbors: 15,
            n_components: 2,
            n_epochs: 120,
            seed: 99,
            init: InitMethod::Random,
            use_approximate_knn: true,
            approx_knn_candidates: 40,
            approx_knn_iters: 11,
            approx_knn_threshold: 2048,
        }
    );
}

#[test]
fn parse_umap_args_reports_first_bad_field() {
    let args = strings(&[
        "fit_csv", "in.csv", "out.csv", "15", "x2", "120", "99", "sideways", "maybe", "40", "11", "2048",
    ]);
    match parse_umap_args(&args) {
        Err(CliError::InvalidInteger { value, kind }) => {
            assert_eq!(value, "x2");
            assert_eq!(kind, IntErrorKind::InvalidDigit);
        }
        other => panic!("unexpected result: {:?}", other),
    }
    let args = strings(&[
        "fit_csv", "in.csv", "out.csv", "15", "2", "120", "99", "sideways", "maybe", "40", "11", "2048",
    ]);
    let err = parse_umap_args(&args).expect_err("bad init must fail");
    assert_eq!(err.message(), "unsupported init 'sideways', expected random|spectral");
}

#[test]
fn extract_optional_args_parses_overrides_and_sparse_input() {
    let mut args = strings(&[
        "fit_csv",
        "in.csv",
        "out.csv",
        "--metric",
        "cosine",
        "--knn-metric",
        "manhattan",
        "--ann-mode",
        "exact",
        "--learning-rate",
        "0.25",
        "--min-dist",
        "0.05",
        "--spread",
        "1.7",
        "--local-connectivity",
        "2.5",
        "--set-op-mix-ratio",
        "0.6",
        "--repulsion-strength",
        "1.9",
        "--negative-sample-rate",
        "11",
        "--csr-indptr",
        "indptr.csv",
        "--csr-indices",
        "indices.csv",
        "--csr-data",
        "data.csv",
        "--csr-n-cols",
        "128",
        "fit",
    ]);

    let scan = scan_args(&mut args);
    let parsed = match scan.result {
        Ok(p) => p,
        Err(e) => panic!("flags should parse: {}", e.message()),
    };
    assert_eq!(parsed.metric, Metric::Cosine);
    assert_eq!(parsed.knn_metric, Some(Metric::Manhattan));
    assert_eq!(parsed.ann_mode, AnnMode::Exact);
    assert_eq!(parsed.negative_sample_rate, Some(11));

    let floats: Vec<(OptFlag, f32)> = scan
        .float_values
        .iter()
        .map(|(flag, text)| (*flag, text.parse::<f32>().unwrap()))
        .collect();
    assert_eq!(
        floats,
        vec![
            (OptFlag::LearningRate, 0.25),
            (OptFlag::MinDist, 0.05),
            (OptFlag::Spread, 1.7),
            (OptFlag::LocalConnectivity, 2.5),
            (OptFlag::SetOpMixRatio, 0.6),
            (OptFlag::RepulsionStrength, 1.9),
        ]
    );

    let sparse = parsed
        .sparse_input
        .expect("csr flags should produce sparse input");
    assert_eq!(sparse.indptr_path, "indptr.csv");
    assert_eq!(sparse.indices_path, "indices.csv");
    assert_eq!(sparse.data_path, "data.csv");
    assert_eq!(sparse.n_cols, 128);

    assert_eq!(args, strings(&["fit_csv", "in.csv", "out.csv", "fit"]));
}

#[test]
fn extract_optional_args_rejects_missing_override_value() {
    let mut args = strings(&["fit_csv", "--learning-rate"]);
    let err = scan_args(&mut args)
        .result
        .expect_err("missing value should fail");
    assert!(err.message().contains("--learning-rate requires a value"));
}

#[test]
fn extract_optional_args_requires_complete_csr_tuple() {
    let mut args = strings(&["fit_csv", "--csr-indptr", "indptr.csv"]);
    let err = scan_args(&mut args)
        .result
        .expect_err("partial csr input should fail");
    assert!(err.message().contains("--csr-indices is required"));
}

#[test]
fn extract_optional_args_stops_at_first_bad_value() {
    let mut args = strings(&["fit_csv", "--spread", "2.0", "--metric", "hamming", "--min-dist", "0.3"]);
    let scan = scan_args(&mut args);
    match scan.result {
        Err(OptionError::Parse(CliError::UnsupportedMetric { value })) => assert_eq!(value, "hamming"),
        other => panic!("unexpected result: {:?}", other),
    }
    assert_eq!(scan.float_values.len(), 1);
    assert_eq!(scan.float_values[0].0, OptFlag::Spread);
    assert_eq!(scan.float_values[0].1, "2.0");
}

#[test]
fn ann_mode_mapping_respects_auto_exact_and_approximate() {
    let mut use_approx = false;
    let mut threshold = 2048usize;
    AnnMode::Auto.apply_to(&mut use_approx, &mut threshold);
    assert!(!use_approx);
    assert_eq!(threshold, 2048);

    let mut use_approx = false;
    let mut threshold = 2048usize;
    AnnMode::Exact.apply_to(&mut use_approx, &mut threshold);
    assert!(!use_approx);
    assert_eq!(threshold, 2048);

    let mut use_approx = false;
    let mut threshold = 2048usize;
    AnnMode::Approximate.apply_to(&mut use_approx, &mut threshold);
    assert!(use_approx);
    assert_eq!(threshold, 0);
}

#[test]
fn ann_mode_decides_search_on_concrete_sizes() {
    let mut use_approx = true;
    let mut threshold = 4096usize;
    AnnMode::Exact.apply_to(&mut use_approx, &mut threshold);
    assert!(!should_use_approximate_knn(use_approx, threshold, 1_000_000, 64));

    let mut use_approx = false;
    let mut threshold = 4096usize;
    AnnMode::Approximate.apply_to(&mut use_approx, &mut threshold);
    assert!(should_use_approximate_knn(use_approx, threshold, 3, 2));
}

#[test]
fn word_parsers_ignore_ascii_case() {
    assert_eq!(parse_bool("YES").unwrap(), true);
    assert_eq!(parse_bool("n").unwrap(), false);
    assert_eq!(parse_bool("maybe").unwrap_err().message(), "cannot parse bool from 'maybe'");
    assert_eq!(parse_init("Spectral").unwrap(), InitMethod::Spectral);
    assert_eq!(parse_metric("L1").unwrap(), Metric::Manhattan);
    assert_eq!(parse_metric("linf").unwrap(), Metric::Chebyshev);
    assert_eq!(parse_metric("Bray_Curtis").unwrap(), Metric::BrayCurtis);
    assert_eq!(
        parse_metric("hamming").unwrap_err().message(),
        "unsupported metric 'hamming', expected euclidean|manhattan|cosine|chebyshev|correlation|canberra|braycurtis"
    );
    assert_eq!(parse_ann_mode("APPROXIMATE").unwrap(), AnnMode::Approximate);
    assert_eq!(
        parse_ann_mode("fast").unwrap_err().message(),
        "unsupported ann mode 'fast', expected auto|exact|approximate"
    );
    assert_eq!(parse_parametric_train_mode("Naive").unwrap(), ParametricTrainMode::Naive);
    assert_eq!(parse_parametric_train_mode("optimized").unwrap(), ParametricTrainMode::Optimized);
    assert_eq!(
        parse_parametric_train_mode("adam").unwrap_err().message(),
        "unsupported train_mode 'adam', expected naive|optimized"
    );
}

#[test]
fn metric_names_parse_back() {
    for m in [
        Metric::Euclidean,
        Metric::Manhattan,
        Metric::Cosine,
        Metric::Chebyshev,
        Metric::Correlation,
        Metric::Canberra,
        Metric::BrayCurtis,
    ] {
        assert_eq!(parse_metric(metric_name(m)).unwrap(), m);
    }
    assert_eq!(metric_name(Metric::BrayCurtis), "braycurtis");
    let minkowski = Metric::Minkowski { p_bits: 3.0f32.to_bits() };
    assert_eq!(metric_name(minkowski), "minkowski");
    assert!(parse_metric(metric_name(minkowski)).is_err());
}

#[test]
fn integer_parsers_follow_std() {
    assert_eq!(parse_usize("+42").unwrap(), 42);
    assert_eq!(parse_usize("").unwrap_err(), IntErrorKind::Empty);
    assert_eq!(parse_usize("-1").unwrap_err(), IntErrorKind::InvalidDigit);
    assert_eq!(parse_u64("18446744073709551615").unwrap(), u64::MAX);
    assert_eq!(parse_u64("18446744073709551616").unwrap_err(), IntErrorKind::PosOverflow);
    for s in ["0", "7", "+9", "123456", "", "+", "-3", "1_000", "99999999999999999999999"] {
        assert_eq!(parse_usize(s).ok(), s.parse::<usize>().ok(), "input {s:?}");
    }
}

#[test]
fn parse_flag_value_reads_the_following_integer() {
    let args = strings(&["prog", "--negative-sample-rate", "7", "--negative-sample-rate", "x7"]);
    assert_eq!(parse_flag_value(&args, 1, OptFlag::NegativeSampleRate).unwrap(), 7);
    match parse_flag_value(&args, 3, OptFlag::NegativeSampleRate) {
        Err(OptionError::Parse(CliError::InvalidInteger { value, kind })) => {
            assert_eq!(value, "x7");
            assert_eq!(kind, IntErrorKind::InvalidDigit);
        }
        other => panic!("unexpected result {other:?}"),
    }
    match parse_flag_value(&args, 4, OptFlag::NegativeSampleRate) {
        Err(OptionError::MissingValue { flag }) => assert_eq!(flag, OptFlag::NegativeSampleRate),
        other => panic!("unexpected result {other:?}"),
    }
}

#[test]
fn extract_optional_args_stops_at_a_malformed_float() {
    let mut args = strings(&["fit_csv", "--spread", "wide", "--metric", "cosine", "fit"]);
    let scan = scan_args(&mut args);
    match &scan.result {
        Err(OptionError::BadFloat { flag, value }) => {
            assert_eq!(*flag, OptFlag::Spread);
            assert_eq!(value, "wide");
        }
        other => panic!("unexpected result: {:?}", other),
    }
    assert_eq!(scan.result.unwrap_err().message(), "invalid float literal");
    assert!(scan.float_values.is_empty());
    assert_eq!(args, strings(&["fit_csv", "--spread", "wide", "--metric", "cosine", "fit"]));
}
