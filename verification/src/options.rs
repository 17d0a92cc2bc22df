//! Extraction of the `--flag value` options from a command line.
use vstd::prelude::*;
use crate::cli::{
    CliError, IntErrorKind, ann_mode_word, arg_views, metric_word, parse_ann_mode, parse_metric,
    parse_unsigned, parse_usize,
};
use crate::text::{lower_seq, str_eq, string_append, string_of};
use crate::types::{AnnMode, Metric};

verus! {

/// The options understood by `extract_optional_args`.
#[derive(Debug, Clone, Copy, PartialEq, Eq, Structural)]
pub enum OptFlag {
    Metric,
    KnnMetric,
    AnnMode,
    CsrIndptr,
    CsrIndices,
    CsrData,
    CsrNCols,
    LearningRate,
    MinDist,
    Spread,
    LocalConnectivity,
    SetOpMixRatio,
    RepulsionStrength,
    NegativeSampleRate,
}

/// The command-line spelling of an option.
pub open spec fn flag_text(f: OptFlag) -> Seq<char> {
    match f {
        OptFlag::Metric => "--metric"@,
        OptFlag::KnnMetric => "--knn-metric"@,
        OptFlag::AnnMode => "--ann-mode"@,
        OptFlag::CsrIndptr => "--csr-indptr"@,
        OptFlag::CsrIndices => "--csr-indices"@,
        OptFlag::CsrData => "--csr-data"@,
        OptFlag::CsrNCols => "--csr-n-cols"@,
        OptFlag::LearningRate => "--learning-rate"@,
        OptFlag::MinDist => "--min-dist"@,
        OptFlag::Spread => "--spread"@,
        OptFlag::LocalConnectivity => "--local-connectivity"@,
        OptFlag::SetOpMixRatio => "--set-op-mix-ratio"@,
        OptFlag::RepulsionStrength => "--repulsion-strength"@,
        OptFlag::NegativeSampleRate => "--negative-sample-rate"@,
    }
}

/// The option that the token `t` names, if any.
pub open spec fn flag_token(t: Seq<char>) -> Option<OptFlag> {
    if t == "--metric"@ {
        Some(OptFlag::Metric)
    } else if t == "--knn-metric"@ {
        Some(OptFlag::KnnMetric)
    } else if t == "--ann-mode"@ {
        Some(OptFlag::AnnMode)
    } else if t == "--csr-indptr"@ {
        Some(OptFlag::CsrIndptr)
    } else if t == "--csr-indices"@ {
        Some(OptFlag::CsrIndices)
    } else if t == "--csr-data"@ {
        Some(OptFlag::CsrData)
    } else if t == "--csr-n-cols"@ {
        Some(OptFlag::CsrNCols)
    } else if t == "--learning-rate"@ {
        Some(OptFlag::LearningRate)
    } else if t == "--min-dist"@ {
        Some(OptFlag::MinDist)
    } else if t == "--spread"@ {
        Some(OptFlag::Spread)
    } else if t == "--local-connectivity"@ {
        Some(OptFlag::LocalConnectivity)
    } else if t == "--set-op-mix-ratio"@ {
        Some(OptFlag::SetOpMixRatio)
    } else if t == "--repulsion-strength"@ {
        Some(OptFlag::RepulsionStrength)
    } else if t == "--negative-sample-rate"@ {
        Some(OptFlag::NegativeSampleRate)
    } else {
        None
    }
}

/// The options whose value is a floating-point number (parsed by the caller).
pub open spec fn is_float_flag(f: OptFlag) -> bool {
    match f {
        OptFlag::LearningRate | OptFlag::MinDist | OptFlag::Spread | OptFlag::LocalConnectivity
        | OptFlag::SetOpMixRatio | OptFlag::RepulsionStrength => true,
        _ => false,
    }
}

/// What the options read so far have set.
pub ghost struct ScanState {
    pub metric: Metric,
    pub knn_metric: Option<Metric>,
    pub ann_mode: AnnMode,
    pub indptr: Option<Seq<char>>,
    pub indices: Option<Seq<char>>,
    pub data: Option<Seq<char>>,
    pub n_cols: Option<usize>,
    pub negative_sample_rate: Option<usize>,
    pub floats: Seq<(OptFlag, Seq<char>)>,
}

/// Why the option scan stopped.
pub ghost enum ScanFailure {
    MissingValue(OptFlag),
    BadFloat(OptFlag, Seq<char>),
    BadMetric(Seq<char>),
    BadAnnMode(Seq<char>),
    BadInteger(Seq<char>, IntErrorKind),
}

pub open spec fn initial_scan_state() -> ScanState {
    ScanState {
        metric: Metric::Euclidean,
        knn_metric: None,
        ann_mode: AnnMode::Auto,
        indptr: None,
        indices: None,
        data: None,
        n_cols: None,
        negative_sample_rate: None,
        floats: Seq::empty(),
    }
}

/// The effect of option `f` with value `v`.
pub open spec fn apply_flag(f: OptFlag, v: Seq<char>, float_ok: bool, st: ScanState) -> Result<
    ScanState,
    ScanFailure,
> {
    match f {
        OptFlag::Metric => match metric_word(lower_seq(v)) {
            Some(m) => Ok(ScanState { metric: m, ..st }),
            None => Err(ScanFailure::BadMetric(v)),
        },
        OptFlag::KnnMetric => match metric_word(lower_seq(v)) {
            Some(m) => Ok(ScanState { knn_metric: Some(m), ..st }),
            None => Err(ScanFailure::BadMetric(v)),
        },
        OptFlag::AnnMode => match ann_mode_word(lower_seq(v)) {
            Some(m) => Ok(ScanState { ann_mode: m, ..st }),
            None => Err(ScanFailure::BadAnnMode(v)),
        },
        OptFlag::CsrIndptr => Ok(ScanState { indptr: Some(v), ..st }),
        OptFlag::CsrIndices => Ok(ScanState { indices: Some(v), ..st }),
        OptFlag::CsrData => Ok(ScanState { data: Some(v), ..st }),
        OptFlag::CsrNCols => match parse_unsigned(v, usize::MAX as nat) {
            Ok(n) => Ok(ScanState { n_cols: Some(n as usize), ..st }),
            Err(k) => Err(ScanFailure::BadInteger(v, k)),
        },
        OptFlag::NegativeSampleRate => match parse_unsigned(v, usize::MAX as nat) {
            Ok(n) => Ok(ScanState { negative_sample_rate: Some(n as usize), ..st }),
            Err(k) => Err(ScanFailure::BadInteger(v, k)),
        },
        _ => if float_ok {
            Ok(ScanState { floats: st.floats.push((f, v)), ..st })
        } else {
            Err(ScanFailure::BadFloat(f, v))
        },
    }
}

/// `args` without the two entries at `i` and `i + 1`.
pub open spec fn drop_pair<A>(args: Seq<A>, i: int) -> Seq<A> {
    args.subrange(0, i) + args.subrange(i + 2, args.len() as int)
}

/// Scans `args` from position `i`: every option token takes the next token
/// as its value and both are removed; other tokens are kept. `float_ok[p]`
/// tells whether `args[p]` reads as a floating-point number, and goes with
/// its token. Gives the remaining tokens, the options read, and the failure
/// that stopped the scan, if any.
pub open spec fn scan_options(args: Seq<Seq<char>>, float_ok: Seq<bool>, i: int, st: ScanState) -> (
    Seq<Seq<char>>,
    ScanState,
    Option<ScanFailure>,
)
    decreases args.len() - i,
{
    if i < 0 || i >= args.len() {
        (args, st, None)
    } else {
        match flag_token(args[i]) {
            None => scan_options(args, float_ok, i + 1, st),
            Some(f) => if i + 1 >= args.len() {
                (args, st, Some(ScanFailure::MissingValue(f)))
            } else {
                match apply_flag(f, args[i + 1], float_ok[i + 1], st) {
                    Err(e) => (args, st, Some(e)),
                    Ok(st2) => scan_options(drop_pair(args, i), drop_pair(float_ok, i), i, st2),
                }
            },
        }
    }
}

/// The first CSR option that is missing when some but not all are given.
pub open spec fn missing_csr_part(st: ScanState) -> Option<OptFlag> {
    if st.indptr is None && st.indices is None && st.data is None && st.n_cols is None {
        None
    } else if st.indptr is None {
        Some(OptFlag::CsrIndptr)
    } else if st.indices is None {
        Some(OptFlag::CsrIndices)
    } else if st.data is None {
        Some(OptFlag::CsrData)
    } else if st.n_cols is None {
        Some(OptFlag::CsrNCols)
    } else {
        None
    }
}

/// Paths and width of a CSR input given on the command line.
#[derive(Debug, Clone)]
pub struct SparseInputArgs {
    pub indptr_path: String,
    pub indices_path: String,
    pub data_path: String,
    pub n_cols: usize,
}

/// The integer and textual options; the floating-point overrides are
/// returned beside it, as text, in `OptionalArgsScan::float_values`.
#[derive(Debug, Clone)]
pub struct CliOptionalArgs {
    pub metric: Metric,
    pub knn_metric: Option<Metric>,
    pub ann_mode: AnnMode,
    pub sparse_input: Option<SparseInputArgs>,
    pub negative_sample_rate: Option<usize>,
}

/// Errors of the option scan.
#[derive(Debug, Clone)]
pub enum OptionError {
    MissingValue { flag: OptFlag },
    /// The value of a floating-point option does not read as a number.
    BadFloat { flag: OptFlag, value: String },
    MissingCsrInput { flag: OptFlag },
    Parse(CliError),
}

/// The outcome of `extract_optional_args`: every floating-point option met
/// before the scan stopped, in order, and the scan's result.
#[derive(Debug)]
pub struct OptionalArgsScan {
    pub float_values: Vec<(OptFlag, String)>,
    pub result: Result<CliOptionalArgs, OptionError>,
}

/// `e` is the error reported for the failure `f`.
pub open spec fn reports_failure(e: OptionError, f: ScanFailure) -> bool {
    match f {
        ScanFailure::MissingValue(flag) => e matches OptionError::MissingValue { flag: g } && g
            == flag,
        ScanFailure::BadFloat(flag, v) => e matches OptionError::BadFloat { flag: g, value } && g
            == flag && value@ == v,
        ScanFailure::BadMetric(v) => e matches OptionError::Parse(
            CliError::UnsupportedMetric { value },
        ) && value@ == v,
        ScanFailure::BadAnnMode(v) => e matches OptionError::Parse(
            CliError::UnsupportedAnnMode { value },
        ) && value@ == v,
        ScanFailure::BadInteger(v, k) => e matches OptionError::Parse(
            CliError::InvalidInteger { value, kind },
        ) && value@ == v && kind == k,
    }
}

pub open spec fn float_views(v: Seq<(OptFlag, String)>) -> Seq<(OptFlag, Seq<char>)> {
    Seq::new(v.len(), |i: int| (v[i].0, v[i].1@))
}

pub open spec fn opt_view(o: Option<String>) -> Option<Seq<char>> {
    match o {
        Some(s) => Some(s@),
        None => None,
    }
}

/// The option named by the token `tok`, if any.
pub fn flag_of(tok: &str) -> (r: Option<OptFlag>)
    ensures
        r == flag_token(tok@),
{
    if str_eq(tok, "--metric") {
        Some(OptFlag::Metric)
    } else if str_eq(tok, "--knn-metric") {
        Some(OptFlag::KnnMetric)
    } else if str_eq(tok, "--ann-mode") {
        Some(OptFlag::AnnMode)
    } else if str_eq(tok, "--csr-indptr") {
        Some(OptFlag::CsrIndptr)
    } else if str_eq(tok, "--csr-indices") {
        Some(OptFlag::CsrIndices)
    } else if str_eq(tok, "--csr-data") {
        Some(OptFlag::CsrData)
    } else if str_eq(tok, "--csr-n-cols") {
        Some(OptFlag::CsrNCols)
    } else if str_eq(tok, "--learning-rate") {
        Some(OptFlag::LearningRate)
    } else if str_eq(tok, "--min-dist") {
        Some(OptFlag::MinDist)
    } else if str_eq(tok, "--spread") {
        Some(OptFlag::Spread)
    } else if str_eq(tok, "--local-connectivity") {
        Some(OptFlag::LocalConnectivity)
    } else if str_eq(tok, "--set-op-mix-ratio") {
        Some(OptFlag::SetOpMixRatio)
    } else if str_eq(tok, "--repulsion-strength") {
        Some(OptFlag::RepulsionStrength)
    } else if str_eq(tok, "--negative-sample-rate") {
        Some(OptFlag::NegativeSampleRate)
    } else {
        None
    }
}

/// The value after the option at `index`, read as an unsigned integer; the
/// value is missing when `index` is the last position.
pub fn parse_flag_value(args: &[String], index: usize, flag: OptFlag) -> (r: Result<usize, OptionError>)
    ensures
        index + 1 >= args.len() ==> (r matches Err(OptionError::MissingValue { flag: g }) && g
            == flag),
        index + 1 < args.len() ==> match parse_unsigned(args@[index + 1]@, usize::MAX as nat) {
            Ok(v) => r == Ok::<usize, OptionError>(v as usize),
            Err(k) => r matches Err(OptionError::Parse(CliError::InvalidInteger { value, kind }))
                && value@ == args@[index + 1]@ && kind == k,
        },
{
    if args.len() <= index || args.len() - index <= 1 {
        return Err(OptionError::MissingValue { flag });
    }
    let text = &args[index + 1];
    match parse_usize(text.as_str()) {
        Ok(v) => Ok(v),
        Err(kind) => Err(OptionError::Parse(CliError::InvalidInteger { value: text.clone(), kind })),
    }
}

proof fn lemma_drop_pair_views(args: Seq<String>, i: int)
    requires
        0 <= i,
        i + 1 < args.len(),
    ensures
        arg_views(args.remove(i).remove(i)) == drop_pair(arg_views(args), i),
{
    assert(arg_views(args.remove(i).remove(i)) =~= drop_pair(arg_views(args), i));
}

/// Reads the options out of `args` (position 0, the program name, is never
/// an option): every recognised `--flag value` pair is removed from `args`
/// and read; a missing value, an unknown metric or mode, or a malformed
/// integer, or a floating-point value that does not read as a number
/// (`float_ok[p]` tells whether `args[p]` does), stops the scan. Then a
/// partial CSR specification is refused, naming the first missing part.
/// Floating-point values are handed back as text, in the order met.
pub fn extract_optional_args(args: &mut Vec<String>, float_ok: &[bool]) -> (out: OptionalArgsScan)
    requires
        float_ok.len() == old(args).len(),
    ensures
        ({
            let (rest, st, fail) = scan_options(
                arg_views(old(args)@),
                float_ok@,
                1,
                initial_scan_state(),
            );
            &&& arg_views(final(args)@) == rest
            &&& float_views(out.float_values@) == st.floats
            &&& match fail {
                Some(f) => out.result matches Err(e) && reports_failure(e, f),
                None => match missing_csr_part(st) {
                    Some(flag) => out.result matches Err(OptionError::MissingCsrInput { flag: g })
                        && g == flag,
                    None => out.result matches Ok(o) && o.metric == st.metric && o.knn_metric
                        == st.knn_metric && o.ann_mode == st.ann_mode && o.negative_sample_rate
                        == st.negative_sample_rate && (match o.sparse_input {
                        None => st.indptr is None,
                        Some(sp) => st.indptr == Some(sp.indptr_path@) && st.indices == Some(
                            sp.indices_path@,
                        ) && st.data == Some(sp.data_path@) && st.n_cols == Some(sp.n_cols),
                    }),
                },
            }
        }),
{
    let ghost orig = arg_views(args@);
    let mut metric = Metric::Euclidean;
    let mut knn_metric: Option<Metric> = None;
    let mut ann_mode = AnnMode::Auto;
    let mut csr_indptr: Option<String> = None;
    let mut csr_indices: Option<String> = None;
    let mut csr_data: Option<String> = None;
    let mut csr_n_cols: Option<usize> = None;
    let mut negative_sample_rate: Option<usize> = None;
    let mut floats: Vec<(OptFlag, String)> = Vec::new();
    let mut oks: Vec<bool> = Vec::new();
    let mut p: usize = 0;
    while p < float_ok.len()
        invariant
            p <= float_ok.len(),
            oks@ == float_ok@.take(p as int),
        decreases float_ok.len() - p,
    {
        oks.push(float_ok[p]);
        proof {
            assert(oks@ =~= float_ok@.take(p + 1));
        }
        p = p + 1;
    }
    proof {
        assert(oks@ =~= float_ok@);
    }
    let mut i: usize = 1;
    proof {
        assert(float_views(floats@) =~= Seq::<(OptFlag, Seq<char>)>::empty());
    }
    while i < args.len()
        invariant
            1 <= i,
            orig == arg_views(old(args)@),
            oks.len() == args.len(),
            scan_options(orig, float_ok@, 1, initial_scan_state()) == scan_options(
                arg_views(args@),
                oks@,
                i as int,
                ScanState {
                    metric,
                    knn_metric,
                    ann_mode,
                    indptr: opt_view(csr_indptr),
                    indices: opt_view(csr_indices),
                    data: opt_view(csr_data),
                    n_cols: csr_n_cols,
                    negative_sample_rate,
                    floats: float_views(floats@),
                },
            ),
        decreases args.len() - i,
    {
        let ghost st = ScanState {
            metric,
            knn_metric,
            ann_mode,
            indptr: opt_view(csr_indptr),
            indices: opt_view(csr_indices),
            data: opt_view(csr_data),
            n_cols: csr_n_cols,
            negative_sample_rate,
            floats: float_views(floats@),
        };
        let ghost cur = arg_views(args@);
        let flag = flag_of(args[i].as_str());
        match flag {
            None => {
                i = i + 1;
            },
            Some(f) => {
                proof {
                    assert(cur[i as int] == args@[i as int]@);
                    assert(flag_token(cur[i as int]) == Some(f));
                }
                if i + 1 >= args.len() {
                    proof {
                        assert(scan_options(cur, oks@, i as int, st) == (
                            cur,
                            st,
                            Some(ScanFailure::MissingValue(f)),
                        ));
                    }
                    return OptionalArgsScan {
                        float_values: floats,
                        result: Err(OptionError::MissingValue { flag: f }),
                    };
                }
                let value = args[i + 1].clone();
                proof {
                    assert(cur[i + 1] == value@);
                }
                match f {
                    OptFlag::Metric => match parse_metric(value.as_str()) {
                        Ok(m) => {
                            metric = m;
                        },
                        Err(e) => {
                            return OptionalArgsScan {
                                float_values: floats,
                                result: Err(OptionError::Parse(e)),
                            };
                        },
                    },
                    OptFlag::KnnMetric => match parse_metric(value.as_str()) {
                        Ok(m) => {
                            knn_metric = Some(m);
                        },
                        Err(e) => {
                            return OptionalArgsScan {
                                float_values: floats,
                                result: Err(OptionError::Parse(e)),
                            };
                        },
                    },
                    OptFlag::AnnMode => match parse_ann_mode(value.as_str()) {
                        Ok(m) => {
                            ann_mode = m;
                        },
                        Err(e) => {
                            return OptionalArgsScan {
                                float_values: floats,
                                result: Err(OptionError::Parse(e)),
                            };
                        },
                    },
                    OptFlag::CsrIndptr => {
                        csr_indptr = Some(value);
                    },
                    OptFlag::CsrIndices => {
                        csr_indices = Some(value);
                    },
                    OptFlag::CsrData => {
                        csr_data = Some(value);
                    },
                    OptFlag::CsrNCols => match parse_usize(value.as_str()) {
                        Ok(n) => {
                            csr_n_cols = Some(n);
                        },
                        Err(kind) => {
                            return OptionalArgsScan {
                                float_values: floats,
                                result: Err(
                                    OptionError::Parse(CliError::InvalidInteger { value, kind }),
                                ),
                            };
                        },
                    },
                    OptFlag::NegativeSampleRate => match parse_flag_value(args.as_slice(), i, f) {
                        Ok(n) => {
                            negative_sample_rate = Some(n);
                        },
                        Err(e) => {
                            return OptionalArgsScan { float_values: floats, result: Err(e) };
                        },
                    },
                    _ => {
                        if !oks[i + 1] {
                            return OptionalArgsScan {
                                float_values: floats,
                                result: Err(OptionError::BadFloat { flag: f, value }),
                            };
                        }
                        floats.push((f, value));
                        proof {
                            assert(float_views(floats@) =~= st.floats.push((f, cur[i + 1])));
                        }
                    },
                }
                proof {
                    lemma_drop_pair_views(args@, i as int);
                    assert(oks@.remove(i as int).remove(i as int) =~= drop_pair(oks@, i as int));
                }
                oks.remove(i);
                oks.remove(i);
                args.remove(i);
                args.remove(i);
            },
        }
    }
    let ghost st_end = ScanState {
        metric,
        knn_metric,
        ann_mode,
        indptr: opt_view(csr_indptr),
        indices: opt_view(csr_indices),
        data: opt_view(csr_data),
        n_cols: csr_n_cols,
        negative_sample_rate,
        floats: float_views(floats@),
    };
    let has_any = csr_indptr.is_some() || csr_indices.is_some() || csr_data.is_some()
        || csr_n_cols.is_some();
    let sparse_input = if has_any {
        let indptr_path = match csr_indptr {
            Some(p) => p,
            None => {
                return OptionalArgsScan {
                    float_values: floats,
                    result: Err(OptionError::MissingCsrInput { flag: OptFlag::CsrIndptr }),
                };
            },
        };
        let indices_path = match csr_indices {
            Some(p) => p,
            None => {
                return OptionalArgsScan {
                    float_values: floats,
                    result: Err(OptionError::MissingCsrInput { flag: OptFlag::CsrIndices }),
                };
            },
        };
        let data_path = match csr_data {
            Some(p) => p,
            None => {
                return OptionalArgsScan {
                    float_values: floats,
                    result: Err(OptionError::MissingCsrInput { flag: OptFlag::CsrData }),
                };
            },
        };
        let n_cols = match csr_n_cols {
            Some(n) => n,
            None => {
                return OptionalArgsScan {
                    float_values: floats,
                    result: Err(OptionError::MissingCsrInput { flag: OptFlag::CsrNCols }),
                };
            },
        };
        Some(SparseInputArgs { indptr_path, indices_path, data_path, n_cols })
    } else {
        None
    };
    OptionalArgsScan {
        float_values: floats,
        result: Ok(
            CliOptionalArgs { metric, knn_metric, ann_mode, sparse_input, negative_sample_rate },
        ),
    }
}

/// The text that follows an option's name when its value is missing.
pub open spec fn missing_value_suffix(f: OptFlag) -> Seq<char> {
    match f {
        OptFlag::CsrIndptr | OptFlag::CsrIndices | OptFlag::CsrData => " requires a file path"@,
        OptFlag::CsrNCols => " requires an integer value"@,
        _ => " requires a value"@,
    }
}

/// The message of an option-scan error.
pub open spec fn option_error_text(e: OptionError) -> Seq<char> {
    match e {
        OptionError::MissingValue { flag } => flag_text(flag) + missing_value_suffix(flag),
        OptionError::BadFloat { value, .. } => if value@.len() == 0 {
            "cannot parse float from empty string"@
        } else {
            "invalid float literal"@
        },
        OptionError::MissingCsrInput { flag } => flag_text(flag)
            + " is required when using CSR input"@,
        OptionError::Parse(c) => crate::cli::cli_error_text(c),
    }
}

/// The command-line spelling of an option.
pub fn flag_name(f: OptFlag) -> (s: &'static str)
    ensures
        s@ == flag_text(f),
{
    match f {
        OptFlag::Metric => "--metric",
        OptFlag::KnnMetric => "--knn-metric",
        OptFlag::AnnMode => "--ann-mode",
        OptFlag::CsrIndptr => "--csr-indptr",
        OptFlag::CsrIndices => "--csr-indices",
        OptFlag::CsrData => "--csr-data",
        OptFlag::CsrNCols => "--csr-n-cols",
        OptFlag::LearningRate => "--learning-rate",
        OptFlag::MinDist => "--min-dist",
        OptFlag::Spread => "--spread",
        OptFlag::LocalConnectivity => "--local-connectivity",
        OptFlag::SetOpMixRatio => "--set-op-mix-ratio",
        OptFlag::RepulsionStrength => "--repulsion-strength",
        OptFlag::NegativeSampleRate => "--negative-sample-rate",
    }
}

impl OptionError {
    /// The human-readable message of this error.
    pub fn message(&self) -> (m: String)
        ensures
            m@ == option_error_text(*self),
    {
        match self {
            OptionError::MissingValue { flag } => {
                let mut m = string_of(flag_name(*flag));
                match flag {
                    OptFlag::CsrIndptr | OptFlag::CsrIndices | OptFlag::CsrData => string_append(
                        &mut m,
                        " requires a file path",
                    ),
                    OptFlag::CsrNCols => string_append(&mut m, " requires an integer value"),
                    _ => string_append(&mut m, " requires a value"),
                }
                m
            },
            OptionError::BadFloat { value, .. } => {
                if value.unicode_len() == 0 {
                    string_of("cannot parse float from empty string")
                } else {
                    string_of("invalid float literal")
                }
            },
            OptionError::MissingCsrInput { flag } => {
                let mut m = string_of(flag_name(*flag));
                string_append(&mut m, " is required when using CSR input");
                m
            },
            OptionError::Parse(c) => c.message(),
        }
    }
}

} // verus!
