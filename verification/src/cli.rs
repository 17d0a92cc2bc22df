//! Parsing of the command-line arguments of the benchmark and CSV tools.
use vstd::prelude::*;
use vstd::string::*;
use crate::text::{lower_seq, to_ascii_lowercase, chars_eq_str, string_of, string_append};
use crate::types::{InitMethod, Metric, AnnMode, ParametricTrainMode};

verus! {

/// Why a decimal integer could not be parsed (as `std::num::IntErrorKind`).
#[derive(Debug, Clone, Copy, PartialEq, Eq, Structural)]
pub enum IntErrorKind {
    Empty,
    InvalidDigit,
    PosOverflow,
}

/// Errors of the command-line parsers.
#[derive(Debug, Clone)]
pub enum CliError {
    InvalidInteger { value: String, kind: IntErrorKind },
    InvalidBool { value: String },
    UnsupportedInit { value: String },
    UnsupportedMetric { value: String },
    UnsupportedAnnMode { value: String },
    UnsupportedTrainMode { value: String },
    PartialPrecomputedPaths,
    UnexpectedPositionalArgs,
}

pub open spec fn is_digit(c: char) -> bool {
    '0' <= c && c <= '9'
}

pub open spec fn digit_value(c: char) -> nat {
    (c as u32 - 48) as nat
}

/// Left-to-right accumulation of the digits `s[i..]` onto `acc`, failing at
/// the first non-digit or when the value would exceed `max`.
pub open spec fn scan_digits(s: Seq<char>, i: int, acc: nat, max: nat) -> Result<nat, IntErrorKind>
    decreases s.len() - i,
{
    if i >= s.len() || i < 0 {
        Ok(acc)
    } else if !is_digit(s[i]) {
        Err(IntErrorKind::InvalidDigit)
    } else if acc * 10 + digit_value(s[i]) > max {
        Err(IntErrorKind::PosOverflow)
    } else {
        scan_digits(s, i + 1, acc * 10 + digit_value(s[i]), max)
    }
}

/// What `str::parse` gives for an unsigned integer type whose largest value
/// is `max`: an optional leading `+`, then decimal digits.
pub open spec fn parse_unsigned(s: Seq<char>, max: nat) -> Result<nat, IntErrorKind> {
    if s.len() == 0 {
        Err(IntErrorKind::Empty)
    } else if (s[0] == '+' || s[0] == '-') && s.len() == 1 {
        Err(IntErrorKind::InvalidDigit)
    } else if s[0] == '+' {
        scan_digits(s, 1, 0, max)
    } else {
        scan_digits(s, 0, 0, max)
    }
}

proof fn lemma_scan_bound(s: Seq<char>, i: int, acc: nat, max: nat)
    requires
        acc <= max,
    ensures
        scan_digits(s, i, acc, max) matches Ok(v) ==> v <= max,
    decreases s.len() - i,
{
    if 0 <= i < s.len() && is_digit(s[i]) && acc * 10 + digit_value(s[i]) <= max {
        lemma_scan_bound(s, i + 1, acc * 10 + digit_value(s[i]), max);
    }
}

fn parse_unsigned_exec(s: &str, max: u64) -> (r: Result<u64, IntErrorKind>)
    requires
        max >= 9,
    ensures
        match parse_unsigned(s@, max as nat) {
            Ok(v) => r == Ok::<u64, IntErrorKind>(v as u64),
            Err(k) => r == Err::<u64, IntErrorKind>(k),
        },
        r matches Ok(v) ==> v <= max,
{
    let n = s.unicode_len();
    if n == 0 {
        return Err(IntErrorKind::Empty);
    }
    let first = s.get_char(0);
    if (first == '+' || first == '-') && n == 1 {
        return Err(IntErrorKind::InvalidDigit);
    }
    let mut i: usize = if first == '+' { 1 } else { 0 };
    let ghost start = i as int;
    let mut acc: u64 = 0;
    proof {
        lemma_scan_bound(s@, start, 0, max as nat);
        assert(parse_unsigned(s@, max as nat) == scan_digits(s@, start, 0, max as nat));
    }
    while i < n
        invariant
            n == s@.len(),
            i <= n,
            max >= 9,
            acc <= max,
            parse_unsigned(s@, max as nat) == scan_digits(s@, start, 0, max as nat),
            scan_digits(s@, start, 0, max as nat) == scan_digits(s@, i as int, acc as nat, max as nat),
        decreases n - i,
    {
        let c = s.get_char(i);
        if !('0' <= c && c <= '9') {
            return Err(IntErrorKind::InvalidDigit);
        }
        let d: u64 = (c as u32 - 48) as u64;
        if acc > (max - d) / 10 {
            proof {
                assert(acc * 10 + d > max) by (nonlinear_arith)
                    requires
                        acc > (max - d) / 10,
                        d <= max,
                ;
            }
            return Err(IntErrorKind::PosOverflow);
        }
        proof {
            assert(acc * 10 + d <= max) by (nonlinear_arith)
                requires
                    acc <= (max - d) / 10,
                    d <= max,
            ;
        }
        acc = acc * 10 + d;
        i = i + 1;
    }
    Ok(acc)
}

/// `str::parse::<usize>`.
pub fn parse_usize(s: &str) -> (r: Result<usize, IntErrorKind>)
    ensures
        match parse_unsigned(s@, usize::MAX as nat) {
            Ok(v) => r == Ok::<usize, IntErrorKind>(v as usize),
            Err(k) => r == Err::<usize, IntErrorKind>(k),
        },
{
    let max: u64 = usize::MAX as u64;
    assert(max as nat == usize::MAX as nat);
    match parse_unsigned_exec(s, max) {
        Ok(v) => {
            proof {
                lemma_scan_bound(s@, 0, 0, max as nat);
                lemma_scan_bound(s@, 1, 0, max as nat);
            }
            Ok(v as usize)
        },
        Err(k) => Err(k),
    }
}

/// `str::parse::<u64>`.
pub fn parse_u64(s: &str) -> (r: Result<u64, IntErrorKind>)
    ensures
        match parse_unsigned(s@, u64::MAX as nat) {
            Ok(v) => r == Ok::<u64, IntErrorKind>(v as u64),
            Err(k) => r == Err::<u64, IntErrorKind>(k),
        },
{
    parse_unsigned_exec(s, u64::MAX)
}


/// The meaning of a (lower-cased) boolean word.
pub open spec fn bool_word(l: Seq<char>) -> Option<bool> {
    if l == "1"@ || l == "true"@ || l == "yes"@ || l == "y"@ {
        Some(true)
    } else if l == "0"@ || l == "false"@ || l == "no"@ || l == "n"@ {
        Some(false)
    } else {
        None
    }
}

/// The initialisation named by a (lower-cased) word.
pub open spec fn init_word(l: Seq<char>) -> Option<InitMethod> {
    if l == "random"@ {
        Some(InitMethod::Random)
    } else if l == "spectral"@ {
        Some(InitMethod::Spectral)
    } else {
        None
    }
}

/// The metric named by a (lower-cased) word.
pub open spec fn metric_word(l: Seq<char>) -> Option<Metric> {
    if l == "euclidean"@ || l == "l2"@ {
        Some(Metric::Euclidean)
    } else if l == "manhattan"@ || l == "l1"@ {
        Some(Metric::Manhattan)
    } else if l == "cosine"@ {
        Some(Metric::Cosine)
    } else if l == "chebyshev"@ || l == "linfinity"@ || l == "linf"@ {
        Some(Metric::Chebyshev)
    } else if l == "correlation"@ {
        Some(Metric::Correlation)
    } else if l == "canberra"@ {
        Some(Metric::Canberra)
    } else if l == "braycurtis"@ || l == "bray_curtis"@ {
        Some(Metric::BrayCurtis)
    } else {
        None
    }
}

/// The nearest-neighbour mode named by a (lower-cased) word.
pub open spec fn ann_mode_word(l: Seq<char>) -> Option<AnnMode> {
    if l == "auto"@ {
        Some(AnnMode::Auto)
    } else if l == "exact"@ {
        Some(AnnMode::Exact)
    } else if l == "approximate"@ {
        Some(AnnMode::Approximate)
    } else {
        None
    }
}

/// The parametric training schedule named by a (lower-cased) word.
pub open spec fn train_mode_word(l: Seq<char>) -> Option<ParametricTrainMode> {
    if l == "naive"@ {
        Some(ParametricTrainMode::Naive)
    } else if l == "optimized"@ {
        Some(ParametricTrainMode::Optimized)
    } else {
        None
    }
}

/// Parses a boolean word, ignoring ASCII case: `1|true|yes|y` and `0|false|no|n`.
pub fn parse_bool(s: &str) -> (r: Result<bool, CliError>)
    ensures
        match bool_word(lower_seq(s@)) {
            Some(b) => r matches Ok(x) && x == b,
            None => r matches Err(CliError::InvalidBool { value }) && value@ == s@,
        },
{
    let l = to_ascii_lowercase(s);
    if chars_eq_str(&l, "1") || chars_eq_str(&l, "true") || chars_eq_str(&l, "yes")
        || chars_eq_str(&l, "y") {
        Ok(true)
    } else if chars_eq_str(&l, "0") || chars_eq_str(&l, "false") || chars_eq_str(&l, "no")
        || chars_eq_str(&l, "n") {
        Ok(false)
    } else {
        Err(CliError::InvalidBool { value: string_of(s) })
    }
}

/// Parses an initialisation name, ignoring ASCII case: `random|spectral`.
pub fn parse_init(s: &str) -> (r: Result<InitMethod, CliError>)
    ensures
        match init_word(lower_seq(s@)) {
            Some(m) => r matches Ok(x) && x == m,
            None => r matches Err(CliError::UnsupportedInit { value }) && value@ == s@,
        },
{
    let l = to_ascii_lowercase(s);
    if chars_eq_str(&l, "random") {
        Ok(InitMethod::Random)
    } else if chars_eq_str(&l, "spectral") {
        Ok(InitMethod::Spectral)
    } else {
        Err(CliError::UnsupportedInit { value: string_of(s) })
    }
}

/// Parses a metric name, ignoring ASCII case.
pub fn parse_metric(s: &str) -> (r: Result<Metric, CliError>)
    ensures
        match metric_word(lower_seq(s@)) {
            Some(m) => r matches Ok(x) && x == m,
            None => r matches Err(CliError::UnsupportedMetric { value }) && value@ == s@,
        },
{
    let l = to_ascii_lowercase(s);
    if chars_eq_str(&l, "euclidean") || chars_eq_str(&l, "l2") {
        Ok(Metric::Euclidean)
    } else if chars_eq_str(&l, "manhattan") || chars_eq_str(&l, "l1") {
        Ok(Metric::Manhattan)
    } else if chars_eq_str(&l, "cosine") {
        Ok(Metric::Cosine)
    } else if chars_eq_str(&l, "chebyshev") || chars_eq_str(&l, "linfinity") || chars_eq_str(
        &l,
        "linf",
    ) {
        Ok(Metric::Chebyshev)
    } else if chars_eq_str(&l, "correlation") {
        Ok(Metric::Correlation)
    } else if chars_eq_str(&l, "canberra") {
        Ok(Metric::Canberra)
    } else if chars_eq_str(&l, "braycurtis") || chars_eq_str(&l, "bray_curtis") {
        Ok(Metric::BrayCurtis)
    } else {
        Err(CliError::UnsupportedMetric { value: string_of(s) })
    }
}

/// Parses a parametric training schedule, ignoring ASCII case:
/// `naive|optimized`.
pub fn parse_parametric_train_mode(s: &str) -> (r: Result<ParametricTrainMode, CliError>)
    ensures
        match train_mode_word(lower_seq(s@)) {
            Some(m) => r matches Ok(x) && x == m,
            None => r matches Err(CliError::UnsupportedTrainMode { value }) && value@ == s@,
        },
{
    let l = to_ascii_lowercase(s);
    if chars_eq_str(&l, "naive") {
        Ok(ParametricTrainMode::Naive)
    } else if chars_eq_str(&l, "optimized") {
        Ok(ParametricTrainMode::Optimized)
    } else {
        Err(CliError::UnsupportedTrainMode { value: string_of(s) })
    }
}

/// Parses a nearest-neighbour mode, ignoring ASCII case: `auto|exact|approximate`.
pub fn parse_ann_mode(s: &str) -> (r: Result<AnnMode, CliError>)
    ensures
        match ann_mode_word(lower_seq(s@)) {
            Some(m) => r matches Ok(x) && x == m,
            None => r matches Err(CliError::UnsupportedAnnMode { value }) && value@ == s@,
        },
{
    let l = to_ascii_lowercase(s);
    if chars_eq_str(&l, "auto") {
        Ok(AnnMode::Auto)
    } else if chars_eq_str(&l, "exact") {
        Ok(AnnMode::Exact)
    } else if chars_eq_str(&l, "approximate") {
        Ok(AnnMode::Approximate)
    } else {
        Err(CliError::UnsupportedAnnMode { value: string_of(s) })
    }
}

/// The shared positional arguments of the fit tools.
#[derive(Debug, Clone, Copy, PartialEq, Eq, Structural)]
pub struct ParsedUmapArgs {
    pub n_neighbors: usize,
    pub n_components: usize,
    pub n_epochs: usize,
    pub seed: u64,
    pub init: InitMethod,
    pub use_approximate_knn: bool,
    pub approx_knn_candidates: usize,
    pub approx_knn_iters: usize,
    pub approx_knn_threshold: usize,
}

/// Why one positional argument was refused.
pub enum ArgFailure {
    Integer(IntErrorKind),
    Bool,
    Init,
}

/// `e` is the error reported for the argument text `v` failing as `f`.
pub open spec fn reports(e: CliError, v: Seq<char>, f: ArgFailure) -> bool {
    match f {
        ArgFailure::Integer(kind) => e matches CliError::InvalidInteger { value, kind: k2 } && value@
            == v && k2 == kind,
        ArgFailure::Bool => e matches CliError::InvalidBool { value } && value@ == v,
        ArgFailure::Init => e matches CliError::UnsupportedInit { value } && value@ == v,
    }
}

pub open spec fn usize_failure(s: Seq<char>) -> Option<ArgFailure> {
    match parse_unsigned(s, usize::MAX as nat) {
        Ok(_) => None,
        Err(k) => Some(ArgFailure::Integer(k)),
    }
}

/// The first refused positional argument (positions 3 to 11), if any.
pub open spec fn umap_args_failure(a: Seq<Seq<char>>) -> Option<(int, ArgFailure)> {
    if usize_failure(a[3]) is Some {
        Some((3, usize_failure(a[3])->Some_0))
    } else if usize_failure(a[4]) is Some {
        Some((4, usize_failure(a[4])->Some_0))
    } else if usize_failure(a[5]) is Some {
        Some((5, usize_failure(a[5])->Some_0))
    } else if parse_unsigned(a[6], u64::MAX as nat) is Err {
        Some((6, ArgFailure::Integer(parse_unsigned(a[6], u64::MAX as nat)->Err_0)))
    } else if init_word(lower_seq(a[7])) is None {
        Some((7, ArgFailure::Init))
    } else if bool_word(lower_seq(a[8])) is None {
        Some((8, ArgFailure::Bool))
    } else if usize_failure(a[9]) is Some {
        Some((9, usize_failure(a[9])->Some_0))
    } else if usize_failure(a[10]) is Some {
        Some((10, usize_failure(a[10])->Some_0))
    } else if usize_failure(a[11]) is Some {
        Some((11, usize_failure(a[11])->Some_0))
    } else {
        None
    }
}

pub open spec fn usize_value(s: Seq<char>) -> usize {
    (parse_unsigned(s, usize::MAX as nat)->Ok_0) as usize
}

/// The arguments read from positions 3 to 11 when all of them parse.
pub open spec fn umap_args_value(a: Seq<Seq<char>>) -> ParsedUmapArgs {
    ParsedUmapArgs {
        n_neighbors: usize_value(a[3]),
        n_components: usize_value(a[4]),
        n_epochs: usize_value(a[5]),
        seed: (parse_unsigned(a[6], u64::MAX as nat)->Ok_0) as u64,
        init: init_word(lower_seq(a[7]))->Some_0,
        use_approximate_knn: bool_word(lower_seq(a[8]))->Some_0,
        approx_knn_candidates: usize_value(a[9]),
        approx_knn_iters: usize_value(a[10]),
        approx_knn_threshold: usize_value(a[11]),
    }
}

pub open spec fn arg_views(args: Seq<String>) -> Seq<Seq<char>> {
    Seq::new(args.len(), |i: int| args[i]@)
}

fn usize_arg(s: &String) -> (r: Result<usize, CliError>)
    ensures
        match usize_failure(s@) {
            None => r matches Ok(v) && v == usize_value(s@),
            Some(f) => r matches Err(e) && reports(e, s@, f),
        },
{
    match parse_usize(s.as_str()) {
        Ok(v) => Ok(v),
        Err(kind) => Err(CliError::InvalidInteger { value: s.clone(), kind }),
    }
}

/// Reads the shared positional arguments: `n_neighbors`, `n_components`,
/// `n_epochs`, `seed`, `init`, `use_approximate_knn`,
/// `approx_knn_candidates`, `approx_knn_iters` and `approx_knn_threshold`
/// from positions 3 to 11, reporting the first one that does not parse.
pub fn parse_umap_args(args: &[String]) -> (r: Result<ParsedUmapArgs, CliError>)
    requires
        args.len() >= 12,
    ensures
        match umap_args_failure(arg_views(args@)) {
            None => r matches Ok(p) && p == umap_args_value(arg_views(args@)),
            Some((k, f)) => r matches Err(e) && reports(e, args@[k]@, f),
        },
{
    let ghost a = arg_views(args@);
    let n_neighbors = match usize_arg(&args[3]) {
        Ok(v) => v,
        Err(e) => return Err(e),
    };
    let n_components = match usize_arg(&args[4]) {
        Ok(v) => v,
        Err(e) => return Err(e),
    };
    let n_epochs = match usize_arg(&args[5]) {
        Ok(v) => v,
        Err(e) => return Err(e),
    };
    let seed = match parse_u64(args[6].as_str()) {
        Ok(v) => v,
        Err(kind) => return Err(CliError::InvalidInteger { value: args[6].clone(), kind }),
    };
    let init = match parse_init(args[7].as_str()) {
        Ok(v) => v,
        Err(e) => return Err(e),
    };
    let use_approximate_knn = match parse_bool(args[8].as_str()) {
        Ok(v) => v,
        Err(e) => return Err(e),
    };
    let approx_knn_candidates = match usize_arg(&args[9]) {
        Ok(v) => v,
        Err(e) => return Err(e),
    };
    let approx_knn_iters = match usize_arg(&args[10]) {
        Ok(v) => v,
        Err(e) => return Err(e),
    };
    let approx_knn_threshold = match usize_arg(&args[11]) {
        Ok(v) => v,
        Err(e) => return Err(e),
    };
    Ok(ParsedUmapArgs {
        n_neighbors,
        n_components,
        n_epochs,
        seed,
        init,
        use_approximate_knn,
        approx_knn_candidates,
        approx_knn_iters,
        approx_knn_threshold,
    })
}

/// Where the optional precomputed kNN paths stand among `args_len`
/// positional arguments: none (exactly 14 or fewer arguments), or both at
/// positions 14 and 15 (exactly 16 arguments).
pub fn precomputed_arg_arity(args_len: usize) -> (r: Result<Option<(usize, usize)>, CliError>)
    ensures
        args_len <= 14 ==> r matches Ok(None),
        args_len == 16 ==> r == Ok::<Option<(usize, usize)>, CliError>(Some((14usize, 15usize))),
        args_len == 15 ==> r matches Err(CliError::PartialPrecomputedPaths),
        args_len > 16 ==> r matches Err(CliError::UnexpectedPositionalArgs),
{
    let extra = args_len.saturating_sub(14);
    if extra == 0 {
        Ok(None)
    } else if extra == 2 {
        Ok(Some((14, 15)))
    } else if extra == 1 {
        Err(CliError::PartialPrecomputedPaths)
    } else {
        Err(CliError::UnexpectedPositionalArgs)
    }
}

/// The name under which a metric is reported.
pub open spec fn metric_label(m: Metric) -> Seq<char> {
    match m {
        Metric::Euclidean => "euclidean"@,
        Metric::Manhattan => "manhattan"@,
        Metric::Cosine => "cosine"@,
        Metric::Chebyshev => "chebyshev"@,
        Metric::Correlation => "correlation"@,
        Metric::Canberra => "canberra"@,
        Metric::BrayCurtis => "braycurtis"@,
        Metric::Minkowski { .. } => "minkowski"@,
    }
}

/// The name under which a metric is reported.
pub fn metric_name(metric: Metric) -> (name: &'static str)
    ensures
        name@ == metric_label(metric),
{
    match metric {
        Metric::Euclidean => "euclidean",
        Metric::Manhattan => "manhattan",
        Metric::Cosine => "cosine",
        Metric::Chebyshev => "chebyshev",
        Metric::Correlation => "correlation",
        Metric::Canberra => "canberra",
        Metric::BrayCurtis => "braycurtis",
        Metric::Minkowski { .. } => "minkowski",
    }
}

/// The text of a parse error of a decimal integer.
pub open spec fn int_error_text(k: IntErrorKind) -> Seq<char> {
    match k {
        IntErrorKind::Empty => "cannot parse integer from empty string"@,
        IntErrorKind::InvalidDigit => "invalid digit found in string"@,
        IntErrorKind::PosOverflow => "number too large to fit in target type"@,
    }
}

/// The message of a command-line error.
pub open spec fn cli_error_text(e: CliError) -> Seq<char> {
    match e {
        CliError::InvalidInteger { value, kind } => int_error_text(kind),
        CliError::InvalidBool { value } => "cannot parse bool from '"@ + value@ + "'"@,
        CliError::UnsupportedInit { value } => "unsupported init '"@ + value@
            + "', expected random|spectral"@,
        CliError::UnsupportedMetric { value } => "unsupported metric '"@ + value@
            + "', expected euclidean|manhattan|cosine|chebyshev|correlation|canberra|braycurtis"@,
        CliError::UnsupportedAnnMode { value } => "unsupported ann mode '"@ + value@
            + "', expected auto|exact|approximate"@,
        CliError::UnsupportedTrainMode { value } => "unsupported train_mode '"@ + value@
            + "', expected naive|optimized"@,
        CliError::PartialPrecomputedPaths => "precomputed kNN requires both knn_idx.csv and knn_dist.csv"@,
        CliError::UnexpectedPositionalArgs => "unexpected positional arguments after repeats"@,
    }
}

impl CliError {
    /// The human-readable message of this error.
    pub fn message(&self) -> (m: String)
        ensures
            m@ == cli_error_text(*self),
    {
        match self {
            CliError::InvalidInteger { value: _, kind } => match kind {
                IntErrorKind::Empty => string_of("cannot parse integer from empty string"),
                IntErrorKind::InvalidDigit => string_of("invalid digit found in string"),
                IntErrorKind::PosOverflow => string_of("number too large to fit in target type"),
            },
            CliError::InvalidBool { value } => {
                let mut m = string_of("cannot parse bool from '");
                string_append(&mut m, value.as_str());
                string_append(&mut m, "'");
                m
            },
            CliError::UnsupportedInit { value } => {
                let mut m = string_of("unsupported init '");
                string_append(&mut m, value.as_str());
                string_append(&mut m, "', expected random|spectral");
                m
            },
            CliError::UnsupportedMetric { value } => {
                let mut m = string_of("unsupported metric '");
                string_append(&mut m, value.as_str());
                string_append(
                    &mut m,
                    "', expected euclidean|manhattan|cosine|chebyshev|correlation|canberra|braycurtis",
                );
                m
            },
            CliError::UnsupportedAnnMode { value } => {
                let mut m = string_of("unsupported ann mode '");
                string_append(&mut m, value.as_str());
                string_append(&mut m, "', expected auto|exact|approximate");
                m
            },
            CliError::UnsupportedTrainMode { value } => {
                let mut m = string_of("unsupported train_mode '");
                string_append(&mut m, value.as_str());
                string_append(&mut m, "', expected naive|optimized");
                m
            },
            CliError::PartialPrecomputedPaths => string_of(
                "precomputed kNN requires both knn_idx.csv and knn_dist.csv",
            ),
            CliError::UnexpectedPositionalArgs => string_of(
                "unexpected positional arguments after repeats",
            ),
        }
    }
}

proof fn lemma_lower_of_lowercase(s: Seq<char>)
    requires
        forall|i: int| 0 <= i < s.len() ==> !('A' <= #[trigger] s[i] && s[i] <= 'Z'),
    ensures
        lower_seq(s) == s,
{
    assert(lower_seq(s) =~= s);
}

/// The name `metric_name` gives a metric parses back to that metric; the
/// name of a Minkowski metric, which carries no exponent, is not parsed.
pub proof fn law_metric_name_parses_back(m: Metric)
    ensures
        !(m is Minkowski) ==> metric_word(lower_seq(metric_label(m))) == Some(m),
        m is Minkowski ==> metric_word(lower_seq(metric_label(m))) is None,
{
    reveal_strlit("euclidean");
    reveal_strlit("l2");
    reveal_strlit("manhattan");
    reveal_strlit("l1");
    reveal_strlit("cosine");
    reveal_strlit("chebyshev");
    reveal_strlit("linfinity");
    reveal_strlit("linf");
    reveal_strlit("correlation");
    reveal_strlit("canberra");
    reveal_strlit("braycurtis");
    reveal_strlit("bray_curtis");
    reveal_strlit("minkowski");
    let l = metric_label(m);
    lemma_lower_of_lowercase(l);
    assert("euclidean"@[0] == 'e' && "manhattan"@[0] == 'm' && "chebyshev"@[0] == 'c'
        && "linfinity"@[0] == 'l' && "correlation"@[0] == 'c' && "bray_curtis"@[0] == 'b');
    match m {
        Metric::Euclidean => {
            assert(l[0] == 'e');
        },
        Metric::Manhattan => {
            assert(l[0] == 'm');
        },
        Metric::Cosine => {},
        Metric::Chebyshev => {
            assert(l[0] == 'c');
        },
        Metric::Correlation => {
            assert(l[0] == 'c');
            assert(l != "bray_curtis"@);
        },
        Metric::Canberra => {},
        Metric::BrayCurtis => {},
        Metric::Minkowski { .. } => {
            assert(l[0] == 'm' && l[1] == 'i');
            assert("manhattan"@[1] == 'a');
        },
    }
}

/// Every metric word, in any ASCII case, names its metric; each alias names
/// the same metric as its canonical name (`l2` is Euclidean, `l1`
/// Manhattan, `linfinity` and `linf` Chebyshev, `bray_curtis` Bray-Curtis).
pub proof fn law_metric_words(s: Seq<char>)
    ensures
        lower_seq(s) == "euclidean"@ || lower_seq(s) == "l2"@ ==> metric_word(lower_seq(s)) == Some(
            Metric::Euclidean,
        ),
        lower_seq(s) == "manhattan"@ || lower_seq(s) == "l1"@ ==> metric_word(lower_seq(s)) == Some(
            Metric::Manhattan,
        ),
        lower_seq(s) == "cosine"@ ==> metric_word(lower_seq(s)) == Some(Metric::Cosine),
        lower_seq(s) == "chebyshev"@ || lower_seq(s) == "linfinity"@ || lower_seq(s) == "linf"@
            ==> metric_word(lower_seq(s)) == Some(Metric::Chebyshev),
        lower_seq(s) == "correlation"@ ==> metric_word(lower_seq(s)) == Some(Metric::Correlation),
        lower_seq(s) == "canberra"@ ==> metric_word(lower_seq(s)) == Some(Metric::Canberra),
        lower_seq(s) == "braycurtis"@ || lower_seq(s) == "bray_curtis"@ ==> metric_word(lower_seq(s))
            == Some(Metric::BrayCurtis),
{
    reveal_strlit("euclidean");
    reveal_strlit("l2");
    reveal_strlit("manhattan");
    reveal_strlit("l1");
    reveal_strlit("cosine");
    reveal_strlit("chebyshev");
    reveal_strlit("linfinity");
    reveal_strlit("linf");
    reveal_strlit("correlation");
    reveal_strlit("canberra");
    reveal_strlit("braycurtis");
    reveal_strlit("bray_curtis");
    let l = lower_seq(s);
    if l == "l2"@ {
        assert(l[1] == '2');
    }
    if l == "l1"@ {
        assert(l[1] == '1');
    }
    if l == "cosine"@ || l == "chebyshev"@ || l == "correlation"@ || l == "canberra"@ {
        assert(l[0] == 'c');
        assert(l[1] == 'o' || l[1] == 'h' || l[1] == 'a');
    }
    if l == "linfinity"@ || l == "linf"@ {
        assert(l[0] == 'l' && l[1] == 'i');
    }
    if l == "braycurtis"@ || l == "bray_curtis"@ {
        assert(l[0] == 'b');
    }
    if l == "manhattan"@ {
        assert(l[0] == 'm');
    }
    if l == "correlation"@ {
        assert(l.len() == 11 && l[1] == 'o');
        assert(l != "euclidean"@ && l != "l2"@ && l != "manhattan"@ && l != "l1"@);
        assert(l != "cosine"@ && l != "chebyshev"@ && l != "linfinity"@ && l != "linf"@);
    }
    if l == "euclidean"@ {
        assert(l[0] == 'e');
    }
}

/// The words `1`, `true`, `yes`, `y`, in any ASCII case, read as true, and
/// `0`, `false`, `no`, `n` as false.
pub proof fn law_bool_words(s: Seq<char>)
    ensures
        lower_seq(s) == "1"@ || lower_seq(s) == "true"@ || lower_seq(s) == "yes"@ || lower_seq(s)
            == "y"@ ==> bool_word(lower_seq(s)) == Some(true),
        lower_seq(s) == "0"@ || lower_seq(s) == "false"@ || lower_seq(s) == "no"@ || lower_seq(s)
            == "n"@ ==> bool_word(lower_seq(s)) == Some(false),
{
    reveal_strlit("1");
    reveal_strlit("true");
    reveal_strlit("yes");
    reveal_strlit("y");
    reveal_strlit("0");
    reveal_strlit("false");
    reveal_strlit("no");
    reveal_strlit("n");
    let l = lower_seq(s);
    if l == "0"@ || l == "n"@ {
        assert(l[0] == '0' || l[0] == 'n');
    }
    if l == "false"@ {
        assert(l[0] == 'f');
    }
    if l == "no"@ {
        assert(l[0] == 'n');
    }
    if l == "true"@ || l == "yes"@ || l == "y"@ || l == "1"@ {
        assert(l[0] == 't' || l[0] == 'y' || l[0] == '1');
    }
}

} // verus!
