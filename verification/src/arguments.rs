//! Command-line arguments of the harness and of the MSM benchmark.

use vstd::prelude::*;

use crate::backend;
use crate::backend::{BackendKind, SelectError};
use crate::reading;
use crate::text;

verus! {

/// Why arguments are refused.
#[derive(Clone, Debug, PartialEq, Eq)]
pub enum ArgError {
    /// What is missing, in the words of the usage.
    Missing(&'static str),
    /// A backend's name is none.
    Backend(SelectError),
    /// A number does not parse.
    Number(String),
    /// An argument that is not known.
    Unknown(String),
}

/// Why arguments are refused, as texts.
pub enum Refusal {
    /// What is missing, in the words of the usage.
    Missing(Seq<char>),
    /// A text that names no backend.
    Backend(Seq<char>),
    /// A text that is no number, or one that does not fit.
    Number(Seq<char>),
    /// An argument that is not known.
    Unknown(Seq<char>),
}

impl ArgError {
    /// The refusal that an error reports.
    pub open spec fn refusal(self) -> Refusal {
        match self {
            ArgError::Missing(what) => Refusal::Missing(what@),
            ArgError::Backend(e) => match e {
                SelectError::Unknown { value } => Refusal::Backend(value@),
                _ => Refusal::Backend(Seq::empty()),
            },
            ArgError::Number(v) => Refusal::Number(v@),
            ArgError::Unknown(v) => Refusal::Unknown(v@),
        }
    }

    /// The message: what is missing as it is, a backend's own message, and the argument that is
    /// none.
    pub fn message(&self) -> (r: String)
        ensures
            match self.refusal() {
                Refusal::Missing(what) => r@ == what,
                Refusal::Number(v) => r@ == v + " is not a number"@,
                Refusal::Unknown(v) => r@ == "unknown argument "@ + v,
                Refusal::Backend(_) => self matches ArgError::Backend(e) && r@ == e.text(),
            },
    {
        match self {
            ArgError::Missing(what) => text::owned(what),
            ArgError::Backend(e) => e.message(),
            ArgError::Number(v) => {
                let mut r = text::owned(v.as_str());
                text::push(&mut r, " is not a number");
                r
            },
            ArgError::Unknown(v) => {
                let mut r = text::owned("unknown argument ");
                text::push(&mut r, v.as_str());
                r
            },
        }
    }
}

/// What an option without its value lacks.
pub open spec fn lacking(option: Seq<char>) -> Seq<char> {
    if option == "--control"@ {
        "--control <kind>"@
    } else if option == "--other"@ {
        "--other <case-dir>"@
    } else {
        "--report <path>"@
    }
}

/// The arguments of a harness run.
#[derive(Clone, Debug, PartialEq, Eq)]
pub struct RunArgs {
    /// The case's directory.
    pub case_dir: String,
    /// The artifacts' directory.
    pub artifacts: String,
    /// The implementation under test.
    pub rewrite: BackendKind,
    /// The implementation that answers when it is disabled.
    pub control: BackendKind,
    /// Another case, for its claim.
    pub other: Option<String>,
    /// Where the report goes.
    pub report: Option<String>,
}

/// The texts of arguments.
pub open spec fn texts(args: Seq<String>) -> Seq<Seq<char>> {
    Seq::new(args.len(), |i: int| args[i]@)
}

/// What the options say: the control's kind and the two paths.
pub struct Options {
    /// The control.
    pub control: BackendKind,
    /// The other case.
    pub other: Option<Seq<char>>,
    /// The report.
    pub report: Option<Seq<char>>,
}

/// The options from argument `i` on, over what came before.
pub open spec fn options(args: Seq<Seq<char>>, i: int, so_far: Options) -> Result<Options, Refusal>
    decreases args.len() - i,
{
    if i >= args.len() {
        Ok(so_far)
    } else if args[i] != "--control"@ && args[i] != "--other"@ && args[i] != "--report"@ {
        Err(Refusal::Unknown(args[i]))
    } else if i + 1 >= args.len() {
        Err(Refusal::Missing(lacking(args[i])))
    } else if args[i] == "--control"@ {
        match BackendKind::of_name(args[i + 1]) {
            Some(control) => options(args, i + 2, Options { control, ..so_far }),
            None => Err(Refusal::Backend(args[i + 1])),
        }
    } else if args[i] == "--other"@ {
        options(args, i + 2, Options { other: Some(args[i + 1]), ..so_far })
    } else {
        options(args, i + 2, Options { report: Some(args[i + 1]), ..so_far })
    }
}

/// What a run's arguments say.
pub open spec fn run_options(args: Seq<Seq<char>>) -> Result<(BackendKind, Options), Refusal> {
    if args.len() < 1 {
        Err(Refusal::Missing("run <case-dir> …"@))
    } else if args.len() < 2 {
        Err(Refusal::Missing("… <artifacts-dir> …"@))
    } else if args.len() < 3 {
        Err(Refusal::Missing("… <rewrite-kind>"@))
    } else {
        match BackendKind::of_name(args[2]) {
            None => Err(Refusal::Backend(args[2])),
            Some(rewrite) => match options(
                args,
                3,
                Options { control: BackendKind::Canonical, other: None, report: None },
            ) {
                Err(e) => Err(e),
                Ok(o) => Ok((rewrite, o)),
            },
        }
    }
}

/// The text of an optional string.
pub open spec fn optional(s: Option<String>) -> Option<Seq<char>> {
    match s {
        Some(v) => Some(v@),
        None => None,
    }
}

impl RunArgs {
    /// The arguments of `run <case-dir> <artifacts-dir> <rewrite-kind> [--control <kind>]
    /// [--other <case-dir>] [--report <path>]`; a later option overrides an earlier one.
    pub fn parse(args: &[String]) -> (r: Result<Self, ArgError>)
        ensures
            match r {
                Ok(a) => run_options(texts(args@)) == Ok::<(BackendKind, Options), Refusal>(
                    (
                        a.rewrite,
                        Options {
                            control: a.control,
                            other: optional(a.other),
                            report: optional(a.report),
                        },
                    ),
                ) && a.case_dir@ == args@[0]@ && a.artifacts@ == args@[1]@,
                Err(e) => run_options(texts(args@)) == Err::<(BackendKind, Options), Refusal>(
                    e.refusal(),
                ),
            },
    {
        let n = args.len();
        let ghost all = texts(args@);
        if n < 1 {
            return Err(ArgError::Missing("run <case-dir> …"));
        }
        if n < 2 {
            return Err(ArgError::Missing("… <artifacts-dir> …"));
        }
        if n < 3 {
            return Err(ArgError::Missing("… <rewrite-kind>"));
        }
        let rewrite = match BackendKind::parse(args[2].as_str()) {
            Ok(k) => k,
            Err(e) => {
                return Err(ArgError::Backend(e));
            },
        };
        let mut control = BackendKind::Canonical;
        let mut other: Option<String> = None;
        let mut report: Option<String> = None;
        let mut i: usize = 3;
        while i < n
            invariant
                3 <= i,
                i <= n + 1,
                n == args@.len(),
                all == texts(args@),
                BackendKind::of_name(all[2]) == Some(rewrite),
                i <= n,
                options(
                    all,
                    3,
                    Options { control: BackendKind::Canonical, other: None, report: None },
                ) == options(
                    all,
                    i as int,
                    Options { control, other: optional(other), report: optional(report) },
                ),
            decreases n + 1 - i,
        {
            let a = args[i].as_str();
            let ghost now = Options { control, other: optional(other), report: optional(report) };
            assert(a@ == all[i as int]);
            proof {
                reveal_strlit("--control");
                reveal_strlit("--other");
                reveal_strlit("--report");
                assert("--control"@.len() != "--other"@.len());
                assert("--report"@.len() != "--other"@.len());
                assert("--report"@.len() != "--control"@.len());
            }
            let known = text::same(a, "--control") || text::same(a, "--other") || text::same(
                a,
                "--report",
            );
            if !known {
                return Err(ArgError::Unknown(text::owned(a)));
            }
            if i + 1 >= n {
                return Err(
                    ArgError::Missing(
                        if text::same(a, "--control") {
                            "--control <kind>"
                        } else if text::same(a, "--other") {
                            "--other <case-dir>"
                        } else {
                            "--report <path>"
                        },
                    ),
                );
            }
            let value = args[i + 1].as_str();
            assert(value@ == all[i + 1]);
            if text::same(a, "--control") {
                control = match BackendKind::parse(value) {
                    Ok(k) => k,
                    Err(e) => {
                        return Err(ArgError::Backend(e));
                    },
                };
            } else if text::same(a, "--other") {
                other = Some(text::owned(value));
            } else {
                report = Some(text::owned(value));
            }
            i = i + 2;
        }
        Ok(
            Self {
                case_dir: text::owned(args[0].as_str()),
                artifacts: text::owned(args[1].as_str()),
                rewrite,
                control,
                other,
                report,
            },
        )
    }
}

// ---- numbers -----------------------------------------------------------------------------------

/// The value of decimal digits; `None` where a character is no digit.
pub open spec fn digits_value(s: Seq<char>) -> Option<nat>
    decreases s.len(),
{
    if s.len() == 0 {
        Some(0)
    } else {
        match digits_value(s.drop_last()) {
            None => None,
            Some(v) => if 48 <= s.last() as u32 <= 57 {
                Some(10 * v + (s.last() as u32 - 48) as nat)
            } else {
                None
            },
        }
    }
}

/// The number that a text stands for: an optional plus sign and at least one decimal digit.
pub open spec fn number(s: Seq<char>) -> Option<nat> {
    let digits = if s.len() > 0 && s[0] as u32 == 43 {
        s.drop_first()
    } else {
        s
    };
    if digits.len() == 0 {
        None
    } else {
        digits_value(digits)
    }
}

/// The first digits have no larger a value than all, and are digits where all are.
proof fn lemma_digits_prefix(s: Seq<char>, k: int)
    requires
        0 <= k <= s.len(),
    ensures
        digits_value(s) is Some ==> digits_value(s.take(k)) is Some,
        digits_value(s) matches Some(v) ==> digits_value(s.take(k))->0 <= v,
    decreases s.len(),
{
    if k == s.len() {
        assert(s.take(k) =~= s);
    } else {
        lemma_digits_prefix(s.drop_last(), k);
        assert(s.drop_last().take(k) =~= s.take(k));
    }
}

/// Parse an unsigned number that fits.
pub fn parse_usize(s: &str) -> (r: Option<usize>)
    ensures
        match r {
            Some(v) => number(s@) == Some(v as nat),
            None => number(s@) is None || number(s@)->0 > usize::MAX,
        },
{
    let n = s.unicode_len();
    let from: usize = if n > 0 && s.get_char(0) as u32 == 43 {
        1
    } else {
        0
    };
    if from == n {
        return None;
    }
    let ghost digits = s@.subrange(from as int, n as int);
    proof {
        if from == 1 {
            assert(digits =~= s@.drop_first());
        } else {
            assert(digits =~= s@);
        }
        assert(number(s@) == digits_value(digits));
    }
    let mut v: usize = 0;
    let mut i: usize = from;
    proof {
        assert(digits.take(0) =~= Seq::empty());
    }
    while i < n
        invariant
            from <= i <= n,
            n == s@.len(),
            digits == s@.subrange(from as int, n as int),
            number(s@) == digits_value(digits),
            digits_value(digits.take(i - from)) == Some(v as nat),
        decreases n - i,
    {
        let c: u32 = s.get_char(i) as u32;
        proof {
            let t = digits.take(i - from + 1);
            assert(t.drop_last() =~= digits.take(i - from));
            assert(t.last() == s@[i as int]);
            lemma_digits_prefix(digits, i - from + 1);
        }
        if c < 48 || c > 57 {
            return None;
        }
        let d: usize = (c - 48) as usize;
        if v > (usize::MAX - d) / 10 {
            return None;
        }
        v = 10 * v + d;
        i = i + 1;
    }
    proof {
        assert(digits.take(n - from) =~= digits);
    }
    Some(v)
}

// ---- the benchmark -----------------------------------------------------------------------------

/// The options of the MSM benchmark.
#[derive(Clone, Copy, Debug, PartialEq, Eq, Structural)]
pub struct BenchOptions {
    /// Distinct points.
    pub points: usize,
    /// Points and scalars.
    pub n: usize,
    /// The largest piece of a bucket; zero for no cut.
    pub chunk: usize,
    /// Whether to index only the distinct points.
    pub tiny: bool,
    /// Whether to compare with the kernel body.
    pub check: bool,
    /// Launches.
    pub repeats: usize,
}

/// The options without arguments.
pub open spec fn bench_default() -> BenchOptions {
    BenchOptions { points: 65536, n: 1048576, chunk: 0, tiny: false, check: false, repeats: 3 }
}

/// A number that fits.
pub open spec fn fitting(s: Seq<char>) -> Option<usize> {
    match number(s) {
        Some(v) => if v <= usize::MAX {
            Some(v as usize)
        } else {
            None
        },
        None => None,
    }
}

/// The options that take a number.
pub open spec fn numeric(a: Seq<char>) -> bool {
    a == "--points"@ || a == "--n"@ || a == "--chunk"@ || a == "--repeats"@
}

/// The message for an option without its number.
pub open spec fn valueless(a: Seq<char>) -> Seq<char> {
    if a == "--points"@ {
        "--points needs a value"@
    } else if a == "--n"@ {
        "--n needs a value"@
    } else if a == "--chunk"@ {
        "--chunk needs a value"@
    } else {
        "--repeats needs a value"@
    }
}

/// The options from argument `i` on, over what came before.
pub open spec fn bench_options(args: Seq<Seq<char>>, i: int, o: BenchOptions) -> Result<
    BenchOptions,
    Refusal,
>
    decreases args.len() - i,
{
    if i >= args.len() {
        Ok(o)
    } else if args[i] == "--tiny"@ {
        bench_options(args, i + 1, BenchOptions { tiny: true, ..o })
    } else if args[i] == "--check"@ {
        bench_options(args, i + 1, BenchOptions { check: true, ..o })
    } else if !numeric(args[i]) {
        Err(Refusal::Unknown(args[i]))
    } else if i + 1 >= args.len() {
        Err(Refusal::Missing(valueless(args[i])))
    } else {
        match fitting(args[i + 1]) {
            None => Err(Refusal::Number(args[i + 1])),
            Some(v) => if args[i] == "--points"@ {
                bench_options(args, i + 2, BenchOptions { points: v, ..o })
            } else if args[i] == "--n"@ {
                bench_options(args, i + 2, BenchOptions { n: v, ..o })
            } else if args[i] == "--chunk"@ {
                bench_options(args, i + 2, BenchOptions { chunk: v, ..o })
            } else {
                bench_options(args, i + 2, BenchOptions { repeats: v, ..o })
            },
        }
    }
}

impl BenchOptions {
    /// Parse the benchmark's arguments; a later option overrides an earlier one.
    pub fn parse(args: &[String]) -> (r: Result<Self, ArgError>)
        ensures
            match r {
                Ok(o) => bench_options(texts(args@), 0, bench_default()) == Ok::<
                    BenchOptions,
                    Refusal,
                >(o),
                Err(e) => bench_options(texts(args@), 0, bench_default()) == Err::<
                    BenchOptions,
                    Refusal,
                >(e.refusal()),
            },
    {
        let n = args.len();
        let ghost all = texts(args@);
        let mut o = Self {
            points: 65536,
            n: 1048576,
            chunk: 0,
            tiny: false,
            check: false,
            repeats: 3,
        };
        let mut i: usize = 0;
        while i < n
            invariant
                i <= n,
                n == args@.len(),
                all == texts(args@),
                bench_options(all, 0, bench_default()) == bench_options(all, i as int, o),
            decreases n - i,
        {
            let a = args[i].as_str();
            assert(a@ == all[i as int]);
            if text::same(a, "--tiny") {
                o = BenchOptions { tiny: true, ..o };
                i = i + 1;
            } else if text::same(a, "--check") {
                o = BenchOptions { check: true, ..o };
                i = i + 1;
            } else {
                let points = text::same(a, "--points");
                let count = text::same(a, "--n");
                let chunk = text::same(a, "--chunk");
                let repeats = text::same(a, "--repeats");
                if !(points || count || chunk || repeats) {
                    return Err(ArgError::Unknown(text::owned(a)));
                }
                if i + 1 >= n {
                    return Err(
                        ArgError::Missing(
                            if points {
                                "--points needs a value"
                            } else if count {
                                "--n needs a value"
                            } else if chunk {
                                "--chunk needs a value"
                            } else {
                                "--repeats needs a value"
                            },
                        ),
                    );
                }
                let value = args[i + 1].as_str();
                assert(value@ == all[i + 1]);
                let v = match parse_usize(value) {
                    Some(v) => v,
                    None => {
                        return Err(ArgError::Number(text::owned(value)));
                    },
                };
                if points {
                    o = BenchOptions { points: v, ..o };
                } else if count {
                    o = BenchOptions { n: v, ..o };
                } else if chunk {
                    o = BenchOptions { chunk: v, ..o };
                } else {
                    o = BenchOptions { repeats: v, ..o };
                }
                i = i + 2;
            }
        }
        Ok(o)
    }
}

// ---- what arguments say ------------------------------------------------------------------------

/// Digits have the value that a reader gives them, and nothing else has one.
pub proof fn lemma_digits_value(s: Seq<char>)
    ensures
        digits_value(s) is Some <==> forall|i: int|
            0 <= i < s.len() ==> reading::numeral(#[trigger] s[i]),
        digits_value(s) matches Some(v) ==> v == reading::number(s),
    decreases s.len(),
{
    if s.len() > 0 {
        let front = s.drop_last();
        lemma_digits_value(front);
        if digits_value(s) is Some {
            assert forall|i: int| 0 <= i < s.len() implies reading::numeral(#[trigger] s[i]) by {
                if i < front.len() {
                    assert(reading::numeral(front[i]));
                }
            }
        } else if forall|i: int| 0 <= i < s.len() ==> reading::numeral(#[trigger] s[i]) {
            assert forall|i: int| 0 <= i < front.len() implies reading::numeral(
                #[trigger] front[i],
            ) by {
                assert(reading::numeral(s[i]));
            }
            assert(reading::numeral(s[s.len() - 1]));
        }
    }
}

/// A number in decimal, with or without a plus sign before it, reads as the number.
pub proof fn lemma_number_reads(n: nat)
    ensures
        number(text::decimal_of(n)) == Some(n),
        number(seq!['+'] + text::decimal_of(n)) == Some(n),
{
    let s = text::decimal_of(n);
    reading::lemma_decimal(n);
    lemma_digits_value(s);
    assert(reading::numeral(s[0]));
    let t = seq!['+'] + s;
    assert(t[0] == '+');
    assert(t.drop_first() =~= s);
}

/// A number is an optional plus sign and digits, and has their value.
pub proof fn lemma_number_is_digits(s: Seq<char>)
    ensures
        number(s) matches Some(v) ==> exists|d: Seq<char>| {
            &&& (s == d || s.len() > 0 && s[0] as u32 == 43 && s.drop_first() == d)
            &&& d.len() > 0
            &&& forall|i: int| 0 <= i < d.len() ==> reading::numeral(#[trigger] d[i])
            &&& v == #[trigger] reading::number(d)
        },
{
    if number(s) is Some {
        if s[0] as u32 == 43 {
            let d = s.drop_first();
            lemma_digits_value(d);
            assert(number(s)->0 == reading::number(d));
        } else {
            lemma_digits_value(s);
            assert(number(s)->0 == reading::number(s));
        }
    }
}

/// Arguments after others are read over what the others said.
proof fn lemma_bench_shifts(pre: Seq<Seq<char>>, args: Seq<Seq<char>>, k: int, o: BenchOptions)
    requires
        0 <= k,
    ensures
        bench_options(pre + args, pre.len() + k, o) == bench_options(args, k, o),
    decreases args.len() - k,
{
    if k < args.len() {
        let all = pre + args;
        assert(all[pre.len() + k] == args[k]);
        if k + 1 < args.len() {
            assert(all[pre.len() + k + 1] == args[k + 1]);
        }
        lemma_bench_shifts(pre, args, k + 1, BenchOptions { tiny: true, ..o });
        lemma_bench_shifts(pre, args, k + 1, BenchOptions { check: true, ..o });
        if k + 1 < args.len() && fitting(args[k + 1]) is Some {
            let v = fitting(args[k + 1])->0;
            lemma_bench_shifts(pre, args, k + 2, BenchOptions { points: v, ..o });
            lemma_bench_shifts(pre, args, k + 2, BenchOptions { n: v, ..o });
            lemma_bench_shifts(pre, args, k + 2, BenchOptions { chunk: v, ..o });
            lemma_bench_shifts(pre, args, k + 2, BenchOptions { repeats: v, ..o });
        }
    }
}

proof fn lemma_bench_goes_on(
    args: Seq<Seq<char>>,
    more: Seq<Seq<char>>,
    i: int,
    o: BenchOptions,
    p: BenchOptions,
)
    requires
        0 <= i <= args.len(),
        bench_options(args, i, o) == Ok::<BenchOptions, Refusal>(p),
    ensures
        bench_options(args + more, i, o) == bench_options(args + more, args.len() as int, p),
    decreases args.len() - i,
{
    if i < args.len() {
        let all = args + more;
        assert(all[i] == args[i]);
        if args[i] == "--tiny"@ {
            lemma_bench_goes_on(args, more, i + 1, BenchOptions { tiny: true, ..o }, p);
        } else if args[i] == "--check"@ {
            lemma_bench_goes_on(args, more, i + 1, BenchOptions { check: true, ..o }, p);
        } else {
            assert(all[i + 1] == args[i + 1]);
            let v = fitting(args[i + 1])->0;
            let q = if args[i] == "--points"@ {
                BenchOptions { points: v, ..o }
            } else if args[i] == "--n"@ {
                BenchOptions { n: v, ..o }
            } else if args[i] == "--chunk"@ {
                BenchOptions { chunk: v, ..o }
            } else {
                BenchOptions { repeats: v, ..o }
            };
            lemma_bench_goes_on(args, more, i + 2, q, p);
        }
    }
}

/// What is said later is said over what was said before.
pub proof fn lemma_bench_later_wins(
    args: Seq<Seq<char>>,
    more: Seq<Seq<char>>,
    o: BenchOptions,
    p: BenchOptions,
)
    requires
        bench_options(args, 0, o) == Ok::<BenchOptions, Refusal>(p),
    ensures
        bench_options(args + more, 0, o) == bench_options(more, 0, p),
{
    lemma_bench_goes_on(args, more, 0, o, p);
    lemma_bench_shifts(args, more, 0, p);
}

/// What each option says: a number in decimal for the one it names, and a switch for itself;
/// nothing else changes.
pub proof fn lemma_bench_option(o: BenchOptions, v: usize)
    ensures
        ({
            let d = text::decimal_of(v as nat);
            &&& bench_options(seq!["--points"@, d], 0, o) == Ok::<BenchOptions, Refusal>(
                BenchOptions { points: v, ..o },
            )
            &&& bench_options(seq!["--n"@, d], 0, o) == Ok::<BenchOptions, Refusal>(
                BenchOptions { n: v, ..o },
            )
            &&& bench_options(seq!["--chunk"@, d], 0, o) == Ok::<BenchOptions, Refusal>(
                BenchOptions { chunk: v, ..o },
            )
            &&& bench_options(seq!["--repeats"@, d], 0, o) == Ok::<BenchOptions, Refusal>(
                BenchOptions { repeats: v, ..o },
            )
        }),
        bench_options(seq!["--tiny"@], 0, o) == Ok::<BenchOptions, Refusal>(
            BenchOptions { tiny: true, ..o },
        ),
        bench_options(seq!["--check"@], 0, o) == Ok::<BenchOptions, Refusal>(
            BenchOptions { check: true, ..o },
        ),
        bench_options(seq![], 0, o) == Ok::<BenchOptions, Refusal>(o),
{
    lemma_number_reads(v as nat);
    reveal_strlit("--points");
    reveal_strlit("--n");
    reveal_strlit("--chunk");
    reveal_strlit("--repeats");
    reveal_strlit("--tiny");
    reveal_strlit("--check");
    assert("--points"@[2] == 'p' && "--n"@[2] == 'n' && "--chunk"@[3] == 'h' && "--chunk"@[2]
        == 'c' && "--repeats"@[2] == 'r' && "--tiny"@[2] == 't' && "--check"@[4] == 'e'
        && "--chunk"@[4] == 'u');
    reveal_with_fuel(bench_options, 2);
}

/// Options after others are read over what the others said.
proof fn lemma_options_shift(pre: Seq<Seq<char>>, args: Seq<Seq<char>>, k: int, o: Options)
    requires
        0 <= k,
    ensures
        options(pre + args, pre.len() + k, o) == options(args, k, o),
    decreases args.len() - k,
{
    if k < args.len() {
        let all = pre + args;
        assert(all[pre.len() + k] == args[k]);
        if k + 1 < args.len() {
            assert(all[pre.len() + k + 1] == args[k + 1]);
            let v = args[k + 1];
            if BackendKind::of_name(v) is Some {
                lemma_options_shift(
                    pre,
                    args,
                    k + 2,
                    Options { control: BackendKind::of_name(v)->0, ..o },
                );
            }
            lemma_options_shift(pre, args, k + 2, Options { other: Some(v), ..o });
            lemma_options_shift(pre, args, k + 2, Options { report: Some(v), ..o });
        }
    }
}

proof fn lemma_options_go_on(
    args: Seq<Seq<char>>,
    more: Seq<Seq<char>>,
    i: int,
    o: Options,
    p: Options,
)
    requires
        0 <= i <= args.len(),
        options(args, i, o) == Ok::<Options, Refusal>(p),
    ensures
        options(args + more, i, o) == options(args + more, args.len() as int, p),
    decreases args.len() - i,
{
    if i < args.len() {
        let all = args + more;
        assert(all[i] == args[i]);
        assert(all[i + 1] == args[i + 1]);
        let v = args[i + 1];
        if args[i] == "--control"@ {
            lemma_options_go_on(
                args,
                more,
                i + 2,
                Options { control: BackendKind::of_name(v)->0, ..o },
                p,
            );
        } else if args[i] == "--other"@ {
            lemma_options_go_on(args, more, i + 2, Options { other: Some(v), ..o }, p);
        } else {
            lemma_options_go_on(args, more, i + 2, Options { report: Some(v), ..o }, p);
        }
    }
}

/// A run of a case with the artifacts and the implementation, and with options that are said one
/// after another: a later one is said over an earlier one.
pub proof fn lemma_run_options(
    args: Seq<Seq<char>>,
    more: Seq<Seq<char>>,
    rewrite: BackendKind,
    p: Options,
)
    requires
        run_options(args) == Ok::<(BackendKind, Options), Refusal>((rewrite, p)),
    ensures
        args.len() >= 3,
        rewrite.named_by(args[2]),
        match options(more, 0, p) {
            Ok(q) => run_options(args + more) == Ok::<(BackendKind, Options), Refusal>(
                (rewrite, q),
            ),
            Err(e) => run_options(args + more) == Err::<(BackendKind, Options), Refusal>(e),
        },
{
    let first = Options { control: BackendKind::Canonical, other: None, report: None };
    backend::lemma_of_name(rewrite, args[2]);
    assert((args + more)[2] == args[2]);
    lemma_options_go_on(args, more, 3, first, p);
    lemma_options_shift(args, more, 0, p);
}

/// What each option says, and what is said without any: the canonical control, no other case and
/// no report.
pub proof fn lemma_run_option(
    dir: Seq<char>,
    artifacts: Seq<char>,
    rewrite: BackendKind,
    o: Options,
    control: BackendKind,
    v: Seq<char>,
)
    ensures
        run_options(seq![dir, artifacts, rewrite.text()]) == Ok::<(BackendKind, Options), Refusal>(
            (rewrite, Options { control: BackendKind::Canonical, other: None, report: None }),
        ),
        options(seq!["--control"@, control.text()], 0, o) == Ok::<Options, Refusal>(
            Options { control, ..o },
        ),
        options(seq!["--other"@, v], 0, o) == Ok::<Options, Refusal>(
            Options { other: Some(v), ..o },
        ),
        options(seq!["--report"@, v], 0, o) == Ok::<Options, Refusal>(
            Options { report: Some(v), ..o },
        ),
{
    backend::lemma_names_parse(rewrite);
    backend::lemma_names_parse(control);
    reveal_strlit("--control");
    reveal_strlit("--other");
    reveal_strlit("--report");
    assert("--control"@[2] == 'c' && "--other"@[2] == 'o' && "--report"@[2] == 'r');
    reveal_with_fuel(options, 2);
}

} // verus!
