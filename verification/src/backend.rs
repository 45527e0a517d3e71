//! The prover boundary: the single point at which an implementation of the
//! prover is substituted.
//!
//! * **Availability is decided by the build.** A backend is registered only
//!   where its implementation is compiled in.
//! * **Selection is decided by configuration.** [`BACKEND_ENV`] names the
//!   backend; when the variable is absent the default is `canonical`.
//! * **An unknown name is an error, not a default; a known but unavailable
//!   backend is an error, not a fallback.** The outcomes *selected*, *unknown*
//!   and *unavailable* stay distinct.

use vstd::prelude::*;

use crate::reading;
use crate::text;

verus! {

/// The environment variable that selects the backend.
pub const BACKEND_ENV: &'static str = "RISC0_GROTH16_BACKEND";

/// What a proof reads besides the key, and where its files go.
#[derive(Clone, Debug)]
pub struct ProverParams {
    /// The witness: consecutive 32-byte canonical little-endian field elements.
    pub witness: Vec<u8>,
    /// Where `proof.json` goes.
    pub proof_path: String,
    /// Where `public.json` goes.
    pub public_path: String,
}

/// The artifacts of a circuit.
#[derive(Clone, Debug)]
pub struct SetupParams {
    /// The zkey.
    pub srs_path: String,
}

/// One implementation of the Groth16 prover behind the boundary.
pub trait Groth16Backend {
    /// Which implementation this is. Only verified implementations need to say so.
    open spec fn kind_spec(&self) -> BackendKind {
        arbitrary()
    }

    /// Which implementation this is.
    fn kind(&self) -> (r: BackendKind)
        ensures
            r == self.kind_spec(),
    ;

    /// What may come of a run. Only verified implementations need to say so.
    open spec fn outcome(
        &self,
        prover: ProverParams,
        setup: SetupParams,
        r: Result<(), String>,
    ) -> bool {
        arbitrary()
    }

    /// Run the prover: load the artifacts named by `setup`, consume the witness
    /// in `prover`, and write `proof.json` and `public.json` to the paths in
    /// `prover`.
    fn prove(&self, prover: &ProverParams, setup: &SetupParams) -> (r: Result<(), String>)
        ensures
            self.outcome(*prover, *setup, r),
    ;
}

/// The implementations the boundary admits.
#[derive(Clone, Copy, Debug, PartialEq, Eq, Hash, Structural)]
pub enum BackendKind {
    /// The C++ kernels behind the C ABI.
    Canonical,
    /// The kernels of this crate compiled for a CUDA device.
    CudaOxide,
    /// The Metal shaders on Apple Silicon.
    Metal,
    /// The reference prover on the host. For tests and differential runs:
    /// never the default, not a production path.
    Reference,
    /// The kernel bodies run by a host launcher: the exact kernel code,
    /// without a GPU. A testing kind like `reference`.
    OxideCpu,
    /// The Metal pipeline over a device that runs on the host: a testing kind.
    MetalCpu,
}

impl BackendKind {
    /// Every kind, in a stable order.
    pub const ALL: [BackendKind; 6] = [
        BackendKind::Canonical,
        BackendKind::CudaOxide,
        BackendKind::Metal,
        BackendKind::Reference,
        BackendKind::OxideCpu,
        BackendKind::MetalCpu,
    ];

    /// The kind used when [`BACKEND_ENV`] is absent.
    pub const DEFAULT: BackendKind = BackendKind::Canonical;

    /// The configured name of a kind.
    pub open spec fn text(self) -> Seq<char> {
        match self {
            BackendKind::Canonical => "canonical"@,
            BackendKind::CudaOxide => "cuda-oxide"@,
            BackendKind::Metal => "metal"@,
            BackendKind::Reference => "reference"@,
            BackendKind::OxideCpu => "oxide-cpu"@,
            BackendKind::MetalCpu => "metal-cpu"@,
        }
    }

    /// The configured name of this kind.
    pub fn name(self) -> (r: &'static str)
        ensures
            r@ == self.text(),
    {
        match self {
            BackendKind::Canonical => "canonical",
            BackendKind::CudaOxide => "cuda-oxide",
            BackendKind::Metal => "metal",
            BackendKind::Reference => "reference",
            BackendKind::OxideCpu => "oxide-cpu",
            BackendKind::MetalCpu => "metal-cpu",
        }
    }

    /// A configured value names a kind: it is the kind's name, but for
    /// surrounding white space and ASCII case.
    pub open spec fn named_by(self, value: Seq<char>) -> bool {
        text::lowered(text::trimmed(value)) == text::points(self.text())
    }

    /// The kind that a configured value names.
    pub open spec fn of_name(value: Seq<char>) -> Option<BackendKind> {
        if BackendKind::Canonical.named_by(value) {
            Some(BackendKind::Canonical)
        } else if BackendKind::CudaOxide.named_by(value) {
            Some(BackendKind::CudaOxide)
        } else if BackendKind::Metal.named_by(value) {
            Some(BackendKind::Metal)
        } else if BackendKind::Reference.named_by(value) {
            Some(BackendKind::Reference)
        } else if BackendKind::OxideCpu.named_by(value) {
            Some(BackendKind::OxideCpu)
        } else if BackendKind::MetalCpu.named_by(value) {
            Some(BackendKind::MetalCpu)
        } else {
            None
        }
    }

    /// Parse a configured name. Surrounding white space is ignored and so is
    /// ASCII case; anything else, the empty string too, is
    /// [`SelectError::Unknown`], never a default.
    pub fn parse(value: &str) -> (r: Result<Self, SelectError>)
        ensures
            match r {
                Ok(kind) => Self::of_name(value@) == Some(kind),
                Err(SelectError::Unknown { value: v }) => v@ == value@ && Self::of_name(
                    value@,
                ) is None,
                Err(_) => false,
            },
    {
        let wanted = text::trim(value);
        let mut i: usize = 0;
        while i < 6
            invariant
                i <= 6,
                wanted@ == text::trimmed(value@),
                forall|j: int| 0 <= j < i ==> !#[trigger] Self::ALL@[j].named_by(value@),
            decreases 6 - i,
        {
            let kind = Self::ALL[i];
            if text::same_ignoring_case(wanted, kind.name()) {
                proof {
                    lemma_of_name(kind, value@);
                }
                return Ok(kind);
            }
            i = i + 1;
        }
        proof {
            assert(!Self::ALL@[0].named_by(value@));
            assert(!Self::ALL@[1].named_by(value@));
            assert(!Self::ALL@[2].named_by(value@));
            assert(!Self::ALL@[3].named_by(value@));
            assert(!Self::ALL@[4].named_by(value@));
            assert(!Self::ALL@[5].named_by(value@));
        }
        Err(SelectError::Unknown { value: text::owned(value) })
    }

    /// Whether two kinds are the same.
    pub fn same(self, other: Self) -> (r: bool)
        ensures
            r == (self == other),
    {
        self == other
    }
}

/// What the names are made of.
proof fn lemma_names()
    ensures
        text::points("canonical"@) == seq![99u32, 97, 110, 111, 110, 105, 99, 97, 108],
        text::points("cuda-oxide"@) == seq![99u32, 117, 100, 97, 45, 111, 120, 105, 100, 101],
        text::points("metal"@) == seq![109u32, 101, 116, 97, 108],
        text::points("reference"@) == seq![114u32, 101, 102, 101, 114, 101, 110, 99, 101],
        text::points("oxide-cpu"@) == seq![111u32, 120, 105, 100, 101, 45, 99, 112, 117],
        text::points("metal-cpu"@) == seq![109u32, 101, 116, 97, 108, 45, 99, 112, 117],
{
    reveal_strlit("canonical");
    reveal_strlit("cuda-oxide");
    reveal_strlit("metal");
    reveal_strlit("reference");
    reveal_strlit("oxide-cpu");
    reveal_strlit("metal-cpu");
    assert(text::points("canonical"@) =~= seq![99u32, 97, 110, 111, 110, 105, 99, 97, 108]);
    assert(text::points("cuda-oxide"@) =~= seq![99u32, 117, 100, 97, 45, 111, 120, 105, 100, 101]);
    assert(text::points("metal"@) =~= seq![109u32, 101, 116, 97, 108]);
    assert(text::points("reference"@) =~= seq![114u32, 101, 102, 101, 114, 101, 110, 99, 101]);
    assert(text::points("oxide-cpu"@) =~= seq![111u32, 120, 105, 100, 101, 45, 99, 112, 117]);
    assert(text::points("metal-cpu"@) =~= seq![109u32, 101, 116, 97, 108, 45, 99, 112, 117]);
}

/// No configured value names two kinds.
pub proof fn lemma_names_differ(a: BackendKind, b: BackendKind, value: Seq<char>)
    requires
        a.named_by(value),
        b.named_by(value),
    ensures
        a == b,
{
    lemma_names();
    let (x, y) = (text::points(a.text()), text::points(b.text()));
    assert(x.len() == y.len() && x[0] == y[0]);
}

/// A value gives the kind that it names, whatever the order in which the kinds are tried.
pub proof fn lemma_of_name(kind: BackendKind, value: Seq<char>)
    ensures
        BackendKind::of_name(value) == Some(kind) <==> kind.named_by(value),
{
    if kind.named_by(value) {
        match BackendKind::of_name(value) {
            Some(k) => {
                lemma_names_differ(k, kind, value);
            },
            None => {},
        }
    }
}

/// The name of every kind names it.
pub proof fn lemma_names_parse(kind: BackendKind)
    ensures
        BackendKind::of_name(kind.text()) == Some(kind),
{
    lemma_of_name(kind, kind.text());
    lemma_names();
    let s = kind.text();
    let p = text::points(s);
    assert(p.len() == s.len());
    assert forall|i: int| 0 <= i < s.len() implies s[i] as u32 == #[trigger] p[i] by {}
    assert(p[0] == s[0] as u32 && p.last() == s.last() as u32);
    assert(text::trimmed(s) == s);
    assert forall|i: int| 0 <= i < s.len() implies #[trigger] text::lowered(s)[i] == p[i] by {
        assert(p[i] == 45 || p[i] >= 97);
    }
    assert(text::lowered(s) =~= p);
}

/// The names are lower-case letters and hyphens, at least one, with letters at their ends.
proof fn lemma_name_letters(kind: BackendKind)
    ensures
        kind.text().len() > 0,
        forall|i: int|
            0 <= i < kind.text().len() ==> (#[trigger] kind.text()[i]) as u32 == 45 || 97
                <= kind.text()[i] as u32 <= 122,
        kind.text()[0] as u32 >= 97,
        kind.text().last() as u32 >= 97,
{
    reveal_strlit("canonical");
    reveal_strlit("cuda-oxide");
    reveal_strlit("metal");
    reveal_strlit("reference");
    reveal_strlit("oxide-cpu");
    reveal_strlit("metal-cpu");
}

/// A kind is named by its name in any mixture of cases, with any white space around it.
pub proof fn lemma_spelled_name_parses(
    kind: BackendKind,
    before: Seq<char>,
    s: Seq<char>,
    after: Seq<char>,
)
    requires
        text::blank(before),
        text::blank(after),
        text::spells(s, kind.text()),
    ensures
        BackendKind::of_name(before + s + after) == Some(kind),
{
    let t = kind.text();
    lemma_name_letters(kind);
    assert(s[0] as u32 >= 65 && s.last() as u32 >= 65) by {
        assert(s[0] as u32 == t[0] as u32 || s[0] as u32 + 32 == t[0] as u32);
        let n = s.len() - 1;
        assert(s[n] as u32 == t[n] as u32 || s[n] as u32 + 32 == t[n] as u32);
    }
    assert(s[0] as u32 <= 122 && s.last() as u32 <= 122) by {
        assert(t[0] as u32 <= 122);
        assert(t[t.len() - 1] as u32 <= 122);
        let n = s.len() - 1;
        assert(s[n] as u32 == t[n] as u32 || s[n] as u32 + 32 == t[n] as u32);
    }
    text::lemma_padding_goes(before, s, after);
    assert forall|i: int| 0 <= i < s.len() implies #[trigger] text::lowered(s)[i]
        == text::points(t)[i] by {
        assert(t[i] as u32 == 45 || 97 <= t[i] as u32 <= 122);
        assert(s[i] as u32 == t[i] as u32 || s[i] as u32 + 32 == t[i] as u32);
    }
    assert(text::lowered(s) =~= text::points(t));
    lemma_of_name(kind, before + s + after);
}

/// Nothing else names a kind: a value that gives one is its name, in some mixture of cases, with
/// white space around it or none.
pub proof fn lemma_parsed_name_is_spelled(kind: BackendKind, value: Seq<char>)
    requires
        BackendKind::of_name(value) == Some(kind),
    ensures
        exists|before: Seq<char>, s: Seq<char>, after: Seq<char>|
            #![trigger text::spells(s, kind.text()), before + s + after]
            text::blank(before) && text::blank(after) && text::spells(s, kind.text()) && value == before
                + s + after,
{
    lemma_of_name(kind, value);
    let t = kind.text();
    let s = text::trimmed(value);
    let (i, j) = text::lemma_only_padding_goes(value);
    assert(text::lowered(s).len() == text::points(t).len());
    assert forall|k: int| 0 <= k < s.len() implies (#[trigger] s[k]) as u32 == t[k] as u32 || (97
        <= t[k] as u32 <= 122 && s[k] as u32 + 32 == t[k] as u32) by {
        assert(text::lowered(s)[k] == text::points(t)[k]);
    }
    assert(value =~= value.take(i) + s + value.skip(j));
    assert(text::spells(s, t));
}

/// The names in a list of them, one after another, between commas.
pub proof fn lemma_names_read_back(kinds: Seq<BackendKind>)
    requires
        kinds.len() > 0,
    ensures
        ({
            let f = reading::fields(names_text(kinds), ',');
            &&& f.len() == kinds.len()
            &&& f[0] == kinds[0].text()
            &&& forall|i: int|
                0 < i < kinds.len() ==> #[trigger] f[i] == seq![' '] + kinds[i].text()
        }),
    decreases kinds.len(),
{
    reveal_strlit(", ");
    lemma_name_letters(kinds.last());
    if kinds.len() == 1 {
        assert(reading::free(kinds[0].text(), ','));
        reading::lemma_fields_free(kinds[0].text(), ',');
    } else {
        let front = kinds.drop_last();
        lemma_names_read_back(front);
        let t = names_text(front);
        let item = seq![' '] + kinds.last().text();
        assert(reading::free(item, ','));
        reading::lemma_fields_next(t, item, ',');
        assert(names_text(kinds) =~= t.push(',') + item);
        let f = reading::fields(names_text(kinds), ',');
        assert forall|i: int| 0 < i < kinds.len() implies #[trigger] f[i] == seq![' ']
            + kinds[i].text() by {
            if i < front.len() {
                assert(front[i] == kinds[i]);
            }
        }
    }
}

/// Why a backend could not be selected. Each variant is a different fact.
#[derive(Clone, Debug, PartialEq, Eq)]
pub enum SelectError {
    /// The configured value names no backend this crate knows.
    Unknown {
        /// The value as configured.
        value: String,
    },
    /// The configured value names a backend this build does not contain.
    Unavailable {
        /// What was asked for.
        kind: BackendKind,
        /// What this build contains.
        available: Vec<BackendKind>,
    },
    /// [`BACKEND_ENV`] is present but is not valid Unicode.
    NotUnicode,
}

/// How `str`'s `Debug` writes a string: quoted, with escapes.
pub uninterp spec fn quoted_text(s: Seq<char>) -> Seq<char>;

/// `str`'s `Debug` form, through `format!("{:?}")`. The claim is that the result is a function of
/// the string alone.
#[verifier::external_body]
fn quoted(s: &str) -> (r: String)
    ensures
        r@ == quoted_text(s@),
{
    format!("{s:?}")
}

/// Names separated by commas.
pub open spec fn names_text(kinds: Seq<BackendKind>) -> Seq<char>
    decreases kinds.len(),
{
    if kinds.len() == 0 {
        Seq::empty()
    } else if kinds.len() == 1 {
        kinds[0].text()
    } else {
        names_text(kinds.drop_last()) + ", "@ + kinds.last().text()
    }
}

/// The names of some kinds, separated by commas.
pub fn names(kinds: &[BackendKind]) -> (r: String)
    ensures
        r@ == names_text(kinds@),
{
    let mut r = String::new();
    let n = kinds.len();
    let mut i: usize = 0;
    proof {
        assert(r@ =~= names_text(kinds@.take(0)));
    }
    while i < n
        invariant
            i <= n,
            n == kinds@.len(),
            r@ == names_text(kinds@.take(i as int)),
        decreases n - i,
    {
        let ghost before = r@;
        if i > 0 {
            text::push(&mut r, ", ");
        }
        text::push(&mut r, kinds[i].name());
        proof {
            let t = kinds@.take(i + 1);
            assert(t.drop_last() =~= kinds@.take(i as int));
            assert(t.last() == kinds@[i as int]);
            if i == 0 {
                assert(t[0] == kinds@[0]);
            }
            assert(r@ =~= names_text(t));
        }
        i = i + 1;
    }
    proof {
        assert(kinds@.take(n as int) =~= kinds@);
    }
    r
}

/// The message on a value that names no kind, with the value as it is quoted.
pub open spec fn unknown_text(quoted: Seq<char>) -> Seq<char> {
    BACKEND_ENV@ + "="@ + quoted + " names no Groth16 backend (known: "@ + names_text(
        BackendKind::ALL@,
    ) + ")"@
}

/// The message on a value that names no kind, with the value as it is quoted.
pub fn unknown_message(quoted: &str) -> (r: String)
    ensures
        r@ == unknown_text(quoted@),
{
    let mut r = text::owned(BACKEND_ENV);
    text::push(&mut r, "=");
    text::push(&mut r, quoted);
    text::push(&mut r, " names no Groth16 backend (known: ");
    text::push(&mut r, names(BackendKind::ALL.as_slice()).as_str());
    text::push(&mut r, ")");
    r
}

impl SelectError {
    /// The message for a reader.
    pub open spec fn text(self) -> Seq<char> {
        match self {
            SelectError::Unknown { value } => unknown_text(quoted_text(value@)),
            SelectError::Unavailable { kind, available } => "Groth16 backend `"@ + kind.text()
                + "` is not compiled into this build (available: "@ + (if available@.len() == 0 {
                "none"@
            } else {
                names_text(available@)
            }) + ")"@,
            SelectError::NotUnicode => BACKEND_ENV@ + " is not valid Unicode"@,
        }
    }

    /// The message for a reader.
    pub fn message(&self) -> (r: String)
        ensures
            r@ == self.text(),
    {
        match self {
            SelectError::Unknown { value } => {
                let quoted = quoted(value.as_str());
                unknown_message(quoted.as_str())
            },
            SelectError::Unavailable { kind, available } => {
                let mut r = text::owned("Groth16 backend `");
                text::push(&mut r, kind.name());
                text::push(&mut r, "` is not compiled into this build (available: ");
                if available.len() == 0 {
                    text::push(&mut r, "none");
                } else {
                    text::push(&mut r, names(available.as_slice()).as_str());
                }
                text::push(&mut r, ")");
                r
            },
            SelectError::NotUnicode => {
                let mut r = text::owned(BACKEND_ENV);
                text::push(&mut r, " is not valid Unicode");
                r
            },
        }
    }
}

/// Why the boundary gave no proof: the selection failed, or the selected backend did.
#[derive(Clone, Debug, PartialEq, Eq)]
pub enum BoundaryError {
    /// No backend was selected, and none ran.
    Select(SelectError),
    /// The selected backend's own error.
    Backend(String),
}

impl BoundaryError {
    /// The message for a reader.
    pub open spec fn text(self) -> Seq<char> {
        match self {
            BoundaryError::Select(e) => e.text(),
            BoundaryError::Backend(e) => e@,
        }
    }

    /// The message for a reader.
    pub fn message(&self) -> (r: String)
        ensures
            r@ == self.text(),
    {
        match self {
            BoundaryError::Select(e) => e.message(),
            BoundaryError::Backend(e) => text::owned(e.as_str()),
        }
    }
}

/// What an environment variable holds.
#[derive(Clone, Copy, Debug)]
pub enum EnvValue<'a> {
    /// It is not set.
    Absent,
    /// It is set to something that is not Unicode.
    NotUnicode,
    /// Its value.
    Text(&'a str),
}

/// The backends compiled into a build, keyed by kind.
pub struct Registry<B: Groth16Backend> {
    backends: Vec<B>,
}

impl<B: Groth16Backend> Registry<B> {
    /// The registered backends, in registration order.
    pub closed spec fn registered(self) -> Seq<B> {
        self.backends@
    }

    /// Their kinds.
    pub open spec fn kinds(self) -> Seq<BackendKind> {
        Seq::new(self.registered().len(), |i: int| self.registered()[i].kind_spec())
    }

    /// No kind is registered twice.
    pub open spec fn wf(self) -> bool {
        self.kinds().no_duplicates()
    }

    /// An empty registry.
    pub fn new() -> (r: Self)
        ensures
            r.wf(),
            r.registered() == Seq::<B>::empty(),
    {
        Self { backends: Vec::new() }
    }

    /// Whether a kind is registered.
    pub fn has(&self, kind: BackendKind) -> (r: bool)
        ensures
            r == self.kinds().contains(kind),
    {
        match self.position(kind) {
            Some(i) => {
                assert(self.kinds()[i as int] == kind);
                true
            },
            None => false,
        }
    }

    /// Where a kind is registered first.
    fn position(&self, kind: BackendKind) -> (r: Option<usize>)
        ensures
            match r {
                Some(i) => i < self.backends@.len() && self.backends@[i as int].kind_spec() == kind,
                None => !self.kinds().contains(kind),
            },
    {
        let n = self.backends.len();
        let mut i: usize = 0;
        while i < n
            invariant
                i <= n,
                n == self.backends@.len(),
                forall|j: int| 0 <= j < i ==> #[trigger] self.backends@[j].kind_spec() != kind,
            decreases n - i,
        {
            if self.backends[i].kind() == kind {
                return Some(i);
            }
            i = i + 1;
        }
        assert forall|j: int| 0 <= j < n implies self.kinds()[j] != kind by {
            assert(self.backends@[j].kind_spec() != kind);
        }
        None
    }

    /// Add a backend of a kind that is not there yet.
    pub fn with(self, backend: B) -> (r: Self)
        requires
            self.wf(),
            !self.kinds().contains(backend.kind_spec()),
        ensures
            r.wf(),
            r.registered() == self.registered().push(backend),
            r.kinds() == self.kinds().push(backend.kind_spec()),
    {
        let mut out = self;
        out.backends.push(backend);
        proof {
            assert(out.kinds() =~= self.kinds().push(backend.kind_spec()));
        }
        out
    }

    /// The kinds this registry contains, in registration order.
    pub fn available(&self) -> (r: Vec<BackendKind>)
        ensures
            r@ == self.kinds(),
    {
        let mut r: Vec<BackendKind> = Vec::new();
        let n = self.backends.len();
        let mut i: usize = 0;
        while i < n
            invariant
                i <= n,
                n == self.backends@.len(),
                r@ =~= self.kinds().take(i as int),
            decreases n - i,
        {
            r.push(self.backends[i].kind());
            i = i + 1;
        }
        proof {
            assert(self.kinds().take(n as int) =~= self.kinds());
        }
        r
    }

    /// The outcome of asking for a kind: a registered backend of that kind, or an error that
    /// lists what there is, if and only if there is none.
    pub open spec fn found(self, kind: BackendKind, r: Result<&B, SelectError>) -> bool {
        match r {
            Ok(b) => self.registered().contains(*b) && b.kind_spec() == kind,
            Err(SelectError::Unavailable { kind: k, available }) => k == kind && available@
                == self.kinds() && !self.kinds().contains(kind),
            Err(_) => false,
        }
    }

    /// The outcome of a selection by a configured value.
    pub open spec fn selected(
        self,
        configured: Option<Seq<char>>,
        r: Result<&B, SelectError>,
    ) -> bool {
        match configured {
            None => self.found(BackendKind::Canonical, r),
            Some(value) => match BackendKind::of_name(value) {
                Some(kind) => self.found(kind, r),
                None => r matches Err(SelectError::Unknown { value: v }) && v@ == value,
            },
        }
    }

    /// The backend of a given kind, or [`SelectError::Unavailable`].
    pub fn get(&self, kind: BackendKind) -> (r: Result<&B, SelectError>)
        ensures
            self.found(kind, r),
    {
        match self.position(kind) {
            Some(i) => Ok(&self.backends[i]),
            None => Err(SelectError::Unavailable { kind, available: self.available() }),
        }
    }

    /// Select by a configured value: `None` (the variable is absent) means
    /// [`BackendKind::DEFAULT`]; `Some` must parse and must be available.
    pub fn select(&self, configured: Option<&str>) -> (r: Result<&B, SelectError>)
        ensures
            self.selected(
                match configured {
                    None => None,
                    Some(value) => Some(value@),
                },
                r,
            ),
    {
        match configured {
            None => self.get(BackendKind::DEFAULT),
            Some(value) => match BackendKind::parse(value) {
                Ok(kind) => self.get(kind),
                Err(e) => Err(e),
            },
        }
    }

    /// Select from what [`BACKEND_ENV`] holds.
    pub fn select_from_env(&self, value: EnvValue<'_>) -> (r: Result<&B, SelectError>)
        ensures
            match value {
                EnvValue::Absent => self.selected(None, r),
                EnvValue::NotUnicode => r == Err::<&B, SelectError>(SelectError::NotUnicode),
                EnvValue::Text(v) => self.selected(Some(v@), r),
            },
    {
        match value {
            EnvValue::Absent => self.select(None),
            EnvValue::NotUnicode => Err(SelectError::NotUnicode),
            EnvValue::Text(v) => self.select(Some(v)),
        }
    }

    /// What came of a selection and, where one was made, of the selected backend's own run.
    pub open spec fn answered(
        selection: Result<&B, SelectError>,
        prover: ProverParams,
        setup: SetupParams,
        r: Result<(), BoundaryError>,
    ) -> bool {
        match selection {
            Err(e) => r == Err::<(), BoundaryError>(BoundaryError::Select(e)),
            Ok(b) => match r {
                Ok(done) => b.outcome(prover, setup, Ok(done)),
                Err(BoundaryError::Backend(e)) => b.outcome(prover, setup, Err(e)),
                Err(_) => false,
            },
        }
    }

    /// Run the selected backend, or pass the selection's error on.
    fn run(
        selection: Result<&B, SelectError>,
        prover: &ProverParams,
        setup: &SetupParams,
    ) -> (r: Result<(), BoundaryError>)
        ensures
            Self::answered(selection, *prover, *setup, r),
    {
        match selection {
            Err(e) => Err(BoundaryError::Select(e)),
            Ok(b) => match b.prove(prover, setup) {
                Ok(done) => Ok(done),
                Err(e) => Err(BoundaryError::Backend(e)),
            },
        }
    }

    /// The whole boundary in one call: select by `configured`, then prove.
    /// A selection error or a backend error is returned as it is; nothing
    /// answers in place of the selected backend.
    pub fn prove(
        &self,
        configured: Option<&str>,
        prover: &ProverParams,
        setup: &SetupParams,
    ) -> (r: Result<(), BoundaryError>)
        ensures
            exists|selection: Result<&B, SelectError>|
                self.selected(
                    match configured {
                        None => None,
                        Some(value) => Some(value@),
                    },
                    selection,
                ) && #[trigger] Self::answered(selection, *prover, *setup, r),
    {
        let selection = self.select(configured);
        let ghost s = selection;
        let r = Self::run(selection, prover, setup);
        assert(Self::answered(s, *prover, *setup, r));
        r
    }

    /// [`Registry::prove`] with the selection read from what [`BACKEND_ENV`] holds.
    pub fn prove_from_env(
        &self,
        value: EnvValue<'_>,
        prover: &ProverParams,
        setup: &SetupParams,
    ) -> (r: Result<(), BoundaryError>)
        ensures
            exists|selection: Result<&B, SelectError>|
                (match value {
                    EnvValue::Absent => self.selected(None, selection),
                    EnvValue::NotUnicode => selection == Err::<&B, SelectError>(
                        SelectError::NotUnicode,
                    ),
                    EnvValue::Text(v) => self.selected(Some(v@), selection),
                }) && #[trigger] Self::answered(selection, *prover, *setup, r),
    {
        let selection = self.select_from_env(value);
        let ghost s = selection;
        let r = Self::run(selection, prover, setup);
        assert(Self::answered(s, *prover, *setup, r));
        r
    }
}

/// Nothing is substituted: a selection succeeds exactly where the registry has a backend of the
/// kind that is asked for, and gives one of that kind; without a configured value that is the
/// canonical one. Everything else is an error that says whether the value names no kind at all.
pub proof fn lemma_nothing_is_substituted<B: Groth16Backend>(
    registry: Registry<B>,
    configured: Option<Seq<char>>,
    r: Result<&B, SelectError>,
)
    requires
        registry.selected(configured, r),
    ensures
        r is Ok <==> exists|i: int| {
            &&& 0 <= i < registry.registered().len()
            &&& match configured {
                None => (#[trigger] registry.registered()[i]).kind_spec() == BackendKind::Canonical,
                Some(value) => registry.registered()[i].kind_spec().named_by(value),
            }
        },
        r matches Ok(b) ==> registry.registered().contains(*b) && match configured {
            None => b.kind_spec() == BackendKind::Canonical,
            Some(value) => b.kind_spec().named_by(value),
        },
        r matches Err(e) ==> !(e is NotUnicode),
        (r matches Err(e) && e is Unknown) <==> (
        configured matches Some(value) && forall|kind: BackendKind| !kind.named_by(value)),
        r matches Err(SelectError::Unavailable { kind, available }) ==> available@
            == registry.kinds() && !registry.kinds().contains(kind),
{
    let all = registry.registered();
    if let Some(value) = configured {
        match BackendKind::of_name(value) {
            Some(k) => {
                lemma_of_name(k, value);
                assert(k.named_by(value));
                assert forall|i: int| 0 <= i < all.len() && (
                #[trigger] all[i]).kind_spec().named_by(value) implies registry.kinds().contains(
                    k,
                ) by {
                    lemma_names_differ(k, all[i].kind_spec(), value);
                    assert(registry.kinds()[i] == k);
                }
            },
            None => {
                assert forall|kind: BackendKind| !kind.named_by(value) by {
                    lemma_of_name(kind, value);
                }
            },
        }
    } else {
        assert forall|i: int| 0 <= i < all.len() && (#[trigger] all[i]).kind_spec()
            == BackendKind::Canonical implies registry.kinds().contains(
            BackendKind::Canonical,
        ) by {
            assert(registry.kinds()[i] == BackendKind::Canonical);
        }
    }
    if let Ok(b) = r {
        let i = choose|i: int| 0 <= i < all.len() && all[i] == *b;
        assert(all[i] == *b);
    }
}

/// The registry of this build: exactly the backends whose implementation is
/// compiled in. Every backend reads and writes files, and the library does
/// not, so there is none here; a program starts from this and adds its own.
pub fn compiled_in<B: Groth16Backend>() -> (r: Registry<B>)
    ensures
        r.wf(),
        r.registered() == Seq::<B>::empty(),
        r.kinds() == Seq::<BackendKind>::empty(),
{
    let r = Registry::new();
    assert(r.kinds() =~= Seq::empty());
    r
}

impl<B: Groth16Backend> Default for Registry<B> {
    fn default() -> (r: Self)
        ensures
            r.wf(),
            r.registered() == Seq::<B>::empty(),
    {
        Self::new()
    }
}

} // verus!
