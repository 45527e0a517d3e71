//! Where a device module comes from: its form by the file's extension.

use vstd::prelude::*;

use crate::reading;
use crate::text;

verus! {

/// Environment variable naming the module file.
pub const MODULE_ENV: &'static str = "RISC0_GROTH16_CUDA_MODULE";

/// The forms of a device module.
#[derive(Clone, Copy, Debug, PartialEq, Eq, Structural)]
pub enum ModuleForm {
    /// PTX text; the driver compiles it for the present GPU at load time.
    Ptx,
    /// A cubin or fatbin image.
    Image,
    /// A build product that carries an artifact bundle.
    Bundle,
    /// The bundle embedded in the running executable.
    CurrentExe,
}

impl ModuleForm {
    /// The form of a file with this extension.
    pub open spec fn of_extension(extension: Option<Seq<char>>) -> ModuleForm {
        match extension {
            None => ModuleForm::Bundle,
            Some(e) => if text::lowered(e) == text::points("ptx"@) {
                ModuleForm::Ptx
            } else if text::lowered(e) == text::points("cubin"@) || text::lowered(e)
                == text::points("fatbin"@) {
                ModuleForm::Image
            } else {
                ModuleForm::Bundle
            },
        }
    }

    /// Classify a file by extension: `.ptx` is text, `.cubin`/`.fatbin` an
    /// image, anything else a build product with a bundle. ASCII case does not matter.
    pub fn from_extension(extension: Option<&str>) -> (r: ModuleForm)
        ensures
            r == ModuleForm::of_extension(
                match extension {
                    Some(e) => Some(e@),
                    None => None,
                },
            ),
    {
        match extension {
            None => ModuleForm::Bundle,
            Some(e) => if text::same_ignoring_case(e, "ptx") {
                ModuleForm::Ptx
            } else if text::same_ignoring_case(e, "cubin") || text::same_ignoring_case(
                e,
                "fatbin",
            ) {
                ModuleForm::Image
            } else {
                ModuleForm::Bundle
            },
        }
    }
}

/// A device module.
#[derive(Clone, Debug)]
pub enum ModuleSource {
    /// PTX text.
    Ptx(Vec<u8>),
    /// A cubin or fatbin image.
    Image(Vec<u8>),
    /// An artifact bundle: its name and target.
    Bundle(String, String),
    /// The bundle embedded in the running executable.
    CurrentExe,
}

impl ModuleSource {
    /// A short description.
    pub open spec fn text(self) -> Seq<char> {
        match self {
            ModuleSource::Ptx(s) => "ptx ("@ + text::decimal_of(s@.len()) + " bytes)"@,
            ModuleSource::Image(b) => "image ("@ + text::decimal_of(b@.len()) + " bytes)"@,
            ModuleSource::Bundle(name, target) => "bundle "@ + name@ + " for "@ + target@,
            ModuleSource::CurrentExe => "embedded in the running executable"@,
        }
    }

    /// A short description for logs.
    pub fn describe(&self) -> (r: String)
        ensures
            r@ == self.text(),
    {
        match self {
            ModuleSource::Ptx(s) => {
                let mut r = text::owned("ptx (");
                text::push_u64(&mut r, s.len() as u64);
                text::push(&mut r, " bytes)");
                r
            },
            ModuleSource::Image(b) => {
                let mut r = text::owned("image (");
                text::push_u64(&mut r, b.len() as u64);
                text::push(&mut r, " bytes)");
                r
            },
            ModuleSource::Bundle(name, target) => {
                let mut r = text::owned("bundle ");
                text::push(&mut r, name.as_str());
                text::push(&mut r, " for ");
                text::push(&mut r, target.as_str());
                r
            },
            ModuleSource::CurrentExe => text::owned("embedded in the running executable"),
        }
    }
}

/// The extension decides the form, whatever its case: `ptx` is text, `cubin` and `fatbin` are
/// images, and everything else, like no extension, is a build product with a bundle.
pub proof fn lemma_forms(e: Seq<char>)
    ensures
        ModuleForm::of_extension(Some(e)) == ModuleForm::Ptx <==> text::spells(
            e,
            seq!['p', 't', 'x'],
        ),
        ModuleForm::of_extension(Some(e)) == ModuleForm::Image <==> text::spells(
            e,
            seq!['c', 'u', 'b', 'i', 'n'],
        ) || text::spells(e, seq!['f', 'a', 't', 'b', 'i', 'n']),
        ModuleForm::of_extension(Some(e)) != ModuleForm::CurrentExe,
        ModuleForm::of_extension(None) == ModuleForm::Bundle,
{
    reveal_strlit("ptx");
    reveal_strlit("cubin");
    reveal_strlit("fatbin");
    assert("ptx"@ =~= seq!['p', 't', 'x']);
    assert("cubin"@ =~= seq!['c', 'u', 'b', 'i', 'n']);
    assert("fatbin"@ =~= seq!['f', 'a', 't', 'b', 'i', 'n']);
    text::lemma_spelled(e, "ptx"@);
    text::lemma_spelled(e, "cubin"@);
    text::lemma_spelled(e, "fatbin"@);
}

/// A module of bytes is described with their number.
pub proof fn lemma_described(bytes: Vec<u8>)
    ensures
        exists|d: Seq<char>| {
            &&& #[trigger] reading::numerals(d)
            &&& reading::number(d) == bytes@.len()
            &&& ModuleSource::Ptx(bytes).text() == "ptx ("@ + d + " bytes)"@
            &&& ModuleSource::Image(bytes).text() == "image ("@ + d + " bytes)"@
        },
{
    reading::lemma_decimal(bytes@.len());
    assert(reading::numerals(text::decimal_of(bytes@.len())));
}

} // verus!
