//! Compiling a page's TypeScript or JavaScript with swc.
use vstd::prelude::*;

verus! {

/// The code that swc emits for a script with the given file name (whose
/// extension selects TypeScript or JavaScript) and text, under default options;
/// `None` when swc reports an error.
pub uninterp spec fn swc_output(file_name: Seq<char>, source: Seq<char>) -> Option<Seq<char>>;

/// `swc::Compiler::process_js_file` on a new source file of a fresh source map,
/// with default `Options` (which read no `.swcrc`), inside fresh swc globals;
/// errors are reported to the terminal.  The contract names the emitted code, a
/// function of the file name and the text, and claims nothing else of it.
#[verifier::external_body]
pub(crate) fn swc_compile(file_name: &str, source: &str) -> (r: Option<String>)
    ensures
        r.deep_view() == swc_output(file_name@, source@),
{
    let cm = std::sync::Arc::<swc_common::SourceMap>::default();
    let name = swc_common::FileName::Real(std::path::PathBuf::from(file_name));
    let fm = cm.new_source_file(name.into(), source.to_string());
    let handler = swc_common::errors::Handler::with_tty_emitter(
        swc_common::errors::ColorConfig::Auto, true, false, Some(cm.clone()));
    let c = swc::Compiler::new(cm);
    swc_common::GLOBALS.set(&Default::default(), || {
        c.process_js_file(fm, &handler, &Default::default()).ok().map(|o| o.code)
    })
}

/// The JavaScript that a script compiles to, for a script that swc compiles.
pub fn compile_code(file_name: &str, source: &str) -> (r: String)
    requires
        swc_output(file_name@, source@) is Some,
    ensures
        r@ == swc_output(file_name@, source@)->0,
{
    match swc_compile(file_name, source) {
        Some(code) => code,
        None => {
            proof {
                assert(false);
            }
            String::new()
        },
    }
}

/// The JavaScript that a script compiles to, or `None` where swc reports an
/// error: swc is run, and the script handed to `compile_code` only when it
/// compiles.
pub fn try_compile_code(file_name: &str, source: &str) -> (r: Option<String>)
    ensures
        r.deep_view() == swc_output(file_name@, source@),
{
    match swc_compile(file_name, source) {
        Some(_) => Some(compile_code(file_name, source)),
        None => None,
    }
}

} // verus!
