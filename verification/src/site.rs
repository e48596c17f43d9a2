//! The layout of a site project: the manifest's directories and where they lie
//! under the project root.
use vstd::prelude::*;

use crate::paths::{join, join_seq, FilePath};

verus! {

/// The directories that a project's manifest names, relative to the project
/// root.
#[derive(Clone, Debug)]
pub struct WebPubManifest {
    pub source: FilePath,
    pub template: FilePath,
    pub output: FilePath,
}

/// The directories of a build, each under the project root.
#[derive(Clone, Debug)]
pub struct CompilerConfig {
    pub root_dir: FilePath,
    pub source_dir: FilePath,
    pub template_dir: FilePath,
    pub output_dir: FilePath,
}

/// A relative path of one component.
fn single(name: &str) -> (r: FilePath)
    ensures
        r@ == seq![name@],
{
    let mut components: Vec<String> = Vec::new();
    components.push(name.to_owned());
    let r = FilePath { components };
    proof {
        assert(r@ =~= seq![name@]);
    }
    r
}

/// The source directory when the manifest names none: `source`.
pub fn source_default() -> (r: FilePath)
    ensures
        r@ == seq!["source"@],
{
    single("source")
}

/// The template directory when the manifest names none: `template`.
pub fn template_default() -> (r: FilePath)
    ensures
        r@ == seq!["template"@],
{
    single("template")
}

/// The output directory when the manifest names none: `output`.
pub fn output_default() -> (r: FilePath)
    ensures
        r@ == seq!["output"@],
{
    single("output")
}

/// The directories of a build of the project at `root_dir`: the manifest's
/// directories joined to the root.
pub fn compiler_config(root_dir: FilePath, manifest: &WebPubManifest) -> (c: CompilerConfig)
    ensures
        c.root_dir@ == root_dir@,
        c.source_dir@ == join_seq(root_dir@, manifest.source@),
        c.template_dir@ == join_seq(root_dir@, manifest.template@),
        c.output_dir@ == join_seq(root_dir@, manifest.output@),
{
    let source_dir = join(&root_dir, &manifest.source);
    let template_dir = join(&root_dir, &manifest.template);
    let output_dir = join(&root_dir, &manifest.output);
    CompilerConfig { root_dir, source_dir, template_dir, output_dir }
}

} // verus!
