//! The statistics panel's lines: one labelled count per document table.

use vstd::prelude::*;

use crate::digits::{decimal_digits, spec_digits};
use crate::dump::push_chars;

verus! {

/// The counts read off one document, as plain values.
#[derive(Clone, Copy, Debug, PartialEq, Eq)]
pub struct DocumentCounts {
    pub accessors: u64,
    pub animations: u64,
    pub buffers: u64,
    pub cameras: u64,
    pub has_default_scene: bool,
    pub extensions_used: u64,
    pub extensions_required: u64,
    pub images: u64,
    pub materials: u64,
    pub meshes: u64,
    pub samplers: u64,
    pub skins: u64,
    pub textures: u64,
    pub views: u64,
}

/// One labelled count.
pub open spec fn labelled(label: Seq<char>, n: nat) -> Seq<char> {
    label + ": "@ + spec_digits(n)
}

/// The words printed for a truth value.
pub open spec fn bool_chars(b: bool) -> Seq<char> {
    if b {
        "true"@
    } else {
        "false"@
    }
}

/// The statistics lines of a document, in display order.
pub open spec fn stats_ok(c: DocumentCounts, lines: Seq<Vec<char>>) -> bool {
    &&& lines.len() == 14
    &&& lines[0]@ == labelled("Accessors"@, c.accessors as nat)
    &&& lines[1]@ == labelled("Animations"@, c.animations as nat)
    &&& lines[2]@ == labelled("Buffers"@, c.buffers as nat)
    &&& lines[3]@ == labelled("Cameras"@, c.cameras as nat)
    &&& lines[4]@ == "Has default scene: "@ + bool_chars(c.has_default_scene)
    &&& lines[5]@ == labelled("Extensions used"@, c.extensions_used as nat)
    &&& lines[6]@ == labelled("Extensions required"@, c.extensions_required as nat)
    &&& lines[7]@ == labelled("Images"@, c.images as nat)
    &&& lines[8]@ == labelled("Materials"@, c.materials as nat)
    &&& lines[9]@ == labelled("Meshes"@, c.meshes as nat)
    &&& lines[10]@ == labelled("Samplers"@, c.samplers as nat)
    &&& lines[11]@ == labelled("Skins"@, c.skins as nat)
    &&& lines[12]@ == labelled("Textures"@, c.textures as nat)
    &&& lines[13]@ == labelled("Buffer views"@, c.views as nat)
}

/// One labelled count as characters.
fn stat_line(label: &str, n: u64) -> (out: Vec<char>)
    ensures
        out@ == labelled(label@, n as nat),
{
    let mut out: Vec<char> = Vec::new();
    push_chars(&mut out, label);
    push_chars(&mut out, ": ");
    let mut digits = decimal_digits(n);
    out.append(&mut digits);
    out
}

/// The statistics lines of a document, one count per line, in the order
/// they are displayed.
pub fn stats(c: &DocumentCounts) -> (out: Vec<Vec<char>>)
    ensures
        stats_ok(*c, out@),
{
    let mut out: Vec<Vec<char>> = Vec::new();
    out.push(stat_line("Accessors", c.accessors));
    out.push(stat_line("Animations", c.animations));
    out.push(stat_line("Buffers", c.buffers));
    out.push(stat_line("Cameras", c.cameras));
    let mut flag: Vec<char> = Vec::new();
    push_chars(&mut flag, "Has default scene: ");
    if c.has_default_scene {
        push_chars(&mut flag, "true");
    } else {
        push_chars(&mut flag, "false");
    }
    out.push(flag);
    out.push(stat_line("Extensions used", c.extensions_used));
    out.push(stat_line("Extensions required", c.extensions_required));
    out.push(stat_line("Images", c.images));
    out.push(stat_line("Materials", c.materials));
    out.push(stat_line("Meshes", c.meshes));
    out.push(stat_line("Samplers", c.samplers));
    out.push(stat_line("Skins", c.skins));
    out.push(stat_line("Textures", c.textures));
    out.push(stat_line("Buffer views", c.views));
    out
}

} // verus!
