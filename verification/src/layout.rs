//! Which files the finished archive occupies under each concat mode, and
//! what each of them holds.

use vstd::prelude::*;
use crate::entry::ConcatMode;

verus! {

/// What one output file holds.
#[derive(Clone, Copy, Debug, PartialEq, Eq, Structural)]
pub enum OutputRole {
    /// The manifest pack, with any pack the concat mode embeds in it.
    Manifest,
    /// A content pack written as a sidecar file.
    ContentPack,
    /// A directory pack written as a sidecar file.
    DirectoryPack,
}

/// One output file: its file name (raw bytes) and what it holds.
#[derive(Clone, Debug, PartialEq)]
pub struct OutputFile {
    pub name: Vec<u8>,
    pub role: OutputRole,
}

/// The suffix of a content-pack sidecar file.
pub open spec fn jbkc_suffix() -> Seq<u8> {
    seq![46u8, 106u8, 98u8, 107u8, 99u8]
}

/// The suffix of a directory-pack sidecar file.
pub open spec fn jbkd_suffix() -> Seq<u8> {
    seq![46u8, 106u8, 98u8, 107u8, 100u8]
}

/// Appends `.jbkc` to a file name.
pub fn with_jbkc_suffix(base: &Vec<u8>) -> (r: Vec<u8>)
    requires
        base@.len() + 5 <= usize::MAX,
    ensures
        r@ == base@ + jbkc_suffix(),
{
    let mut r = base.clone();
    r.push(46);
    r.push(106);
    r.push(98);
    r.push(107);
    r.push(99);
    proof {
        assert(r@ =~= base@ + jbkc_suffix());
    }
    r
}

/// Appends `.jbkd` to a file name.
pub fn with_jbkd_suffix(base: &Vec<u8>) -> (r: Vec<u8>)
    requires
        base@.len() + 5 <= usize::MAX,
    ensures
        r@ == base@ + jbkd_suffix(),
{
    let mut r = base.clone();
    r.push(46);
    r.push(106);
    r.push(98);
    r.push(107);
    r.push(100);
    proof {
        assert(r@ =~= base@ + jbkd_suffix());
    }
    r
}

/// The inventory a concat mode owes: how many output files there are,
/// their names, and what each holds.
pub open spec fn outputs_ok(mode: ConcatMode, base: Seq<u8>, r: Seq<OutputFile>) -> bool {
    &&& r.len() == (match mode {
        ConcatMode::OneFile => 1int,
        ConcatMode::TwoFiles => 2int,
        ConcatMode::NoConcat => 3int,
    })
    &&& r[0].name@ == base && r[0].role == OutputRole::Manifest
    &&& (mode != ConcatMode::OneFile ==> r[1].name@ == base + jbkc_suffix() && r[1].role
        == OutputRole::ContentPack)
    &&& (mode == ConcatMode::NoConcat ==> r[2].name@ == base + jbkd_suffix() && r[2].role
        == OutputRole::DirectoryPack)
}

/// The output inventory of an archive named `outfile_name`: one file in
/// `OneFile` mode; the manifest and a `.jbkc` content sidecar in `TwoFiles`
/// mode; those two and a `.jbkd` directory sidecar in `NoConcat` mode.  The
/// manifest always carries the outfile's own name.
pub fn plan_outputs(mode: &ConcatMode, outfile_name: &Vec<u8>) -> (r: Vec<OutputFile>)
    requires
        outfile_name@.len() + 5 <= usize::MAX,
    ensures
        outputs_ok(*mode, outfile_name@, r@),
{
    let mut r: Vec<OutputFile> = Vec::new();
    r.push(OutputFile { name: outfile_name.clone(), role: OutputRole::Manifest });
    match mode {
        ConcatMode::OneFile => {},
        ConcatMode::TwoFiles => {
            r.push(OutputFile { name: with_jbkc_suffix(outfile_name), role: OutputRole::ContentPack });
        },
        ConcatMode::NoConcat => {
            r.push(OutputFile { name: with_jbkc_suffix(outfile_name), role: OutputRole::ContentPack });
            r.push(OutputFile { name: with_jbkd_suffix(outfile_name), role: OutputRole::DirectoryPack });
        },
    }
    r
}

} // verus!
