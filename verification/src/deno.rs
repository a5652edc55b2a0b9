//! The module graph that the build-description producer reports, and the
//! digest over it: the engine concatenates the per-module checksums to
//! decide whether the description must be re-evaluated.

use vstd::prelude::*;
use vstd::string::*;

verus! {

/// The report for one evaluated description.
pub struct DenoInfo {
    pub root: String,
    pub size: u64,
    pub modules: Vec<DenoInfoModule>,
}

/// One module of the description's import graph.
pub struct DenoInfoModule {
    pub specifier: String,
    pub dependencies: Vec<DenoInfoDependency>,
    pub size: u64,
    pub media_type: String,
    pub local: String,
    pub checksum: String,
    pub emit: String,
}

/// One import of a module.
pub struct DenoInfoDependency {
    pub specifier: String,
    pub code: String,
}

/// The checksums of the modules, in order, as one string.
pub open spec fn checksums_concat(mods: Seq<DenoInfoModule>) -> Seq<char>
    decreases mods.len(),
{
    if mods.len() == 0 {
        Seq::empty()
    } else {
        checksums_concat(mods.drop_last()) + mods.last().checksum@
    }
}

/// Concatenate all module checksums: the digest of the description.
pub fn concat_module_checksums(info: &DenoInfo) -> (r: String)
    ensures
        r@ == checksums_concat(info.modules@),
{
    let mut all = String::new();
    let mut i: usize = 0;
    while i < info.modules.len()
        invariant
            i <= info.modules.len(),
            all@ == checksums_concat(info.modules@.subrange(0, i as int)),
        decreases info.modules.len() - i,
    {
        all.append(info.modules[i].checksum.as_str());
        proof {
            assert(info.modules@.subrange(0, i + 1).drop_last() =~= info.modules@.subrange(
                0,
                i as int,
            ));
            assert(info.modules@.subrange(0, i + 1).last() == info.modules@[i as int]);
        }
        i = i + 1;
    }
    proof {
        assert(info.modules@.subrange(0, info.modules@.len() as int) =~= info.modules@);
    }
    all
}

} // verus!
