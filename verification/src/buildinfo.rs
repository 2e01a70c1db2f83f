//! What a build says about itself: its version, its features, its license.

use vstd::prelude::*;
use vstd::string::StringExecFns;

verus! {

/// The version of the program.
pub const VERSION: &'static str = "0.1.0";

/// The features that a program was built with.
#[derive(Debug, Clone, Copy, PartialEq, Eq, Structural)]
pub struct Features {
    /// The WavLM encoder.
    pub wavlm: bool,
    /// CUDA devices.
    pub cuda: bool,
    /// Metal devices.
    pub metal: bool,
    /// The Seed-VC engine.
    pub seedvc: bool,
    /// The portable audio backend on Linux.
    pub cpal_backend: bool,
}

impl Default for Features {
    /// No features.
    fn default() -> (f: Self)
        ensures
            f == (Features {
                wavlm: false,
                cuda: false,
                metal: false,
                seedvc: false,
                cpal_backend: false,
            }),
    {
        Features { wavlm: false, cuda: false, metal: false, seedvc: false, cpal_backend: false }
    }
}

/// A name where a feature is there, nothing where it is not.
pub open spec fn named(on: bool, name: Seq<char>) -> Seq<Seq<char>> {
    if on {
        seq![name]
    } else {
        seq![]
    }
}

/// The names of the features.
pub open spec fn feature_names(f: Features) -> Seq<Seq<char>> {
    named(f.wavlm, "wavlm"@) + named(f.cuda, "cuda"@) + named(f.metal, "metal"@) + named(
        f.seedvc,
        "seedvc"@,
    ) + named(f.cpal_backend, "cpal-backend"@)
}

/// Texts with a separator between them.
pub open spec fn joined(v: Seq<Seq<char>>, sep: Seq<char>) -> Seq<char>
    decreases v.len(),
{
    if v.len() == 0 {
        seq![]
    } else if v.len() == 1 {
        v[0]
    } else {
        joined(v.drop_last(), sep) + sep + v.last()
    }
}

/// The names of the features.
pub fn active_features(f: &Features) -> (v: Vec<&'static str>)
    ensures
        crate::scan::views(v@) == feature_names(*f),
{
    let mut v: Vec<&'static str> = Vec::new();
    if f.wavlm {
        v.push("wavlm");
    }
    assert(crate::scan::views(v@) =~= named(f.wavlm, "wavlm"@));
    if f.cuda {
        v.push("cuda");
    }
    assert(crate::scan::views(v@) =~= named(f.wavlm, "wavlm"@) + named(f.cuda, "cuda"@));
    if f.metal {
        v.push("metal");
    }
    assert(crate::scan::views(v@) =~= named(f.wavlm, "wavlm"@) + named(f.cuda, "cuda"@) + named(
        f.metal,
        "metal"@,
    ));
    if f.seedvc {
        v.push("seedvc");
    }
    assert(crate::scan::views(v@) =~= named(f.wavlm, "wavlm"@) + named(f.cuda, "cuda"@) + named(
        f.metal,
        "metal"@,
    ) + named(f.seedvc, "seedvc"@));
    if f.cpal_backend {
        v.push("cpal-backend");
    }
    assert(crate::scan::views(v@) =~= feature_names(*f));
    v
}

/// The line that names the version and the features.
pub open spec fn version_text(f: Features) -> Seq<char> {
    let names = feature_names(f);
    "babiniku 0.1.0 (features: "@ + (if names.len() == 0 {
        "none — CPU baseline"@
    } else {
        joined(names, ", "@)
    }) + ")"@
}

/// The line that names the version and the features.
pub fn version_line(f: &Features) -> (s: String)
    ensures
        s@ == version_text(*f),
{
    let names: Vec<&'static str> = active_features(f);
    let ghost all = feature_names(*f);
    let mut s: String = String::from_str("babiniku 0.1.0 (features: ");
    if names.len() == 0 {
        s.append("none — CPU baseline");
    } else {
        let mut list: String = String::from_str(names[0]);
        assert(all.take(1)[0] == names@[0]@);
        let mut i: usize = 1;
        while i < names.len()
            invariant
                crate::scan::views(names@) == all,
                1 <= i <= names.len(),
                list@ == joined(all.take(i as int), ", "@),
            decreases names.len() - i,
        {
            assert(all.take(i + 1).drop_last() =~= all.take(i as int));
            assert(all.take(i + 1).last() == names@[i as int]@);
            list.append(", ");
            list.append(names[i]);
            i = i + 1;
        }
        assert(all.take(i as int) =~= all);
        s.append(list.as_str());
    }
    s.append(")");
    s
}

/// The notice that a build owes to whom it is distributed.
pub open spec fn notice(f: Features) -> Option<Seq<char>> {
    if f.seedvc {
        Some(
            "note: built with the seedvc feature — this binary links GPL-3.0 code and is GPL-3.0 when distributed (see crates/seedvc)."@,
        )
    } else {
        None
    }
}

/// The license notice of a build that links the Seed-VC engine; other builds have none.
pub fn gpl_notice(f: &Features) -> (n: Option<&'static str>)
    ensures
        match n {
            Some(s) => notice(*f) == Some(s@),
            None => notice(*f) is None,
        },
{
    if f.seedvc {
        Some(
            "note: built with the seedvc feature — this binary links GPL-3.0 code and is GPL-3.0 when distributed (see crates/seedvc).",
        )
    } else {
        None
    }
}

/// A build has a license notice exactly if its list of features names the engine that needs it.
pub proof fn law_notice_goes_with_the_feature(f: Features)
    ensures
        notice(f) is Some <==> feature_names(f).contains("seedvc"@),
{
    reveal_strlit("wavlm");
    reveal_strlit("cuda");
    reveal_strlit("metal");
    reveal_strlit("seedvc");
    reveal_strlit("cpal-backend");
    let names = feature_names(f);
    assert("wavlm"@.len() != "seedvc"@.len());
    assert("cuda"@.len() != "seedvc"@.len());
    assert("metal"@.len() != "seedvc"@.len());
    assert("cpal-backend"@.len() != "seedvc"@.len());
    if f.seedvc {
        let before = named(f.wavlm, "wavlm"@) + named(f.cuda, "cuda"@) + named(f.metal, "metal"@);
        assert(names[before.len() as int] == "seedvc"@);
    }
}

} // verus!
