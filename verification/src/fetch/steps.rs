//! What is fetched for an engine: files, where they come from, how they are converted, what they
//! are called.

use vstd::prelude::*;
use vstd::string::StringExecFns;
use crate::fetch::names;
use crate::fetch::names::Entry;
use crate::fetch::names::Source;
use crate::scan;
use crate::text;

verus! {

/// Where a file comes from.
pub enum Origin {
    /// A file of a repository on the model hub.
    Hub {
        /// The repository.
        repo: &'static str,
        /// The file.
        file: &'static str,
    },
    /// A file on disk.
    Local(String),
    /// A file on the web.
    Web(&'static str),
}

/// How a file is converted.
#[derive(Debug, Clone, Copy, PartialEq, Eq, Structural)]
pub enum Rule {
    /// The flow of a pickled checkpoint, under the names that the loaders look for.
    Flow,
    /// The length regulator of a pickled checkpoint, under the names that the loaders look for.
    Regulator,
    /// All tensors of a pickled checkpoint.
    Pickle,
    /// The generator of a pickled checkpoint, or all of it where it names none, with magnitudes
    /// and directions folded.
    Generator,
    /// The encoder of a checkpoint.
    Encoder,
    /// The HuBERT encoder.
    Hubert,
    /// Mean and deviation out of an archive of arrays.
    Stats,
    /// The tokenizer.
    Tokenizer,
    /// All tensors of a checkpoint.
    All,
}

/// The prefix of the tensors that a rule is about.
pub open spec fn rule_prefix(r: Rule) -> Option<Seq<char>> {
    match r {
        Rule::Flow => Some("net.cfm."@),
        Rule::Regulator => Some("net.length_regulator."@),
        Rule::Generator => Some("generator."@),
        Rule::Encoder => Some("model.encoder."@),
        _ => None,
    }
}

/// The prefix of the tensors that a rule is about; without one it is about all.
pub fn prefix_of(r: Rule) -> (p: Option<&'static str>)
    ensures
        names::text_of(p) == rule_prefix(r),
{
    match r {
        Rule::Flow => Some("net.cfm."),
        Rule::Regulator => Some("net.length_regulator."),
        Rule::Generator => Some("generator."),
        Rule::Encoder => Some("model.encoder."),
        _ => None,
    }
}

/// Entries, if there are any.
pub open spec fn if_any(v: Seq<(Seq<char>, Source)>) -> Option<Seq<(Seq<char>, Source)>> {
    if v.len() > 0 {
        Some(v)
    } else {
        None
    }
}

/// The tensors that a rule reads of a checkpoint with these names, and what they are called then.
/// A pickled checkpoint has to have any. The flow and the regulator get the names that the loaders
/// look for; a generator that is not under its prefix is all there is; the encoder keeps its
/// prefix.
pub open spec fn read_by(r: Rule, tuned: bool, all: Seq<Seq<char>>) -> Option<
    Seq<(Seq<char>, Source)>,
> {
    let part = names::selected(all, rule_prefix(r), None);
    let whole = names::selected(all, None, None);
    match r {
        Rule::Flow | Rule::Regulator => match if_any(part) {
            Some(v) => Some(names::for_loaders(v, tuned)),
            None => None,
        },
        Rule::Generator => if part.len() > 0 {
            Some(part)
        } else {
            if_any(whole)
        },
        Rule::Encoder => Some(names::under(all, rule_prefix(r)->0)),
        Rule::Pickle | Rule::Hubert => if_any(whole),
        _ => Some(whole),
    }
}

/// Selects the tensors that a rule reads of a checkpoint with these names, for a tuned checkpoint
/// or a published one.
pub fn select_for(r: Rule, tuned: bool, all: &Vec<String>) -> (v: Option<Vec<Entry>>)
    ensures
        match v {
            Some(e) => read_by(r, tuned, scan::texts(all@)) == Some(names::entries(e@)),
            None => read_by(r, tuned, scan::texts(all@)) is None,
        },
{
    match r {
        Rule::Flow | Rule::Regulator => match names::select_pickled(all, prefix_of(r)) {
            Some(v) => Some(names::rename_for_loaders(&v, tuned)),
            None => None,
        },
        Rule::Generator => match names::select_pickled(all, prefix_of(r)) {
            Some(v) => Some(v),
            None => names::select_pickled(all, None),
        },
        Rule::Encoder => Some(names::select_under(all, "model.encoder.")),
        Rule::Pickle | Rule::Hubert => names::select_pickled(all, None),
        _ => Some(names::select(all, None, None)),
    }
}

/// A file to fetch and convert.
pub struct Step {
    /// Where it comes from.
    pub origin: Origin,
    /// How it is converted.
    pub rule: Rule,
    /// What the result is called.
    pub out: String,
}

/// [`Origin`] as a statement about it sees it.
pub enum Place {
    /// A file of a repository.
    Hub(Seq<char>, Seq<char>),
    /// A file on disk.
    Local(Seq<char>),
    /// A file on the web.
    Web(Seq<char>),
}

impl Origin {
    /// The origin as a statement about it sees it.
    pub open spec fn view(&self) -> Place {
        match self {
            Origin::Hub { repo, file } => Place::Hub(repo@, file@),
            Origin::Local(p) => Place::Local(p@),
            Origin::Web(u) => Place::Web(u@),
        }
    }
}

/// Steps as a statement about them sees them.
pub open spec fn tasks(v: Seq<Step>) -> Seq<(Place, Rule, Seq<char>)> {
    Seq::new(v.len(), |i: int| (v[i].origin@, v[i].rule, v[i].out@))
}

/// Pairs of names as a statement about them sees them.
pub open spec fn pairs(v: Seq<(String, String)>) -> Seq<(Seq<char>, Seq<char>)> {
    Seq::new(v.len(), |i: int| (v[i].0@, v[i].1@))
}

/// Appends a step.
fn add_step(v: &mut Vec<Step>, origin: Origin, rule: Rule, out: String)
    ensures
        tasks(final(v)@) == tasks(old(v)@).push((origin@, rule, out@)),
{
    let ghost before = tasks(v@);
    v.push(Step { origin, rule, out });
    assert(tasks(v@) =~= before.push((origin@, rule, out@)));
}

/// Everything that is done for the Seed-VC engine.
pub struct SeedvcPlan {
    /// The files to fetch and convert.
    pub steps: Vec<Step>,
    /// The files to copy, from name to name, where the first is there and the second is not.
    pub copies: Vec<(String, String)>,
}

/// Where the tuned parts come from: the given checkpoint, or the published one.
pub open spec fn main_place(from_pth: Option<Seq<char>>) -> Place {
    match from_pth {
        Some(p) => Place::Local(p),
        None => Place::Hub(
            "Plachta/Seed-VC"@,
            "DiT_seed_v2_uvit_whisper_small_wavenet_bigvgan_pruned.pth"@,
        ),
    }
}

/// The files that are fetched and converted for the Seed-VC engine. A tuned checkpoint replaces
/// the flow and the regulator; the other parts are never tuned.
pub open spec fn seedvc_tasks(from_pth: Option<Seq<char>>, prefix: Seq<char>) -> Seq<
    (Place, Rule, Seq<char>),
> {
    let tuned = seq![
        (main_place(from_pth), Rule::Flow, prefix + "_dit.safetensors"@),
        (main_place(from_pth), Rule::Regulator, prefix + "_regulator.safetensors"@),
    ];
    if from_pth is Some {
        tuned
    } else {
        tuned + seq![
            (
                Place::Hub("funasr/campplus"@, "campplus_cn_common.bin"@),
                Rule::Pickle,
                "seedvc_campplus.safetensors"@,
            ),
            (
                Place::Hub("nvidia/bigvgan_v2_22khz_80band_256x"@, "bigvgan_generator.pt"@),
                Rule::Generator,
                "seedvc_bigvgan.safetensors"@,
            ),
            (
                Place::Hub("openai/whisper-small"@, "model.safetensors"@),
                Rule::Encoder,
                "seedvc_whisper.safetensors"@,
            ),
        ]
    }
}

/// The files that are copied for a tuned checkpoint, so that it has a complete set of its own.
pub open spec fn seedvc_copies(from_pth: Option<Seq<char>>, prefix: Seq<char>) -> Seq<
    (Seq<char>, Seq<char>),
> {
    if from_pth is Some {
        seq![
            ("seedvc_campplus.safetensors"@, prefix + "_campplus.safetensors"@),
            ("seedvc_bigvgan.safetensors"@, prefix + "_bigvgan.safetensors"@),
            ("seedvc_whisper.safetensors"@, prefix + "_whisper.safetensors"@),
        ]
    } else {
        seq![]
    }
}

/// Where the tuned parts come from.
fn main_origin(from_pth: &Option<String>) -> (o: Origin)
    ensures
        o@ == main_place(crate::fetch::args::text_of(*from_pth)),
{
    match from_pth {
        Some(p) => Origin::Local(p.clone()),
        None => Origin::Hub {
            repo: "Plachta/Seed-VC",
            file: "DiT_seed_v2_uvit_whisper_small_wavenet_bigvgan_pruned.pth",
        },
    }
}

/// Everything that is done for the Seed-VC engine.
pub fn fetch_seedvc(from_pth: &Option<String>, out_prefix: &str) -> (p: SeedvcPlan)
    ensures
        tasks(p.steps@) == seedvc_tasks(crate::fetch::args::text_of(*from_pth), out_prefix@),
        pairs(p.copies@) == seedvc_copies(crate::fetch::args::text_of(*from_pth), out_prefix@),
{
    let ghost from = crate::fetch::args::text_of(*from_pth);
    let mut steps: Vec<Step> = Vec::new();
    let mut copies: Vec<(String, String)> = Vec::new();
    add_step(
        &mut steps,
        main_origin(from_pth),
        Rule::Flow,
        text::joined(out_prefix, "_dit.safetensors"),
    );
    add_step(
        &mut steps,
        main_origin(from_pth),
        Rule::Regulator,
        text::joined(out_prefix, "_regulator.safetensors"),
    );
    if from_pth.is_some() {
        copies.push(
            (
                String::from_str("seedvc_campplus.safetensors"),
                text::joined(out_prefix, "_campplus.safetensors"),
            ),
        );
        copies.push(
            (
                String::from_str("seedvc_bigvgan.safetensors"),
                text::joined(out_prefix, "_bigvgan.safetensors"),
            ),
        );
        copies.push(
            (
                String::from_str("seedvc_whisper.safetensors"),
                text::joined(out_prefix, "_whisper.safetensors"),
            ),
        );
    } else {
        add_step(
            &mut steps,
            Origin::Hub { repo: "funasr/campplus", file: "campplus_cn_common.bin" },
            Rule::Pickle,
            String::from_str("seedvc_campplus.safetensors"),
        );
        add_step(
            &mut steps,
            Origin::Hub {
                repo: "nvidia/bigvgan_v2_22khz_80band_256x",
                file: "bigvgan_generator.pt",
            },
            Rule::Generator,
            String::from_str("seedvc_bigvgan.safetensors"),
        );
        add_step(
            &mut steps,
            Origin::Hub { repo: "openai/whisper-small", file: "model.safetensors" },
            Rule::Encoder,
            String::from_str("seedvc_whisper.safetensors"),
        );
    }
    assert(tasks(steps@) =~= seedvc_tasks(from, out_prefix@));
    assert(pairs(copies@) =~= seedvc_copies(from, out_prefix@));
    SeedvcPlan { steps, copies }
}

/// Whether a file is copied.
pub fn copy_needed(source_exists: bool, target_exists: bool) -> (b: bool)
    ensures
        b == (source_exists && !target_exists),
{
    source_exists && !target_exists
}

/// The files of an engine, of the parts of a set.
pub open spec fn part_name(k: int) -> Seq<char> {
    if k == 0 {
        "_dit.safetensors"@
    } else if k == 1 {
        "_regulator.safetensors"@
    } else if k == 2 {
        "_campplus.safetensors"@
    } else if k == 3 {
        "_bigvgan.safetensors"@
    } else {
        "_whisper.safetensors"@
    }
}

/// Converting a tuned checkpoint gives a complete set under its prefix: each of the five parts is
/// either converted or copied to a name that starts with the prefix.
pub proof fn law_tuned_set_is_complete(from_pth: Seq<char>, prefix: Seq<char>, k: int)
    requires
        0 <= k < 5,
    ensures
        ({
            let done = seedvc_tasks(Some(from_pth), prefix);
            let copied = seedvc_copies(Some(from_pth), prefix);
            ||| exists|i: int| 0 <= i < done.len() && (#[trigger] done[i]).2 == prefix + part_name(k)
            ||| exists|i: int|
                0 <= i < copied.len() && (#[trigger] copied[i]).1 == prefix + part_name(k)
        }),
{
    let done = seedvc_tasks(Some(from_pth), prefix);
    let copied = seedvc_copies(Some(from_pth), prefix);
    if k < 2 {
        assert(done[k].2 == prefix + part_name(k));
    } else {
        assert(copied[k - 2].1 == prefix + part_name(k));
    }
}

/// A tuned checkpoint under a prefix of its own leaves the files of the published one alone: what
/// it writes and what it copies from have different names.
pub proof fn law_tuned_set_does_not_clobber(
    from_pth: Seq<char>,
    prefix: Seq<char>,
    i: int,
    j: int,
)
    requires
        prefix != "seedvc"@,
        0 <= i < 3,
        0 <= j < 3,
    ensures
        seedvc_copies(Some(from_pth), prefix)[i].0 != seedvc_copies(Some(from_pth), prefix)[j].1,
{
    reveal_strlit("seedvc");
    reveal_strlit("seedvc_campplus.safetensors");
    reveal_strlit("seedvc_bigvgan.safetensors");
    reveal_strlit("seedvc_whisper.safetensors");
    reveal_strlit("_campplus.safetensors");
    reveal_strlit("_bigvgan.safetensors");
    reveal_strlit("_whisper.safetensors");
    let a = seedvc_copies(Some(from_pth), prefix)[i].0;
    let b = seedvc_copies(Some(from_pth), prefix)[j].1;
    if a == b {
        if i == j {
            if i == 0 {
                assert(a.len() == 27 && b.len() == prefix.len() + 21);
            } else if i == 1 {
                assert(a.len() == 26 && b.len() == prefix.len() + 20);
            } else {
                assert(a.len() == 26 && b.len() == prefix.len() + 20);
            }
            assert(prefix =~= b.take(6));
            assert(a.take(6) =~= "seedvc"@);
        } else {
            assert(a[a.len() - 13] == b[b.len() - 13]);
        }
    }
}

/// The files that are fetched and converted for the Vevo engine.
pub open spec fn vevo_tasks() -> Seq<(Place, Rule, Seq<char>)> {
    seq![
        (
            Place::Web(
                "https://download.pytorch.org/torchaudio/models/hubert_fairseq_large_ll60k.pth"@,
            ),
            Rule::Hubert,
            "vevo_hubert.safetensors"@,
        ),
        (
            Place::Web(
                "https://raw.githubusercontent.com/open-mmlab/Amphion/main/models/vc/vevo/config/hubert_large_l18_mean_std.npz"@,
            ),
            Rule::Stats,
            "vevo_hubert_stats.safetensors"@,
        ),
        (
            Place::Hub("amphion/Vevo"@, "tokenizer/vq8192/model.safetensors"@),
            Rule::Tokenizer,
            "vevo_repcodec.safetensors"@,
        ),
        (
            Place::Hub("amphion/Vevo"@, "acoustic_modeling/Vq8192ToMels/model.safetensors"@),
            Rule::All,
            "vevo_fmt.safetensors"@,
        ),
        (
            Place::Hub("amphion/Vevo"@, "acoustic_modeling/Vocoder/model.safetensors"@),
            Rule::All,
            "vevo_vocos.safetensors"@,
        ),
    ]
}

/// The files that are fetched and converted for the Vevo engine.
pub fn fetch_vevo() -> (v: Vec<Step>)
    ensures
        tasks(v@) == vevo_tasks(),
{
    let mut v: Vec<Step> = Vec::new();
    add_step(
        &mut v,
        Origin::Web("https://download.pytorch.org/torchaudio/models/hubert_fairseq_large_ll60k.pth"),
        Rule::Hubert,
        String::from_str("vevo_hubert.safetensors"),
    );
    add_step(
        &mut v,
        Origin::Web(
            "https://raw.githubusercontent.com/open-mmlab/Amphion/main/models/vc/vevo/config/hubert_large_l18_mean_std.npz",
        ),
        Rule::Stats,
        String::from_str("vevo_hubert_stats.safetensors"),
    );
    add_step(
        &mut v,
        Origin::Hub { repo: "amphion/Vevo", file: "tokenizer/vq8192/model.safetensors" },
        Rule::Tokenizer,
        String::from_str("vevo_repcodec.safetensors"),
    );
    add_step(
        &mut v,
        Origin::Hub {
            repo: "amphion/Vevo",
            file: "acoustic_modeling/Vq8192ToMels/model.safetensors",
        },
        Rule::All,
        String::from_str("vevo_fmt.safetensors"),
    );
    add_step(
        &mut v,
        Origin::Hub {
            repo: "amphion/Vevo",
            file: "acoustic_modeling/Vocoder/model.safetensors",
        },
        Rule::All,
        String::from_str("vevo_vocos.safetensors"),
    );
    assert(tasks(v@) =~= vevo_tasks());
    v
}

} // verus!
