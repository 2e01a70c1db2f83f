//! The command line of the fetch program.

use vstd::prelude::*;
use vstd::string::StringExecFns;
use crate::scan;

verus! {

/// What the command line asks for.
pub struct Options {
    /// The engine.
    pub cmd: Option<String>,
    /// The directory of the checkpoints.
    pub ckpt_dir: Option<String>,
    /// Whether questions are answered with yes.
    pub yes: bool,
    /// A checkpoint on disk to convert in place of the published one.
    pub from_pth: Option<String>,
    /// What the names of the converted files start with.
    pub out_prefix: String,
}

/// [`Options`] as a statement about them sees them.
pub struct Settings {
    /// The engine.
    pub cmd: Option<Seq<char>>,
    /// The directory of the checkpoints.
    pub ckpt_dir: Option<Seq<char>>,
    /// Whether questions are answered with yes.
    pub yes: bool,
    /// A checkpoint on disk.
    pub from_pth: Option<Seq<char>>,
    /// What the names of the converted files start with.
    pub out_prefix: Seq<char>,
}

/// The view of an optional text.
pub open spec fn text_of(s: Option<String>) -> Option<Seq<char>> {
    match s {
        Some(t) => Some(t@),
        None => None,
    }
}

impl Options {
    /// The options as a statement about them sees them.
    pub open spec fn view(&self) -> Settings {
        Settings {
            cmd: text_of(self.cmd),
            ckpt_dir: text_of(self.ckpt_dir),
            yes: self.yes,
            from_pth: text_of(self.from_pth),
            out_prefix: self.out_prefix@,
        }
    }
}

/// What a command line comes to.
pub enum Parsed {
    /// It asks for help.
    Help,
    /// It asks for a run.
    Run(Options),
}

/// What is wrong with a command line.
pub enum ArgError {
    /// An argument that takes a value stands last; this is its usage.
    Missing(String),
    /// An argument that is not known.
    Unknown(String),
}

/// What a command line comes to, as a statement about it sees it.
pub enum Outcome {
    /// Help.
    Help,
    /// A run.
    Run(Settings),
    /// A value is missing.
    Missing(Seq<char>),
    /// An argument is not known.
    Unknown(Seq<char>),
}

/// The result of a parse as a statement about it sees it.
pub open spec fn outcome(r: Result<Parsed, ArgError>) -> Outcome {
    match r {
        Ok(Parsed::Help) => Outcome::Help,
        Ok(Parsed::Run(o)) => Outcome::Run(o@),
        Err(ArgError::Missing(m)) => Outcome::Missing(m@),
        Err(ArgError::Unknown(a)) => Outcome::Unknown(a@),
    }
}

/// The options before the first argument.
pub open spec fn initial() -> Settings {
    Settings { cmd: None, ckpt_dir: None, yes: false, from_pth: None, out_prefix: "seedvc"@ }
}

/// What the arguments `args` make of the options `st`: they are taken from left to right, and the
/// first one that asks for help or is wrong decides.
pub open spec fn taken(st: Settings, args: Seq<Seq<char>>) -> Outcome
    decreases args.len(),
{
    if args.len() == 0 {
        Outcome::Run(st)
    } else {
        let a = args[0];
        let rest = args.skip(1);
        if a == "--ckpt-dir"@ {
            if rest.len() == 0 {
                Outcome::Missing("--ckpt-dir <dir>"@)
            } else {
                taken(Settings { ckpt_dir: Some(rest[0]), ..st }, rest.skip(1))
            }
        } else if a == "--yes"@ || a == "-y"@ {
            taken(Settings { yes: true, ..st }, rest)
        } else if a == "--from-pth"@ {
            if rest.len() == 0 {
                Outcome::Missing("--from-pth <ft_model.pth>"@)
            } else {
                taken(Settings { from_pth: Some(rest[0]), ..st }, rest.skip(1))
            }
        } else if a == "--out-prefix"@ {
            if rest.len() == 0 {
                Outcome::Missing("--out-prefix <name>"@)
            } else {
                taken(Settings { out_prefix: rest[0], ..st }, rest.skip(1))
            }
        } else if a == "--help"@ || a == "-h"@ {
            Outcome::Help
        } else if st.cmd is None && !scan::begins(a, "-"@) {
            taken(Settings { cmd: Some(a), ..st }, rest)
        } else {
            Outcome::Unknown(a)
        }
    }
}

/// Reads the command line, without the name of the program.
pub fn parse(args: &Vec<String>) -> (r: Result<Parsed, ArgError>)
    ensures
        outcome(r) == taken(initial(), scan::texts(args@)),
{
    let mut o: Options = Options {
        cmd: None,
        ckpt_dir: None,
        yes: false,
        from_pth: None,
        out_prefix: String::from_str("seedvc"),
    };
    let ghost all = scan::texts(args@);
    let mut i: usize = 0;
    assert(all.skip(0) =~= all);
    while i < args.len()
        invariant
            all == scan::texts(args@),
            i <= args.len(),
            taken(o@, all.skip(i as int)) == taken(initial(), all),
        decreases args.len() - i,
    {
        let a: &str = args[i].as_str();
        let ghost left = all.skip(i as int);
        assert(left[0] == a@);
        assert(left.skip(1) =~= all.skip(i + 1));
        i = i + 1;
        let ghost rest = all.skip(i as int);
        if i < args.len() {
            assert(rest[0] == args@[i as int]@);
            assert(rest.skip(1) =~= all.skip(i + 1));
        }
        if scan::same(a, "--ckpt-dir") {
            if i >= args.len() {
                return Err(ArgError::Missing(String::from_str("--ckpt-dir <dir>")));
            }
            o.ckpt_dir = Some(args[i].clone());
            i = i + 1;
        } else if scan::same(a, "--yes") || scan::same(a, "-y") {
            o.yes = true;
        } else if scan::same(a, "--from-pth") {
            if i >= args.len() {
                return Err(ArgError::Missing(String::from_str("--from-pth <ft_model.pth>")));
            }
            o.from_pth = Some(args[i].clone());
            i = i + 1;
        } else if scan::same(a, "--out-prefix") {
            if i >= args.len() {
                return Err(ArgError::Missing(String::from_str("--out-prefix <name>")));
            }
            o.out_prefix = args[i].clone();
            i = i + 1;
        } else if scan::same(a, "--help") || scan::same(a, "-h") {
            return Ok(Parsed::Help);
        } else if o.cmd.is_none() && !scan::starts_with(a, "-") {
            o.cmd = Some(String::from_str(a));
        } else {
            return Err(ArgError::Unknown(String::from_str(a)));
        }
    }
    assert(all.skip(i as int) =~= seq![]);
    Ok(Parsed::Run(o))
}

/// The engines whose checkpoints can be fetched.
#[derive(Debug, Clone, Copy, PartialEq, Eq, Structural)]
pub enum Engine {
    /// Seed-VC.
    Seedvc,
    /// Vevo.
    Vevo,
}

/// Why no engine is meant.
pub enum EngineError {
    /// The engine is not known.
    Unknown(String),
    /// No engine was named.
    Usage,
}

/// The engine that is meant.
pub fn engine(cmd: &Option<String>) -> (r: Result<Engine, EngineError>)
    ensures
        match text_of(*cmd) {
            Some(c) => if c == "seedvc"@ {
                r == Ok::<Engine, EngineError>(Engine::Seedvc)
            } else if c == "vevo"@ {
                r == Ok::<Engine, EngineError>(Engine::Vevo)
            } else {
                r is Err && r->Err_0 is Unknown && r->Err_0->Unknown_0@ == c
            },
            None => r == Err::<Engine, EngineError>(EngineError::Usage),
        },
{
    match cmd {
        Some(c) => {
            if scan::same(c.as_str(), "seedvc") {
                Ok(Engine::Seedvc)
            } else if scan::same(c.as_str(), "vevo") {
                Ok(Engine::Vevo)
            } else {
                Err(EngineError::Unknown(c.clone()))
            }
        },
        None => Err(EngineError::Usage),
    }
}

/// Whether the answer `line` to a question means yes.
pub fn accepted(line: &str) -> (b: bool)
    ensures
        b == ({
            let t = scan::trimmed(line@);
            t == "y"@ || t == "Y"@ || t == "yes"@
        }),
{
    let t: String = scan::trim(line);
    scan::same(t.as_str(), "y") || scan::same(t.as_str(), "Y") || scan::same(t.as_str(), "yes")
}

/// An argument that asks for help answers whatever follows it.
pub proof fn law_help_ends_the_line(st: Settings, rest: Seq<Seq<char>>)
    ensures
        taken(st, seq!["--help"@] + rest) is Help,
        taken(st, seq!["-h"@] + rest) is Help,
{
    reveal_strlit("--help");
    reveal_strlit("-h");
    reveal_strlit("--ckpt-dir");
    reveal_strlit("--yes");
    reveal_strlit("-y");
    reveal_strlit("--from-pth");
    reveal_strlit("--out-prefix");
    assert((seq!["--help"@] + rest)[0] == "--help"@);
    assert((seq!["-h"@] + rest)[0] == "-h"@);
    assert("--help"@[2] != "--yes"@[2]);
    assert("-h"@[1] != "-y"@[1]);
    assert("--help"@.len() == 6);
    assert("-h"@.len() == 2);
}

} // verus!
