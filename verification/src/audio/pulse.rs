//! The Linux backend: the modules of the sound server that make up the virtual microphone.
//!
//! The virtual microphone is a null sink whose monitor is remapped into a source. The modules
//! that this program loads are unloaded in reverse; what a killed run left behind is found in the
//! server's listing at the next start.

use vstd::prelude::*;
use vstd::string::StringExecFns;
use crate::audio::cpal_backend::BackendOptions;
use crate::scan;

verus! {

/// The sink that the converted voice plays into.
pub const SINK: &'static str = "babiniku";

/// The virtual microphone.
pub const VIRT_MIC: &'static str = "babiniku_mic";

/// The source behind the noise suppression.
pub const DENOISED_SRC: &'static str = "babiniku_denoised";

/// The module that provides the sink.
pub open spec fn null_sink() -> Seq<Seq<char>> {
    seq![
        "module-null-sink"@,
        "sink_name=babiniku"@,
        "sink_properties=device.description=Babiniku-Output"@,
    ]
}

/// The module that provides the virtual microphone.
pub open spec fn remapped_source() -> Seq<Seq<char>> {
    seq![
        "module-remap-source"@,
        "source_name=babiniku_mic"@,
        "master=babiniku.monitor"@,
        "source_properties=device.description=Babiniku-Virtual-Mic"@,
    ]
}

/// The module that plays the converted voice to the user.
pub open spec fn loopback() -> Seq<Seq<char>> {
    seq!["module-loopback"@, "source=babiniku.monitor"@, "latency_msec=60"@]
}

/// The module that suppresses noise, in front of the microphone `master` or the default one.
pub open spec fn noise_suppression(master: Option<Seq<char>>) -> Seq<Seq<char>> {
    let fixed = seq![
        "module-echo-cancel"@,
        "source_name=babiniku_denoised"@,
        "aec_method=webrtc"@,
        "source_properties=device.description=Babiniku-Denoised-Input"@,
    ];
    match master {
        Some(m) => fixed.push("source_master="@ + m),
        None => fixed,
    }
}

/// The module that provides the sink, as the arguments of a command that loads it.
pub fn null_sink_args() -> (v: Vec<String>)
    ensures
        scan::texts(v@) == null_sink(),
{
    let mut v: Vec<String> = Vec::new();
    v.push(String::from_str("module-null-sink"));
    v.push(String::from_str("sink_name=babiniku"));
    v.push(String::from_str("sink_properties=device.description=Babiniku-Output"));
    assert(scan::texts(v@) =~= null_sink());
    v
}

/// The module that provides the virtual microphone, as the arguments of a command that loads it.
pub fn remap_source_args() -> (v: Vec<String>)
    ensures
        scan::texts(v@) == remapped_source(),
{
    let mut v: Vec<String> = Vec::new();
    v.push(String::from_str("module-remap-source"));
    v.push(String::from_str("source_name=babiniku_mic"));
    v.push(String::from_str("master=babiniku.monitor"));
    v.push(String::from_str("source_properties=device.description=Babiniku-Virtual-Mic"));
    assert(scan::texts(v@) =~= remapped_source());
    v
}

/// The module that plays the converted voice to the user, as the arguments of a command that
/// loads it.
pub fn loopback_args() -> (v: Vec<String>)
    ensures
        scan::texts(v@) == loopback(),
{
    let mut v: Vec<String> = Vec::new();
    v.push(String::from_str("module-loopback"));
    v.push(String::from_str("source=babiniku.monitor"));
    v.push(String::from_str("latency_msec=60"));
    assert(scan::texts(v@) =~= loopback());
    v
}

/// The module that suppresses noise, as the arguments of a command that loads it.
pub fn noise_suppression_args(master: Option<&str>) -> (v: Vec<String>)
    ensures
        scan::texts(v@) == noise_suppression(
            match master {
                Some(m) => Some(m@),
                None => None,
            },
        ),
{
    let mut v: Vec<String> = Vec::new();
    v.push(String::from_str("module-echo-cancel"));
    v.push(String::from_str("source_name=babiniku_denoised"));
    v.push(String::from_str("aec_method=webrtc"));
    v.push(String::from_str("source_properties=device.description=Babiniku-Denoised-Input"));
    match master {
        Some(m) => {
            let mut s: String = String::from_str("source_master=");
            s.append(m);
            v.push(s);
            assert(scan::texts(v@) =~= noise_suppression(Some(m@)));
        },
        None => {
            assert(scan::texts(v@) =~= noise_suppression(None));
        },
    }
    v
}

/// What the user is told once the virtual microphone is there.
pub fn virtual_mic_status() -> (s: &'static str)
    ensures
        s@
            == "virtual mic \"babiniku_mic\" is live — select \"Babiniku-Virtual-Mic\" in your app"@,
{
    "virtual mic \"babiniku_mic\" is live — select \"Babiniku-Virtual-Mic\" in your app"
}

/// What to do when the user toggles the monitor.
pub enum MonitorStep {
    /// Unload the module with this id.
    Unload(String),
    /// Load the module of [`loopback_args`].
    Load,
}

/// The modules of the sound server that this program has loaded.
pub struct PulseBackend {
    /// Ids in the order of loading.
    pub modules: Vec<String>,
    /// The id of the monitor while it is on.
    pub monitor: Option<String>,
}

impl PulseBackend {
    /// A backend that has loaded nothing. An output device makes no difference here: the converted
    /// voice always plays into the sink.
    pub fn new(opts: BackendOptions) -> (b: Self)
        ensures
            b.modules@ == Seq::<String>::empty(),
            b.monitor is None,
    {
        PulseBackend { modules: Vec::new(), monitor: None }
    }

    /// The name of the backend.
    pub fn name(&self) -> (s: &'static str)
        ensures
            s@ == "pulse"@,
    {
        "pulse"
    }

    /// Notes a module by what the command that loaded it printed: its id, with white space around.
    pub fn loaded(&mut self, printed: &str)
        ensures
            scan::texts(final(self).modules@) == scan::texts(old(self).modules@).push(scan::trimmed(printed@)),
            final(self).monitor == old(self).monitor,
    {
        let ghost before = self.modules@;
        self.modules.push(scan::trim(printed));
        assert(scan::texts(self.modules@) =~= scan::texts(before).push(scan::trimmed(printed@)));
    }

    /// The modules to unload, last loaded first; they are forgotten.
    pub fn destroy_virtual_mic(&mut self) -> (ids: Vec<String>)
        ensures
            scan::texts(ids@) == scan::texts(old(self).modules@).reverse(),
            final(self).modules@ == Seq::<String>::empty(),
            final(self).monitor == old(self).monitor,
    {
        let mut ids: Vec<String> = Vec::new();
        let ghost all = self.modules@;
        while self.modules.len() > 0
            invariant
                ids.len() + self.modules.len() == all.len(),
                self.modules@ == all.take(self.modules.len() as int),
                self.monitor == old(self).monitor,
                forall|k: int| 0 <= k < ids.len() ==> (#[trigger] ids@[k])@ == all[all.len() - 1 - k]@,
            decreases self.modules.len(),
        {
            match self.modules.pop() {
                Some(m) => {
                    ids.push(m);
                    assert(self.modules@ =~= all.take(self.modules.len() as int));
                },
                None => {},
            }
        }
        assert(scan::texts(ids@) =~= scan::texts(all).reverse());
        assert(self.modules@ =~= Seq::<String>::empty());
        ids
    }

    /// What to do when the user toggles the monitor. One that is on is forgotten.
    pub fn toggle_monitor(&mut self) -> (step: MonitorStep)
        ensures
            final(self).modules == old(self).modules,
            final(self).monitor is None,
            match old(self).monitor {
                Some(id) => step == MonitorStep::Unload(id),
                None => step is Load,
            },
    {
        let slot: Option<String> = self.monitor.take();
        match slot {
            Some(id) => MonitorStep::Unload(id),
            None => MonitorStep::Load,
        }
    }

    /// Notes the monitor by what the command that loaded it printed.
    pub fn monitor_loaded(&mut self, printed: &str)
        ensures
            final(self).modules == old(self).modules,
            final(self).monitor is Some,
            final(self).monitor->0@ == scan::trimmed(printed@),
    {
        self.monitor = Some(scan::trim(printed));
    }

    /// The module of the monitor, to be unloaded, where it is on; it is forgotten.
    pub fn monitor_off(&mut self) -> (id: Option<String>)
        ensures
            id == old(self).monitor,
            final(self).monitor is None,
            final(self).modules == old(self).modules,
    {
        self.monitor.take()
    }
}

/// The sizes of a capture buffer in bytes: two seconds of slack, fragments of one chunk.
pub struct CaptureBuffer {
    /// The most that the server keeps.
    pub maxlength: u32,
    /// What the server sends at once.
    pub fragsize: u32,
}

/// The sizes of a capture buffer for samples of four bytes.
pub fn capture_buffer(rate: u32, chunk_samples: usize) -> (b: CaptureBuffer)
    requires
        rate * 8 <= u32::MAX,
        chunk_samples * 4 <= u32::MAX,
    ensures
        b.maxlength == rate * 8,
        b.fragsize == chunk_samples * 4,
{
    CaptureBuffer { maxlength: rate * 4 * 2, fragsize: (chunk_samples * 4) as u32 }
}

/// The second column of a line, where it has one.
pub open spec fn second_column(line: Seq<char>) -> Option<Seq<char>> {
    match scan::cut(line, '\t').1 {
        Some(rest) => Some(scan::cut(rest, '\t').0),
        None => None,
    }
}

/// The second columns of the lines that have one.
pub open spec fn second_columns(lines: Seq<Seq<char>>) -> Seq<Seq<char>>
    decreases lines.len(),
{
    if lines.len() == 0 {
        seq![]
    } else {
        let front = second_columns(lines.drop_last());
        match second_column(lines.last()) {
            Some(c) => front.push(c),
            None => front,
        }
    }
}

/// The device names of the server's short listing.
pub fn device_names(listing: &str) -> (v: Vec<String>)
    ensures
        scan::texts(v@) == second_columns(scan::lines_of(listing@)),
{
    let lines: Vec<&str> = scan::lines(listing);
    let ghost all = scan::views(lines@);
    let mut v: Vec<String> = Vec::new();
    let mut i: usize = 0;
    assert(scan::texts(v@) =~= second_columns(all.take(0)));
    while i < lines.len()
        invariant
            i <= lines.len(),
            all == scan::views(lines@),
            scan::texts(v@) == second_columns(all.take(i as int)),
        decreases lines.len() - i,
    {
        let ghost before = scan::texts(v@);
        assert(all.take(i + 1).drop_last() =~= all.take(i as int));
        let (_, rest) = scan::cut_at(lines[i], '\t');
        match rest {
            Some(r) => {
                let (name, _) = scan::cut_at(r, '\t');
                v.push(String::from_str(name));
                assert(scan::texts(v@) =~= before.push(name@));
            },
            None => {},
        }
        i = i + 1;
    }
    assert(all.take(i as int) =~= all);
    v
}

/// Whether the arguments of a module name one of this program's devices: as a whole word, so that
/// names that merely hold the word are left alone.
pub open spec fn owns(args: Seq<char>) -> bool {
    ||| scan::has_word(args, "sink_name=babiniku"@)
    ||| scan::has_word(args, "source_name=babiniku_mic"@)
    ||| scan::has_word(args, "source_name=babiniku_denoised"@)
    ||| scan::has_word(args, "source=babiniku.monitor"@)
}

/// The id and name of the module in a line of the server's listing, where it is one of ours. A
/// line holds the id, the name and the arguments between tabs.
pub open spec fn stale_module(line: Seq<char>) -> Option<(Seq<char>, Seq<char>)> {
    let (id, rest) = scan::cut(line, '\t');
    match rest {
        Some(r) => {
            let (name, args) = scan::cut(r, '\t');
            match args {
                Some(a) => if owns(a) {
                    Some((scan::trimmed(id), scan::trimmed(name)))
                } else {
                    None
                },
                None => None,
            }
        },
        None => None,
    }
}

/// The modules of the lines that are ours, in their order.
pub open spec fn stale_modules(lines: Seq<Seq<char>>) -> Seq<(Seq<char>, Seq<char>)>
    decreases lines.len(),
{
    if lines.len() == 0 {
        seq![]
    } else {
        let front = stale_modules(lines.drop_last());
        match stale_module(lines.last()) {
            Some(m) => front.push(m),
            None => front,
        }
    }
}

/// The texts of a list of pairs.
pub open spec fn pairs(v: Seq<(String, String)>) -> Seq<(Seq<char>, Seq<char>)> {
    Seq::new(v.len(), |i: int| (v[i].0@, v[i].1@))
}

/// Whether the arguments of a module name one of this program's devices.
fn is_owned(args: &str) -> (b: bool)
    ensures
        b == owns(args@),
{
    scan::contains_word(args, "sink_name=babiniku") || scan::contains_word(
        args,
        "source_name=babiniku_mic",
    ) || scan::contains_word(args, "source_name=babiniku_denoised") || scan::contains_word(
        args,
        "source=babiniku.monitor",
    )
}

/// Ids and names of the modules in the server's listing that own one of this program's devices.
pub fn stale_babiniku_modules(listing: &str) -> (v: Vec<(String, String)>)
    ensures
        pairs(v@) == stale_modules(scan::lines_of(listing@)),
{
    let lines: Vec<&str> = scan::lines(listing);
    let ghost all = scan::views(lines@);
    let mut v: Vec<(String, String)> = Vec::new();
    let mut i: usize = 0;
    assert(pairs(v@) =~= stale_modules(all.take(0)));
    while i < lines.len()
        invariant
            i <= lines.len(),
            all == scan::views(lines@),
            pairs(v@) == stale_modules(all.take(i as int)),
        decreases lines.len() - i,
    {
        let ghost before = pairs(v@);
        assert(all.take(i + 1).drop_last() =~= all.take(i as int));
        let (id, rest) = scan::cut_at(lines[i], '\t');
        if let Some(r) = rest {
            let (name, args) = scan::cut_at(r, '\t');
            if let Some(a) = args {
                if is_owned(a) {
                    v.push((scan::trim(id), scan::trim(name)));
                    assert(pairs(v@) =~= before.push((scan::trimmed(id@), scan::trimmed(name@))));
                }
            }
        }
        i = i + 1;
    }
    assert(all.take(i as int) =~= all);
    v
}

/// What is said about a stale module that was found.
pub open spec fn recovered_text(id: Seq<char>, name: Seq<char>, unloaded: bool) -> Seq<char> {
    "recovered stale "@ + name + " (module "@ + id + ") left by a previous run"@ + (if unloaded {
        ""@
    } else {
        " — unload failed"@
    })
}

/// What is said about a stale module that was found.
pub fn recovered(id: &str, name: &str, unloaded: bool) -> (s: String)
    ensures
        s@ == recovered_text(id@, name@, unloaded),
{
    let mut s: String = String::from_str("recovered stale ");
    s.append(name);
    s.append(" (module ");
    s.append(id);
    s.append(") left by a previous run");
    s.append(if unloaded { "" } else { " — unload failed" });
    s
}

/// The modules of a killed run are unloaded in the reverse of the order in which they were loaded:
/// the list of ids in reverse starts with the module of the last line that is ours.
pub proof fn law_recovery_starts_with_the_last(lines: Seq<Seq<char>>, line: Seq<char>)
    requires
        stale_module(line) is Some,
    ensures
        stale_modules(lines.push(line)).reverse() == seq![stale_module(line)->0] + stale_modules(
            lines,
        ).reverse(),
{
    assert(lines.push(line).drop_last() =~= lines);
    assert(stale_modules(lines.push(line)).reverse() =~= seq![stale_module(line)->0]
        + stale_modules(lines).reverse());
}

/// Every module that this program loads for a device of its own is found after it was killed: a
/// line with its id, its name and its arguments is one of ours.
pub proof fn law_leaked_modules_are_found(id: Seq<char>, module: Seq<Seq<char>>)
    requires
        !id.contains('\t'),
        module == null_sink() || module == remapped_source() || module == loopback() || module
            == noise_suppression(None),
    ensures
        stale_module(id + "\t"@ + module[0] + "\t"@ + spaced(module.skip(1))) == Some(
            (scan::trimmed(id), scan::trimmed(module[0])),
        ),
{
    reveal_strlit("\t");
    reveal_strlit(" ");
    lemma_words();
    let args = spaced(module.skip(1));
    let name = module[0];
    let line = id + "\t"@ + name + "\t"@ + args;
    let rest = name + "\t"@ + args;
    assert(line[id.len() as int] == '\t');
    assert forall|k: int| 0 <= k < id.len() implies #[trigger] line[k] != '\t' by {
        assert(line[k] == id[k]);
        assert(id.contains(id[k]));
    }
    scan::lemma_until(line, '\t', id.len() as int);
    assert(line.take(id.len() as int) =~= id);
    assert(line.skip(id.len() as int + 1) =~= rest);
    assert forall|k: int| 0 <= k < name.len() implies #[trigger] rest[k] != '\t' by {
        assert(rest[k] == name[k]);
    }
    assert(rest[name.len() as int] == '\t');
    scan::lemma_until(rest, '\t', name.len() as int);
    assert(rest.take(name.len() as int) =~= name);
    assert(rest.skip(name.len() as int + 1) =~= args);
    let w = module[1];
    let tail = module.skip(1);
    assert(tail[0] == w);
    lemma_first_word(tail);
}

/// Words with a space between them.
pub open spec fn spaced(words: Seq<Seq<char>>) -> Seq<char>
    decreases words.len(),
{
    if words.len() == 0 {
        seq![]
    } else if words.len() == 1 {
        words[0]
    } else {
        words[0] + " "@ + spaced(words.skip(1))
    }
}

proof fn lemma_first_word(words: Seq<Seq<char>>)
    requires
        words.len() > 0,
    ensures
        scan::has_word(spaced(words), words[0]),
{
    reveal_strlit(" ");
    let s = spaced(words);
    let w = words[0];
    assert(s.subrange(0, w.len() as int) =~= w);
    assert(words.len() > 1 ==> s[w.len() as int] == ' ');
    assert(scan::word_at(s, w, 0));
}

/// No name of a module holds a tab.
proof fn lemma_words()
    ensures
        forall|k: int| 0 <= k < "module-null-sink"@.len() ==> "module-null-sink"@[k] != '\t',
        forall|k: int| 0 <= k < "module-remap-source"@.len() ==> "module-remap-source"@[k] != '\t',
        forall|k: int| 0 <= k < "module-loopback"@.len() ==> "module-loopback"@[k] != '\t',
        forall|k: int| 0 <= k < "module-echo-cancel"@.len() ==> "module-echo-cancel"@[k] != '\t',
{
    reveal_strlit("module-null-sink");
    reveal_strlit("module-remap-source");
    reveal_strlit("module-loopback");
    reveal_strlit("module-echo-cancel");
}

/// The modules of two lists of lines are those of the first and then those of the second.
proof fn lemma_modules_of_both(a: Seq<Seq<char>>, b: Seq<Seq<char>>)
    ensures
        stale_modules(a + b) == stale_modules(a) + stale_modules(b),
    decreases b.len(),
{
    if b.len() == 0 {
        assert(a + b =~= a);
        assert(stale_modules(a) + stale_modules(b) =~= stale_modules(a));
    } else {
        assert((a + b).drop_last() =~= a + b.drop_last());
        lemma_modules_of_both(a, b.drop_last());
        assert(stale_modules(a + b) =~= stale_modules(a) + stale_modules(b));
    }
}

/// A carriage return behind a text is in no word and adds none.
proof fn lemma_word_before_return(s: Seq<char>, w: Seq<char>)
    requires
        w.len() > 0,
        w.last() != '\r',
    ensures
        scan::has_word(s.push('\r'), w) == scan::has_word(s, w),
{
    let t = s.push('\r');
    if scan::has_word(s, w) {
        let i = choose|i: int| #[trigger] scan::word_at(s, w, i);
        assert(t.subrange(i, i + w.len()) =~= s.subrange(i, i + w.len()));
        assert(scan::word_at(t, w, i));
    }
    if scan::has_word(t, w) {
        let i = choose|i: int| #[trigger] scan::word_at(t, w, i);
        if i + w.len() == t.len() {
            assert(t.subrange(i, i + w.len()).last() == '\r');
        }
        assert(t.subrange(i, i + w.len()) =~= s.subrange(i, i + w.len()));
        assert(scan::word_at(s, w, i));
    }
}

/// A carriage return behind a text that does not end it is kept where the text is cut.
proof fn lemma_cut_before_return(s: Seq<char>)
    ensures
        scan::cut(s.push('\r'), '\t').1 is Some <==> scan::cut(s, '\t').1 is Some,
        scan::cut(s, '\t').1 is Some ==> scan::cut(s.push('\r'), '\t') == (
            scan::cut(s, '\t').0,
            Some(scan::cut(s, '\t').1->0.push('\r')),
        ),
{
    let t = s.push('\r');
    let i = scan::until(s, '\t') as int;
    scan::lemma_until_found(s, '\t');
    if i < s.len() {
        scan::lemma_until(t, '\t', i);
        assert(t.take(i) =~= s.take(i));
        assert(t.skip(i + 1) =~= s.skip(i + 1).push('\r'));
    } else {
        scan::lemma_until(t, '\t', t.len() as int);
    }
}

/// A carriage return at the end of a line does not matter.
proof fn lemma_return_does_not_matter(line: Seq<char>)
    ensures
        stale_module(scan::chomped(line)) == stale_module(line),
{
    if line.len() > 0 && line.last() == '\r' {
        let s = line.drop_last();
        assert(s.push('\r') =~= line);
        lemma_cut_before_return(s);
        if scan::cut(s, '\t').1 is Some {
            let r = scan::cut(s, '\t').1->0;
            lemma_cut_before_return(r);
            if scan::cut(r, '\t').1 is Some {
                let args = scan::cut(r, '\t').1->0;
                reveal_strlit("sink_name=babiniku");
                reveal_strlit("source_name=babiniku_mic");
                reveal_strlit("source_name=babiniku_denoised");
                reveal_strlit("source=babiniku.monitor");
                lemma_word_before_return(args, "sink_name=babiniku"@);
                lemma_word_before_return(args, "source_name=babiniku_mic"@);
                lemma_word_before_return(args, "source_name=babiniku_denoised"@);
                lemma_word_before_return(args, "source=babiniku.monitor"@);
            }
        }
    }
}

/// Every line is judged on its own and the order of the listing is kept: two listings with a line
/// feed between them give what the first gives and then what the second gives.
pub proof fn law_listings_are_judged_line_by_line(a: Seq<char>, b: Seq<char>)
    ensures
        stale_modules(scan::lines_of(a + seq!['\n'] + b)) == stale_modules(scan::lines_of(a))
            + stale_modules(scan::lines_of(b)),
    decreases a.len(),
{
    let s = a + seq!['\n'] + b;
    let i = scan::until(a, '\n') as int;
    scan::lemma_until_found(a, '\n');
    scan::lemma_until(s, '\n', i);
    assert(s.take(i) =~= a.take(i));
    if i < a.len() {
        let rest = a.skip(i + 1);
        assert(s.skip(i + 1) =~= rest + seq!['\n'] + b);
        law_listings_are_judged_line_by_line(rest, b);
        let first = seq![scan::chomped(a.take(i))];
        assert(scan::lines_of(s) == first + scan::lines_of(rest + seq!['\n'] + b));
        assert(scan::lines_of(a) == first + scan::lines_of(rest));
        lemma_modules_of_both(first, scan::lines_of(rest + seq!['\n'] + b));
        lemma_modules_of_both(first, scan::lines_of(rest));
        assert(stale_modules(first) + (stale_modules(scan::lines_of(rest)) + stale_modules(
            scan::lines_of(b),
        )) =~= (stale_modules(first) + stale_modules(scan::lines_of(rest))) + stale_modules(
            scan::lines_of(b),
        ));
    } else {
        assert(a.take(i) =~= a);
        assert(s.skip(i + 1) =~= b);
        let first = seq![scan::chomped(a)];
        assert(scan::lines_of(s) == first + scan::lines_of(b));
        lemma_modules_of_both(first, scan::lines_of(b));
        lemma_return_does_not_matter(a);
        assert(first.drop_last() =~= Seq::<Seq<char>>::empty());
        if a.len() == 0 {
            assert(stale_module(a) is None);
            assert(stale_modules(first) =~= stale_modules(scan::lines_of(a)));
        } else {
            assert(scan::lines_of(a) == seq![a]);
            assert(seq![a].drop_last() =~= Seq::<Seq<char>>::empty());
            assert(stale_modules(first) == stale_modules(seq![a]));
        }
    }
}

} // verus!
