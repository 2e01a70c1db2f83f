//! The portable backend: the route of the converted voice, the monitor, what is read but not yet
//! handed on.

use vstd::prelude::*;
use vstd::string::StringExecFns;
use crate::buffers::append;
use crate::buffers::part;

verus! {

/// What the user asked of a backend.
pub struct BackendOptions {
    /// The device to play on.
    pub output_device: Option<String>,
}

/// The way that the converted voice takes.
pub enum Route {
    /// The device that the user asked for.
    Requested(String),
    /// A loopback device that was found.
    AutoDetected(String),
    /// The default output.
    DefaultOutput,
}

impl Route {
    /// The device of the route, where it is not the default output.
    pub open spec fn device(&self) -> Option<Seq<char>> {
        match self {
            Route::Requested(d) => Some(d@),
            Route::AutoDetected(d) => Some(d@),
            Route::DefaultOutput => None,
        }
    }
}

/// What the user is told about a route.
pub open spec fn route_text(device: Option<Seq<char>>) -> Seq<char> {
    match device {
        Some(d) => "routing the converted voice to \""@ + d
            + "\" — select the loopback's capture end (e.g. \"CABLE Output\" / \"BlackHole 2ch\") as the mic in your app"@,
        None => "no loopback device found — playing on the default output. Install VB-CABLE (Windows) or BlackHole (macOS) for a virtual mic; see docs/"@,
    }
}

/// The view of an optional text.
pub open spec fn text_of(s: Option<String>) -> Option<Seq<char>> {
    match s {
        Some(t) => Some(t@),
        None => None,
    }
}

/// The state of the backend.
pub struct CpalBackend {
    /// What the user asked for.
    pub opts: BackendOptions,
    /// The device that the voice is played on; none is the default output.
    pub route: Option<String>,
    /// Whether the user wants to hear the converted voice.
    pub monitor_on: bool,
}

impl CpalBackend {
    /// A backend on the default output, with the monitor off.
    pub fn new(opts: BackendOptions) -> (b: Self)
        ensures
            b.opts == opts,
            b.route is None,
            !b.monitor_on,
    {
        CpalBackend { opts, route: None, monitor_on: false }
    }

    /// The name of the backend.
    pub fn name(&self) -> (s: &'static str)
        ensures
            s@ == "cpal"@,
    {
        "cpal"
    }

    /// Takes the given route and returns what to tell the user.
    pub fn take_route(&mut self, route: Route) -> (status: String)
        ensures
            final(self).opts == old(self).opts,
            final(self).monitor_on == old(self).monitor_on,
            text_of(final(self).route) == route.device(),
            status@ == route_text(route.device()),
    {
        match route {
            Route::Requested(d) | Route::AutoDetected(d) => {
                let mut m: String = String::from_str("routing the converted voice to \"");
                m.append(d.as_str());
                m.append(
                    "\" — select the loopback's capture end (e.g. \"CABLE Output\" / \"BlackHole 2ch\") as the mic in your app",
                );
                self.route = Some(d);
                m
            },
            Route::DefaultOutput => {
                self.route = None;
                String::from_str(
                    "no loopback device found — playing on the default output. Install VB-CABLE (Windows) or BlackHole (macOS) for a virtual mic; see docs/",
                )
            },
        }
    }

    /// Leaves the route.
    pub fn destroy_virtual_mic(&mut self)
        ensures
            final(self).opts == old(self).opts,
            final(self).monitor_on == old(self).monitor_on,
            final(self).route is None,
    {
        self.route = None;
    }

    /// Turns the monitor on or off and returns which.
    pub fn toggle_monitor(&mut self) -> (on: bool)
        ensures
            on == !old(self).monitor_on,
            final(self).monitor_on == on,
            final(self).opts == old(self).opts,
            final(self).route == old(self).route,
    {
        self.monitor_on = !self.monitor_on;
        self.monitor_on
    }

    /// Turns the monitor off.
    pub fn monitor_off(&mut self)
        ensures
            !final(self).monitor_on,
            final(self).opts == old(self).opts,
            final(self).route == old(self).route,
    {
        self.monitor_on = false;
    }
}

/// The place of the first device with the given name.
pub fn find_device(names: &Vec<Option<String>>, name: &String) -> (i: Option<usize>)
    ensures
        i is None <==> forall|k: int|
            0 <= k < names.len() ==> text_of(#[trigger] names@[k]) != Some(name@),
        i is Some ==> i->0 < names.len() && text_of(names@[i->0 as int]) == Some(name@)
            && forall|k: int| 0 <= k < i->0 ==> text_of(#[trigger] names@[k]) != Some(name@),
{
    let mut i: usize = 0;
    while i < names.len()
        invariant
            i <= names.len(),
            forall|k: int| 0 <= k < i ==> text_of(#[trigger] names@[k]) != Some(name@),
        decreases names.len() - i,
    {
        if let Some(n) = &names[i] {
            if *n == *name {
                return Some(i);
            }
        }
        i = i + 1;
    }
    None
}

/// What has to happen to the monitor before samples are played.
#[derive(Debug, Clone, Copy, PartialEq, Eq, Structural)]
pub enum MonitorAction {
    /// Open it.
    Open,
    /// Close it.
    Close,
    /// Leave it as it is.
    Keep,
}

/// What has to happen to the monitor. One on the device that the route plays on already would
/// double the voice, so there is none on the default route.
pub fn monitor_action(on: bool, route_is_default: bool, open: bool) -> (a: MonitorAction)
    ensures
        a == (if on && !route_is_default {
            if open {
                MonitorAction::Keep
            } else {
                MonitorAction::Open
            }
        } else {
            MonitorAction::Close
        }),
{
    let want: bool = on && !route_is_default;
    if want && !open {
        MonitorAction::Open
    } else if !want {
        MonitorAction::Close
    } else {
        MonitorAction::Keep
    }
}

/// Samples that were read and resampled and not yet handed on.
pub struct Pending<T> {
    /// The samples, oldest first.
    pub buf: Vec<T>,
}

impl<T: Copy> Pending<T> {
    /// Nothing.
    pub fn new() -> (p: Self)
        ensures
            p.buf@ == Seq::<T>::empty(),
    {
        Pending { buf: Vec::new() }
    }

    /// Appends samples.
    pub fn push(&mut self, samples: &[T])
        ensures
            final(self).buf@ == old(self).buf@ + samples@,
    {
        append(&mut self.buf, samples);
    }

    /// Hands on the first `n` samples as soon as there are that many.
    pub fn take(&mut self, n: usize) -> (out: Option<Vec<T>>)
        ensures
            out is Some <==> n <= old(self).buf@.len(),
            out is Some ==> out->0@ == old(self).buf@.take(n as int) && final(self).buf@
                == old(self).buf@.skip(n as int),
            out is None ==> final(self).buf@ == old(self).buf@,
    {
        if self.buf.len() < n {
            return None;
        }
        let out: Vec<T> = part(self.buf.as_slice(), 0, n);
        let rest: Vec<T> = part(self.buf.as_slice(), n, self.buf.len());
        assert(out@ =~= self.buf@.take(n as int));
        assert(rest@ =~= self.buf@.skip(n as int));
        self.buf = rest;
        Some(out)
    }
}

} // verus!
