//! The adapters, and the one rule for choosing between them.
//!
//! A device is an optimisation and never a requirement. Every machine that runs this must keep
//! running it, with no new package to install and no new flag to pass -- so a device is used
//! when there is one and its absence is never an error.

pub mod cpu;
pub mod opencl;
pub mod verify;

use vstd::prelude::*;

use crate::adapters::cpu::{peel_rows, sweep_hits};
use crate::adapters::verify::{check, passes_check, Trust, Verdict, Wanted};
use crate::ports::backend::{Backend, Device, Hit, PeelRequest, SweepRequest, Unsupported};

pub use cpu::Cpu;

verus! {

/// What is said when a run puts its device away part way through.
pub open spec fn put_away_text() -> Seq<char> {
    "the device was put away part way through this run, because it stopped agreeing with the processor. Everything after that was swept on the processor, so the names are sound -- but please run `gpuinfo` and send what it writes."@
}

/// What is said when a device turned batches down.
pub open spec fn declined_text(declined: nat) -> Seq<char> {
    crate::text::decimal_spec(declined)
        + " batch(es) went to the processor because the device turned them down"@
}

/// What is said the first time a device turns a batch down.
pub open spec fn falling_back_text(why: Seq<char>) -> Seq<char> {
    "  falling back to the CPU for this batch: "@ + why
}

/// A device when there is one, and the threads when there is not -- or when the device turns
/// the work down.
///
/// The fallback is not an error path: a device declines whenever a batch does not fit in its
/// memory. What is not ordinary is a device that declines every batch, which looks identical to
/// having no device, so the first refusal is explained and every one is counted.
pub struct Preferred<D: Device> {
    device: Option<D>,
    cpu: Cpu,
    explained: bool,
    /// How many batches the device has turned down.
    declined: usize,
    /// Whether the device is still believed.
    trust: Trust,
}

impl<D: Device> Preferred<D> {
    pub closed spec fn has_device(&self) -> bool {
        self.device is Some
    }

    /// How many threads the processor behind the device runs on.
    pub closed spec fn cpu_threads(&self) -> usize {
        self.cpu.threads()
    }

    pub closed spec fn explained_spec(&self) -> bool {
        self.explained
    }

    pub closed spec fn declined_spec(&self) -> usize {
        self.declined
    }

    pub closed spec fn broken_spec(&self) -> bool {
        self.trust.is_broken()
    }

    /// Settles on what was found: the device when one opened, the threads otherwise, and what to
    /// say about it -- the device's name, nothing when there is no device, and the reason when a
    /// device was found and would not build, which is a bug worth being loud about.
    pub fn open(opened: Result<Option<D>, String>, cpu: Cpu) -> (out: (Self, String))
        ensures
            out.0.has_device() == (opened matches Ok(Some(_))),
            out.0.cpu_threads() == cpu.threads(),
            !out.0.explained_spec(),
            out.0.declined_spec() == 0,
            !out.0.broken_spec(),
            opened matches Ok(None) ==> out.1@ == Seq::<char>::empty(),
            opened matches Err(why) ==> out.1@ == "GPU not used: "@ + why@,
    {
        let (device, notice) = match opened {
            Ok(Some(device)) => {
                let mut notice = String::new();
                notice.append("sweeping on ");
                notice.append(device.name().as_str());
                (Some(device), notice)
            },
            Ok(None) => (None, String::new()),
            Err(why) => {
                let mut notice = String::new();
                notice.append("GPU not used: ");
                notice.append(why.as_str());
                (None, notice)
            },
        };
        (Preferred { device, cpu, explained: false, declined: 0, trust: Trust::new() }, notice)
    }

    /// The threads alone, which is what a differential test compares against.
    pub fn cpu_only(cpu: Cpu) -> (out: Self)
        ensures
            !out.has_device(),
            out.cpu_threads() == cpu.threads(),
            out.explained_spec(),
            out.declined_spec() == 0,
            !out.broken_spec(),
    {
        Preferred { device: None, cpu, explained: true, declined: 0, trust: Trust::new() }
    }

    pub fn on_device(&self) -> (out: bool)
        ensures
            out == self.has_device(),
    {
        self.device.is_some()
    }

    /// Counts a refusal, and says why the first time.
    fn explain_once(&mut self, why: &Unsupported) -> (message: Option<String>)
        ensures
            final(self).declined_spec() == old(self).declined_spec().wrapping_add(1),
            final(self).explained_spec(),
            final(self).has_device() == old(self).has_device(),
            final(self).broken_spec() == old(self).broken_spec(),
            old(self).explained_spec() ==> message is None,
            !old(self).explained_spec() ==> (message matches Some(text) && text@ == falling_back_text(
                why.0@,
            )),
    {
        self.declined = self.declined.wrapping_add(1);
        if self.explained {
            return None;
        }
        self.explained = true;
        let mut text = String::new();
        text.append("  falling back to the CPU for this batch: ");
        text.append(why.message());
        Some(text)
    }

    /// What the device did across the whole run, said once at the end: nothing without a
    /// device; that it was put away, when it was; how many batches it turned down, when it
    /// turned any down.
    pub fn epilogue(&self) -> (out: Option<String>)
        ensures
            !self.has_device() ==> out is None,
            self.has_device() && self.broken_spec() ==> (out matches Some(text) && text@
                == put_away_text()),
            self.has_device() && !self.broken_spec() && self.declined_spec() > 0 ==> (out matches Some(
                text,
            ) && text@ == declined_text(self.declined_spec() as nat)),
            self.has_device() && !self.broken_spec() && self.declined_spec() == 0 ==> out is None,
    {
        if self.device.is_none() {
            return None;
        }
        if self.trust.broken() {
            return Some(
                "the device was put away part way through this run, because it stopped agreeing with the processor. Everything after that was swept on the processor, so the names are sound -- but please run `gpuinfo` and send what it writes.".to_owned(),
            );
        }
        if self.declined > 0 {
            let mut text = crate::text::decimal(self.declined as u64);
            text.append(" batch(es) went to the processor because the device turned them down");
            return Some(text);
        }
        None
    }

    /// The device's name when there is one, and the threads' otherwise.
    pub fn name(&self) -> (out: String)
        ensures
            !self.has_device() ==> out@ == crate::text::decimal_spec(self.cpu_threads() as nat)
                + " CPU threads"@,
    {
        match &self.device {
            Some(device) => device.name(),
            None => self.cpu.name(),
        }
    }

    /// The sweep, on the device while it is believed and on the processor otherwise.
    ///
    /// Every batch the device answers is checked against the processor, as `wanted` says; a
    /// disagreement is not a fallback but the end of the device for this run, and the batch is
    /// thrown away rather than half-believed. Whatever is printed comes back beside the answer.
    pub fn sweep(&mut self, request: &SweepRequest, wanted: Wanted) -> (out: (
        Result<Vec<Hit>, Unsupported>,
        Option<String>,
    ))
        requires
            request.wf(),
        ensures
            out.0 matches Ok(hits) && (hits@.to_multiset() == sweep_hits(
                request,
                request.stems.count(),
            ).to_multiset() || (old(self).has_device() && !old(self).broken_spec() && passes_check(
                request,
                hits@,
                wanted,
            ))),
            final(self).has_device() == old(self).has_device(),
            old(self).broken_spec() ==> final(self).broken_spec(),
            !old(self).has_device() || old(self).broken_spec() ==> out.1 is None,
            !old(self).has_device() || old(self).broken_spec() ==> final(self).declined_spec()
                == old(self).declined_spec(),
    {
        let mut message: Option<String> = None;
        if !self.trust.broken() {
            if let Some(device) = &self.device {
                match device.sweep(request) {
                    Ok(hits) => {
                        match check(request, hits.as_slice(), &self.cpu, wanted) {
                            Verdict::Agreed | Verdict::Skipped => {
                                return (Ok(hits), None);
                            },
                            Verdict::Disagreed(what) => {
                                let mut text = String::new();
                                text.append("\n  ");
                                text.append(what.as_str());
                                text.append("\n");
                                message = Some(text);
                                self.trust.break_it();
                            },
                        }
                    },
                    Err(why) => {
                        message = self.explain_once(&why);
                    },
                }
            }
        }
        (self.cpu.sweep(request), message)
    }

    /// The peel, on the device while it is believed and on the processor otherwise.
    pub fn peel(&mut self, request: &PeelRequest) -> (out: (Result<Vec<u64>, Unsupported>, Option<String>))
        requires
            request.wf(),
        ensures
            out.0 matches Ok(peeled) && (peeled@ == peel_rows(request) || (old(self).has_device()
                && !old(self).broken_spec())),
            final(self).has_device() == old(self).has_device(),
            final(self).broken_spec() == old(self).broken_spec(),
    {
        let mut message: Option<String> = None;
        if !self.trust.broken() {
            if let Some(device) = &self.device {
                match device.peel(request) {
                    Ok(peeled) => {
                        return (Ok(peeled), None);
                    },
                    Err(why) => {
                        message = self.explain_once(&why);
                    },
                }
            }
        }
        (self.cpu.peel(request), message)
    }
}

} // verus!
