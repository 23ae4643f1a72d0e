//! Shutdown watchers for the stdio shim: stdin end-of-file, signals and the
//! death of the parent process.

use std::sync::atomic::AtomicBool;
use std::sync::atomic::Ordering;
use std::sync::mpsc::{Receiver, Sender};
use std::sync::Arc;
use vstd::prelude::*;

verus! {

/// Why the shim's main loop should stop.
#[derive(Debug, Clone, Copy, PartialEq, Eq, Structural)]
pub enum ShutdownReason {
    StdinEof,
    Signal,
    ParentDeath,
}

#[verifier::external_type_specification]
#[verifier::external_body]
#[verifier::reject_recursive_types(T)]
pub struct ExSender<T>(Sender<T>);

#[verifier::external_type_specification]
#[verifier::external_body]
#[verifier::reject_recursive_types(T)]
pub struct ExReceiver<T>(Receiver<T>);

/// `Sender::clone`: another sending handle onto the same channel. Nothing is
/// claimed of it.
pub assume_specification<T>[ <Sender<T> as Clone>::clone ](tx: &Sender<T>) -> Sender<T>;

/// `std::sync::mpsc::channel`: opens a fresh channel that carries bare
/// end-of-file signals. Nothing is claimed of the two ends.
#[verifier::external_body]
fn open_signal_channel() -> (Sender<()>, Receiver<()>) {
    std::sync::mpsc::channel()
}

/// `Sender::send`: queues one signal; a closed receiving end is ignored.
/// Nothing is claimed.
#[verifier::external_body]
fn send_signal(tx: &Sender<()>) {
    let _ = tx.send(());
}

/// `Receiver::try_recv`: `true` when a queued signal was taken. Whether one
/// is waiting depends on other handles and threads, so nothing is claimed of
/// the result.
#[verifier::external_body]
fn try_take_signal(rx: &Receiver<()>) -> bool {
    rx.try_recv().is_ok()
}

/// sysinfo `System::new_all`, `System::process` and `Process::start_time`:
/// the start time, in seconds since the epoch, of the process with this pid,
/// or `None` when no such process exists. The answer depends on the machine
/// and the moment, so nothing is claimed of it.
#[verifier::external_body]
fn process_start_time(pid: u32) -> Option<u64> {
    let system = sysinfo::System::new_all();
    match system.process(sysinfo::Pid::from_u32(pid)) {
        Some(process) => Some(process.start_time()),
        None => None,
    }
}

/// Whether a process with this pid exists right now.
pub fn process_exists(pid: u32) -> bool {
    process_start_time(pid).is_some()
}

/// The sending half handed to the code that reads stdin.
#[derive(Clone)]
pub struct EofNotifier {
    tx: Sender<()>,
}

impl EofNotifier {
    /// Reports a read of `bytes_read` bytes; a read of zero bytes is end of file.
    pub fn notify_read(&self, bytes_read: usize) {
        if bytes_read == 0 {
            self.notify_eof();
        }
    }

    /// Reports end of file on stdin.
    pub fn notify_eof(&self) {
        send_signal(&self.tx);
    }
}

/// Observes the end-of-file reports of its `EofNotifier`.
pub struct StdinEofWatcher {
    rx: Receiver<()>,
}

impl StdinEofWatcher {
    /// A watcher and the notifier that feeds it.
    pub fn new() -> (StdinEofWatcher, EofNotifier) {
        let (tx, rx) = open_signal_channel();
        (StdinEofWatcher { rx }, EofNotifier { tx })
    }

    /// `Some(StdinEof)` when end of file was reported since the last poll.
    pub fn poll(&self) -> (r: Option<ShutdownReason>)
        ensures
            r is None || r == Some(ShutdownReason::StdinEof),
    {
        if try_take_signal(&self.rx) {
            Some(ShutdownReason::StdinEof)
        } else {
            None
        }
    }
}

/// Observes a shared flag that a signal handler raises.
pub struct SignalWatcher {
    pub flag: Arc<AtomicBool>,
}

impl SignalWatcher {
    pub fn new(flag: Arc<AtomicBool>) -> (w: SignalWatcher)
        ensures
            w.flag == flag,
    {
        SignalWatcher { flag }
    }

    /// Raises the flag.
    pub fn trigger(&self) {
        self.flag.store(true, Ordering::SeqCst);
    }

    /// `Some(Signal)` when the flag was raised; the flag is lowered again.
    pub fn poll(&self) -> (r: Option<ShutdownReason>)
        ensures
            r is None || r == Some(ShutdownReason::Signal),
    {
        if self.flag.swap(false, Ordering::SeqCst) {
            Some(ShutdownReason::Signal)
        } else {
            None
        }
    }
}

/// The parent is alive exactly when a start time was recorded for it and the
/// process now under its pid started at that same time.
pub open spec fn spec_parent_alive(expected: Option<u64>, actual: Option<u64>) -> bool {
    match (expected, actual) {
        (Some(e), Some(a)) => e == a,
        _ => false,
    }
}

/// Decides liveness from the recorded and the observed start time; a pid
/// reused by a later process counts as a dead parent.
pub fn start_times_match(expected: Option<u64>, actual: Option<u64>) -> (r: bool)
    ensures
        r == spec_parent_alive(expected, actual),
{
    match (expected, actual) {
        (Some(e), Some(a)) => e == a,
        _ => false,
    }
}

/// Watches the process that spawned the shim.
pub struct ParentDeathWatcher {
    pub parent_pid: u32,
    pub expected_start_time: Option<u64>,
}

impl ParentDeathWatcher {
    /// Records the parent's current start time, if it is running.
    pub fn new(parent_pid: u32) -> (w: ParentDeathWatcher)
        ensures
            w.parent_pid == parent_pid,
    {
        ParentDeathWatcher { parent_pid, expected_start_time: process_start_time(parent_pid) }
    }

    pub fn with_expected_start_time(parent_pid: u32, expected_start_time: u64) -> (w:
        ParentDeathWatcher)
        ensures
            w.parent_pid == parent_pid,
            w.expected_start_time == Some(expected_start_time),
    {
        ParentDeathWatcher { parent_pid, expected_start_time: Some(expected_start_time) }
    }

    /// Whether the process now under the parent pid is the recorded parent.
    pub fn is_parent_alive(&self) -> (r: bool)
        ensures
            r ==> self.expected_start_time is Some,
    {
        start_times_match(self.expected_start_time, process_start_time(self.parent_pid))
    }

    /// `Some(ParentDeath)` unless the parent is alive: the start time
    /// observed now for the parent pid is handed to `parent_death_reason`.
    pub fn poll(&self) -> (r: Option<ShutdownReason>)
        ensures
            r is None || r == Some(ShutdownReason::ParentDeath),
            self.expected_start_time is None ==> r == Some(ShutdownReason::ParentDeath),
    {
        parent_death_reason(self.expected_start_time, process_start_time(self.parent_pid))
    }
}

/// The reason a parent watcher reports for a recorded and an observed start
/// time: none while they match, `ParentDeath` otherwise (no start time was
/// recorded, no process has the pid, or another process took it).
pub fn parent_death_reason(expected: Option<u64>, actual: Option<u64>) -> (r: Option<ShutdownReason>)
    ensures
        r == if spec_parent_alive(expected, actual) {
            None::<ShutdownReason>
        } else {
            Some(ShutdownReason::ParentDeath)
        },
{
    if start_times_match(expected, actual) {
        None
    } else {
        Some(ShutdownReason::ParentDeath)
    }
}

/// The reason a poller reports from what its two watchers reported: the
/// stdin watcher's reason when there is one, else the parent watcher's.
pub fn first_reason(stdin: Option<ShutdownReason>, parent: Option<ShutdownReason>) -> (r: Option<
    ShutdownReason,
>)
    ensures
        r == if stdin is Some {
            stdin
        } else {
            parent
        },
{
    match stdin {
        Some(reason) => Some(reason),
        None => parent,
    }
}

/// Polls the stdin watcher first and the parent watcher second.
pub struct ShutdownPoller<'a> {
    pub stdin_eof: Option<&'a StdinEofWatcher>,
    pub parent_death: Option<&'a ParentDeathWatcher>,
}

impl<'a> ShutdownPoller<'a> {
    pub fn new(
        stdin_eof: Option<&'a StdinEofWatcher>,
        parent_death: Option<&'a ParentDeathWatcher>,
    ) -> (p: ShutdownPoller<'a>)
        ensures
            p.stdin_eof == stdin_eof,
            p.parent_death == parent_death,
    {
        ShutdownPoller { stdin_eof, parent_death }
    }

    /// The first reason reported: the stdin watcher is asked first, the
    /// parent watcher only when stdin reported nothing, and `first_reason`
    /// picks between their reports.
    pub fn poll(&self) -> (r: Option<ShutdownReason>)
        ensures
            r is None || r == Some(ShutdownReason::StdinEof) || r == Some(
                ShutdownReason::ParentDeath,
            ),
            r == Some(ShutdownReason::StdinEof) ==> self.stdin_eof is Some,
            r == Some(ShutdownReason::ParentDeath) ==> self.parent_death is Some,
            (self.parent_death matches Some(w) && w.expected_start_time is None) ==> r is Some,
            self.stdin_eof is None && self.parent_death is None ==> r is None,
    {
        let stdin = match self.stdin_eof {
            Some(watcher) => watcher.poll(),
            None => None,
        };
        // The parent watcher is asked only while stdin is still open.
        let parent = if stdin.is_some() {
            None
        } else {
            match self.parent_death {
                Some(watcher) => watcher.poll(),
                None => None,
            }
        };
        first_reason(stdin, parent)
    }
}

} // verus!
