//! The relay of the worker's output: bytes are gathered into lines, lines are
//! decoded as text, and each becomes an event for listeners or a diagnostic.

use vstd::prelude::*;
use vstd::string::StrSliceExecFns;
use vstd::string::StringExecFns;

verus! {

/// The byte that ends a line.
pub const NEWLINE: u8 = 10;

/// What follows the last newline of `s` (all of `s` where it has none).
pub open spec fn tail_of(s: Seq<u8>) -> Seq<u8>
    decreases s.len(),
{
    if s.len() == 0 {
        s
    } else if s.last() == NEWLINE {
        Seq::empty()
    } else {
        tail_of(s.drop_last()).push(s.last())
    }
}

/// The complete lines of `s`, in order and without their newlines: each
/// newline closes the text between it and the newline before it.
pub open spec fn lines_of(s: Seq<u8>) -> Seq<Seq<u8>>
    decreases s.len(),
{
    if s.len() == 0 {
        Seq::empty()
    } else if s.last() == NEWLINE {
        lines_of(s.drop_last()).push(tail_of(s.drop_last()))
    } else {
        lines_of(s.drop_last())
    }
}

proof fn lemma_without_newline(s: Seq<u8>)
    requires
        !s.contains(NEWLINE),
    ensures
        lines_of(s) == Seq::<Seq<u8>>::empty(),
        tail_of(s) == s,
    decreases s.len(),
{
    if s.len() > 0 {
        assert(!s.drop_last().contains(NEWLINE)) by {
            assert forall|i: int| 0 <= i < s.drop_last().len() implies s.drop_last()[i] != NEWLINE by {
                assert(s.drop_last()[i] == s[i]);
            }
        }
        assert(s[s.len() - 1] != NEWLINE);
        lemma_without_newline(s.drop_last());
        assert(s.drop_last().push(s.last()) =~= s);
    }
}

proof fn lemma_tail_single_line(s: Seq<u8>)
    ensures
        !tail_of(s).contains(NEWLINE),
    decreases s.len(),
{
    if s.len() > 0 && s.last() != NEWLINE {
        lemma_tail_single_line(s.drop_last());
        let t = tail_of(s.drop_last());
        assert forall|i: int| 0 <= i < t.push(s.last()).len() implies t.push(s.last())[i] != NEWLINE by {
            if i < t.len() {
                assert(t.push(s.last())[i] == t[i]);
            }
        }
    }
}

/// Gathers the bytes of a stream into lines. It holds the bytes after the
/// last newline seen, until the newline that completes them arrives.
pub struct LineBuffer {
    pending: Vec<u8>,
}

impl View for LineBuffer {
    type V = Seq<u8>;

    closed spec fn view(&self) -> Seq<u8> {
        self.pending@
    }
}

impl LineBuffer {
    /// The bytes held never include a newline.
    pub open spec fn wf(&self) -> bool {
        !self@.contains(NEWLINE)
    }

    /// A buffer that holds nothing.
    pub fn new() -> (r: LineBuffer)
        ensures
            r@ == Seq::<u8>::empty(),
            r.wf(),
    {
        LineBuffer { pending: Vec::new() }
    }

    /// Takes the next bytes of the stream and hands out the lines that they
    /// complete, without their newlines; what follows the last newline stays
    /// held.
    pub fn push(&mut self, chunk: &[u8]) -> (lines: Vec<Vec<u8>>)
        requires
            old(self).wf(),
        ensures
            final(self).wf(),
            lines@.map_values(|l: Vec<u8>| l@) == lines_of(old(self)@ + chunk@),
            final(self)@ == tail_of(old(self)@ + chunk@),
    {
        let ghost start = self@;
        proof {
            lemma_without_newline(start);
            assert(start + chunk@.subrange(0, 0) =~= start);
        }
        let mut out: Vec<Vec<u8>> = Vec::new();
        let mut i: usize = 0;
        while i < chunk.len()
            invariant
                i <= chunk.len(),
                out@.map_values(|l: Vec<u8>| l@) == lines_of(start + chunk@.subrange(0, i as int)),
                self@ == tail_of(start + chunk@.subrange(0, i as int)),
            decreases chunk.len() - i,
        {
            let b = chunk[i];
            let ghost before = start + chunk@.subrange(0, i as int);
            let ghost after = start + chunk@.subrange(0, i + 1);
            proof {
                assert(after.drop_last() =~= before);
                assert(after.last() == b);
            }
            if b == NEWLINE {
                let mut line: Vec<u8> = Vec::new();
                std::mem::swap(&mut line, &mut self.pending);
                out.push(line);
                proof {
                    assert(out@.map_values(|l: Vec<u8>| l@) =~= lines_of(after));
                }
            } else {
                self.pending.push(b);
            }
            i = i + 1;
        }
        proof {
            assert(start + chunk@.subrange(0, chunk@.len() as int) =~= start + chunk@);
            lemma_tail_single_line(start + chunk@);
        }
        out
    }
}

/// A line that reaches a buffer in two pieces comes out whole and once: the
/// first piece completes no line, and the second, ending in the newline,
/// completes exactly the line made of both pieces after what the buffer held.
pub proof fn lemma_split_line_delivered_whole(held: Seq<u8>, first: Seq<u8>, second: Seq<u8>)
    requires
        !held.contains(NEWLINE),
        !first.contains(NEWLINE),
        !second.contains(NEWLINE),
    ensures
        lines_of(held + first) == Seq::<Seq<u8>>::empty(),
        lines_of(tail_of(held + first) + second.push(NEWLINE)) == seq![held + first + second],
        tail_of(tail_of(held + first) + second.push(NEWLINE)) == Seq::<u8>::empty(),
{
    let a = held + first;
    assert(!a.contains(NEWLINE)) by {
        assert forall|i: int| 0 <= i < a.len() implies a[i] != NEWLINE by {
            if i < held.len() {
                assert(a[i] == held[i]);
            } else {
                assert(a[i] == first[i - held.len()]);
            }
        }
    }
    lemma_without_newline(a);
    let b = a + second;
    assert(!b.contains(NEWLINE)) by {
        assert forall|i: int| 0 <= i < b.len() implies b[i] != NEWLINE by {
            if i < a.len() {
                assert(b[i] == a[i]);
            } else {
                assert(b[i] == second[i - a.len()]);
            }
        }
    }
    lemma_without_newline(b);
    let s = a + second.push(NEWLINE);
    assert(s.drop_last() =~= b);
    assert(s.last() == NEWLINE);
    assert(lines_of(s) =~= seq![b]);
}

/// Unicode's `White_Space` property: the characters that `str::trim` removes.
pub open spec fn is_white(c: char) -> bool {
    let v = c as u32;
    (0x9 <= v <= 0xD) || v == 0x20 || v == 0x85 || v == 0xA0 || v == 0x1680 || (0x2000 <= v
        <= 0x200A) || v == 0x2028 || v == 0x2029 || v == 0x202F || v == 0x205F || v == 0x3000
}

/// `s` without its leading white space.
pub open spec fn trim_start(s: Seq<char>) -> Seq<char>
    decreases s.len(),
{
    if s.len() > 0 && is_white(s[0]) {
        trim_start(s.drop_first())
    } else {
        s
    }
}

/// `s` without its trailing white space.
pub open spec fn trim_end(s: Seq<char>) -> Seq<char>
    decreases s.len(),
{
    if s.len() > 0 && is_white(s.last()) {
        trim_end(s.drop_last())
    } else {
        s
    }
}

/// `s` without white space at either end.
pub open spec fn trimmed(s: Seq<char>) -> Seq<char> {
    trim_end(trim_start(s))
}

/// The text that the bytes `b` encode in UTF-8, or `None` where they are not
/// well-formed UTF-8.
pub uninterp spec fn utf8_text(b: Seq<u8>) -> Option<Seq<char>>;

/// Relies on `String::from_utf8`: it accepts exactly the well-formed UTF-8
/// byte sequences and gives the text that they encode.
#[verifier::external_body]
fn decode_utf8(bytes: &[u8]) -> (r: Option<String>)
    ensures
        r is Some <==> utf8_text(bytes@) is Some,
        r is Some ==> utf8_text(bytes@) == Some(r->Some_0@),
{
    String::from_utf8(bytes.to_vec()).ok()
}

/// Relies on `str::trim`: it removes leading and trailing characters with the
/// Unicode `White_Space` property, and nothing else.
#[verifier::external_body]
fn trim_text<'a>(s: &'a str) -> (r: &'a str)
    ensures
        r@ == trimmed(s@),
{
    s.trim()
}

proof fn lemma_blank_line_trims_to_nothing(s: Seq<char>)
    requires
        forall|i: int| 0 <= i < s.len() ==> is_white(#[trigger] s[i]),
    ensures
        trimmed(s).len() == 0,
    decreases s.len(),
{
    if s.len() > 0 {
        let t = s.drop_first();
        assert forall|i: int| 0 <= i < t.len() implies is_white(#[trigger] t[i]) by {
            assert(t[i] == s[i + 1]);
        }
        lemma_blank_line_trims_to_nothing(t);
        assert(trim_start(s) == trim_start(t));
    }
}

/// Why the worker exited: its exit code and the signal that ended it, where
/// the platform reports them.
#[derive(Debug, Clone, Copy, PartialEq, Eq)]
pub struct ExitStatus {
    pub code: Option<i32>,
    pub signal: Option<i32>,
}

/// Something the worker process produced, as its host reports it.
#[derive(Debug)]
pub enum WorkerEvent {
    /// Bytes from the worker's output stream.
    Stdout(Vec<u8>),
    /// Bytes from the worker's error stream.
    Stderr(Vec<u8>),
    /// A failure that the host reported while watching the worker.
    Error(String),
    /// The worker exited.
    Terminated(ExitStatus),
}

/// What the relay does with one line or signal of the worker.
#[derive(Debug)]
pub enum RelayAction {
    /// Hand this text to every listener.
    Emit(String),
    /// Nothing to pass on: the output line was blank.
    Skip,
    /// A line was not valid UTF-8; it is dropped.
    Undecodable,
    /// A line of the error stream, for the diagnostic log.
    ErrorOutput(String),
    /// A failure reported by the host, for the diagnostic log.
    Failed(String),
    /// The worker exited, for the diagnostic log.
    Terminated(ExitStatus),
}

/// `a` is what the relay does with the output line `line`: drop it where it
/// is not UTF-8, skip it where it is blank, and otherwise emit its text
/// trimmed of white space.
pub open spec fn output_action(line: Seq<u8>, a: RelayAction) -> bool {
    match utf8_text(line) {
        None => a is Undecodable,
        Some(t) => if trimmed(t).len() == 0 {
            a is Skip
        } else {
            a is Emit && a->Emit_0@ == trimmed(t)
        },
    }
}

/// `a` is what the relay does with the error-stream line `line`: log its text,
/// or drop it where it is not UTF-8.
pub open spec fn error_action(line: Seq<u8>, a: RelayAction) -> bool {
    match utf8_text(line) {
        None => a is Undecodable,
        Some(t) => a is ErrorOutput && a->ErrorOutput_0@ == t,
    }
}

/// Classifies one complete line of the worker's output stream.
pub fn output_line_action(line: &[u8]) -> (a: RelayAction)
    ensures
        output_action(line@, a),
{
    match decode_utf8(line) {
        None => RelayAction::Undecodable,
        Some(text) => {
            let t = trim_text(text.as_str());
            if t.unicode_len() == 0 {
                RelayAction::Skip
            } else {
                RelayAction::Emit(String::from_str(t))
            }
        },
    }
}

/// Classifies one complete line of the worker's error stream.
pub fn error_line_action(line: &[u8]) -> (a: RelayAction)
    ensures
        error_action(line@, a),
{
    match decode_utf8(line) {
        None => RelayAction::Undecodable,
        Some(text) => RelayAction::ErrorOutput(text),
    }
}

/// An output line whose text is empty or white space alone never becomes an
/// event for listeners: the relay skips it.
pub proof fn lemma_blank_output_line_skipped(line: Seq<u8>, a: RelayAction)
    requires
        output_action(line, a),
        utf8_text(line) is Some,
        forall|i: int|
            0 <= i < utf8_text(line)->Some_0.len() ==> is_white(
                #[trigger] utf8_text(line)->Some_0[i],
            ),
    ensures
        a is Skip,
        !(a is Emit),
{
    lemma_blank_line_trims_to_nothing(utf8_text(line)->Some_0);
}

/// Classifies each of `lines`, as output lines where `output` holds and as
/// error-stream lines otherwise.
fn line_actions(lines: &Vec<Vec<u8>>, output: bool) -> (actions: Vec<RelayAction>)
    ensures
        actions.len() == lines.len(),
        forall|i: int|
            0 <= i < lines.len() ==> if output {
                output_action(#[trigger] lines@[i]@, actions@[i])
            } else {
                error_action(lines@[i]@, actions@[i])
            },
{
    let mut actions: Vec<RelayAction> = Vec::new();
    let mut i: usize = 0;
    while i < lines.len()
        invariant
            i <= lines.len(),
            actions.len() == i,
            forall|j: int|
                0 <= j < i ==> if output {
                    output_action(#[trigger] lines@[j]@, actions@[j])
                } else {
                    error_action(lines@[j]@, actions@[j])
                },
        decreases lines.len() - i,
    {
        let a = if output {
            output_line_action(lines[i].as_slice())
        } else {
            error_line_action(lines[i].as_slice())
        };
        actions.push(a);
        i = i + 1;
    }
    actions
}

/// The relay for one spawned worker: it turns what the worker produces into
/// events for listeners and records for the diagnostic log, holding partial
/// lines of each stream until their newline arrives.
pub struct Relay {
    output: LineBuffer,
    errors: LineBuffer,
}

impl Relay {
    /// The bytes of the output stream held after its last newline.
    pub closed spec fn held_output(&self) -> Seq<u8> {
        self.output@
    }

    /// The bytes of the error stream held after its last newline.
    pub closed spec fn held_errors(&self) -> Seq<u8> {
        self.errors@
    }

    /// Neither stream holds a newline that was not acted on.
    pub open spec fn wf(&self) -> bool {
        !self.held_output().contains(NEWLINE) && !self.held_errors().contains(NEWLINE)
    }

    /// A relay for a worker that has produced nothing yet.
    pub fn new() -> (r: Relay)
        ensures
            r.wf(),
            r.held_output() == Seq::<u8>::empty(),
            r.held_errors() == Seq::<u8>::empty(),
    {
        Relay { output: LineBuffer::new(), errors: LineBuffer::new() }
    }

    /// Takes one event of the worker and gives what to do, in order: one
    /// action for each line that output or error bytes complete, or one
    /// record for a host failure or the worker's exit.
    pub fn on_event(&mut self, event: WorkerEvent) -> (actions: Vec<RelayAction>)
        requires
            old(self).wf(),
        ensures
            final(self).wf(),
            match event {
                WorkerEvent::Stdout(b) => {
                    let lines = lines_of(old(self).held_output() + b@);
                    &&& final(self).held_output() == tail_of(old(self).held_output() + b@)
                    &&& final(self).held_errors() == old(self).held_errors()
                    &&& actions.len() == lines.len()
                    &&& forall|i: int|
                        0 <= i < lines.len() ==> output_action(#[trigger] lines[i], actions@[i])
                },
                WorkerEvent::Stderr(b) => {
                    let lines = lines_of(old(self).held_errors() + b@);
                    &&& final(self).held_errors() == tail_of(old(self).held_errors() + b@)
                    &&& final(self).held_output() == old(self).held_output()
                    &&& actions.len() == lines.len()
                    &&& forall|i: int|
                        0 <= i < lines.len() ==> error_action(#[trigger] lines[i], actions@[i])
                },
                WorkerEvent::Error(m) => {
                    &&& final(self).held_output() == old(self).held_output()
                    &&& final(self).held_errors() == old(self).held_errors()
                    &&& actions.len() == 1
                    &&& actions@[0] is Failed
                    &&& actions@[0]->Failed_0@ == m@
                },
                WorkerEvent::Terminated(status) => {
                    &&& final(self).held_output() == old(self).held_output()
                    &&& final(self).held_errors() == old(self).held_errors()
                    &&& actions.len() == 1
                    &&& actions@[0] is Terminated
                    &&& actions@[0]->Terminated_0 == status
                },
            },
    {
        match event {
            WorkerEvent::Stdout(b) => {
                let lines = self.output.push(b.as_slice());
                let actions = line_actions(&lines, true);
                proof {
                    assert forall|i: int| 0 <= i < lines.len() implies lines@[i]@ == lines@.map_values(
                        |l: Vec<u8>| l@,
                    )[i] by {}
                }
                actions
            },
            WorkerEvent::Stderr(b) => {
                let lines = self.errors.push(b.as_slice());
                let actions = line_actions(&lines, false);
                proof {
                    assert forall|i: int| 0 <= i < lines.len() implies lines@[i]@ == lines@.map_values(
                        |l: Vec<u8>| l@,
                    )[i] by {}
                }
                actions
            },
            WorkerEvent::Error(m) => {
                let mut actions: Vec<RelayAction> = Vec::new();
                actions.push(RelayAction::Failed(m));
                actions
            },
            WorkerEvent::Terminated(status) => {
                let mut actions: Vec<RelayAction> = Vec::new();
                actions.push(RelayAction::Terminated(status));
                actions
            },
        }
    }
}

} // verus!
