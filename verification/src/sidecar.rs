//! One run of the segmentation sidecar: its command line, the checks that its
//! mask has to pass in their order, and what of its output is passed on.

use vstd::prelude::*;
use vstd::string::*;
use crate::gesture::{on_one_line, prompt, sent_points};
use crate::recipe::text_view;
use crate::scan::{begins, begins_at, characters, trim, trim_range};
use crate::segment::{end_of_line, line_end, no_report, read_lines, SegmentReport};
use crate::single::Single;
use crate::text::{decimal, decimal_text, lemma_between, lemma_decimal_injective};

verus! {

/// Where the sidecar and its interpreter are.
#[derive(Debug)]
pub struct SegmentConfig {
    pub python_bin: String,
    pub segment_script: String,
}

/// Everything that one run needs.
#[derive(Debug)]
pub struct SegmentOpts {
    pub python_bin: String,
    pub script: String,
    /// `subject`, `sky` or `object`.
    pub target: String,
    /// The points that the run is prompted with.
    pub reference_point: Option<String>,
}

/// The target that a mask's subtype names.
pub open spec fn subtype_target(subtype: u32) -> Option<Seq<char>> {
    if subtype == 0 {
        Some("object"@)
    } else if subtype == 1 {
        Some("subject"@)
    } else if subtype == 2 {
        Some("sky"@)
    } else {
        None
    }
}

impl SegmentOpts {
    /// A run on a whole photograph.
    pub fn from_config(cfg: &SegmentConfig, target: &str) -> (r: SegmentOpts)
        ensures
            r.python_bin@ == cfg.python_bin@,
            r.script@ == cfg.segment_script@,
            r.target@ == target@,
            r.reference_point is None,
    {
        SegmentOpts {
            python_bin: cfg.python_bin.clone(),
            script: cfg.segment_script.clone(),
            target: target.to_owned(),
            reference_point: None,
        }
    }

    /// A run for one imported mask, prompted with its own points: its click and, for an
    /// object, the points of its gesture. A subtype that names no backend gets none.
    pub fn for_ai_mask(
        cfg: &SegmentConfig,
        subtype: u32,
        ref_x: Single,
        ref_y: Single,
        gesture: &Vec<String>,
    ) -> (r: Option<SegmentOpts>)
        ensures
            r is Some <==> subtype_target(subtype) is Some,
            r is Some ==> {
                &&& r->0.python_bin@ == cfg.python_bin@
                &&& r->0.script@ == cfg.segment_script@
                &&& Some(r->0.target@) == subtype_target(subtype)
                &&& r->0.reference_point is Some
                &&& r->0.reference_point->0@ == on_one_line(
                    sent_points(subtype, ref_x, ref_y, texts(gesture@)),
                )
            },
            subtype == 0 ==> r is Some && r->0.target@ == "object"@,
            subtype == 1 ==> r is Some && r->0.target@ == "subject"@,
            subtype == 2 ==> r is Some && r->0.target@ == "sky"@,
            subtype > 2 ==> r is None,
    {
        let target: &str = match subtype {
            0 => "object",
            1 => "subject",
            2 => "sky",
            _ => {
                return None;
            },
        };
        Some(
            SegmentOpts {
                python_bin: cfg.python_bin.clone(),
                script: cfg.segment_script.clone(),
                target: target.to_owned(),
                reference_point: Some(prompt(subtype, ref_x, ref_y, gesture)),
            },
        )
    }
}

/// The texts of a list.
pub open spec fn texts(v: Seq<String>) -> Seq<Seq<char>> {
    Seq::new(v.len(), |i: int| v[i]@)
}

/// The command line of a run, after the interpreter's name.
pub open spec fn run_arguments(
    script: Seq<char>,
    input: Seq<char>,
    output: Seq<char>,
    target: Seq<char>,
    point: Option<Seq<char>>,
) -> Seq<Seq<char>> {
    let base = seq![
        "-E"@,
        script,
        "--input"@,
        input,
        "--output"@,
        output,
        "--target"@,
        target,
    ];
    match point {
        Some(p) => base.push("--reference-point"@).push(p),
        None => base,
    }
}

pub(crate) fn push_text(v: &mut Vec<String>, s: &str)
    ensures
        texts(final(v)@) == texts(old(v)@).push(s@),
{
    v.push(s.to_owned());
    assert(texts(v@) =~= texts(old(v)@).push(s@));
}

/// The command line of a run, after the interpreter's name.
pub fn sidecar_arguments(opts: &SegmentOpts, input: &str, output: &str) -> (r: Vec<String>)
    ensures
        texts(r@) == run_arguments(
            opts.script@,
            input@,
            output@,
            opts.target@,
            text_view(opts.reference_point),
        ),
        r@.len() == (if opts.reference_point is Some {
            10int
        } else {
            8
        }),
        r@[0]@ == "-E"@ && r@[1]@ == opts.script@,
        r@[2]@ == "--input"@ && r@[3]@ == input@,
        r@[4]@ == "--output"@ && r@[5]@ == output@,
        r@[6]@ == "--target"@ && r@[7]@ == opts.target@,
        opts.reference_point is Some ==> r@[8]@ == "--reference-point"@ && r@[9]@
            == opts.reference_point->0@,
{
    let mut v: Vec<String> = Vec::new();
    push_text(&mut v, "-E");
    push_text(&mut v, opts.script.as_str());
    push_text(&mut v, "--input");
    push_text(&mut v, input);
    push_text(&mut v, "--output");
    push_text(&mut v, output);
    push_text(&mut v, "--target");
    push_text(&mut v, opts.target.as_str());
    assert(texts(v@) =~= run_arguments(opts.script@, input@, output@, opts.target@, None));
    if let Some(p) = &opts.reference_point {
        push_text(&mut v, "--reference-point");
        push_text(&mut v, p.as_str());
    }
    proof {
        assert(texts(v@).len() == v@.len());
        assert forall|i: int| 0 <= i < v@.len() implies texts(v@)[i] == (#[trigger] v@[i])@ by {}
    }
    v
}

/// A mask's subtype is told to the segmenter by its own word, behind the word for a
/// target: an object by "object", a subject by "subject", a sky by "sky", and no two of
/// them alike. What is read, what is written and the points stand behind theirs.
pub proof fn a_mask_is_asked_for_by_its_word(
    subtype: u32,
    script: Seq<char>,
    input: Seq<char>,
    output: Seq<char>,
    points: Seq<char>,
)
    ensures
        subtype_target(subtype) is Some <==> subtype <= 2,
        subtype <= 2 ==> {
            let a = run_arguments(script, input, output, subtype_target(subtype)->0, Some(points));
            &&& a.len() == 10
            &&& a[2] == "--input"@ && a[3] == input
            &&& a[4] == "--output"@ && a[5] == output
            &&& a[6] == "--target"@
            &&& subtype == 0 ==> a[7] == "object"@
            &&& subtype == 1 ==> a[7] == "subject"@
            &&& subtype == 2 ==> a[7] == "sky"@
            &&& a[8] == "--reference-point"@ && a[9] == points
        },
        forall|other: u32|
            subtype <= 2 && other <= 2 && #[trigger] subtype_target(other) == subtype_target(subtype)
                ==> other == subtype,
{
    reveal_strlit("object");
    reveal_strlit("subject");
    reveal_strlit("sky");
    assert("object"@.len() == 6 && "subject"@.len() == 7 && "sky"@.len() == 3);
}

/// The command line that asks whether the primary subject backend can run.
pub fn probe_arguments(opts: &SegmentOpts) -> (r: Vec<String>)
    ensures
        texts(r@) == seq!["-E"@, opts.script@, "--target"@, "subject"@, "--probe-backend"@],
{
    let mut v: Vec<String> = Vec::new();
    push_text(&mut v, "-E");
    push_text(&mut v, opts.script.as_str());
    push_text(&mut v, "--target");
    push_text(&mut v, "subject");
    push_text(&mut v, "--probe-backend");
    assert(texts(v@) =~= seq!["-E"@, opts.script@, "--target"@, "subject"@, "--probe-backend"@]);
    v
}

/// What a probe found out. One that failed found out nothing.
pub fn probe_verdict(success: bool, stdout: &str) -> (r: Option<bool>)
    ensures
        r == (if success {
            read_lines(no_report(), stdout@).birefnet_deps
        } else {
            None
        }),
{
    if success {
        SegmentReport::parse(stdout).birefnet_deps
    } else {
        None
    }
}

/// A line that the sidecar wrote itself, and no library under it.
pub open spec fn own_line(line: Seq<char>) -> bool {
    begins(line, "segment.py:"@) || begins(line, "[denoise]"@)
}

/// The sidecar's own lines of `s`, trimmed, each under the tool's mark.
pub open spec fn own_lines(s: Seq<char>) -> Seq<Seq<char>>
    decreases s.len(),
{
    let k = line_end(s);
    let line = trim(s.take(k as int));
    let head = if own_line(line) {
        seq!["[segment] "@ + line]
    } else {
        seq![]
    };
    if k >= s.len() {
        head
    } else {
        head + own_lines(s.skip(k as int + 1))
    }
}

/// The lines of a successful run that the photographer is shown.
pub fn forwarded(stderr: &str) -> (r: Vec<String>)
    ensures
        texts(r@) == own_lines(stderr@),
{
    let v: Vec<char> = characters(stderr);
    let mark: Vec<char> = characters("segment.py:");
    let shared: Vec<char> = characters("[denoise]");
    let mut out: Vec<String> = Vec::new();
    let mut from: usize = 0;
    assert(v@.skip(0) =~= v@);
    assert(texts(out@) + own_lines(v@) =~= own_lines(v@));
    loop
        invariant
            v@ == stderr@,
            mark@ == "segment.py:"@,
            shared@ == "[denoise]"@,
            from <= v@.len(),
            own_lines(stderr@) == texts(out@) + own_lines(v@.skip(from as int)),
        decreases v@.len() - from,
    {
        let to: usize = end_of_line(&v, from);
        let ghost rest = v@.skip(from as int);
        let ghost before = texts(out@);
        assert(rest.take(to - from) =~= v@.subrange(from as int, to as int));
        let (a, b) = trim_range(&v, from, to);
        let ghost line = v@.subrange(a as int, b as int);
        let ghost head = if own_line(line) { seq!["[segment] "@ + line] } else { seq![] };
        if begins_at(&v, a, b, &mark) || begins_at(&v, a, b, &shared) {
            let mut t: String = "[segment] ".to_owned();
            t.append(stderr.substring_char(a, b));
            push_text(&mut out, t.as_str());
        }
        assert(texts(out@) =~= before + head);
        if to == v.len() {
            assert(own_lines(rest) == head);
            return out;
        }
        proof {
            let tail = own_lines(rest.skip(to - from + 1));
            assert(rest.skip(to - from + 1) =~= v@.skip(to + 1));
            assert(before + (head + tail) =~= (before + head) + tail);
        }
        from = to + 1;
    }
}

/// How a run ended.
#[derive(Debug)]
pub struct SidecarOutput {
    pub success: bool,
    /// The exit code, if it was not a signal.
    pub code: Option<i32>,
    /// The end of what it wrote, for an error.
    pub tail: String,
    pub stdout: String,
    pub stderr: String,
}

/// What a run waits for.
#[derive(Clone, Copy, Debug, PartialEq, Eq, Structural)]
pub enum RunState {
    /// Is the script there?
    Script,
    /// The process to end.
    Running,
    /// Was a mask written by this run?
    Writing,
    /// Does the mask decode?
    Decoding,
    /// Is the mask on disk for good?
    Adopting,
    /// Nothing any more.
    Over,
}

/// What is to be done next.
#[derive(Debug)]
pub enum RunStep {
    /// Start the interpreter with these arguments.
    Launch { arguments: Vec<String> },
    /// Look whether this run wrote a mask that is not empty.
    CheckWritten,
    /// Open the mask.
    CheckDecodes,
    /// Show these lines, and make the mask durable.
    Adopt { lines: Vec<String> },
    /// Give up; `discard` what was written.
    Refuse { why: String, discard: bool },
    /// The mask is there.
    Accept { report: SegmentReport },
}

/// One run of the sidecar, from the look for the script to the adopted mask.
#[derive(Debug)]
pub struct SegmentRun {
    pub state: RunState,
    pub stdout: String,
    pub stderr: String,
}

/// A signed number in decimal.
pub open spec fn signed_decimal(n: int) -> Seq<char> {
    if n < 0 {
        "-"@ + decimal((-n) as nat)
    } else {
        decimal(n as nat)
    }
}

/// How an exit is named.
pub open spec fn exit_name(code: Option<i32>) -> Seq<char> {
    match code {
        Some(c) => signed_decimal(c as int),
        None => "signal"@,
    }
}

fn exit_text(code: Option<i32>) -> (r: String)
    ensures
        r@ == exit_name(code),
{
    match code {
        Some(c) => {
            let wide: i64 = c as i64;
            if wide < 0 {
                let mut s: String = "-".to_owned();
                s.append(decimal_text((-wide) as u128).as_str());
                s
            } else {
                decimal_text(wide as u128)
            }
        },
        None => "signal".to_owned(),
    }
}

/// A reason with its cause behind it.
fn caused(what: &str, about: &str, cause: &str) -> (r: String)
    ensures
        r@ == what@ + about@ + ": "@ + cause@,
{
    let mut s: String = what.to_owned();
    s.append(about);
    s.append(": ");
    s.append(cause);
    s
}

impl SegmentRun {
    /// A run starts with the look for the script.
    pub fn new() -> (r: SegmentRun)
        ensures
            r.state is Script,
    {
        SegmentRun { state: RunState::Script, stdout: String::new(), stderr: String::new() }
    }

    /// The script was looked for.
    pub fn script_found(
        &mut self,
        opts: &SegmentOpts,
        input: &str,
        output: &str,
        found: bool,
    ) -> (r: RunStep)
        requires
            old(self).state is Script,
        ensures
            found ==> {
                &&& r matches RunStep::Launch { arguments } && texts(arguments@) == run_arguments(
                    opts.script@,
                    input@,
                    output@,
                    opts.target@,
                    text_view(opts.reference_point),
                )
                &&& final(self).state is Running
            },
            !found ==> {
                &&& r matches RunStep::Refuse { why, discard } && !discard && why@
                    == "segmentation sidecar not found at "@ + opts.script@
                    + " — run from the project dir or set AUTOSHOP_SEGMENT_SCRIPT."@
                &&& final(self).state is Over
            },
    {
        if found {
            self.state = RunState::Running;
            RunStep::Launch { arguments: sidecar_arguments(opts, input, output) }
        } else {
            self.state = RunState::Over;
            let mut why: String = "segmentation sidecar not found at ".to_owned();
            why.append(opts.script.as_str());
            why.append(" — run from the project dir or set AUTOSHOP_SEGMENT_SCRIPT.");
            RunStep::Refuse { why, discard: false }
        }
    }

    /// The process ended, or could not be started or waited for.
    pub fn ended(&mut self, run: Result<SidecarOutput, String>) -> (r: RunStep)
        requires
            old(self).state is Running,
        ensures
            match run {
                Err(e) => {
                    &&& r matches RunStep::Refuse { why, discard } && discard && why@ == e@
                    &&& final(self).state is Over
                },
                Ok(out) => if out.success {
                    &&& r is CheckWritten
                    &&& final(self).state is Writing
                    &&& final(self).stdout@ == out.stdout@
                    &&& final(self).stderr@ == out.stderr@
                } else {
                    &&& r matches RunStep::Refuse { why, discard } && discard && why@
                        == "segmentation sidecar exited with "@ + exit_name(out.code) + ": "@
                        + out.tail@
                    &&& final(self).state is Over
                },
            },
    {
        match run {
            Err(e) => {
                self.state = RunState::Over;
                RunStep::Refuse { why: e, discard: true }
            },
            Ok(out) => {
                if out.success {
                    self.state = RunState::Writing;
                    self.stdout = out.stdout;
                    self.stderr = out.stderr;
                    RunStep::CheckWritten
                } else {
                    self.state = RunState::Over;
                    let code: String = exit_text(out.code);
                    let why: String = caused(
                        "segmentation sidecar exited with ",
                        code.as_str(),
                        out.tail.as_str(),
                    );
                    RunStep::Refuse { why, discard: true }
                }
            },
        }
    }

    /// It was looked whether this run wrote a mask.
    pub fn written(&mut self, check: Result<(), String>) -> (r: RunStep)
        requires
            old(self).state is Writing,
        ensures
            final(self).stdout@ == old(self).stdout@,
            final(self).stderr@ == old(self).stderr@,
            match check {
                Err(e) => {
                    &&& r matches RunStep::Refuse { why, discard } && discard && why@ == e@
                    &&& final(self).state is Over
                },
                Ok(()) => r is CheckDecodes && final(self).state is Decoding,
            },
    {
        match check {
            Err(e) => {
                self.state = RunState::Over;
                RunStep::Refuse { why: e, discard: true }
            },
            Ok(()) => {
                self.state = RunState::Decoding;
                RunStep::CheckDecodes
            },
        }
    }

    /// The mask was opened.
    pub fn decoded(&mut self, output: &str, check: Result<(), String>) -> (r: RunStep)
        requires
            old(self).state is Decoding,
        ensures
            final(self).stdout@ == old(self).stdout@,
            final(self).stderr@ == old(self).stderr@,
            match check {
                Err(e) => {
                    &&& r matches RunStep::Refuse { why, discard } && discard && why@
                        == "segmentation sidecar produced an undecodable mask "@ + output@ + ": "@
                        + e@
                    &&& final(self).state is Over
                },
                Ok(()) => {
                    &&& r matches RunStep::Adopt { lines } && texts(lines@) == own_lines(
                        old(self).stderr@,
                    )
                    &&& final(self).state is Adopting
                },
            },
    {
        match check {
            Err(e) => {
                self.state = RunState::Over;
                let why: String = caused(
                    "segmentation sidecar produced an undecodable mask ",
                    output,
                    e.as_str(),
                );
                RunStep::Refuse { why, discard: true }
            },
            Ok(()) => {
                self.state = RunState::Adopting;
                RunStep::Adopt { lines: forwarded(self.stderr.as_str()) }
            },
        }
    }

    /// The mask was made durable.
    pub fn adopted(&mut self, output: &str, check: Result<(), String>) -> (r: RunStep)
        requires
            old(self).state is Adopting,
        ensures
            final(self).state is Over,
            match check {
                Err(e) => r matches RunStep::Refuse { why, discard } && !discard && why@
                    == "sync segmentation output "@ + output@ + ": "@ + e@,
                Ok(()) => r matches RunStep::Accept { report } && report@ == read_lines(
                    no_report(),
                    old(self).stdout@,
                ),
            },
    {
        self.state = RunState::Over;
        match check {
            Err(e) => {
                let why: String = caused("sync segmentation output ", output, e.as_str());
                RunStep::Refuse { why, discard: false }
            },
            Ok(()) => RunStep::Accept { report: SegmentReport::parse(self.stdout.as_str()) },
        }
    }
}

/// The name of one staged source frame: the process, its place in the order of
/// stagings, and the photograph.
pub open spec fn staged_name(process: nat, place: nat, stem: Seq<char>) -> Seq<char> {
    "autoshop-ai-src-"@ + decimal(process) + "-"@ + decimal(place) + "-"@ + stem + ".png"@
}

pub fn staging_name(process: u32, place: u64, stem: &str) -> (r: String)
    ensures
        r@ == staged_name(process as nat, place as nat, stem@),
{
    let mut s: String = "autoshop-ai-src-".to_owned();
    s.append(decimal_text(process as u128).as_str());
    s.append("-");
    s.append(decimal_text(place as u128).as_str());
    s.append("-");
    s.append(stem);
    s.append(".png");
    s
}

/// Frames that are staged at different places of a process have different names.
pub proof fn staged_frames_do_not_collide(process: nat, a: nat, b: nat, stem: Seq<char>)
    requires
        staged_name(process, a, stem) == staged_name(process, b, stem),
    ensures
        a == b,
{
    let front = "autoshop-ai-src-"@ + decimal(process) + "-"@;
    let back = "-"@ + stem + ".png"@;
    assert(staged_name(process, a, stem) =~= front + decimal(a) + back);
    assert(staged_name(process, b, stem) =~= front + decimal(b) + back);
    lemma_between(front, decimal(a), decimal(b), back);
    lemma_decimal_injective(a, b);
}

} // verus!
