//! The notification report: a deterministic text built from a run's
//! outcome, and the full message around it.
use crate::text::{chars_to_string, digit_char, digits_of, push_digits, push_str_chars};
use crate::Config;
use vstd::prelude::*;

verus! {

/// A wall-clock duration: whole seconds and the sub-second milliseconds
/// (truncated, not rounded).
#[derive(Clone, Copy, Debug, PartialEq, Eq, Structural)]
pub struct JobDuration {
    pub secs: u64,
    pub millis: u32,
}

impl JobDuration {
    /// The milliseconds are a sub-second remainder.
    pub open spec fn wf(&self) -> bool {
        self.millis < 1000
    }

    pub fn new(secs: u64, millis: u32) -> (r: Self)
        requires
            millis < 1000,
        ensures
            r == (JobDuration { secs, millis }),
            r.wf(),
    {
        JobDuration { secs, millis }
    }
}

/// The command line as one string: the parts joined with single spaces.
pub open spec fn join_spaces(parts: Seq<Seq<char>>) -> Seq<char>
    decreases parts.len(),
{
    if parts.len() == 0 {
        Seq::empty()
    } else if parts.len() == 1 {
        parts[0]
    } else {
        join_spaces(parts.drop_last()) + seq![' '] + parts.last()
    }
}

/// Joins command-line parts with single spaces.
pub fn join_cmdline(parts: &Vec<String>) -> (r: String)
    ensures
        r@ == join_spaces(parts@.map_values(|s: String| s@)),
{
    let ghost models = parts@.map_values(|s: String| s@);
    let mut out: Vec<char> = Vec::new();
    let mut k: usize = 0;
    assert(models.subrange(0, 0) =~= Seq::<Seq<char>>::empty());
    while k < parts.len()
        invariant
            k <= parts.len(),
            models == parts@.map_values(|s: String| s@),
            models.len() == parts@.len(),
            out@ == join_spaces(models.subrange(0, k as int)),
        decreases parts.len() - k,
    {
        if k > 0 {
            out.push(' ');
        }
        push_str_chars(&mut out, parts[k].as_str());
        proof {
            let pre = models.subrange(0, k as int);
            let cur = models.subrange(0, k as int + 1);
            assert(cur.drop_last() =~= pre);
            assert(cur.last() == models[k as int]);
            assert(models[k as int] == parts@[k as int]@);
            if k == 0 {
                assert(cur.len() == 1);
                assert(out@ =~= join_spaces(cur));
            } else {
                assert(join_spaces(cur) == join_spaces(pre) + seq![' '] + cur.last());
                assert(out@ =~= join_spaces(cur));
            }
        }
        k = k + 1;
    }
    assert(models.subrange(0, models.len() as int) =~= models);
    chars_to_string(&out)
}

/// Milliseconds zero-padded to three digits.
pub open spec fn pad3(m: nat) -> Seq<char> {
    seq![
        digit_char((m / 100) as int),
        digit_char(((m / 10) % 10) as int),
        digit_char((m % 10) as int),
    ]
}

/// The exit-code field: the decimal code, or the fixed phrase when the
/// process was ended by a signal and left no code.
pub open spec fn exit_text(code: Option<int>) -> Seq<char> {
    match code {
        Some(c) => if c < 0 {
            seq!['-'] + digits_of((-c) as nat)
        } else {
            digits_of(c as nat)
        },
        None => "killed by a signal"@,
    }
}

/// The report body: the joined command line, the elapsed time as
/// `seconds.milliseconds s`, the exit-code field, and the job name (or
/// `none`).
pub open spec fn report_body(
    cmdline: Seq<Seq<char>>,
    secs: nat,
    millis: nat,
    code: Option<int>,
    jobname: Option<Seq<char>>,
) -> Seq<char> {
    "Command: "@ + join_spaces(cmdline) + "\nExecution time: "@ + digits_of(secs) + seq!['.']
        + pad3(millis) + " s\nExit code: "@ + exit_text(code) + "\nJob name: "@ + (match jobname {
        Some(j) => j,
        None => "none"@,
    })
}

/// The whole notification: recipient, sender, the fixed subject, and the
/// report body.
pub open spec fn message_text(target: Seq<char>, email: Seq<char>, body: Seq<char>) -> Seq<char> {
    "To: <"@ + target + ">\nFrom: <"@ + email + ">\nSubject: Computation finished\n\n"@ + body
}

/// A run's outcome, shaped for the notification.
pub struct CommandStatusMail {
    /// The executed command, one token per element.
    pub cmdline: Vec<String>,
    /// Measured wall-clock time of the run.
    pub duration: JobDuration,
    /// The process's exit code, or nothing when a signal ended it.
    pub exit_code: Option<i32>,
    /// An optional label for the run.
    pub jobname: Option<String>,
}

impl CommandStatusMail {
    /// The report this outcome produces.
    pub open spec fn body_view(&self) -> Seq<char> {
        report_body(
            self.cmdline@.map_values(|s: String| s@),
            self.duration.secs as nat,
            self.duration.millis as nat,
            match self.exit_code {
                Some(c) => Some(c as int),
                None => None,
            },
            match self.jobname {
                Some(j) => Some(j@),
                None => None,
            },
        )
    }

    /// Builds the report body.
    pub fn build_report(&self) -> (r: String)
        requires
            self.duration.wf(),
        ensures
            r@ == self.body_view(),
    {
        let mut out: Vec<char> = Vec::new();
        push_str_chars(&mut out, "Command: ");
        let joined = join_cmdline(&self.cmdline);
        push_str_chars(&mut out, joined.as_str());
        push_str_chars(&mut out, "\nExecution time: ");
        push_digits(&mut out, self.duration.secs);
        out.push('.');
        let m = self.duration.millis;
        out.push(crate::text::digit_to_char((m / 100) as u64));
        out.push(crate::text::digit_to_char(((m / 10) % 10) as u64));
        out.push(crate::text::digit_to_char((m % 10) as u64));
        push_str_chars(&mut out, " s\nExit code: ");
        match self.exit_code {
            Some(code) => {
                if code < 0 {
                    out.push('-');
                    let mag: u64 = (-(code as i64)) as u64;
                    assert(mag as nat == (-(code as int)) as nat);
                    push_digits(&mut out, mag);
                } else {
                    push_digits(&mut out, code as u64);
                }
            },
            None => {
                push_str_chars(&mut out, "killed by a signal");
            },
        }
        push_str_chars(&mut out, "\nJob name: ");
        match &self.jobname {
            Some(j) => {
                push_str_chars(&mut out, j.as_str());
            },
            None => {
                push_str_chars(&mut out, "none");
            },
        }
        assert(out@ =~= self.body_view());
        chars_to_string(&out)
    }

    /// Builds the full notification text: addressed to the configured
    /// target, from the configured sender, with the fixed subject and the
    /// report body.
    pub fn create_email(&self, config: &Config) -> (r: String)
        requires
            self.duration.wf(),
        ensures
            r@ == message_text(config.target@, config.email@, self.body_view()),
    {
        let mut out: Vec<char> = Vec::new();
        push_str_chars(&mut out, "To: <");
        push_str_chars(&mut out, config.target.as_str());
        push_str_chars(&mut out, ">\nFrom: <");
        push_str_chars(&mut out, config.email.as_str());
        push_str_chars(&mut out, ">\nSubject: Computation finished\n\n");
        let body = self.build_report();
        push_str_chars(&mut out, body.as_str());
        assert(out@ =~= message_text(config.target@, config.email@, self.body_view()));
        chars_to_string(&out)
    }
}

} // verus!
