//! The store's text format: an ordered sequence of job records, each a
//! bracketed table entry with `id`, `command` and `time` keys.
//!
//! The encoder emits one canonical text for every record sequence; the
//! decoder accepts exactly the canonical texts, so a successful decode
//! pins the input down to the encoding of its result.
use crate::jobdb::{Job, JobModel, Jobs};
use crate::text::{
    char_to_digit, chars_to_string, digit_val, digits_of, has_at, is_digit, push_chars,
    push_digits, seq_val,
};
use vstd::prelude::*;

verus! {

// ---------------------------------------------------------------------------
// The grammar's fixed segments
// ---------------------------------------------------------------------------
/// The opening of a record: `[[db]]` and the `id` key.
pub open spec fn lit_header() -> Seq<char> {
    seq!['[', '[', 'd', 'b', ']', ']', '\n', 'i', 'd', ' ', '=', ' ']
}

/// Between the id value and the quoted command string.
pub open spec fn lit_command() -> Seq<char> {
    seq!['\n', 'c', 'o', 'm', 'm', 'a', 'n', 'd', ' ', '=', ' ', '"']
}

/// The command string's closing quote and the `time` key.
pub open spec fn lit_time() -> Seq<char> {
    seq!['"', '\n', 't', 'i', 'm', 'e', ' ', '=', ' ']
}

// ---------------------------------------------------------------------------
// Encoding
// ---------------------------------------------------------------------------
/// A command character as it stands in the store text: quotes and
/// backslashes carry a backslash escape, everything else is itself.
pub open spec fn escape_char(c: char) -> Seq<char> {
    if c == '"' || c == '\\' {
        seq!['\\', c]
    } else {
        seq![c]
    }
}

/// A command string as it stands in the store text.
pub open spec fn escape_str(s: Seq<char>) -> Seq<char>
    decreases s.len(),
{
    if s.len() == 0 {
        Seq::empty()
    } else {
        escape_char(s[0]) + escape_str(s.skip(1))
    }
}

/// The canonical text of one record.
pub open spec fn encode_record(j: JobModel) -> Seq<char> {
    lit_header() + digits_of(j.id) + lit_command() + escape_str(j.command) + lit_time()
        + digits_of(j.time) + seq!['\n']
}

/// The canonical text of a whole store: the records in order, nothing else.
/// The empty store is the empty text.
pub open spec fn encode_jobs(js: Seq<JobModel>) -> Seq<char>
    decreases js.len(),
{
    if js.len() == 0 {
        Seq::empty()
    } else {
        encode_record(js[0]) + encode_jobs(js.skip(1))
    }
}

/// Both numeric fields of every record fit the machine representation.
pub open spec fn wf_models(js: Seq<JobModel>) -> bool {
    forall|k: int|
        0 <= k < js.len() ==> (#[trigger] js[k]).id <= u64::MAX && js[k].time <= u64::MAX
}

// ---------------------------------------------------------------------------
// Decoding (specification)
// ---------------------------------------------------------------------------
/// The end of the digit run that starts at `i`.
pub open spec fn digits_end(s: Seq<char>, i: int) -> int
    decreases s.len() - i when 0 <= i <= s.len()
{
    if i < s.len() && is_digit(s[i]) {
        digits_end(s, i + 1)
    } else {
        i
    }
}

/// Parses a canonical numeral at `i`: at least one digit, no leading zero,
/// and a value that fits in a `u64`.
pub open spec fn parse_number(s: Seq<char>, i: int) -> Option<(nat, int)> {
    let e = digits_end(s, i);
    if e == i {
        None
    } else if s[i] == '0' && e != i + 1 {
        None
    } else if seq_val(s.subrange(i, e)) > u64::MAX {
        None
    } else {
        Some((seq_val(s.subrange(i, e)), e))
    }
}

/// Parses an escaped string body from `i` up to (not including) the closing
/// quote; returns the unescaped content and the closing quote's index.
pub open spec fn parse_string_body(s: Seq<char>, i: int) -> Option<(Seq<char>, int)>
    decreases s.len() - i when 0 <= i <= s.len()
{
    if i >= s.len() {
        None
    } else if s[i] == '"' {
        Some((Seq::empty(), i))
    } else if s[i] == '\\' {
        if i + 1 < s.len() && (s[i + 1] == '"' || s[i + 1] == '\\') {
            match parse_string_body(s, i + 2) {
                Some((c, e)) => Some((seq![s[i + 1]] + c, e)),
                None => None,
            }
        } else {
            None
        }
    } else {
        match parse_string_body(s, i + 1) {
            Some((c, e)) => Some((seq![s[i]] + c, e)),
            None => None,
        }
    }
}

/// Parses one record starting at `i`.
pub open spec fn parse_record(s: Seq<char>, i: int) -> Option<(JobModel, int)> {
    if !has_at(s, i, lit_header()) {
        None
    } else {
        match parse_number(s, i + lit_header().len()) {
            None => None,
            Some((id, i2)) => if !has_at(s, i2, lit_command()) {
                None
            } else {
                match parse_string_body(s, i2 + lit_command().len()) {
                    None => None,
                    Some((cmd, i4)) => if !has_at(s, i4, lit_time()) {
                        None
                    } else {
                        match parse_number(s, i4 + lit_time().len()) {
                            None => None,
                            Some((time, i6)) => if i6 < s.len() && s[i6] == '\n' {
                                Some((JobModel { id, command: cmd, time }, i6 + 1))
                            } else {
                                None
                            },
                        }
                    },
                }
            },
        }
    }
}

/// Parses records from `i` to the end of the text.
pub open spec fn parse_jobs(s: Seq<char>, i: int) -> Option<Seq<JobModel>>
    decreases s.len() - i when 0 <= i <= s.len()
{
    if i == s.len() {
        Some(Seq::empty())
    } else {
        match parse_record(s, i) {
            None => None,
            Some((j, e)) => if i < e <= s.len() {
                match parse_jobs(s, e) {
                    None => None,
                    Some(rest) => Some(seq![j] + rest),
                }
            } else {
                None
            },
        }
    }
}

/// What a store text means: the record sequence it encodes, or nothing when
/// it is not a canonical store text.
pub open spec fn decode_spec(s: Seq<char>) -> Option<Seq<JobModel>> {
    parse_jobs(s, 0)
}

// ---------------------------------------------------------------------------
// Executable encoder
// ---------------------------------------------------------------------------
fn lit_header_vec() -> (r: Vec<char>)
    ensures
        r@ == lit_header(),
{
    let mut v: Vec<char> = Vec::new();
    v.push('[');
    v.push('[');
    v.push('d');
    v.push('b');
    v.push(']');
    v.push(']');
    v.push('\n');
    v.push('i');
    v.push('d');
    v.push(' ');
    v.push('=');
    v.push(' ');
    assert(v@ =~= lit_header());
    v
}

fn lit_command_vec() -> (r: Vec<char>)
    ensures
        r@ == lit_command(),
{
    let mut v: Vec<char> = Vec::new();
    v.push('\n');
    v.push('c');
    v.push('o');
    v.push('m');
    v.push('m');
    v.push('a');
    v.push('n');
    v.push('d');
    v.push(' ');
    v.push('=');
    v.push(' ');
    v.push('"');
    assert(v@ =~= lit_command());
    v
}

fn lit_time_vec() -> (r: Vec<char>)
    ensures
        r@ == lit_time(),
{
    let mut v: Vec<char> = Vec::new();
    v.push('"');
    v.push('\n');
    v.push('t');
    v.push('i');
    v.push('m');
    v.push('e');
    v.push(' ');
    v.push('=');
    v.push(' ');
    assert(v@ =~= lit_time());
    v
}

proof fn lemma_escape_str_push(s: Seq<char>, c: char)
    ensures
        escape_str(s.push(c)) == escape_str(s) + escape_char(c),
    decreases s.len(),
{
    if s.len() == 0 {
        assert(s.push(c)[0] == c);
        assert(s.push(c).skip(1) =~= Seq::<char>::empty());
        assert(escape_str(Seq::<char>::empty()) == Seq::<char>::empty());
        assert(escape_str(s.push(c).skip(1)) == Seq::<char>::empty());
        assert(escape_str(s.push(c)) == escape_char(c) + Seq::<char>::empty());
        assert(escape_str(s) == Seq::<char>::empty());
        assert(escape_str(s.push(c)) =~= escape_str(s) + escape_char(c));
    } else {
        lemma_escape_str_push(s.skip(1), c);
        assert(s.push(c).skip(1) =~= s.skip(1).push(c));
        assert(s.push(c)[0] == s[0]);
        assert(s.push(c).len() > 0);
        assert(escape_str(s.push(c)) == escape_char(s.push(c)[0]) + escape_str(s.push(c).skip(1)));
        assert(escape_str(s.push(c).skip(1)) == escape_str(s.skip(1).push(c)));
        assert(escape_str(s.skip(1).push(c)) == escape_str(s.skip(1)) + escape_char(c));
        assert(escape_str(s) == escape_char(s[0]) + escape_str(s.skip(1)));
        assert(escape_str(s.push(c)) =~= escape_str(s) + escape_char(c));
    }
}

/// Appends the escaped form of `s` to `out`.
fn push_escaped(out: &mut Vec<char>, s: &str)
    ensures
        final(out)@ == old(out)@ + escape_str(s@),
{
    let n = s.unicode_len();
    let mut k: usize = 0;
    assert(s@.subrange(0, 0) =~= Seq::<char>::empty());
    assert(out@ =~= old(out)@ + escape_str(s@.subrange(0, 0)));
    while k < n
        invariant
            k <= n,
            n == s@.len(),
            out@ == old(out)@ + escape_str(s@.subrange(0, k as int)),
        decreases n - k,
    {
        let c = s.get_char(k);
        if c == '"' || c == '\\' {
            out.push('\\');
            out.push(c);
        } else {
            out.push(c);
        }
        proof {
            lemma_escape_str_push(s@.subrange(0, k as int), c);
            assert(s@.subrange(0, k as int + 1) =~= s@.subrange(0, k as int).push(c));
            assert(out@ =~= old(out)@ + escape_str(s@.subrange(0, k as int + 1)));
        }
        k = k + 1;
    }
    assert(s@.subrange(0, n as int) =~= s@);
}

proof fn lemma_encode_jobs_push(js: Seq<JobModel>, j: JobModel)
    ensures
        encode_jobs(js.push(j)) == encode_jobs(js) + encode_record(j),
    decreases js.len(),
{
    if js.len() == 0 {
        assert(js.push(j)[0] == j);
        assert(js.push(j).skip(1) =~= Seq::<JobModel>::empty());
        assert(encode_jobs(Seq::<JobModel>::empty()) == Seq::<char>::empty());
        assert(encode_jobs(js.push(j).skip(1)) == Seq::<char>::empty());
        assert(encode_jobs(js.push(j)) == encode_record(j) + Seq::<char>::empty());
        assert(encode_jobs(js) == Seq::<char>::empty());
        assert(encode_jobs(js.push(j)) =~= encode_jobs(js) + encode_record(j));
    } else {
        lemma_encode_jobs_push(js.skip(1), j);
        assert(js.push(j).skip(1) =~= js.skip(1).push(j));
        assert(js.push(j)[0] == js[0]);
        assert(js.push(j).len() > 0);
        assert(encode_jobs(js.push(j)) == encode_record(js.push(j)[0]) + encode_jobs(
            js.push(j).skip(1),
        ));
        assert(encode_jobs(js.push(j).skip(1)) == encode_jobs(js.skip(1).push(j)));
        assert(encode_jobs(js.skip(1).push(j)) == encode_jobs(js.skip(1)) + encode_record(j));
        assert(encode_jobs(js) == encode_record(js[0]) + encode_jobs(js.skip(1)));
        assert(encode_jobs(js.push(j)) =~= encode_jobs(js) + encode_record(j));
    }
}

/// Appends the canonical text of one record to `out`.
fn push_record(out: &mut Vec<char>, job: &Job)
    ensures
        final(out)@ == old(out)@ + encode_record(job@),
{
    let header = lit_header_vec();
    let command = lit_command_vec();
    let time = lit_time_vec();
    push_chars(out, &header);
    push_digits(out, job.id);
    push_chars(out, &command);
    push_escaped(out, job.command.as_str());
    push_chars(out, &time);
    push_digits(out, job.time);
    out.push('\n');
    assert(final(out)@ =~= old(out)@ + encode_record(job@));
}

/// Encodes a whole store as its canonical text.
pub fn encode_store(jobs: &Jobs) -> (r: String)
    ensures
        r@ == encode_jobs(jobs@),
{
    let mut out: Vec<char> = Vec::new();
    let mut k: usize = 0;
    assert(encode_jobs(jobs@.subrange(0, 0)) =~= Seq::<char>::empty());
    while k < jobs.db.len()
        invariant
            k <= jobs.db.len(),
            out@ == encode_jobs(jobs@.subrange(0, k as int)),
            jobs@.len() == jobs.db.len(),
        decreases jobs.db.len() - k,
    {
        push_record(&mut out, &jobs.db[k]);
        proof {
            lemma_encode_jobs_push(jobs@.subrange(0, k as int), jobs.db[k as int]@);
            assert(jobs@.subrange(0, k as int + 1) =~= jobs@.subrange(0, k as int).push(
                jobs@[k as int],
            ));
            assert(jobs@[k as int] == jobs.db[k as int]@);
        }
        k = k + 1;
    }
    assert(jobs@.subrange(0, jobs@.len() as int) =~= jobs@);
    chars_to_string(&out)
}

// ---------------------------------------------------------------------------
// Executable decoder
// ---------------------------------------------------------------------------
/// `digits_end` stands between `i` and the text's end, everything before it
/// is a digit, and the character at it (if any) is not.
proof fn lemma_digits_end_props(s: Seq<char>, i: int)
    requires
        0 <= i <= s.len(),
    ensures
        i <= digits_end(s, i) <= s.len(),
        forall|k: int| i <= k < digits_end(s, i) ==> is_digit(#[trigger] s[k]),
        digits_end(s, i) == s.len() || !is_digit(s[digits_end(s, i)]),
    decreases s.len() - i,
{
    if i < s.len() && is_digit(s[i]) {
        lemma_digits_end_props(s, i + 1);
    }
}

/// Whether `pat` occurs in `s` at position `i`.
fn match_at(s: &str, n: usize, i: usize, pat: &Vec<char>) -> (r: bool)
    requires
        n == s@.len(),
    ensures
        r == has_at(s@, i as int, pat@),
{
    if i > n || n - i < pat.len() {
        return false;
    }
    let mut j: usize = 0;
    while j < pat.len()
        invariant
            j <= pat.len(),
            i + pat.len() <= n,
            n == s@.len(),
            forall|k: int| 0 <= k < j ==> s@[i + k] == pat@[k],
        decreases pat.len() - j,
    {
        if s.get_char(i + j) != pat[j] {
            assert(s@[i + j] != pat@[j as int]);
            assert(s@.subrange(i as int, i + pat@.len()) != pat@) by {
                if s@.subrange(i as int, i + pat@.len()) == pat@ {
                    assert(s@.subrange(i as int, i + pat@.len())[j as int] == s@[i + j]);
                }
            }
            return false;
        }
        j = j + 1;
    }
    assert(s@.subrange(i as int, i + pat@.len()) =~= pat@);
    true
}

/// Parses a canonical numeral at `i`.
fn parse_number_exec(s: &str, n: usize, i: usize) -> (r: Option<(u64, usize)>)
    requires
        n == s@.len(),
        i <= n,
    ensures
        match r {
            Some((v, e)) => parse_number(s@, i as int) == Some((v as nat, e as int)) && i < e <= n,
            None => parse_number(s@, i as int) is None,
        },
{
    proof {
        lemma_digits_end_props(s@, i as int);
    }
    let ghost ge = digits_end(s@, i as int);
    let mut k: usize = i;
    let mut val: u64 = 0;
    let mut overflow: bool = false;
    assert(s@.subrange(i as int, i as int) =~= Seq::<char>::empty());
    loop
        invariant_except_break
            i <= k <= n,
            n == s@.len(),
            ge == digits_end(s@, i as int),
            digits_end(s@, k as int) == ge,
            forall|m: int| i <= m < k ==> is_digit(#[trigger] s@[m]),
            !overflow ==> val as nat == seq_val(s@.subrange(i as int, k as int)),
            overflow ==> seq_val(s@.subrange(i as int, k as int)) > u64::MAX,
        ensures
            i <= k <= n,
            n == s@.len(),
            k == ge,
            ge == digits_end(s@, i as int),
            !overflow ==> val as nat == seq_val(s@.subrange(i as int, k as int)),
            overflow ==> seq_val(s@.subrange(i as int, k as int)) > u64::MAX,
        decreases n - k,
    {
        if k >= n {
            proof {
                assert(digits_end(s@, k as int) == k);
            }
            break;
        }
        let c = s.get_char(k);
        let d = match char_to_digit(c) {
            Some(d) => d,
            None => {
                proof {
                    assert(digits_end(s@, k as int) == k);
                }
                break;
            },
        };
        proof {
            assert(is_digit(s@[k as int]));
            assert(s@.subrange(i as int, k as int + 1).drop_last() =~= s@.subrange(
                i as int,
                k as int,
            ));
            assert(s@.subrange(i as int, k as int + 1).last() == s@[k as int]);
            assert(seq_val(s@.subrange(i as int, k as int + 1)) == seq_val(
                s@.subrange(i as int, k as int),
            ) * 10 + digit_val(s@[k as int]));
        }
        if !overflow {
            if val <= (u64::MAX - d) / 10 {
                proof {
                    assert(val * 10 + d <= u64::MAX) by (nonlinear_arith)
                        requires
                            val <= (u64::MAX - d) / 10,
                            d <= u64::MAX,
                    ;
                }
                val = val * 10 + d;
            } else {
                proof {
                    assert(val * 10 + d > u64::MAX) by (nonlinear_arith)
                        requires
                            val > (u64::MAX - d) / 10,
                            d < 10,
                    ;
                }
                overflow = true;
            }
        } else {
            proof {
                let prev = seq_val(s@.subrange(i as int, k as int));
                assert(prev * 10 + digit_val(s@[k as int]) > u64::MAX) by (nonlinear_arith)
                    requires
                        prev > u64::MAX,
                ;
            }
        }
        k = k + 1;
        proof {
            // the digit run continues past the character just consumed
            assert(digits_end(s@, k - 1) == digits_end(s@, k as int));
        }
    }
    if k == i {
        assert(parse_number(s@, i as int) is None);
        return None;
    }
    if overflow {
        return None;
    }
    if s.get_char(i) == '0' && k != i + 1 {
        return None;
    }
    Some((val, k))
}

/// A parsed string body ends at a closing quote inside the text.
proof fn lemma_psb_bounds(s: Seq<char>, i: int)
    requires
        0 <= i <= s.len(),
    ensures
        parse_string_body(s, i) matches Some((c, e)) ==> i <= e < s.len() && s[e] == '"',
    decreases s.len() - i,
{
    if i >= s.len() {
    } else if s[i] == '"' {
    } else if s[i] == '\\' {
        if i + 1 < s.len() && (s[i + 1] == '"' || s[i + 1] == '\\') {
            lemma_psb_bounds(s, i + 2);
        }
    } else {
        lemma_psb_bounds(s, i + 1);
    }
}

/// Parses an escaped string body at `i`; returns the content and the index
/// of the closing quote.
fn parse_qstring_exec(s: &str, n: usize, i: usize) -> (r: Option<(Vec<char>, usize)>)
    requires
        n == s@.len(),
        i <= n,
    ensures
        match r {
            Some((content, e)) => parse_string_body(s@, i as int) == Some((content@, e as int))
                && i <= e < n,
            None => parse_string_body(s@, i as int) is None,
        },
{
    let mut out: Vec<char> = Vec::new();
    let mut k: usize = i;
    proof {
        match parse_string_body(s@, i as int) {
            Some((c, e)) => {
                lemma_psb_bounds(s@, i as int);
                assert(out@ + c =~= c);
            },
            None => {},
        }
    }
    loop
        invariant
            i <= k <= n,
            n == s@.len(),
            (match parse_string_body(s@, k as int) {
                Some((c, e)) => parse_string_body(s@, i as int) == Some((out@ + c, e)) && k <= e,
                None => parse_string_body(s@, i as int) is None,
            }),
        decreases n - k,
    {
        if k >= n {
            return None;
        }
        let c = s.get_char(k);
        if c == '"' {
            proof {
                assert(parse_string_body(s@, k as int) == Some((Seq::<char>::empty(), k as int)));
                assert(out@ + Seq::<char>::empty() =~= out@);
            }
            return Some((out, k));
        }
        if c == '\\' {
            if k + 1 < n {
                let c2 = s.get_char(k + 1);
                if c2 == '"' || c2 == '\\' {
                    proof {
                        match parse_string_body(s@, k as int + 2) {
                            Some((cc, e)) => {
                                lemma_psb_bounds(s@, k as int + 2);
                                assert(parse_string_body(s@, k as int) == Some(
                                    (seq![s@[k as int + 1]] + cc, e),
                                ));
                                assert(out@ + (seq![s@[k as int + 1]] + cc) =~= out@.push(
                                    s@[k as int + 1],
                                ) + cc);
                            },
                            None => {
                                assert(parse_string_body(s@, k as int) is None);
                            },
                        }
                    }
                    out.push(c2);
                    k = k + 2;
                } else {
                    assert(parse_string_body(s@, k as int) is None);
                    return None;
                }
            } else {
                assert(parse_string_body(s@, k as int) is None);
                return None;
            }
        } else {
            proof {
                match parse_string_body(s@, k as int + 1) {
                    Some((cc, e)) => {
                        lemma_psb_bounds(s@, k as int + 1);
                        assert(parse_string_body(s@, k as int) == Some(
                            (seq![s@[k as int]] + cc, e),
                        ));
                        assert(out@ + (seq![s@[k as int]] + cc) =~= out@.push(s@[k as int]) + cc);
                    },
                    None => {
                        assert(parse_string_body(s@, k as int) is None);
                    },
                }
            }
            out.push(c);
            k = k + 1;
        }
    }
}

/// Parses one record at `i`.
fn parse_record_exec(s: &str, n: usize, i: usize) -> (r: Option<(Job, usize)>)
    requires
        n == s@.len(),
        i <= n,
    ensures
        match r {
            Some((job, e)) => parse_record(s@, i as int) == Some((job@, e as int)) && i < e <= n,
            None => parse_record(s@, i as int) is None,
        },
{
    let header = lit_header_vec();
    let command = lit_command_vec();
    let time_lit = lit_time_vec();
    if !match_at(s, n, i, &header) {
        return None;
    }
    let i1 = i + header.len();
    let (id, i2) = match parse_number_exec(s, n, i1) {
        Some(p) => p,
        None => {
            return None;
        },
    };
    if !match_at(s, n, i2, &command) {
        return None;
    }
    let i3 = i2 + command.len();
    let (content, i4) = match parse_qstring_exec(s, n, i3) {
        Some(p) => p,
        None => {
            return None;
        },
    };
    if !match_at(s, n, i4, &time_lit) {
        return None;
    }
    let i5 = i4 + time_lit.len();
    let (time, i6) = match parse_number_exec(s, n, i5) {
        Some(p) => p,
        None => {
            return None;
        },
    };
    if i6 < n && s.get_char(i6) == '\n' {
        let job = Job { id, command: chars_to_string(&content), time };
        assert(job@ == JobModel { id: id as nat, command: content@, time: time as nat });
        Some((job, i6 + 1))
    } else {
        None
    }
}

/// Decodes a store text into its record sequence; fails on any text that is
/// not the canonical encoding of one. The empty text is the empty store.
pub fn decode_store(text: &str) -> (r: Option<Jobs>)
    ensures
        match r {
            Some(jobs) => decode_spec(text@) == Some(jobs@),
            None => decode_spec(text@) is None,
        },
{
    let n = text.unicode_len();
    let mut db: Vec<Job> = Vec::new();
    let mut pos: usize = 0;
    proof {
        assert(db@.map_values(|j: Job| j@) =~= Seq::<JobModel>::empty());
        match parse_jobs(text@, 0) {
            Some(rest) => {
                assert(Seq::<JobModel>::empty() + rest =~= rest);
            },
            None => {},
        }
    }
    loop
        invariant
            pos <= n,
            n == text@.len(),
            parse_jobs(text@, 0) == (match parse_jobs(text@, pos as int) {
                Some(rest) => Some(db@.map_values(|j: Job| j@) + rest),
                None => None::<Seq<JobModel>>,
            }),
        decreases n - pos,
    {
        if pos == n {
            let jobs = Jobs { db };
            proof {
                assert(parse_jobs(text@, pos as int) == Some(Seq::<JobModel>::empty()));
                assert(jobs@ + Seq::<JobModel>::empty() =~= jobs@);
            }
            return Some(jobs);
        }
        match parse_record_exec(text, n, pos) {
            None => {
                assert(parse_jobs(text@, pos as int) is None);
                return None;
            },
            Some((job, e)) => {
                proof {
                    let j = job@;
                    let models = db@.map_values(|jj: Job| jj@);
                    assert(db@.push(job).map_values(|jj: Job| jj@) =~= models.push(j));
                    match parse_jobs(text@, e as int) {
                        Some(rest) => {
                            assert(parse_jobs(text@, pos as int) == Some(seq![j] + rest));
                            assert(models + (seq![j] + rest) =~= models.push(j) + rest);
                        },
                        None => {
                            assert(parse_jobs(text@, pos as int) is None);
                        },
                    }
                }
                db.push(job);
                pos = e;
            },
        }
    }
}

// ---------------------------------------------------------------------------
// Soundness: a successful decode pins the text down to an encoding
// ---------------------------------------------------------------------------
/// A parsed numeral is the canonical numeral of its value.
proof fn lemma_parse_number_sound(s: Seq<char>, i: int)
    requires
        0 <= i <= s.len(),
    ensures
        parse_number(s, i) matches Some((v, e)) ==> i < e <= s.len() && s.subrange(i, e)
            == digits_of(v),
{
    lemma_digits_end_props(s, i);
    match parse_number(s, i) {
        Some((v, e)) => {
            let ds = s.subrange(i, e);
            assert(forall|k: int| 0 <= k < ds.len() ==> is_digit(#[trigger] ds[k]));
            assert(ds[0] == s[i]);
            crate::text::lemma_canonical_digits(ds);
        },
        None => {},
    }
}

/// A parsed string body is the escaped form of its content.
proof fn lemma_parse_string_sound(s: Seq<char>, i: int)
    requires
        0 <= i <= s.len(),
    ensures
        parse_string_body(s, i) matches Some((c, e)) ==> {
            &&& i <= e < s.len()
            &&& s[e] == '"'
            &&& s.subrange(i, e) == escape_str(c)
        },
    decreases s.len() - i,
{
    lemma_psb_bounds(s, i);
    if i >= s.len() {
    } else if s[i] == '"' {
        assert(s.subrange(i, i) =~= Seq::<char>::empty());
        assert(escape_str(Seq::<char>::empty()) == Seq::<char>::empty());
    } else if s[i] == '\\' {
        if i + 1 < s.len() && (s[i + 1] == '"' || s[i + 1] == '\\') {
            lemma_parse_string_sound(s, i + 2);
            match parse_string_body(s, i + 2) {
                Some((cc, e)) => {
                    let c = seq![s[i + 1]] + cc;
                    assert(c[0] == s[i + 1]);
                    assert(c.skip(1) =~= cc);
                    assert(escape_char(c[0]) =~= seq![s[i], s[i + 1]]);
                    assert(escape_str(c) == escape_char(c[0]) + escape_str(cc));
                    assert(s.subrange(i, e) =~= seq![s[i], s[i + 1]] + s.subrange(i + 2, e));
                    assert(s.subrange(i, e) =~= escape_str(c));
                },
                None => {},
            }
        }
    } else {
        lemma_parse_string_sound(s, i + 1);
        match parse_string_body(s, i + 1) {
            Some((cc, e)) => {
                let c = seq![s[i]] + cc;
                assert(c[0] == s[i]);
                assert(c.skip(1) =~= cc);
                assert(escape_char(c[0]) =~= seq![s[i]]);
                assert(escape_str(c) == escape_char(c[0]) + escape_str(cc));
                assert(s.subrange(i, e) =~= seq![s[i]] + s.subrange(i + 1, e));
                assert(s.subrange(i, e) =~= escape_str(c));
            },
            None => {},
        }
    }
}

/// A parsed record occupies exactly its canonical text.
proof fn lemma_parse_record_sound(s: Seq<char>, i: int)
    requires
        0 <= i <= s.len(),
    ensures
        parse_record(s, i) matches Some((j, e)) ==> i < e <= s.len() && s.subrange(i, e)
            == encode_record(j),
{
    if has_at(s, i, lit_header()) {
        let i1 = i + lit_header().len();
        lemma_parse_number_sound(s, i1);
        match parse_number(s, i1) {
            None => {},
            Some((id, i2)) => {
                if has_at(s, i2, lit_command()) {
                    let i3 = i2 + lit_command().len();
                    lemma_parse_string_sound(s, i3);
                    match parse_string_body(s, i3) {
                        None => {},
                        Some((cmd, i4)) => {
                            if has_at(s, i4, lit_time()) {
                                let i5 = i4 + lit_time().len();
                                lemma_parse_number_sound(s, i5);
                                match parse_number(s, i5) {
                                    None => {},
                                    Some((time, i6)) => {
                                        if i6 < s.len() && s[i6] == '\n' {
                                            let e = i6 + 1;
                                            assert(s.subrange(i, i1) == lit_header());
                                            assert(s.subrange(i1, i2) == digits_of(id));
                                            assert(s.subrange(i2, i3) == lit_command());
                                            assert(s.subrange(i3, i4) == escape_str(cmd));
                                            assert(s.subrange(i4, i5) == lit_time());
                                            assert(s.subrange(i5, i6) == digits_of(time));
                                            assert(s.subrange(i6, e) =~= seq!['\n']);
                                            assert(s.subrange(i, i2) =~= s.subrange(i, i1)
                                                + s.subrange(i1, i2));
                                            assert(s.subrange(i, i3) =~= s.subrange(i, i2)
                                                + s.subrange(i2, i3));
                                            assert(s.subrange(i, i4) =~= s.subrange(i, i3)
                                                + s.subrange(i3, i4));
                                            assert(s.subrange(i, i5) =~= s.subrange(i, i4)
                                                + s.subrange(i4, i5));
                                            assert(s.subrange(i, i6) =~= s.subrange(i, i5)
                                                + s.subrange(i5, i6));
                                            assert(s.subrange(i, e) =~= s.subrange(i, i6)
                                                + s.subrange(i6, e));
                                            assert(s.subrange(i, e) == encode_record(
                                                JobModel { id, command: cmd, time },
                                            ));
                                        }
                                    },
                                }
                            }
                        },
                    }
                }
            },
        }
    }
}

/// A parsed suffix is exactly the encoding of the records it yields.
proof fn lemma_parse_jobs_sound(s: Seq<char>, i: int)
    requires
        0 <= i <= s.len(),
    ensures
        parse_jobs(s, i) matches Some(js) ==> s.subrange(i, s.len() as int) == encode_jobs(js),
    decreases s.len() - i,
{
    if i == s.len() {
        assert(s.subrange(i, s.len() as int) =~= Seq::<char>::empty());
        assert(encode_jobs(Seq::<JobModel>::empty()) == Seq::<char>::empty());
    } else {
        lemma_parse_record_sound(s, i);
        match parse_record(s, i) {
            None => {},
            Some((j, e)) => {
                if i < e <= s.len() {
                    lemma_parse_jobs_sound(s, e);
                    match parse_jobs(s, e) {
                        None => {},
                        Some(rest) => {
                            let js = seq![j] + rest;
                            assert(js[0] == j);
                            assert(js.skip(1) =~= rest);
                            assert(js.len() > 0);
                            assert(encode_jobs(js) == encode_record(j) + encode_jobs(rest));
                            assert(s.subrange(i, s.len() as int) =~= s.subrange(i, e) + s.subrange(
                                e,
                                s.len() as int,
                            ));
                        },
                    }
                }
            },
        }
    }
}

/// A store text that decodes at all is the canonical encoding of what it
/// decodes to — so re-encoding the decoded records gives back the very same
/// text, and it decodes to the same records again. A text that is not an
/// encoding never decodes, and never to a partial record sequence.
pub proof fn lemma_store_text_canonical(text: Seq<char>)
    requires
        decode_spec(text) is Some,
    ensures
        text == encode_jobs(decode_spec(text)->Some_0),
        decode_spec(encode_jobs(decode_spec(text)->Some_0)) == decode_spec(text),
{
    lemma_parse_jobs_sound(text, 0);
    assert(text.subrange(0, text.len() as int) =~= text);
}

// ---------------------------------------------------------------------------
// Completeness: every canonical encoding decodes to what it encodes
// ---------------------------------------------------------------------------
/// A digit run bounded by a non-digit (or the text's end) ends there.
proof fn lemma_digits_end_of_run(s: Seq<char>, i: int, e: int)
    requires
        0 <= i <= e <= s.len(),
        forall|k: int| i <= k < e ==> is_digit(#[trigger] s[k]),
        e == s.len() || !is_digit(s[e]),
    ensures
        digits_end(s, i) == e,
    decreases e - i,
{
    if i < e {
        assert(is_digit(s[i]));
        lemma_digits_end_of_run(s, i + 1, e);
    }
}

/// A canonical numeral followed by a non-digit parses to its value.
proof fn lemma_parse_number_complete(s: Seq<char>, i: int, v: nat)
    requires
        0 <= i,
        i + digits_of(v).len() <= s.len(),
        s.subrange(i, i + digits_of(v).len()) == digits_of(v),
        v <= u64::MAX,
        i + digits_of(v).len() == s.len() || !is_digit(s[i + digits_of(v).len()]),
    ensures
        parse_number(s, i) == Some((v, i + digits_of(v).len())),
{
    let ds = digits_of(v);
    let e = i + ds.len();
    crate::text::lemma_digits_of_basic(v);
    assert(forall|k: int| i <= k < e ==> s[k] == ds[k - i]);
    assert(forall|k: int| i <= k < e ==> is_digit(#[trigger] s[k]));
    lemma_digits_end_of_run(s, i, e);
    assert(seq_val(s.subrange(i, e)) == v);
    if s[i] == '0' {
        assert(ds[0] == '0');
        assert(ds.len() == 1);
    }
}

/// An escaped string body followed by its closing quote parses to its
/// content.
proof fn lemma_parse_string_complete(s: Seq<char>, i: int, c: Seq<char>)
    requires
        0 <= i,
        i + escape_str(c).len() < s.len(),
        s.subrange(i, i + escape_str(c).len()) == escape_str(c),
        s[i + escape_str(c).len()] == '"',
    ensures
        parse_string_body(s, i) == Some((c, i + escape_str(c).len())),
    decreases c.len(),
{
    let m = escape_str(c).len();
    if c.len() == 0 {
        assert(escape_str(c) == Seq::<char>::empty());
        assert(m == 0);
        assert(s[i] == '"');
    } else {
        assert(escape_str(c) == escape_char(c[0]) + escape_str(c.skip(1)));
        let m1 = escape_char(c[0]).len();
        assert(forall|k: int| i <= k < i + m ==> s[k] == escape_str(c)[k - i]);
        if c[0] == '"' || c[0] == '\\' {
            assert(escape_char(c[0]) == seq!['\\', c[0]]);
            assert(s[i] == '\\');
            assert(s[i + 1] == c[0]);
            assert(s.subrange(i + 2, i + m) =~= escape_str(c.skip(1)));
            lemma_parse_string_complete(s, i + 2, c.skip(1));
            assert(parse_string_body(s, i) == Some((seq![s[i + 1]] + c.skip(1), i + m)));
            assert(seq![c[0]] + c.skip(1) =~= c);
        } else {
            assert(escape_char(c[0]) == seq![c[0]]);
            assert(s[i] == c[0]);
            assert(s[i] != '"' && s[i] != '\\');
            assert(s.subrange(i + 1, i + m) =~= escape_str(c.skip(1)));
            lemma_parse_string_complete(s, i + 1, c.skip(1));
            assert(parse_string_body(s, i) == Some((seq![s[i]] + c.skip(1), i + m)));
            assert(seq![c[0]] + c.skip(1) =~= c);
        }
    }
}

/// A record's canonical text parses to that record, whatever follows it.
#[verifier::rlimit(60)]
proof fn lemma_parse_record_complete(s: Seq<char>, i: int, j: JobModel)
    requires
        0 <= i,
        i + encode_record(j).len() <= s.len(),
        s.subrange(i, i + encode_record(j).len()) == encode_record(j),
        j.id <= u64::MAX,
        j.time <= u64::MAX,
    ensures
        parse_record(s, i) == Some((j, i + encode_record(j).len())),
{
    let rec = encode_record(j);
    let lh = lit_header().len() as int;
    let lc = lit_command().len() as int;
    let lt = lit_time().len() as int;
    let n_id = digits_of(j.id).len() as int;
    let n_cmd = escape_str(j.command).len() as int;
    let n_t = digits_of(j.time).len() as int;
    let i1 = i + lh;
    let i2 = i1 + n_id;
    let i3 = i2 + lc;
    let i4 = i3 + n_cmd;
    let i5 = i4 + lt;
    let i6 = i5 + n_t;
    let e = i6 + 1;
    assert(rec.len() == lh + n_id + lc + n_cmd + lt + n_t + 1);
    assert(forall|k: int| i <= k < e ==> s[k] == rec[k - i]);
    assert(s.subrange(i, i1) =~= lit_header());
    assert(has_at(s, i, lit_header()));
    assert(s.subrange(i1, i2) =~= digits_of(j.id));
    assert(s[i2] == lit_command()[0]);
    assert(!is_digit('\n'));
    lemma_parse_number_complete(s, i1, j.id);
    assert(s.subrange(i2, i3) =~= lit_command());
    assert(has_at(s, i2, lit_command()));
    assert(s.subrange(i3, i4) =~= escape_str(j.command));
    assert(s[i4] == lit_time()[0]);
    lemma_parse_string_complete(s, i3, j.command);
    assert(s.subrange(i4, i5) =~= lit_time());
    assert(has_at(s, i4, lit_time()));
    assert(s.subrange(i5, i6) =~= digits_of(j.time));
    assert(s[i6] == rec[i6 - i]);
    assert(rec[lh + n_id + lc + n_cmd + lt + n_t] == '\n');
    assert(s[i6] == '\n');
    lemma_parse_number_complete(s, i5, j.time);
    assert(parse_record(s, i) == Some((JobModel { id: j.id, command: j.command, time: j.time }, e)));
    assert(JobModel { id: j.id, command: j.command, time: j.time } == j);
}

/// A store's canonical text, as a whole suffix, parses to its records.
proof fn lemma_parse_jobs_complete(s: Seq<char>, i: int, js: Seq<JobModel>)
    requires
        0 <= i <= s.len(),
        s.subrange(i, s.len() as int) == encode_jobs(js),
        wf_models(js),
    ensures
        parse_jobs(s, i) == Some(js),
    decreases js.len(),
{
    if js.len() == 0 {
        assert(encode_jobs(js) == Seq::<char>::empty());
        assert(s.subrange(i, s.len() as int).len() == 0);
        assert(i == s.len());
    } else {
        assert(encode_jobs(js) == encode_record(js[0]) + encode_jobs(js.skip(1)));
        let rec = encode_record(js[0]);
        let e = i + rec.len();
        assert(rec.len() >= lit_header().len());
        assert(e <= s.len());
        assert(forall|k: int| i <= k < s.len() ==> s[k] == encode_jobs(js)[k - i]);
        assert(s.subrange(i, e) =~= rec);
        assert(js[0].id <= u64::MAX && js[0].time <= u64::MAX);
        lemma_parse_record_complete(s, i, js[0]);
        assert(s.subrange(e, s.len() as int) =~= encode_jobs(js.skip(1)));
        assert(wf_models(js.skip(1))) by {
            assert(forall|k: int|
                0 <= k < js.skip(1).len() ==> #[trigger] js.skip(1)[k] == js[k + 1]);
        }
        lemma_parse_jobs_complete(s, e, js.skip(1));
        assert(i < e);
        assert(parse_jobs(s, i) == Some(seq![js[0]] + js.skip(1)));
        assert(seq![js[0]] + js.skip(1) =~= js);
    }
}

/// Every record sequence whose fields fit the machine representation comes
/// back unchanged from a decode of its canonical text.
pub proof fn lemma_encode_then_decode(js: Seq<JobModel>)
    requires
        wf_models(js),
    ensures
        decode_spec(encode_jobs(js)) == Some(js),
{
    let s = encode_jobs(js);
    assert(s.subrange(0, s.len() as int) =~= s);
    lemma_parse_jobs_complete(s, 0, js);
}

/// Decoding any text that encodes no record sequence fails: there is no
/// partial result to act on.
pub proof fn lemma_malformed_fails(text: Seq<char>)
    requires
        forall|js: Seq<JobModel>| text != encode_jobs(js),
    ensures
        decode_spec(text) is None,
{
    match decode_spec(text) {
        Some(js) => {
            lemma_store_text_canonical(text);
            assert(text == encode_jobs(js));
            assert(false);
        },
        None => {},
    }
}

} // verus!
