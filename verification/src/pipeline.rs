//! The external-command pipeline.
//!
//! A pipeline is an ordered list of command-line templates run for one
//! target. Building a step applies variable substitution to every token;
//! a first token opening with the reserved escape marker is stripped of it
//! and the tokens are then used verbatim; a template that collapsed to a
//! single token is re-tokenized with shell-like whitespace and quote rules.
//! Captured output is decoded as UTF-8, its line endings normalized, the
//! whole trimmed, and continuation lines prefixed for log rendering.
//! A pipeline stops at its first failing step; the result of a successful
//! step is available to the next step's templating.

use vstd::prelude::*;

use crate::bytestr::copy_bytes;
use crate::vars::VariableReplace;
use crate::vars::subst;

verus! {

/// Space, a token separator.
pub const SPACE: u8 = 32;

/// Tab, a token separator.
pub const TAB: u8 = 9;

/// Double quote.
pub const DQUOTE: u8 = 34;

/// Single quote.
pub const SQUOTE: u8 = 39;

/// Carriage return.
pub const CR: u8 = 13;

/// Line feed.
pub const LF: u8 = 10;

/// The continuation-line prefix byte `|`.
pub const PIPE_MARK: u8 = 124;

/// The reserved escape marker `@`: a first token opening with it is used,
/// marker stripped, verbatim.
pub const ESCAPE_MARKER: u8 = 64;

/// A token separator.
pub open spec fn is_space(b: u8) -> bool {
    b == SPACE || b == TAB
}

/// A quote byte.
pub open spec fn is_quote(b: u8) -> bool {
    b == DQUOTE || b == SQUOTE
}

/// The views of a list of byte strings.
pub open spec fn views(s: Seq<Vec<u8>>) -> Seq<Seq<u8>> {
    s.map_values(|v: Vec<u8>| v@)
}

/// The tokenizer's running accumulation: finished tokens, the token under
/// construction, whether one is under construction, and an open quote.
pub struct TokAcc {
    pub done: Seq<Seq<u8>>,
    pub cur: Seq<u8>,
    pub in_token: bool,
    pub quote: Option<u8>,
}

/// The tokenizer's starting accumulation.
pub open spec fn tok_init() -> TokAcc {
    TokAcc { done: Seq::empty(), cur: Seq::empty(), in_token: false, quote: None }
}

/// One byte of shell-like splitting: whitespace separates tokens, quotes
/// group bytes, a quote pair may stand inside a token.
pub open spec fn tok_step(st: TokAcc, b: u8) -> TokAcc {
    match st.quote {
        Some(q) => if b == q {
            TokAcc { done: st.done, cur: st.cur, in_token: st.in_token, quote: None }
        } else {
            TokAcc { done: st.done, cur: st.cur.push(b), in_token: st.in_token, quote: st.quote }
        },
        None => if st.in_token {
            if is_space(b) {
                TokAcc { done: st.done.push(st.cur), cur: Seq::empty(), in_token: false, quote: None }
            } else if is_quote(b) {
                TokAcc { done: st.done, cur: st.cur, in_token: true, quote: Some(b) }
            } else {
                TokAcc { done: st.done, cur: st.cur.push(b), in_token: true, quote: None }
            }
        } else {
            if is_space(b) {
                st
            } else if is_quote(b) {
                TokAcc { done: st.done, cur: Seq::empty(), in_token: true, quote: Some(b) }
            } else {
                TokAcc { done: st.done, cur: seq![b], in_token: true, quote: None }
            }
        },
    }
}

/// The accumulation after splitting a whole byte string.
pub open spec fn tok_fold(t: Seq<u8>) -> TokAcc
    decreases t.len(),
{
    if t.len() == 0 {
        tok_init()
    } else {
        tok_step(tok_fold(t.drop_last()), t.last())
    }
}

/// Shell-like splitting of a byte string into tokens.
pub open spec fn tokenize_spec(t: Seq<u8>) -> Seq<Seq<u8>> {
    let st = tok_fold(t);
    if st.in_token {
        st.done.push(st.cur)
    } else {
        st.done
    }
}

/// Splits a byte string into tokens with shell-like whitespace and quote
/// rules.
pub fn tokenize(t: &[u8]) -> (r: Vec<Vec<u8>>)
    ensures
        views(r@) == tokenize_spec(t@),
{
    let mut done: Vec<Vec<u8>> = Vec::new();
    let mut cur: Vec<u8> = Vec::new();
    let mut in_token = false;
    let mut quote: u8 = 0;
    let mut i: usize = 0;
    proof {
        assert(t@.take(0) =~= Seq::<u8>::empty());
        assert(views(done@) =~= tok_init().done);
    }
    while i < t.len()
        invariant
            i <= t.len(),
            views(done@) == tok_fold(t@.take(i as int)).done,
            cur@ == tok_fold(t@.take(i as int)).cur,
            in_token == tok_fold(t@.take(i as int)).in_token,
            !in_token ==> cur@ == Seq::<u8>::empty(),
            quote == 0 ==> tok_fold(t@.take(i as int)).quote is None,
            quote != 0 ==> tok_fold(t@.take(i as int)).quote == Some(quote),
        decreases t.len() - i,
    {
        let ghost st = tok_fold(t@.take(i as int));
        let b = t[i];
        proof {
            assert(t@.take(i + 1).drop_last() =~= t@.take(i as int));
            assert(t@.take(i + 1).last() == t@[i as int]);
        }
        let ghost st2 = tok_fold(t@.take(i + 1));
        assert(st2 == tok_step(st, b));
        if quote != 0 {
            if b == quote {
                quote = 0;
            } else {
                cur.push(b);
            }
        } else if in_token {
            if b == SPACE || b == TAB {
                done.push(cur);
                cur = Vec::new();
                in_token = false;
                proof {
                    assert(views(done@) =~= views(done@.drop_last()).push(
                        done@.last()@,
                    ));
                }
            } else if b == DQUOTE || b == SQUOTE {
                quote = b;
            } else {
                cur.push(b);
            }
        } else {
            if b == SPACE || b == TAB {
            } else if b == DQUOTE || b == SQUOTE {
                in_token = true;
                quote = b;
            } else {
                cur = Vec::new();
                cur.push(b);
                in_token = true;
                assert(cur@ =~= seq![b]);
            }
        }
        i += 1;
    }
    proof {
        assert(t@.take(t@.len() as int) =~= t@);
    }
    if in_token {
        done.push(cur);
        proof {
            assert(views(done@) =~= views(done@.drop_last()).push(done@.last()@));
        }
    }
    done
}

/// The command line a template builds under a variable set: substitution on
/// every token; a first token opening with the escape marker is stripped of
/// it and everything is used verbatim; a single remaining token is
/// re-tokenized; several tokens are used as they stand.
pub open spec fn build_spec(vars: Map<Seq<u8>, Seq<u8>>, templ: Seq<Seq<u8>>) -> Seq<Seq<u8>> {
    let sub = templ.map_values(|tok: Seq<u8>| subst(vars, tok));
    if sub.len() > 0 && sub[0].len() > 0 && sub[0][0] == ESCAPE_MARKER {
        seq![sub[0].skip(1)] + sub.skip(1)
    } else if sub.len() == 1 {
        tokenize_spec(sub[0])
    } else {
        sub
    }
}

/// Builds one step's argument vector from its template.
pub fn build_command_line(vars: &VariableReplace, template: &Vec<Vec<u8>>) -> (r: Vec<Vec<u8>>)
    requires
        vars.wf(),
    ensures
        views(r@) == build_spec(vars@, views(template@)),
{
    let ghost f = |tok: Seq<u8>| subst(vars@, tok);
    let mut sub: Vec<Vec<u8>> = Vec::new();
    let mut i: usize = 0;
    while i < template.len()
        invariant
            vars.wf(),
            i <= template.len(),
            views(sub@) == views(template@).take(i as int).map_values(f),
            f == (|tok: Seq<u8>| subst(vars@, tok)),
        decreases template.len() - i,
    {
        let expanded = vars.apply(template[i].as_slice());
        sub.push(expanded);
        proof {
            assert(views(sub@) =~= views(sub@.drop_last()).push(sub@.last()@));
            assert(views(template@).take(i + 1).map_values(f) =~= views(template@).take(
                i as int,
            ).map_values(f).push(f(views(template@)[i as int])));
        }
        i += 1;
    }
    proof {
        assert(views(template@).take(template@.len() as int) =~= views(template@));
    }
    let ghost sv = views(template@).map_values(f);
    assert(views(sub@) == sv);
    if sub.len() > 0 && sub[0].len() > 0 && sub[0][0] == ESCAPE_MARKER {
        let first = vstd::slice::slice_subrange(sub[0].as_slice(), 1, sub[0].len());
        let mut out: Vec<Vec<u8>> = Vec::new();
        out.push(copy_bytes(first));
        let mut k: usize = 1;
        while k < sub.len()
            invariant
                1 <= k <= sub.len(),
                sub@.len() > 0,
                out@.len() == k,
                out@[0]@ == sub@[0]@.skip(1),
                forall|j: int| 1 <= j < k ==> out@[j]@ == sub@[j]@,
            decreases sub.len() - k,
        {
            out.push(copy_bytes(sub[k].as_slice()));
            k += 1;
        }
        proof {
            assert(views(out@) =~= seq![sv[0].skip(1)] + sv.skip(1));
        }
        out
    } else if sub.len() == 1 {
        let r = tokenize(sub[0].as_slice());
        r
    } else {
        sub
    }
}

/// The decimal digits of a number.
pub open spec fn dec_of(n: nat) -> Seq<u8>
    decreases n,
{
    if n < 10 {
        seq![(48 + n) as u8]
    } else {
        dec_of(n / 10).push((48 + n % 10) as u8)
    }
}

/// The decimal rendering of a possibly negative number.
pub open spec fn dec_of_int(n: int) -> Seq<u8> {
    if n < 0 {
        seq![45u8] + dec_of((-n) as nat)
    } else {
        dec_of(n as nat)
    }
}

/// Renders a number in decimal.
pub fn dec_bytes(n: u64) -> (r: Vec<u8>)
    ensures
        r@ == dec_of(n as nat),
    decreases n,
{
    if n < 10 {
        let mut r: Vec<u8> = Vec::new();
        r.push(48 + (n as u8));
        assert(r@ =~= dec_of(n as nat));
        r
    } else {
        let mut r = dec_bytes(n / 10);
        r.push(48 + ((n % 10) as u8));
        r
    }
}

/// Renders a signed number in decimal.
pub fn dec_bytes_i32(n: i32) -> (r: Vec<u8>)
    ensures
        r@ == dec_of_int(n as int),
{
    if n < 0 {
        let m: u64 = (-(n as i64)) as u64;
        let mut r: Vec<u8> = Vec::new();
        r.push(45);
        let digits = dec_bytes(m);
        r.extend_from_slice(digits.as_slice());
        assert(r@ =~= dec_of_int(n as int));
        r
    } else {
        dec_bytes(n as u64)
    }
}

/// The text that the UTF-8 decoding of a byte string yields, malformed
/// sequences replaced and a leading byte-order mark removed.
pub uninterp spec fn utf8_text_of(bytes: Seq<u8>) -> Seq<u8>;

/// Relies on encoding_rs::Encoding::decode on the UTF-8 encoding: the
/// decoded text is a function of the input bytes alone; empty input decodes
/// to nothing, and input of bytes below 0x80 (which is valid UTF-8 and
/// cannot open a byte-order mark) is returned unchanged.
#[verifier::external_body]
fn decode_utf8(bytes: &[u8]) -> (r: Vec<u8>)
    ensures
        r@ == utf8_text_of(bytes@),
        bytes@.len() == 0 ==> r@.len() == 0,
        (forall|i: int| 0 <= i < bytes@.len() ==> bytes@[i] < 0x80) ==> r@ == bytes@,
{
    let (text, _, _) = encoding_rs::UTF_8.decode(bytes);
    text.into_owned().into_bytes()
}

/// Carriage returns, bare or in a CR-LF pair, become line feeds.
pub open spec fn normalize_newlines(t: Seq<u8>) -> Seq<u8>
    decreases t.len(),
{
    if t.len() == 0 {
        Seq::empty()
    } else if t[0] == CR {
        if t.len() > 1 && t[1] == LF {
            seq![LF] + normalize_newlines(t.skip(2))
        } else {
            seq![LF] + normalize_newlines(t.skip(1))
        }
    } else {
        seq![t[0]] + normalize_newlines(t.skip(1))
    }
}

/// A byte that trimming strips.
pub open spec fn is_blank(b: u8) -> bool {
    b == SPACE || b == TAB || b == LF || b == CR
}

/// The string without leading blanks.
pub open spec fn trim_front(t: Seq<u8>) -> Seq<u8>
    decreases t.len(),
{
    if t.len() > 0 && is_blank(t[0]) {
        trim_front(t.skip(1))
    } else {
        t
    }
}

/// The string without trailing blanks.
pub open spec fn trim_back(t: Seq<u8>) -> Seq<u8>
    decreases t.len(),
{
    if t.len() > 0 && is_blank(t.last()) {
        trim_back(t.drop_last())
    } else {
        t
    }
}

/// The string without leading or trailing blanks.
pub open spec fn trimmed(t: Seq<u8>) -> Seq<u8> {
    trim_back(trim_front(t))
}

/// Every line feed gains a continuation marker for log rendering.
pub open spec fn indent_lines(t: Seq<u8>) -> Seq<u8>
    decreases t.len(),
{
    if t.len() == 0 {
        Seq::empty()
    } else if t[0] == LF {
        seq![LF, PIPE_MARK] + indent_lines(t.skip(1))
    } else {
        seq![t[0]] + indent_lines(t.skip(1))
    }
}

/// Captured output as the log renders it: decoded as UTF-8, line endings
/// normalized, trimmed, continuation lines marked.
pub open spec fn rendered(bytes: Seq<u8>) -> Seq<u8> {
    indent_lines(trimmed(normalize_newlines(utf8_text_of(bytes))))
}

/// Normalizes line endings to line feeds.
fn normalize_exec(t: &[u8]) -> (r: Vec<u8>)
    ensures
        r@ == normalize_newlines(t@),
{
    let mut out: Vec<u8> = Vec::new();
    let mut i: usize = 0;
    proof {
        assert(t@.skip(0) =~= t@);
    }
    while i < t.len()
        invariant
            i <= t.len(),
            out@ + normalize_newlines(t@.skip(i as int)) == normalize_newlines(t@),
        decreases t.len() - i,
    {
        let ghost suffix = t@.skip(i as int);
        let ghost pre = out@;
        assert(suffix[0] == t@[i as int]);
        if t[i] == CR {
            out.push(LF);
            if i + 1 < t.len() && t[i + 1] == LF {
                proof {
                    assert(suffix[1] == t@[i + 1]);
                    assert(suffix.skip(2) =~= t@.skip(i + 2));
                    assert(out@ + normalize_newlines(t@.skip(i + 2)) =~= pre + normalize_newlines(
                        suffix,
                    ));
                }
                i += 2;
            } else {
                proof {
                    if suffix.len() > 1 {
                        assert(suffix[1] == t@[i + 1]);
                    }
                    assert(suffix.skip(1) =~= t@.skip(i + 1));
                    assert(out@ + normalize_newlines(t@.skip(i + 1)) =~= pre + normalize_newlines(
                        suffix,
                    ));
                }
                i += 1;
            }
        } else {
            out.push(t[i]);
            proof {
                assert(suffix.skip(1) =~= t@.skip(i + 1));
                assert(out@ + normalize_newlines(t@.skip(i + 1)) =~= pre + normalize_newlines(
                    suffix,
                ));
            }
            i += 1;
        }
    }
    proof {
        assert(t@.skip(t@.len() as int) =~= Seq::<u8>::empty());
        assert(out@ + Seq::<u8>::empty() =~= out@);
    }
    out
}

/// Strips leading and trailing blanks.
fn trim_exec(t: &[u8]) -> (r: Vec<u8>)
    ensures
        r@ == trimmed(t@),
{
    let mut i: usize = 0;
    proof {
        assert(t@.skip(0) =~= t@);
    }
    while i < t.len() && (t[i] == SPACE || t[i] == TAB || t[i] == LF || t[i] == CR)
        invariant
            i <= t.len(),
            trim_front(t@.skip(i as int)) == trim_front(t@),
        decreases t.len() - i,
    {
        proof {
            assert(t@.skip(i as int)[0] == t@[i as int]);
            assert(t@.skip(i as int).skip(1) =~= t@.skip(i + 1));
        }
        i += 1;
    }
    proof {
        if i < t.len() {
            assert(t@.skip(i as int)[0] == t@[i as int]);
        }
        assert(trim_front(t@) == t@.skip(i as int));
    }
    let mut j: usize = t.len();
    proof {
        assert(t@.subrange(i as int, j as int) =~= t@.skip(i as int));
    }
    while j > i && (t[j - 1] == SPACE || t[j - 1] == TAB || t[j - 1] == LF || t[j - 1] == CR)
        invariant
            i <= j <= t.len(),
            trim_back(t@.subrange(i as int, j as int)) == trim_back(t@.skip(i as int)),
        decreases j,
    {
        proof {
            assert(t@.subrange(i as int, j as int).last() == t@[j - 1]);
            assert(t@.subrange(i as int, j as int).drop_last() =~= t@.subrange(
                i as int,
                j - 1,
            ));
        }
        j -= 1;
    }
    proof {
        if j > i {
            assert(t@.subrange(i as int, j as int).last() == t@[j - 1]);
        }
        assert(trim_back(t@.subrange(i as int, j as int)) == t@.subrange(i as int, j as int));
    }
    copy_bytes(vstd::slice::slice_subrange(t, i, j))
}

/// Marks continuation lines.
fn indent_exec(t: &[u8]) -> (r: Vec<u8>)
    ensures
        r@ == indent_lines(t@),
{
    let mut out: Vec<u8> = Vec::new();
    let mut i: usize = 0;
    proof {
        assert(t@.skip(0) =~= t@);
    }
    while i < t.len()
        invariant
            i <= t.len(),
            out@ + indent_lines(t@.skip(i as int)) == indent_lines(t@),
        decreases t.len() - i,
    {
        let ghost suffix = t@.skip(i as int);
        let ghost pre = out@;
        assert(suffix[0] == t@[i as int]);
        if t[i] == LF {
            out.push(LF);
            out.push(PIPE_MARK);
        } else {
            out.push(t[i]);
        }
        proof {
            assert(suffix.skip(1) =~= t@.skip(i + 1));
            assert(out@ + indent_lines(t@.skip(i + 1)) =~= pre + indent_lines(suffix));
        }
        i += 1;
    }
    proof {
        assert(t@.skip(t@.len() as int) =~= Seq::<u8>::empty());
        assert(out@ + Seq::<u8>::empty() =~= out@);
    }
    out
}

/// Decodes and renders captured output for the log.
pub fn render_output(bytes: &[u8]) -> (r: Vec<u8>)
    ensures
        r@ == rendered(bytes@),
{
    let decoded = decode_utf8(bytes);
    let norm = normalize_exec(decoded.as_slice());
    let trim = trim_exec(norm.as_slice());
    indent_exec(trim.as_slice())
}

/// How a step failed.
pub enum StepFailure {
    /// The process was terminated by a signal: no exit code exists.
    SignalTerminated,
    /// The process exited with this non-zero code.
    NonZeroExit(i32),
}

/// A failed pipeline: the failure, the command line that failed, and its
/// captured output.
pub struct PipelineError {
    pub failure: StepFailure,
    pub command_line: Vec<Vec<u8>>,
    pub stdout: Vec<u8>,
    pub stderr: Vec<u8>,
}

/// The captured result of a step that succeeded.
pub struct SubprocessResult {
    pub exit_code: i32,
    pub stdout: Vec<u8>,
    pub stderr: Vec<u8>,
}

/// What stands before a step: nothing, or the previous step's result.
pub enum PriorStep {
    /// No step has run yet.
    First,
    /// The previous step's result, available to templating.
    Done(SubprocessResult),
}

/// The variable name under which a prior step's captured output stands.
pub open spec fn output_var() -> Seq<u8> {
    seq![111u8, 117u8, 116u8, 112u8, 117u8, 116u8]
}

/// The variable name under which a prior step's exit code stands.
pub open spec fn exitcode_var() -> Seq<u8> {
    seq![101u8, 120u8, 105u8, 116u8, 99u8, 111u8, 100u8, 101u8]
}

/// The variable set a step is templated under: the caller's set, and for a
/// later step the previous step's captured output and exit code.
pub open spec fn step_vars_spec(prior: PriorStep, base: Map<Seq<u8>, Seq<u8>>) -> Map<
    Seq<u8>,
    Seq<u8>,
> {
    match prior {
        PriorStep::First => base,
        PriorStep::Done(res) => base.insert(output_var(), res.stdout@).insert(
            exitcode_var(),
            dec_of_int(res.exit_code as int),
        ),
    }
}

/// One pipeline in flight: its templates, the next step, the previous
/// step's result, the dry-run flag, and the failure that stopped it.
pub struct PipelineRun {
    pub steps: Vec<Vec<Vec<u8>>>,
    pub index: usize,
    pub prior: PriorStep,
    pub dry_run: bool,
    pub failed: Option<PipelineError>,
}

impl PipelineRun {
    /// No step remains: every one ran, or one failed.
    pub open spec fn finished(&self) -> bool {
        self.failed is Some || self.index >= self.steps@.len()
    }

    /// Starts a pipeline at its first step.
    pub fn new(steps: Vec<Vec<Vec<u8>>>, dry_run: bool) -> (r: PipelineRun)
        ensures
            r.steps@ == steps@,
            r.index == 0,
            r.prior is First,
            r.dry_run == dry_run,
            r.failed is None,
    {
        PipelineRun { steps, index: 0, prior: PriorStep::First, dry_run, failed: None }
    }

    /// Whether the pipeline is done.
    pub fn is_finished(&self) -> (r: bool)
        ensures
            r == self.finished(),
    {
        self.failed.is_some() || self.index >= self.steps.len()
    }

    /// The caller's variable set extended with the previous step's result.
    pub fn step_vars(&self, base: &VariableReplace) -> (r: VariableReplace)
        requires
            base.wf(),
        ensures
            r.wf(),
            r@ == step_vars_spec(self.prior, base@),
    {
        match &self.prior {
            PriorStep::First => base.duplicate(),
            PriorStep::Done(res) => {
                let mut vars = base.duplicate();
                let name_out: Vec<u8> = vec![111u8, 117u8, 116u8, 112u8, 117u8, 116u8];
                assert(name_out@ =~= output_var());
                vars.add(name_out.as_slice(), res.stdout.as_slice());
                let name_code: Vec<u8> = vec![
                    101u8,
                    120u8,
                    105u8,
                    116u8,
                    99u8,
                    111u8,
                    100u8,
                    101u8,
                ];
                assert(name_code@ =~= exitcode_var());
                let code = dec_bytes_i32(res.exit_code);
                vars.add(name_code.as_slice(), code.as_slice());
                vars
            },
        }
    }

    /// The command line of the step about to run.
    pub fn current_command(&self, base: &VariableReplace) -> (r: Vec<Vec<u8>>)
        requires
            base.wf(),
            !self.finished(),
        ensures
            views(r@) == build_spec(
                step_vars_spec(self.prior, base@),
                views(self.steps@[self.index as int]@),
            ),
    {
        let vars = self.step_vars(base);
        build_command_line(&vars, &self.steps[self.index])
    }

    /// Records what became of the step about to run. A missing exit code
    /// means the process was terminated by a signal and fails the pipeline;
    /// a non-zero exit code fails it with that code; a zero exit advances
    /// it and hands the captured output to the next step. A failed pipeline
    /// attempts no later step.
    pub fn record_step_result(
        &mut self,
        code: Option<i32>,
        stdout: Vec<u8>,
        stderr: Vec<u8>,
        command_line: Vec<Vec<u8>>,
    ) -> (nothing: ())
        requires
            !old(self).finished(),
        ensures
            final(self).steps@ == old(self).steps@,
            final(self).dry_run == old(self).dry_run,
            match code {
                Option::None => {
                    &&& final(self).failed matches Some(e) && e.failure is SignalTerminated
                        && views(e.command_line@) == views(command_line@) && e.stdout@ == stdout@
                        && e.stderr@ == stderr@
                    &&& final(self).index == old(self).index
                    &&& final(self).prior == old(self).prior
                    &&& final(self).finished()
                },
                Option::Some(c) => if c == 0 {
                    &&& final(self).failed is None
                    &&& final(self).index == old(self).index + 1
                    &&& final(self).prior matches PriorStep::Done(res) && res.exit_code == 0
                        && res.stdout@ == stdout@ && res.stderr@ == stderr@
                } else {
                    &&& final(self).failed matches Some(e) && e.failure == StepFailure::NonZeroExit(
                        c,
                    ) && views(e.command_line@) == views(command_line@) && e.stdout@ == stdout@
                        && e.stderr@ == stderr@
                    &&& final(self).index == old(self).index
                    &&& final(self).prior == old(self).prior
                    &&& final(self).finished()
                },
            },
    {
        match code {
            Option::None => {
                self.failed = Some(
                    PipelineError {
                        failure: StepFailure::SignalTerminated,
                        command_line,
                        stdout,
                        stderr,
                    },
                );
            },
            Option::Some(c) => {
                if c == 0 {
                    assert(self.index < self.steps@.len());
                    let bound = self.steps.len();
                    assert(self.index < bound);
                    self.prior = PriorStep::Done(
                        SubprocessResult { exit_code: 0, stdout, stderr },
                    );
                    self.index = self.index + 1;
                } else {
                    self.failed = Some(
                        PipelineError {
                            failure: StepFailure::NonZeroExit(c),
                            command_line,
                            stdout,
                            stderr,
                        },
                    );
                }
            },
        }
    }
}

/// Index `i` holds the first failure of a batch of job results.
pub open spec fn first_error_at(rs: Seq<Option<PipelineError>>, i: int) -> bool {
    0 <= i < rs.len() && rs[i] is Some && forall|j: int| 0 <= j < i ==> rs[j] is None
}

/// The error a drained pool reports: the first failure among its jobs, in
/// submission order, or none when every job succeeded. Jobs already in
/// flight when a sibling fails still run to completion, so every result is
/// present when the pool drains.
pub fn first_error_index(results: &Vec<Option<PipelineError>>) -> (r: Option<usize>)
    ensures
        match r {
            Some(i) => first_error_at(results@, i as int),
            None => forall|i: int| 0 <= i < results@.len() ==> results@[i] is None,
        },
{
    let mut i: usize = 0;
    while i < results.len()
        invariant
            i <= results@.len(),
            forall|j: int| 0 <= j < i ==> results@[j] is None,
        decreases results.len() - i,
    {
        if results[i].is_some() {
            return Some(i);
        }
        i += 1;
    }
    None
}

} // verus!
