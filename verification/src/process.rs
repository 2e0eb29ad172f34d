//! Helper-program invocations and what they print.
//!
//! Library functions that need a helper program take a [`Runner`]: it wraps
//! a closure from an [`Invocation`] to the program's [`ProcessOutput`] (or
//! `None` when the program could not be started) and notes every run, in
//! order, in a ghost history. Each contract states the exact runs a function
//! appends to that history (`added`) and what it makes of their answers.
use vstd::prelude::*;
use crate::text::string_of;

verus! {

/// A helper program and its arguments.
pub struct Invocation {
    pub program: String,
    pub args: Vec<String>,
}

/// What a finished helper program printed, and whether it exited with
/// success.
pub struct ProcessOutput {
    pub stdout: String,
    pub stderr: String,
    pub success: bool,
}

/// The character sequences held by a sequence of strings.
pub open spec fn string_views(a: Seq<String>) -> Seq<Seq<char>> {
    a.map_values(|x: String| x@)
}

/// `i` runs `program` with exactly the arguments `args`.
pub open spec fn invokes(i: Invocation, program: Seq<char>, args: Seq<Seq<char>>) -> bool {
    i.program@ == program && string_views(i.args@) == args
}

/// The runner accepts every invocation.
pub open spec fn accepts_all<F: Fn(Invocation) -> Option<ProcessOutput>>(run: F) -> bool {
    forall|i: Invocation| #[trigger] call_requires(run, (i,))
}

/// The standard output of a run, if the program could be started.
pub open spec fn stdout_of(out: Option<ProcessOutput>) -> Option<Seq<char>> {
    match out {
        Some(o) => Some(o.stdout@),
        None => None,
    }
}

/// The program was started and exited with success.
pub open spec fn succeeded(out: Option<ProcessOutput>) -> bool {
    match out {
        Some(o) => o.success,
        None => false,
    }
}

/// The characters of an optional string.
pub open spec fn opt_view(s: Option<String>) -> Option<Seq<char>> {
    match s {
        Some(x) => Some(x@),
        None => None,
    }
}

/// The decimal digits of `n`, without leading zeros.
pub open spec fn decimal(n: nat) -> Seq<char>
    decreases n,
{
    if n < 10 {
        seq![((n + 48) as u32) as char]
    } else {
        decimal(n / 10).push((((n % 10) + 48) as u32) as char)
    }
}

fn digit_char(d: u64) -> (c: char)
    requires
        d < 10,
    ensures
        c == ((d + 48) as u32) as char,
{
    let b = (d + 48) as u8;
    b as char
}

/// `n` written in decimal (`u64::to_string`).
pub fn decimal_string(n: u64) -> (s: String)
    ensures
        s@ == decimal(n as nat),
{
    let mut digits: Vec<char> = Vec::new();
    let mut m: u64 = n;
    // digits holds the low digits of n, least significant first
    while m >= 10
        invariant
            decimal(n as nat) == decimal(m as nat) + digits@.reverse(),
        decreases m,
    {
        let d = m % 10;
        let c = digit_char(d);
        assert(decimal(m as nat) == decimal((m / 10) as nat).push(c));
        let ghost before = digits@;
        digits.push(c);
        assert(digits@.reverse() =~= seq![c] + before.reverse());
        assert(decimal(m as nat) + before.reverse() =~= decimal((m / 10) as nat) + digits@.reverse());
        m = m / 10;
    }
    let c = digit_char(m);
    let mut out: Vec<char> = Vec::new();
    out.push(c);
    assert(out@ =~= decimal(m as nat));
    let mut i: usize = digits.len();
    while i > 0
        invariant
            i <= digits.len(),
            decimal(n as nat) == out@ + digits@.take(i as int).reverse(),
        decreases i,
    {
        let ghost before = out@;
        out.push(digits[i - 1]);
        assert(digits@.take(i as int).reverse() =~= seq![digits@[i - 1]] + digits@.take(i - 1).reverse());
        assert(out@ + digits@.take(i - 1).reverse() =~= before + digits@.take(i as int).reverse());
        i -= 1;
    }
    assert(digits@.take(0).reverse() =~= Seq::<char>::empty());
    assert(out@ =~= decimal(n as nat));
    string_of(&out)
}

/// An owned copy of a string slice.
pub fn owned(s: &str) -> (r: String)
    ensures
        r@ == s@,
{
    s.to_string()
}

/// An invocation of `program` with two arguments.
pub fn invocation2(program: &str, a: &str, b: &str) -> (i: Invocation)
    ensures
        invokes(i, program@, seq![a@, b@]),
{
    let mut args: Vec<String> = Vec::new();
    args.push(owned(a));
    args.push(owned(b));
    let i = Invocation { program: owned(program), args };
    assert(string_views(i.args@) =~= seq![a@, b@]);
    i
}

/// An invocation of `program` with one argument.
pub fn invocation1(program: &str, a: &str) -> (i: Invocation)
    ensures
        invokes(i, program@, seq![a@]),
{
    let mut args: Vec<String> = Vec::new();
    args.push(owned(a));
    let i = Invocation { program: owned(program), args };
    assert(string_views(i.args@) =~= seq![a@]);
    i
}

/// An invocation of `program` with three arguments.
pub fn invocation3(program: &str, a: &str, b: &str, c: &str) -> (i: Invocation)
    ensures
        invokes(i, program@, seq![a@, b@, c@]),
{
    let mut args: Vec<String> = Vec::new();
    args.push(owned(a));
    args.push(owned(b));
    args.push(owned(c));
    let i = Invocation { program: owned(program), args };
    assert(string_views(i.args@) =~= seq![a@, b@, c@]);
    i
}

/// The exit status of a run: true when it started and exited with success.
pub fn success_of(out: &Option<ProcessOutput>) -> (r: bool)
    ensures
        r == succeeded(*out),
{
    match out {
        Some(o) => o.success,
        None => false,
    }
}

/// The standard output of a run, as an owned string.
pub fn stdout_text(out: Option<ProcessOutput>) -> (r: Option<String>)
    ensures
        opt_view(r) == stdout_of(out),
{
    match out {
        Some(o) => Some(o.stdout),
        None => None,
    }
}

/// The character sequences held by a sequence of string slices.
pub open spec fn str_views(a: Seq<&str>) -> Seq<Seq<char>> {
    a.map_values(|x: &str| x@)
}

/// One helper program: the program, its arguments, whether it was started
/// in the background, and, for one run to completion, what it answered
/// (`None` when it could not be started).
pub struct Call {
    pub program: Seq<char>,
    pub args: Seq<Seq<char>>,
    pub spawned: bool,
    pub out: Option<ProcessOutput>,
}

/// `c` ran `program` with exactly the arguments `args` to completion.
pub open spec fn made(c: Call, program: Seq<char>, args: Seq<Seq<char>>) -> bool {
    c.program == program && c.args == args && !c.spawned
}

/// `c` started `program` with exactly the arguments `args` in the background.
pub open spec fn started(c: Call, program: Seq<char>, args: Seq<Seq<char>>) -> bool {
    c.program == program && c.args == args && c.spawned
}

/// The helper programs are started by `run`; every run is noted, in order,
/// in the runner's history.
pub struct Runner<F> {
    run: F,
    history: Ghost<Seq<Call>>,
}

impl<F: Fn(Invocation) -> Option<ProcessOutput>> Runner<F> {
    /// Every run so far, oldest first.
    pub closed spec fn history(&self) -> Seq<Call> {
        self.history@
    }

    /// The closure that starts the programs.
    pub closed spec fn runs(&self) -> F {
        self.run
    }

    /// A runner with an empty history.
    pub fn new(run: F) -> (r: Self)
        ensures
            r.history() == Seq::<Call>::empty(),
            r.runs() == run,
    {
        Runner { run, history: Ghost(Seq::empty()) }
    }

    /// Runs one invocation and notes it.
    pub fn run(&mut self, inv: Invocation) -> (out: Option<ProcessOutput>)
        requires
            accepts_all(old(self).runs()),
        ensures
            final(self).runs() == old(self).runs(),
            final(self).history() == old(self).history().push(
                Call { program: inv.program@, args: string_views(inv.args@), spawned: false, out },
            ),
            call_ensures(old(self).runs(), (inv,), out),
    {
        let ghost g = inv;
        let out = (self.run)(inv);
        self.history = Ghost(self.history@.push(Call { program: g.program@, args: string_views(g.args@), spawned: false, out }));
        out
    }

    /// Has `spawn` start an invocation in the background, and notes it.
    pub fn start<R, S: FnOnce(Invocation) -> R>(&mut self, spawn: S, inv: Invocation) -> (child: R)
        requires
            call_requires(spawn, (inv,)),
        ensures
            final(self).runs() == old(self).runs(),
            final(self).history() == old(self).history().push(
                Call { program: inv.program@, args: string_views(inv.args@), spawned: true, out: None },
            ),
            call_ensures(spawn, (inv,), child),
    {
        let ghost g = inv;
        let child = spawn(inv);
        self.history = Ghost(self.history@.push(Call { program: g.program@, args: string_views(g.args@), spawned: true, out: None }));
        child
    }
}

/// `after` is `before` with more runs noted, by the same closure.
pub open spec fn grows<F: Fn(Invocation) -> Option<ProcessOutput>>(before: Runner<F>, after: Runner<F>) -> bool {
    &&& after.runs() == before.runs()
    &&& before.history().len() <= after.history().len()
    &&& after.history().take(before.history().len() as int) == before.history()
}

/// The runs noted between `before` and `after`.
pub open spec fn added<F: Fn(Invocation) -> Option<ProcessOutput>>(before: Runner<F>, after: Runner<F>) -> Seq<Call> {
    after.history().skip(before.history().len() as int)
}

/// Growth composes, and the runs of two stretches follow each other.
pub proof fn lemma_grows_trans<F: Fn(Invocation) -> Option<ProcessOutput>>(a: Runner<F>, b: Runner<F>, c: Runner<F>)
    requires
        grows(a, b),
        grows(b, c),
    ensures
        grows(a, c),
        added(a, c) == added(a, b) + added(b, c),
{
    assert(c.history().take(a.history().len() as int) =~= b.history().take(a.history().len() as int));
    assert(added(a, c) =~= added(a, b) + added(b, c));
}

/// Nothing has run yet between a runner and itself.
pub proof fn lemma_grows_refl<F: Fn(Invocation) -> Option<ProcessOutput>>(a: Runner<F>)
    ensures
        grows(a, a),
        added(a, a) == Seq::<Call>::empty(),
{
    assert(a.history().take(a.history().len() as int) =~= a.history());
    assert(added(a, a) =~= Seq::<Call>::empty());
}

/// `calls` is the single run of `program` with `args`.
pub open spec fn only(calls: Seq<Call>, program: Seq<char>, args: Seq<Seq<char>>) -> bool {
    calls.len() == 1 && made(calls[0], program, args)
}

/// Runs `program` with `args`.
pub fn call<F: Fn(Invocation) -> Option<ProcessOutput>>(run: &mut Runner<F>, program: &str, args: Vec<&str>) -> (out: Option<ProcessOutput>)
    requires
        accepts_all(old(run).runs()),
    ensures
        grows(*old(run), *final(run)),
        added(*old(run), *final(run)) == seq![Call { program: program@, args: str_views(args@), spawned: false, out }],
{
    let mut owned_args: Vec<String> = Vec::new();
    let mut k: usize = 0;
    while k < args.len()
        invariant
            k <= args.len(),
            string_views(owned_args@) == str_views(args@).take(k as int),
        decreases args.len() - k,
    {
        let ghost before = string_views(owned_args@);
        owned_args.push(owned(args[k]));
        assert(string_views(owned_args@) =~= before.push(args@[k as int]@));
        assert(str_views(args@).take(k + 1) =~= str_views(args@).take(k as int).push(args@[k as int]@));
        k += 1;
    }
    assert(str_views(args@).take(args.len() as int) =~= str_views(args@));
    let inv = Invocation { program: owned(program), args: owned_args };
    run_it(run, inv, Ghost(program@), Ghost(str_views(args@)))
}

/// Runs an invocation.
pub(crate) fn run_it<F: Fn(Invocation) -> Option<ProcessOutput>>(
    run: &mut Runner<F>,
    inv: Invocation,
    Ghost(program): Ghost<Seq<char>>,
    Ghost(args): Ghost<Seq<Seq<char>>>,
) -> (out: Option<ProcessOutput>)
    requires
        accepts_all(old(run).runs()),
        invokes(inv, program, args),
    ensures
        grows(*old(run), *final(run)),
        added(*old(run), *final(run)) == seq![Call { program, args, spawned: false, out }],
        call_ensures(old(run).runs(), (inv,), out),
{
    let ghost h = run.history();
    let ghost g = inv;
    let out = run.run(inv);
    assert(run.history().take(h.len() as int) =~= h);
    assert(added(*old(run), *run) =~= seq![Call { program, args, spawned: false, out }]);
    out
}

} // verus!
