//! Wall-clock budgets, progress stamps and stopwatches.
use vstd::prelude::*;
use vstd::string::*;
use std::time::{SystemTime, UNIX_EPOCH};

verus! {

#[verifier::external_type_specification]
#[verifier::external_body]
pub struct ExSystemTime(SystemTime);

/// Relies on std's `SystemTime::now`: the current system time.
#[verifier::external_body]
fn now() -> SystemTime {
    SystemTime::now()
}

/// Relies on std's `UNIX_EPOCH`: the start of the system clock's count.
#[verifier::external_body]
fn epoch() -> SystemTime {
    UNIX_EPOCH
}

/// Relies on std's `SystemTime::duration_since`: nanoseconds from `earlier`
/// to `later`, 0 when `earlier` is the later of the two.
#[verifier::external_body]
fn nanos_between(later: &SystemTime, earlier: &SystemTime) -> u128 {
    match later.duration_since(*earlier) {
        Ok(d) => d.as_nanos(),
        Err(_) => 0,
    }
}

/// A wall-clock budget measured from the moment it is made.
pub struct Deadline {
    start: SystemTime,
    budget_nanos: u128,
}

impl Deadline {
    pub closed spec fn budget(&self) -> u128 {
        self.budget_nanos
    }

    /// A budget of `budget_nanos` nanoseconds from now.
    pub fn new(budget_nanos: u128) -> (r: Deadline)
        ensures
            r.budget() == budget_nanos,
    {
        Deadline { start: now(), budget_nanos }
    }

    pub open spec fn is_spent(&self, elapsed: u128) -> bool {
        elapsed >= self.budget()
    }

    /// Whether `elapsed` nanoseconds use up the whole budget.
    pub fn spent(&self, elapsed: u128) -> (r: bool)
        ensures
            r == (elapsed >= self.budget()),
    {
        elapsed >= self.budget_nanos
    }

    /// Whether at least the whole budget has elapsed by the clock now.
    pub fn passed(&self) -> (r: bool)
        ensures
            exists|elapsed: u128| r == #[trigger] self.is_spent(elapsed),
    {
        let elapsed = nanos_between(&now(), &self.start);
        let r = self.spent(elapsed);
        proof {
            assert(r == self.is_spent(elapsed));
        }
        r
    }
}

/// The decimal digit for `d < 10`.
pub open spec fn digit_char(d: nat) -> char {
    if d == 0 { '0' } else if d == 1 { '1' } else if d == 2 { '2' } else if d == 3 { '3' } else if d == 4 { '4' }
    else if d == 5 { '5' } else if d == 6 { '6' } else if d == 7 { '7' } else if d == 8 { '8' } else { '9' }
}

/// `n` in decimal, without leading zeros.
pub open spec fn decimal(n: nat) -> Seq<char>
    decreases n,
{
    if n < 10 {
        seq![digit_char(n)]
    } else {
        decimal(n / 10).push(digit_char(n % 10))
    }
}

/// `s` preceded by copies of `fill` up to `width` characters.
pub open spec fn pad_left(s: Seq<char>, width: nat, fill: char) -> Seq<char> {
    if s.len() >= width {
        s
    } else {
        Seq::new((width - s.len()) as nat, |i: int| fill) + s
    }
}

/// Seconds `secs` and microseconds `micros` as `sssss.uuuuuu`: the seconds
/// right-aligned in five places, the microseconds in six digits.
pub open spec fn seconds_text(secs: nat, micros: nat) -> Seq<char> {
    pad_left(decimal(secs), 5, ' ').push('.') + pad_left(decimal(micros), 6, '0')
}

/// The progress line `Total: <total>s, Lapse: <lapse>s --- <msg>`.
pub open spec fn stamp_text(parts: Seq<u128>, msg: Seq<char>) -> Seq<char> {
    seq!['T', 'o', 't', 'a', 'l', ':', ' '] + seconds_text(parts[0] as nat, parts[1] as nat)
        + seq!['s', ',', ' ', 'L', 'a', 'p', 's', 'e', ':', ' '] + seconds_text(parts[2] as nat, parts[3] as nat)
        + seq!['s', ' ', '-', '-', '-', ' '] + msg
}

/// Relies on std's `format!` with `{}` on an integer: its decimal digits,
/// without sign or leading zeros.
#[verifier::external_body]
fn decimal_text(n: u128) -> (r: String)
    ensures
        r@ == decimal(n as nat),
{
    format!("{}", n)
}

/// `n` in decimal, padded on the left to `width` characters with zeros when
/// `zeros`, else with spaces.
pub fn padded_decimal(n: u128, width: usize, zeros: bool) -> (r: String)
    ensures
        r@ == pad_left(decimal(n as nat), width as nat, if zeros { '0' } else { ' ' }),
{
    let digits = decimal_text(n);
    let len = digits.as_str().unicode_len();
    let ghost fill = if zeros { '0' } else { ' ' };
    let mut out = String::new();
    let mut i: usize = len;
    while i < width
        invariant
            len == digits@.len(),
            len <= i,
            i <= width || i == len,
            fill == if zeros { '0' } else { ' ' },
            out@ =~= Seq::new((i - len) as nat, |k: int| fill),
        decreases width - i,
    {
        proof {
            reveal_strlit("0");
            reveal_strlit(" ");
        }
        if zeros {
            out.append("0");
        } else {
            out.append(" ");
        }
        assert(out@ =~= Seq::new((i + 1 - len) as nat, |k: int| fill));
        i = i + 1;
    }
    out.append(digits.as_str());
    proof {
        if len >= width {
            assert(out@ =~= digits@);
        }
    }
    out
}

/// The progress line for a total and a lapse, each given as whole seconds
/// and microseconds, followed by `msg`.
pub fn stamp_line(total_secs: u128, total_micros: u128, lapse_secs: u128, lapse_micros: u128, msg: &str) -> (r: String)
    ensures
        r@ == stamp_text(seq![total_secs, total_micros, lapse_secs, lapse_micros], msg@),
{
    proof {
        reveal_strlit("Total: ");
        reveal_strlit(".");
        reveal_strlit("s, Lapse: ");
        reveal_strlit("s --- ");
    }
    let mut line = String::new();
    line.append("Total: ");
    line.append(padded_decimal(total_secs, 5, false).as_str());
    line.append(".");
    line.append(padded_decimal(total_micros, 6, true).as_str());
    line.append("s, Lapse: ");
    line.append(padded_decimal(lapse_secs, 5, false).as_str());
    line.append(".");
    line.append(padded_decimal(lapse_micros, 6, true).as_str());
    line.append("s --- ");
    line.append(msg);
    proof {
        let parts = seq![total_secs, total_micros, lapse_secs, lapse_micros];
        assert(line@ =~= stamp_text(parts, msg@));
    }
    line
}

/// Whole seconds and the microseconds after them in `nanos` nanoseconds.
pub fn split_nanos(nanos: u128) -> (r: (u128, u128))
    ensures
        r.0 == nanos / 1_000_000_000,
        r.1 == (nanos % 1_000_000_000) / 1000,
        r.1 < 1_000_000,
{
    (nanos / 1_000_000_000, (nanos % 1_000_000_000) / 1000)
}

/// A timer that, when enabled, stamps progress messages with the time since
/// it was made and since the previous stamp.
pub struct EchoTimer {
    start: SystemTime,
    latest: SystemTime,
    echo: bool,
}

impl EchoTimer {
    pub closed spec fn echoes(&self) -> bool {
        self.echo
    }

    /// A timer started now; `echo` says whether stamps are produced.
    pub fn new(echo: bool) -> (r: EchoTimer)
        ensures
            r.echoes() == echo,
    {
        let start = now();
        EchoTimer { start, latest: start, echo }
    }

    pub fn echo(&self) -> (r: bool)
        ensures
            r == self.echoes(),
    {
        self.echo
    }

    /// When echoing, the line `Total: <since start>s, Lapse: <since last
    /// stamp>s --- msg`; `None` otherwise. Either way the lapse restarts now.
    pub fn stamp(&mut self, msg: &str) -> (r: Option<String>)
        ensures
            final(self).echoes() == old(self).echoes(),
            r is Some <==> old(self).echoes(),
            r matches Some(line) ==> exists|parts: Seq<u128>| line@ == stamp_text(parts, msg@) && parts.len() == 4
                && parts[1] < 1_000_000 && parts[3] < 1_000_000,
    {
        let at = now();
        let result = if self.echo {
            let (lapse_secs, lapse_micros) = split_nanos(nanos_between(&at, &self.latest));
            let (total_secs, total_micros) = split_nanos(nanos_between(&at, &self.start));
            let line = stamp_line(total_secs, total_micros, lapse_secs, lapse_micros, msg);
            proof {
                let parts = seq![total_secs, total_micros, lapse_secs, lapse_micros];
                assert(line@ == stamp_text(parts, msg@) && parts.len() == 4 && parts[1] < 1_000_000 && parts[3] < 1_000_000);
            }
            Some(line)
        } else {
            None
        };
        self.latest = at;
        result
    }

    /// Nanoseconds since the timer was made.
    pub fn total_nanos(&self) -> u128 {
        nanos_between(&now(), &self.start)
    }
}

/// `a + b`, or the largest `u128` when that does not fit.
pub open spec fn saturating_sum(a: u128, b: u128) -> u128 {
    if a + b > u128::MAX {
        u128::MAX
    } else {
        (a + b) as u128
    }
}

/// A stopwatch that accumulates the time between `tic` and `toc`.
pub struct TicToc {
    start: SystemTime,
    lapse: u128,
    running: bool,
}

impl TicToc {
    pub closed spec fn is_running(&self) -> bool {
        self.running
    }

    pub closed spec fn accumulated(&self) -> u128 {
        self.lapse
    }

    /// A stopped stopwatch at zero.
    pub fn new() -> (r: TicToc)
        ensures
            !r.is_running(),
            r.accumulated() == 0,
    {
        TicToc { start: epoch(), lapse: 0, running: false }
    }

    /// Starts the stopwatch, which must be stopped.
    pub fn tic(&mut self)
        requires
            !old(self).is_running(),
        ensures
            final(self).is_running(),
            final(self).accumulated() == old(self).accumulated(),
    {
        self.running = true;
        self.start = now();
    }

    /// Stops the stopwatch, which must be running, adding the time since
    /// `tic` by the clock (saturating at the largest count).
    pub fn toc(&mut self)
        requires
            old(self).is_running(),
        ensures
            !final(self).is_running(),
            exists|elapsed: u128| final(self).accumulated() == #[trigger] saturating_sum(old(self).accumulated(), elapsed),
    {
        let at = now();
        let elapsed = nanos_between(&at, &self.start);
        self.stop_after(elapsed);
    }

    /// Stops the stopwatch, which must be running, adding `elapsed`
    /// nanoseconds (saturating at the largest count).
    pub fn stop_after(&mut self, elapsed: u128)
        requires
            old(self).is_running(),
        ensures
            !final(self).is_running(),
            final(self).accumulated() == saturating_sum(old(self).accumulated(), elapsed),
    {
        self.lapse = self.lapse.saturating_add(elapsed);
        self.running = false;
    }

    /// Accumulated nanoseconds; the stopwatch must be stopped.
    pub fn lapse_nanos(&self) -> (r: u128)
        requires
            !self.is_running(),
        ensures
            r == self.accumulated(),
    {
        self.lapse
    }
}

/// Decides when a periodic report is due: on request, or once more than the
/// threshold has passed since the last one.
pub struct PeriodicTimer {
    latest: SystemTime,
    threshold_nanos: u128,
}

impl PeriodicTimer {
    pub closed spec fn threshold(&self) -> u128 {
        self.threshold_nanos
    }

    /// No report made yet; one is due at the first check.
    pub fn new(threshold_nanos: u128) -> (r: PeriodicTimer)
        ensures
            r.threshold() == threshold_nanos,
    {
        PeriodicTimer { latest: epoch(), threshold_nanos }
    }

    /// Whether a report is due `elapsed` nanoseconds after the last one: on
    /// request, or once more than the threshold has passed.
    pub fn due(&self, condition: bool, elapsed: u128) -> (r: bool)
        ensures
            r == (condition || elapsed > self.threshold()),
    {
        condition || elapsed > self.threshold_nanos
    }

    /// Whether a report is due now by the clock (see `due`). When it is, the
    /// next one is measured from now.
    pub fn maybe(&mut self, condition: bool) -> (r: bool)
        ensures
            exists|elapsed: u128| r == #[trigger] old(self).due_spec(condition, elapsed),
            final(self).threshold() == old(self).threshold(),
    {
        let at = now();
        let elapsed = nanos_between(&at, &self.latest);
        proof {
            assert(self.due_spec(condition, elapsed) == (condition || elapsed > self.threshold()));
        }
        if self.due(condition, elapsed) {
            self.latest = at;
            true
        } else {
            false
        }
    }

    pub open spec fn due_spec(&self, condition: bool, elapsed: u128) -> bool {
        condition || elapsed > self.threshold()
    }
}

} // verus!
