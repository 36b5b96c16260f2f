//! The command line: flags, durations and deadlines, decided from the arguments, the
//! current time and the local UTC offset.
use vstd::prelude::*;
use vstd::string::*;
use vstd::utf8::encode_utf8;
use crate::duration::{PollInterval, Seconds};
use crate::parse::{
    checked_parse_datetime, parse_duration, spec_parse_datetime, spec_parse_duration,
    ParseDateTimeError, ParseDurationError,
};

verus! {

/// How to sleep.
#[derive(Debug, Clone, Copy, PartialEq, Eq, Structural)]
pub struct Config {
    /// How long to sleep, in nanoseconds.
    pub duration_nanos: u128,
    /// How often the remaining time is checked when no countdown is shown.
    pub poll_interval: PollInterval,
    /// Whether to show a live countdown.
    pub show_progress: bool,
    /// Whether time spent in suspend counts (wall clock) or not (monotonic clock).
    pub suspend_aware: bool,
}

/// Why the command line was refused.
#[derive(Debug)]
pub enum CliError {
    /// No argument at all.
    NoArguments,
    /// An argument that starts with '-' and is no known flag.
    UnknownFlag(String),
    /// "--until" with no value after it.
    UntilWithoutValue,
    /// Both durations and "--until".
    DurationAndUntil,
    /// Only flags, neither a duration nor "--until".
    NoDuration,
    /// A duration that does not parse.
    BadDuration(String, ParseDurationError),
    /// A deadline that does not parse.
    BadDatetime(String, ParseDateTimeError),
    /// The durations add up to more than `u64::MAX` seconds.
    DurationOverflow,
    /// The deadline has no computed value: the text is cut inside a character where a
    /// field ends, or the instant lies outside the range of the date arithmetic.
    DeadlineOutOfRange,
}

/// What the program does with its command line.
#[derive(Debug)]
pub enum Action {
    ShowHelp,
    ShowVersion,
    Sleep(Config),
    Fail(CliError),
}

/// "-h" or "--help".
pub open spec fn is_help_flag(a: Seq<char>) -> bool {
    a == seq!['-', 'h'] || a == seq!['-', '-', 'h', 'e', 'l', 'p']
}

/// "-V" or "--version".
pub open spec fn is_version_flag(a: Seq<char>) -> bool {
    a == seq!['-', 'V'] || a == seq!['-', '-', 'v', 'e', 'r', 's', 'i', 'o', 'n']
}

/// "-n" or "--no-progress".
pub open spec fn is_no_progress_flag(a: Seq<char>) -> bool {
    a == seq!['-', 'n'] || a == seq![
        '-',
        '-',
        'n',
        'o',
        '-',
        'p',
        'r',
        'o',
        'g',
        'r',
        'e',
        's',
        's',
    ]
}

/// "-m" or "--monotonic".
pub open spec fn is_monotonic_flag(a: Seq<char>) -> bool {
    a == seq!['-', 'm'] || a == seq!['-', '-', 'm', 'o', 'n', 'o', 't', 'o', 'n', 'i', 'c']
}

/// "-u" or "--until".
pub open spec fn is_until_flag(a: Seq<char>) -> bool {
    a == seq!['-', 'u'] || a == seq!['-', '-', 'u', 'n', 't', 'i', 'l']
}

/// Whether `a` starts with '-'.
pub open spec fn starts_with_dash(a: Seq<char>) -> bool {
    a.len() > 0 && a[0] == '-'
}

/// What has been read of the arguments so far.
pub struct ArgScan {
    pub show_progress: bool,
    pub suspend_aware: bool,
    /// Whether "--until" has been seen.
    pub until_seen: bool,
    /// Whether the arguments being read are the value of "--until".
    pub collecting: bool,
    pub durations: Seq<Seq<char>>,
    pub until_parts: Seq<Seq<char>>,
}

/// How reading the arguments ends.
pub enum ScanEnd {
    Help,
    Version,
    UnknownFlag(Seq<char>),
    Done(ArgScan),
}

/// Nothing read yet.
pub open spec fn initial_scan() -> ArgScan {
    ArgScan {
        show_progress: true,
        suspend_aware: true,
        until_seen: false,
        collecting: false,
        durations: seq![],
        until_parts: seq![],
    }
}

/// Reads the arguments from index `i` on. After "--until", the arguments up to the next
/// one that starts with '-' are its value; help, version and an unknown flag end the
/// reading at once; any other argument is a duration.
pub open spec fn scan_args(args: Seq<Seq<char>>, i: int, st: ArgScan) -> ScanEnd
    decreases args.len() - i,
{
    if i >= args.len() || i < 0 {
        ScanEnd::Done(st)
    } else {
        let a = args[i];
        if st.collecting && !starts_with_dash(a) {
            scan_args(args, i + 1, ArgScan { until_parts: st.until_parts.push(a), ..st })
        } else {
            let st = ArgScan { collecting: false, ..st };
            if is_help_flag(a) {
                ScanEnd::Help
            } else if is_version_flag(a) {
                ScanEnd::Version
            } else if is_no_progress_flag(a) {
                scan_args(args, i + 1, ArgScan { show_progress: false, ..st })
            } else if is_monotonic_flag(a) {
                scan_args(args, i + 1, ArgScan { suspend_aware: false, ..st })
            } else if is_until_flag(a) {
                scan_args(args, i + 1, ArgScan { until_seen: true, collecting: true, ..st })
            } else if starts_with_dash(a) {
                ScanEnd::UnknownFlag(a)
            } else {
                scan_args(args, i + 1, ArgScan { durations: st.durations.push(a), ..st })
            }
        }
    }
}

/// The words of `ws` joined by single spaces.
pub open spec fn join_words(ws: Seq<Seq<char>>) -> Seq<char>
    decreases ws.len(),
{
    if ws.len() <= 1 {
        if ws.len() == 1 {
            ws[0]
        } else {
            seq![]
        }
    } else {
        join_words(ws.drop_last()) + seq![' '] + ws.last()
    }
}

/// The sum of the durations, or the first problem met adding them up from the left.
pub enum DurationSum {
    Total(nat),
    Invalid(Seq<char>, ParseDurationError),
    Overflow,
}

/// Adds the durations written in `ds` to `acc`, from the left.
pub open spec fn sum_durations(ds: Seq<Seq<char>>, acc: nat) -> DurationSum
    decreases ds.len(),
{
    if ds.len() == 0 {
        DurationSum::Total(acc)
    } else {
        match spec_parse_duration(encode_utf8(ds[0])) {
            Err(e) => DurationSum::Invalid(ds[0], e),
            Ok(d) => if acc + d.0 > u64::MAX {
                DurationSum::Overflow
            } else {
                sum_durations(ds.drop_first(), (acc + d.0) as nat)
            },
        }
    }
}

/// A sum of durations fits in a `u64` whenever the count it starts from does.
proof fn lemma_sum_fits(ds: Seq<Seq<char>>, acc: nat)
    requires
        acc <= u64::MAX,
    ensures
        sum_durations(ds, acc) matches DurationSum::Total(n) ==> n <= u64::MAX,
    decreases ds.len(),
{
    if ds.len() > 0 {
        if let Ok(d) = spec_parse_duration(encode_utf8(ds[0])) {
            if acc + d.0 <= u64::MAX {
                lemma_sum_fits(ds.drop_first(), (acc + d.0) as nat);
            }
        }
    }
}

/// Nanoseconds from `now_secs` seconds and `now_nanos` nanoseconds after the epoch to
/// `target` seconds after it; 0 if the target is not later.
pub open spec fn nanos_until(target: int, now_secs: int, now_nanos: int) -> nat {
    let d = target * 1_000_000_000 - (now_secs * 1_000_000_000 + now_nanos);
    if d > 0 {
        d as nat
    } else {
        0
    }
}

/// The configuration of a sleep of `nanos` nanoseconds.
pub open spec fn sleep_config(show_progress: bool, suspend_aware: bool, nanos: nat) -> Config {
    Config {
        duration_nanos: nanos as u128,
        poll_interval: PollInterval(Seconds(1)),
        show_progress,
        suspend_aware,
    }
}

/// The configuration of a sleep of `nanos` nanoseconds with the flags read in `st`.
pub open spec fn config_of(st: ArgScan, nanos: nat) -> Config {
    sleep_config(st.show_progress, st.suspend_aware, nanos)
}

/// Whether `res` is the action for the arguments read in `st`.
pub open spec fn finished(res: Action, st: ArgScan, now_secs: int, now_nanos: int, local: i32) -> bool {
    if st.until_seen {
        if st.until_parts.len() == 0 {
            res == Action::Fail(CliError::UntilWithoutValue)
        } else if st.durations.len() > 0 {
            res == Action::Fail(CliError::DurationAndUntil)
        } else {
            let text = join_words(st.until_parts);
            match spec_parse_datetime(encode_utf8(text), now_secs, local) {
                None => res == Action::Fail(CliError::DeadlineOutOfRange),
                Some(Err(e)) => res matches Action::Fail(CliError::BadDatetime(s, e2)) && s@ == text
                    && e2 == e,
                Some(Ok(t)) => res == Action::Sleep(config_of(st, nanos_until(t as int, now_secs, now_nanos))),
            }
        }
    } else if st.durations.len() > 0 {
        match sum_durations(st.durations, 0) {
            DurationSum::Invalid(d, e) => res matches Action::Fail(CliError::BadDuration(s, e2))
                && s@ == d && e2 == e,
            DurationSum::Overflow => res == Action::Fail(CliError::DurationOverflow),
            DurationSum::Total(n) => res == Action::Sleep(config_of(st, n * 1_000_000_000)),
        }
    } else {
        res == Action::Fail(CliError::NoDuration)
    }
}

/// Whether `res` is the action for the command-line arguments `args` (without the program
/// name), at `now_secs` seconds (rounded down) and `now_nanos` nanoseconds after the epoch
/// and `local` seconds east of UTC.
pub open spec fn decided(res: Action, args: Seq<Seq<char>>, now_secs: int, now_nanos: int, local: i32) -> bool {
    if args.len() == 0 {
        res == Action::Fail(CliError::NoArguments)
    } else {
        match scan_args(args, 0, initial_scan()) {
            ScanEnd::Help => res is ShowHelp,
            ScanEnd::Version => res is ShowVersion,
            ScanEnd::UnknownFlag(a) => res matches Action::Fail(CliError::UnknownFlag(s)) && s@ == a,
            ScanEnd::Done(st) => finished(res, st, now_secs, now_nanos, local),
        }
    }
}

/// The text of each argument.
pub open spec fn arg_views(args: Seq<String>) -> Seq<Seq<char>> {
    args.map_values(|a: String| a@)
}

/// The text of each word.
pub open spec fn word_views(ws: Seq<&str>) -> Seq<Seq<char>> {
    ws.map_values(|a: &str| a@)
}

/// Whether `a` is the word `w`.
fn word_is(a: &str, w: &[char]) -> (res: bool)
    ensures
        res == (a@ == w@),
{
    let n = a.unicode_len();
    if n != w.len() {
        return false;
    }
    let mut i: usize = 0;
    while i < n
        invariant
            n == a@.len(),
            n == w@.len(),
            0 <= i <= n,
            forall|j: int| 0 <= j < i ==> a@[j] == w@[j],
        decreases n - i,
    {
        if a.get_char(i) != w[i] {
            return false;
        }
        i += 1;
    }
    assert(a@ =~= w@);
    true
}

/// Whether `a` starts with '-'.
fn dash_first(a: &str) -> (res: bool)
    ensures
        res == starts_with_dash(a@),
{
    let n = a.unicode_len();
    n > 0 && a.get_char(0) == '-'
}

/// The words of `ws` joined by single spaces.
fn join_with_spaces(ws: &Vec<&str>) -> (res: String)
    ensures
        res@ == join_words(word_views(ws@)),
{
    let mut res = String::new();
    if ws.len() == 0 {
        return res;
    }
    res.append(ws[0]);
    proof {
        reveal_strlit(" ");
        assert(word_views(ws@).subrange(0, 1) =~= seq![ws@[0]@]);
    }
    let mut i: usize = 1;
    while i < ws.len()
        invariant
            1 <= i <= ws.len(),
            res@ == join_words(word_views(ws@).subrange(0, i as int)),
            " "@ == seq![' '],
        decreases ws.len() - i,
    {
        res.append(" ");
        res.append(ws[i]);
        proof {
            let v = word_views(ws@).subrange(0, i + 1);
            assert(v.drop_last() =~= word_views(ws@).subrange(0, i as int));
        }
        i += 1;
    }
    assert(word_views(ws@).subrange(0, ws.len() as int) =~= word_views(ws@));
    res
}

/// Adds up the durations written in `ds`; see [`sum_durations`].
fn add_durations(ds: &Vec<&str>) -> (res: Result<u64, Action>)
    ensures
        match sum_durations(word_views(ds@), 0) {
            DurationSum::Total(n) => res == Ok::<u64, Action>(n as u64),
            DurationSum::Invalid(d, e) => res matches Err(Action::Fail(CliError::BadDuration(s, e2)))
                && s@ == d && e2 == e,
            DurationSum::Overflow => res == Err::<u64, Action>(Action::Fail(CliError::DurationOverflow)),
        },
{
    let mut total: u64 = 0;
    let mut i: usize = 0;
    assert(word_views(ds@).subrange(0, ds@.len() as int) =~= word_views(ds@));
    while i < ds.len()
        invariant
            0 <= i <= ds.len(),
            sum_durations(word_views(ds@), 0) == sum_durations(
                word_views(ds@).subrange(i as int, ds@.len() as int),
                total as nat,
            ),
        decreases ds.len() - i,
    {
        let ghost rest = word_views(ds@).subrange(i as int, ds@.len() as int);
        assert(rest[0] == ds@[i as int]@);
        assert(rest.drop_first() =~= word_views(ds@).subrange(i + 1, ds@.len() as int));
        match parse_duration(ds[i]) {
            Ok(d) => {
                total = match total.checked_add(d.0) {
                    Some(v) => v,
                    None => return Err(Action::Fail(CliError::DurationOverflow)),
                };
            },
            Err(e) => {
                return Err(Action::Fail(CliError::BadDuration(String::from_str(ds[i]), e)));
            },
        }
        i += 1;
    }
    assert(word_views(ds@).subrange(ds@.len() as int, ds@.len() as int).len() == 0);
    Ok(total)
}

/// [`nanos_until`] for a target from a parsed deadline.
fn wait_nanos(target: u64, now_secs: i64, now_nanos: u32) -> (res: u128)
    requires
        now_nanos < 1_000_000_000,
    ensures
        res == nanos_until(target as int, now_secs as int, now_nanos as int),
{
    let d: i128 = (target as i128) * 1_000_000_000 - ((now_secs as i128) * 1_000_000_000
        + now_nanos as i128);
    if d > 0 {
        d as u128
    } else {
        0
    }
}

/// The action for a deadline given as `parts`, with no duration.
fn finish_until(
    show_progress: bool,
    suspend_aware: bool,
    until_parts: &Vec<&str>,
    now_secs: i64,
    now_nanos: u32,
    local_offset: i32,
) -> (res: Action)
    requires
        now_nanos < 1_000_000_000,
        until_parts.len() > 0,
    ensures
        ({
            let text = join_words(word_views(until_parts@));
            match spec_parse_datetime(encode_utf8(text), now_secs as int, local_offset) {
                None => res == Action::Fail(CliError::DeadlineOutOfRange),
                Some(Err(e)) => res matches Action::Fail(CliError::BadDatetime(s, e2)) && s@
                    == text && e2 == e,
                Some(Ok(t)) => res == Action::Sleep(
                    sleep_config(
                        show_progress,
                        suspend_aware,
                        nanos_until(t as int, now_secs as int, now_nanos as int),
                    ),
                ),
            }
        }),
{
    let text = join_with_spaces(until_parts);
    let r = checked_parse_datetime(text.as_str(), now_secs, local_offset);
    let target = match r {
        None => return Action::Fail(CliError::DeadlineOutOfRange),
        Some(Err(e)) => return Action::Fail(CliError::BadDatetime(text, e)),
        Some(Ok(t)) => t,
    };
    let nanos = wait_nanos(target, now_secs, now_nanos);
    Action::Sleep(
        Config {
            duration_nanos: nanos,
            poll_interval: PollInterval(Seconds(1)),
            show_progress,
            suspend_aware,
        },
    )
}

/// The action for the arguments read; see [`finished`].
fn finish(
    show_progress: bool,
    suspend_aware: bool,
    until_seen: bool,
    durations: &Vec<&str>,
    until_parts: &Vec<&str>,
    now_secs: i64,
    now_nanos: u32,
    local_offset: i32,
) -> (res: Action)
    requires
        now_nanos < 1_000_000_000,
    ensures
        finished(
            res,
            ArgScan {
                show_progress,
                suspend_aware,
                until_seen,
                collecting: false,
                durations: word_views(durations@),
                until_parts: word_views(until_parts@),
            },
            now_secs as int,
            now_nanos as int,
            local_offset,
        ),
{
    let ghost st = ArgScan {
        show_progress,
        suspend_aware,
        until_seen,
        collecting: false,
        durations: word_views(durations@),
        until_parts: word_views(until_parts@),
    };
    if until_seen {
        if until_parts.len() == 0 {
            return Action::Fail(CliError::UntilWithoutValue);
        }
        if durations.len() > 0 {
            return Action::Fail(CliError::DurationAndUntil);
        }
        return finish_until(
            show_progress,
            suspend_aware,
            until_parts,
            now_secs,
            now_nanos,
            local_offset,
        );
    }
    if durations.len() == 0 {
        return Action::Fail(CliError::NoDuration);
    }
    proof {
        lemma_sum_fits(word_views(durations@), 0);
    }
    let total = match add_durations(durations) {
        Ok(t) => t,
        Err(a) => return a,
    };
    let config = Config {
        duration_nanos: total as u128 * 1_000_000_000,
        poll_interval: PollInterval(Seconds(1)),
        show_progress,
        suspend_aware,
    };
    Action::Sleep(config)
}

/// Decides what to do with the command-line arguments `args` (without the program name),
/// at `now_secs` seconds (rounded down) and `now_nanos` nanoseconds after the epoch, with
/// the local clock `local_offset` seconds east of UTC; see [`decided`].
pub fn parse(args: &Vec<String>, now_secs: i64, now_nanos: u32, local_offset: i32) -> (res: Action)
    requires
        now_nanos < 1_000_000_000,
    ensures
        decided(res, arg_views(args@), now_secs as int, now_nanos as int, local_offset),
{
    let ghost av = arg_views(args@);
    let n = args.len();
    if n == 0 {
        return Action::Fail(CliError::NoArguments);
    }
    let mut show_progress = true;
    let mut suspend_aware = true;
    let mut until_seen = false;
    let mut collecting = false;
    let mut durations: Vec<&str> = Vec::new();
    let mut until_parts: Vec<&str> = Vec::new();
    let mut i: usize = 0;
    assert(word_views(durations@) =~= seq![]);
    assert(word_views(until_parts@) =~= seq![]);
    while i < n
        invariant
            n == args.len(),
            av == arg_views(args@),
            0 <= i <= n,
            now_nanos < 1_000_000_000,
            scan_args(av, 0, initial_scan()) == scan_args(
                av,
                i as int,
                ArgScan {
                    show_progress,
                    suspend_aware,
                    until_seen,
                    collecting,
                    durations: word_views(durations@),
                    until_parts: word_views(until_parts@),
                },
            ),
        decreases n - i,
    {
        let a: &str = args[i].as_str();
        assert(av[i as int] == a@);
        if collecting && !dash_first(a) {
            let ghost before = until_parts@;
            until_parts.push(a);
            assert(word_views(until_parts@) =~= word_views(before).push(a@));
            i += 1;
            continue;
        }
        collecting = false;
        if word_is(a, &['-', 'h']) || word_is(a, &['-', '-', 'h', 'e', 'l', 'p']) {
            return Action::ShowHelp;
        }
        if word_is(a, &['-', 'V']) || word_is(a, &['-', '-', 'v', 'e', 'r', 's', 'i', 'o', 'n']) {
            return Action::ShowVersion;
        }
        if word_is(a, &['-', 'n']) || word_is(
            a,
            &['-', '-', 'n', 'o', '-', 'p', 'r', 'o', 'g', 'r', 'e', 's', 's'],
        ) {
            show_progress = false;
        } else if word_is(a, &['-', 'm']) || word_is(
            a,
            &['-', '-', 'm', 'o', 'n', 'o', 't', 'o', 'n', 'i', 'c'],
        ) {
            suspend_aware = false;
        } else if word_is(a, &['-', 'u']) || word_is(a, &['-', '-', 'u', 'n', 't', 'i', 'l']) {
            until_seen = true;
            collecting = true;
        } else if dash_first(a) {
            return Action::Fail(CliError::UnknownFlag(String::from_str(a)));
        } else {
            let ghost before = durations@;
            durations.push(a);
            assert(word_views(durations@) =~= word_views(before).push(a@));
        }
        i += 1;
    }
    finish(
        show_progress,
        suspend_aware,
        until_seen,
        &durations,
        &until_parts,
        now_secs,
        now_nanos,
        local_offset,
    )
}


/// Reading the arguments from `i` on clears the countdown and the wall clock exactly when
/// one of them is "-n"/"--no-progress" or "-m"/"--monotonic": a flag starts with '-', so it
/// is never taken as part of a value.
proof fn lemma_scan_flags(args: Seq<Seq<char>>, i: int, st: ArgScan)
    requires
        0 <= i,
    ensures
        scan_args(args, i, st) matches ScanEnd::Done(st2) ==> {
            &&& st2.suspend_aware == (st.suspend_aware && forall|j: int|
                i <= j < args.len() ==> !#[trigger] is_monotonic_flag(args[j]))
            &&& st2.show_progress == (st.show_progress && forall|j: int|
                i <= j < args.len() ==> !#[trigger] is_no_progress_flag(args[j]))
        },
    decreases args.len() - i,
{
    if i < args.len() {
        let a = args[i];
        if is_monotonic_flag(a) || is_no_progress_flag(a) {
            assert(a[0] == '-');
        }
        let next = if st.collecting && !starts_with_dash(a) {
            ArgScan { until_parts: st.until_parts.push(a), ..st }
        } else {
            let st1 = ArgScan { collecting: false, ..st };
            if is_no_progress_flag(a) {
                ArgScan { show_progress: false, ..st1 }
            } else if is_monotonic_flag(a) {
                ArgScan { suspend_aware: false, ..st1 }
            } else if is_until_flag(a) {
                ArgScan { until_seen: true, collecting: true, ..st1 }
            } else {
                ArgScan { durations: st1.durations.push(a), ..st1 }
            }
        };
        lemma_scan_flags(args, i + 1, next);
        if is_no_progress_flag(a) {
            assert(!is_monotonic_flag(a));
        }
        if is_monotonic_flag(a) {
            assert(!is_no_progress_flag(a));
        }
        assert((forall|j: int| i <= j < args.len() ==> !#[trigger] is_monotonic_flag(args[j]))
            == (!is_monotonic_flag(a) && forall|j: int|
            i + 1 <= j < args.len() ==> !#[trigger] is_monotonic_flag(args[j])));
        assert((forall|j: int| i <= j < args.len() ==> !#[trigger] is_no_progress_flag(args[j]))
            == (!is_no_progress_flag(a) && forall|j: int|
            i + 1 <= j < args.len() ==> !#[trigger] is_no_progress_flag(args[j])));
    }
}

/// Law: a sleep lasts until the deadline, or not at all when the deadline is not ahead
/// (to the nanosecond); with durations it lasts their total in nanoseconds.
pub proof fn lemma_sleep_length(res: Action, st: ArgScan, now_secs: int, now_nanos: int, local: i32)
    requires
        finished(res, st, now_secs, now_nanos, local),
        res is Sleep,
        i64::MIN <= now_secs <= i64::MAX,
        0 <= now_nanos < 1_000_000_000,
    ensures
        st.until_seen ==> (spec_parse_datetime(
            encode_utf8(join_words(st.until_parts)),
            now_secs,
            local,
        ) matches Some(Ok(t)) && {
            let now_ns = now_secs * 1_000_000_000 + now_nanos;
            if t * 1_000_000_000 > now_ns {
                res->Sleep_0.duration_nanos + now_ns == t * 1_000_000_000
            } else {
                res->Sleep_0.duration_nanos == 0
            }
        }),
        !st.until_seen ==> (sum_durations(st.durations, 0) matches DurationSum::Total(n)
            && res->Sleep_0.duration_nanos == n * 1_000_000_000),
{
    if !st.until_seen {
        lemma_sum_fits(st.durations, 0);
    } else {
        let r = spec_parse_datetime(encode_utf8(join_words(st.until_parts)), now_secs, local);
        if let Some(Ok(t)) = r {
            let n = nanos_until(t as int, now_secs, now_nanos);
            assert(res == Action::Sleep(config_of(st, n)));
            assert(n < 0x1_0000_0000_0000_0000_0000_0000_0000_0000);
        }
    }
}

/// Every sleep that the arguments read in `st` lead to keeps their flags and a one-second
/// poll interval, whether durations or a deadline set its length.
proof fn lemma_finished_flags(res: Action, st: ArgScan, now_secs: int, now_nanos: int, local: i32)
    requires
        finished(res, st, now_secs, now_nanos, local),
        res is Sleep,
    ensures
        res->Sleep_0.suspend_aware == st.suspend_aware,
        res->Sleep_0.show_progress == st.show_progress,
        res->Sleep_0.poll_interval == PollInterval(Seconds(1)),
{
    if st.until_seen && st.until_parts.len() > 0 && st.durations.len() == 0 {
        let r = spec_parse_datetime(encode_utf8(join_words(st.until_parts)), now_secs, local);
        if let Some(Ok(t)) = r {
            assert(res == Action::Sleep(config_of(st, nanos_until(t as int, now_secs, now_nanos))));
        }
    }
}

/// Law: the flags reach the sleep whatever sets its length, durations or "--until": it
/// shows no countdown exactly when some argument is "-n" or "--no-progress", it leaves out
/// time spent in suspend exactly when some argument is "-m" or "--monotonic", and it looks
/// at the clock every second.
pub proof fn lemma_flags_reach_config(
    res: Action,
    args: Seq<Seq<char>>,
    now_secs: int,
    now_nanos: int,
    local: i32,
)
    requires
        decided(res, args, now_secs, now_nanos, local),
        res is Sleep,
    ensures
        res->Sleep_0.suspend_aware == !exists|j: int|
            0 <= j < args.len() && #[trigger] is_monotonic_flag(args[j]),
        res->Sleep_0.show_progress == !exists|j: int|
            0 <= j < args.len() && #[trigger] is_no_progress_flag(args[j]),
        res->Sleep_0.poll_interval == PollInterval(Seconds(1)),
{
    lemma_scan_flags(args, 0, initial_scan());
    if let ScanEnd::Done(st) = scan_args(args, 0, initial_scan()) {
        lemma_finished_flags(res, st, now_secs, now_nanos, local);
    }
}

} // verus!
