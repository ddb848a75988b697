//! The state of a remote machine, read from what its kernel reports.

use crate::local_host_monitor::{
    format_speed, ignored_interface, is_ignored_interface, speed_text,
};
use crate::monitor::{
    replaced, MonitorRecord, MonitorTarget, RemoteHostConfig, RemoteHostMonitorRecord,
    StatusSignal,
};
use crate::number::{
    decimal, i64_text, law_decimal_is_written_in_order, law_decimal_reads_back,
    law_signed_decimal_reads_back, parse_u64, signed_decimal, signed_read, unsigned_read, IntError,
};
use crate::rounding::{
    apart, as_binary64, law_binary64_is_near, law_rate_over_whole_seconds,
    law_rate_times_duration_is_amount, law_tenths_text_is_nearest, push_tenths, rate,
    rate_per_second, tenths_text, to_binary64, with_one_decimal,
};
use crate::text::{
    chars_of, find_char, has_prefix, is_whitespace, law_blank_has_no_words,
    law_last_line_needs_no_ending, law_line_comes_first, law_lines_read_back,
    law_prefix_comes_first, law_trimming_leaves_the_text, law_trimming_leaves_what_is_not_blank,
    law_word_comes_first, lemma_until_char_bounds, lines, slice_of, split_lines, split_words,
    starts_with, string_of, trim, trimmed, until_char, views, with_line_feeds, words,
};
use vstd::prelude::*;
use vstd::string::StringExecFns;

verus! {

/// How long connecting may take, in seconds.
pub const SSH_CONNECT_TIMEOUT_SECS: u64 = 3;

/// How long one exchange may take, in milliseconds.
pub const SSH_IO_TIMEOUT_MS: u32 = 3000;

/// The pause between two samples, in seconds.
pub const SAMPLE_INTERVAL_SECS: u64 = 5;

/// The pause between the two readings that a load is computed from, in
/// milliseconds.
pub const CPU_SAMPLE_DELAY_MS: u64 = 250;

/// Why a report of a remote machine could not be used.
#[derive(Clone, Copy, Debug, PartialEq, Eq, Structural)]
pub enum MetricsError {
    /// There is no line for all processors together.
    CpuLineMissing,
    /// A processor time is not a number.
    CpuValue(IntError),
    /// There are too few processor times.
    CpuFieldsMissing,
    /// The amount of memory is not reported.
    MemTotalMissing,
    /// The amount of available memory is not reported.
    MemAvailableMissing,
    /// A memory line has no amount.
    MemFieldMissing,
    /// An amount of memory is not a number.
    MemValue(IntError),
    /// A traffic counter is not a number.
    NetValue(IntError),
    /// The command that was to report did not succeed.
    ExitStatus(i32),
}

/// What is wrong with a number, in words.
pub open spec fn int_error_text(e: IntError) -> Seq<char> {
    match e {
        IntError::Empty => "cannot parse integer from empty string"@,
        IntError::InvalidDigit => "invalid digit found in string"@,
        IntError::PosOverflow => "number too large to fit in target type"@,
        IntError::NegOverflow => "number too small to fit in target type"@,
    }
}

impl MetricsError {
    /// The error in words.
    pub open spec fn text(self) -> Seq<char> {
        match self {
            MetricsError::CpuLineMissing => "未找到 /proc/stat 的 cpu 行"@,
            MetricsError::CpuValue(e) => "解析 CPU 统计值失败: "@ + int_error_text(e),
            MetricsError::CpuFieldsMissing => "CPU 统计字段数量不足"@,
            MetricsError::MemTotalMissing => "未找到 MemTotal"@,
            MetricsError::MemAvailableMissing => "未找到 MemAvailable"@,
            MetricsError::MemFieldMissing => "内存信息字段缺失"@,
            MetricsError::MemValue(e) => "解析内存信息失败: "@ + int_error_text(e),
            MetricsError::NetValue(e) => "解析网卡统计失败: "@ + int_error_text(e),
            MetricsError::ExitStatus(code) => "远程命令退出码异常: "@ + signed_decimal(code as int),
        }
    }

    /// The error in words.
    pub fn message(&self) -> (res: String)
        ensures
            res@ == self.text(),
    {
        match self {
            MetricsError::CpuLineMissing => "未找到 /proc/stat 的 cpu 行".to_string(),
            MetricsError::CpuValue(e) => with_cause("解析 CPU 统计值失败: ", *e),
            MetricsError::CpuFieldsMissing => "CPU 统计字段数量不足".to_string(),
            MetricsError::MemTotalMissing => "未找到 MemTotal".to_string(),
            MetricsError::MemAvailableMissing => "未找到 MemAvailable".to_string(),
            MetricsError::MemFieldMissing => "内存信息字段缺失".to_string(),
            MetricsError::MemValue(e) => with_cause("解析内存信息失败: ", *e),
            MetricsError::NetValue(e) => with_cause("解析网卡统计失败: ", *e),
            MetricsError::ExitStatus(code) => {
                let mut out = "远程命令退出码异常: ".to_string();
                out.append(i64_text(*code as i64).as_str());
                out
            },
        }
    }
}

/// A message followed by what is wrong with a number.
fn with_cause(message: &str, e: IntError) -> (res: String)
    ensures
        res@ == message@ + int_error_text(e),
{
    let mut out = message.to_string();
    out.append(
        match e {
            IntError::Empty => "cannot parse integer from empty string",
            IntError::InvalidDigit => "invalid digit found in string",
            IntError::PosOverflow => "number too large to fit in target type",
            IntError::NegOverflow => "number too small to fit in target type",
        },
    );
    out
}

/// The first of the lines that start with `prefix`.
pub open spec fn first_with_prefix(ls: Seq<Seq<char>>, prefix: Seq<char>) -> Option<Seq<char>>
    decreases ls.len(),
{
    if ls.len() == 0 {
        None
    } else if has_prefix(ls[0], prefix) {
        Some(ls[0])
    } else {
        first_with_prefix(ls.skip(1), prefix)
    }
}

/// The numbers that the words stand for; the first word that is none decides
/// the error.
pub open spec fn numbers(ws: Seq<Seq<char>>) -> Result<Seq<nat>, IntError>
    decreases ws.len(),
{
    if ws.len() == 0 {
        Ok(Seq::empty())
    } else {
        match numbers(ws.drop_last()) {
            Err(e) => Err(e),
            Ok(values) => match unsigned_read(ws.last(), u64::MAX as nat) {
                Err(e) => Err(e),
                Ok(value) => Ok(values.push(value)),
            },
        }
    }
}

/// The sum of some numbers.
pub open spec fn sum(values: Seq<nat>) -> nat
    decreases values.len(),
{
    if values.len() == 0 {
        0
    } else {
        sum(values.drop_last()) + values.last()
    }
}

/// Numbers as mathematical ones.
pub open spec fn as_nats(values: Seq<u64>) -> Seq<nat> {
    Seq::new(values.len(), |i: int| values[i] as nat)
}

/// The words after the first one.
pub open spec fn words_after_first(s: Seq<char>) -> Seq<Seq<char>> {
    if words(s).len() > 0 {
        words(s).skip(1)
    } else {
        Seq::empty()
    }
}

/// The time that all processors spent, and the part of it that they were idle:
/// the fourth and the fifth of the times in the line `cpu`.
pub open spec fn cpu_totals(contents: Seq<char>) -> Result<(nat, nat), MetricsError> {
    match first_with_prefix(lines(contents), "cpu "@) {
        None => Err(MetricsError::CpuLineMissing),
        Some(line) => match numbers(words_after_first(line)) {
            Err(e) => Err(MetricsError::CpuValue(e)),
            Ok(values) => if values.len() < 5 {
                Err(MetricsError::CpuFieldsMissing)
            } else {
                Ok((sum(values), values[3] + values[4]))
            },
        },
    }
}

proof fn lemma_numbers_error(ws: Seq<Seq<char>>, k: int)
    requires
        0 <= k <= ws.len(),
        numbers(ws.take(k)) is Err,
    ensures
        numbers(ws) == numbers(ws.take(k)),
    decreases ws.len(),
{
    if k < ws.len() {
        assert(ws.drop_last().take(k) =~= ws.take(k));
        lemma_numbers_error(ws.drop_last(), k);
    } else {
        assert(ws.take(k) =~= ws);
    }
}

proof fn lemma_sum_bounds(values: Seq<nat>, i: int, j: int)
    requires
        0 <= i < j < values.len(),
    ensures
        values[i] + values[j] <= sum(values),
    decreases values.len(),
{
    if j < values.len() - 1 {
        lemma_sum_bounds(values.drop_last(), i, j);
    } else {
        lemma_sum_at_least(values.drop_last(), i);
    }
}

proof fn lemma_sum_at_least(values: Seq<nat>, i: int)
    requires
        0 <= i < values.len(),
    ensures
        values[i] <= sum(values),
    decreases values.len(),
{
    if i < values.len() - 1 {
        lemma_sum_at_least(values.drop_last(), i);
    }
}

/// Reads the words from `from` on as numbers.
fn parse_numbers(ws: &Vec<Vec<char>>, from: usize) -> (res: Result<Vec<u64>, IntError>)
    requires
        from <= ws.len(),
    ensures
        match res {
            Ok(values) => numbers(views(ws@).skip(from as int)) == Ok::<Seq<nat>, IntError>(
                as_nats(values@),
            ),
            Err(e) => numbers(views(ws@).skip(from as int)) == Err::<Seq<nat>, IntError>(e),
        },
{
    let ghost all = views(ws@).skip(from as int);
    let mut out: Vec<u64> = Vec::new();
    let mut i: usize = from;
    assert(as_nats(out@) =~= Seq::<nat>::empty());
    assert(all.take(0) =~= Seq::<Seq<char>>::empty());
    while i < ws.len()
        invariant
            from <= i <= ws.len(),
            all == views(ws@).skip(from as int),
            numbers(all.take(i - from)) == Ok::<Seq<nat>, IntError>(as_nats(out@)),
        decreases ws.len() - i,
    {
        let ghost before = out@;
        assert(all.take(i - from + 1).drop_last() =~= all.take(i - from));
        assert(all.take(i - from + 1).last() == ws@[i as int]@);
        match parse_u64(&ws[i]) {
            Err(e) => {
                proof {
                    lemma_numbers_error(all, i - from + 1);
                }
                return Err(e);
            },
            Ok(value) => {
                out.push(value);
                assert(as_nats(out@) =~= as_nats(before).push(value as nat));
            },
        }
        i += 1;
    }
    assert(all.take(i - from) =~= all);
    Ok(out)
}

/// The first line that starts with `prefix`.
fn find_line(ls: &Vec<Vec<char>>, prefix: &Vec<char>) -> (res: Option<usize>)
    ensures
        match res {
            Some(i) => i < ls.len() && first_with_prefix(views(ls@), prefix@) == Some(
                ls@[i as int]@,
            ),
            None => first_with_prefix(views(ls@), prefix@) is None,
        },
{
    let ghost all = views(ls@);
    let mut i: usize = 0;
    assert(all.skip(0) =~= all);
    while i < ls.len()
        invariant
            i <= ls.len(),
            all == views(ls@),
            first_with_prefix(all, prefix@) == first_with_prefix(all.skip(i as int), prefix@),
        decreases ls.len() - i,
    {
        assert(all.skip(i as int)[0] == ls@[i as int]@);
        if starts_with(&ls[i], prefix) {
            return Some(i);
        }
        assert(all.skip(i as int).skip(1) =~= all.skip(i + 1));
        i += 1;
    }
    None
}

/// The sum of some numbers, which cannot overflow.
fn wide_sum(values: &Vec<u64>) -> (res: u128)
    ensures
        res == sum(as_nats(values@)),
{
    let mut total: u128 = 0;
    let mut i: usize = 0;
    let ghost all = as_nats(values@);
    assert(all.take(0) =~= Seq::<nat>::empty());
    while i < values.len()
        invariant
            i <= values.len(),
            all == as_nats(values@),
            total == sum(all.take(i as int)),
            total <= i * 0xffff_ffff_ffff_ffff,
        decreases values.len() - i,
    {
        assert(all.take(i + 1).drop_last() =~= all.take(i as int));
        assert(i * 0xffff_ffff_ffff_ffff + 0xffff_ffff_ffff_ffff <= 0xffff_ffff_ffff_ffff
            * 0xffff_ffff_ffff_ffff) by (nonlinear_arith)
            requires
                i < 0xffff_ffff_ffff_ffff,
        ;
        total = total + values[i] as u128;
        i += 1;
    }
    assert(all.take(i as int) =~= all);
    total
}

/// The total and the idle processor time, as large as they may be.
fn read_cpu_totals(contents: &str) -> (res: Result<(u128, u128), MetricsError>)
    ensures
        match res {
            Ok((total, idle)) => cpu_totals(contents@) == Ok::<(nat, nat), MetricsError>(
                (total as nat, idle as nat),
            ) && idle <= total,
            Err(e) => cpu_totals(contents@) == Err::<(nat, nat), MetricsError>(e),
        },
{
    let ls = split_lines(&chars_of(contents));
    match find_line(&ls, &chars_of("cpu ")) {
        None => Err(MetricsError::CpuLineMissing),
        Some(i) => {
            let ws = split_words(&ls[i]);
            let from: usize = if ws.len() > 0 {
                1
            } else {
                0
            };
            assert(views(ws@).skip(from as int) =~= words_after_first(ls@[i as int]@));
            match parse_numbers(&ws, from) {
                Err(e) => Err(MetricsError::CpuValue(e)),
                Ok(values) => {
                    if values.len() < 5 {
                        return Err(MetricsError::CpuFieldsMissing);
                    }
                    let total = wide_sum(&values);
                    let idle: u128 = values[3] as u128 + values[4] as u128;
                    proof {
                        lemma_sum_bounds(as_nats(values@), 3, 4);
                    }
                    Ok((total, idle))
                },
            }
        },
    }
}

/// Whether the total processor time, where there is one, is a 64-bit number.
pub open spec fn totals_fit(contents: Seq<char>) -> bool {
    cpu_totals(contents) matches Ok((total, idle)) ==> total <= u64::MAX
}

/// The total and the idle processor time in a report of `/proc/stat`.
pub fn parse_cpu_totals(contents: &str) -> (res: Result<(u64, u64), MetricsError>)
    requires
        totals_fit(contents@),
    ensures
        match res {
            Ok((total, idle)) => cpu_totals(contents@) == Ok::<(nat, nat), MetricsError>(
                (total as nat, idle as nat),
            ),
            Err(e) => cpu_totals(contents@) == Err::<(nat, nat), MetricsError>(e),
        },
{
    match read_cpu_totals(contents) {
        Ok((total, idle)) => Ok((total as u64, idle as u64)),
        Err(e) => Err(e),
    }
}

/// The part of the processor time that was spent on work. The load is the
/// quotient; it is zero if no time has passed.
#[derive(Clone, Copy, Debug, PartialEq, Eq, Structural)]
pub struct CpuUsage {
    pub busy: u64,
    pub total: u64,
}

/// What is left of `a` once `b` is taken away; nothing if `b` is larger.
pub open spec fn left_of(a: nat, b: nat) -> nat {
    if b <= a {
        (a - b) as nat
    } else {
        0
    }
}

/// The load between two totals.
pub open spec fn usage_between(before: (nat, nat), after: (nat, nat)) -> (nat, nat) {
    let total = left_of(after.0, before.0);
    if total == 0 {
        (0, 0)
    } else {
        (left_of(total, left_of(after.1, before.1)), total)
    }
}

/// The load between two reports of `/proc/stat`: busy time and total time.
pub open spec fn cpu_usage(before: Seq<char>, after: Seq<char>) -> Result<
    (nat, nat),
    MetricsError,
> {
    match cpu_totals(before) {
        Err(e) => Err(e),
        Ok(first) => match cpu_totals(after) {
            Err(e) => Err(e),
            Ok(second) => Ok(usage_between(first, second)),
        },
    }
}

/// Whether a load can be computed with 64-bit numbers: the totals fit, and the
/// processors were not idle for longer than the time that passed.
pub open spec fn usage_fits(before: Seq<char>, after: Seq<char>) -> bool {
    &&& totals_fit(before)
    &&& cpu_totals(before) is Ok ==> totals_fit(after)
    &&& match (cpu_totals(before), cpu_totals(after)) {
        (Ok(first), Ok(second)) => left_of(second.0, first.0) > 0 ==> left_of(second.1, first.1)
            <= left_of(second.0, first.0),
        _ => true,
    }
}

/// Whether a load is the given one.
pub open spec fn is_usage(res: Result<CpuUsage, MetricsError>, before: Seq<char>, after: Seq<
    char,
>) -> bool {
    match res {
        Ok(usage) => cpu_usage(before, after) == Ok::<(nat, nat), MetricsError>(
            (usage.busy as nat, usage.total as nat),
        ),
        Err(e) => cpu_usage(before, after) == Err::<(nat, nat), MetricsError>(e),
    }
}

/// The load between two reports of `/proc/stat`.
pub fn parse_cpu_usage(before: &str, after: &str) -> (res: Result<CpuUsage, MetricsError>)
    requires
        usage_fits(before@, after@),
    ensures
        is_usage(res, before@, after@),
{
    let first = match parse_cpu_totals(before) {
        Ok(totals) => totals,
        Err(e) => {
            return Err(e);
        },
    };
    let second = match parse_cpu_totals(after) {
        Ok(totals) => totals,
        Err(e) => {
            return Err(e);
        },
    };
    let total_delta = second.0.saturating_sub(first.0);
    let idle_delta = second.1.saturating_sub(first.1);
    if total_delta == 0 {
        return Ok(CpuUsage { busy: 0, total: 0 });
    }
    Ok(CpuUsage { busy: total_delta - idle_delta, total: total_delta })
}

/// Whether a load can be computed with 64-bit numbers.
pub fn has_sane_cpu_times(before: &str, after: &str) -> (res: bool)
    ensures
        res == usage_fits(before@, after@),
{
    match read_cpu_totals(before) {
        Err(_) => true,
        Ok(first) => {
            if first.0 > u64::MAX as u128 {
                return false;
            }
            match read_cpu_totals(after) {
                Err(_) => true,
                Ok(second) => {
                    if second.0 > u64::MAX as u128 {
                        return false;
                    }
                    let total_delta = second.0.saturating_sub(first.0);
                    let idle_delta = second.1.saturating_sub(first.1);
                    total_delta == 0 || idle_delta <= total_delta
                },
            }
        },
    }
}

/// The amount in a line of `/proc/meminfo`.
pub open spec fn meminfo_kb(line: Seq<char>) -> Result<nat, MetricsError> {
    if words(line).len() < 2 {
        Err(MetricsError::MemFieldMissing)
    } else {
        match unsigned_read(words(line)[1], u64::MAX as nat) {
            Ok(v) => Ok(v),
            Err(e) => Err(MetricsError::MemValue(e)),
        }
    }
}

/// The amount in a line, which is given by its characters.
fn read_meminfo_kb(line: &Vec<char>) -> (res: Result<u64, MetricsError>)
    ensures
        match res {
            Ok(v) => meminfo_kb(line@) == Ok::<nat, MetricsError>(v as nat),
            Err(e) => meminfo_kb(line@) == Err::<nat, MetricsError>(e),
        },
{
    let ws = split_words(line);
    assert(views(ws@).len() == ws@.len());
    if ws.len() < 2 {
        return Err(MetricsError::MemFieldMissing);
    }
    assert(views(ws@)[1] == ws@[1]@);
    match parse_u64(&ws[1]) {
        Ok(v) => Ok(v),
        Err(e) => Err(MetricsError::MemValue(e)),
    }
}

/// The amount in a line of `/proc/meminfo`.
pub fn parse_meminfo_kb(line: &str) -> (res: Result<u64, MetricsError>)
    ensures
        match res {
            Ok(v) => meminfo_kb(line@) == Ok::<nat, MetricsError>(v as nat),
            Err(e) => meminfo_kb(line@) == Err::<nat, MetricsError>(e),
        },
{
    read_meminfo_kb(&chars_of(line))
}

/// The total and the available memory in some lines: the last line for each
/// counts, and the first malformed one decides the error.
pub open spec fn memory_amounts(ls: Seq<Seq<char>>) -> Result<
    (Option<nat>, Option<nat>),
    MetricsError,
>
    decreases ls.len(),
{
    if ls.len() == 0 {
        Ok((None, None))
    } else {
        match memory_amounts(ls.drop_last()) {
            Err(e) => Err(e),
            Ok((total, available)) => if has_prefix(ls.last(), "MemTotal:"@) {
                match meminfo_kb(ls.last()) {
                    Err(e) => Err(e),
                    Ok(v) => Ok((Some(v), available)),
                }
            } else if has_prefix(ls.last(), "MemAvailable:"@) {
                match meminfo_kb(ls.last()) {
                    Err(e) => Err(e),
                    Ok(v) => Ok((total, Some(v))),
                }
            } else {
                Ok((total, available))
            },
        }
    }
}

/// The used memory of a number of KiB, in GiB with one decimal.
pub open spec fn used_memory_text(kb: nat) -> Seq<char> {
    tenths_text(as_binary64(kb), 1024 * 1024) + " GB"@
}

/// The used memory in a report of `/proc/meminfo`.
pub open spec fn memory_usage(contents: Seq<char>) -> Result<Seq<char>, MetricsError> {
    match memory_amounts(lines(contents)) {
        Err(e) => Err(e),
        Ok((total, available)) => match total {
            None => Err(MetricsError::MemTotalMissing),
            Some(t) => match available {
                None => Err(MetricsError::MemAvailableMissing),
                Some(a) => Ok(used_memory_text(left_of(t, a))),
            },
        },
    }
}

proof fn lemma_memory_error(ls: Seq<Seq<char>>, k: int)
    requires
        0 <= k <= ls.len(),
        memory_amounts(ls.take(k)) is Err,
    ensures
        memory_amounts(ls) == memory_amounts(ls.take(k)),
    decreases ls.len(),
{
    if k < ls.len() {
        assert(ls.drop_last().take(k) =~= ls.take(k));
        lemma_memory_error(ls.drop_last(), k);
    } else {
        assert(ls.take(k) =~= ls);
    }
}

/// An optional number as a mathematical one.
pub open spec fn as_nat_option(v: Option<u64>) -> Option<nat> {
    match v {
        Some(n) => Some(n as nat),
        None => None,
    }
}

/// The used memory in a report of `/proc/meminfo`.
pub fn parse_memory_usage(contents: &str) -> (res: Result<String, MetricsError>)
    ensures
        match res {
            Ok(text) => memory_usage(contents@) == Ok::<Seq<char>, MetricsError>(text@),
            Err(e) => memory_usage(contents@) == Err::<Seq<char>, MetricsError>(e),
        },
{
    let ls = split_lines(&chars_of(contents));
    let total_prefix = chars_of("MemTotal:");
    let available_prefix = chars_of("MemAvailable:");
    let ghost all = views(ls@);
    let mut total_kb: Option<u64> = None;
    let mut available_kb: Option<u64> = None;
    let mut i: usize = 0;
    assert(all.take(0) =~= Seq::<Seq<char>>::empty());
    while i < ls.len()
        invariant
            i <= ls.len(),
            all == views(ls@),
            all == lines(contents@),
            total_prefix@ == "MemTotal:"@,
            available_prefix@ == "MemAvailable:"@,
            memory_amounts(all.take(i as int)) == Ok::<(Option<nat>, Option<nat>), MetricsError>(
                (as_nat_option(total_kb), as_nat_option(available_kb)),
            ),
        decreases ls.len() - i,
    {
        let line = &ls[i];
        assert(all.take(i + 1).drop_last() =~= all.take(i as int));
        assert(all.take(i + 1).last() == line@);
        if starts_with(line, &total_prefix) {
            match read_meminfo_kb(line) {
                Ok(v) => {
                    total_kb = Some(v);
                },
                Err(e) => {
                    proof {
                        lemma_memory_error(all, i + 1);
                    }
                    return Err(e);
                },
            }
        } else if starts_with(line, &available_prefix) {
            match read_meminfo_kb(line) {
                Ok(v) => {
                    available_kb = Some(v);
                },
                Err(e) => {
                    proof {
                        lemma_memory_error(all, i + 1);
                    }
                    return Err(e);
                },
            }
        }
        i += 1;
    }
    assert(all.take(i as int) =~= all);
    match total_kb {
        None => Err(MetricsError::MemTotalMissing),
        Some(total) => match available_kb {
            None => Err(MetricsError::MemAvailableMissing),
            Some(available) => {
                let used: u64 = total.saturating_sub(available);
                let mut out = String::new();
                push_tenths(&mut out, to_binary64(used), 1024 * 1024);
                out.append(" GB");
                assert(out@ =~= used_memory_text(used as nat));
                Ok(out)
            },
        },
    }
}

/// The traffic of a machine since it was started.
#[derive(Clone, Copy, Debug, PartialEq, Eq, Structural)]
pub struct NetCounters {
    pub rx_bytes: u64,
    pub tx_bytes: u64,
}

/// A sum that stops at the largest 64-bit number.
pub open spec fn capped_sum(a: nat, b: nat) -> nat {
    if a + b <= u64::MAX {
        a + b
    } else {
        u64::MAX as nat
    }
}

/// What one line of `/proc/net/dev` adds to the traffic: the first and the
/// ninth of its numbers, if it is about an interface that counts and has all of
/// them.
pub open spec fn line_traffic(line: Seq<char>) -> Result<(nat, nat), MetricsError> {
    let colon = until_char(line, ':') as int;
    if colon >= line.len() || ignored_interface(trimmed(line.take(colon))) {
        Ok((0, 0))
    } else {
        match numbers(words(line.skip(colon + 1))) {
            Err(e) => Err(MetricsError::NetValue(e)),
            Ok(values) => if values.len() < 16 {
                Ok((0, 0))
            } else {
                Ok((values[0], values[8]))
            },
        }
    }
}

/// The traffic in some lines: received and sent.
pub open spec fn lines_traffic(ls: Seq<Seq<char>>) -> Result<(nat, nat), MetricsError>
    decreases ls.len(),
{
    if ls.len() == 0 {
        Ok((0, 0))
    } else {
        match lines_traffic(ls.drop_last()) {
            Err(e) => Err(e),
            Ok((rx, tx)) => match line_traffic(ls.last()) {
                Err(e) => Err(e),
                Ok((more_rx, more_tx)) => Ok((capped_sum(rx, more_rx), capped_sum(tx, more_tx))),
            },
        }
    }
}

/// The traffic in a report of `/proc/net/dev`, whose first two lines are headings.
pub open spec fn network_traffic(contents: Seq<char>) -> Result<(nat, nat), MetricsError> {
    let ls = lines(contents);
    if ls.len() <= 2 {
        Ok((0, 0))
    } else {
        lines_traffic(ls.skip(2))
    }
}

proof fn lemma_traffic_error(ls: Seq<Seq<char>>, k: int)
    requires
        0 <= k <= ls.len(),
        lines_traffic(ls.take(k)) is Err,
    ensures
        lines_traffic(ls) == lines_traffic(ls.take(k)),
    decreases ls.len(),
{
    if k < ls.len() {
        assert(ls.drop_last().take(k) =~= ls.take(k));
        lemma_traffic_error(ls.drop_last(), k);
    } else {
        assert(ls.take(k) =~= ls);
    }
}

/// What one line of `/proc/net/dev` adds to the traffic.
fn read_line_traffic(line: &Vec<char>) -> (res: Result<(u64, u64), MetricsError>)
    ensures
        match res {
            Ok((rx, tx)) => line_traffic(line@) == Ok::<(nat, nat), MetricsError>(
                (rx as nat, tx as nat),
            ),
            Err(e) => line_traffic(line@) == Err::<(nat, nat), MetricsError>(e),
        },
{
    assert(line@.skip(0) =~= line@);
    let colon = find_char(line, ':', 0);
    if colon == line.len() {
        return Ok((0, 0));
    }
    let name = slice_of(line, 0, colon);
    assert(name@ =~= line@.take(colon as int));
    if is_ignored_interface(&trim(&name)) {
        return Ok((0, 0));
    }
    let stats = slice_of(line, colon + 1, line.len());
    assert(stats@ =~= line@.skip(colon + 1));
    let ws = split_words(&stats);
    assert(views(ws@).skip(0) =~= words(stats@));
    match parse_numbers(&ws, 0) {
        Err(e) => Err(MetricsError::NetValue(e)),
        Ok(values) => {
            if values.len() < 16 {
                Ok((0, 0))
            } else {
                Ok((values[0], values[8]))
            }
        },
    }
}

/// The traffic in a report of `/proc/net/dev`.
pub fn parse_network_counters(contents: &str) -> (res: Result<NetCounters, MetricsError>)
    ensures
        match res {
            Ok(counters) => network_traffic(contents@) == Ok::<(nat, nat), MetricsError>(
                (counters.rx_bytes as nat, counters.tx_bytes as nat),
            ),
            Err(e) => network_traffic(contents@) == Err::<(nat, nat), MetricsError>(e),
        },
{
    let ls = split_lines(&chars_of(contents));
    let ghost all = views(ls@).skip(2);
    let mut rx_bytes: u64 = 0;
    let mut tx_bytes: u64 = 0;
    let mut i: usize = 2;
    if ls.len() > 2 {
        assert(all.take(0) =~= Seq::<Seq<char>>::empty());
    }
    while i < ls.len()
        invariant
            2 <= i,
            i <= ls.len() || ls.len() <= 2,
            all == views(ls@).skip(2),
            views(ls@) == lines(contents@),
            ls.len() <= 2 ==> rx_bytes == 0 && tx_bytes == 0,
            ls.len() > 2 ==> lines_traffic(all.take(i - 2)) == Ok::<(nat, nat), MetricsError>(
                (rx_bytes as nat, tx_bytes as nat),
            ),
        decreases ls.len() - i,
    {
        assert(all.take(i - 1).drop_last() =~= all.take(i - 2));
        assert(all.take(i - 1).last() == ls@[i as int]@);
        match read_line_traffic(&ls[i]) {
            Err(e) => {
                proof {
                    lemma_traffic_error(all, i - 1);
                }
                return Err(e);
            },
            Ok((rx, tx)) => {
                rx_bytes = rx_bytes.saturating_add(rx);
                tx_bytes = tx_bytes.saturating_add(tx);
            },
        }
        i += 1;
    }
    proof {
        if ls.len() > 2 {
            assert(all.take(i - 2) =~= all);
        }
    }
    Ok(NetCounters { rx_bytes, tx_bytes })
}

/// The speeds of a machine between two samples: none without an earlier one, or
/// if no time has passed. Times are in nanoseconds.
pub open spec fn network_speeds(
    previous: Option<NetCounters>,
    previous_at: Option<u64>,
    current: NetCounters,
    current_at: u64,
) -> (Seq<char>, Seq<char>) {
    match (previous, previous_at) {
        (Some(earlier), Some(at)) if at < current_at => {
            let elapsed = (current_at - at) as nat;
            (
                speed_text(rate(left_of(current.rx_bytes as nat, earlier.rx_bytes as nat), elapsed)),
                speed_text(rate(left_of(current.tx_bytes as nat, earlier.tx_bytes as nat), elapsed)),
            )
        },
        _ => ("0 B/s"@, "0 B/s"@),
    }
}

/// The download and the upload speed of a machine between two samples.
pub fn format_network_speeds(
    previous_counters: Option<NetCounters>,
    previous_sample_at: Option<u64>,
    current_counters: NetCounters,
    current_sample_at: u64,
) -> (res: (String, String))
    ensures
        (res.0@, res.1@) == network_speeds(
            previous_counters,
            previous_sample_at,
            current_counters,
            current_sample_at,
        ),
{
    match (previous_counters, previous_sample_at) {
        (Some(earlier), Some(at)) => {
            let elapsed: u64 = current_sample_at.saturating_sub(at);
            if elapsed == 0 {
                return ("0 B/s".to_string(), "0 B/s".to_string());
            }
            let rx: u64 = current_counters.rx_bytes.saturating_sub(earlier.rx_bytes);
            let tx: u64 = current_counters.tx_bytes.saturating_sub(earlier.tx_bytes);
            (
                format_speed(rate_per_second(rx, elapsed)),
                format_speed(rate_per_second(tx, elapsed)),
            )
        },
        _ => ("0 B/s".to_string(), "0 B/s".to_string()),
    }
}

/// Whether `res` is what a remote command reported: its output without the white
/// space around it, if it succeeded.
pub open spec fn is_output(
    res: Result<String, MetricsError>,
    exit_status: i32,
    output: Seq<char>,
) -> bool {
    match res {
        Ok(text) => exit_status == 0 && text@ == trimmed(output),
        Err(e) => exit_status != 0 && e == MetricsError::ExitStatus(exit_status),
    }
}

/// What a remote command reported: its output without the white space around
/// it, if it succeeded.
pub fn command_output(exit_status: i32, output: &str) -> (res: Result<String, MetricsError>)
    ensures
        is_output(res, exit_status, output@),
{
    if exit_status != 0 {
        return Err(MetricsError::ExitStatus(exit_status));
    }
    Ok(string_of(&trim(&chars_of(output))))
}

/// The reports that a sample is made from.
#[derive(Debug)]
pub struct RemoteReports {
    pub cpu_before: String,
    pub memory: String,
    pub network: String,
    pub cpu_after: String,
}

/// A remote machine at one time, which is given in nanoseconds.
#[derive(Debug)]
pub struct RemoteHostSample {
    pub cpu_usage: CpuUsage,
    pub memory_usage: String,
    pub download_speed: String,
    pub upload_speed: String,
    pub net_counters: NetCounters,
    pub sampled_at: u64,
}

/// Whether `res` is what the reports come to. The load is looked at first, the
/// memory next and the traffic last; the first error counts.
pub open spec fn is_sample(
    res: Result<RemoteHostSample, MetricsError>,
    reports: RemoteReports,
    previous: Option<NetCounters>,
    previous_at: Option<u64>,
    sampled_at: u64,
) -> bool {
    match (
        cpu_usage(reports.cpu_before@, reports.cpu_after@),
        memory_usage(reports.memory@),
        network_traffic(reports.network@),
    ) {
        (Err(e), _, _) => res == Err::<RemoteHostSample, MetricsError>(e),
        (_, Err(e), _) => res == Err::<RemoteHostSample, MetricsError>(e),
        (_, _, Err(e)) => res == Err::<RemoteHostSample, MetricsError>(e),
        (Ok(usage), Ok(memory), Ok(traffic)) => res matches Ok(sample) && {
            &&& usage == (sample.cpu_usage.busy as nat, sample.cpu_usage.total as nat)
            &&& memory == sample.memory_usage@
            &&& traffic == (
                sample.net_counters.rx_bytes as nat,
                sample.net_counters.tx_bytes as nat,
            )
            &&& (sample.download_speed@, sample.upload_speed@) == network_speeds(
                previous,
                previous_at,
                sample.net_counters,
                sampled_at,
            )
            &&& sample.sampled_at == sampled_at
        },
    }
}

/// The sample that the reports of a machine come to.
pub fn collect_remote_host_metrics(
    reports: &RemoteReports,
    previous_net_counters: Option<NetCounters>,
    previous_sample_at: Option<u64>,
    sampled_at: u64,
) -> (res: Result<RemoteHostSample, MetricsError>)
    requires
        usage_fits(reports.cpu_before@, reports.cpu_after@),
    ensures
        is_sample(res, *reports, previous_net_counters, previous_sample_at, sampled_at),
{
    let cpu_usage = match parse_cpu_usage(reports.cpu_before.as_str(), reports.cpu_after.as_str()) {
        Ok(usage) => usage,
        Err(e) => {
            return Err(e);
        },
    };
    let memory_usage = match parse_memory_usage(reports.memory.as_str()) {
        Ok(text) => text,
        Err(e) => {
            return Err(e);
        },
    };
    let net_counters = match parse_network_counters(reports.network.as_str()) {
        Ok(counters) => counters,
        Err(e) => {
            return Err(e);
        },
    };
    let (download_speed, upload_speed) = format_network_speeds(
        previous_net_counters,
        previous_sample_at,
        net_counters,
        sampled_at,
    );
    Ok(
        RemoteHostSample {
            cpu_usage,
            memory_usage,
            download_speed,
            upload_speed,
            net_counters,
            sampled_at,
        },
    )
}

/// Whether a configuration says where to connect and as whom.
pub open spec fn complete(config: RemoteHostConfig) -> bool {
    &&& trimmed(config.host@).len() > 0
    &&& trimmed(config.username@).len() > 0
    &&& trimmed(config.password@).len() > 0
}

/// Whether a record says that nothing is known of a machine.
pub open spec fn is_offline_record(record: RemoteHostMonitorRecord, id: usize) -> bool {
    &&& record.mt_id == id
    &&& record.cpu_usage_bits == 0
    &&& record.memory_usage@ == "0.0 GB"@
    &&& record.download_speed@ == "0 B/s"@
    &&& record.upload_speed@ == "0 B/s"@
    &&& !record.running
}

/// Whether a record holds a sample.
pub open spec fn is_sample_record(
    record: RemoteHostMonitorRecord,
    id: usize,
    sample: RemoteHostSample,
    cpu_usage_bits: u32,
) -> bool {
    &&& record.mt_id == id
    &&& record.cpu_usage_bits == cpu_usage_bits
    &&& record.memory_usage == sample.memory_usage
    &&& record.download_speed == sample.download_speed
    &&& record.upload_speed == sample.upload_speed
    &&& record.running
}

/// The record of a machine of which nothing is known.
fn offline_record(id: usize, timestamp: String) -> (res: RemoteHostMonitorRecord)
    ensures
        is_offline_record(res, id),
        res.timestamp == timestamp,
{
    RemoteHostMonitorRecord {
        mt_id: id,
        cpu_usage_bits: 0,
        memory_usage: "0.0 GB".to_string(),
        download_speed: "0 B/s".to_string(),
        upload_speed: "0 B/s".to_string(),
        timestamp,
        running: false,
    }
}

/// Whether `after` is `before` with a record in place of the last one.
pub open spec fn shows_record(
    before: MonitorTarget,
    after: MonitorTarget,
    record: RemoteHostMonitorRecord,
) -> bool {
    &&& after.performance_records@ == replaced(
        before.performance_records@,
        MonitorRecord::RemoteHost(record),
    )
    &&& after == (MonitorTarget { performance_records: after.performance_records, ..before })
}

/// What is remembered between the samples of a machine.
#[derive(Debug)]
pub struct RemoteMonitor {
    pub id: usize,
    pub online: bool,
    pub last_error_message: String,
    pub previous_net_counters: Option<NetCounters>,
    pub previous_sample_at: Option<u64>,
}

/// Whether a target shows a sample, and is as before otherwise.
pub open spec fn shows_sample(
    before: MonitorTarget,
    after: MonitorTarget,
    id: usize,
    sample: RemoteHostSample,
    cpu_usage_bits: u32,
    timestamp: String,
) -> bool {
    exists|record: RemoteHostMonitorRecord| #[trigger]
        is_sample_record(record, id, sample, cpu_usage_bits) && record.timestamp == timestamp
            && shows_record(before, after, record)
}

/// Whether a target shows that nothing is known of its machine, and is as before
/// otherwise.
pub open spec fn shows_nothing(
    before: MonitorTarget,
    after: MonitorTarget,
    id: usize,
    timestamp: String,
) -> bool {
    exists|record: RemoteHostMonitorRecord| #[trigger]
        is_offline_record(record, id) && record.timestamp == timestamp && shows_record(
            before,
            after,
            record,
        )
}

/// Whether the watch over a machine has begun, or could not because its
/// configuration is incomplete.
pub open spec fn begins(
    before: MonitorTarget,
    after: MonitorTarget,
    id: usize,
    config: RemoteHostConfig,
    timestamp: String,
    res: Result<RemoteMonitor, StatusSignal>,
) -> bool {
    &&& shows_nothing(
        MonitorTarget {
            monitor_enabled: before.monitor_enabled && complete(config),
            ..before
        },
        after,
        id,
        timestamp,
    )
    &&& match res {
        Ok(monitor) => complete(config) && monitor.fresh(id) && monitor.well_formed(),
        Err(status) => {
            &&& !complete(config)
            &&& status.mt_id == id
            &&& status.target_type@ == "RemoteHost"@
            &&& status.signal@ == "error"@
            &&& status.message@ == "远程主机配置不完整，请检查主机地址、用户名和密码"@
        },
    }
}

impl RemoteMonitor {
    /// An earlier sample is remembered while the machine is online and not
    /// otherwise, and no error is.
    pub open spec fn well_formed(self) -> bool {
        &&& self.online == self.previous_net_counters is Some
        &&& self.online == self.previous_sample_at is Some
        &&& self.online ==> self.last_error_message@.len() == 0
    }

    /// Whether the machine was never sampled.
    pub open spec fn fresh(self, id: usize) -> bool {
        &&& self.id == id
        &&& !self.online
        &&& self.last_error_message@.len() == 0
        &&& self.previous_net_counters is None
        &&& self.previous_sample_at is None
    }

    /// Whether `self` follows on `before` after a sample.
    pub open spec fn follows_sample(self, before: RemoteMonitor, sample: RemoteHostSample) -> bool {
        &&& self.id == before.id
        &&& self.online
        &&& self.last_error_message@.len() == 0
        &&& self.previous_net_counters == Some(sample.net_counters)
        &&& self.previous_sample_at == Some(sample.sampled_at)
    }

    /// Whether a failure is worth reporting: it is the first since the machine
    /// was online.
    pub open spec fn reports_failure(self) -> bool {
        self.online || self.last_error_message@.len() == 0
    }

    /// Whether `self` follows on `before` after a failure.
    pub open spec fn follows_failure(self, before: RemoteMonitor, message: Seq<char>) -> bool {
        &&& self.id == before.id
        &&& !self.online
        &&& self.previous_net_counters is None
        &&& self.previous_sample_at is None
        &&& self.last_error_message@ == if before.reports_failure() {
            message
        } else {
            before.last_error_message@
        }
    }

    /// Begins to watch a machine, of which nothing is known yet. With an
    /// incomplete configuration the target is disabled, and the result says so.
    pub fn begin(
        target: &mut MonitorTarget,
        id: usize,
        config: &RemoteHostConfig,
        timestamp: String,
    ) -> (res: Result<Self, StatusSignal>)
        ensures
            begins(*old(target), *final(target), id, *config, timestamp, res),
    {
        let record = offline_record(id, timestamp);
        let ghost shown = record;
        target.replace_record(MonitorRecord::RemoteHost(record));
        let incomplete = trim(&chars_of(config.host.as_str())).len() == 0 || trim(
            &chars_of(config.username.as_str()),
        ).len() == 0 || trim(&chars_of(config.password.as_str())).len() == 0;
        if incomplete {
            target.monitor_enabled = false;
        }
        assert(is_offline_record(shown, id));
        assert(shows_record(
            MonitorTarget {
                monitor_enabled: old(target).monitor_enabled && complete(*config),
                ..*old(target)
            },
            *target,
            shown,
        ));
        if incomplete {
            return Err(
                StatusSignal {
                    mt_id: id,
                    target_type: "RemoteHost".to_string(),
                    signal: "error".to_string(),
                    message: "远程主机配置不完整，请检查主机地址、用户名和密码".to_string(),
                },
            );
        }
        Ok(
            RemoteMonitor {
                id,
                online: false,
                last_error_message: String::new(),
                previous_net_counters: None,
                previous_sample_at: None,
            },
        )
    }

    /// Takes in a sample. The result says whether the machine has come online.
    pub fn sampled(
        &mut self,
        target: &mut MonitorTarget,
        sample: RemoteHostSample,
        cpu_usage_bits: u32,
        timestamp: String,
    ) -> (res: bool)
        ensures
            res == !old(self).online,
            final(self).follows_sample(*old(self), sample),
            final(self).well_formed(),
            shows_sample(
                *old(target),
                *final(target),
                old(self).id,
                sample,
                cpu_usage_bits,
                timestamp,
            ),
    {
        let connected = !self.online;
        self.online = true;
        self.last_error_message = String::new();
        self.previous_net_counters = Some(sample.net_counters);
        self.previous_sample_at = Some(sample.sampled_at);
        let ghost given = sample;
        let record = RemoteHostMonitorRecord {
            mt_id: self.id,
            cpu_usage_bits,
            memory_usage: sample.memory_usage,
            download_speed: sample.download_speed,
            upload_speed: sample.upload_speed,
            timestamp,
            running: true,
        };
        assert(is_sample_record(record, self.id, given, cpu_usage_bits));
        target.replace_record(MonitorRecord::RemoteHost(record));
        connected
    }

    /// Takes in that a sample failed. The result says whether to report it.
    pub fn failed(
        &mut self,
        target: &mut MonitorTarget,
        message: &String,
        timestamp: String,
    ) -> (res: bool)
        ensures
            res == old(self).reports_failure(),
            final(self).follows_failure(*old(self), message@),
            final(self).well_formed(),
            shows_nothing(*old(target), *final(target), old(self).id, timestamp),
    {
        let report = self.online || self.last_error_message.as_str().is_empty();
        if report {
            self.last_error_message = message.clone();
        }
        self.online = false;
        self.previous_net_counters = None;
        self.previous_sample_at = None;
        let record = offline_record(self.id, timestamp);
        let ghost shown = record;
        target.replace_record(MonitorRecord::RemoteHost(record));
        assert(is_offline_record(shown, self.id));
        report
    }
}

/// The busy time is a part of the total time: no load is above one hundred
/// percent.
pub proof fn law_load_is_a_part(before: Seq<char>, after: Seq<char>)
    requires
        cpu_usage(before, after) is Ok,
    ensures
        cpu_usage(before, after)->Ok_0.0 <= cpu_usage(before, after)->Ok_0.1,
{
}

/// Of failures in a row only the first is reported, provided that it has a
/// message.
pub proof fn law_failures_are_reported_once(
    before: RemoteMonitor,
    between: RemoteMonitor,
    message: Seq<char>,
)
    requires
        message.len() > 0,
        between.follows_failure(before, message),
    ensures
        !between.reports_failure(),
{
}

/// A failure right after a sample is reported.
pub proof fn law_failure_after_sample_is_reported(
    before: RemoteMonitor,
    between: RemoteMonitor,
    sample: RemoteHostSample,
)
    requires
        between.follows_sample(before, sample),
    ensures
        between.reports_failure(),
{
}

/// The first sample after a failure, and the first of all, shows no speed.
pub proof fn law_no_speed_without_earlier_sample(
    monitor: RemoteMonitor,
    current: NetCounters,
    current_at: u64,
)
    requires
        monitor.well_formed(),
        !monitor.online,
    ensures
        network_speeds(
            monitor.previous_net_counters,
            monitor.previous_sample_at,
            current,
            current_at,
        ) == ("0 B/s"@, "0 B/s"@),
{
}

/// Numbers as a kernel writes them, each after a space.
pub open spec fn spaced(values: Seq<nat>) -> Seq<char>
    decreases values.len(),
{
    if values.len() == 0 {
        Seq::empty()
    } else {
        seq![' '] + decimal(values[0]) + spaced(values.skip(1))
    }
}

/// Whether all numbers have 64 bits.
pub open spec fn all_fit(values: Seq<nat>) -> bool {
    forall|i: int| 0 <= i < values.len() ==> #[trigger] values[i] <= u64::MAX
}

/// The sum of some numbers, however large.
pub open spec fn added_up(values: Seq<nat>) -> nat {
    values.fold_left(0nat, |a: nat, x: nat| a + x)
}

proof fn lemma_decimal_is_a_word(n: nat)
    ensures
        decimal(n).len() > 0,
        forall|i: int|
            0 <= i < decimal(n).len() ==> !is_whitespace(#[trigger] decimal(n)[i]) && decimal(n)[i]
                != '\n' && decimal(n)[i] != '\r',
    decreases n,
{
    let d = n % 10;
    law_decimal_is_written_in_order(n / 10, d);
    if n >= 10 {
        assert(n == 10 * (n / 10) + d);
        lemma_decimal_is_a_word(n / 10);
        let t = decimal(n / 10);
        assert forall|i: int| 0 <= i < decimal(n).len() implies !is_whitespace(
            #[trigger] decimal(n)[i],
        ) && decimal(n)[i] != '\n' && decimal(n)[i] != '\r' by {
            if i < t.len() {
                assert(decimal(n)[i] == t[i]);
            } else {
                assert(decimal(n)[i] == decimal(d)[0]);
            }
        }
    }
}

proof fn lemma_words_of_spaced(values: Seq<nat>)
    ensures
        words(spaced(values)).len() == values.len(),
        forall|i: int|
            0 <= i < values.len() ==> #[trigger] words(spaced(values))[i] == decimal(values[i]),
        spaced(values).len() > 0 ==> spaced(values)[0] == ' ',
        forall|i: int|
            0 <= i < spaced(values).len() ==> #[trigger] spaced(values)[i] != '\n'
                && spaced(values)[i] != '\r' && spaced(values)[i] != ':',
        spaced(values).len() == 0 <==> values.len() == 0,
    decreases values.len(),
{
    if values.len() > 0 {
        let rest = values.skip(1);
        lemma_words_of_spaced(rest);
        lemma_decimal_is_a_word(values[0]);
        lemma_no_colon(values[0]);
        let word = decimal(values[0]);
        law_word_comes_first(seq![' '], word, spaced(rest));
        let all = words(spaced(values));
        assert(all == seq![word] + words(spaced(rest)));
        assert forall|i: int| 0 <= i < values.len() implies #[trigger] all[i] == decimal(
            values[i],
        ) by {
            if i > 0 {
                assert(all[i] == words(spaced(rest))[i - 1]);
                assert(rest[i - 1] == values[i]);
            }
        }
        let s = spaced(values);
        assert forall|i: int| 0 <= i < s.len() implies #[trigger] s[i] != '\n' && s[i] != '\r'
            && s[i] != ':' by {
            if i >= 1 {
                if i - 1 < word.len() {
                    assert(s[i] == word[i - 1]);
                } else {
                    assert(s[i] == spaced(rest)[i - 1 - word.len()]);
                }
            }
        }
    } else {
        law_blank_has_no_words(Seq::empty());
    }
}

proof fn lemma_no_colon(n: nat)
    ensures
        !decimal(n).contains(':'),
    decreases n,
{
    let d = n % 10;
    law_decimal_is_written_in_order(n / 10, d);
    if n >= 10 {
        assert(n == 10 * (n / 10) + d);
        lemma_no_colon(n / 10);
        let t = decimal(n / 10);
        assert forall|i: int| 0 <= i < decimal(n).len() implies decimal(n)[i] != ':' by {
            if i < t.len() {
                assert(decimal(n)[i] == t[i]);
                assert(t.contains(t[i]));
            } else {
                assert(decimal(n)[i] == decimal(d)[0]);
            }
        }
    }
}

proof fn lemma_numbers_read(ws: Seq<Seq<char>>, values: Seq<nat>)
    requires
        ws.len() == values.len(),
        forall|i: int| 0 <= i < ws.len() ==> #[trigger] ws[i] == decimal(values[i]),
        all_fit(values),
    ensures
        numbers(ws) == Ok::<Seq<nat>, IntError>(values),
    decreases ws.len(),
{
    if ws.len() > 0 {
        let fewer = values.drop_last();
        assert(values[values.len() - 1] <= u64::MAX);
        assert forall|i: int| 0 <= i < fewer.len() implies #[trigger] ws.drop_last()[i] == decimal(
            fewer[i],
        ) by {
            assert(ws.drop_last()[i] == ws[i]);
        }
        assert forall|i: int| 0 <= i < fewer.len() implies #[trigger] fewer[i] <= u64::MAX by {
            assert(fewer[i] == values[i]);
        }
        lemma_numbers_read(ws.drop_last(), fewer);
        law_decimal_reads_back(values.last(), u64::MAX as nat);
        assert(ws[ws.len() - 1] == decimal(values[values.len() - 1]));
        assert(fewer.push(values.last()) =~= values);
    } else {
        assert(values =~= Seq::<nat>::empty());
    }
}

proof fn lemma_sum_is_added_up(values: Seq<nat>)
    ensures
        sum(values) == added_up(values),
    decreases values.len(),
{
    reveal(Seq::fold_left);
    if values.len() > 0 {
        lemma_sum_is_added_up(values.drop_last());
    }
}

/// The line for all processors as the kernel writes it, with one time after
/// another.
pub open spec fn cpu_line(times: Seq<nat>) -> Seq<char> {
    "cpu "@ + spaced(times)
}

proof fn lemma_cpu_line(times: Seq<nat>)
    requires
        all_fit(times),
        times.len() > 0,
    ensures
        has_prefix(cpu_line(times), "cpu "@),
        !cpu_line(times).contains('\n'),
        cpu_line(times).last() != '\r',
        numbers(words_after_first(cpu_line(times))) == Ok::<Seq<nat>, IntError>(times),
{
    let line = cpu_line(times);
    reveal_strlit("cpu ");
    lemma_words_of_spaced(times);
    let tail = spaced(times);
    law_prefix_comes_first(line, "cpu "@, tail);
    let word = seq!['c', 'p', 'u'];
    let blank = seq![' '];
    assert forall|i: int| 0 <= i < word.len() implies !is_whitespace(#[trigger] word[i]) by {}
    assert("cpu "@ =~= word + blank);
    assert(line =~= Seq::<char>::empty() + word + (blank + tail));
    law_word_comes_first(Seq::empty(), word, blank + tail);
    assert((blank + tail).skip(1) =~= tail);
    assert(words(blank + tail) == words(tail));
    assert((seq![word] + words(tail)).skip(1) =~= words(tail));
    lemma_numbers_read(words(tail), times);
    assert forall|i: int| 0 <= i < line.len() implies line[i] != '\n' && line[i] != '\r' by {
        if i >= 4 {
            assert(line[i] == tail[i - 4]);
        }
    }
}

/// The processor times that a kernel reports are read back: the total is the sum of
/// all of them, however many there are, and the idle part that of the fourth and
/// the fifth. What follows in the report does not matter.
pub proof fn law_cpu_times_read_back(times: Seq<nat>, rest: Seq<char>)
    requires
        all_fit(times),
        times.len() > 0,
    ensures
        cpu_totals(cpu_line(times).push('\n') + rest) == (if times.len() >= 5 {
            Ok::<(nat, nat), MetricsError>((added_up(times), times[3] + times[4]))
        } else {
            Err(MetricsError::CpuFieldsMissing)
        }),
        cpu_totals(cpu_line(times)) == cpu_totals(cpu_line(times).push('\n') + rest),
{
    let line = cpu_line(times);
    lemma_cpu_line(times);
    lemma_sum_is_added_up(times);
    law_line_comes_first(line, rest);
    law_last_line_needs_no_ending(line);
    assert((seq![line] + lines(rest))[0] == line);
}

/// Lines that are not about all processors together do not matter.
pub proof fn law_other_lines_have_no_cpu_times(line: Seq<char>, rest: Seq<char>)
    requires
        !line.contains('\n'),
        line.len() == 0 || line.last() != '\r',
        !"cpu "@.is_prefix_of(line),
    ensures
        cpu_totals(line.push('\n') + rest) == cpu_totals(rest),
        cpu_totals(line) == Err::<(nat, nat), MetricsError>(MetricsError::CpuLineMissing),
{
    law_line_comes_first(line, rest);
    law_last_line_needs_no_ending(line);
    let all = seq![line] + lines(rest);
    assert(all[0] == line);
    assert(all.skip(1) =~= lines(rest));
    assert(!has_prefix(line, "cpu "@)) by {
        if has_prefix(line, "cpu "@) {
            assert("cpu "@ =~= line.subrange(0, "cpu "@.len() as int));
        }
    }
    assert(seq![line].skip(1) =~= Seq::<Seq<char>>::empty());
    let none = Seq::<Seq<char>>::empty();
    assert(first_with_prefix(none, "cpu "@) is None);
    assert(first_with_prefix(seq![line], "cpu "@) == first_with_prefix(none, "cpu "@));
}

proof fn lemma_added_up_with(values: Seq<nat>, i: int, more: nat)
    requires
        0 <= i < values.len(),
    ensures
        added_up(values.update(i, values[i] + more)) == added_up(values) + more,
    decreases values.len(),
{
    reveal(Seq::fold_left);
    let now = values.update(i, values[i] + more);
    if i < values.len() - 1 {
        lemma_added_up_with(values.drop_last(), i, more);
        assert(now.drop_last() =~= values.drop_last().update(i, values[i] + more));
    } else {
        assert(now.drop_last() =~= values.drop_last());
    }
}

/// More time, wherever it was spent, is as much more in all; and as much more idle
/// time exactly if it was the fourth or the fifth of the times.
pub proof fn law_every_cpu_time_counts(times: Seq<nat>, i: int, more: nat, rest: Seq<char>)
    requires
        all_fit(times),
        times.len() >= 5,
        0 <= i < times.len(),
        times[i] + more <= u64::MAX,
    ensures
        ({
            let before = cpu_totals(cpu_line(times).push('\n') + rest)->Ok_0;
            let later = cpu_line(times.update(i, times[i] + more));
            cpu_totals(later.push('\n') + rest) == Ok::<(nat, nat), MetricsError>(
                (
                    before.0 + more,
                    if i == 3 || i == 4 {
                        before.1 + more
                    } else {
                        before.1
                    },
                ),
            )
        }),
{
    let now = times.update(i, times[i] + more);
    assert forall|j: int| 0 <= j < now.len() implies #[trigger] now[j] <= u64::MAX by {
        assert(times[j] <= u64::MAX);
    }
    law_cpu_times_read_back(times, rest);
    law_cpu_times_read_back(now, rest);
    lemma_added_up_with(times, i, more);
}

/// How much each of some numbers has grown.
pub open spec fn growth(before: Seq<nat>, after: Seq<nat>) -> Seq<nat> {
    Seq::new(before.len(), |i: int| (after[i] - before[i]) as nat)
}

proof fn lemma_growth_adds_up(before: Seq<nat>, after: Seq<nat>)
    requires
        before.len() == after.len(),
        forall|i: int| 0 <= i < before.len() ==> #[trigger] before[i] <= after[i],
    ensures
        added_up(before) + added_up(growth(before, after)) == added_up(after),
    decreases before.len(),
{
    reveal(Seq::fold_left);
    if before.len() > 0 {
        assert(before[before.len() - 1] <= after[before.len() - 1]);
        lemma_growth_adds_up(before.drop_last(), after.drop_last());
        assert(growth(before, after).drop_last() =~= growth(
            before.drop_last(),
            after.drop_last(),
        ));
    }
}

/// Between two reports of growing times the load is made of all that has passed,
/// and of all of that but the growth of the two idle times.
pub proof fn law_load_is_what_was_not_idle(
    before: Seq<nat>,
    after: Seq<nat>,
    rest_before: Seq<char>,
    rest_after: Seq<char>,
)
    requires
        all_fit(before),
        all_fit(after),
        5 <= before.len() == after.len(),
        forall|i: int| 0 <= i < before.len() ==> #[trigger] before[i] <= after[i],
    ensures
        cpu_usage(
            cpu_line(before).push('\n') + rest_before,
            cpu_line(after).push('\n') + rest_after,
        ) == Ok::<(nat, nat), MetricsError>(
            (
                added_up(growth(before, after).update(3, 0).update(4, 0)),
                added_up(growth(before, after)),
            ),
        ),
{
    law_cpu_times_read_back(before, rest_before);
    law_cpu_times_read_back(after, rest_after);
    lemma_growth_adds_up(before, after);
    let grown = growth(before, after);
    let busy = grown.update(3, 0).update(4, 0);
    assert(before[3] <= after[3] && before[4] <= after[4]);
    lemma_added_up_with(busy, 3, grown[3]);
    let part = busy.update(3, grown[3]);
    lemma_added_up_with(part, 4, grown[4]);
    assert(part.update(4, grown[4]) =~= grown);
}

/// There is no load where the time has not gone on.
pub proof fn law_no_load_without_time(
    before: Seq<nat>,
    after: Seq<nat>,
    rest_before: Seq<char>,
    rest_after: Seq<char>,
)
    requires
        all_fit(before),
        all_fit(after),
        5 <= before.len(),
        5 <= after.len(),
        added_up(after) <= added_up(before),
    ensures
        cpu_usage(
            cpu_line(before).push('\n') + rest_before,
            cpu_line(after).push('\n') + rest_after,
        ) == Ok::<(nat, nat), MetricsError>((0, 0)),
{
    law_cpu_times_read_back(before, rest_before);
    law_cpu_times_read_back(after, rest_after);
}

/// Whether a line of `/proc/meminfo` is about the memory in all or the available
/// memory.
pub open spec fn is_memory_line(line: Seq<char>) -> bool {
    "MemTotal:"@.is_prefix_of(line) || "MemAvailable:"@.is_prefix_of(line)
}

proof fn lemma_prefix(line: Seq<char>, prefix: Seq<char>)
    ensures
        prefix.is_prefix_of(line) == has_prefix(line, prefix),
{
    assert(prefix.is_prefix_of(line) <==> prefix.len() <= line.len() && prefix =~= line.subrange(
        0,
        prefix.len() as int,
    ));
}

proof fn lemma_memory_of_filtered(ls: Seq<Seq<char>>)
    ensures
        memory_amounts(ls) == memory_amounts(ls.filter(|line: Seq<char>| is_memory_line(line))),
    decreases ls.len(),
{
    reveal(Seq::filter);
    let f = |line: Seq<char>| is_memory_line(line);
    if ls.len() > 0 {
        let before = ls.drop_last();
        let line = ls.last();
        lemma_memory_of_filtered(before);
        lemma_prefix(line, "MemTotal:"@);
        lemma_prefix(line, "MemAvailable:"@);
        if is_memory_line(line) {
            assert(ls.filter(f) == before.filter(f).push(line));
            assert(before.filter(f).push(line).drop_last() =~= before.filter(f));
        } else {
            assert(ls.filter(f) == before.filter(f));
        }
    }
}

/// Only the lines about the memory in all and the available memory matter: two
/// reports that agree on them come to the same, whatever else they hold.
pub proof fn law_other_memory_lines_do_not_matter(a: Seq<char>, b: Seq<char>)
    requires
        lines(a).filter(|line: Seq<char>| is_memory_line(line)) == lines(b).filter(
            |line: Seq<char>| is_memory_line(line),
        ),
    ensures
        memory_usage(a) == memory_usage(b),
{
    lemma_memory_of_filtered(lines(a));
    lemma_memory_of_filtered(lines(b));
}

/// A line of `/proc/meminfo` as the kernel writes it.
pub open spec fn memory_line(label: Seq<char>, blank: Seq<char>, kb: nat) -> Seq<char> {
    label + blank + decimal(kb) + " kB"@
}

/// The amount in a line of `/proc/meminfo` is read back, whatever its label is and
/// however many spaces follow on it.
pub proof fn law_memory_line_reads_back(label: Seq<char>, blank: Seq<char>, kb: nat)
    requires
        label.len() > 0,
        forall|i: int| 0 <= i < label.len() ==> !is_whitespace(#[trigger] label[i]),
        blank.len() > 0,
        forall|i: int| 0 <= i < blank.len() ==> is_whitespace(#[trigger] blank[i]),
        kb <= u64::MAX,
    ensures
        meminfo_kb(memory_line(label, blank, kb)) == Ok::<nat, MetricsError>(kb),
{
    let line = memory_line(label, blank, kb);
    let unit = " kB"@;
    reveal_strlit(" kB");
    lemma_decimal_is_a_word(kb);
    assert(is_whitespace(blank[0]));
    law_word_comes_first(Seq::empty(), label, blank + decimal(kb) + unit);
    assert(line =~= Seq::<char>::empty() + label + (blank + decimal(kb) + unit));
    law_word_comes_first(blank, decimal(kb), unit);
    assert(words(line) == seq![label] + (seq![decimal(kb)] + words(unit)));
    assert(words(line)[1] == decimal(kb));
    law_decimal_reads_back(kb, u64::MAX as nat);
}

/// Whether a text is that of an amount of memory in KiB: in GiB with one decimal,
/// the nearest one but for what the floating point number is off.
pub open spec fn tells_memory(text: Seq<char>, kb: nat) -> bool {
    exists|n: nat|
        text == #[trigger] with_one_decimal(n) + " GB"@ && apart(
            n as int * (1024 * 1024),
            10 * kb as int,
        ) * 0x40_0000_0000_0000 <= 0x20_0000_0000_0000 * (1024 * 1024) + 20 * kb
}

proof fn lemma_used_memory(kb: nat)
    ensures
        tells_memory(used_memory_text(kb), kb),
{
    law_binary64_is_near(kb);
    law_tenths_text_is_nearest(as_binary64(kb), 1024 * 1024);
    let n = choose|n: nat|
        tenths_text(as_binary64(kb), 1024 * 1024) == #[trigger] with_one_decimal(n) && 2 * apart(
            (n * (1024 * 1024)) as int,
            (10 * as_binary64(kb)) as int,
        ) <= 1024 * 1024;
    assert(used_memory_text(kb) == with_one_decimal(n) + " GB"@);
}

proof fn lemma_label(label: Seq<char>, blank: Seq<char>, kb: nat)
    requires
        label == "MemTotal:"@ || label == "MemAvailable:"@,
        blank.len() > 0,
        forall|i: int| 0 <= i < blank.len() ==> is_whitespace(#[trigger] blank[i]),
        kb <= u64::MAX,
    ensures
        meminfo_kb(memory_line(label, blank, kb)) == Ok::<nat, MetricsError>(kb),
        has_prefix(memory_line(label, blank, kb), "MemTotal:"@) <==> label == "MemTotal:"@,
        has_prefix(memory_line(label, blank, kb), label),
{
    reveal_strlit("MemTotal:");
    reveal_strlit("MemAvailable:");
    law_memory_line_reads_back(label, blank, kb);
    let line = memory_line(label, blank, kb);
    assert(line =~= label + (blank + decimal(kb) + " kB"@));
    law_prefix_comes_first(line, label, blank + decimal(kb) + " kB"@);
    assert("MemTotal:"@[3] == 'T' && "MemAvailable:"@[3] == 'A');
    assert(line[3] == label[3]);
    if has_prefix(line, "MemTotal:"@) {
        assert(line.take("MemTotal:"@.len() as int)[3] == line[3]);
    }
}

/// The used memory is the memory in all without the available memory, none if more
/// is available than there is; the order of the two lines does not matter.
pub proof fn law_used_memory_is_what_is_not_available(
    contents: Seq<char>,
    blank_total: Seq<char>,
    total: nat,
    blank_available: Seq<char>,
    available: nat,
)
    requires
        blank_total.len() > 0,
        forall|i: int| 0 <= i < blank_total.len() ==> is_whitespace(#[trigger] blank_total[i]),
        blank_available.len() > 0,
        forall|i: int|
            0 <= i < blank_available.len() ==> is_whitespace(#[trigger] blank_available[i]),
        total <= u64::MAX,
        available <= u64::MAX,
        ({
            let found = lines(contents).filter(|line: Seq<char>| is_memory_line(line));
            let t = memory_line("MemTotal:"@, blank_total, total);
            let a = memory_line("MemAvailable:"@, blank_available, available);
            found == seq![t, a] || found == seq![a, t]
        }),
    ensures
        memory_usage(contents) matches Ok(text) && tells_memory(
            text,
            if available <= total {
                (total - available) as nat
            } else {
                0
            },
        ),
{
    let t = memory_line("MemTotal:"@, blank_total, total);
    let a = memory_line("MemAvailable:"@, blank_available, available);
    lemma_memory_of_filtered(lines(contents));
    reveal_strlit("MemTotal:");
    reveal_strlit("MemAvailable:");
    assert("MemTotal:"@[3] == 'T' && "MemAvailable:"@[3] == 'A');
    lemma_label("MemTotal:"@, blank_total, total);
    lemma_label("MemAvailable:"@, blank_available, available);
    lemma_used_memory(left_of(total, available));
    let none = Seq::<Seq<char>>::empty();
    assert(memory_amounts(none) == Ok::<(Option<nat>, Option<nat>), MetricsError>((None, None)));
    assert(seq![t].drop_last() =~= none);
    assert(seq![a].drop_last() =~= none);
    assert(seq![t, a].drop_last() =~= seq![t]);
    assert(seq![a, t].drop_last() =~= seq![a]);
    assert(memory_amounts(seq![t]) == Ok::<(Option<nat>, Option<nat>), MetricsError>(
        (Some(total), None),
    ));
    assert(memory_amounts(seq![a]) == Ok::<(Option<nat>, Option<nat>), MetricsError>(
        (None, Some(available)),
    ));
}

/// A report without the memory in all, or without the available memory, cannot be
/// used, and which one is missing is told.
pub proof fn law_missing_memory_is_told(
    contents: Seq<char>,
    label: Seq<char>,
    blank: Seq<char>,
    kb: nat,
)
    requires
        label == "MemTotal:"@ || label == "MemAvailable:"@,
        blank.len() > 0,
        forall|i: int| 0 <= i < blank.len() ==> is_whitespace(#[trigger] blank[i]),
        kb <= u64::MAX,
    ensures
        lines(contents).filter(|line: Seq<char>| is_memory_line(line)).len() == 0 ==> memory_usage(
            contents,
        ) == Err::<Seq<char>, MetricsError>(MetricsError::MemTotalMissing),
        lines(contents).filter(|line: Seq<char>| is_memory_line(line)) == seq![
            memory_line(label, blank, kb),
        ] ==> memory_usage(contents) == Err::<Seq<char>, MetricsError>(
            if label == "MemTotal:"@ {
                MetricsError::MemAvailableMissing
            } else {
                MetricsError::MemTotalMissing
            },
        ),
{
    lemma_memory_of_filtered(lines(contents));
    lemma_label(label, blank, kb);
    let none = Seq::<Seq<char>>::empty();
    let one = seq![memory_line(label, blank, kb)];
    assert(memory_amounts(none) == Ok::<(Option<nat>, Option<nat>), MetricsError>((None, None)));
    assert(one.drop_last() =~= none);
}

/// A line of `/proc/net/dev` as the kernel writes it.
pub open spec fn interface_line(blank: Seq<char>, name: Seq<char>, counters: Seq<nat>) -> Seq<char> {
    blank + name + ":"@ + spaced(counters)
}

/// An interface that counts adds the first of its counters to what was received and
/// the ninth to what was sent; an interface that does not count, or has fewer than
/// sixteen counters, adds nothing.
pub proof fn law_interface_adds_its_counters(
    blank: Seq<char>,
    name: Seq<char>,
    counters: Seq<nat>,
)
    requires
        forall|i: int| 0 <= i < blank.len() ==> is_whitespace(#[trigger] blank[i]),
        !blank.contains(':'),
        !name.contains(':'),
        name.len() > 0 ==> !is_whitespace(name[0]) && !is_whitespace(name.last()),
        all_fit(counters),
    ensures
        line_traffic(interface_line(blank, name, counters)) == Ok::<(nat, nat), MetricsError>(
            if !ignored_interface(name) && counters.len() >= 16 {
                (counters[0], counters[8])
            } else {
                (0, 0)
            },
        ),
{
    let line = interface_line(blank, name, counters);
    reveal_strlit(":");
    let tail = spaced(counters);
    let head = blank + name;
    let k = head.len() as int;
    lemma_until_char_bounds(line, ':');
    assert(line[k] == ':');
    assert forall|i: int| 0 <= i < k implies line[i] != ':' by {
        if i < blank.len() {
            assert(line[i] == blank[i]);
        } else {
            assert(line[i] == name[i - blank.len()]);
        }
    }
    assert(until_char(line, ':') == k) by {
        let n = until_char(line, ':') as int;
        if n < k {
            assert(line[n] == ':');
        }
    }
    assert(line.take(k) =~= blank + name + Seq::<char>::empty());
    law_trimming_leaves_the_text(blank, name, Seq::empty());
    assert(line.skip(k + 1) =~= tail);
    lemma_words_of_spaced(counters);
    lemma_numbers_read(words(tail), counters);
}

proof fn lemma_traffic_adds_up(ls: Seq<Seq<char>>, rx: Seq<nat>, tx: Seq<nat>)
    requires
        ls.len() == rx.len() == tx.len(),
        forall|i: int|
            0 <= i < ls.len() ==> line_traffic(#[trigger] ls[i]) == Ok::<(nat, nat), MetricsError>(
                (rx[i], tx[i]),
            ),
    ensures
        lines_traffic(ls) == Ok::<(nat, nat), MetricsError>(
            (
                if added_up(rx) <= u64::MAX {
                    added_up(rx)
                } else {
                    u64::MAX as nat
                },
                if added_up(tx) <= u64::MAX {
                    added_up(tx)
                } else {
                    u64::MAX as nat
                },
            ),
        ),
    decreases ls.len(),
{
    reveal(Seq::fold_left);
    if ls.len() > 0 {
        let before = ls.drop_last();
        let last = ls.len() - 1;
        assert(line_traffic(ls[last]) == Ok::<(nat, nat), MetricsError>((rx[last], tx[last])));
        assert forall|i: int| 0 <= i < before.len() implies line_traffic(#[trigger] before[i])
            == Ok::<(nat, nat), MetricsError>((rx.drop_last()[i], tx.drop_last()[i])) by {
            assert(before[i] == ls[i]);
        }
        lemma_traffic_adds_up(before, rx.drop_last(), tx.drop_last());
    }
}

/// The traffic of a machine is the sum of that of its interfaces, as far as 64 bits
/// go; the two headings of the report do not matter.
pub proof fn law_traffic_is_that_of_all_interfaces(
    first: Seq<char>,
    second: Seq<char>,
    ls: Seq<Seq<char>>,
    rx: Seq<nat>,
    tx: Seq<nat>,
)
    requires
        !first.contains('\n'),
        !second.contains('\n'),
        first.len() == 0 || first.last() != '\r',
        second.len() == 0 || second.last() != '\r',
        ls.len() == rx.len() == tx.len(),
        forall|i: int|
            0 <= i < ls.len() ==> !(#[trigger] ls[i]).contains('\n') && (ls[i].len() == 0
                || ls[i].last() != '\r') && line_traffic(ls[i]) == Ok::<(nat, nat), MetricsError>(
                (rx[i], tx[i]),
            ),
    ensures
        network_traffic(first.push('\n') + (second.push('\n') + with_line_feeds(ls))) == Ok::<
            (nat, nat),
            MetricsError,
        >(
            (
                if added_up(rx) <= u64::MAX {
                    added_up(rx)
                } else {
                    u64::MAX as nat
                },
                if added_up(tx) <= u64::MAX {
                    added_up(tx)
                } else {
                    u64::MAX as nat
                },
            ),
        ),
{
    reveal(Seq::fold_left);
    law_lines_read_back(ls);
    law_line_comes_first(second, with_line_feeds(ls));
    law_line_comes_first(first, second.push('\n') + with_line_feeds(ls));
    let all = seq![first] + (seq![second] + ls);
    assert(all.skip(2) =~= ls);
    lemma_traffic_adds_up(ls, rx, tx);
}

/// A counter that is no number makes the report unusable: the first line with one
/// decides what is told.
pub proof fn law_wrong_counter_is_told(
    first: Seq<char>,
    second: Seq<char>,
    ls: Seq<Seq<char>>,
    k: int,
    rx: Seq<nat>,
    tx: Seq<nat>,
)
    requires
        !first.contains('\n'),
        !second.contains('\n'),
        first.len() == 0 || first.last() != '\r',
        second.len() == 0 || second.last() != '\r',
        forall|i: int|
            0 <= i < ls.len() ==> !(#[trigger] ls[i]).contains('\n') && (ls[i].len() == 0
                || ls[i].last() != '\r'),
        0 <= k < ls.len(),
        rx.len() == tx.len() == k,
        forall|i: int|
            0 <= i < k ==> line_traffic(#[trigger] ls[i]) == Ok::<(nat, nat), MetricsError>(
                (rx[i], tx[i]),
            ),
        line_traffic(ls[k]) is Err,
    ensures
        network_traffic(first.push('\n') + (second.push('\n') + with_line_feeds(ls)))
            == line_traffic(ls[k]),
{
    law_lines_read_back(ls);
    law_line_comes_first(second, with_line_feeds(ls));
    law_line_comes_first(first, second.push('\n') + with_line_feeds(ls));
    let all = seq![first] + (seq![second] + ls);
    assert(all.skip(2) =~= ls);
    let before = ls.take(k);
    assert forall|i: int| 0 <= i < k implies line_traffic(#[trigger] before[i]) == Ok::<
        (nat, nat),
        MetricsError,
    >((rx[i], tx[i])) by {
        assert(before[i] == ls[i]);
    }
    lemma_traffic_adds_up(before, rx, tx);
    assert(ls.take(k + 1).drop_last() =~= before);
    assert(ls.take(k + 1).last() == ls[k]);
    lemma_traffic_error(ls, k + 1);
}

/// Whether a speed is what some bytes in some nanoseconds come to: rounded to whole
/// bytes per second, and off by nine parts in 2^53 at most.
pub open spec fn is_speed(speed: nat, bytes: nat, nanos: nat) -> bool {
    apart((speed * nanos) as int, (bytes * 1_000_000_000) as int) * 0x40_0000_0000_0000
        <= 0x20_0000_0000_0000 * nanos + 18 * (bytes * 1_000_000_000)
}

/// The speeds that are shown are those of the bytes since the earlier sample over
/// all of the time since then. Only a speed that is too large for 64 bits is cut
/// off. Counters that have gone back show no traffic.
pub proof fn law_speed_is_traffic_over_time(
    earlier: NetCounters,
    at: u64,
    current: NetCounters,
    now: u64,
)
    requires
        at < now,
    ensures
        exists|down: nat, up: nat|
            network_speeds(Some(earlier), Some(at), current, now) == (
                #[trigger] speed_text(down),
                #[trigger] speed_text(up),
            ) && is_speed_since(down, earlier.rx_bytes, current.rx_bytes, (now - at) as nat)
                && is_speed_since(up, earlier.tx_bytes, current.tx_bytes, (now - at) as nat),
{
    let nanos = (now - at) as nat;
    let rx = left_of(current.rx_bytes as nat, earlier.rx_bytes as nat);
    let tx = left_of(current.tx_bytes as nat, earlier.tx_bytes as nat);
    law_rate_times_duration_is_amount(rx, nanos);
    law_rate_times_duration_is_amount(tx, nanos);
    let down = rate(rx, nanos);
    let up = rate(tx, nanos);
    lemma_nothing_has_no_rate(nanos);
    assert(network_speeds(Some(earlier), Some(at), current, now) == (
        speed_text(down),
        speed_text(up),
    ));
    assert(is_speed_since(down, earlier.rx_bytes, current.rx_bytes, nanos));
    assert(is_speed_since(up, earlier.tx_bytes, current.tx_bytes, nanos));
}

proof fn lemma_nothing_has_no_rate(nanos: nat)
    requires
        nanos > 0,
    ensures
        rate(0, nanos) == 0,
{
    law_rate_times_duration_is_amount(0, nanos);
    let r = rate(0, nanos) as int;
    assert(r == 0) by (nonlinear_arith)
        requires
            apart(r * nanos, 0) * 0x40_0000_0000_0000 <= 0x20_0000_0000_0000 * nanos,
            nanos > 0,
            r >= 0,
    ;
}

/// Whether a speed is that of a counter that went from one number to another in
/// some nanoseconds.
pub open spec fn is_speed_since(speed: nat, earlier: u64, current: u64, nanos: nat) -> bool {
    if current <= earlier {
        speed == 0
    } else if speed < u64::MAX {
        is_speed(speed, (current - earlier) as nat, nanos)
    } else {
        speed == u64::MAX && 2 * ((current - earlier) * 1_000_000_000) >= 0xffff_ffff_ffff_fffe
            * nanos
    }
}

/// Bytes that come to a whole number per second over whole seconds are shown as that
/// speed, the received ones first.
pub proof fn law_speed_over_whole_seconds(
    earlier: NetCounters,
    at: u64,
    current: NetCounters,
    now: u64,
    secs: nat,
    down: nat,
    up: nat,
)
    requires
        secs > 0,
        now - at == secs * 1_000_000_000,
        current.rx_bytes - earlier.rx_bytes == down * secs < 0x20_0000_0000_0000,
        current.tx_bytes - earlier.tx_bytes == up * secs < 0x20_0000_0000_0000,
    ensures
        network_speeds(Some(earlier), Some(at), current, now) == (speed_text(down), speed_text(up)),
{
    law_rate_over_whole_seconds(down, secs);
    law_rate_over_whole_seconds(up, secs);
}

/// There is no speed without an earlier sample, and none if no time has passed.
pub proof fn law_no_speed_without_time(
    earlier: Option<NetCounters>,
    at: Option<u64>,
    current: NetCounters,
    now: u64,
)
    requires
        earlier is None || at is None || now <= at->0,
    ensures
        network_speeds(earlier, at, current, now) == ("0 B/s"@, "0 B/s"@),
{
}

/// The speeds after a sample are those since that sample, from its counters and its
/// time.
pub proof fn law_speed_is_since_the_last_sample(
    before: RemoteMonitor,
    between: RemoteMonitor,
    sample: RemoteHostSample,
    current: NetCounters,
    now: u64,
)
    requires
        between.follows_sample(before, sample),
    ensures
        between.previous_net_counters == Some(sample.net_counters),
        between.previous_sample_at == Some(sample.sampled_at),
        between.online,
        between.id == before.id,
        network_speeds(between.previous_net_counters, between.previous_sample_at, current, now)
            == network_speeds(Some(sample.net_counters), Some(sample.sampled_at), current, now),
{
}

/// A sample holds what each of the reports comes to, and the speeds since the
/// earlier one.
pub proof fn law_sample_holds_what_the_reports_come_to(
    sample: RemoteHostSample,
    reports: RemoteReports,
    previous: Option<NetCounters>,
    previous_at: Option<u64>,
    sampled_at: u64,
)
    requires
        is_sample(Ok(sample), reports, previous, previous_at, sampled_at),
    ensures
        cpu_usage(reports.cpu_before@, reports.cpu_after@) == Ok::<(nat, nat), MetricsError>(
            (sample.cpu_usage.busy as nat, sample.cpu_usage.total as nat),
        ),
        memory_usage(reports.memory@) == Ok::<Seq<char>, MetricsError>(sample.memory_usage@),
        network_traffic(reports.network@) == Ok::<(nat, nat), MetricsError>(
            (sample.net_counters.rx_bytes as nat, sample.net_counters.tx_bytes as nat),
        ),
        (sample.download_speed@, sample.upload_speed@) == network_speeds(
            previous,
            previous_at,
            sample.net_counters,
            sampled_at,
        ),
        sample.sampled_at == sampled_at,
{
}

/// There is a sample exactly if every report can be used; otherwise the error is
/// that of the load, of the memory or of the traffic, in this order.
pub proof fn law_first_unusable_report_is_told(
    res: Result<RemoteHostSample, MetricsError>,
    reports: RemoteReports,
    previous: Option<NetCounters>,
    previous_at: Option<u64>,
    sampled_at: u64,
)
    requires
        is_sample(res, reports, previous, previous_at, sampled_at),
    ensures
        res is Ok <==> cpu_usage(reports.cpu_before@, reports.cpu_after@) is Ok && memory_usage(
            reports.memory@,
        ) is Ok && network_traffic(reports.network@) is Ok,
        cpu_usage(reports.cpu_before@, reports.cpu_after@) matches Err(e) ==> res == Err::<
            RemoteHostSample,
            MetricsError,
        >(e),
        cpu_usage(reports.cpu_before@, reports.cpu_after@) is Ok ==> (memory_usage(
            reports.memory@,
        ) matches Err(e) ==> res == Err::<RemoteHostSample, MetricsError>(e)),
        cpu_usage(reports.cpu_before@, reports.cpu_after@) is Ok && memory_usage(
            reports.memory@,
        ) is Ok ==> (network_traffic(reports.network@) matches Err(e) ==> res == Err::<
            RemoteHostSample,
            MetricsError,
        >(e)),
{
}

/// A load can be computed if and only if both reports can be used; the error of the
/// earlier one counts first.
pub proof fn law_load_needs_both_reports(before: Seq<char>, after: Seq<char>)
    ensures
        cpu_usage(before, after) is Ok <==> cpu_totals(before) is Ok && cpu_totals(after) is Ok,
        cpu_totals(before) matches Err(e) ==> cpu_usage(before, after) == Err::<
            (nat, nat),
            MetricsError,
        >(e),
        cpu_totals(before) is Ok ==> (cpu_totals(after) matches Err(e) ==> cpu_usage(before, after)
            == Err::<(nat, nat), MetricsError>(e)),
{
}

/// A machine can be watched exactly if its address, the user and the password each
/// hold something other than white space.
pub proof fn law_configuration_is_complete_unless_blank(config: RemoteHostConfig)
    ensures
        complete(config) <==> {
            &&& exists|i: int|
                0 <= i < config.host@.len() && !is_whitespace(#[trigger] config.host@[i])
            &&& exists|i: int|
                0 <= i < config.username@.len() && !is_whitespace(#[trigger] config.username@[i])
            &&& exists|i: int|
                0 <= i < config.password@.len() && !is_whitespace(#[trigger] config.password@[i])
        },
{
    law_trimming_leaves_what_is_not_blank(config.host@);
    law_trimming_leaves_what_is_not_blank(config.username@);
    law_trimming_leaves_what_is_not_blank(config.password@);
}

/// The record of a sample shows all of it, and that the machine runs.
pub proof fn law_record_shows_the_sample(
    before: MonitorTarget,
    after: MonitorTarget,
    record: RemoteHostMonitorRecord,
    id: usize,
    sample: RemoteHostSample,
    cpu_usage_bits: u32,
)
    requires
        is_sample_record(record, id, sample, cpu_usage_bits),
        shows_record(before, after, record),
    ensures
        after.performance_records@.len() > 0,
        after.performance_records@[0] matches MonitorRecord::RemoteHost(shown) && {
            &&& shown.mt_id == id
            &&& shown.cpu_usage_bits == cpu_usage_bits
            &&& shown.memory_usage@ == sample.memory_usage@
            &&& shown.download_speed@ == sample.download_speed@
            &&& shown.upload_speed@ == sample.upload_speed@
            &&& shown.running
        },
        after.monitor_enabled == before.monitor_enabled,
        after.task_handle == before.task_handle,
        after.target_type_cfg == before.target_type_cfg,
        after.alias == before.alias,
        after.id == before.id,
{
}

/// The record of a failure shows that the machine does not run, and nothing else.
pub proof fn law_record_of_a_failure_shows_nothing(
    before: MonitorTarget,
    after: MonitorTarget,
    record: RemoteHostMonitorRecord,
    id: usize,
)
    requires
        is_offline_record(record, id),
        shows_record(before, after, record),
    ensures
        after.performance_records@.len() > 0,
        after.performance_records@[0] matches MonitorRecord::RemoteHost(shown) && {
            &&& shown.mt_id == id
            &&& shown.cpu_usage_bits == 0
            &&& shown.memory_usage@ == "0.0 GB"@
            &&& shown.download_speed@ == "0 B/s"@
            &&& shown.upload_speed@ == "0 B/s"@
            &&& !shown.running
        },
        after.monitor_enabled == before.monitor_enabled,
        after.task_handle == before.task_handle,
        after.target_type_cfg == before.target_type_cfg,
        after.alias == before.alias,
        after.id == before.id,
{
}

/// A failure is reported exactly if the machine was online or none was reported
/// since, and the machine is offline after it, without an earlier sample.
pub proof fn law_failure_takes_the_machine_offline(
    before: RemoteMonitor,
    after: RemoteMonitor,
    message: Seq<char>,
)
    requires
        after.follows_failure(before, message),
    ensures
        before.reports_failure() <==> before.online || before.last_error_message@.len() == 0,
        !after.online,
        after.id == before.id,
        after.previous_net_counters is None,
        after.previous_sample_at is None,
        before.online || before.last_error_message@.len() == 0 ==> after.last_error_message@
            == message,
        !before.online && before.last_error_message@.len() > 0 ==> after.last_error_message@
            == before.last_error_message@,
{
}

/// A command that did not succeed is told with its exit status.
pub proof fn law_exit_status_is_told(code: i32)
    ensures
        MetricsError::ExitStatus(code).text() == "远程命令退出码异常: "@ + signed_decimal(
            code as int,
        ),
        signed_read(signed_decimal(code as int)) == Ok::<int, IntError>(code as int),
{
    law_signed_decimal_reads_back(code as i64);
}

/// A load can be computed from times that grow and whose sum has 64 bits.
pub proof fn law_growing_times_can_be_used(
    before: Seq<nat>,
    after: Seq<nat>,
    rest_before: Seq<char>,
    rest_after: Seq<char>,
)
    requires
        all_fit(before),
        all_fit(after),
        5 <= before.len() == after.len(),
        forall|i: int| 0 <= i < before.len() ==> #[trigger] before[i] <= after[i],
        added_up(after) <= u64::MAX,
    ensures
        usage_fits(
            cpu_line(before).push('\n') + rest_before,
            cpu_line(after).push('\n') + rest_after,
        ),
{
    law_cpu_times_read_back(before, rest_before);
    law_cpu_times_read_back(after, rest_after);
    lemma_growth_adds_up(before, after);
    let grown = growth(before, after);
    assert(before[3] <= after[3] && before[4] <= after[4]);
    lemma_sum_is_added_up(grown);
    lemma_sum_bounds(grown, 3, 4);
}

/// The output of a command counts exactly if it exits with zero, and then as it is
/// but for the white space around it; otherwise its exit status is told.
pub proof fn law_output_counts_if_the_command_succeeds(
    res: Result<String, MetricsError>,
    exit_status: i32,
    before: Seq<char>,
    text: Seq<char>,
    after: Seq<char>,
)
    requires
        is_output(res, exit_status, before + text + after),
        forall|i: int| 0 <= i < before.len() ==> is_whitespace(#[trigger] before[i]),
        forall|i: int| 0 <= i < after.len() ==> is_whitespace(#[trigger] after[i]),
        text.len() > 0 ==> !is_whitespace(text[0]) && !is_whitespace(text.last()),
    ensures
        exit_status == 0 ==> (res matches Ok(shown) && shown@ == text),
        exit_status != 0 ==> res == Err::<String, MetricsError>(
            MetricsError::ExitStatus(exit_status),
        ),
{
    law_trimming_leaves_the_text(before, text, after);
}

/// Connecting and each exchange may take three seconds; samples are five seconds
/// apart, and the two readings of a load a quarter of a second.
pub proof fn law_pauses_between_samples()
    ensures
        SSH_CONNECT_TIMEOUT_SECS == 3,
        SSH_IO_TIMEOUT_MS == 3000,
        SAMPLE_INTERVAL_SECS == 5,
        CPU_SAMPLE_DELAY_MS == 250,
{
}

/// The total and the idle time of some processor times.
pub open spec fn spent(times: Seq<nat>) -> (int, int) {
    (added_up(times) as int, (times[3] + times[4]) as int)
}

/// Whatever the times of two reports are, the total is how much more time the later
/// one has, and the busy part is that without how much more idle time it has; neither
/// is ever below zero, and there is no load where no time has passed.
pub proof fn law_load_of_any_times(
    before: Seq<nat>,
    after: Seq<nat>,
    rest_before: Seq<char>,
    rest_after: Seq<char>,
)
    requires
        all_fit(before),
        all_fit(after),
        5 <= before.len(),
        5 <= after.len(),
    ensures
        cpu_usage(
            cpu_line(before).push('\n') + rest_before,
            cpu_line(after).push('\n') + rest_after,
        ) matches Ok((busy, total)) && {
            let passed = spent(after).0 - spent(before).0;
            let idle = spent(after).1 - spent(before).1;
            &&& passed <= 0 ==> busy == 0 && total == 0
            &&& passed > 0 ==> total == passed
            &&& passed > 0 && idle <= 0 ==> busy == passed
            &&& passed > 0 && 0 < idle <= passed ==> busy == passed - idle
            &&& passed > 0 && idle > passed ==> busy == 0
        },
{
    law_cpu_times_read_back(before, rest_before);
    law_cpu_times_read_back(after, rest_after);
}

proof fn lemma_words_of_spaced_before(values: Seq<nat>, tail: Seq<char>)
    requires
        tail.len() > 0 ==> is_whitespace(tail[0]),
    ensures
        words(spaced(values) + tail) == values.map_values(|v: nat| decimal(v)) + words(tail),
    decreases values.len(),
{
    let texts = values.map_values(|v: nat| decimal(v));
    if values.len() > 0 {
        let rest = values.skip(1);
        lemma_words_of_spaced_before(rest, tail);
        lemma_words_of_spaced(rest);
        lemma_decimal_is_a_word(values[0]);
        let word = decimal(values[0]);
        law_word_comes_first(seq![' '], word, spaced(rest) + tail);
        assert(spaced(values) + tail =~= seq![' '] + word + (spaced(rest) + tail));
        assert(texts =~= seq![word] + rest.map_values(|v: nat| decimal(v)));
        assert(seq![word] + (rest.map_values(|v: nat| decimal(v)) + words(tail)) =~= texts + words(
            tail,
        ));
    } else {
        assert(spaced(values) + tail =~= tail);
        assert(texts + words(tail) =~= words(tail));
    }
}

proof fn lemma_wrong_number(values: Seq<nat>, word: Seq<char>, tail: Seq<char>, e: IntError)
    requires
        all_fit(values),
        word.len() > 0,
        forall|i: int| 0 <= i < word.len() ==> !is_whitespace(#[trigger] word[i]),
        tail.len() > 0 ==> is_whitespace(tail[0]),
        unsigned_read(word, u64::MAX as nat) == Err::<nat, IntError>(e),
    ensures
        numbers(words(spaced(values) + (seq![' '] + word + tail))) == Err::<Seq<nat>, IntError>(e),
{
    let end = seq![' '] + word + tail;
    let texts = values.map_values(|v: nat| decimal(v));
    lemma_words_of_spaced_before(values, end);
    law_word_comes_first(seq![' '], word, tail);
    let ws = texts + (seq![word] + words(tail));
    let k = values.len() as int;
    lemma_numbers_read(texts, values);
    assert(ws.take(k + 1).drop_last() =~= texts);
    assert(ws.take(k + 1).last() == word);
    lemma_numbers_error(ws, k + 1);
}

/// A processor time that is no number is told: the first one decides, whatever
/// follows it.
pub proof fn law_wrong_cpu_time_is_told(
    times: Seq<nat>,
    word: Seq<char>,
    tail: Seq<char>,
    rest: Seq<char>,
    e: IntError,
)
    requires
        all_fit(times),
        word.len() > 0,
        forall|i: int| 0 <= i < word.len() ==> !is_whitespace(#[trigger] word[i]),
        tail.len() > 0 ==> is_whitespace(tail[0]),
        !tail.contains('\n'),
        tail.len() > 0 ==> tail.last() != '\r',
        unsigned_read(word, u64::MAX as nat) == Err::<nat, IntError>(e),
    ensures
        cpu_totals((cpu_line(times) + (seq![' '] + word + tail)).push('\n') + rest) == Err::<
            (nat, nat),
            MetricsError,
        >(MetricsError::CpuValue(e)),
{
    reveal_strlit("cpu ");
    let end = seq![' '] + word + tail;
    let body = spaced(times) + end;
    let line = cpu_line(times) + end;
    lemma_words_of_spaced(times);
    assert(line =~= "cpu "@ + body);
    law_prefix_comes_first(line, "cpu "@, body);
    let cpu = seq!['c', 'p', 'u'];
    let blank = seq![' '];
    assert forall|i: int| 0 <= i < cpu.len() implies !is_whitespace(#[trigger] cpu[i]) by {}
    assert("cpu "@ =~= cpu + blank);
    assert(line =~= Seq::<char>::empty() + cpu + (blank + body));
    law_word_comes_first(Seq::empty(), cpu, blank + body);
    assert((blank + body).skip(1) =~= body);
    assert(words(blank + body) == words(body));
    assert((seq![cpu] + words(body)).skip(1) =~= words(body));
    lemma_wrong_number(times, word, tail, e);
    assert forall|i: int| 0 <= i < line.len() implies line[i] != '\n' by {
        let n = 4 + spaced(times).len();
        if i < 4 {
        } else if i < n {
            assert(line[i] == spaced(times)[i - 4]);
        } else if i == n {
        } else if i - n - 1 < word.len() {
            assert(line[i] == word[i - n - 1]);
            assert(!is_whitespace(word[i - n - 1]));
        } else {
            assert(line[i] == tail[i - n - 1 - word.len()]);
            assert(tail.contains(tail[i - n - 1 - word.len()]));
        }
    }
    assert(line.last() != '\r') by {
        if tail.len() > 0 {
            assert(line.last() == tail.last());
        } else {
            assert(line.last() == word.last());
            assert(!is_whitespace(word[word.len() - 1]));
        }
    }
    law_line_comes_first(line, rest);
    assert((seq![line] + lines(rest))[0] == line);
}

/// A counter of an interface that is no number is told, the first one first; one of
/// an interface that does not count does not matter.
pub proof fn law_wrong_counter_of_an_interface(
    blank: Seq<char>,
    name: Seq<char>,
    counters: Seq<nat>,
    word: Seq<char>,
    tail: Seq<char>,
    e: IntError,
)
    requires
        forall|i: int| 0 <= i < blank.len() ==> is_whitespace(#[trigger] blank[i]),
        !blank.contains(':'),
        !name.contains(':'),
        name.len() > 0 ==> !is_whitespace(name[0]) && !is_whitespace(name.last()),
        all_fit(counters),
        word.len() > 0,
        forall|i: int| 0 <= i < word.len() ==> !is_whitespace(#[trigger] word[i]),
        tail.len() > 0 ==> is_whitespace(tail[0]),
        unsigned_read(word, u64::MAX as nat) == Err::<nat, IntError>(e),
    ensures
        line_traffic(interface_line(blank, name, counters) + (seq![' '] + word + tail)) == (
        if ignored_interface(name) {
            Ok::<(nat, nat), MetricsError>((0, 0))
        } else {
            Err(MetricsError::NetValue(e))
        }),
{
    let end = seq![' '] + word + tail;
    let line = interface_line(blank, name, counters) + end;
    reveal_strlit(":");
    let k = (blank.len() + name.len()) as int;
    lemma_until_char_bounds(line, ':');
    assert(line[k] == ':');
    assert forall|i: int| 0 <= i < k implies line[i] != ':' by {
        if i < blank.len() {
            assert(line[i] == blank[i]);
        } else {
            assert(line[i] == name[i - blank.len()]);
        }
    }
    assert(until_char(line, ':') == k) by {
        let n = until_char(line, ':') as int;
        if n < k {
            assert(line[n] == ':');
        }
    }
    assert(line.take(k) =~= blank + name + Seq::<char>::empty());
    law_trimming_leaves_the_text(blank, name, Seq::empty());
    assert(line.skip(k + 1) =~= spaced(counters) + end);
    lemma_wrong_number(counters, word, tail, e);
}

/// A memory line without an amount, or with one that is no number, is told as such.
pub proof fn law_wrong_memory_line_is_told(
    label: Seq<char>,
    blank: Seq<char>,
    word: Seq<char>,
    tail: Seq<char>,
    e: IntError,
)
    requires
        label.len() > 0,
        forall|i: int| 0 <= i < label.len() ==> !is_whitespace(#[trigger] label[i]),
        blank.len() > 0,
        forall|i: int| 0 <= i < blank.len() ==> is_whitespace(#[trigger] blank[i]),
        word.len() > 0,
        forall|i: int| 0 <= i < word.len() ==> !is_whitespace(#[trigger] word[i]),
        tail.len() > 0 ==> is_whitespace(tail[0]),
        unsigned_read(word, u64::MAX as nat) == Err::<nat, IntError>(e),
    ensures
        meminfo_kb(label) == Err::<nat, MetricsError>(MetricsError::MemFieldMissing),
        meminfo_kb(label + blank) == Err::<nat, MetricsError>(MetricsError::MemFieldMissing),
        meminfo_kb(label + (blank + word + tail)) == Err::<nat, MetricsError>(
            MetricsError::MemValue(e),
        ),
{
    let none = Seq::<char>::empty();
    assert(is_whitespace(blank[0]));
    law_word_comes_first(none, label, none);
    law_word_comes_first(none, label, blank);
    law_word_comes_first(none, label, blank + word + tail);
    law_word_comes_first(blank, word, tail);
    law_blank_has_no_words(none);
    law_blank_has_no_words(blank);
    assert(none + label + none =~= label);
    assert(none + label + blank =~= label + blank);
    assert(none + label + (blank + word + tail) =~= label + (blank + word + tail));
    assert((seq![label] + (seq![word] + words(tail)))[1] == word);
}

/// The first memory line that cannot be read makes the report unusable, and is told.
pub proof fn law_first_wrong_memory_line_is_told(contents: Seq<char>, k: int, e: MetricsError)
    requires
        0 <= k < lines(contents).len(),
        is_memory_line(lines(contents)[k]),
        meminfo_kb(lines(contents)[k]) == Err::<nat, MetricsError>(e),
        forall|i: int|
            0 <= i < k && is_memory_line(#[trigger] lines(contents)[i]) ==> meminfo_kb(
                lines(contents)[i],
            ) is Ok,
    ensures
        memory_usage(contents) == Err::<Seq<char>, MetricsError>(e),
{
    let ls = lines(contents);
    lemma_readable_amounts(ls.take(k));
    assert(ls.take(k + 1).drop_last() =~= ls.take(k));
    assert(ls.take(k + 1).last() == ls[k]);
    lemma_prefix(ls[k], "MemTotal:"@);
    lemma_prefix(ls[k], "MemAvailable:"@);
    lemma_memory_error(ls, k + 1);
}

proof fn lemma_readable_amounts(ls: Seq<Seq<char>>)
    requires
        forall|i: int|
            0 <= i < ls.len() && is_memory_line(#[trigger] ls[i]) ==> meminfo_kb(ls[i]) is Ok,
    ensures
        memory_amounts(ls) is Ok,
    decreases ls.len(),
{
    if ls.len() > 0 {
        let before = ls.drop_last();
        let last = ls.len() - 1;
        assert(is_memory_line(ls[last]) ==> meminfo_kb(ls[last]) is Ok);
        assert forall|i: int|
            0 <= i < before.len() && is_memory_line(#[trigger] before[i]) implies meminfo_kb(
            before[i],
        ) is Ok by {
            assert(before[i] == ls[i]);
        }
        lemma_readable_amounts(before);
        lemma_prefix(ls[last], "MemTotal:"@);
        lemma_prefix(ls[last], "MemAvailable:"@);
    }
}

/// Of several lines about the same the last one counts: lines before those of the
/// memory in all and the available memory make no difference if they can be read.
pub proof fn law_last_memory_lines_count(
    contents: Seq<char>,
    earlier: Seq<Seq<char>>,
    total: Seq<char>,
    available: Seq<char>,
    total_kb: nat,
    available_kb: nat,
)
    requires
        forall|i: int| 0 <= i < earlier.len() ==> meminfo_kb(#[trigger] earlier[i]) is Ok,
        "MemTotal:"@.is_prefix_of(total),
        "MemAvailable:"@.is_prefix_of(available),
        meminfo_kb(total) == Ok::<nat, MetricsError>(total_kb),
        meminfo_kb(available) == Ok::<nat, MetricsError>(available_kb),
        lines(contents).filter(|line: Seq<char>| is_memory_line(line)) == earlier + seq![
            total,
            available,
        ],
    ensures
        memory_usage(contents) matches Ok(text) && tells_memory(
            text,
            if available_kb <= total_kb {
                (total_kb - available_kb) as nat
            } else {
                0
            },
        ),
{
    lemma_memory_of_filtered(lines(contents));
    lemma_readable_amounts(earlier);
    lemma_prefix(total, "MemTotal:"@);
    lemma_prefix(available, "MemAvailable:"@);
    lemma_prefix(available, "MemTotal:"@);
    reveal_strlit("MemTotal:");
    reveal_strlit("MemAvailable:");
    if has_prefix(available, "MemTotal:"@) {
        assert(available.take("MemTotal:"@.len() as int)[3] == available[3]);
        assert(available.take("MemAvailable:"@.len() as int)[3] == available[3]);
        assert("MemTotal:"@[3] == 'T' && "MemAvailable:"@[3] == 'A');
    }
    let all = earlier + seq![total, available];
    assert(all.drop_last() =~= earlier.push(total));
    assert(earlier.push(total).drop_last() =~= earlier);
    assert(earlier.push(total).last() == total);
    assert(all.last() == available);
    assert(memory_amounts(earlier.push(total)) matches Ok(found) && found.0 == Some(total_kb));
    assert(memory_amounts(all) == Ok::<(Option<nat>, Option<nat>), MetricsError>(
        (Some(total_kb), Some(available_kb)),
    ));
    lemma_used_memory(left_of(total_kb, available_kb));
}

/// The latest record of a target once its machine was sampled shows the sample, at
/// the time that was given.
pub proof fn law_sample_is_shown(
    before: MonitorTarget,
    after: MonitorTarget,
    id: usize,
    sample: RemoteHostSample,
    cpu_usage_bits: u32,
    timestamp: String,
)
    requires
        shows_sample(before, after, id, sample, cpu_usage_bits, timestamp),
    ensures
        after.performance_records@.len() > 0,
        after.performance_records@[0] matches MonitorRecord::RemoteHost(shown) && {
            &&& shown.mt_id == id
            &&& shown.cpu_usage_bits == cpu_usage_bits
            &&& shown.memory_usage@ == sample.memory_usage@
            &&& shown.download_speed@ == sample.download_speed@
            &&& shown.upload_speed@ == sample.upload_speed@
            &&& shown.timestamp@ == timestamp@
            &&& shown.running
        },
        after == (MonitorTarget { performance_records: after.performance_records, ..before }),
{
}

/// A machine with a complete configuration is watched, from nothing; one with an
/// incomplete one is switched off and the user is told. Either way nothing is shown
/// of it yet.
pub proof fn law_incomplete_configuration_is_switched_off(
    before: MonitorTarget,
    after: MonitorTarget,
    id: usize,
    config: RemoteHostConfig,
    timestamp: String,
    res: Result<RemoteMonitor, StatusSignal>,
)
    requires
        begins(before, after, id, config, timestamp, res),
    ensures
        res is Ok <==> complete(config),
        res matches Ok(monitor) ==> monitor.id == id && !monitor.online
            && monitor.previous_net_counters is None && monitor.previous_sample_at is None
            && monitor.last_error_message@ == Seq::<char>::empty() && after.monitor_enabled
            == before.monitor_enabled,
        res matches Err(status) ==> !after.monitor_enabled && status.mt_id == id
            && status.signal@ == "error"@ && status.target_type@ == "RemoteHost"@,
        after.performance_records@.len() > 0,
        after.performance_records@[0] matches MonitorRecord::RemoteHost(shown) && !shown.running
            && shown.cpu_usage_bits == 0 && shown.mt_id == id && shown.timestamp@ == timestamp@,
        after.task_handle == before.task_handle,
        after.target_type_cfg == before.target_type_cfg,
{
}

/// Processor times can be read whenever their sum has 64 bits.
pub proof fn law_totals_fit_if_their_sum_does(times: Seq<nat>, rest: Seq<char>)
    requires
        all_fit(times),
        times.len() >= 5,
    ensures
        totals_fit(cpu_line(times).push('\n') + rest) <==> added_up(times) <= u64::MAX,
{
    law_cpu_times_read_back(times, rest);
}

/// The load that is given is the one of the two reports, busy and total, and so is
/// the error.
pub proof fn law_usage_is_that_of_the_reports(
    res: Result<CpuUsage, MetricsError>,
    before: Seq<char>,
    after: Seq<char>,
)
    requires
        is_usage(res, before, after),
    ensures
        res matches Ok(usage) ==> cpu_usage(before, after) == Ok::<(nat, nat), MetricsError>(
            (usage.busy as nat, usage.total as nat),
        ),
        res matches Err(e) ==> cpu_usage(before, after) == Err::<(nat, nat), MetricsError>(e),
{
}

/// What is wrong with a report is told in words, and what is wrong with a number of
/// it after that.
pub proof fn law_errors_are_told_in_words(e: IntError)
    ensures
        MetricsError::CpuLineMissing.text() == "未找到 /proc/stat 的 cpu 行"@,
        MetricsError::CpuFieldsMissing.text() == "CPU 统计字段数量不足"@,
        MetricsError::MemTotalMissing.text() == "未找到 MemTotal"@,
        MetricsError::MemAvailableMissing.text() == "未找到 MemAvailable"@,
        MetricsError::MemFieldMissing.text() == "内存信息字段缺失"@,
        ({
            let cause = match e {
                IntError::Empty => "cannot parse integer from empty string"@,
                IntError::InvalidDigit => "invalid digit found in string"@,
                IntError::PosOverflow => "number too large to fit in target type"@,
                IntError::NegOverflow => "number too small to fit in target type"@,
            };
            &&& MetricsError::CpuValue(e).text() == "解析 CPU 统计值失败: "@ + cause
            &&& MetricsError::MemValue(e).text() == "解析内存信息失败: "@ + cause
            &&& MetricsError::NetValue(e).text() == "解析网卡统计失败: "@ + cause
        }),
{
}

} // verus!
