//! What the user interface may ask for.

use crate::local_host_monitor::{format_memory, memory_text};
use crate::logging::LogEntry;
use crate::monitor::{LocalProcessConfig, MonitorShowInfo, MonitorTarget, MonitorTargetType};
use crate::monitor_manager::MonitorManager;
use crate::number::{decimal, law_decimal_reads_back, u64_text, unsigned_read, IntError};
use crate::text::{
    chars_of, find_char, has_prefix, lemma_until_char_bounds, slice_of, starts_with, string_of,
    until_char,
};
use vstd::prelude::*;
use vstd::string::StringExecFns;
use vstd::utf8::{char_is_scalar, encode_scalar, encode_utf8};

verus! {

/// A target as the user interface edits it.
#[derive(Debug)]
pub struct MonitorTargetDto {
    pub id: Option<usize>,
    pub target_type: MonitorTargetType,
    pub alias: String,
}

/// Why a request failed, in words.
#[derive(Debug)]
pub struct CommandError(pub String);

/// The machine that the application runs on.
#[derive(Debug)]
pub struct SystemInfo {
    pub hostname: String,
    pub os_name: String,
    pub start_time: String,
    pub cpu_core_count: usize,
    pub physical_core: usize,
    pub total_memory: String,
}

/// A text, or `Unknown` if there is none.
fn or_unknown(text: Option<String>) -> (res: String)
    ensures
        match text {
            Some(t) => res == t,
            None => res@ == "Unknown"@,
        },
{
    match text {
        Some(t) => t,
        None => "Unknown".to_string(),
    }
}

/// Whether `info` is what could be told of the machine that the application runs on.
pub open spec fn is_system_info(
    info: SystemInfo,
    hostname: Option<String>,
    edition: Option<String>,
    boot_time: u64,
    cpu_core_count: usize,
    physical_core: Option<usize>,
    total_memory: u64,
) -> bool {
    &&& match hostname {
        Some(name) => info.hostname == name,
        None => info.hostname@ == "Unknown"@,
    }
    &&& match edition {
        Some(name) => info.os_name == name,
        None => info.os_name@ == "Unknown"@,
    }
    &&& info.start_time@ == decimal(boot_time as nat)
    &&& info.cpu_core_count == cpu_core_count
    &&& info.physical_core == match physical_core {
        Some(n) => n,
        None => 0,
    }
    &&& info.total_memory@ == memory_text(total_memory as nat)
}

/// The machine that the application runs on, as far as it can be told.
pub fn get_system_info(
    hostname: Option<String>,
    edition: Option<String>,
    boot_time: u64,
    cpu_core_count: usize,
    physical_core: Option<usize>,
    total_memory: u64,
) -> (res: SystemInfo)
    ensures
        is_system_info(
            res,
            hostname,
            edition,
            boot_time,
            cpu_core_count,
            physical_core,
            total_memory,
        ),
{
    SystemInfo {
        hostname: or_unknown(hostname),
        os_name: or_unknown(edition),
        start_time: u64_text(boot_time),
        cpu_core_count,
        physical_core: match physical_core {
            Some(n) => n,
            None => 0,
        },
        total_memory: format_memory(total_memory),
    }
}

/// The targets that the user has set up: all but the local machine.
pub open spec fn user_targets(infos: Seq<MonitorShowInfo>) -> Seq<MonitorShowInfo>
    decreases infos.len(),
{
    if infos.len() == 0 {
        Seq::empty()
    } else if infos.last().target_type@ == "LocalHost"@ {
        user_targets(infos.drop_last())
    } else {
        user_targets(infos.drop_last()).push(infos.last())
    }
}

/// The targets that the user has set up.
pub fn refresh_monitor_targets(targets: &Vec<MonitorShowInfo>) -> (res: Vec<MonitorShowInfo>)
    ensures
        res@ == user_targets(targets@),
{
    let local = "LocalHost".to_string();
    let mut out: Vec<MonitorShowInfo> = Vec::new();
    let mut i: usize = 0;
    while i < targets.len()
        invariant
            i <= targets.len(),
            local@ == "LocalHost"@,
            out@ == user_targets(targets@.take(i as int)),
        decreases targets.len() - i,
    {
        assert(targets@.take(i + 1).drop_last() =~= targets@.take(i as int));
        if !(targets[i].target_type == local) {
            out.push(targets[i].clone());
        }
        i += 1;
    }
    assert(targets@.take(i as int) =~= targets@);
    out
}

/// Whether a target is the one that a form describes, with nothing running yet.
pub open spec fn is_new_target(target: MonitorTarget, id: usize, form: MonitorTargetDto) -> bool {
    &&& target.id == id
    &&& target.target_type_cfg == form.target_type
    &&& target.alias == form.alias
    &&& !target.monitor_enabled
    &&& target.task_handle is None
    &&& target.performance_records@.len() == 0
    &&& target.control_signal@.len() == 0
    &&& target.console_outputs@.len() == 0
}

/// Adds a target that was stored under a number. It is not switched on.
pub fn add_monitor_target(
    manager: &mut MonitorManager,
    id: usize,
    new_target_form: MonitorTargetDto,
)
    ensures
        final(manager)@.contains_key(id),
        final(manager)@ == old(manager)@.insert(id, final(manager)@[id]),
        is_new_target(final(manager)@[id], id, new_target_form),
{
    if let Ok(target) = MonitorTarget::new(
        id,
        new_target_form.target_type,
        new_target_form.alias,
        false,
    ) {
        manager.add_monitor(id, target);
    }
}

/// That there is no such target, in words.
pub open spec fn missing_target(id: usize) -> Seq<char> {
    "监控目标 "@ + decimal(id as nat) + " 不存在"@
}

/// The configuration of a target.
pub fn get_monitor_full_config(manager: &MonitorManager, id: usize) -> (res: Result<
    MonitorTargetDto,
    CommandError,
>)
    ensures
        match res {
            Ok(dto) => {
                &&& manager@.contains_key(id)
                &&& dto.id == Some(manager@[id].id)
                &&& dto.target_type == manager@[id].target_type_cfg
                &&& dto.alias == manager@[id].alias
            },
            Err(e) => !manager@.contains_key(id) && e.0@ == missing_target(id),
        },
{
    match manager.get_monitor_config_by_id(id) {
        Some(dto) => Ok(dto),
        None => {
            let mut out = "监控目标 ".to_string();
            out.append(u64_text(id as u64).as_str());
            out.append(" 不存在");
            Err(CommandError(out))
        },
    }
}

/// A target, and the program file to point out in its folder.
#[derive(Debug)]
pub struct FolderRequest {
    pub target: MonitorTargetDto,
    pub program: Option<String>,
}

/// Whether a request is about a target, and points out its program file if it is a
/// program.
pub open spec fn points_out(request: FolderRequest, target: MonitorTarget) -> bool {
    &&& request.target.id == Some(target.id)
    &&& request.target.target_type == target.target_type_cfg
    &&& request.target.alias == target.alias
    &&& request.program == match target.target_type_cfg {
        MonitorTargetType::LocalProcess(config) => Some(config.path),
        _ => None,
    }
}

/// The program file to point out for a target; only a program has one.
pub fn open_app_folder(manager: &MonitorManager, id: usize) -> (res: Result<
    FolderRequest,
    CommandError,
>)
    ensures
        match res {
            Ok(request) => manager@.contains_key(id) && points_out(request, manager@[id]),
            Err(e) => !manager@.contains_key(id) && e.0@ == missing_target(id),
        },
{
    match get_monitor_full_config(manager, id) {
        Ok(target) => {
            let program = match &target.target_type {
                MonitorTargetType::LocalProcess(config) => Some(config.path.clone()),
                _ => None,
            };
            Ok(FolderRequest { target, program })
        },
        Err(e) => Err(e),
    }
}

/// The query for the latest entries of the log: with `info`, without those for
/// debugging.
pub open spec fn log_query_text(filter_type: Seq<char>) -> Seq<char> {
    "SELECT log_time, log_level, log_message FROM SystemLog"@ + (if filter_type == "info"@ {
        " WHERE log_level != 'DEBUG'"@
    } else {
        Seq::empty()
    }) + " ORDER BY id DESC LIMIT 1000"@
}

/// The query for the latest entries of the log: with `info`, without those for
/// debugging.
pub fn log_query(filter_type: &str) -> (res: String)
    ensures
        res@ == log_query_text(filter_type@),
{
    let mut sql = "SELECT log_time, log_level, log_message FROM SystemLog".to_string();
    if filter_type.to_string() == "info".to_string() {
        sql.append(" WHERE log_level != 'DEBUG'");
    } else {
        assert(sql@ =~= sql@ + Seq::empty());
    }
    sql.append(" ORDER BY id DESC LIMIT 1000");
    sql
}

/// The number of bytes that a character takes in UTF-8.
pub open spec fn utf8_width(c: char) -> nat {
    if c <= '\u{7F}' {
        1
    } else if c <= '\u{7FF}' {
        2
    } else if c <= '\u{FFFF}' {
        3
    } else {
        4
    }
}

/// The number of bytes that a text takes in UTF-8.
pub open spec fn utf8_len(s: Seq<char>) -> nat
    decreases s.len(),
{
    if s.len() == 0 {
        0
    } else {
        utf8_width(s[0]) + utf8_len(s.skip(1))
    }
}

/// The text from byte `k` on; nothing if a character does not end there.
pub open spec fn from_byte(s: Seq<char>, k: nat) -> Option<Seq<char>>
    decreases s.len(),
{
    if k == 0 {
        Some(s)
    } else if s.len() == 0 || k < utf8_width(s[0]) {
        None
    } else {
        from_byte(s.skip(1), (k - utf8_width(s[0])) as nat)
    }
}

/// A time of the log as it is shown: without the fraction of a second, and
/// without the date if it is that of today, else without the year. Nothing if it
/// cannot be cut there.
pub open spec fn shown_time(time: Seq<char>, today: Seq<char>) -> Option<Seq<char>> {
    let whole = time.take(until_char(time, '.') as int);
    if utf8_len(whole) > 10 && has_prefix(whole, today) {
        from_byte(whole, 10)
    } else if utf8_len(whole) > 5 {
        from_byte(whole, 5)
    } else {
        Some(whole)
    }
}

/// The number of bytes that a character takes in UTF-8.
fn width(c: char) -> (res: usize)
    ensures
        res == utf8_width(c),
        1 <= res <= 4,
{
    if c <= '\u{7F}' {
        1
    } else if c <= '\u{7FF}' {
        2
    } else if c <= '\u{FFFF}' {
        3
    } else {
        4
    }
}

/// Whether a text takes more than `k` bytes in UTF-8.
fn is_longer(s: &Vec<char>, k: usize) -> (res: bool)
    requires
        k <= 100,
    ensures
        res == (utf8_len(s@) > k),
{
    let mut n: usize = 0;
    let mut i: usize = 0;
    assert(s@.skip(0) =~= s@);
    while i < s.len() && n <= k
        invariant
            i <= s.len(),
            k <= 100,
            n <= k + 4,
            n + utf8_len(s@.skip(i as int)) == utf8_len(s@),
        decreases s.len() - i,
    {
        assert(s@.skip(i as int).skip(1) =~= s@.skip(i + 1));
        n = n + width(s[i]);
        i += 1;
    }
    n > k
}

/// The text from byte `k` on; nothing if a character does not end there.
fn cut_at_byte(s: &Vec<char>, k: usize) -> (res: Option<Vec<char>>)
    ensures
        match res {
            Some(text) => from_byte(s@, k as nat) == Some(text@),
            None => from_byte(s@, k as nat) is None,
        },
{
    let mut left: usize = k;
    let mut i: usize = 0;
    assert(s@.skip(0) =~= s@);
    while left > 0
        invariant
            i <= s.len(),
            left <= k,
            from_byte(s@, k as nat) == from_byte(s@.skip(i as int), left as nat),
        decreases left,
    {
        if i == s.len() || left < width(s[i]) {
            return None;
        }
        assert(s@.skip(i as int).skip(1) =~= s@.skip(i + 1));
        left = left - width(s[i]);
        i += 1;
    }
    let text = slice_of(s, i, s.len());
    assert(text@ =~= s@.skip(i as int));
    Some(text)
}

/// A time of the log as it is shown. Nothing if it cannot be cut where it has to
/// be.
pub fn try_log_time(time: &str, today: &str) -> (res: Option<String>)
    ensures
        match res {
            Some(text) => shown_time(time@, today@) == Some(text@),
            None => shown_time(time@, today@) is None,
        },
{
    let chars = chars_of(time);
    assert(chars@.skip(0) =~= chars@);
    let dot = find_char(&chars, '.', 0);
    let whole = slice_of(&chars, 0, dot);
    assert(whole@ =~= time@.take(until_char(time@, '.') as int));
    let cut = if is_longer(&whole, 10) && starts_with(&whole, &chars_of(today)) {
        cut_at_byte(&whole, 10)
    } else if is_longer(&whole, 5) {
        cut_at_byte(&whole, 5)
    } else {
        Some(whole)
    };
    match cut {
        Some(text) => Some(string_of(&text)),
        None => None,
    }
}

/// An entry of the log as it is stored.
#[derive(Debug)]
pub struct LogRow {
    pub time: String,
    pub level: String,
    pub message: String,
}

impl LogRow {
    /// Whether `entry` is how this one is shown.
    pub open spec fn shown_as(self, entry: LogEntry, today: Seq<char>) -> bool {
        &&& shown_time(self.time@, today) == Some(entry.time@)
        &&& entry.level == self.level
        &&& entry.message == self.message
    }
}

/// Whether the first `n` rows could be read.
pub open spec fn all_read(rows: Seq<Result<LogRow, String>>, n: int) -> bool {
    forall|i: int| 0 <= i < n ==> (#[trigger] rows[i]) is Ok
}

/// Whether the rows up to the first that could not be read can be shown.
pub open spec fn can_be_shown(rows: Seq<Result<LogRow, String>>, today: Seq<char>) -> bool {
    forall|i: int|
        0 <= i < rows.len() && all_read(rows, i + 1) ==> shown_time(
            (#[trigger] rows[i])->Ok_0.time@,
            today,
        ) is Some
}

/// Whether the rows up to the first that could not be read can be shown.
pub fn are_log_times_sane(rows: &Vec<Result<LogRow, String>>, today: &str) -> (res: bool)
    ensures
        res == can_be_shown(rows@, today@),
{
    let mut i: usize = 0;
    while i < rows.len()
        invariant
            i <= rows.len(),
            all_read(rows@, i as int),
            forall|j: int|
                0 <= j < i ==> shown_time((#[trigger] rows@[j])->Ok_0.time@, today@) is Some,
        decreases rows.len() - i,
    {
        match &rows[i] {
            Ok(row) => {
                if try_log_time(row.time.as_str(), today).is_none() {
                    assert(all_read(rows@, i + 1));
                    return false;
                }
            },
            Err(_) => {
                assert forall|j: int|
                    0 <= j < rows.len() && all_read(rows@, j + 1) implies shown_time(
                    (#[trigger] rows@[j])->Ok_0.time@,
                    today@,
                ) is Some by {
                    if j >= i {
                        assert(rows@[i as int] is Ok);
                    }
                }
                return true;
            },
        }
        i += 1;
    }
    true
}

/// The entries of the log as they are shown, unless one could not be read.
pub fn get_app_logs(rows: &Vec<Result<LogRow, String>>, today: &str) -> (res: Result<
    Vec<LogEntry>,
    CommandError,
>)
    requires
        can_be_shown(rows@, today@),
    ensures
        match res {
            Ok(logs) => {
                &&& all_read(rows@, rows@.len() as int)
                &&& logs@.len() == rows@.len()
                &&& forall|i: int|
                    0 <= i < logs@.len() ==> rows@[i]->Ok_0.shown_as(#[trigger] logs@[i], today@)
            },
            Err(e) => exists|i: int|
                0 <= i < rows@.len() && all_read(rows@, i) && #[trigger] rows@[i] == Err::<
                    LogRow,
                    String,
                >(e.0),
        },
{
    let mut logs: Vec<LogEntry> = Vec::new();
    let mut i: usize = 0;
    while i < rows.len()
        invariant
            i <= rows.len(),
            can_be_shown(rows@, today@),
            all_read(rows@, i as int),
            logs.len() == i,
            forall|j: int|
                0 <= j < i ==> rows@[j]->Ok_0.shown_as(#[trigger] logs@[j], today@),
        decreases rows.len() - i,
    {
        match &rows[i] {
            Ok(row) => {
                assert(all_read(rows@, i + 1));
                assert(rows@[i as int] is Ok);
                logs.push(
                    LogEntry {
                        time: try_log_time(row.time.as_str(), today).unwrap(),
                        level: row.level.clone(),
                        message: row.message.clone(),
                    },
                );
            },
            Err(e) => {
                assert(rows@[i as int] == Err::<LogRow, String>(*e));
                return Err(CommandError(e.clone()));
            },
        }
        i += 1;
    }
    Ok(logs)
}

/// The statement that removes a table.
pub open spec fn drop_statement(table: Seq<char>) -> Seq<char> {
    "DROP TABLE IF EXISTS \""@ + table + "\""@
}

/// A statement of those that empty the database; one that removes a table knows
/// which.
#[derive(Debug)]
pub struct ResetStep {
    pub sql: String,
    pub table: Option<String>,
}

impl ResetStep {
    /// That the statement failed, in words.
    pub fn failure(&self, error: &str) -> (res: String)
        ensures
            res@ == match self.table {
                Some(table) => "删除表 "@ + table@ + " 失败: "@ + error@,
                None => error@,
            },
    {
        match &self.table {
            Some(table) => {
                let mut out = "删除表 ".to_string();
                out.append(table.as_str());
                out.append(" 失败: ");
                out.append(error);
                out
            },
            None => error.to_string(),
        }
    }

    /// Whether the step executes a statement that removes no table.
    pub open spec fn executes(self, sql: Seq<char>) -> bool {
        self.sql@ == sql && self.table is None
    }

    /// Whether the step removes a table.
    pub open spec fn drops(self, table: String) -> bool {
        self.sql@ == drop_statement(table@) && self.table == Some(table)
    }
}

/// What to do to the database before its tables are listed: foreign keys are
/// switched off.
pub fn begin_reset() -> (res: ResetStep)
    ensures
        res.executes("PRAGMA foreign_keys = OFF;"@),
{
    ResetStep { sql: "PRAGMA foreign_keys = OFF;".to_string(), table: None }
}

/// Whether the steps empty a database with the given tables, once foreign keys
/// are switched off.
pub open spec fn empties(steps: Seq<ResetStep>, tables: Seq<String>) -> bool {
    let n = tables.len() as int;
    &&& steps.len() == n + 2
    &&& forall|i: int| 0 <= i < n ==> steps[i].drops(#[trigger] tables[i])
    &&& steps[n].executes("VACUUM;"@)
    &&& steps[n + 1].executes("PRAGMA foreign_keys = ON;"@)
}

/// The steps that empty the database, given the names of its tables.
pub fn reset_database(tables: &Vec<String>) -> (res: Vec<ResetStep>)
    ensures
        empties(res@, tables@),
{
    let mut out: Vec<ResetStep> = Vec::new();
    let mut i: usize = 0;
    while i < tables.len()
        invariant
            i <= tables.len(),
            out.len() == i,
            forall|j: int| 0 <= j < i ==> out@[j].drops(#[trigger] tables@[j]),
        decreases tables.len() - i,
    {
        let mut sql = "DROP TABLE IF EXISTS \"".to_string();
        sql.append(tables[i].as_str());
        sql.append("\"");
        out.push(ResetStep { sql, table: Some(tables[i].clone()) });
        i += 1;
    }
    out.push(ResetStep { sql: "VACUUM;".to_string(), table: None });
    out.push(ResetStep { sql: "PRAGMA foreign_keys = ON;".to_string(), table: None });
    out
}

proof fn lemma_from_byte_is_suffix(s: Seq<char>, k: nat)
    requires
        from_byte(s, k) is Some,
    ensures
        from_byte(s, k)->0.is_suffix_of(s),
    decreases s.len(),
{
    if k > 0 {
        let rest = s.skip(1);
        let left = (k - utf8_width(s[0])) as nat;
        lemma_from_byte_is_suffix(rest, left);
        let text = from_byte(s, k)->0;
        assert(text =~= s.subrange(s.len() - text.len(), s.len() as int)) by {
            assert(text =~= rest.subrange(rest.len() - text.len(), rest.len() as int));
        }
    } else {
        assert(s =~= s.subrange(0, s.len() as int));
    }
}

proof fn lemma_ascii_bytes(s: Seq<char>, k: nat)
    requires
        forall|i: int| 0 <= i < s.len() ==> (#[trigger] s[i]) <= '\u{7F}',
    ensures
        utf8_len(s) == s.len(),
        k <= s.len() ==> from_byte(s, k) == Some(s.skip(k as int)),
    decreases s.len(),
{
    if s.len() > 0 {
        let rest = s.skip(1);
        assert forall|i: int| 0 <= i < rest.len() implies (#[trigger] rest[i]) <= '\u{7F}' by {
            assert(rest[i] == s[i + 1]);
        }
        lemma_ascii_bytes(
            rest,
            if k > 0 {
                (k - 1) as nat
            } else {
                0
            },
        );
        if 0 < k <= s.len() {
            assert(rest.skip(k - 1) =~= s.skip(k as int));
        } else if k == 0 {
            assert(s.skip(0) =~= s);
        }
    } else {
        assert(s.skip(0) =~= s);
    }
}

proof fn lemma_width_is_encoded(c: char)
    ensures
        utf8_width(c) == encode_scalar(c as u32).len(),
{
    char_is_scalar(c);
}

/// The number of bytes is that of the UTF-8 encoding.
pub proof fn law_utf8_len_is_encoded_length(s: Seq<char>)
    ensures
        utf8_len(s) == encode_utf8(s).len(),
    decreases s.len(),
{
    if s.len() > 0 {
        assert(s.skip(1) =~= s.drop_first());
        law_utf8_len_is_encoded_length(s.skip(1));
        lemma_width_is_encoded(s[0]);
    }
}

/// What is shown of a time is its end, up to the fraction of a second.
pub proof fn law_shown_time_is_an_end(time: Seq<char>, today: Seq<char>)
    requires
        shown_time(time, today) is Some,
    ensures
        shown_time(time, today)->0.is_suffix_of(time.take(until_char(time, '.') as int)),
{
    let whole = time.take(until_char(time, '.') as int);
    if utf8_len(whole) > 10 && has_prefix(whole, today) {
        lemma_from_byte_is_suffix(whole, 10);
    } else if utf8_len(whole) > 5 {
        lemma_from_byte_is_suffix(whole, 5);
    } else {
        assert(whole =~= whole.subrange(0, whole.len() as int));
    }
}

/// A time in ASCII can always be shown.
pub proof fn law_ascii_time_is_shown(time: Seq<char>, today: Seq<char>)
    requires
        forall|i: int| 0 <= i < time.len() ==> (#[trigger] time[i]) <= '\u{7F}',
    ensures
        ({
            let whole = time.take(until_char(time, '.') as int);
            shown_time(time, today) == Some(
                if whole.len() > 10 && has_prefix(whole, today) {
                    whole.skip(10)
                } else if whole.len() > 5 {
                    whole.skip(5)
                } else {
                    whole
                },
            )
        }),
{
    let whole = time.take(until_char(time, '.') as int);
    lemma_until_char_bounds(time, '.');
    assert forall|i: int| 0 <= i < whole.len() implies (#[trigger] whole[i]) <= '\u{7F}' by {
        assert(whole[i] == time[i]);
    }
    lemma_ascii_bytes(whole, 10);
    lemma_ascii_bytes(whole, 5);
}

/// The targets that the user has set up are those that are shown, but for the
/// local machine.
pub proof fn law_user_targets_leave_out_local_machine(
    infos: Seq<MonitorShowInfo>,
    info: MonitorShowInfo,
)
    ensures
        user_targets(infos).contains(info) <==> infos.contains(info) && info.target_type@
            != "LocalHost"@,
    decreases infos.len(),
{
    if infos.len() > 0 {
        let before = infos.drop_last();
        let last = infos.last();
        law_user_targets_leave_out_local_machine(before, info);
        let known = user_targets(before);
        if before.contains(info) {
            assert(infos[before.index_of(info)] == info);
        }
        if infos.contains(info) && info != last {
            assert(before[infos.index_of(info)] == info);
        }
        if info == last {
            assert(infos[infos.len() - 1] == info);
        }
        if last.target_type@ != "LocalHost"@ {
            let all = known.push(last);
            if known.contains(info) {
                assert(all[known.index_of(info)] == info);
            }
            assert(all[known.len() as int] == last);
            if all.contains(info) && info != last {
                assert(known[all.index_of(info)] == info);
            }
        }
    }
}

/// The targets that the user has set up are shown in the order of the overview,
/// each as it is there.
pub proof fn law_user_targets_keep_their_order(infos: Seq<MonitorShowInfo>)
    ensures
        user_targets(infos) == infos.filter(
            |info: MonitorShowInfo| info.target_type@ != "LocalHost"@,
        ),
    decreases infos.len(),
{
    reveal(Seq::filter);
    if infos.len() > 0 {
        law_user_targets_keep_their_order(infos.drop_last());
    } else {
        assert(user_targets(infos) =~= infos);
    }
}

/// A text can be cut after any of its characters, counted in bytes, and what is left
/// is what follows.
pub proof fn law_text_is_cut_between_characters(a: Seq<char>, b: Seq<char>)
    ensures
        from_byte(a + b, encode_utf8(a).len()) == Some(b),
    decreases a.len(),
{
    let all = a + b;
    if a.len() > 0 {
        let rest = a.skip(1);
        law_text_is_cut_between_characters(rest, b);
        law_utf8_len_is_encoded_length(a);
        law_utf8_len_is_encoded_length(rest);
        assert(all.skip(1) =~= rest + b);
        assert(all[0] == a[0]);
    } else {
        assert(all =~= b);
    }
}

/// Of a time of today only what follows the date is shown, of another day what
/// follows the year; a fraction of a second is never shown, and what is shorter than
/// that is shown whole.
pub proof fn law_log_time_is_shown(time: Seq<char>, fraction: Seq<char>, today: Seq<char>)
    requires
        forall|i: int| 0 <= i < time.len() ==> (#[trigger] time[i]) <= '\u{7F}' && time[i] != '.',
        fraction.len() > 0 ==> fraction[0] == '.',
    ensures
        shown_time(time + fraction, today) == Some(
            if time.len() > 10 && today.is_prefix_of(time) {
                time.skip(10)
            } else if time.len() > 5 {
                time.skip(5)
            } else {
                time
            },
        ),
{
    let all = time + fraction;
    let k = time.len() as int;
    lemma_until_char_bounds(all, '.');
    assert(until_char(all, '.') == k) by {
        let n = until_char(all, '.') as int;
        if n < k {
            assert(all[n] == time[n]);
        }
        if n > k {
            assert(all[k] == fraction[0]);
        }
    }
    assert(all.take(k) =~= time);
    lemma_ascii_bytes(time, 10);
    lemma_ascii_bytes(time, 5);
    assert(today.is_prefix_of(time) <==> today.len() <= time.len() && today =~= time.subrange(
        0,
        today.len() as int,
    ));
}

/// An entry of the log is shown with its level and its message as they are stored.
pub proof fn law_log_entry_is_shown_as_it_is(row: LogRow, entry: LogEntry, today: Seq<char>)
    requires
        row.shown_as(entry, today),
    ensures
        entry.level@ == row.level@,
        entry.message@ == row.message@,
        shown_time(row.time@, today) == Some(entry.time@),
{
}

/// Entries can be shown if every time is written in ASCII.
pub proof fn law_ascii_log_can_be_shown(rows: Seq<Result<LogRow, String>>, today: Seq<char>)
    requires
        forall|i: int, j: int|
            0 <= i < rows.len() && (#[trigger] rows[i]) is Ok && 0 <= j
                < rows[i]->Ok_0.time@.len() ==> (#[trigger] rows[i]->Ok_0.time@[j]) <= '\u{7F}',
    ensures
        can_be_shown(rows, today),
{
    assert forall|i: int|
        0 <= i < rows.len() && all_read(rows, i + 1) implies shown_time(
        (#[trigger] rows[i])->Ok_0.time@,
        today,
    ) is Some by {
        assert(rows[i] is Ok);
        law_ascii_time_is_shown(rows[i]->Ok_0.time@, today);
    }
}

/// Emptying the database removes every table, in the order in which they are given
/// and by its own name, then frees the space, and switches foreign keys on last.
pub proof fn law_reset_removes_every_table(steps: Seq<ResetStep>, tables: Seq<String>, i: int)
    requires
        empties(steps, tables),
    ensures
        steps.len() == tables.len() + 2,
        0 <= i < tables.len() ==> steps[i].sql@ == "DROP TABLE IF EXISTS \""@ + tables[i]@ + "\""@
            && steps[i].table is Some && steps[i].table->0@ == tables[i]@,
        steps[tables.len() as int].sql@ == "VACUUM;"@,
        steps[tables.len() as int].table is None,
        steps.last().sql@ == "PRAGMA foreign_keys = ON;"@,
        steps.last().table is None,
{
    if 0 <= i < tables.len() {
        assert(steps[i].drops(tables[i]));
    }
}

/// A target that does not exist is told by its number.
pub proof fn law_missing_target_is_told_by_its_number(id: usize)
    ensures
        missing_target(id) == "监控目标 "@ + decimal(id as nat) + " 不存在"@,
{
}

/// The latest thousand entries are asked for, those for debugging among them unless
/// they are filtered out; no other filter makes a difference.
pub proof fn law_log_filter_leaves_out_debugging(filter: Seq<char>, other: Seq<char>)
    ensures
        log_query_text("info"@)
            == "SELECT log_time, log_level, log_message FROM SystemLog WHERE log_level != 'DEBUG' ORDER BY id DESC LIMIT 1000"@,
        filter != "info"@ ==> log_query_text(filter)
            == "SELECT log_time, log_level, log_message FROM SystemLog ORDER BY id DESC LIMIT 1000"@,
        filter != "info"@ && other != "info"@ ==> log_query_text(filter) == log_query_text(other),
{
    reveal_strlit("SELECT log_time, log_level, log_message FROM SystemLog");
    reveal_strlit(" WHERE log_level != 'DEBUG'");
    reveal_strlit(" ORDER BY id DESC LIMIT 1000");
    reveal_strlit(
        "SELECT log_time, log_level, log_message FROM SystemLog WHERE log_level != 'DEBUG' ORDER BY id DESC LIMIT 1000",
    );
    reveal_strlit(
        "SELECT log_time, log_level, log_message FROM SystemLog ORDER BY id DESC LIMIT 1000",
    );
    assert(log_query_text("info"@)
        =~= "SELECT log_time, log_level, log_message FROM SystemLog WHERE log_level != 'DEBUG' ORDER BY id DESC LIMIT 1000"@);
    if filter != "info"@ {
        assert(log_query_text(filter)
            =~= "SELECT log_time, log_level, log_message FROM SystemLog ORDER BY id DESC LIMIT 1000"@);
    }
}

/// What is told of the machine is what is known of it; what is not known is called
/// unknown, or none.
pub proof fn law_system_info_tells_what_is_known(
    info: SystemInfo,
    hostname: Option<String>,
    edition: Option<String>,
    boot_time: u64,
    cpu_core_count: usize,
    physical_core: Option<usize>,
    total_memory: u64,
)
    requires
        is_system_info(
            info,
            hostname,
            edition,
            boot_time,
            cpu_core_count,
            physical_core,
            total_memory,
        ),
    ensures
        hostname matches Some(name) ==> info.hostname@ == name@,
        hostname is None ==> info.hostname@ == "Unknown"@,
        edition matches Some(name) ==> info.os_name@ == name@,
        edition is None ==> info.os_name@ == "Unknown"@,
        unsigned_read(info.start_time@, u64::MAX as nat) == Ok::<nat, IntError>(boot_time as nat),
        info.cpu_core_count == cpu_core_count,
        physical_core matches Some(n) ==> info.physical_core == n,
        physical_core is None ==> info.physical_core == 0,
        info.total_memory@ == memory_text(total_memory as nat),
{
    law_decimal_reads_back(boot_time as nat, u64::MAX as nat);
}

/// The file of a program is pointed out by its path, and no file for a target of
/// another kind.
pub proof fn law_only_programs_are_pointed_out(
    request: FolderRequest,
    target: MonitorTarget,
    config: LocalProcessConfig,
)
    requires
        points_out(request, target),
    ensures
        target.target_type_cfg == MonitorTargetType::LocalProcess(config) ==> request.program
            == Some(config.path),
        target.target_type_cfg !is LocalProcess ==> request.program is None,
        request.target.target_type == target.target_type_cfg,
        request.target.alias == target.alias,
        request.target.id == Some(target.id),
{
}

/// A new target is as its form says, switched off, and with nothing running,
/// recorded or pending.
pub proof fn law_new_target_is_switched_off(
    target: MonitorTarget,
    id: usize,
    form: MonitorTargetDto,
)
    requires
        is_new_target(target, id, form),
    ensures
        target.id == id,
        target.target_type_cfg == form.target_type,
        target.alias@ == form.alias@,
        !target.monitor_enabled,
        target.task_handle is None,
        target.latest() is None,
        target.control_signal@ == Seq::<char>::empty(),
        target.console_outputs@.len() == 0,
{
}

} // verus!
