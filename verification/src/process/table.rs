//! The process table: what is running, and what has run.

use vstd::prelude::*;
use vstd::string::StringSliceAdditionalSpecFns;

use crate::process::MAX_PROCESSES;
use crate::text::display_name;

verus! {

/// Bytes of a name that a row has room for.
pub const NAME_SIZE: usize = 16;

/// What a process is doing.
#[derive(Debug, Clone, Copy, PartialEq, Eq, Structural)]
pub enum State {
    Running,
    Exited(u64),
}

/// A process-table row. Kept after exit so `ps` can show what happened.
#[derive(Debug, Clone, Copy, PartialEq, Eq)]
pub struct Entry {
    pub pid: u64,
    pub name: [u8; 16],
    pub name_len: usize,
    pub state: State,
}

/// What an [`Entry`] stands for.
#[verifier::ext_equal]
pub ghost struct EntryModel {
    pub pid: u64,
    pub name: Seq<u8>,
    pub state: State,
}

impl View for Entry {
    type V = EntryModel;

    open spec fn view(&self) -> EntryModel {
        EntryModel {
            pid: self.pid,
            name: self.name@.take(self.name_len as int),
            state: self.state,
        }
    }
}

impl Entry {
    /// The name fits its storage.
    pub open spec fn wf(&self) -> bool {
        self.name_len <= NAME_SIZE
    }

    /// The name as text; a name that is not UTF-8 reads as `?`.
    pub fn name(&self) -> (name: &str)
        requires
            self.wf(),
        ensures
            name.spec_bytes() == crate::text::shown(self@.name),
    {
        display_name(vstd::slice::slice_subrange(self.name.as_slice(), 0, self.name_len))
    }
}

/// Where the last component of a path begins, looking no further than `i`.
pub open spec fn base_start(path: Seq<u8>, i: int) -> int
    decreases i,
{
    if i <= 0 {
        0
    } else if crate::fat::path::is_separator(path[i - 1]) {
        i
    } else {
        base_start(path, i - 1)
    }
}

/// The name that a process goes by: the last component of its path, cut to what
/// a row has room for.
pub open spec fn process_name(path: Seq<u8>) -> Seq<u8> {
    let base = path.skip(base_start(path, path.len() as int));
    if base.len() > NAME_SIZE {
        base.take(NAME_SIZE as int)
    } else {
        base
    }
}

/// The rows of the table; a row may be empty.
pub type Rows = Seq<Option<EntryModel>>;

/// The first empty row, from number `i` on.
pub open spec fn first_empty(rows: Rows, i: int) -> Option<int>
    decreases rows.len() - i,
{
    if i < 0 || i >= rows.len() {
        None
    } else if rows[i] is None {
        Some(i)
    } else {
        first_empty(rows, i + 1)
    }
}

/// The row that a new process takes: the first empty one, and the oldest one
/// once the table is full.
pub open spec fn row_for(rows: Rows, pid: u64) -> int {
    match first_empty(rows, 0) {
        Some(i) => i,
        None => (pid - 1) % (MAX_PROCESSES as int),
    }
}

/// The rows that are not empty, in their order.
pub open spec fn present(rows: Rows) -> Seq<EntryModel>
    decreases rows.len(),
{
    if rows.len() == 0 {
        Seq::empty()
    } else {
        match rows.last() {
            None => present(rows.drop_last()),
            Some(entry) => present(rows.drop_last()).push(entry),
        }
    }
}

/// A row as a value.
pub open spec fn row_view(row: Option<Entry>) -> Option<EntryModel> {
    match row {
        None => None,
        Some(entry) => Some(entry@),
    }
}

/// A row once process `pid` has exited with `code`.
pub open spec fn row_after(row: Option<EntryModel>, pid: u64, code: u64) -> Option<EntryModel> {
    match row {
        Some(entry) => if entry.pid == pid {
            Some(EntryModel { state: State::Exited(code), ..entry })
        } else {
            row
        },
        None => None,
    }
}

/// The rows once process `pid` has started under `name`.
pub open spec fn rows_started(rows: Rows, pid: u64, name: Seq<u8>) -> Rows {
    rows.update(row_for(rows, pid), Some(EntryModel { pid, name, state: State::Running }))
}

/// The rows once process `pid` has exited with `code`.
pub open spec fn rows_finished(rows: Rows, pid: u64, code: u64) -> Rows {
    Seq::new(MAX_PROCESSES as nat, |i: int| row_after(rows[i], pid, code))
}

/// The process table.
#[derive(Debug, Clone, Copy, PartialEq, Eq)]
pub struct ProcessTable {
    pub rows: [Option<Entry>; MAX_PROCESSES],
    /// The number of the next process; 0 once the numbers are used up.
    pub next_pid: u64,
}

impl View for ProcessTable {
    type V = Rows;

    open spec fn view(&self) -> Rows {
        Seq::new(MAX_PROCESSES as nat, |i: int| row_view(self.rows@[i]))
    }
}

impl ProcessTable {
    /// Every row is sound.
    pub open spec fn wf(&self) -> bool {
        forall|i: int|
            0 <= i < MAX_PROCESSES ==> ((#[trigger] self.rows@[i]) matches Some(entry)
                ==> entry.wf())
    }

    /// A table of empty rows.
    pub fn new() -> (table: ProcessTable)
        ensures
            table.wf(),
            table.next_pid == 1,
            table@ == Seq::new(MAX_PROCESSES as nat, |i: int| None::<EntryModel>),
    {
        let table = ProcessTable { rows: [None; MAX_PROCESSES], next_pid: 1 };
        assert(table@ =~= Seq::new(MAX_PROCESSES as nat, |i: int| None::<EntryModel>));
        table
    }

    /// Gives a process that is about to run its number, and enters it.
    pub fn start(&mut self, path: &str) -> (pid: u64)
        requires
            old(self).wf(),
            old(self).next_pid != 0,
        ensures
            final(self).wf(),
            pid == old(self).next_pid,
            final(self).next_pid == (if pid == u64::MAX {
                0
            } else {
                pid + 1
            }),
            final(self)@ == old(self)@.update(
                row_for(old(self)@, pid),
                Some(
                    EntryModel {
                        pid,
                        name: process_name(path.spec_bytes()),
                        state: State::Running,
                    },
                ),
            ),
            final(self)@ == rows_started(old(self)@, pid, process_name(path.spec_bytes())),
    {
        let pid: u64 = self.next_pid;
        self.next_pid = pid.wrapping_add(1);
        assert(self@ =~= old(self)@);
        self.record(pid, path);
        pid
    }

    /// Enters a process that is about to run.
    pub fn record(&mut self, pid: u64, path: &str)
        requires
            old(self).wf(),
            1 <= pid,
        ensures
            final(self).wf(),
            final(self).next_pid == old(self).next_pid,
            final(self)@ == old(self)@.update(
                row_for(old(self)@, pid),
                Some(
                    EntryModel {
                        pid,
                        name: process_name(path.spec_bytes()),
                        state: State::Running,
                    },
                ),
            ),
            final(self)@ == rows_started(old(self)@, pid, process_name(path.spec_bytes())),
            0 <= row_for(old(self)@, pid) < MAX_PROCESSES,
    {
        // Keep the last path component, truncated to fit.
        let bytes: &[u8] = path.as_bytes();
        let mut start: usize = bytes.len();
        while start > 0 && bytes[start - 1] != 0x2F && bytes[start - 1] != 0x5C
            invariant
                start <= bytes@.len(),
                base_start(bytes@, bytes@.len() as int) == base_start(bytes@, start as int),
            decreases start,
        {
            start = start - 1;
        }
        assert(start == base_start(bytes@, bytes@.len() as int));
        let ghost base = bytes@.skip(start as int);
        let mut name: [u8; 16] = [0u8; 16];
        let mut len: usize = 0;
        while len < NAME_SIZE && start + len < bytes.len()
            invariant
                len <= NAME_SIZE,
                start + len <= bytes.len(),
                base == bytes@.skip(start as int),
                name@.take(len as int) =~= base.take(len as int),
            decreases NAME_SIZE - len,
        {
            let ghost before = name@;
            name[len] = bytes[start + len];
            len = len + 1;
            assert(name@.take(len as int) =~= before.take(len - 1).push(base[len - 1]));
            assert(base.take(len as int) =~= base.take(len - 1).push(base[len - 1]));
        }
        assert(name@.take(len as int) =~= process_name(bytes@));
        let entry = Entry { pid, name, name_len: len, state: State::Running };

        // Reuse the oldest row once the table is full; this is a history buffer.
        let mut row: usize = 0;
        while row < MAX_PROCESSES && self.rows[row].is_some()
            invariant
                row <= MAX_PROCESSES,
                *self == *old(self),
                first_empty(self@, 0) == first_empty(self@, row as int),
            decreases MAX_PROCESSES - row,
        {
            row = row + 1;
        }
        if row == MAX_PROCESSES {
            row = ((pid - 1) % MAX_PROCESSES as u64) as usize;
        }
        assert(row == row_for(old(self)@, pid));
        self.rows[row] = Some(entry);
        assert(entry@ =~= (EntryModel {
            pid,
            name: process_name(path.spec_bytes()),
            state: State::Running,
        }));
        assert(self@ =~= old(self)@.update(row as int, Some(entry@)));
    }

    /// Notes that a process has exited.
    pub fn finish(&mut self, pid: u64, code: u64)
        requires
            old(self).wf(),
        ensures
            final(self).wf(),
            final(self).next_pid == old(self).next_pid,
            final(self)@ == Seq::new(
                MAX_PROCESSES as nat,
                |i: int| row_after(old(self)@[i], pid, code),
            ),
            final(self)@ == rows_finished(old(self)@, pid, code),
    {
        let mut i: usize = 0;
        while i < MAX_PROCESSES
            invariant
                i <= MAX_PROCESSES,
                self.wf(),
                self.next_pid == old(self).next_pid,
                forall|k: int|
                    0 <= k < i ==> #[trigger] self@[k] == row_after(old(self)@[k], pid, code),
                forall|k: int| i <= k < MAX_PROCESSES ==> #[trigger] self@[k] == old(self)@[k],
            decreases MAX_PROCESSES - i,
        {
            let ghost before = *self;
            assert(self@[i as int] == old(self)@[i as int]);
            assert(self@[i as int] == row_view(self.rows@[i as int]));
            if let Some(entry) = self.rows[i] {
                assert(entry.wf());
                if entry.pid == pid {
                    let exited = Entry { state: State::Exited(code), ..entry };
                    self.rows[i] = Some(exited);
                    assert(exited@ =~= (EntryModel { state: State::Exited(code), ..entry@ }));
                }
            }
            assert forall|k: int| 0 <= k < MAX_PROCESSES && k != i implies #[trigger] self@[k]
                == before@[k] by {
                assert(self.rows@[k] == before.rows@[k]);
            }
            assert(self@[i as int] == row_view(self.rows@[i as int]));
            i = i + 1;
        }
        assert(self@ =~= Seq::new(
            MAX_PROCESSES as nat,
            |i: int| row_after(old(self)@[i], pid, code),
        ));
    }
}

/// Copies the rows that are not empty to the front of `buf`, in their order,
/// and returns how many there are. What lies behind them in `buf` stays.
pub fn snapshot(table: &ProcessTable, buf: &mut [Option<Entry>; MAX_PROCESSES]) -> (count: usize)
    requires
        table.wf(),
    ensures
        count == present(table@).len(),
        count <= MAX_PROCESSES,
        forall|i: int|
            0 <= i < count ==> ((#[trigger] final(buf)@[i]) matches Some(entry) && entry.wf()
                && entry@ == present(table@)[i]),
        forall|i: int| count <= i < MAX_PROCESSES ==> #[trigger] final(buf)@[i] == old(buf)@[i],
{
    let mut count: usize = 0;
    let mut i: usize = 0;
    assert(table@.take(0) =~= Seq::<Option<EntryModel>>::empty());
    while i < MAX_PROCESSES
        invariant
            i <= MAX_PROCESSES,
            table.wf(),
            count <= i,
            count == present(table@.take(i as int)).len(),
            forall|k: int|
                0 <= k < count ==> ((#[trigger] buf@[k]) matches Some(entry) && entry.wf() && entry@
                    == present(table@.take(i as int))[k]),
            forall|k: int| count <= k < MAX_PROCESSES ==> #[trigger] buf@[k] == old(buf)@[k],
        decreases MAX_PROCESSES - i,
    {
        let ghost here = table@.take(i + 1);
        assert(here.drop_last() =~= table@.take(i as int));
        assert(here.last() == table@[i as int]);
        if let Some(entry) = table.rows[i] {
            assert(table.rows@[i as int] == Some(entry));
            buf[count] = Some(entry);
            count = count + 1;
        }
        i = i + 1;
    }
    assert(table@.take(MAX_PROCESSES as int) =~= table@);
    count
}

/// A use of the process table.
pub ghost enum TableUse {
    /// A process of this name starts, under the next number.
    Start(Seq<u8>),
    Finish { pid: u64, code: u64 },
}

/// How many processes have started.
pub open spec fn starts(uses: Seq<TableUse>) -> nat
    decreases uses.len(),
{
    if uses.len() == 0 {
        0
    } else {
        starts(uses.drop_last()) + (if uses.last() is Start {
            1nat
        } else {
            0nat
        })
    }
}

/// The rows after some uses of an empty table, in which the processes are
/// numbered from 1 on.
pub open spec fn rows_after(uses: Seq<TableUse>) -> Rows
    decreases uses.len(),
{
    if uses.len() == 0 {
        Seq::new(MAX_PROCESSES as nat, |i: int| None::<EntryModel>)
    } else {
        let rows = rows_after(uses.drop_last());
        match uses.last() {
            TableUse::Start(name) => {
                let pid = (starts(uses.drop_last()) + 1) as u64;
                rows_started(rows, pid, name)
            },
            TableUse::Finish { pid, code } => rows_finished(rows, pid, code),
        }
    }
}

/// What is to be known of process `pid` after some uses: the name that it started
/// under, and how it is doing. Nothing before it has started.
pub open spec fn process_after(uses: Seq<TableUse>, pid: u64) -> Option<EntryModel>
    decreases uses.len(),
{
    if uses.len() == 0 {
        None
    } else {
        let earlier = uses.drop_last();
        match uses.last() {
            TableUse::Start(name) => if starts(earlier) + 1 == pid {
                Some(EntryModel { pid, name, state: State::Running })
            } else {
                process_after(earlier, pid)
            },
            TableUse::Finish { pid: finished, code } => row_after(
                process_after(earlier, pid),
                finished,
                code,
            ),
        }
    }
}

/// The number of the latest process that row `i` is for, of `count`; 0 where
/// there is none.
pub open spec fn latest_in(i: int, count: nat) -> int {
    if count < i + 1 {
        0
    } else {
        count - (count - i - 1) % (MAX_PROCESSES as int)
    }
}

/// The table is a history: after any uses, its rows are those of the latest
/// processes, as many as it has room for, each in the row of its number, under
/// the name that it started under and in its present state.
pub proof fn law_the_table_keeps_the_latest(uses: Seq<TableUse>, i: int)
    requires
        starts(uses) <= u64::MAX,
        0 <= i < MAX_PROCESSES,
    ensures
        ({
            let rows = rows_after(uses);
            let count = starts(uses);
            let latest = latest_in(i, count);
            &&& rows.len() == MAX_PROCESSES
            &&& if latest == 0 {
                rows[i] is None
            } else {
                &&& count - MAX_PROCESSES < latest <= count
                &&& (latest - 1) % (MAX_PROCESSES as int) == i
                &&& rows[i] == process_after(uses, latest as u64)
                &&& rows[i] matches Some(entry) && entry.pid == latest
            }
        }),
{
    lemma_rows(uses);
    lemma_latest_in(i, starts(uses));
    assert(is_history(rows_after(uses), uses, i));
}

/// A process that starts takes an empty row, or that of the oldest process once
/// the table is full. No other row changes.
pub proof fn law_the_oldest_row_is_reused(uses: Seq<TableUse>, name: Seq<u8>)
    requires
        starts(uses) < u64::MAX,
    ensures
        ({
            let rows = rows_after(uses);
            let count = starts(uses);
            let row = row_for(rows, (count + 1) as u64);
            &&& 0 <= row < MAX_PROCESSES
            &&& if count < MAX_PROCESSES {
                rows[row] is None
            } else {
                rows[row] matches Some(entry) && entry.pid == count + 1 - MAX_PROCESSES
            }
            &&& rows_after(uses.push(TableUse::Start(name))) == rows.update(
                row,
                Some(EntryModel { pid: (count + 1) as u64, name, state: State::Running }),
            )
        }),
{
    lemma_rows(uses);
    let rows = rows_after(uses);
    lemma_row_for(rows, uses);
    let row = row_for(rows, (starts(uses) + 1) as u64);
    lemma_latest_in(row, starts(uses));
    assert(is_history(rows, uses, row));
    assert(uses.push(TableUse::Start(name)).drop_last() =~= uses);
}

proof fn lemma_latest_in(i: int, count: nat)
    requires
        0 <= i < MAX_PROCESSES,
    ensures
        latest_in(i, count) != 0 <==> i < count,
        i < count ==> count - MAX_PROCESSES < latest_in(i, count) <= count && (latest_in(i, count)
            - 1) % (MAX_PROCESSES as int) == i,
        i == count as int % (MAX_PROCESSES as int) && i < count ==> latest_in(i, count) == count + 1
            - MAX_PROCESSES,
{
}

/// Row `i` is as it should be after some uses.
spec fn is_history(rows: Rows, uses: Seq<TableUse>, i: int) -> bool {
    let latest = latest_in(i, starts(uses));
    if latest == 0 {
        rows[i] is None
    } else {
        rows[i] == process_after(uses, latest as u64) && (rows[i] matches Some(entry) && entry.pid
            == latest)
    }
}

proof fn lemma_row_for(rows: Rows, uses: Seq<TableUse>)
    requires
        rows.len() == MAX_PROCESSES,
        starts(uses) < u64::MAX,
        forall|i: int| 0 <= i < MAX_PROCESSES ==> #[trigger] is_history(rows, uses, i),
    ensures
        row_for(rows, (starts(uses) + 1) as u64) == starts(uses) as int % (MAX_PROCESSES as int),
{
    let count = starts(uses);
    if count < MAX_PROCESSES {
        assert forall|k: int| 0 <= k < count implies (#[trigger] rows[k]) is Some by {
            assert(is_history(rows, uses, k));
        }
        assert(is_history(rows, uses, count as int));
        lemma_first_empty_is(rows, 0, count as int);
    } else {
        assert forall|k: int| 0 <= k < rows.len() implies (#[trigger] rows[k]) is Some by {
            assert(is_history(rows, uses, k));
        }
        lemma_no_empty(rows, 0);
    }
}

proof fn lemma_rows(uses: Seq<TableUse>)
    requires
        starts(uses) <= u64::MAX,
    ensures
        rows_after(uses).len() == MAX_PROCESSES,
        forall|i: int|
            0 <= i < MAX_PROCESSES ==> #[trigger] is_history(rows_after(uses), uses, i),
    decreases uses.len(),
{
    if uses.len() > 0 {
        let earlier = uses.drop_last();
        let before = rows_after(earlier);
        let rows = rows_after(uses);
        let count = starts(earlier);
        lemma_rows(earlier);
        if uses.last() is Start {
            lemma_row_for(before, earlier);
        }
        assert forall|i: int| 0 <= i < MAX_PROCESSES implies #[trigger] is_history(
            rows,
            uses,
            i,
        ) by {
            assert(is_history(before, earlier, i));
        }
    }
}

proof fn lemma_first_empty_is(rows: Rows, i: int, j: int)
    requires
        0 <= i <= j < rows.len(),
        forall|k: int| i <= k < j ==> (#[trigger] rows[k]) is Some,
        rows[j] is None,
    ensures
        first_empty(rows, i) == Some(j),
    decreases j - i,
{
    if i < j {
        assert(rows[i] is Some);
        lemma_first_empty_is(rows, i + 1, j);
    }
}

proof fn lemma_no_empty(rows: Rows, i: int)
    requires
        0 <= i,
        forall|k: int| 0 <= k < rows.len() ==> (#[trigger] rows[k]) is Some,
    ensures
        first_empty(rows, i) is None,
    decreases rows.len() - i,
{
    if i < rows.len() {
        lemma_no_empty(rows, i + 1);
    }
}

/// A process that was entered is in the table, running; and once it has
/// finished, its row tells its exit code. Rows of other processes that had room
/// are left alone.
pub proof fn law_processes_are_on_record(rows: Rows, pid: u64, name: Seq<u8>, code: u64)
    requires
        rows.len() == MAX_PROCESSES,
        1 <= pid,
        forall|i: int|
            0 <= i < rows.len() ==> ((#[trigger] rows[i]) matches Some(entry) ==> entry.pid < pid),
    ensures
        ({
            let row = row_for(rows, pid);
            let running = rows.update(
                row,
                Some(EntryModel { pid, name, state: State::Running }),
            );
            &&& 0 <= row < MAX_PROCESSES
            &&& row_after(running[row], pid, code) == Some(
                EntryModel { pid, name, state: State::Exited(code) },
            )
            &&& forall|i: int|
                0 <= i < rows.len() && i != row ==> row_after(#[trigger] running[i], pid, code)
                    == rows[i]
        }),
{
    lemma_first_empty_bound(rows, 0);
}

proof fn lemma_first_empty_bound(rows: Rows, i: int)
    requires
        0 <= i,
    ensures
        first_empty(rows, i) matches Some(j) ==> i <= j < rows.len(),
    decreases rows.len() - i,
{
    if i < rows.len() && rows[i] is Some {
        lemma_first_empty_bound(rows, i + 1);
    }
}

/// A process goes by the last name in its path: what lies behind the last slash of
/// either kind, or all of it where there is none, cut to its first sixteen bytes.
pub proof fn law_processes_go_by_their_last_name(path: Seq<u8>, at: int)
    requires
        0 <= at <= path.len(),
        at > 0 ==> path[at - 1] == 0x2F || path[at - 1] == 0x5C,
        forall|k: int| at <= k < path.len() ==> #[trigger] path[k] != 0x2F && path[k] != 0x5C,
    ensures
        process_name(path) == path.subrange(
            at,
            if path.len() < at + 16 {
                path.len() as int
            } else {
                at + 16
            },
        ),
{
    lemma_base_start(path, at, path.len() as int);
    let base = path.skip(at);
    if base.len() > 16 {
        assert(process_name(path) =~= path.subrange(at, at + 16));
    } else {
        assert(base =~= path.subrange(at, path.len() as int));
    }
}

proof fn lemma_base_start(path: Seq<u8>, at: int, i: int)
    requires
        0 <= at <= i <= path.len(),
        at > 0 ==> path[at - 1] == 0x2F || path[at - 1] == 0x5C,
        forall|k: int| at <= k < path.len() ==> #[trigger] path[k] != 0x2F && path[k] != 0x5C,
    ensures
        base_start(path, i) == at,
    decreases i,
{
    if i > at {
        assert(path[i - 1] != 0x2F && path[i - 1] != 0x5C);
        lemma_base_start(path, at, i - 1);
    }
}

/// What is listed are the rows that are not empty, all of them, in their order.
pub proof fn law_all_rows_in_use_are_listed(rows: Rows)
    ensures
        present(rows) == rows.filter(|row: Option<EntryModel>| row is Some).map_values(
            |row: Option<EntryModel>| row->0,
        ),
    decreases rows.len(),
{
    let used = |row: Option<EntryModel>| row is Some;
    let entry = |row: Option<EntryModel>| row->0;
    reveal(Seq::filter);
    if rows.len() > 0 {
        law_all_rows_in_use_are_listed(rows.drop_last());
        let before = rows.drop_last().filter(used);
        assert(before.push(rows.last()).map_values(entry) =~= before.map_values(entry).push(
            entry(rows.last()),
        ));
    } else {
        assert(present(rows) =~= rows.filter(used).map_values(entry));
    }
}

/// An exit is noted in the row of the process that exited, for its number, with its
/// code; a row of another process stays as it is, and so does an empty one.
pub proof fn law_exits_are_noted_where_they_belong(
    row: Option<EntryModel>,
    pid: u64,
    code: u64,
)
    ensures
        match row {
            None => row_after(row, pid, code) is None,
            Some(entry) => if entry.pid != pid {
                row_after(row, pid, code) == row
            } else {
                row_after(row, pid, code) matches Some(after) && after.pid == pid && after.name
                    == entry.name && after.state == State::Exited(code)
            },
        },
{
}

/// Of the last eight processes that have started there is a row, and of no other
/// process: processes are numbered from 1 on in the order in which they start, and
/// take the rows in turn.
pub proof fn law_the_last_eight_are_remembered(uses: Seq<TableUse>, pid: u64)
    requires
        starts(uses) <= u64::MAX,
        1 <= pid <= starts(uses),
    ensures
        rows_after(uses).len() == 8,
        pid + 8 > starts(uses) ==> (rows_after(uses)[(pid - 1) % 8] matches Some(entry) && entry.pid
            == pid),
        pid + 8 <= starts(uses) ==> forall|i: int|
            0 <= i < 8 ==> ((#[trigger] rows_after(uses)[i]) matches Some(entry) ==> entry.pid
                != pid),
{
    let count = starts(uses);
    let row = (pid - 1) % 8;
    law_the_table_keeps_the_latest(uses, row);
    if pid + 8 > count {
        assert(latest_in(row, count) == pid);
    } else {
        assert forall|i: int| 0 <= i < 8 implies ((#[trigger] rows_after(uses)[i]) matches Some(
            entry,
        ) ==> entry.pid != pid) by {
            law_the_table_keeps_the_latest(uses, i);
        }
    }
}

} // verus!
