//! What an address space owns as tables and pages are linked into it.

use vstd::prelude::*;

use crate::memory::Memory;
use crate::process::USER_P4_INDEX;

verus! {

/// The memory once one word of it is written.
pub open spec fn written(memory: Memory, at: u64, value: u64) -> Memory {
    |place: u64|
        if place == at {
            value
        } else {
            memory(place)
        }
}

/// A frame of zeros.
pub open spec fn is_blank(memory: Memory, frame: u64) -> bool {
    forall|i: u64| 0 <= i < 512 ==> #[trigger] memory((frame + 8 * i) as u64) == 0
}

/// The start of a frame.
pub open spec fn is_frame(frame: u64) -> bool {
    frame % 4096 == 0 && frame < 0x10_0000_0000_0000
}

/// The frame of the table of level `target` that `addr` leads to, from the table
/// of the given level in `frame`.
pub open spec fn table_at(
    memory: Memory,
    frame: u64,
    level: nat,
    addr: u64,
    target: nat,
) -> Option<u64>
    decreases level,
{
    let entry = memory(crate::memory::entry_place(frame, addr, level));
    if level <= target {
        Some(frame)
    } else if entry == 0 || entry & 0x80 != 0 {
        None
    } else {
        table_at(
            memory,
            crate::memory::entry_frame(entry),
            (level - 1) as nat,
            addr,
            target,
        )
    }
}

/// Writing `value` links a frame into the tables: the entry of `addr` in the
/// table of level `target` was empty, and names the frame now; a frame that is
/// to be a table is blank.
pub open spec fn is_link(
    memory: Memory,
    table: u64,
    addr: u64,
    target: nat,
    at: u64,
    value: u64,
) -> bool {
    let linked = crate::memory::entry_frame(value);
    &&& at == crate::memory::entry_place(table, addr, target)
    &&& memory(at) == 0
    &&& value != 0
    &&& target > 1 ==> value & 0x80 == 0 && is_blank(memory, linked)
}

/// What entry `i` of a table owns.
spec fn part(memory: Memory, frame: u64, level: nat, i: nat) -> Seq<u64> {
    let entry = memory((frame + 8 * i) as u64);
    let child = crate::memory::entry_frame(entry);
    if entry == 0 {
        Seq::empty()
    } else if level > 1 && entry & 0x80 == 0 {
        crate::process::space::owned(memory, child, (level - 1) as nat)
    } else {
        seq![child]
    }
}

proof fn lemma_parts(memory: Memory, frame: u64, level: nat, i: nat)
    requires
        i < 512,
    ensures
        crate::process::space::owned_from(memory, frame, level, i) == part(memory, frame, level, i)
            + crate::process::space::owned_from(memory, frame, level, i + 1),
{
    let rest = crate::process::space::owned_from(memory, frame, level, i + 1);
    assert(Seq::<u64>::empty() + rest =~= rest);
}

/// Parts of a sequence without repetition have none, and share nothing.
proof fn lemma_apart(a: Seq<u64>, b: Seq<u64>)
    requires
        (a + b).no_duplicates(),
    ensures
        a.no_duplicates(),
        b.no_duplicates(),
        forall|x: u64| #[trigger] a.contains(x) ==> !b.contains(x),
{
    let both = a + b;
    assert forall|i: int, j: int| 0 <= i < a.len() && 0 <= j < a.len() && i != j implies a[i]
        != a[j] by {
        assert(both[i] == a[i] && both[j] == a[j]);
    }
    assert forall|i: int, j: int| 0 <= i < b.len() && 0 <= j < b.len() && i != j implies b[i]
        != b[j] by {
        assert(both[a.len() + i] == b[i] && both[a.len() + j] == b[j]);
    }
    assert forall|x: u64| #[trigger] a.contains(x) implies !b.contains(x) by {
        if b.contains(x) {
            let i = choose|i: int| 0 <= i < a.len() && a[i] == x;
            let j = choose|j: int| 0 <= j < b.len() && b[j] == x;
            assert(both[i] == both[a.len() + j]);
        }
    }
}

proof fn lemma_in_both(a: Seq<u64>, b: Seq<u64>, x: u64)
    ensures
        (a + b).contains(x) == (a.contains(x) || b.contains(x)),
{
    let both = a + b;
    if a.contains(x) {
        let i = choose|i: int| 0 <= i < a.len() && a[i] == x;
        assert(both[i] == x);
    }
    if b.contains(x) {
        let j = choose|j: int| 0 <= j < b.len() && b[j] == x;
        assert(both[a.len() + j] == x);
    }
    if both.contains(x) {
        let i = choose|i: int| 0 <= i < both.len() && both[i] == x;
        if i < a.len() {
            assert(a[i] == x);
        } else {
            assert(b[i - a.len()] == x);
        }
    }
}

proof fn lemma_in_pushed(a: Seq<u64>, y: u64, x: u64)
    ensures
        a.push(y).contains(x) == (a.contains(x) || x == y),
{
    lemma_in_both(a, seq![y], x);
    assert(a.push(y) =~= a + seq![y]);
    assert(seq![y].contains(x) == (x == y)) by {
        if x == y {
            assert(seq![y][0] == x);
        }
    }
}

/// What a table owns is as it was where no table of it was written to.
proof fn lemma_unchanged(
    memory: Memory,
    at: u64,
    value: u64,
    table: u64,
    frame: u64,
    level: nat,
    i: nat,
)
    requires
        is_frame(frame),
        is_frame(table),
        table <= at < table + 4096,
        !crate::process::space::owned_from(memory, frame, level, i).contains(table),
        forall|j: int| i <= j < 512 ==> #[trigger] (frame + 8 * j) != at,
    ensures
        crate::process::space::owned_from(written(memory, at, value), frame, level, i)
            == crate::process::space::owned_from(memory, frame, level, i),
    decreases level, 512 - i, 1nat,
{
    if i < 512 {
        let after = written(memory, at, value);
        lemma_parts(memory, frame, level, i);
        lemma_parts(after, frame, level, i);
        let here = part(memory, frame, level, i);
        let rest = crate::process::space::owned_from(memory, frame, level, i + 1);
        lemma_in_both(here, rest, table);
        assert((frame + 8 * (i as int)) != at);
        lemma_part_unchanged(memory, at, value, table, frame, level, i);
        lemma_unchanged(memory, at, value, table, frame, level, i + 1);
    }
}

proof fn lemma_part_unchanged(
    memory: Memory,
    at: u64,
    value: u64,
    table: u64,
    frame: u64,
    level: nat,
    i: nat,
)
    requires
        is_frame(frame),
        is_frame(table),
        table <= at < table + 4096,
        i < 512,
        !part(memory, frame, level, i).contains(table),
        frame + 8 * i != at,
    ensures
        part(written(memory, at, value), frame, level, i) == part(memory, frame, level, i),
    decreases level, 512 - i, 0nat,
{
    let entry = memory((frame + 8 * i) as u64);
    let child = crate::memory::entry_frame(entry);
    if entry != 0 && level > 1 && entry & 0x80 == 0 {
        crate::memory::lemma_entry_frame(entry);
        let below = crate::process::space::owned_from(memory, child, (level - 1) as nat, 0);
        lemma_in_pushed(below, child, table);
        assert forall|j: int| 0 <= j < 512 implies #[trigger] (child + 8 * j) != at by {
            assert(child != table);
        }
        lemma_unchanged(memory, at, value, table, child, (level - 1) as nat, 0);
    }
}

/// A table that an address leads to belongs to what is owned.
proof fn lemma_table_is_owned(memory: Memory, frame: u64, level: nat, addr: u64, target: nat)
    requires
        1 <= target < level <= 4,
        is_frame(frame),
        table_at(memory, frame, level, addr, target) is Some,
    ensures
        ({
            let table = table_at(memory, frame, level, addr, target)->0;
            let i = crate::memory::table_index(addr, level) as nat;
            &&& i < 512
            &&& is_frame(table)
            &&& part(memory, frame, level, i).contains(table)
        }),
    decreases level,
{
    let i = crate::memory::table_index(addr, level) as nat;
    let entry = memory((frame + 8 * i) as u64);
    let child = crate::memory::entry_frame(entry);
    let table = table_at(memory, frame, level, addr, target)->0;
    crate::memory::lemma_entry_frame(entry);
    let below = crate::process::space::owned_from(memory, child, (level - 1) as nat, 0);
    lemma_in_pushed(below, child, table);
    if level - 1 > target {
        lemma_table_is_owned(memory, child, (level - 1) as nat, addr, target);
        let k = crate::memory::table_index(addr, (level - 1) as nat) as nat;
        lemma_owned_from(memory, child, (level - 1) as nat, 0, k, table);
    } else {
        reveal_with_fuel(table_at, 2);
    }
}

/// What an entry owns is among what the entries from an earlier one on own.
proof fn lemma_owned_from(memory: Memory, frame: u64, level: nat, i: nat, k: nat, x: u64)
    requires
        i <= k < 512,
        part(memory, frame, level, k).contains(x),
    ensures
        crate::process::space::owned_from(memory, frame, level, i).contains(x),
    decreases k - i,
{
    let rest = crate::process::space::owned_from(memory, frame, level, i + 1);
    lemma_parts(memory, frame, level, i);
    lemma_in_both(part(memory, frame, level, i), rest, x);
    if i < k {
        lemma_owned_from(memory, frame, level, i + 1, k, x);
    }
}

/// A blank table owns itself alone.
proof fn lemma_blank_owns_nothing(memory: Memory, frame: u64, level: nat, i: nat)
    requires
        is_blank(memory, frame),
        i <= 512,
    ensures
        crate::process::space::owned_from(memory, frame, level, i) == Seq::<u64>::empty(),
    decreases 512 - i,
{
    if i < 512 {
        assert(memory((frame + 8 * (i as u64)) as u64) == 0);
        lemma_blank_owns_nothing(memory, frame, level, i + 1);
    }
}

/// Linking a frame below a table adds it to what the table owns.
proof fn lemma_gain(
    memory: Memory,
    at: u64,
    value: u64,
    frame: u64,
    level: nat,
    addr: u64,
    target: nat,
    i: nat,
)
    requires
        1 <= target <= level <= 3,
        is_frame(frame),
        table_at(memory, frame, level, addr, target) matches Some(table) && is_link(
            memory,
            table,
            addr,
            target,
            at,
            value,
        ),
        i <= crate::memory::table_index(addr, level),
        crate::process::space::owned_from(memory, frame, level, i).no_duplicates(),
        !crate::process::space::owned_from(memory, frame, level, i).contains(frame),
        !crate::process::space::owned_from(memory, frame, level, i).contains(
            crate::memory::entry_frame(value),
        ),
        frame != crate::memory::entry_frame(value),
    ensures
        crate::process::space::owned_from(
            written(memory, at, value),
            frame,
            level,
            i,
        ).to_multiset() == crate::process::space::owned_from(
            memory,
            frame,
            level,
            i,
        ).to_multiset().insert(crate::memory::entry_frame(value)),
    decreases level, 512 - i,
{
    broadcast use vstd::multiset::group_multiset_axioms;

    let after = written(memory, at, value);
    let new = crate::memory::entry_frame(value);
    let table = table_at(memory, frame, level, addr, target)->0;
    let k = crate::memory::table_index(addr, level) as nat;
    let here = part(memory, frame, level, i);
    let rest = crate::process::space::owned_from(memory, frame, level, i + 1);
    let later = crate::process::space::owned_from(after, frame, level, i + 1);
    lemma_parts(memory, frame, level, i);
    lemma_parts(after, frame, level, i);
    lemma_apart(here, rest);
    lemma_in_both(here, rest, frame);
    lemma_in_both(here, rest, new);
    vstd::seq_lib::lemma_multiset_commutative(here, rest);
    vstd::seq_lib::lemma_multiset_commutative(part(after, frame, level, i), later);
    if level == target {
        assert(table == frame);
    } else {
        lemma_table_is_owned(memory, frame, level, addr, target);
    }
    if i < k {
        if level > target {
            lemma_owned_from(memory, frame, level, i + 1, k, table);
            lemma_owned_from(memory, frame, level, i, k, table);
        }
        assert(!here.contains(table));
        assert(frame + 8 * i != at);
        lemma_part_unchanged(memory, at, value, table, frame, level, i);
        lemma_gain(memory, at, value, frame, level, addr, target, i + 1);
        let whole = crate::process::space::owned_from(after, frame, level, i).to_multiset();
        assert(whole =~= here.to_multiset().add(rest.to_multiset()).insert(new));
    } else {
        assert(!rest.contains(table));
        assert forall|j: int| i + 1 <= j < 512 implies #[trigger] (frame + 8 * j) != at by {
            if level > target {
                assert(here.contains(table));
                assert(table != frame);
            }
        }
        lemma_unchanged(memory, at, value, table, frame, level, i + 1);
        if level == target {
            lemma_new_part(memory, at, value, frame, level, i);
        } else {
            lemma_gain_below(memory, at, value, frame, level, addr, target);
        }
        let whole = crate::process::space::owned_from(after, frame, level, i).to_multiset();
        assert(whole =~= here.to_multiset().add(rest.to_multiset()).insert(new));
    }
}

/// The entry that is written owns the frame that it names, and nothing else.
proof fn lemma_new_part(memory: Memory, at: u64, value: u64, frame: u64, level: nat, i: nat)
    requires
        is_frame(frame),
        i < 512,
        at == frame + 8 * i,
        memory(at) == 0,
        value != 0,
        level > 1 ==> value & 0x80 == 0 && is_blank(memory, crate::memory::entry_frame(value)),
        frame != crate::memory::entry_frame(value),
    ensures
        part(memory, frame, level, i).to_multiset().insert(crate::memory::entry_frame(value))
            == part(written(memory, at, value), frame, level, i).to_multiset(),
{
    broadcast use vstd::multiset::group_multiset_axioms;

    let after = written(memory, at, value);
    let new = crate::memory::entry_frame(value);
    crate::memory::lemma_entry_frame(value);
    if level > 1 {
        assert(is_blank(after, new)) by {
            assert forall|j: u64| 0 <= j < 512 implies #[trigger] after((new + 8 * j) as u64)
                == 0 by {
                assert(memory((new + 8 * j) as u64) == 0);
            }
        }
        lemma_blank_owns_nothing(after, new, (level - 1) as nat, 0);
    }
    assert(part(after, frame, level, i) =~= Seq::<u64>::empty().push(new));
    assert(part(memory, frame, level, i) =~= Seq::<u64>::empty());
    vstd::seq_lib::to_multiset_build(Seq::<u64>::empty(), new);
}

/// A link further below is a gain of the entry that leads there.
proof fn lemma_gain_below(
    memory: Memory,
    at: u64,
    value: u64,
    frame: u64,
    level: nat,
    addr: u64,
    target: nat,
)
    requires
        1 <= target < level <= 3,
        is_frame(frame),
        table_at(memory, frame, level, addr, target) matches Some(table) && is_link(
            memory,
            table,
            addr,
            target,
            at,
            value,
        ),
        part(
            memory,
            frame,
            level,
            crate::memory::table_index(addr, level) as nat,
        ).no_duplicates(),
        !part(memory, frame, level, crate::memory::table_index(addr, level) as nat).contains(
            frame,
        ),
        !part(memory, frame, level, crate::memory::table_index(addr, level) as nat).contains(
            crate::memory::entry_frame(value),
        ),
    ensures
        ({
            let i = crate::memory::table_index(addr, level) as nat;
            part(written(memory, at, value), frame, level, i).to_multiset() == part(
                memory,
                frame,
                level,
                i,
            ).to_multiset().insert(crate::memory::entry_frame(value))
        }),
    decreases level, 0int,
{
    broadcast use vstd::multiset::group_multiset_axioms;

    let i = crate::memory::table_index(addr, level) as nat;
    let after = written(memory, at, value);
    let new = crate::memory::entry_frame(value);
    let table = table_at(memory, frame, level, addr, target)->0;
    let entry = memory((frame + 8 * i) as u64);
    let child = crate::memory::entry_frame(entry);
    let lower = (level - 1) as nat;
    let below = crate::process::space::owned_from(memory, child, lower, 0);
    crate::memory::lemma_entry_frame(entry);
    lemma_table_is_owned(memory, frame, level, addr, target);
    assert(table != frame);
    assert(frame + 8 * i != at);
    assert(table_at(memory, child, lower, addr, target) == Some(table));
    assert(below.push(child) =~= below + seq![child]);
    lemma_apart(below, seq![child]);
    assert(seq![child][0] == child);
    assert(seq![child].contains(child));
    assert(!below.contains(child));
    lemma_in_pushed(below, child, new);
    lemma_gain(memory, at, value, child, lower, addr, target, 0);
    vstd::seq_lib::to_multiset_build(below, child);
    vstd::seq_lib::to_multiset_build(
        crate::process::space::owned_from(after, child, lower, 0),
        child,
    );
    assert(part(after, frame, level, i).to_multiset() =~= part(
        memory,
        frame,
        level,
        i,
    ).to_multiset().insert(new));
}

/// A new address space owns its level-4 table alone.
pub proof fn law_new_spaces_own_themselves(memory: Memory, kernel: Seq<u64>, p4: u64)
    requires
        kernel.len() == 512,
        crate::process::space::holds_table(memory, p4, kernel.update(USER_P4_INDEX as int, 0)),
    ensures
        crate::process::space::space_owned(memory, p4) == seq![p4],
{
    assert(memory((p4 + 8 * (USER_P4_INDEX as u64)) as u64) == kernel.update(
        USER_P4_INDEX as int,
        0,
    )[USER_P4_INDEX as int]);
}

/// Linking a frame into an address space, as a table or as a page, adds that
/// frame to what the space owns, and nothing else. So what a space owns is its
/// level-4 table and every frame that was linked into it.
pub proof fn law_links_are_owned(
    memory: Memory,
    p4: u64,
    addr: u64,
    target: nat,
    at: u64,
    value: u64,
)
    requires
        is_frame(p4),
        1 <= target <= 4,
        crate::process::USER_REGION_START <= addr < crate::process::USER_REGION_END,
        crate::process::space::space_owned(memory, p4).no_duplicates(),
        !crate::process::space::space_owned(memory, p4).contains(
            crate::memory::entry_frame(value),
        ),
        table_at(memory, p4, 4, addr, target) matches Some(table) && is_link(
            memory,
            table,
            addr,
            target,
            at,
            value,
        ),
    ensures
        ({
            let before = crate::process::space::space_owned(memory, p4);
            let after = crate::process::space::space_owned(written(memory, at, value), p4);
            &&& after.to_multiset() == before.to_multiset().insert(
                crate::memory::entry_frame(value),
            )
            &&& after.no_duplicates()
        }),
{
    broadcast use vstd::multiset::group_multiset_axioms;

    let new = crate::memory::entry_frame(value);
    let then = written(memory, at, value);
    let before = crate::process::space::space_owned(memory, p4);
    let after = crate::process::space::space_owned(then, p4);
    let slot = (p4 + 8 * USER_P4_INDEX) as u64;
    let entry = memory(slot);
    let p3 = crate::memory::entry_frame(entry);
    assert(crate::memory::table_index(addr, 4) == USER_P4_INDEX);
    assert(crate::memory::entry_place(p4, addr, 4) == slot);
    if target == 4 {
        lemma_in_pushed(Seq::empty(), p4, new);
        assert(before =~= Seq::<u64>::empty().push(p4));
        lemma_new_part(memory, at, value, p4, 4, USER_P4_INDEX as nat);
        assert(part(memory, p4, 4, USER_P4_INDEX as nat) =~= Seq::<u64>::empty());
        vstd::seq_lib::to_multiset_build(part(memory, p4, 4, USER_P4_INDEX as nat), p4);
        vstd::seq_lib::to_multiset_build(part(then, p4, 4, USER_P4_INDEX as nat), p4);
        assert(after.to_multiset() =~= before.to_multiset().insert(new));
    } else {
        let table = table_at(memory, p4, 4, addr, target)->0;
        let below = crate::process::space::owned(memory, p3, 3);
        crate::memory::lemma_entry_frame(entry);
        lemma_table_is_owned(memory, p4, 4, addr, target);
        assert(before =~= below + seq![p4]);
        lemma_apart(below, seq![p4]);
        assert(seq![p4][0] == p4);
        assert(seq![p4].contains(p4));
        lemma_in_pushed(below, p4, new);
        assert(table != p4);
        assert(at != slot);
        let inner = crate::process::space::owned_from(memory, p3, 3, 0);
        assert(below =~= inner + seq![p3]);
        lemma_apart(inner, seq![p3]);
        assert(seq![p3][0] == p3);
        assert(seq![p3].contains(p3));
        lemma_in_pushed(inner, p3, new);
        assert(table_at(memory, p3, 3, addr, target) == Some(table));
        lemma_gain(memory, at, value, p3, 3, addr, target, 0);
        let grown = crate::process::space::owned_from(then, p3, 3, 0);
        vstd::seq_lib::to_multiset_build(inner, p3);
        vstd::seq_lib::to_multiset_build(grown, p3);
        vstd::seq_lib::to_multiset_build(below, p4);
        vstd::seq_lib::to_multiset_build(crate::process::space::owned(then, p3, 3), p4);
        assert(after.to_multiset() =~= before.to_multiset().insert(new));
    }
    lemma_stays_distinct(before, after, new);
}

proof fn lemma_stays_distinct(before: Seq<u64>, after: Seq<u64>, new: u64)
    requires
        before.no_duplicates(),
        !before.contains(new),
        after.to_multiset() == before.to_multiset().insert(new),
    ensures
        after.no_duplicates(),
{
    broadcast use vstd::multiset::group_multiset_axioms;

    before.lemma_multiset_has_no_duplicates();
    assert forall|x: u64| after.to_multiset().contains(x) implies after.to_multiset().count(x)
        == 1 by {
        vstd::seq_lib::to_multiset_contains(before, x);
        vstd::seq_lib::to_multiset_contains(before, new);
    }
    after.lemma_multiset_has_no_duplicates_conv();
}

/// Two entries lead to the same place: both are empty, or they name the same
/// frame. The processor notes in an entry that it was used; that does not count.
pub open spec fn same_entry(a: u64, b: u64) -> bool {
    &&& a == 0 <==> b == 0
    &&& crate::memory::entry_frame(a) == crate::memory::entry_frame(b)
    &&& a & 0x80 == b & 0x80
}

/// Two memories hold the same table in a frame.
pub open spec fn same_table(a: Memory, b: Memory, frame: u64) -> bool {
    forall|i: u64|
        0 <= i < 512 ==> same_entry(
            #[trigger] a((frame + 8 * i) as u64),
            b((frame + 8 * i) as u64),
        )
}

/// The tables below a table, from its entry `i` on.
pub open spec fn tables_from(memory: Memory, frame: u64, level: nat, i: nat) -> Seq<u64>
    decreases level, (512 - i),
{
    if i >= 512 {
        Seq::empty()
    } else {
        let entry = memory((frame + 8 * i) as u64);
        let child = crate::memory::entry_frame(entry);
        let rest = tables_from(memory, frame, level, i + 1);
        if entry != 0 && level > 1 && entry & 0x80 == 0 {
            seq![child] + (tables_from(memory, child, (level - 1) as nat, 0) + rest)
        } else {
            rest
        }
    }
}

/// Two memories agree on the private tables of an address space: on its user
/// slot, and on every table below it. What its pages hold does not count.
pub open spec fn same_tables(a: Memory, b: Memory, p4: u64) -> bool {
    let entry = a((p4 + 8 * USER_P4_INDEX) as u64);
    let p3 = crate::memory::entry_frame(entry);
    &&& same_entry(entry, b((p4 + 8 * USER_P4_INDEX) as u64))
    &&& entry != 0 ==> same_table(a, b, p3) && forall|table: u64| #[trigger]
        tables_from(a, p3, 3, 0).contains(table) ==> same_table(a, b, table)
}

/// What an address space owns depends on its tables alone: writes to its pages,
/// or anywhere else, do not change it.
pub proof fn law_only_tables_count(a: Memory, b: Memory, p4: u64)
    requires
        same_tables(a, b, p4),
    ensures
        crate::process::space::space_owned(a, p4) == crate::process::space::space_owned(b, p4),
{
    let entry = a((p4 + 8 * USER_P4_INDEX) as u64);
    if entry != 0 {
        lemma_same_owned(a, b, crate::memory::entry_frame(entry), 3, 0);
    }
}

proof fn lemma_same_owned(a: Memory, b: Memory, frame: u64, level: nat, i: nat)
    requires
        same_table(a, b, frame),
        forall|table: u64| #[trigger]
            tables_from(a, frame, level, i).contains(table) ==> same_table(a, b, table),
    ensures
        crate::process::space::owned_from(a, frame, level, i) == crate::process::space::owned_from(
            b,
            frame,
            level,
            i,
        ),
    decreases level, 512 - i,
{
    if i < 512 {
        let entry = a((frame + 8 * i) as u64);
        let child = crate::memory::entry_frame(entry);
        let rest = tables_from(a, frame, level, i + 1);
        assert(same_entry(
            a((frame + 8 * (i as u64)) as u64),
            b((frame + 8 * (i as u64)) as u64),
        ));
        if entry != 0 && level > 1 && entry & 0x80 == 0 {
            let below = tables_from(a, child, (level - 1) as nat, 0);
            assert(seq![child][0] == child);
            lemma_in_both(seq![child], below + rest, child);
            assert(tables_from(a, frame, level, i).contains(child));
            assert forall|table: u64| #[trigger] below.contains(table) implies same_table(
                a,
                b,
                table,
            ) by {
                lemma_in_both(below, rest, table);
                lemma_in_both(seq![child], below + rest, table);
                assert(tables_from(a, frame, level, i).contains(table));
            }
            lemma_same_owned(a, b, child, (level - 1) as nat, 0);
        }
        assert forall|table: u64| #[trigger] rest.contains(table) implies same_table(
            a,
            b,
            table,
        ) by {
            if entry != 0 && level > 1 && entry & 0x80 == 0 {
                let below = tables_from(a, child, (level - 1) as nat, 0);
                lemma_in_both(below, rest, table);
                lemma_in_both(seq![child], below + rest, table);
            }
            assert(tables_from(a, frame, level, i).contains(table));
        }
        lemma_same_owned(a, b, frame, level, i + 1);
        lemma_parts(a, frame, level, i);
        lemma_parts(b, frame, level, i);
        assert(part(a, frame, level, i) == part(b, frame, level, i));
    }
}

} // verus!
