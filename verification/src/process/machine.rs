//! The machine that programs are run on: what becomes of its frames, and of the
//! address space that is active, as the steps of a program are carried out.

use vstd::multiset::Multiset;
use vstd::prelude::*;

use crate::fat::Volume;
use crate::memory::{FrameModel, Memory};
use crate::process::exec::{PageMap, Step, World};
use crate::process::USER_P4_INDEX;

verus! {

/// The machine as far as address spaces go.
pub ghost struct Machine {
    pub memory: Memory,
    /// The frames that are at hand.
    pub frames: FrameModel,
    /// The level-4 table of the program's address space, while it has one.
    pub space: Option<u64>,
    /// The level-4 table that is active.
    pub active: u64,
    /// The one that was active before.
    pub saved: u64,
}

/// What the address space of the program owns.
pub open spec fn owned(machine: Machine) -> Multiset<u64> {
    match machine.space {
        Some(p4) => crate::process::space::space_owned(machine.memory, p4).to_multiset(),
        None => Multiset::empty(),
    }
}

/// Nothing has happened that would matter here. Memory may have been written:
/// pages filled, entries marked as used; but the tables lead where they led.
pub open spec fn idles(before: Machine, after: Machine) -> bool {
    &&& after == Machine { memory: after.memory, ..before }
    &&& before.space matches Some(p4) ==> crate::process::growth::same_tables(
        before.memory,
        after.memory,
        p4,
    )
}

/// In `memory`, which is that of the machine but for a frame made blank, the
/// word at `at` was empty and is written, and links a frame into the address
/// space, on the way to `addr`.
pub open spec fn writes_link(
    before: Machine,
    memory: Memory,
    addr: u64,
    target: nat,
    at: u64,
    value: u64,
) -> bool {
    &&& before.space matches Some(p4)
    &&& crate::process::growth::same_tables(before.memory, memory, p4)
    &&& crate::process::growth::table_at(memory, p4, 4, addr, target) matches Some(table)
    &&& crate::process::growth::is_link(memory, table, addr, target, at, value)
}

/// Mapping the page of `addr` adds one table on the way, in a frame that is
/// taken for it.
pub open spec fn adds_table(before: Machine, after: Machine, addr: u64) -> bool {
    exists|memory: Memory, target: nat, at: u64, value: u64|
        {
            &&& #[trigger] writes_link(before, memory, addr, target, at, value)
            &&& 2 <= target <= 4
            &&& before.frames.next_frame() == Some(crate::memory::entry_frame(value))
            &&& after == Machine {
                memory: crate::process::growth::written(memory, at, value),
                frames: before.frames.taken(),
                ..before
            }
        }
}

/// Mapping the page of `addr` links its frame, in the end.
pub open spec fn adds_page(before: Machine, after: Machine, addr: u64, frame: u64) -> bool {
    exists|memory: Memory, at: u64, value: u64|
        {
            &&& #[trigger] writes_link(before, memory, addr, 1, at, value)
            &&& crate::memory::entry_frame(value) == frame
            &&& after == Machine {
                memory: crate::process::growth::written(memory, at, value),
                ..before
            }
        }
}

/// From each of these machines to the next, a table is added.
pub open spec fn adds_tables(stages: Seq<Machine>, addr: u64) -> bool {
    &&& stages.len() > 0
    &&& forall|i: int| 0 < i < stages.len() ==> adds_table(stages[i - 1], #[trigger] stages[i], addr)
}

/// The page of `addr` is mapped to a frame, or an attempt at it is made: tables
/// are added as far as they are missing and there are frames for them, and then
/// the frame is linked. Where that fails, the tables that were added stay.
pub open spec fn maps(before: Machine, after: Machine, addr: u64, frame: u64, ok: bool) -> bool {
    exists|stages: Seq<Machine>|
        {
            &&& #[trigger] adds_tables(stages, addr)
            &&& stages[0] == before
            &&& if ok {
                adds_page(stages.last(), after, addr, frame)
            } else {
                idles(stages.last(), after)
            }
        }
}

/// The machine carries out a step, which gets the answer that it has: frames
/// come from the allocator and go back to it, a new level-4 table is that of the
/// kernel with the user slot left empty, pages are mapped as [`maps`] says, and
/// what an address space owns is given back when it is torn down.
pub open spec fn carries_out(before: Machine, step: Step, after: Machine) -> bool {
    match step {
        Step::Create(ok) => {
            &&& ok == before.frames.next_frame() is Some
            &&& if ok {
                &&& after == Machine {
                    memory: after.memory,
                    frames: before.frames.taken(),
                    space: before.frames.next_frame(),
                    ..before
                }
                &&& exists|kernel: Seq<u64>|
                    kernel.len() == 512 && #[trigger] crate::process::space::holds_table(
                        after.memory,
                        before.frames.next_frame()->0,
                        kernel.update(USER_P4_INDEX as int, 0),
                    )
            } else {
                idles(before, after)
            }
        },
        Step::Allocate(frame) => {
            &&& frame == before.frames.next_frame()
            &&& idles(Machine { frames: before.frames.taken(), ..before }, after)
        },
        Step::MapPage { page, frame, ok } => maps(before, after, page.addr, frame, ok),
        Step::GiveBack(frame) => {
            idles(Machine { frames: before.frames.given_back(frame), ..before }, after)
        },
        Step::Activate => {
            &&& before.space matches Some(p4)
            &&& idles(Machine { active: p4, saved: before.active, ..before }, after)
        },
        Step::Restore => idles(Machine { active: before.saved, ..before }, after),
        Step::Destroy => {
            &&& before.space matches Some(p4)
            &&& after == Machine {
                memory: after.memory,
                frames: FrameModel {
                    free: before.frames.free + crate::process::space::space_owned(
                        before.memory,
                        p4,
                    ),
                    ..before.frames
                },
                space: None,
                ..before
            }
        },
    }
}

/// The machine just before a step is carried out, and just after.
pub ghost struct Moment {
    pub before: Machine,
    pub after: Machine,
}

/// From `now` on the machine carries out these steps, one after the other, and
/// comes to `end`.
pub open spec fn performs(
    now: Machine,
    steps: Seq<Step>,
    moments: Seq<Moment>,
    end: Machine,
) -> bool
    decreases steps.len(),
{
    &&& moments.len() == steps.len()
    &&& if steps.len() == 0 {
        idles(now, end)
    } else {
        &&& idles(now, moments[0].before)
        &&& carries_out(moments[0].before, steps[0], moments[0].after)
        &&& performs(moments[0].after, steps.drop_first(), moments.drop_first(), end)
    }
}

/// No frame is there twice, and all of them are frames of physical memory.
pub open spec fn are_frames(frames: Multiset<u64>) -> bool {
    forall|frame: u64| #[trigger]
        frames.count(frame) <= 1 && (frames.count(frame) > 0 ==> crate::process::growth::is_frame(
            frame,
        ))
}

/// The machine is ready to run a program: none is running, and the allocator is
/// sound.
pub open spec fn is_ready(machine: Machine) -> bool {
    machine.space is None && are_frames(machine.frames.at_hand())
}

/// Where the running of a program stands.
pub ghost enum Phase {
    /// There is no address space yet.
    Early,
    /// There is one.
    Made,
    /// A frame has been taken for a page.
    Holding(u64),
    /// The frame could not be used.
    Unused(u64),
    /// The address space is active.
    Inside,
    /// There is no address space any more.
    Over,
}

/// Where it stands after a step, if the step can come next.
pub open spec fn next_phase(phase: Phase, step: Step) -> Option<Phase> {
    match (phase, step) {
        (Phase::Early, Step::Create(true)) => Some(Phase::Made),
        (Phase::Early, Step::Create(false)) => Some(Phase::Over),
        (Phase::Made, Step::Allocate(Some(frame))) => Some(Phase::Holding(frame)),
        (Phase::Made, Step::Allocate(None)) => Some(Phase::Made),
        (Phase::Made, Step::Activate) => Some(Phase::Inside),
        (Phase::Made, Step::Destroy) => Some(Phase::Over),
        (Phase::Holding(held), Step::MapPage { page, frame, ok }) => if frame != held
            || page.addr < crate::process::USER_REGION_START || page.addr
            >= crate::process::USER_REGION_END {
            None
        } else if ok {
            Some(Phase::Made)
        } else {
            Some(Phase::Unused(held))
        },
        (Phase::Unused(held), Step::GiveBack(frame)) => if frame == held {
            Some(Phase::Made)
        } else {
            None
        },
        (Phase::Inside, Step::Restore) => Some(Phase::Made),
        _ => None,
    }
}

/// Where it stands after some steps.
pub open spec fn phase_after(phase: Phase, steps: Seq<Step>) -> Option<Phase>
    decreases steps.len(),
{
    if steps.len() == 0 {
        Some(phase)
    } else {
        match next_phase(phase, steps[0]) {
            None => None,
            Some(next) => phase_after(next, steps.drop_first()),
        }
    }
}

/// The frame that is neither at hand nor in the address space.
pub open spec fn in_hand(phase: Phase) -> Multiset<u64> {
    match phase {
        Phase::Holding(frame) => Multiset::singleton(frame),
        Phase::Unused(frame) => Multiset::singleton(frame),
        _ => Multiset::empty(),
    }
}

/// All the frames that there are: at hand, in the address space, or between.
pub open spec fn all_frames(machine: Machine, phase: Phase) -> Multiset<u64> {
    machine.frames.at_hand().add(owned(machine)).add(in_hand(phase))
}

/// The machine, compared with how it was at first: no frame is lost, and what
/// was active is active, or will be again.
pub open spec fn keeps_track(start: Machine, machine: Machine, phase: Phase) -> bool {
    &&& all_frames(machine, phase) == start.frames.at_hand()
    &&& (phase is Early || phase is Over) <==> machine.space is None
    &&& machine.space matches Some(p4) ==> crate::process::growth::is_frame(p4)
    &&& (if phase is Inside {
        machine.saved
    } else {
        machine.active
    }) == start.active
}

proof fn lemma_after_step(steps: Seq<Step>, step: Step, phase: Phase)
    ensures
        phase_after(phase, seq![step] + steps) == match next_phase(phase, step) {
            None => None::<Phase>,
            Some(next) => phase_after(next, steps),
        },
{
    assert((seq![step] + steps).drop_first() =~= steps);
}

proof fn lemma_running_is_in_order(entry: u64, world: World)
    ensures
        phase_after(Phase::Made, crate::process::exec::running(entry, world).steps) == Some(
            Phase::Over,
        ),
{
    let none = Seq::<Step>::empty();
    let over = seq![Step::Destroy] + none;
    let out = seq![Step::Restore] + over;
    lemma_after_step(none, Step::Destroy, Phase::Made);
    lemma_after_step(over, Step::Restore, Phase::Inside);
    lemma_after_step(out, Step::Activate, Phase::Made);
}

proof fn lemma_aborted_is_in_order(error: crate::process::ProcError, frame: u64)
    ensures
        phase_after(Phase::Made, crate::process::exec::aborted(error).steps) == Some(Phase::Over),
        phase_after(Phase::Unused(frame), crate::process::exec::unlinked(frame).steps) == Some(
            Phase::Over,
        ),
{
    let none = Seq::<Step>::empty();
    let over = seq![Step::Destroy] + none;
    lemma_after_step(none, Step::Destroy, Phase::Made);
    lemma_after_step(over, Step::GiveBack(frame), Phase::Unused(frame));
}

proof fn lemma_mapping_is_in_order(
    mounted: Option<Volume>,
    path: Seq<u8>,
    image: crate::elf::ImageModel,
    pages: Seq<PageMap>,
    world: World,
    k: nat,
)
    requires
        forall|i: int|
            0 <= i < pages.len() ==> crate::process::USER_REGION_START <= (
            #[trigger] pages[i]).addr < crate::process::USER_REGION_END,
    ensures
        phase_after(
            Phase::Made,
            crate::process::exec::mapping(mounted, path, image, pages, world, k).steps,
        ) == Some(Phase::Over),
    decreases pages.len(),
{
    reveal_with_fuel(crate::process::exec::mapping, 4);
    reveal_with_fuel(crate::process::exec::gaining, 4);
    reveal_with_fuel(crate::process::exec::linking, 4);
    lemma_running_is_in_order(image.entry, world);
    if pages.len() == 0 {
        lemma_aborted_is_in_order(crate::process::ProcError::SegmentOutOfRange, 0);
        if let Err(error) = crate::fat::file::contents(mounted, path, world.second).result {
            lemma_aborted_is_in_order(crate::process::ProcError::Fs(error), 0);
        }
    } else {
        let rest = crate::process::exec::mapping(
            mounted,
            path,
            image,
            pages.drop_first(),
            world,
            k + 1,
        );
        lemma_mapping_is_in_order(mounted, path, image, pages.drop_first(), world, k + 1);
        let aborted = crate::process::exec::aborted(crate::process::ProcError::OutOfMemory);
        match (world.frame)(k) {
            None => {
                lemma_aborted_is_in_order(crate::process::ProcError::OutOfMemory, 0);
                lemma_after_step(aborted.steps, Step::Allocate(None), Phase::Made);
            },
            Some(frame) => {
                let page = pages[0];
                let ok = (world.linked)(k);
                let map = Step::MapPage { page, frame, ok };
                let last = if ok {
                    rest.steps
                } else {
                    crate::process::exec::unlinked(frame).steps
                };
                lemma_aborted_is_in_order(crate::process::ProcError::OutOfMemory, frame);
                lemma_after_step(last, map, Phase::Holding(frame));
                lemma_after_step(seq![map] + last, Step::Allocate(Some(frame)), Phase::Made);
            },
        }
    }
}

proof fn lemma_life_is_in_order(
    active: bool,
    mounted: Option<Volume>,
    path: Seq<u8>,
    world: World,
)
    ensures
        ({
            let steps = crate::process::exec::life(active, mounted, path, world).steps;
            let phase = phase_after(Phase::Early, steps);
            phase == Some(Phase::Early) || phase == Some(Phase::Over)
        }),
{
    let file = crate::fat::file::contents(mounted, path, world.first);
    if let Ok(image) = crate::elf::parsed(crate::process::exec::header_of(file.data)) {
        if !active && file.result is Ok && crate::process::fault(image) is None {
            let pages = crate::process::exec::image_pages(image.segments, 0);
            crate::process::law_faultless_images_are_confined(image);
            assert forall|i: int| 0 <= i < pages.len() implies crate::process::USER_REGION_START
                <= (#[trigger] pages[i]).addr < crate::process::USER_REGION_END by {
                assert(pages.contains(pages[i]));
                crate::process::exec::lemma_image_pages_are_user_pages(
                    image.segments,
                    0,
                    pages[i],
                );
            }
            lemma_mapping_is_in_order(mounted, path, image, pages, world, 0);
            let rest = crate::process::exec::mapping(mounted, path, image, pages, world, 0);
            lemma_after_step(rest.steps, Step::Create(true), Phase::Early);
            lemma_after_step(Seq::<Step>::empty(), Step::Create(false), Phase::Early);
        }
    }
}

proof fn lemma_idles(before: Machine, after: Machine)
    requires
        idles(before, after),
    ensures
        owned(after) == owned(before),
{
    if let Some(p4) = before.space {
        crate::process::growth::law_only_tables_count(before.memory, after.memory, p4);
    }
}

/// A link adds its frame, which is not in the address space yet, to what the
/// space owns.
proof fn lemma_link_is_owned(
    before: Machine,
    memory: Memory,
    addr: u64,
    target: nat,
    at: u64,
    value: u64,
    rest: Multiset<u64>,
)
    requires
        writes_link(before, memory, addr, target, at, value),
        1 <= target <= 4,
        crate::process::USER_REGION_START <= addr < crate::process::USER_REGION_END,
        before.space matches Some(p4) && crate::process::growth::is_frame(p4),
        are_frames(owned(before).add(rest)),
        rest.count(crate::memory::entry_frame(value)) > 0,
    ensures
        owned(Machine { memory: crate::process::growth::written(memory, at, value), ..before })
            == owned(before).insert(crate::memory::entry_frame(value)),
{
    broadcast use vstd::multiset::group_multiset_axioms;

    let p4 = before.space->0;
    let frame = crate::memory::entry_frame(value);
    let held = crate::process::space::space_owned(memory, p4);
    crate::process::growth::law_only_tables_count(before.memory, memory, p4);
    assert forall|f: u64| held.to_multiset().contains(f) implies held.to_multiset().count(f)
        == 1 by {
        assert(owned(before).add(rest).count(f) <= 1);
    }
    held.lemma_multiset_has_no_duplicates_conv();
    assert(owned(before).add(rest).count(frame) <= 1);
    vstd::seq_lib::to_multiset_contains(held, frame);
    crate::process::growth::law_links_are_owned(memory, p4, addr, target, at, value);
}

proof fn lemma_table_is_owned(before: Machine, after: Machine, addr: u64, phase: Phase)
    requires
        adds_table(before, after, addr),
        crate::process::USER_REGION_START <= addr < crate::process::USER_REGION_END,
        before.space matches Some(p4) && crate::process::growth::is_frame(p4),
        are_frames(all_frames(before, phase)),
    ensures
        all_frames(after, phase) == all_frames(before, phase),
        after == (Machine { memory: after.memory, frames: after.frames, ..before }),
{
    broadcast use vstd::multiset::group_multiset_axioms;

    let (memory, target, at, value) = choose|memory: Memory, target: nat, at: u64, value: u64|
        {
            &&& #[trigger] writes_link(before, memory, addr, target, at, value)
            &&& 2 <= target <= 4
            &&& before.frames.next_frame() == Some(crate::memory::entry_frame(value))
            &&& after == Machine {
                memory: crate::process::growth::written(memory, at, value),
                frames: before.frames.taken(),
                ..before
            }
        };
    let frame = crate::memory::entry_frame(value);
    let rest = before.frames.at_hand().add(in_hand(phase));
    crate::memory::lemma_take_counts(before.frames);
    assert(owned(before).add(rest) =~= all_frames(before, phase));
    assert(rest.count(frame) > 0);
    lemma_link_is_owned(before, memory, addr, target, at, value, rest);
    assert(owned(after) == owned(before).insert(frame));
    assert(all_frames(after, phase) =~= all_frames(before, phase));
}

proof fn lemma_tables_are_owned(stages: Seq<Machine>, addr: u64, phase: Phase)
    requires
        adds_tables(stages, addr),
        crate::process::USER_REGION_START <= addr < crate::process::USER_REGION_END,
        stages[0].space matches Some(p4) && crate::process::growth::is_frame(p4),
        are_frames(all_frames(stages[0], phase)),
    ensures
        all_frames(stages.last(), phase) == all_frames(stages[0], phase),
        stages.last() == (Machine {
            memory: stages.last().memory,
            frames: stages.last().frames,
            ..stages[0]
        }),
    decreases stages.len(),
{
    if stages.len() > 1 {
        let earlier = stages.drop_last();
        assert(adds_tables(earlier, addr));
        lemma_tables_are_owned(earlier, addr, phase);
        let n = stages.len() - 1;
        assert(adds_table(stages[n - 1], stages[n], addr));
        lemma_table_is_owned(stages[n - 1], stages[n], addr, phase);
    }
}

proof fn lemma_map_keeps_track(
    start: Machine,
    before: Machine,
    after: Machine,
    addr: u64,
    frame: u64,
    ok: bool,
)
    requires
        are_frames(start.frames.at_hand()),
        keeps_track(start, before, Phase::Holding(frame)),
        maps(before, after, addr, frame, ok),
        crate::process::USER_REGION_START <= addr < crate::process::USER_REGION_END,
    ensures
        ok ==> keeps_track(start, after, Phase::Made),
        !ok ==> keeps_track(start, after, Phase::Unused(frame)),
{
    broadcast use vstd::multiset::group_multiset_axioms;

    let phase = Phase::Holding(frame);
    let stages = choose|stages: Seq<Machine>|
        {
            &&& #[trigger] adds_tables(stages, addr)
            &&& stages[0] == before
            &&& if ok {
                adds_page(stages.last(), after, addr, frame)
            } else {
                idles(stages.last(), after)
            }
        };
    lemma_tables_are_owned(stages, addr, phase);
    let grown = stages.last();
    if ok {
        let (memory, at, value) = choose|memory: Memory, at: u64, value: u64|
            {
                &&& #[trigger] writes_link(grown, memory, addr, 1, at, value)
                &&& crate::memory::entry_frame(value) == frame
                &&& after == Machine {
                    memory: crate::process::growth::written(memory, at, value),
                    ..grown
                }
            };
        let rest = grown.frames.at_hand().add(in_hand(phase));
        assert(owned(grown).add(rest) =~= all_frames(grown, phase));
        lemma_link_is_owned(grown, memory, addr, 1, at, value, rest);
        assert(all_frames(after, Phase::Made) =~= all_frames(grown, phase));
    } else {
        lemma_idles(grown, after);
    }
}

proof fn lemma_create_keeps_track(start: Machine, before: Machine, after: Machine)
    requires
        are_frames(start.frames.at_hand()),
        keeps_track(start, before, Phase::Early),
        carries_out(before, Step::Create(true), after),
    ensures
        keeps_track(start, after, Phase::Made),
{
    broadcast use vstd::multiset::group_multiset_axioms;

    let p4 = before.frames.next_frame()->0;
    let kernel = choose|kernel: Seq<u64>|
        kernel.len() == 512 && #[trigger] crate::process::space::holds_table(
            after.memory,
            p4,
            kernel.update(USER_P4_INDEX as int, 0),
        );
    crate::process::growth::law_new_spaces_own_themselves(after.memory, kernel, p4);
    crate::memory::lemma_take_counts(before.frames);
    lemma_one(p4);
    assert(all_frames(before, Phase::Early).count(p4) > 0);
    assert(start.frames.at_hand().count(p4) > 0);
    assert(all_frames(after, Phase::Made) =~= all_frames(before, Phase::Early));
}

proof fn lemma_one(frame: u64)
    ensures
        seq![frame].to_multiset() == Multiset::singleton(frame),
{
    broadcast use vstd::multiset::group_multiset_axioms;

    vstd::seq_lib::to_multiset_len(Seq::<u64>::empty());
    vstd::multiset::lemma_multiset_empty_len(Seq::<u64>::empty().to_multiset());
    vstd::seq_lib::to_multiset_build(Seq::<u64>::empty(), frame);
    assert(Seq::<u64>::empty().push(frame) =~= seq![frame]);
    assert(seq![frame].to_multiset() =~= Multiset::singleton(frame));
}

proof fn lemma_step_keeps_track(
    start: Machine,
    before: Machine,
    step: Step,
    after: Machine,
    phase: Phase,
)
    requires
        are_frames(start.frames.at_hand()),
        keeps_track(start, before, phase),
        carries_out(before, step, after),
        next_phase(phase, step) is Some,
    ensures
        keeps_track(start, after, next_phase(phase, step)->0),
{
    broadcast use vstd::multiset::group_multiset_axioms;

    let next = next_phase(phase, step)->0;
    match step {
        Step::Create(ok) => {
            if ok {
                lemma_create_keeps_track(start, before, after);
            } else {
                lemma_idles(before, after);
            }
        },
        Step::Allocate(frame) => {
            let taken = Machine { frames: before.frames.taken(), ..before };
            lemma_idles(taken, after);
            crate::memory::lemma_take_counts(before.frames);
            assert(all_frames(after, next) =~= all_frames(before, phase));
        },
        Step::MapPage { page, frame, ok } => {
            lemma_map_keeps_track(start, before, after, page.addr, frame, ok);
        },
        Step::GiveBack(frame) => {
            let given = Machine { frames: before.frames.given_back(frame), ..before };
            lemma_idles(given, after);
            vstd::seq_lib::to_multiset_build(before.frames.free, frame);
            assert(all_frames(after, next) =~= all_frames(before, phase));
        },
        Step::Activate => {
            let p4 = before.space->0;
            lemma_idles(Machine { active: p4, saved: before.active, ..before }, after);
        },
        Step::Restore => {
            lemma_idles(Machine { active: before.saved, ..before }, after);
        },
        Step::Destroy => {
            let p4 = before.space->0;
            let given = crate::process::space::space_owned(before.memory, p4);
            vstd::seq_lib::lemma_multiset_commutative(before.frames.free, given);
            assert(all_frames(after, next) =~= all_frames(before, phase));
        },
    }
}

proof fn lemma_steps_keep_track(
    start: Machine,
    now: Machine,
    steps: Seq<Step>,
    moments: Seq<Moment>,
    end: Machine,
    phase: Phase,
)
    requires
        are_frames(start.frames.at_hand()),
        keeps_track(start, now, phase),
        performs(now, steps, moments, end),
        phase_after(phase, steps) is Some,
    ensures
        keeps_track(start, end, phase_after(phase, steps)->0),
    decreases steps.len(),
{
    if steps.len() == 0 {
        lemma_idles(now, end);
    } else {
        let moment = moments[0];
        let next = next_phase(phase, steps[0])->0;
        lemma_idles(now, moment.before);
        lemma_step_keeps_track(start, moment.before, steps[0], moment.after, phase);
        lemma_steps_keep_track(
            start,
            moment.after,
            steps.drop_first(),
            moments.drop_first(),
            end,
            next,
        );
    }
}

/// Running a program leaves the machine as it was. Whatever becomes of the
/// program, and whether or not there are frames enough for it: in the end the
/// frames at hand are the ones that were at hand before, so every one that was
/// taken on the way is free again; the program's address space is gone; and the
/// level-4 table is active that was active before.
pub proof fn law_frames_come_back(
    active: bool,
    mounted: Option<Volume>,
    path: Seq<u8>,
    world: World,
    start: Machine,
    moments: Seq<Moment>,
    end: Machine,
)
    requires
        is_ready(start),
        performs(
            start,
            crate::process::exec::life(active, mounted, path, world).steps,
            moments,
            end,
        ),
    ensures
        end.frames.at_hand() == start.frames.at_hand(),
        end.active == start.active,
        is_ready(end),
{
    broadcast use vstd::multiset::group_multiset_axioms;

    let steps = crate::process::exec::life(active, mounted, path, world).steps;
    lemma_life_is_in_order(active, mounted, path, world);
    let phase = phase_after(Phase::Early, steps)->0;
    assert(all_frames(start, Phase::Early) =~= start.frames.at_hand());
    lemma_steps_keep_track(start, start, steps, moments, end, Phase::Early);
    assert(all_frames(end, phase) =~= end.frames.at_hand());
}

/// A program that is run on the machine, and how the machine is in the end.
pub ghost struct Run {
    pub active: bool,
    pub mounted: Option<Volume>,
    pub path: Seq<u8>,
    pub world: World,
    pub moments: Seq<Moment>,
    pub end: Machine,
}

/// The machine runs these programs, one after the other.
pub open spec fn runs_all(start: Machine, runs: Seq<Run>) -> bool
    decreases runs.len(),
{
    runs.len() > 0 ==> {
        let run = runs[0];
        &&& performs(
            start,
            crate::process::exec::life(run.active, run.mounted, run.path, run.world).steps,
            run.moments,
            run.end,
        )
        &&& runs_all(run.end, runs.drop_first())
    }
}

/// Programs can be run any number of times: after each of them the same frames
/// are at hand as in the beginning, and the same level-4 table is active.
pub proof fn law_programs_can_be_repeated(start: Machine, runs: Seq<Run>)
    requires
        is_ready(start),
        runs_all(start, runs),
    ensures
        forall|i: int|
            0 <= i < runs.len() ==> (#[trigger] runs[i]).end.frames.at_hand()
                == start.frames.at_hand() && runs[i].end.active == start.active && is_ready(
                runs[i].end,
            ),
    decreases runs.len(),
{
    if runs.len() > 0 {
        let run = runs[0];
        law_frames_come_back(
            run.active,
            run.mounted,
            run.path,
            run.world,
            start,
            run.moments,
            run.end,
        );
        law_programs_can_be_repeated(run.end, runs.drop_first());
        assert forall|i: int| 0 <= i < runs.len() implies (
        #[trigger] runs[i]).end.frames.at_hand() == start.frames.at_hand()
            && runs[i].end.active == start.active && is_ready(runs[i].end) by {
            if i > 0 {
                assert(runs.drop_first()[i - 1] == runs[i]);
            }
        }
    }
}

/// The allocator is sound at first: where the usable regions of the memory map
/// lie apart, no frame is at hand twice, and each one is a frame of physical
/// memory.
pub proof fn law_memory_maps_are_ready(regions: Seq<crate::memory::Region>)
    requires
        crate::memory::is_memory_map(regions),
        crate::memory::are_apart(regions),
    ensures
        are_frames(
            (FrameModel {
                fresh: crate::memory::usable_frames(regions),
                free: Seq::empty(),
            }).at_hand(),
        ),
{
    broadcast use vstd::multiset::group_multiset_axioms;

    let fresh = crate::memory::usable_frames(regions);
    let frames = FrameModel { fresh, free: Seq::empty() };
    crate::memory::law_frames_are_distinct_at_first(regions);
    fresh.lemma_multiset_has_no_duplicates();
    vstd::seq_lib::to_multiset_len(frames.free);
    vstd::multiset::lemma_multiset_empty_len(frames.free.to_multiset());
    assert forall|frame: u64| #[trigger]
        frames.at_hand().count(frame) <= 1 && (frames.at_hand().count(frame) > 0
            ==> crate::process::growth::is_frame(frame)) by {
        if frames.at_hand().count(frame) > 0 {
            assert(fresh.to_multiset().contains(frame));
            vstd::seq_lib::to_multiset_contains(fresh, frame);
            let n = choose|n: int| 0 <= n < fresh.len() && fresh[n] == frame;
            let k = crate::memory::lemma_frame_in_region(regions, n);
            assert(regions[k].end <= 0x10_0000_0000_0000);
        }
    }
}

} // verus!
