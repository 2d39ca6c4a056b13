//! Directory entries: 8.3 names, and the entries of one sector.

use vstd::prelude::*;
use vstd::string::StringSliceAdditionalSpecFns;

use crate::ata::SECTOR_SIZE;
use crate::bytes::{u16_at, u32_at};
use crate::fat::chain::Dir;
use crate::fat::FsError;
use crate::text::display_name;

verus! {

const ATTR_VOLUME_ID: u8 = 0x08;
const ATTR_DIRECTORY: u8 = 0x10;
/// A directory entry with these bits set is a long-filename fragment, not a
/// real entry.
const ATTR_LONG_NAME: u8 = 0x0F;

/// Bytes of one directory entry.
pub const DIR_ENTRY_SIZE: usize = 32;
/// Directory entries in one sector.
pub const ENTRIES_PER_SECTOR: usize = 16;
/// First byte of an entry that was deleted.
const ENTRY_FREE: u8 = 0xE5;

/// One 8.3 directory entry, name already formatted.
#[derive(Debug, Clone, Copy, PartialEq, Eq)]
pub struct Entry {
    pub name: [u8; 12],
    pub name_len: usize,
    pub attr: u8,
    pub cluster: u16,
    pub size: u32,
}

/// What an [`Entry`] stands for.
#[verifier::ext_equal]
pub ghost struct EntryModel {
    pub name: Seq<u8>,
    pub attr: u8,
    pub cluster: u16,
    pub size: u32,
}

impl View for Entry {
    type V = EntryModel;

    open spec fn view(&self) -> EntryModel {
        EntryModel {
            name: self.name@.take(self.name_len as int),
            attr: self.attr,
            cluster: self.cluster,
            size: self.size,
        }
    }
}

impl EntryModel {
    /// The directory attribute is set.
    pub open spec fn is_dir(self) -> bool {
        self.attr & 0x10 != 0
    }
}

impl Entry {
    /// The name fits its storage.
    pub open spec fn wf(&self) -> bool {
        self.name_len <= 12
    }

    /// The name as text; a name that is not UTF-8 reads as `?`.
    pub fn name(&self) -> (name: &str)
        requires
            self.wf(),
        ensures
            name.spec_bytes() == crate::text::shown(self@.name),
    {
        display_name(vstd::slice::slice_subrange(self.name.as_slice(), 0, self.name_len))
    }

    /// Whether the entry is a directory.
    pub fn is_dir(&self) -> (answer: bool)
        ensures
            answer == self@.is_dir(),
    {
        self.attr & ATTR_DIRECTORY != 0
    }

    /// Where this directory's entries live.
    pub fn location(&self) -> (result: Result<Dir, FsError>)
        ensures
            result == location(self@),
    {
        if !self.is_dir() {
            Err(FsError::NotADirectory)
        } else if self.cluster == 0 {
            // A ".." entry in a top-level directory points at cluster 0,
            // which is the spec's way of naming the root.
            Ok(Dir::Root)
        } else {
            Ok(Dir::Cluster(self.cluster))
        }
    }
}

/// Where a directory's entries live. Cluster 0 names the root; a file has no
/// entries.
pub open spec fn location(entry: EntryModel) -> Result<Dir, FsError> {
    if !entry.is_dir() {
        Err(FsError::NotADirectory)
    } else if entry.cluster == 0 {
        Ok(Dir::Root)
    } else {
        Ok(Dir::Cluster(entry.cluster))
    }
}

/// Index of the first space at or after `i`, or the length.
pub open spec fn first_space(s: Seq<u8>, i: int) -> int
    decreases s.len() - i,
{
    if i < 0 || i >= s.len() || s[i] == 0x20 {
        i
    } else {
        first_space(s, i + 1)
    }
}

/// A padded field without its padding.
pub open spec fn unpadded(s: Seq<u8>) -> Seq<u8> {
    s.take(first_space(s, 0))
}

/// The conventional form of a padded 8.3 name: `"HELLO   TXT"` reads as
/// `"HELLO.TXT"`, and a name without an extension has no dot.
pub open spec fn short_name(raw: Seq<u8>) -> Seq<u8> {
    let base = unpadded(raw.subrange(0, 8));
    let ext = unpadded(raw.subrange(8, 11));
    if ext.len() == 0 {
        base
    } else {
        base.push(0x2E) + ext
    }
}

/// The entry that 32 raw bytes hold.
pub open spec fn entry_of(raw: Seq<u8>) -> EntryModel {
    EntryModel {
        name: short_name(raw),
        attr: raw[11],
        cluster: crate::bytes::le16(raw, 26) as u16,
        size: crate::bytes::le32(raw, 28) as u32,
    }
}

proof fn lemma_first_space_bounds(s: Seq<u8>, i: int)
    requires
        0 <= i <= s.len(),
    ensures
        i <= first_space(s, i) <= s.len(),
    decreases s.len() - i,
{
    if i < s.len() && s[i] != 0x20 {
        lemma_first_space_bounds(s, i + 1);
    }
}

/// Turns a raw 32-byte directory entry into an `Entry`, formatting the padded
/// 8.3 name (`"HELLO   TXT"`) into a conventional one (`"HELLO.TXT"`).
pub fn parse_entry(raw: &[u8]) -> (entry: Entry)
    requires
        raw@.len() == DIR_ENTRY_SIZE,
    ensures
        entry.wf(),
        entry@ == entry_of(raw@),
{
    let mut name: [u8; 12] = [0u8; 12];
    let mut len: usize = 0;

    let ghost base = raw@.subrange(0, 8);
    let ghost ext = raw@.subrange(8, 11);
    proof {
        lemma_first_space_bounds(base, 0);
        lemma_first_space_bounds(ext, 0);
    }
    while len < 8 && raw[len] != 0x20
        invariant
            len <= 8,
            raw@.len() == 32,
            base == raw@.subrange(0, 8),
            first_space(base, 0) == first_space(base, len as int),
            name@.take(len as int) =~= base.take(len as int),
        decreases 8 - len,
    {
        let ghost before = name@;
        name[len] = raw[len];
        len = len + 1;
        assert(name@.take(len as int) =~= before.take(len - 1).push(raw@[len - 1]));
        assert(base.take(len as int) =~= base.take(len - 1).push(raw@[len - 1]));
    }
    assert(len == first_space(base, 0));

    let mut ext_len: usize = 0;
    while ext_len < 3 && raw[8 + ext_len] != 0x20
        invariant
            ext_len <= 3,
            raw@.len() == 32,
            ext == raw@.subrange(8, 11),
            first_space(ext, 0) == first_space(ext, ext_len as int),
        decreases 3 - ext_len,
    {
        ext_len = ext_len + 1;
    }
    assert(ext_len == first_space(ext, 0));
    let ghost base_name = base.take(len as int);
    if ext_len > 0 {
        let dot: usize = len;
        let ghost before = name@;
        name[len] = 0x2E;
        len = len + 1;
        assert(name@.take(len as int) =~= base_name.push(0x2E) + ext.take(0));
        let mut i: usize = 0;
        while i < ext_len
            invariant
                i <= ext_len <= 3,
                dot <= 8,
                len == dot + 1 + i,
                raw@.len() == 32,
                ext == raw@.subrange(8, 11),
                name@.take(len as int) =~= base_name.push(0x2E) + ext.take(i as int),
            decreases ext_len - i,
        {
            let ghost before = name@;
            name[len] = raw[8 + i];
            i = i + 1;
            len = len + 1;
            assert(name@.take(len as int) =~= before.take(len - 1).push(ext[i - 1]));
            assert(ext.take(i as int) =~= ext.take(i - 1).push(ext[i - 1]));
        }
    }
    let entry = Entry {
        name,
        name_len: len,
        attr: raw[11],
        cluster: u16_at(raw, 26),
        size: u32_at(raw, 28),
    };
    assert(entry@ =~= entry_of(raw@));
    entry
}

/// ASCII lower case.
pub open spec fn lower(b: u8) -> u8 {
    if 0x41 <= b <= 0x5A {
        (b + 32) as u8
    } else {
        b
    }
}

/// The two byte strings are the same but for ASCII case.
pub open spec fn same_but_for_case(a: Seq<u8>, b: Seq<u8>) -> bool {
    a.len() == b.len() && forall|i: int| 0 <= i < a.len() ==> lower(#[trigger] a[i]) == lower(b[i])
}

fn ascii_lower(b: u8) -> (r: u8)
    ensures
        r == lower(b),
{
    if 0x41 <= b && b <= 0x5A {
        b + 32
    } else {
        b
    }
}

/// Compares two names without regard to ASCII case.
pub fn eq_ignore_case(a: &[u8], b: &[u8]) -> (answer: bool)
    ensures
        answer == same_but_for_case(a@, b@),
{
    if a.len() != b.len() {
        return false;
    }
    let mut i: usize = 0;
    while i < a.len()
        invariant
            i <= a.len(),
            a.len() == b.len(),
            forall|k: int| 0 <= k < i ==> lower(#[trigger] a@[k]) == lower(b@[k]),
        decreases a.len() - i,
    {
        if ascii_lower(a[i]) != ascii_lower(b[i]) {
            assert(lower(a@[i as int]) != lower(b@[i as int]));
            return false;
        }
        i = i + 1;
    }
    true
}

/// The entry goes by `name`.
pub open spec fn goes_by(entry: EntryModel, name: Seq<u8>) -> bool {
    same_but_for_case(crate::text::shown(entry.name), name)
}

/// The raw bytes of slot `i` of a directory sector.
pub open spec fn slot(sector: Seq<u8>, i: int) -> Seq<u8> {
    sector.subrange(32 * i, 32 * i + 32)
}

/// No entry lies in this slot or beyond it, ever.
pub open spec fn is_end(raw: Seq<u8>) -> bool {
    raw[0] == 0
}

/// The slot holds a file or a directory: it is not deleted, not a fragment of
/// a long name, and not the volume label.
pub open spec fn is_entry(raw: Seq<u8>) -> bool {
    &&& raw[0] != 0xE5
    &&& raw[11] & 0x0F != 0x0F
    &&& raw[11] & 0x08 == 0
}

/// The entries of a directory sector from slot `i` up to the end marker.
pub open spec fn entries_from(sector: Seq<u8>, i: int) -> Seq<EntryModel>
    decreases 16 - i,
{
    if i < 0 || i >= 16 || is_end(slot(sector, i)) {
        Seq::empty()
    } else if is_entry(slot(sector, i)) {
        seq![entry_of(slot(sector, i))] + entries_from(sector, i + 1)
    } else {
        entries_from(sector, i + 1)
    }
}

/// The end marker lies in slot `i` or beyond.
pub open spec fn ends_from(sector: Seq<u8>, i: int) -> bool
    decreases 16 - i,
{
    0 <= i < 16 && (is_end(slot(sector, i)) || ends_from(sector, i + 1))
}

/// The first of `entries` that goes by `name`.
pub open spec fn first_named(entries: Seq<EntryModel>, name: Seq<u8>) -> Option<EntryModel>
    decreases entries.len(),
{
    if entries.len() == 0 {
        None
    } else if goes_by(entries[0], name) {
        Some(entries[0])
    } else {
        first_named(entries.drop_first(), name)
    }
}

/// What a scan of a directory sector comes upon next.
#[derive(Debug, Clone, Copy, PartialEq, Eq)]
pub enum Found {
    /// An entry; the scan goes on at slot `next`.
    Entry { entry: Entry, next: usize },
    /// The end of the sector: the directory may go on in another one.
    SectorEnd,
    /// The end-of-directory marker.
    DirectoryEnd,
}

/// Finds the next entry of a directory sector, from slot `from` on.
pub fn scan_sector(sector: &[u8; SECTOR_SIZE], from: usize) -> (found: Found)
    requires
        from <= ENTRIES_PER_SECTOR,
    ensures
        match found {
            Found::Entry { entry, next } => {
                &&& from < next <= ENTRIES_PER_SECTOR
                &&& entry.wf()
                &&& entries_from(sector@, from as int) == seq![entry@] + entries_from(
                    sector@,
                    next as int,
                )
                &&& ends_from(sector@, from as int) == ends_from(sector@, next as int)
            },
            Found::SectorEnd => entries_from(sector@, from as int) == Seq::<EntryModel>::empty()
                && !ends_from(sector@, from as int),
            Found::DirectoryEnd => entries_from(sector@, from as int) == Seq::<EntryModel>::empty()
                && ends_from(sector@, from as int),
        },
{
    let mut i: usize = from;
    while i < ENTRIES_PER_SECTOR
        invariant
            from <= i <= 16,
            entries_from(sector@, from as int) == entries_from(sector@, i as int),
            ends_from(sector@, from as int) == ends_from(sector@, i as int),
        decreases 16 - i,
    {
        let raw: &[u8] = vstd::slice::slice_subrange(
            sector.as_slice(),
            DIR_ENTRY_SIZE * i,
            DIR_ENTRY_SIZE * i + DIR_ENTRY_SIZE,
        );
        assert(raw@ == slot(sector@, i as int));
        if raw[0] == 0 {
            return Found::DirectoryEnd; // no entries beyond this point, ever
        }
        i = i + 1;
        let attr: u8 = raw[11];
        if raw[0] != ENTRY_FREE && attr & ATTR_LONG_NAME != ATTR_LONG_NAME && attr
            & ATTR_VOLUME_ID == 0 {
            return Found::Entry { entry: parse_entry(raw), next: i };
        }
    }
    Found::SectorEnd
}

/// Looks for a name in a directory sector. `None` with `true` means that the
/// directory ends here.
pub fn find_in_sector(sector: &[u8; SECTOR_SIZE], name: &[u8]) -> (result: (Option<Entry>, bool))
    ensures
        match first_named(entries_from(sector@, 0), name@) {
            Some(entry) => result.0 matches Some(found) && found.wf() && found@ == entry,
            None => result.0 is None && result.1 == ends_from(sector@, 0),
        },
{
    let mut from: usize = 0;
    loop
        invariant
            from <= 16,
            first_named(entries_from(sector@, 0), name@) == first_named(
                entries_from(sector@, from as int),
                name@,
            ),
            ends_from(sector@, 0) == ends_from(sector@, from as int),
        decreases 16 - from,
    {
        match scan_sector(sector, from) {
            Found::Entry { entry, next } => {
                let ghost rest = entries_from(sector@, next as int);
                assert((seq![entry@] + rest).drop_first() =~= rest);
                if eq_ignore_case(entry.name().as_bytes(), name) {
                    return (Some(entry), false);
                }
                from = next;
            },
            Found::SectorEnd => {
                return (None, false);
            },
            Found::DirectoryEnd => {
                return (None, true);
            },
        }
    }
}

/// Slot `i` of a directory sector holds a file or a directory: it was not deleted
/// and is no volume label, which bit 3 of the attributes marks (fragments of long
/// names have it set too). Whether it is read-only, hidden, a system file or to be
/// archived does not matter.
pub open spec fn is_in_use(sector: Seq<u8>, i: int) -> bool {
    sector[32 * i] != 0xE5 && sector[32 * i + 11] / 8 % 2 == 0
}

/// The directory goes on through slot `i`: no slot up to it is the end marker.
pub open spec fn goes_through(sector: Seq<u8>, i: int) -> bool {
    forall|k: int| 0 <= k <= i ==> #[trigger] sector[32 * k] != 0
}

/// The entry is the one that slot `i` holds: its attributes, first cluster and
/// size are the ones stored there, and so is its name.
pub open spec fn is_stored_in(sector: Seq<u8>, i: int, entry: EntryModel) -> bool {
    &&& entry.attr == sector[32 * i + 11]
    &&& crate::bytes::stores16(sector, 32 * i + 26, entry.cluster)
    &&& crate::bytes::stores32(sector, 32 * i + 28, entry.size)
    &&& entry.name == short_name(sector.subrange(32 * i, 32 * i + 32))
}

/// The entries are those of the slots numbered `which`, in their order; and these
/// are all the slots from `from` on that are in use before the end marker.
pub open spec fn are_listed(
    sector: Seq<u8>,
    from: int,
    which: Seq<int>,
    entries: Seq<EntryModel>,
) -> bool {
    &&& which.len() == entries.len()
    &&& forall|i: int, j: int| 0 <= i < j < which.len() ==> which[i] < which[j]
    &&& forall|j: int|
        0 <= j < which.len() ==> {
            &&& from <= #[trigger] which[j] < 16
            &&& is_in_use(sector, which[j])
            &&& forall|k: int| from <= k <= which[j] ==> #[trigger] sector[32 * k] != 0
            &&& is_stored_in(sector, which[j], entries[j])
        }
    &&& forall|i: int|
        from <= i < 16 && #[trigger] is_in_use(sector, i) && (forall|k: int|
            from <= k <= i ==> #[trigger] sector[32 * k] != 0) ==> which.contains(i)
}

/// A volume label has bit 3 of its attributes set, and so has a fragment of a long
/// name, which has the lowest four bits set.
proof fn lemma_label_bit(attr: u8)
    ensures
        attr & 0x0F != 0x0F && attr & 0x08 == 0 <==> attr / 8 % 2 == 0,
        attr & 0x10 != 0 <==> attr / 16 % 2 == 1,
{
    assert(attr & 0x0F != 0x0F && attr & 0x08 == 0 <==> attr / 8 % 2 == 0) by (bit_vector);
    assert(attr & 0x10 != 0 <==> attr / 16 % 2 == 1) by (bit_vector);
}

proof fn lemma_slot(sector: Seq<u8>, i: int)
    requires
        sector.len() == 512,
        0 <= i < 16,
    ensures
        is_end(slot(sector, i)) <==> sector[32 * i] == 0,
        is_entry(slot(sector, i)) <==> is_in_use(sector, i),
        is_stored_in(sector, i, entry_of(slot(sector, i))),
{
    let raw = slot(sector, i);
    assert forall|k: int| 0 <= k < 32 implies #[trigger] raw[k] == sector[32 * i + k] by {}
    lemma_label_bit(raw[11]);
    let entry = entry_of(raw);
    crate::bytes::law_numbers_are_read_as_stored(raw, 26, entry.cluster, 0, 0);
    crate::bytes::law_numbers_are_read_as_stored(raw, 28, 0, entry.size, 0);
}

proof fn lemma_listed(sector: Seq<u8>, from: int) -> (which: Seq<int>)
    requires
        sector.len() == 512,
        0 <= from <= 16,
    ensures
        are_listed(sector, from, which, entries_from(sector, from)),
        ends_from(sector, from) <==> exists|i: int|
            from <= i < 16 && #[trigger] sector[32 * i] == 0,
    decreases 16 - from,
{
    if from == 16 {
        Seq::empty()
    } else {
        lemma_slot(sector, from);
        let rest = lemma_listed(sector, from + 1);
        let entries = entries_from(sector, from);
        let others = entries_from(sector, from + 1);
        if is_end(slot(sector, from)) {
            assert(sector[32 * from] == 0);
            Seq::empty()
        } else {
            let which = if is_in_use(sector, from) {
                seq![from] + rest
            } else {
                rest
            };
            let offset: int = if is_in_use(sector, from) {
                1
            } else {
                0
            };
            assert forall|j: int| 0 <= j < which.len() implies {
                &&& from <= #[trigger] which[j] < 16
                &&& is_in_use(sector, which[j])
                &&& forall|k: int| from <= k <= which[j] ==> #[trigger] sector[32 * k] != 0
                &&& is_stored_in(sector, which[j], entries[j])
            } by {
                if j >= offset {
                    assert(which[j] == rest[j - offset]);
                    assert(entries[j] == others[j - offset]);
                    assert(from + 1 <= rest[j - offset]);
                }
            }
            assert forall|i: int, j: int| 0 <= i < j < which.len() implies which[i] < which[j] by {
                if offset == 0 || i > 0 {
                    assert(rest[i - offset] < rest[j - offset]);
                } else {
                    assert(from + 1 <= rest[j - offset]);
                }
            }
            assert forall|i: int|
                from <= i < 16 && #[trigger] is_in_use(sector, i) && (forall|k: int|
                    from <= k <= i ==> #[trigger] sector[32 * k] != 0) implies which.contains(
                i,
            ) by {
                if i == from {
                    assert(which[0] == i);
                } else {
                    assert(forall|k: int| from + 1 <= k <= i ==> #[trigger] sector[32 * k] != 0);
                    assert(rest.contains(i));
                    let j = choose|j: int| 0 <= j < rest.len() && rest[j] == i;
                    assert(which[j + offset] == i);
                }
            }
            which
        }
    }
}

/// A directory sector lists every slot that is in use before the end marker, and
/// nothing else, in the order of the slots: a file is not left out for being
/// read-only, hidden, or a system file. The directory ends in the sector exactly
/// where the first byte of one of its slots is 0.
pub proof fn law_every_slot_in_use_is_listed(sector: Seq<u8>)
    requires
        sector.len() == 512,
    ensures
        exists|which: Seq<int>| #[trigger]
            are_listed(sector, 0, which, entries_from(sector, 0)),
        forall|i: int|
            0 <= i < 16 && #[trigger] is_in_use(sector, i) && goes_through(sector, i) ==> exists|
                j: int,
            |
                0 <= j < entries_from(sector, 0).len() && is_stored_in(
                    sector,
                    i,
                    #[trigger] entries_from(sector, 0)[j],
                ),
        ends_from(sector, 0) <==> exists|i: int| 0 <= i < 16 && #[trigger] sector[32 * i] == 0,
{
    let which = lemma_listed(sector, 0);
    let entries = entries_from(sector, 0);
    assert(are_listed(sector, 0, which, entries));
    assert forall|i: int|
        0 <= i < 16 && #[trigger] is_in_use(sector, i) && goes_through(sector, i) implies exists|
            j: int,
        |
        0 <= j < entries.len() && is_stored_in(sector, i, #[trigger] entries[j]) by {
        assert(which.contains(i));
        let j = choose|j: int| 0 <= j < which.len() && which[j] == i;
        assert(is_stored_in(sector, which[j], entries[j]));
    }
}

/// How a stored name is shown: as what lies before the first space of its first
/// eight bytes, and where the next three do not begin with a space, a dot and what
/// lies before the first space of those.
pub proof fn law_names_lose_their_padding(raw: Seq<u8>, base: int, ext: int)
    requires
        raw.len() == 32,
        0 <= base <= 8,
        0 <= ext <= 3,
        forall|k: int| 0 <= k < base ==> #[trigger] raw[k] != 0x20,
        base < 8 ==> raw[base] == 0x20,
        forall|k: int| 8 <= k < 8 + ext ==> #[trigger] raw[k] != 0x20,
        ext < 3 ==> raw[8 + ext] == 0x20,
    ensures
        short_name(raw).len() == (if ext == 0 {
            base
        } else {
            base + 1 + ext
        }),
        forall|k: int| 0 <= k < base ==> #[trigger] short_name(raw)[k] == raw[k],
        ext > 0 ==> short_name(raw)[base] == 0x2E,
        forall|k: int|
            0 <= k < ext ==> #[trigger] short_name(raw)[base + 1 + k] == raw[8 + k],
{
    let front = raw.subrange(0, 8);
    let back = raw.subrange(8, 11);
    lemma_first_space_is(front, 0, base);
    assert forall|k: int| 0 <= k < ext implies #[trigger] back[k] != 0x20 by {
        assert(back[k] == raw[8 + k]);
    }
    lemma_first_space_is(back, 0, ext);
}

proof fn lemma_first_space_is(s: Seq<u8>, i: int, j: int)
    requires
        0 <= i <= j <= s.len(),
        forall|k: int| i <= k < j ==> #[trigger] s[k] != 0x20,
        j < s.len() ==> s[j] == 0x20,
    ensures
        first_space(s, i) == j,
    decreases j - i,
{
    if i < j {
        assert(s[i] != 0x20);
        lemma_first_space_is(s, i + 1, j);
    }
}

/// Two bytes are the same letter: they are the same, or one is a letter from `A`
/// to `Z` and the other the same letter from `a` to `z`.
pub open spec fn is_same_letter(a: u8, b: u8) -> bool {
    ||| a == b
    ||| 0x41 <= a <= 0x5A && b == a + 0x20
    ||| 0x41 <= b <= 0x5A && a == b + 0x20
}

/// Names are the same if they are the same letter by letter. Nothing but the case
/// of English letters is overlooked.
pub proof fn law_names_agree_letter_by_letter(a: Seq<u8>, b: Seq<u8>)
    ensures
        same_but_for_case(a, b) <==> a.len() == b.len() && forall|i: int|
            0 <= i < a.len() ==> #[trigger] is_same_letter(a[i], b[i]),
{
    assert forall|x: u8, y: u8| lower(x) == lower(y) <==> #[trigger] is_same_letter(x, y) by {}
    if a.len() == b.len() {
        if same_but_for_case(a, b) {
            assert forall|i: int| 0 <= i < a.len() implies #[trigger] is_same_letter(
                a[i],
                b[i],
            ) by {
                assert(lower(a[i]) == lower(b[i]));
            }
        }
        if forall|i: int| 0 <= i < a.len() ==> #[trigger] is_same_letter(a[i], b[i]) {
            assert forall|i: int| 0 <= i < a.len() implies lower(#[trigger] a[i])
                == lower(b[i]) by {
                assert(is_same_letter(a[i], b[i]));
            }
        }
    }
}

/// The entry that is found under a name is the first that goes by it; none is
/// found only where none does. An entry goes by its own name.
pub proof fn law_the_first_of_a_name_is_found(entries: Seq<EntryModel>, name: Seq<u8>)
    ensures
        match first_named(entries, name) {
            Some(entry) => exists|i: int|
                0 <= i < entries.len() && #[trigger] entries[i] == entry && same_but_for_case(
                    crate::text::shown(entry.name),
                    name,
                ) && forall|k: int|
                    0 <= k < i ==> !same_but_for_case(
                        crate::text::shown((#[trigger] entries[k]).name),
                        name,
                    ),
            None => forall|k: int|
                0 <= k < entries.len() ==> !same_but_for_case(
                    crate::text::shown((#[trigger] entries[k]).name),
                    name,
                ),
        },
    decreases entries.len(),
{
    if entries.len() > 0 {
        let rest = entries.drop_first();
        law_the_first_of_a_name_is_found(rest, name);
        if goes_by(entries[0], name) {
            assert(entries[0] == first_named(entries, name)->0);
        } else {
            match first_named(rest, name) {
                Some(entry) => {
                    let i = choose|i: int|
                        0 <= i < rest.len() && #[trigger] rest[i] == entry && same_but_for_case(
                            crate::text::shown(entry.name),
                            name,
                        ) && forall|k: int|
                            0 <= k < i ==> !same_but_for_case(
                                crate::text::shown((#[trigger] rest[k]).name),
                                name,
                            );
                    assert(entries[i + 1] == entry);
                    assert forall|k: int| 0 <= k < i + 1 implies !same_but_for_case(
                        crate::text::shown((#[trigger] entries[k]).name),
                        name,
                    ) by {
                        if k > 0 {
                            assert(rest[k - 1] == entries[k]);
                        }
                    }
                },
                None => {
                    assert forall|k: int| 0 <= k < entries.len() implies !same_but_for_case(
                        crate::text::shown((#[trigger] entries[k]).name),
                        name,
                    ) by {
                        if k > 0 {
                            assert(rest[k - 1] == entries[k]);
                        }
                    }
                },
            }
        }
    }
}

/// An entry with bit 4 of its attributes set is a directory, whose entries lie in
/// its clusters, or in the root directory where its first cluster is number 0. Any
/// other entry is a file, and no directory.
pub proof fn law_directories_are_marked(entry: EntryModel)
    ensures
        entry.is_dir() <==> entry.attr / 16 % 2 == 1,
        location(entry) == (if entry.attr / 16 % 2 == 0 {
            Err::<Dir, FsError>(FsError::NotADirectory)
        } else if entry.cluster == 0 {
            Ok(Dir::Root)
        } else {
            Ok(Dir::Cluster(entry.cluster))
        }),
{
    lemma_label_bit(entry.attr);
}

} // verus!
