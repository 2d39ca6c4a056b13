//! Splitting a path into the names it is made of.

use vstd::prelude::*;

verus! {

/// Both slashes separate names.
pub open spec fn is_separator(b: u8) -> bool {
    b == 0x2F || b == 0x5C
}

/// Index of the first separator at or after `i`, or the length.
pub open spec fn segment_end(path: Seq<u8>, i: int) -> int
    decreases path.len() - i,
{
    if i < 0 || i >= path.len() || is_separator(path[i]) {
        i
    } else {
        segment_end(path, i + 1)
    }
}

/// A piece ends inside the path, at a separator or at the end.
pub proof fn lemma_segment_end(path: Seq<u8>, i: int)
    requires
        0 <= i <= path.len(),
    ensures
        i <= segment_end(path, i) <= path.len(),
        segment_end(path, i) < path.len() ==> is_separator(path[segment_end(path, i)]),
    decreases path.len() - i,
{
    if i < path.len() && !is_separator(path[i]) {
        lemma_segment_end(path, i + 1);
    }
}

/// The names in `path` from byte `at` on: what lies between separators, empty
/// pieces and `.` left out.
pub open spec fn components(path: Seq<u8>, at: int) -> Seq<Seq<u8>>
    decreases path.len() + 1 - at,
{
    if at < 0 || at >= path.len() {
        Seq::empty()
    } else {
        proof {
            lemma_segment_end(path, at);
        }
        let end = segment_end(path, at);
        let piece = path.subrange(at, end);
        if piece.len() == 0 || piece == seq![0x2Eu8] {
            components(path, end + 1)
        } else {
            seq![piece] + components(path, end + 1)
        }
    }
}

/// Finds the next name in `path`, from byte `at` on: its first byte and the
/// byte behind its last.
pub fn next_component(path: &[u8], at: usize) -> (range: Option<(usize, usize)>)
    requires
        at <= path.len(),
    ensures
        match range {
            None => components(path@, at as int) == Seq::<Seq<u8>>::empty(),
            Some((start, end)) => {
                &&& at <= start < end <= path.len()
                &&& components(path@, at as int) == seq![path@.subrange(start as int, end as int)]
                    + components(path@, end as int)
            },
        },
{
    let mut start: usize = at;
    while start < path.len()
        invariant
            at <= start <= path.len(),
            components(path@, at as int) == components(path@, start as int),
        decreases path.len() - start,
    {
        let mut end: usize = start;
        while end < path.len() && path[end] != 0x2F && path[end] != 0x5C
            invariant
                start <= end <= path.len(),
                segment_end(path@, start as int) == segment_end(path@, end as int),
            decreases path.len() - end,
        {
            end = end + 1;
        }
        let ghost piece = path@.subrange(start as int, end as int);
        assert(segment_end(path@, start as int) == end);
        if end < path.len() {
            assert(path@.subrange(end as int, end as int) =~= Seq::<u8>::empty());
            assert(segment_end(path@, end as int) == end);
        }
        assert(components(path@, end as int) == components(path@, end + 1));
        let dot: bool = end - start == 1 && path[start] == 0x2E;
        proof {
            if dot {
                assert(piece =~= seq![0x2Eu8]);
            } else if piece =~= seq![0x2Eu8] {
                assert(piece[0] == path@[start as int]);
            }
        }
        if end > start && !dot {
            return Some((start, end));
        }
        if end == path.len() {
            return None;
        }
        start = end + 1;
    }
    None
}

/// A name on its own is the only one in its path. Nothing at all names nothing,
/// and neither does a single dot.
pub proof fn law_a_name_stands_for_itself(name: Seq<u8>)
    requires
        forall|i: int| 0 <= i < name.len() ==> #[trigger] name[i] != 0x2F && name[i] != 0x5C,
    ensures
        components(name, 0) == (if name.len() == 0 || (name.len() == 1 && name[0] == 0x2E) {
            Seq::<Seq<u8>>::empty()
        } else {
            seq![name]
        }),
{
    if name.len() > 0 {
        lemma_no_separator(name, 0);
        assert(name.subrange(0, name.len() as int) =~= name);
        assert(components(name, name.len() as int + 1) =~= Seq::<Seq<u8>>::empty());
        if name.len() == 1 && name[0] == 0x2E {
            assert(name =~= seq![0x2Eu8]);
        }
        assert(seq![name] + Seq::<Seq<u8>>::empty() =~= seq![name]);
    }
}

proof fn lemma_no_separator(name: Seq<u8>, i: int)
    requires
        0 <= i <= name.len(),
        forall|k: int| 0 <= k < name.len() ==> #[trigger] name[k] != 0x2F && name[k] != 0x5C,
    ensures
        segment_end(name, i) == name.len(),
    decreases name.len() - i,
{
    if i < name.len() {
        assert(name[i] != 0x2F && name[i] != 0x5C);
        lemma_no_separator(name, i + 1);
    }
}

/// A slash of either kind separates: the names in a path are those before it and
/// then those behind it. So slashes at the ends, or several in a row, do not
/// matter, nor does which kind they are.
pub proof fn law_slashes_separate(before: Seq<u8>, slash: u8, behind: Seq<u8>)
    requires
        slash == 0x2F || slash == 0x5C,
    ensures
        components(before.push(slash) + behind, 0) == components(before, 0) + components(
            behind,
            0,
        ),
{
    lemma_split(before, slash, behind, 0);
}

proof fn lemma_split(before: Seq<u8>, slash: u8, behind: Seq<u8>, at: int)
    requires
        slash == 0x2F || slash == 0x5C,
        0 <= at <= before.len(),
    ensures
        components(before.push(slash) + behind, at) == components(before, at) + components(
            behind,
            0,
        ),
    decreases before.len() - at,
{
    let path = before.push(slash) + behind;
    let n = before.len() as int;
    let rest = components(behind, 0);
    lemma_behind(before.push(slash), behind, 0);
    assert(path[n] == slash);
    if at == n {
        assert(path.subrange(n, n) =~= Seq::<u8>::empty());
        assert(Seq::<Seq<u8>>::empty() + rest =~= rest);
    } else {
        let end = segment_end(before, at);
        lemma_segment_end(before, at);
        lemma_same_end(before, slash, behind, at);
        assert(path.subrange(at, end) =~= before.subrange(at, end));
        let piece = before.subrange(at, end);
        if end < n {
            lemma_split(before, slash, behind, end + 1);
        } else {
            assert(components(before, end + 1) =~= Seq::<Seq<u8>>::empty());
            assert(Seq::<Seq<u8>>::empty() + rest =~= rest);
        }
        assert((seq![piece] + components(before, end + 1)) + rest =~= seq![piece] + (components(
            before,
            end + 1,
        ) + rest));
    }
}

proof fn lemma_same_end(before: Seq<u8>, slash: u8, behind: Seq<u8>, at: int)
    requires
        slash == 0x2F || slash == 0x5C,
        0 <= at <= before.len(),
    ensures
        segment_end(before.push(slash) + behind, at) == segment_end(before, at),
    decreases before.len() - at,
{
    let path = before.push(slash) + behind;
    if at < before.len() {
        assert(path[at] == before[at]);
        if !is_separator(before[at]) {
            lemma_same_end(before, slash, behind, at + 1);
        }
    } else {
        assert(path[at] == slash);
    }
}

proof fn lemma_behind(front: Seq<u8>, behind: Seq<u8>, at: int)
    requires
        0 <= at,
    ensures
        components(front + behind, front.len() + at) == components(behind, at),
    decreases behind.len() + 1 - at,
{
    let path = front + behind;
    let n = front.len() as int;
    if at < behind.len() {
        let end = segment_end(behind, at);
        lemma_segment_end(behind, at);
        lemma_end_behind(front, behind, at);
        assert(path.subrange(n + at, n + end) =~= behind.subrange(at, end));
        lemma_behind(front, behind, end + 1);
    }
}

proof fn lemma_end_behind(front: Seq<u8>, behind: Seq<u8>, at: int)
    requires
        0 <= at <= behind.len(),
    ensures
        segment_end(front + behind, front.len() + at) == front.len() + segment_end(behind, at),
    decreases behind.len() - at,
{
    if at < behind.len() {
        assert((front + behind)[front.len() + at] == behind[at]);
        if !is_separator(behind[at]) {
            lemma_end_behind(front, behind, at + 1);
        }
    }
}

} // verus!
