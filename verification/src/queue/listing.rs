//! The files of a topic's directory, and the order in which the segments
//! among them are kept.

use vstd::prelude::*;

use crate::storage::naming::{base_offset_of, names_log, path_in};
use crate::storage::segment::{segment_views, Segment, SegmentView};

verus! {

/// One file of a topic's directory: its name and what it holds.
#[derive(Debug)]
pub struct SegmentFile {
    pub name: String,
    pub contents: Vec<u8>,
}

/// The mathematical value of a [`SegmentFile`].
pub struct SegmentFileView {
    pub name: Seq<char>,
    pub contents: Seq<u8>,
}

impl View for SegmentFile {
    type V = SegmentFileView;

    open spec fn view(&self) -> SegmentFileView {
        SegmentFileView { name: self.name@, contents: self.contents@ }
    }
}

/// The values of a run of files.
pub open spec fn file_views(files: Seq<SegmentFile>) -> Seq<SegmentFileView> {
    Seq::new(files.len(), |i: int| files[i]@)
}

/// Whether each segment file among `files`, which lie in `directory`, is
/// named by a base offset.
pub open spec fn all_named(directory: Seq<char>, files: Seq<SegmentFileView>) -> bool {
    forall|i: int|
        0 <= i < files.len() && names_log(path_in(directory, #[trigger] files[i].name))
            ==> base_offset_of(path_in(directory, files[i].name)) is Some
}

/// What a segment holds beside its state: its base offset, its path and its
/// log.
pub struct Holding {
    pub base_offset: u64,
    pub path: Seq<char>,
    pub log: Seq<u8>,
}

/// The segment files among `files`, which lie in `directory`, each as a
/// holding, in the order of the listing.
pub open spec fn listed(directory: Seq<char>, files: Seq<SegmentFileView>) -> Seq<Holding>
    decreases files.len(),
{
    if files.len() == 0 {
        Seq::empty()
    } else {
        let path = path_in(directory, files.last().name);
        let front = listed(directory, files.drop_last());
        if names_log(path) && base_offset_of(path) is Some {
            front.push(
                Holding {
                    base_offset: base_offset_of(path)->0,
                    path: path,
                    log: files.last().contents,
                },
            )
        } else {
            front
        }
    }
}

/// What `segment` holds.
pub open spec fn holding_of(segment: SegmentView) -> Holding {
    Holding { base_offset: segment.base_offset, path: segment.path, log: segment.log }
}

/// What each of `segments` holds.
pub open spec fn holdings(segments: Seq<SegmentView>) -> Seq<Holding> {
    Seq::new(segments.len(), |i: int| holding_of(segments[i]))
}

/// The holdings with the base offset `base`, in order.
pub open spec fn held_under(all: Seq<Holding>, base: u64) -> Seq<Holding>
    decreases all.len(),
{
    if all.len() == 0 {
        Seq::empty()
    } else {
        let front = held_under(all.drop_last(), base);
        if all.last().base_offset == base {
            front.push(all.last())
        } else {
            front
        }
    }
}

/// Whether the base offsets of `segments` never fall from one segment to
/// the next.
pub open spec fn ascending(segments: Seq<SegmentView>) -> bool {
    forall|i: int, j: int|
        0 <= i < j < segments.len() ==> (#[trigger] segments[i]).base_offset <= (
        #[trigger] segments[j]).base_offset
}

/// Whether the last of `segments`, and no other, takes appends.
pub open spec fn only_last_active(segments: Seq<SegmentView>) -> bool {
    forall|i: int|
        0 <= i < segments.len() ==> ((#[trigger] segments[i]).is_active <==> i == segments.len()
            - 1)
}

/// Whether `segments` are the segment files among `files`, which lie in
/// `directory`, in the order of their base offsets: as many as there are
/// such files and, under each base offset, the files named by it, in the
/// order of the listing. The last of them, and no other, takes appends.
pub open spec fn arranges(
    segments: Seq<SegmentView>,
    directory: Seq<char>,
    files: Seq<SegmentFileView>,
) -> bool {
    &&& ascending(segments)
    &&& only_last_active(segments)
    &&& segments.len() == listed(directory, files).len()
    &&& forall|base: u64| #[trigger]
        held_under(holdings(segments), base) == held_under(listed(directory, files), base)
}

/// The holdings under a base offset after one more was put in at a place
/// behind which none has its base offset: it comes last under its own base
/// offset, and nothing changes under another.
pub proof fn lemma_held_under_insert(all: Seq<Holding>, place: int, holding: Holding, base: u64)
    requires
        0 <= place <= all.len(),
        forall|j: int| place <= j < all.len() ==> (#[trigger] all[j]).base_offset
            != holding.base_offset,
    ensures
        held_under(all.insert(place, holding), base) == if holding.base_offset == base {
            held_under(all, base).push(holding)
        } else {
            held_under(all, base)
        },
    decreases all.len(),
{
    let grown = all.insert(place, holding);
    if place == all.len() {
        assert(grown.drop_last() =~= all);
    } else {
        assert(grown.last() == all.last());
        assert(grown.drop_last() =~= all.drop_last().insert(place, holding));
        lemma_held_under_insert(all.drop_last(), place, holding, base);
    }
}

/// Whether the base offsets of `all` never fall from one holding to the
/// next.
pub open spec fn rising(all: Seq<Holding>) -> bool {
    forall|i: int, j: int|
        0 <= i < j < all.len() ==> (#[trigger] all[i]).base_offset <= (
        #[trigger] all[j]).base_offset
}

/// The holdings under a base offset are holdings with that base offset, and
/// the last of all holdings is the last under its own base offset.
pub proof fn lemma_held_under_holds(all: Seq<Holding>, base: u64)
    ensures
        held_under(all, base).len() > 0 ==> exists|j: int|
            0 <= j < all.len() && (#[trigger] all[j]).base_offset == base,
        all.len() > 0 && all.last().base_offset == base ==> held_under(all, base).len() > 0
            && held_under(all, base).last() == all.last() && held_under(all, base).drop_last()
            == held_under(all.drop_last(), base),
        all.len() > 0 && all.last().base_offset != base ==> held_under(all, base) == held_under(
            all.drop_last(),
            base,
        ),
    decreases all.len(),
{
    if all.len() > 0 {
        let front = all.drop_last();
        lemma_held_under_holds(front, base);
        if all.last().base_offset == base {
            assert(all[all.len() - 1].base_offset == base);
            assert(held_under(front, base).push(all.last()).drop_last() =~= held_under(
                front,
                base,
            ));
        } else if held_under(front, base).len() > 0 {
            let j = choose|j: int|
                0 <= j < front.len() && (#[trigger] front[j]).base_offset == base;
            assert(all[j].base_offset == base);
        }
    }
}

/// A run of holdings whose base offsets never fall stays one without its
/// last holding.
pub proof fn lemma_rising_without_last(all: Seq<Holding>)
    requires
        rising(all),
        all.len() > 0,
    ensures
        rising(all.drop_last()),
{
    let fewer = all.drop_last();
    assert forall|i: int, j: int| 0 <= i < j < fewer.len() implies (#[trigger] fewer[i]).base_offset
        <= (#[trigger] fewer[j]).base_offset by {
        assert(all[i].base_offset <= all[j].base_offset);
    }
}

/// In a run of holdings whose base offsets never fall, no base offset that
/// occurs is above that of the last holding.
pub proof fn lemma_last_is_highest(all: Seq<Holding>, base: u64)
    requires
        rising(all),
        held_under(all, base).len() > 0,
    ensures
        base <= all.last().base_offset,
{
    lemma_held_under_holds(all, base);
    let j = choose|j: int| 0 <= j < all.len() && (#[trigger] all[j]).base_offset == base;
    if j < all.len() - 1 {
        assert(all[j].base_offset <= all[all.len() - 1].base_offset);
    }
}

/// The order of the base offsets and the order of the listing under each
/// base offset leave one arrangement only: two runs of holdings of one
/// length whose base offsets never fall, with the same holdings in the same
/// order under each base offset, are one and the same.
pub proof fn lemma_arrangement_is_unique(one: Seq<Holding>, other: Seq<Holding>)
    requires
        rising(one),
        rising(other),
        one.len() == other.len(),
        forall|base: u64| #[trigger] held_under(one, base) == held_under(other, base),
    ensures
        one == other,
    decreases one.len(),
{
    if one.len() > 0 {
        let x = one.last();
        let y = other.last();
        let fewer = one.drop_last();
        let others = other.drop_last();
        lemma_held_under_holds(one, x.base_offset);
        lemma_held_under_holds(other, y.base_offset);
        assert(held_under(other, x.base_offset) == held_under(one, x.base_offset));
        assert(held_under(one, y.base_offset) == held_under(other, y.base_offset));
        lemma_last_is_highest(other, x.base_offset);
        lemma_last_is_highest(one, y.base_offset);
        lemma_held_under_holds(other, x.base_offset);
        assert(x == y);
        assert forall|base: u64| #[trigger] held_under(fewer, base) == held_under(others, base) by {
            lemma_held_under_holds(one, base);
            lemma_held_under_holds(other, base);
            assert(held_under(one, base) == held_under(other, base));
        }
        lemma_rising_without_last(one);
        lemma_rising_without_last(other);
        lemma_arrangement_is_unique(fewer, others);
        assert(one =~= fewer.push(x));
        assert(other =~= others.push(y));
    }
}

/// The base offsets of what segments hold never fall where those of the
/// segments never fall.
pub proof fn lemma_holdings_rise(segments: Seq<SegmentView>)
    requires
        ascending(segments),
    ensures
        rising(holdings(segments)),
{
    let all = holdings(segments);
    assert forall|i: int, j: int| 0 <= i < j < all.len() implies (#[trigger] all[i]).base_offset
        <= (#[trigger] all[j]).base_offset by {
        assert(segments[i].base_offset <= segments[j].base_offset);
    }
}

/// Segments that are arranged as one listing asks are the same segments,
/// whoever arranged them.
pub proof fn lemma_arranged_is_unique(
    one: Seq<SegmentView>,
    other: Seq<SegmentView>,
    directory: Seq<char>,
    files: Seq<SegmentFileView>,
)
    requires
        arranges(one, directory, files),
        arranges(other, directory, files),
    ensures
        one == other,
{
    lemma_holdings_rise(one);
    lemma_holdings_rise(other);
    assert forall|base: u64| #[trigger]
        held_under(holdings(one), base) == held_under(holdings(other), base) by {
        assert(held_under(holdings(one), base) == held_under(listed(directory, files), base));
        assert(held_under(holdings(other), base) == held_under(listed(directory, files), base));
    }
    lemma_arrangement_is_unique(holdings(one), holdings(other));
    assert forall|i: int| 0 <= i < one.len() implies one[i] == other[i] by {
        assert(holdings(one)[i] == holdings(other)[i]);
        assert(one[i].is_active == other[i].is_active);
    }
    assert(one =~= other);
}

/// Puts `segment` behind the last segment whose base offset is not above
/// its own.
pub fn place_segment(segments: &mut Vec<Segment>, segment: Segment)
    requires
        ascending(segment_views(old(segments)@)),
    ensures
        ascending(segment_views(final(segments)@)),
        final(segments)@.len() == old(segments)@.len() + 1,
        forall|base: u64| #[trigger]
            held_under(holdings(segment_views(final(segments)@)), base) == if segment.base_offset
                == base {
                held_under(holdings(segment_views(old(segments)@)), base).push(
                    holding_of(segment@),
                )
            } else {
                held_under(holdings(segment_views(old(segments)@)), base)
            },
{
    let ghost before = segment_views(segments@);
    let ghost holding = holding_of(segment@);
    let mut place: usize = 0;
    while place < segments.len() && segments[place].base_offset <= segment.base_offset
        invariant
            place <= segments@.len(),
            segments@ == old(segments)@,
            forall|j: int|
                0 <= j < place ==> (#[trigger] segment_views(segments@)[j]).base_offset
                    <= segment.base_offset,
        decreases segments@.len() - place,
    {
        place = place + 1;
    }
    proof {
        assert forall|j: int| place <= j < before.len() implies (#[trigger] holdings(
            before,
        )[j]).base_offset != holding.base_offset by {
            assert(before[place as int].base_offset <= before[j].base_offset);
        }
        assert forall|base: u64|
            held_under(holdings(before).insert(place as int, holding), base) == if base
                == holding.base_offset {
                held_under(holdings(before), base).push(holding)
            } else {
                held_under(holdings(before), base)
            } by {
            lemma_held_under_insert(holdings(before), place as int, holding, base);
        }
    }
    segments.insert(place, segment);
    let ghost after = segment_views(segments@);
    assert(after =~= before.insert(place as int, segment@));
    assert(holdings(after) =~= holdings(before).insert(place as int, holding));
    assert forall|i: int, j: int| 0 <= i < j < after.len() implies (#[trigger] after[i]).base_offset
        <= (#[trigger] after[j]).base_offset by {
        if j < place {
            assert(after[i] == before[i] && after[j] == before[j]);
        } else if j == place {
            assert(after[i] == before[i]);
        } else if i < place {
            assert(after[i] == before[i] && after[j] == before[j - 1]);
            assert(before[place as int].base_offset <= before[j - 1].base_offset);
        } else if i == place {
            assert(after[j] == before[j - 1]);
            assert(before[place as int].base_offset <= before[j - 1].base_offset);
        } else {
            assert(after[i] == before[i - 1] && after[j] == before[j - 1]);
        }
    }
}

/// Lets the last of `segments`, and no other, take appends.
pub fn seal_all_but_last(segments: &mut Vec<Segment>)
    ensures
        only_last_active(segment_views(final(segments)@)),
        holdings(segment_views(final(segments)@)) == holdings(segment_views(old(segments)@)),
        final(segments)@.len() == old(segments)@.len(),
{
    let len = segments.len();
    let mut i: usize = 0;
    while i < len
        invariant
            i <= len,
            len == segments@.len(),
            holdings(segment_views(segments@)) == holdings(segment_views(old(segments)@)),
            forall|j: int|
                0 <= j < i ==> ((#[trigger] segment_views(segments@)[j]).is_active <==> j == len
                    - 1),
        decreases len - i,
    {
        let ghost before = segment_views(segments@);
        segments[i].is_active = i == len - 1;
        assert(holdings(segment_views(segments@)) =~= holdings(before));
        assert forall|j: int| 0 <= j < i + 1 implies ((#[trigger] segment_views(
            segments@,
        )[j]).is_active <==> j == len - 1) by {
            if j < i {
                assert(segment_views(segments@)[j] == before[j]);
            }
        }
        i = i + 1;
    }
}

} // verus!
