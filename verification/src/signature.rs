//! The signature of a candidate tile: its colours, ranked by how well each
//! stands for the whole tile.
//!
//! A colour's distinctness score is its mean distance to all 256 pixels of
//! the tile, itself included. The distances are added up in binary64, pixel
//! by pixel in storage order, and the total is divided by 256. The colours
//! are ranked by rising score, pixels of equal score staying in storage
//! order, and of several equal entries only the first is kept: no two
//! entries of a signature have the same score and the same colour.

use vstd::prelude::*;
use deltae::LabValue;
use crate::binary64::{
    divide_by_256,
    lemma_nearest_bounded,
    magnitude,
    rounded_quotient,
    rounded_sum,
    sum,
    widen,
    widened,
    INFINITY,
    INFINITY32,
};
use crate::color::{distance, distance_of, get_lab, pixel_lab};
use crate::order::exceeds;
use crate::pixel::{all_opaque, Image, Rgba, OPAQUE, TILE};
use crate::resolver::all_ranked;

verus! {

/// One colour of a tile with its distinctness score.
///
/// The score is held as a binary64 encoding: the lower, the better the
/// colour stands for the tile.
#[derive(Clone, Copy, Debug)]
pub struct DistinctColorEntry {
    pub score: u64,
    pub color: Rgba,
    pub lab: LabValue,
}

impl DistinctColorEntry {
    /// The L\*a\*b\* colour is the one of the pixel.
    pub open spec fn wf(self) -> bool {
        self.lab == pixel_lab(self.color)
    }

    /// Same score and same pixel.
    pub open spec fn same(self, other: DistinctColorEntry) -> bool {
        self.score == other.score && self.color == other.color
    }
}

/// A candidate tile as the resolver sees it: where it came from and its
/// colours, each once, most representative first.
#[derive(Clone, Debug)]
pub struct BlockSignature {
    pub path: String,
    pub entries: Vec<DistinctColorEntry>,
}

/// What a [`BlockSignature`] holds.
pub struct BlockView {
    pub path: Seq<char>,
    pub entries: Seq<DistinctColorEntry>,
}

impl View for BlockSignature {
    type V = BlockView;

    open spec fn view(&self) -> BlockView {
        BlockView { path: self.path@, entries: self.entries@ }
    }
}

/// What each of some signatures holds.
pub open spec fn signature_views(blocks: Seq<BlockSignature>) -> Seq<BlockView> {
    blocks.map_values(|b: BlockSignature| b@)
}

/// A picture offered as a tile, with the path it was read from.
#[derive(Clone, Debug)]
pub struct Candidate {
    pub path: String,
    pub image: Image,
}

/// What a [`Candidate`] holds.
pub struct CandidateView {
    pub path: Seq<char>,
    pub width: nat,
    pub height: nat,
    pub pixels: Seq<Rgba>,
}

impl View for Candidate {
    type V = CandidateView;

    open spec fn view(&self) -> CandidateView {
        CandidateView {
            path: self.path@,
            width: self.image.width as nat,
            height: self.image.height as nat,
            pixels: self.image@.pixels,
        }
    }
}

impl CandidateView {
    /// The picture can serve as a tile: it is 16 pixels wide and high, and
    /// no pixel of it lets anything show through.
    pub open spec fn eligible(self) -> bool {
        self.width == TILE && self.height == TILE && all_opaque(self.pixels)
    }

    /// The signature of the picture.
    pub open spec fn signature(self) -> BlockView {
        BlockView { path: self.path, entries: signature_entries(self.pixels) }
    }
}

/// One of the candidates can serve as a tile.
pub open spec fn some_eligible(candidates: Seq<CandidateView>) -> bool {
    exists|i: int| 0 <= i < candidates.len() && (#[trigger] candidates[i]).eligible()
}

/// What each of some candidates holds.
pub open spec fn candidate_views(candidates: Seq<Candidate>) -> Seq<CandidateView> {
    candidates.map_values(|c: Candidate| c@)
}

/// The candidates of one run, each with the tile it was computed from:
/// `tiles[i]` is the picture behind `signatures[i]`.
#[derive(Clone, Debug)]
pub struct Palette {
    pub signatures: Vec<BlockSignature>,
    pub tiles: Vec<Image>,
}

/// What a [`Palette`] holds: the signatures, and the pixels of each tile row
/// by row.
pub struct PaletteView {
    pub signatures: Seq<BlockView>,
    pub tiles: Seq<Seq<Rgba>>,
}

impl View for Palette {
    type V = PaletteView;

    open spec fn view(&self) -> PaletteView {
        PaletteView {
            signatures: signature_views(self.signatures@),
            tiles: self.tiles@.map_values(|t: Image| t@.pixels),
        }
    }
}

impl Palette {
    /// There is one tile per signature, every tile has the shape of a tile,
    /// and every signature has a colour.
    pub open spec fn wf(&self) -> bool {
        &&& self.signatures@.len() == self.tiles@.len()
        &&& forall|i: int|
            0 <= i < self.tiles@.len() ==> (#[trigger] self.tiles@[i]).wf()
                && self.tiles@[i].is_tile()
        &&& all_ranked(self@.signatures)
    }

    /// Puts a palette together from signatures and their tiles; `None` when
    /// the two do not match in number, a tile is not 16 by 16 pixels, or a
    /// signature has no colour.
    pub fn new(signatures: Vec<BlockSignature>, tiles: Vec<Image>) -> (palette: Option<Palette>)
        ensures
            palette.is_some() <==> (Palette { signatures, tiles }).wf(),
            palette matches Some(p) ==> p.signatures == signatures && p.tiles == tiles,
    {
        if signatures.len() != tiles.len() {
            return None;
        }
        let mut i: usize = 0;
        while i < tiles.len()
            invariant
                signatures@.len() == tiles@.len(),
                i <= tiles@.len(),
                forall|j: int|
                    0 <= j < i ==> (#[trigger] tiles@[j]).wf() && tiles@[j].is_tile(),
                forall|j: int| 0 <= j < i ==> (#[trigger] signatures@[j]).entries@.len() > 0,
            decreases tiles@.len() - i,
        {
            let tile = &tiles[i];
            if tile.width != TILE || tile.height != TILE || tile.pixels.len() != 256 {
                proof {
                    assert(tile.width * tile.height == 256 || !tile.is_tile()) by (nonlinear_arith)
                        requires
                            tile.width == 16 && tile.height == 16 || !tile.is_tile(),
                    ;
                    assert(!(tiles@[i as int].wf() && tiles@[i as int].is_tile()));
                }
                return None;
            }
            if signatures[i].entries.len() == 0 {
                proof {
                    let views = signature_views(signatures@);
                    assert(views[i as int].entries.len() == 0);
                }
                return None;
            }
            proof {
                assert(tile.width * tile.height == 256) by (nonlinear_arith)
                    requires
                        tile.width == 16,
                        tile.height == 16,
                ;
            }
            i += 1;
        }
        proof {
            let views = signature_views(signatures@);
            assert forall|j: int| 0 <= j < views.len() implies (#[trigger] views[j]).entries.len()
                > 0 by {
                assert(signatures@[j].entries@.len() > 0);
            }
        }
        Some(Palette { signatures, tiles })
    }
}

/// The distances from the colour of `from` to each of `pixels`.
pub open spec fn distances_from(pixels: Seq<Rgba>, from: Rgba) -> Seq<u32> {
    Seq::new(pixels.len(), |j: int| distance_of(pixel_lab(from), pixel_lab(pixels[j])))
}

/// The first `n` distances added up one after the other, in binary64.
pub open spec fn total_distance(dists: Seq<u32>, n: nat) -> u64
    decreases n,
{
    if n == 0 {
        0
    } else {
        rounded_sum(total_distance(dists, (n - 1) as nat), widened(dists[n - 1]))
    }
}

/// The mean of 256 distances: their total divided by 256.
pub open spec fn mean_distance(dists: Seq<u32>) -> u64 {
    rounded_quotient(total_distance(dists, dists.len()), 8)
}

/// The distinctness score of the colour of `from` among the pixels of a
/// tile: its mean distance to the tile's 256 pixels.
pub open spec fn score(pixels: Seq<Rgba>, from: Rgba) -> u64 {
    mean_distance(distances_from(pixels, from))
}

/// The entry of the pixel at place `i`.
pub open spec fn entry_of(pixels: Seq<Rgba>, i: int) -> DistinctColorEntry {
    DistinctColorEntry {
        score: score(pixels, pixels[i]),
        color: pixels[i],
        lab: pixel_lab(pixels[i]),
    }
}

/// One entry per pixel, in storage order.
pub open spec fn scored(pixels: Seq<Rgba>) -> Seq<DistinctColorEntry> {
    Seq::new(pixels.len(), |i: int| entry_of(pixels, i))
}

/// `row` with `e` put in: behind every entry whose score is not above its
/// own, before the others.
pub open spec fn inserted(row: Seq<DistinctColorEntry>, e: DistinctColorEntry) -> Seq<
    DistinctColorEntry,
>
    decreases row.len(),
{
    if row.len() == 0 {
        seq![e]
    } else if row.last().score <= e.score {
        row.push(e)
    } else {
        inserted(row.drop_last(), e).push(row.last())
    }
}

/// The entries by rising score; entries of equal score keep their order.
pub open spec fn ranked(entries: Seq<DistinctColorEntry>) -> Seq<DistinctColorEntry>
    decreases entries.len(),
{
    if entries.len() == 0 {
        entries
    } else {
        inserted(ranked(entries.drop_last()), entries.last())
    }
}

/// An entry before place `n` is the same as the entry at place `n`.
pub open spec fn seen_before(entries: Seq<DistinctColorEntry>, n: int) -> bool {
    exists|j: int| 0 <= j < n && (#[trigger] entries[j]).same(entries[n])
}

/// The entries without those that are the same as an entry before them: of
/// several that are the same, the first is kept, at its place.
pub open spec fn deduped(entries: Seq<DistinctColorEntry>) -> Seq<DistinctColorEntry>
    decreases entries.len(),
{
    if entries.len() == 0 {
        entries
    } else if seen_before(entries, entries.len() - 1) {
        deduped(entries.drop_last())
    } else {
        deduped(entries.drop_last()).push(entries.last())
    }
}

/// The colours of a tile as its signature lists them.
pub open spec fn signature_entries(pixels: Seq<Rgba>) -> Seq<DistinctColorEntry> {
    deduped(ranked(scored(pixels)))
}

/// The palette that some candidates give: one member for each candidate that
/// can serve as a tile, in the candidates' order.
pub open spec fn palette_of(candidates: Seq<CandidateView>) -> PaletteView
    decreases candidates.len(),
{
    if candidates.len() == 0 {
        PaletteView { signatures: Seq::empty(), tiles: Seq::empty() }
    } else {
        let front = palette_of(candidates.drop_last());
        let last = candidates.last();
        if last.eligible() {
            PaletteView {
                signatures: front.signatures.push(last.signature()),
                tiles: front.tiles.push(last.pixels),
            }
        } else {
            front
        }
    }
}

/// Putting an entry in at `at` is what [`inserted`] does, when exactly the
/// entries from `at` on have a score above its own.
pub proof fn lemma_inserted_at(row: Seq<DistinctColorEntry>, e: DistinctColorEntry, at: int)
    requires
        0 <= at <= row.len(),
        at > 0 ==> row[at - 1].score <= e.score,
        forall|j: int| at <= j < row.len() ==> (#[trigger] row[j]).score > e.score,
    ensures
        inserted(row, e) == row.insert(at, e),
    decreases row.len(),
{
    if row.len() == 0 {
        assert(row.insert(at, e) =~= seq![e]);
    } else if at == row.len() {
        assert(row.insert(at, e) =~= row.push(e));
    } else {
        lemma_inserted_at(row.drop_last(), e, at);
        assert(row.insert(at, e) =~= row.drop_last().insert(at, e).push(row.last()));
    }
}

/// Ranking keeps every entry.
pub proof fn lemma_ranked_len(entries: Seq<DistinctColorEntry>)
    ensures
        ranked(entries).len() == entries.len(),
    decreases entries.len(),
{
    if entries.len() > 0 {
        lemma_ranked_len(entries.drop_last());
        lemma_inserted_len(ranked(entries.drop_last()), entries.last());
    }
}

/// Putting an entry in makes the sequence one longer.
pub proof fn lemma_inserted_len(row: Seq<DistinctColorEntry>, e: DistinctColorEntry)
    ensures
        inserted(row, e).len() == row.len() + 1,
    decreases row.len(),
{
    if row.len() > 0 && row.last().score > e.score {
        lemma_inserted_len(row.drop_last(), e);
    }
}

/// Of entries that are not all gone, the first stays.
pub proof fn lemma_deduped_nonempty(entries: Seq<DistinctColorEntry>)
    requires
        entries.len() > 0,
    ensures
        deduped(entries).len() > 0,
        deduped(entries).len() <= entries.len(),
        deduped(entries)[0] == entries[0],
    decreases entries.len(),
{
    if entries.len() >= 2 {
        lemma_deduped_nonempty(entries.drop_last());
    } else {
        assert(deduped(entries.drop_last()) =~= Seq::empty());
        assert(!seen_before(entries, 0));
    }
}

/// Two well formed entries with the same score and pixel are equal.
pub proof fn lemma_same_is_equal(a: DistinctColorEntry, b: DistinctColorEntry)
    requires
        a.wf(),
        b.wf(),
    ensures
        a.same(b) <==> a == b,
{
}

/// Scores never fall from one entry to a later one.
pub open spec fn rising(entries: Seq<DistinctColorEntry>) -> bool {
    forall|i: int, j: int|
        0 <= i <= j < entries.len() ==> (#[trigger] entries[i]).score <= (
        #[trigger] entries[j]).score
}

/// Where an entry goes among entries of rising score: behind the last one
/// whose score is not above its own.
pub proof fn lemma_insertion_point(row: Seq<DistinctColorEntry>, e: DistinctColorEntry) -> (at:
    int)
    requires
        rising(row),
    ensures
        0 <= at <= row.len(),
        inserted(row, e) == row.insert(at, e),
        rising(inserted(row, e)),
    decreases row.len(),
{
    let at = if row.len() == 0 {
        0
    } else if row.last().score <= e.score {
        row.len() as int
    } else {
        let front = row.drop_last();
        assert forall|i: int, j: int| 0 <= i <= j < front.len() implies (#[trigger] front[i]).score
            <= (#[trigger] front[j]).score by {
            assert(front[i] == row[i] && front[j] == row[j]);
        }
        let at = lemma_insertion_point(front, e);
        lemma_inserted_at_front(row, e, at);
        at
    };
    if row.len() == 0 {
        assert(row.insert(0, e) =~= seq![e]);
    } else if row.last().score <= e.score {
        assert(row.insert(at, e) =~= row.push(e));
    }
    let out = row.insert(at, e);
    assert forall|i: int, j: int| 0 <= i <= j < out.len() implies (#[trigger] out[i]).score <= (
    #[trigger] out[j]).score by {
        if row.len() > 0 && row.last().score > e.score {
            let front = row.drop_last();
            let inner = front.insert(at, e);
            assert(out =~= inner.push(row.last()));
            if j < inner.len() {
                assert(rising(inner));
                assert(out[i] == inner[i] && out[j] == inner[j]);
            } else if i < j {
                if i == at {
                } else if i < at {
                    assert(out[i] == row[i]);
                    assert(row[i].score <= row[row.len() - 1].score);
                } else {
                    assert(out[i] == row[i - 1]);
                    assert(row[i - 1].score <= row[row.len() - 1].score);
                }
            }
        } else if row.len() > 0 {
            if j == at && i < at {
                assert(out[i] == row[i]);
                assert(row[i].score <= row[row.len() - 1].score);
            } else if j < at {
                assert(out[i] == row[i] && out[j] == row[j]);
            }
        }
    }
    at
}

/// Putting an entry in before the last entry leaves the last entry last.
proof fn lemma_inserted_at_front(row: Seq<DistinctColorEntry>, e: DistinctColorEntry, at: int)
    requires
        row.len() > 0,
        0 <= at < row.len(),
        inserted(row.drop_last(), e) == row.drop_last().insert(at, e),
        row.last().score > e.score,
    ensures
        inserted(row, e) == row.insert(at, e),
{
    assert(row.insert(at, e) =~= row.drop_last().insert(at, e).push(row.last()));
}

/// Ranked entries have rising scores.
pub proof fn lemma_ranked_rising(entries: Seq<DistinctColorEntry>)
    ensures
        rising(ranked(entries)),
    decreases entries.len(),
{
    if entries.len() > 0 {
        lemma_ranked_rising(entries.drop_last());
        lemma_insertion_point(ranked(entries.drop_last()), entries.last());
    }
}

/// Ranking loses no entry and makes none up.
pub proof fn lemma_ranked_permutes(entries: Seq<DistinctColorEntry>)
    ensures
        ranked(entries).to_multiset() == entries.to_multiset(),
    decreases entries.len(),
{
    broadcast use vstd::seq_lib::group_to_multiset_ensures;

    if entries.len() > 0 {
        let front = entries.drop_last();
        lemma_ranked_permutes(front);
        lemma_inserted_permutes(ranked(front), entries.last());
        assert(front.push(entries.last()) =~= entries);
        assert(ranked(entries).to_multiset() =~= entries.to_multiset());
    }
}

/// Putting an entry in adds that entry and nothing else.
pub proof fn lemma_inserted_permutes(row: Seq<DistinctColorEntry>, e: DistinctColorEntry)
    ensures
        inserted(row, e).to_multiset() == row.to_multiset().insert(e),
    decreases row.len(),
{
    broadcast use vstd::seq_lib::group_to_multiset_ensures;

    if row.len() == 0 {
        assert(seq![e] =~= row.push(e));
    } else if row.last().score <= e.score {
    } else {
        let front = row.drop_last();
        lemma_inserted_permutes(front, e);
        assert(front.push(row.last()) =~= row);
        assert(inserted(row, e).to_multiset() =~= row.to_multiset().insert(e));
    }
}

/// What is left after dropping repeats comes from the entries.
pub proof fn lemma_deduped_members(entries: Seq<DistinctColorEntry>)
    ensures
        forall|i: int|
            0 <= i < deduped(entries).len() ==> entries.contains(#[trigger] deduped(entries)[i]),
    decreases entries.len(),
{
    if entries.len() > 0 {
        let front = entries.drop_last();
        lemma_deduped_members(front);
        let out = deduped(entries);
        assert forall|i: int| 0 <= i < out.len() implies entries.contains(#[trigger] out[i]) by {
            if i < deduped(front).len() {
                let e = deduped(front)[i];
                assert(front.contains(e));
                let at = choose|m: int| 0 <= m < front.len() && front[m] == e;
                assert(entries[at] == e);
            } else {
                assert(entries[entries.len() - 1] == out[i]);
            }
        }
    }
}

/// After dropping repeats no two entries have the same score and pixel.
pub proof fn lemma_deduped_distinct(entries: Seq<DistinctColorEntry>)
    ensures
        forall|i: int, j: int|
            0 <= i < j < deduped(entries).len() ==> !(#[trigger] deduped(entries)[i]).same(
                #[trigger] deduped(entries)[j],
            ),
    decreases entries.len(),
{
    if entries.len() > 0 {
        let front = entries.drop_last();
        let last = entries.len() - 1;
        lemma_deduped_distinct(front);
        lemma_deduped_members(front);
        let kept = deduped(front);
        let out = deduped(entries);
        assert forall|i: int, j: int| 0 <= i < j < out.len() implies !(#[trigger] out[i]).same(
            #[trigger] out[j],
        ) by {
            if j < kept.len() {
                assert(out[i] == kept[i] && out[j] == kept[j]);
            } else {
                assert(out[j] == entries[last]);
                assert(out[i] == kept[i]);
                assert(front.contains(kept[i]));
                let at = choose|m: int| 0 <= m < front.len() && front[m] == kept[i];
                assert(entries[at] == kept[i]);
                if out[i].same(out[j]) {
                    assert(entries[at].same(entries[last]));
                    assert(seen_before(entries, last));
                }
            }
        }
    }
}

/// Dropping repeats loses no value: every entry is the same as one that is
/// left.
pub proof fn lemma_deduped_covers(entries: Seq<DistinctColorEntry>, m: int)
    requires
        0 <= m < entries.len(),
    ensures
        exists|i: int|
            0 <= i < deduped(entries).len() && (#[trigger] deduped(entries)[i]).same(entries[m]),
    decreases entries.len(),
{
    let front = entries.drop_last();
    let last = entries.len() - 1;
    let kept = deduped(front);
    let out = deduped(entries);
    if m < last {
        lemma_deduped_covers(front, m);
        let i = choose|i: int| 0 <= i < kept.len() && (#[trigger] kept[i]).same(front[m]);
        assert(out[i] == kept[i]);
        assert(out[i].same(entries[m]));
    } else if seen_before(entries, last) {
        let j = choose|j: int| 0 <= j < last && (#[trigger] entries[j]).same(entries[last]);
        lemma_deduped_covers(front, j);
        let i = choose|i: int| 0 <= i < kept.len() && (#[trigger] kept[i]).same(front[j]);
        assert(out[i] == kept[i]);
        assert(out[i].same(entries[m]));
    } else {
        assert(out[kept.len() as int] == entries[last]);
        assert(out[kept.len() as int].same(entries[m]));
    }
}

/// Dropping repeats keeps scores rising.
pub proof fn lemma_deduped_rising(entries: Seq<DistinctColorEntry>)
    requires
        rising(entries),
    ensures
        rising(deduped(entries)),
    decreases entries.len(),
{
    if entries.len() > 0 {
        let front = entries.drop_last();
        assert forall|i: int, j: int| 0 <= i <= j < front.len() implies (#[trigger] front[i]).score
            <= (#[trigger] front[j]).score by {
            assert(front[i] == entries[i] && front[j] == entries[j]);
        }
        lemma_deduped_rising(front);
        lemma_deduped_members(front);
        let out = deduped(entries);
        assert forall|i: int, j: int| 0 <= i <= j < out.len() implies (#[trigger] out[i]).score
            <= (#[trigger] out[j]).score by {
            if j >= deduped(front).len() && i < j {
                let e = deduped(front)[i];
                assert(front.contains(e));
                let at = choose|m: int| 0 <= m < front.len() && front[m] == e;
                assert(entries[at].score <= entries[entries.len() - 1].score);
            }
        }
    }
}

/// Ranked entries are entries that went in.
pub proof fn lemma_ranked_members(entries: Seq<DistinctColorEntry>)
    ensures
        forall|i: int|
            0 <= i < ranked(entries).len() ==> entries.contains(#[trigger] ranked(entries)[i]),
{
    broadcast use vstd::seq_lib::group_to_multiset_ensures;

    lemma_ranked_permutes(entries);
    let in_order = ranked(entries);
    assert forall|i: int| 0 <= i < in_order.len() implies entries.contains(
        #[trigger] in_order[i],
    ) by {
        assert(in_order.contains(in_order[i]));
        assert(in_order.to_multiset().count(in_order[i]) > 0);
    }
}

/// A score is the encoding of a number or of infinity, whatever the pixels.
pub proof fn lemma_score_bounded(pixels: Seq<Rgba>, from: Rgba)
    ensures
        score(pixels, from) <= INFINITY,
{
    let dists = distances_from(pixels, from);
    lemma_nearest_bounded(magnitude(total_distance(dists, dists.len())), 8);
}

/// Having the score `c`, as a predicate on entries.
pub open spec fn with_score(c: u64) -> spec_fn(DistinctColorEntry) -> bool {
    |e: DistinctColorEntry| e.score == c
}

/// Putting an entry in leaves the entries of every score in their order,
/// the new entry last among those of its own score.
pub proof fn lemma_inserted_stable(row: Seq<DistinctColorEntry>, e: DistinctColorEntry, c: u64)
    ensures
        inserted(row, e).filter(with_score(c)) == if e.score == c {
            row.filter(with_score(c)).push(e)
        } else {
            row.filter(with_score(c))
        },
    decreases row.len(),
{
    reveal(Seq::filter);
    let pred = with_score(c);
    if row.len() == 0 {
        assert(seq![e].drop_last() =~= row);
    } else if row.last().score <= e.score {
        assert(row.push(e).drop_last() =~= row);
    } else {
        let front = row.drop_last();
        lemma_inserted_stable(front, e, c);
        assert(inserted(front, e).push(row.last()).drop_last() =~= inserted(front, e));
    }
}

/// Ranking is stable: the entries of any one score come out in the order
/// in which they went in.
pub proof fn lemma_ranked_stable(entries: Seq<DistinctColorEntry>, c: u64)
    ensures
        ranked(entries).filter(with_score(c)) == entries.filter(with_score(c)),
    decreases entries.len(),
{
    reveal(Seq::filter);
    if entries.len() > 0 {
        lemma_ranked_stable(entries.drop_last(), c);
        lemma_inserted_stable(ranked(entries.drop_last()), entries.last(), c);
    }
}

/// In a signature the scores rise, no two entries are equal, and every
/// entry is a pixel of the tile with its score and its L\*a\*b\* colour;
/// every pixel of the tile has its entry, and no colour has two.
pub proof fn lemma_signature_entries(pixels: Seq<Rgba>)
    ensures
        rising(signature_entries(pixels)),
        forall|i: int, j: int|
            0 <= i < j < signature_entries(pixels).len() ==> !(#[trigger] signature_entries(
                pixels,
            )[i]).same(#[trigger] signature_entries(pixels)[j]) && signature_entries(pixels)[i]
                != signature_entries(pixels)[j],
        forall|i: int|
            0 <= i < signature_entries(pixels).len() ==> exists|m: int|
                0 <= m < pixels.len() && #[trigger] signature_entries(pixels)[i] == entry_of(
                    pixels,
                    m,
                ),
        forall|i: int|
            0 <= i < signature_entries(pixels).len() ==> (#[trigger] signature_entries(
                pixels,
            )[i]).wf() && signature_entries(pixels)[i].score <= INFINITY,
        forall|m: int|
            0 <= m < pixels.len() ==> signature_entries(pixels).contains(
                #[trigger] entry_of(pixels, m),
            ),
        forall|i: int, j: int|
            0 <= i < j < signature_entries(pixels).len() ==> (#[trigger] signature_entries(
                pixels,
            )[i]).color != (#[trigger] signature_entries(pixels)[j]).color,
{
    let all = scored(pixels);
    let in_order = ranked(all);
    let out = deduped(in_order);
    lemma_ranked_rising(all);
    lemma_ranked_members(all);
    lemma_deduped_rising(in_order);
    lemma_deduped_members(in_order);
    lemma_deduped_distinct(in_order);
    assert forall|i: int| 0 <= i < out.len() implies exists|m: int|
        0 <= m < pixels.len() && #[trigger] out[i] == entry_of(pixels, m) by {
        assert(in_order.contains(out[i]));
        let at = choose|at: int| 0 <= at < in_order.len() && in_order[at] == out[i];
        assert(all.contains(in_order[at]));
        let m = choose|m: int| 0 <= m < all.len() && all[m] == out[i];
        assert(out[i] == entry_of(pixels, m));
    }
    assert forall|i: int| 0 <= i < out.len() implies (#[trigger] out[i]).wf() && out[i].score
        <= INFINITY by {
        let m = choose|m: int| 0 <= m < pixels.len() && out[i] == entry_of(pixels, m);
        lemma_score_bounded(pixels, pixels[m]);
    }
    assert forall|i: int, j: int| 0 <= i < j < out.len() implies (#[trigger] out[i]).color != (
    #[trigger] out[j]).color by {
        let a = choose|m: int| 0 <= m < pixels.len() && out[i] == entry_of(pixels, m);
        let b = choose|m: int| 0 <= m < pixels.len() && out[j] == entry_of(pixels, m);
        if out[i].color == out[j].color {
            assert(pixels[a] == pixels[b]);
            assert(out[i].same(out[j]));
        }
    }
    assert forall|m: int| 0 <= m < pixels.len() implies out.contains(
        #[trigger] entry_of(pixels, m),
    ) by {
        broadcast use vstd::seq_lib::group_to_multiset_ensures;

        lemma_ranked_permutes(all);
        let e = entry_of(pixels, m);
        assert(all[m] == e);
        assert(all.contains(e));
        assert(in_order.to_multiset().count(e) > 0);
        assert(in_order.contains(e));
        let at = choose|at: int| 0 <= at < in_order.len() && in_order[at] == e;
        lemma_deduped_covers(in_order, at);
        let i = choose|i: int| 0 <= i < out.len() && (#[trigger] out[i]).same(in_order[at]);
        lemma_same_is_equal(out[i], e);
    }
}

/// A candidate that cannot serve as a tile leaves no trace in the palette:
/// the palette is the same without it.
pub proof fn lemma_ineligible_left_out(candidates: Seq<CandidateView>, i: int)
    requires
        0 <= i < candidates.len(),
        !candidates[i].eligible(),
    ensures
        palette_of(candidates) == palette_of(candidates.remove(i)),
    decreases candidates.len(),
{
    let front = candidates.drop_last();
    if i == candidates.len() - 1 {
        assert(candidates.remove(i) =~= front);
    } else {
        lemma_ineligible_left_out(front, i);
        assert(candidates.remove(i).drop_last() =~= front.remove(i));
        assert(candidates.remove(i).last() == candidates.last());
    }
}

/// A candidate with a pixel that is not fully opaque is not in the palette.
pub proof fn lemma_transparent_left_out(candidates: Seq<CandidateView>, i: int, at: int)
    requires
        0 <= i < candidates.len(),
        0 <= at < candidates[i].pixels.len(),
        candidates[i].pixels[at].a < OPAQUE,
    ensures
        palette_of(candidates) == palette_of(candidates.remove(i)),
{
    lemma_ineligible_left_out(candidates, i);
}

/// A candidate that is not 16 pixels wide and 16 pixels high is not in the
/// palette.
pub proof fn lemma_misshapen_left_out(candidates: Seq<CandidateView>, i: int)
    requires
        0 <= i < candidates.len(),
        candidates[i].width != 16 || candidates[i].height != 16,
    ensures
        palette_of(candidates) == palette_of(candidates.remove(i)),
{
    lemma_ineligible_left_out(candidates, i);
}

/// Every member of the palette stems from a candidate that can serve as a
/// tile: it has that candidate's signature and pixels.
pub proof fn lemma_palette_members(candidates: Seq<CandidateView>, j: int)
    requires
        0 <= j < palette_of(candidates).signatures.len(),
    ensures
        palette_of(candidates).tiles.len() == palette_of(candidates).signatures.len(),
        exists|i: int|
            0 <= i < candidates.len() && (#[trigger] candidates[i]).eligible() && palette_of(
                candidates,
            ).signatures[j] == candidates[i].signature() && palette_of(candidates).tiles[j]
                == candidates[i].pixels,
    decreases candidates.len(),
{
    lemma_palette_sizes(candidates);
    let front = candidates.drop_last();
    let last = candidates.last();
    if last.eligible() && j == palette_of(front).signatures.len() {
        assert(candidates[candidates.len() - 1] == last);
    } else {
        lemma_palette_members(front, j);
        let i = choose|i: int|
            0 <= i < front.len() && (#[trigger] front[i]).eligible() && palette_of(
                front,
            ).signatures[j] == front[i].signature() && palette_of(front).tiles[j]
                == front[i].pixels;
        assert(candidates[i] == front[i]);
    }
}

/// The palette has a member exactly when a candidate can serve as a tile.
pub proof fn lemma_palette_nonempty(candidates: Seq<CandidateView>)
    ensures
        palette_of(candidates).signatures.len() > 0 <==> some_eligible(candidates),
    decreases candidates.len(),
{
    if candidates.len() > 0 {
        let front = candidates.drop_last();
        lemma_palette_nonempty(front);
        if some_eligible(front) {
            let i = choose|i: int| 0 <= i < front.len() && (#[trigger] front[i]).eligible();
            assert(candidates[i] == front[i]);
        }
        if some_eligible(candidates) && !candidates.last().eligible() {
            let i = choose|i: int|
                0 <= i < candidates.len() && (#[trigger] candidates[i]).eligible();
            assert(front[i] == candidates[i]);
        }
        if candidates.last().eligible() {
            assert(candidates[candidates.len() - 1].eligible());
        }
    }
}

/// A palette has one tile per signature, and no more members than there are
/// candidates.
pub proof fn lemma_palette_sizes(candidates: Seq<CandidateView>)
    ensures
        palette_of(candidates).tiles.len() == palette_of(candidates).signatures.len(),
        palette_of(candidates).signatures.len() <= candidates.len(),
    decreases candidates.len(),
{
    if candidates.len() > 0 {
        lemma_palette_sizes(candidates.drop_last());
    }
}

/// `labs` holds the L\*a\*b\* colour of every pixel, in storage order.
pub open spec fn labs_match(labs: Seq<LabValue>, pixels: Seq<Rgba>) -> bool {
    &&& labs.len() == pixels.len()
    &&& forall|i: int| 0 <= i < pixels.len() ==> #[trigger] labs[i] == pixel_lab(pixels[i])
}

/// The L\*a\*b\* colour of every pixel, in storage order.
fn labs_of(image: &Image) -> (labs: Vec<LabValue>)
    ensures
        labs_match(labs@, image@.pixels),
{
    let mut labs: Vec<LabValue> = Vec::new();
    let mut i: usize = 0;
    while i < image.pixels.len()
        invariant
            i <= image@.pixels.len(),
            labs@.len() == i,
            forall|j: int| 0 <= j < i ==> #[trigger] labs@[j] == pixel_lab(image@.pixels[j]),
        decreases image@.pixels.len() - i,
    {
        labs.push(get_lab(image.pixels[i]));
        i += 1;
    }
    labs
}

/// The mean of the 256 distances from one colour of a tile to the tile's
/// pixels: the distances are added up in their order, and the total is
/// divided by 256.
pub fn mean_of_distances(dists: &Vec<u32>) -> (mean: u64)
    requires
        dists@.len() == 256,
        forall|j: int| 0 <= j < dists@.len() ==> #[trigger] dists@[j] <= INFINITY32,
    ensures
        mean == mean_distance(dists@),
        mean <= INFINITY,
{
    let mut total: u64 = 0;
    let mut j: usize = 0;
    while j < dists.len()
        invariant
            forall|m: int| 0 <= m < dists@.len() ==> #[trigger] dists@[m] <= INFINITY32,
            j <= dists@.len(),
            total == total_distance(dists@, j as nat),
            total <= INFINITY,
        decreases dists@.len() - j,
    {
        total = sum(total, widen(dists[j]));
        j += 1;
    }
    divide_by_256(total)
}

/// The distinctness score of the pixel at place `i` of a tile.
fn score_at(image: &Image, labs: &Vec<LabValue>, i: usize) -> (s: u64)
    requires
        i < image@.pixels.len(),
        image@.pixels.len() == 256,
        labs_match(labs@, image@.pixels),
    ensures
        s == score(image@.pixels, image@.pixels[i as int]),
{
    let mut dists: Vec<u32> = Vec::new();
    let mut j: usize = 0;
    while j < labs.len()
        invariant
            i < image@.pixels.len(),
            labs_match(labs@, image@.pixels),
            j <= labs@.len(),
            dists@.len() == j,
            forall|m: int|
                0 <= m < j ==> #[trigger] dists@[m] == distances_from(
                    image@.pixels,
                    image@.pixels[i as int],
                )[m] && dists@[m] <= INFINITY32,
        decreases labs@.len() - j,
    {
        dists.push(distance(&labs[i], &labs[j]));
        j += 1;
    }
    assert(dists@ =~= distances_from(image@.pixels, image@.pixels[i as int]));
    mean_of_distances(&dists)
}

/// One entry per pixel of a tile, in storage order.
fn score_all(image: &Image) -> (entries: Vec<DistinctColorEntry>)
    requires
        image@.pixels.len() == 256,
    ensures
        entries@ == scored(image@.pixels),
{
    let labs = labs_of(image);
    let mut entries: Vec<DistinctColorEntry> = Vec::new();
    let mut i: usize = 0;
    while i < image.pixels.len()
        invariant
            image@.pixels.len() == 256,
            labs_match(labs@, image@.pixels),
            i <= image@.pixels.len(),
            entries@.len() == i,
            forall|j: int| 0 <= j < i ==> #[trigger] entries@[j] == entry_of(image@.pixels, j),
        decreases image@.pixels.len() - i,
    {
        let s: u64 = score_at(image, &labs, i);
        entries.push(DistinctColorEntry { score: s, color: image.pixels[i], lab: labs[i] });
        i += 1;
    }
    assert(entries@ =~= scored(image@.pixels));
    entries
}

/// Ranks entries by rising score; entries of equal score keep their order.
pub fn rank(entries: &Vec<DistinctColorEntry>) -> (out: Vec<DistinctColorEntry>)
    ensures
        out@ == ranked(entries@),
{
    let mut out: Vec<DistinctColorEntry> = Vec::new();
    let mut i: usize = 0;
    assert(entries@.take(0) =~= Seq::empty());
    while i < entries.len()
        invariant
            i <= entries@.len(),
            out@ == ranked(entries@.take(i as int)),
            out@.len() == i,
        decreases entries@.len() - i,
    {
        let e: DistinctColorEntry = entries[i];
        let mut at: usize = out.len();
        while at > 0 && exceeds(out[at - 1].score, e.score)
            invariant
                at <= out@.len(),
                forall|j: int| at <= j < out@.len() ==> (#[trigger] out@[j]).score > e.score,
            decreases at,
        {
            at -= 1;
        }
        proof {
            lemma_inserted_at(out@, e, at as int);
            assert(entries@.take(i + 1).drop_last() =~= entries@.take(i as int));
        }
        out.insert(at, e);
        i += 1;
    }
    assert(entries@.take(entries@.len() as int) =~= entries@);
    out
}

/// Drops every entry that is the same as an entry before it: of several
/// equal entries the first is kept, at its place.
pub fn dedup(entries: &Vec<DistinctColorEntry>) -> (out: Vec<DistinctColorEntry>)
    requires
        forall|i: int| 0 <= i < entries@.len() ==> (#[trigger] entries@[i]).wf(),
    ensures
        out@ == deduped(entries@),
        forall|i: int, j: int| 0 <= i < j < out@.len() ==> #[trigger] out@[i] != #[trigger] out@[j],
{
    let mut out: Vec<DistinctColorEntry> = Vec::new();
    let mut i: usize = 0;
    assert(entries@.take(0) =~= Seq::empty());
    while i < entries.len()
        invariant
            i <= entries@.len(),
            out@ == deduped(entries@.take(i as int)),
        decreases entries@.len() - i,
    {
        let e: DistinctColorEntry = entries[i];
        let ghost prefix = entries@.take(i + 1);
        proof {
            assert(prefix.drop_last() =~= entries@.take(i as int));
        }
        let mut repeats: bool = false;
        let mut j: usize = 0;
        while j < i && !repeats
            invariant
                j <= i < entries@.len(),
                e == entries@[i as int],
                prefix == entries@.take(i + 1),
                repeats ==> seen_before(prefix, i as int),
                !repeats ==> forall|m: int| 0 <= m < j ==> !(#[trigger] prefix[m]).same(e),
            decreases i - j + (if repeats { 0int } else { 1int }),
        {
            if entries[j].score == e.score && entries[j].color == e.color {
                repeats = true;
                proof {
                    assert(prefix[j as int].same(prefix[i as int]));
                }
            } else {
                proof {
                    assert(prefix[j as int] == entries@[j as int]);
                }
                j += 1;
            }
        }
        if !repeats {
            out.push(e);
        }
        i += 1;
    }
    proof {
        assert(entries@.take(entries@.len() as int) =~= entries@);
        lemma_deduped_distinct(entries@);
        lemma_deduped_members(entries@);
        assert forall|i: int, j: int| 0 <= i < j < out@.len() implies #[trigger] out@[i]
            != #[trigger] out@[j] by {
            assert(entries@.contains(out@[i]) && entries@.contains(out@[j]));
            lemma_same_is_equal(out@[i], out@[j]);
        }
    }
    out
}

/// Tells whether no pixel of the image lets anything show through.
fn opaque(image: &Image) -> (yes: bool)
    ensures
        yes == image.is_opaque(),
{
    let mut i: usize = 0;
    while i < image.pixels.len()
        invariant
            i <= image@.pixels.len(),
            forall|j: int| 0 <= j < i ==> (#[trigger] image@.pixels[j]).a == OPAQUE,
        decreases image@.pixels.len() - i,
    {
        if image.pixels[i].a < OPAQUE {
            return false;
        }
        i += 1;
    }
    true
}

/// Computes the signature of a candidate, or `None` when its picture cannot
/// serve as a tile: when it is not 16 pixels wide and high, or when a pixel
/// of it is not fully opaque.
///
/// The signature lists every colour of the tile once, by rising score.
pub fn block_signature(candidate: &Candidate) -> (signature: Option<BlockSignature>)
    requires
        candidate.image.wf(),
    ensures
        signature.is_some() <==> candidate@.eligible(),
        signature matches Some(s) ==> s@ == candidate@.signature() && s@.entries.len() > 0,
        signature matches Some(s) ==> forall|i: int, j: int|
            0 <= i < j < s@.entries.len() ==> #[trigger] s@.entries[i] != #[trigger] s@.entries[j]
                && s@.entries[i].color != s@.entries[j].color,
        signature matches Some(s) ==> forall|i: int|
            0 <= i < s@.entries.len() ==> (#[trigger] s@.entries[i]).score <= INFINITY,
{
    if candidate.image.width != TILE || candidate.image.height != TILE {
        return None;
    }
    if !opaque(&candidate.image) {
        return None;
    }
    assert(candidate.image.width * candidate.image.height == 256) by (nonlinear_arith)
        requires
            candidate.image.width == 16,
            candidate.image.height == 16,
    ;
    let entries = score_all(&candidate.image);
    let in_order = rank(&entries);
    proof {
        lemma_ranked_members(entries@);
        assert forall|i: int| 0 <= i < in_order@.len() implies (#[trigger] in_order@[i]).wf() by {
            assert(entries@.contains(in_order@[i]));
        }
    }
    let distinct = dedup(&in_order);
    proof {
        lemma_ranked_len(entries@);
        lemma_deduped_nonempty(in_order@);
        lemma_signature_entries(candidate.image@.pixels);
    }
    Some(BlockSignature { path: candidate.path.clone(), entries: distinct })
}

/// Builds the palette of a run: the signature of every candidate that can
/// serve as a tile, in the candidates' order, each with its tile.
pub fn get_average_colors(blocks: &Vec<Candidate>) -> (palette: Palette)
    requires
        forall|i: int| 0 <= i < blocks@.len() ==> (#[trigger] blocks@[i]).image.wf(),
    ensures
        palette.wf(),
        palette@ == palette_of(candidate_views(blocks@)),
{
    let mut signatures: Vec<BlockSignature> = Vec::new();
    let mut tiles: Vec<Image> = Vec::new();
    let mut i: usize = 0;
    let ghost all = candidate_views(blocks@);
    assert(all.take(0) =~= Seq::empty());
    while i < blocks.len()
        invariant
            all == candidate_views(blocks@),
            forall|j: int| 0 <= j < blocks@.len() ==> (#[trigger] blocks@[j]).image.wf(),
            i <= blocks@.len(),
            signatures@.len() == tiles@.len(),
            forall|j: int|
                0 <= j < tiles@.len() ==> (#[trigger] tiles@[j]).wf() && tiles@[j].is_tile(),
            all_ranked(signature_views(signatures@)),
            signature_views(signatures@) == palette_of(all.take(i as int)).signatures,
            tiles@.map_values(|t: Image| t@.pixels) == palette_of(all.take(i as int)).tiles,
        decreases blocks@.len() - i,
    {
        let ghost before_s = signature_views(signatures@);
        let ghost before_t = tiles@.map_values(|t: Image| t@.pixels);
        proof {
            assert(all.take(i + 1).drop_last() =~= all.take(i as int));
            assert(all.take(i + 1).last() == blocks@[i as int]@);
        }
        match block_signature(&blocks[i]) {
            Some(s) => {
                let tile = blocks[i].image.duplicate();
                signatures.push(s);
                tiles.push(tile);
                proof {
                    assert(signature_views(signatures@) =~= before_s.push(s@));
                    assert(tiles@.map_values(|t: Image| t@.pixels) =~= before_t.push(tile@.pixels));
                }
            },
            None => {},
        }
        i += 1;
    }
    assert(all.take(blocks@.len() as int) =~= all);
    Palette { signatures, tiles }
}

} // verus!
