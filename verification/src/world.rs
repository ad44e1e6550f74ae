//! Chunk streaming around the player: which chunks should be loaded,
//! which to save and drop, which to load or generate, batched by the
//! region file that stores them.
use vstd::prelude::*;
use crate::coords::{region_of, region_of_spec, Coord2, Coord3};
use crate::text::{
    append_decimal, decimal, is_digit, lemma_decimal_injective, lemma_decimal_value, numeral_value,
};
use vstd::string::*;

verus! {

/// The chunks of one region, kept together so that they can be written
/// or read with one transaction on the region's file.
#[derive(Debug)]
pub struct RegionBatch {
    pub region: Coord2,
    pub chunks: Vec<Coord3>,
}

/// The regions of a sequence of chunks, each once, in order of first
/// appearance.
pub open spec fn regions_in_order(s: Seq<Coord3>) -> Seq<Coord2>
    decreases s.len(),
{
    if s.len() == 0 {
        Seq::empty()
    } else {
        let r = regions_in_order(s.drop_last());
        let last = region_of_spec(s.last());
        if r.contains(last) {
            r
        } else {
            r.push(last)
        }
    }
}

/// The chunks of a sequence that lie in a region, in their order.
pub open spec fn chunks_in_region(s: Seq<Coord3>, r: Coord2) -> Seq<Coord3>
    decreases s.len(),
{
    if s.len() == 0 {
        Seq::empty()
    } else {
        let rest = chunks_in_region(s.drop_last(), r);
        if region_of_spec(s.last()) == r {
            rest.push(s.last())
        } else {
            rest
        }
    }
}

/// `batches` groups `s` by region: one batch per region that `s` touches,
/// in order of first appearance, each holding that region's chunks in
/// their order in `s`.
pub open spec fn grouped_by_region(s: Seq<Coord3>, batches: Seq<RegionBatch>) -> bool {
    &&& batches.len() == regions_in_order(s).len()
    &&& forall|i: int|
        0 <= i < batches.len() ==> {
            &&& (#[trigger] batches[i]).region == regions_in_order(s)[i]
            &&& batches[i].chunks@ == chunks_in_region(s, regions_in_order(s)[i])
        }
}

proof fn lemma_regions_in_order_unique(s: Seq<Coord3>)
    ensures
        regions_in_order(s).no_duplicates(),
    decreases s.len(),
{
    if s.len() > 0 {
        lemma_regions_in_order_unique(s.drop_last());
    }
}

fn find_batch(batches: &Vec<RegionBatch>, r: Coord2) -> (j: usize)
    ensures
        j <= batches@.len(),
        j < batches@.len() ==> batches@[j as int].region == r,
        forall|k: int| 0 <= k < j ==> (#[trigger] batches@[k]).region != r,
{
    let mut j: usize = 0;
    while j < batches.len()
        invariant
            j <= batches@.len(),
            forall|k: int| 0 <= k < j ==> (#[trigger] batches@[k]).region != r,
        decreases batches@.len() - j,
    {
        if batches[j].region == r {
            return j;
        }
        j = j + 1;
    }
    j
}

/// Groups chunk coordinates by the region file that stores them.
pub fn group_by_region(coords: &Vec<Coord3>) -> (batches: Vec<RegionBatch>)
    ensures
        grouped_by_region(coords@, batches@),
{
    let mut batches: Vec<RegionBatch> = Vec::new();
    let n = coords.len();
    let mut i: usize = 0;
    while i < n
        invariant
            n == coords@.len(),
            i <= n,
            grouped_by_region(coords@.take(i as int), batches@),
        decreases n - i,
    {
        let c = coords[i];
        let r = region_of(c);
        let ghost s = coords@.take(i as int);
        let ghost s1 = coords@.take(i + 1);
        proof {
            assert(s1.drop_last() =~= s);
            assert(s1.last() == c);
        }
        let j = find_batch(&batches, r);
        let ghost old_batches = batches@;
        if j < batches.len() {
            batches[j].chunks.push(c);
            proof {
                assert(regions_in_order(s)[j as int] == r);
                assert(regions_in_order(s).contains(r));
                assert(regions_in_order(s1) == regions_in_order(s));
                assert forall|k: int| 0 <= k < batches@.len() implies {
                    &&& (#[trigger] batches@[k]).region == regions_in_order(s1)[k]
                    &&& batches@[k].chunks@ == chunks_in_region(s1, regions_in_order(s1)[k])
                } by {
                    lemma_regions_in_order_unique(s);
                    if k != j {
                        assert(batches@[k] == old_batches[k]);
                        assert(regions_in_order(s)[k] != r);
                        assert(chunks_in_region(s1, regions_in_order(s)[k]) == chunks_in_region(s, regions_in_order(s)[k]));
                    } else {
                        assert(chunks_in_region(s1, r) == chunks_in_region(s, r).push(c));
                    }
                }
            }
        } else {
            batches.push(RegionBatch { region: r, chunks: vec![c] });
            proof {
                assert(!regions_in_order(s).contains(r)) by {
                    if regions_in_order(s).contains(r) {
                        let k = choose|k: int| 0 <= k < regions_in_order(s).len() && regions_in_order(s)[k] == r;
                        assert(old_batches[k].region == r);
                    }
                }
                assert(regions_in_order(s1) == regions_in_order(s).push(r));
                lemma_no_chunks_outside(s, r);
                assert(chunks_in_region(s1, r) =~= seq![c]);
                assert forall|k: int| 0 <= k < batches@.len() implies {
                    &&& (#[trigger] batches@[k]).region == regions_in_order(s1)[k]
                    &&& batches@[k].chunks@ == chunks_in_region(s1, regions_in_order(s1)[k])
                } by {
                    if k < old_batches.len() {
                        assert(batches@[k] == old_batches[k]);
                        assert(regions_in_order(s)[k] != r) by {
                            lemma_regions_in_order_unique(s1);
                            assert(regions_in_order(s1)[k] == regions_in_order(s)[k]);
                            assert(regions_in_order(s1)[old_batches.len() as int] == r);
                        }
                    }
                }
            }
        }
        i = i + 1;
    }
    proof {
        assert(coords@.take(n as int) =~= coords@);
    }
    batches
}

proof fn lemma_last_region_listed(s: Seq<Coord3>)
    requires
        s.len() > 0,
    ensures
        regions_in_order(s).contains(region_of_spec(s.last())),
{
    let t = regions_in_order(s.drop_last());
    let last = region_of_spec(s.last());
    if !t.contains(last) {
        assert(t.push(last)[t.len() as int] == last);
    }
}

proof fn lemma_no_chunks_outside(s: Seq<Coord3>, r: Coord2)
    requires
        !regions_in_order(s).contains(r),
    ensures
        chunks_in_region(s, r) == Seq::<Coord3>::empty(),
    decreases s.len(),
{
    if s.len() > 0 {
        let t = s.drop_last();
        if regions_in_order(t).contains(r) {
            let k = choose|k: int| 0 <= k < regions_in_order(t).len() && regions_in_order(t)[k] == r;
            let rr = regions_in_order(s);
            assert(rr[k] == r);
        }
        lemma_last_region_listed(s);
        lemma_no_chunks_outside(t, r);
    }
}

} // verus!

verus! {

/// Height, in chunks, of the column kept loaded above and below the
/// player's chunk.
pub const VERTICAL_RANGE: i32 = 2;

/// One column of the view box: the chunks at horizontal offset `dx` and
/// vertical offset `dy` from the centre, z running from `-d` to `d`.
pub open spec fn view_column(c: Coord3, d: int, dx: int, dy: int) -> Seq<Coord3> {
    Seq::new(
        (2 * d + 1) as nat,
        |k: int| Coord3 { x: (c.x + dx) as i32, y: (c.y + dy) as i32, z: (c.z - d + k) as i32 },
    )
}

/// The first `m` columns, bottom to top, of the slab at offset `dx`.
pub open spec fn view_slab(c: Coord3, d: int, dx: int, m: int) -> Seq<Coord3>
    decreases m,
{
    if m <= 0 {
        Seq::empty()
    } else {
        view_slab(c, d, dx, m - 1) + view_column(c, d, dx, m - 1 - VERTICAL_RANGE)
    }
}

/// The first `m` slabs of the view box, x offset running from `-d`.
pub open spec fn view_box(c: Coord3, d: int, m: int) -> Seq<Coord3>
    decreases m,
{
    if m <= 0 {
        Seq::empty()
    } else {
        view_box(c, d, m - 1) + view_slab(c, d, m - 1 - d, 2 * VERTICAL_RANGE + 1)
    }
}

/// The chunks that should be loaded around `center`: every chunk within
/// `d` chunks horizontally and `VERTICAL_RANGE` chunks vertically, with x
/// varying slowest, then y, then z. A negative distance loads nothing.
pub open spec fn expected_chunks_spec(center: Coord3, d: int) -> Seq<Coord3> {
    if d < 0 {
        Seq::empty()
    } else {
        view_box(center, d, 2 * d + 1)
    }
}

/// Whether `p` lies in the box of chunks kept around `center`.
pub open spec fn in_view(center: Coord3, d: int, p: Coord3) -> bool {
    &&& center.x - d <= p.x <= center.x + d
    &&& center.y - VERTICAL_RANGE <= p.y <= center.y + VERTICAL_RANGE
    &&& center.z - d <= p.z <= center.z + d
}

/// The view box around `center` fits in `i32` coordinates.
pub open spec fn view_fits(center: Coord3, d: int) -> bool {
    &&& i32::MIN <= center.x - d && center.x + d <= i32::MAX
    &&& i32::MIN <= center.y - VERTICAL_RANGE && center.y + VERTICAL_RANGE <= i32::MAX
    &&& i32::MIN <= center.z - d && center.z + d <= i32::MAX
}

/// The chunk coordinates that should be loaded around `center`.
pub fn expected_chunks(center: Coord3, render_distance: i32) -> (v: Vec<Coord3>)
    requires
        render_distance > i32::MIN,
        render_distance >= 0 ==> view_fits(center, render_distance as int),
    ensures
        v@ == expected_chunks_spec(center, render_distance as int),
{
    let mut v: Vec<Coord3> = Vec::new();
    if render_distance < 0 {
        return v;
    }
    let d = render_distance as i64;
    let width = 2 * d + 1;
    let mut ix: i64 = 0;
    while ix < width
        invariant
            d == render_distance,
            0 <= d,
            width == 2 * d + 1,
            view_fits(center, d as int),
            0 <= ix <= width,
            v@ == view_box(center, d as int, ix as int),
        decreases width - ix,
    {
        let x = (center.x as i64 + ix - d) as i32;
        let mut iy: i64 = 0;
        while iy < 5
            invariant
                d == render_distance,
                0 <= d,
                width == 2 * d + 1,
                view_fits(center, d as int),
                0 <= ix < width,
                x == center.x + ix - d,
                0 <= iy <= 5,
                v@ == view_box(center, d as int, ix as int) + view_slab(center, d as int, ix - d, iy as int),
            decreases 5 - iy,
        {
            let y = (center.y as i64 + iy - 2) as i32;
            let mut iz: i64 = 0;
            while iz < width
                invariant
                    d == render_distance,
                    0 <= d,
                    width == 2 * d + 1,
                    view_fits(center, d as int),
                    0 <= ix < width,
                    x == center.x + ix - d,
                    0 <= iy < 5,
                    y == center.y + iy - 2,
                    0 <= iz <= width,
                    v@ == view_box(center, d as int, ix as int) + view_slab(center, d as int, ix - d, iy as int)
                        + view_column(center, d as int, ix - d, iy - 2).take(iz as int),
                decreases width - iz,
            {
                let z = (center.z as i64 + iz - d) as i32;
                v.push(Coord3 { x, y, z });
                proof {
                    let col = view_column(center, d as int, ix - d, iy - 2);
                    assert(col.take(iz + 1) =~= col.take(iz as int).push(col[iz as int]));
                    assert(col[iz as int] == Coord3 { x, y, z });
                }
                iz = iz + 1;
            }
            proof {
                let col = view_column(center, d as int, ix - d, iy - 2);
                assert(col.take(width as int) =~= col);
                assert(view_slab(center, d as int, ix - d, iy + 1) == view_slab(center, d as int, ix - d, iy as int) + col);
            }
            iy = iy + 1;
        }
        ix = ix + 1;
    }
    v
}

} // verus!

verus! {

/// The elements of `s` that `t` does not contain, in their order in `s`.
pub open spec fn minus(s: Seq<Coord3>, t: Seq<Coord3>) -> Seq<Coord3>
    decreases s.len(),
{
    if s.len() == 0 {
        Seq::empty()
    } else {
        let rest = minus(s.drop_last(), t);
        if t.contains(s.last()) {
            rest
        } else {
            rest.push(s.last())
        }
    }
}

/// What to do with the loaded chunks after the player moved: which
/// chunks to save and drop, which to load or generate, both batched by
/// region file.
#[derive(Debug)]
pub struct ChunkPlan {
    pub unload: Vec<RegionBatch>,
    pub load: Vec<RegionBatch>,
}

fn contains_coord(v: &Vec<Coord3>, c: Coord3) -> (b: bool)
    ensures
        b == v@.contains(c),
{
    let mut i: usize = 0;
    while i < v.len()
        invariant
            i <= v@.len(),
            forall|j: int| 0 <= j < i ==> v@[j] != c,
        decreases v@.len() - i,
    {
        if v[i] == c {
            return true;
        }
        i = i + 1;
    }
    false
}

/// The elements of `s` that `t` does not contain.
pub fn difference(s: &Vec<Coord3>, t: &Vec<Coord3>) -> (r: Vec<Coord3>)
    ensures
        r@ == minus(s@, t@),
{
    let mut r: Vec<Coord3> = Vec::new();
    let mut i: usize = 0;
    while i < s.len()
        invariant
            i <= s@.len(),
            r@ == minus(s@.take(i as int), t@),
        decreases s@.len() - i,
    {
        let c = s[i];
        if !contains_coord(t, c) {
            r.push(c);
        }
        proof {
            assert(s@.take(i + 1).drop_last() =~= s@.take(i as int));
        }
        i = i + 1;
    }
    proof {
        assert(s@.take(s@.len() as int) =~= s@);
    }
    r
}

/// Plans the chunk traffic around a player in chunk `center`: the loaded
/// chunks outside the view box are to be saved and dropped, the chunks
/// of the view box that are not loaded are to be loaded, each list
/// grouped by region.
pub fn plan_chunk_update(loaded: &Vec<Coord3>, center: Coord3, render_distance: i32) -> (plan:
    ChunkPlan)
    requires
        render_distance > i32::MIN,
        render_distance >= 0 ==> view_fits(center, render_distance as int),
    ensures
        grouped_by_region(
            minus(loaded@, expected_chunks_spec(center, render_distance as int)),
            plan.unload@,
        ),
        grouped_by_region(
            minus(expected_chunks_spec(center, render_distance as int), loaded@),
            plan.load@,
        ),
{
    let expected = expected_chunks(center, render_distance);
    let gone = difference(loaded, &expected);
    let missing = difference(&expected, loaded);
    ChunkPlan { unload: group_by_region(&gone), load: group_by_region(&missing) }
}

} // verus!

verus! {

proof fn lemma_add_contains(a: Seq<Coord3>, b: Seq<Coord3>, x: Coord3)
    ensures
        (a + b).contains(x) <==> (a.contains(x) || b.contains(x)),
{
    if (a + b).contains(x) {
        let i = choose|i: int| 0 <= i < (a + b).len() && (a + b)[i] == x;
        if i < a.len() {
            assert(a[i] == x);
        } else {
            assert(b[i - a.len()] == x);
        }
    }
    if a.contains(x) {
        let i = choose|i: int| 0 <= i < a.len() && a[i] == x;
        assert((a + b)[i] == x);
    }
    if b.contains(x) {
        let i = choose|i: int| 0 <= i < b.len() && b[i] == x;
        assert((a + b)[a.len() + i] == x);
    }
}

proof fn lemma_push_contains(a: Seq<Coord3>, y: Coord3, x: Coord3)
    ensures
        a.push(y).contains(x) <==> (a.contains(x) || x == y),
{
    lemma_add_contains(a, seq![y], x);
    assert(a.push(y) =~= a + seq![y]);
    if x == y {
        assert(seq![y][0] == x);
    }
}

/// An element survives `minus(s, t)` exactly when `s` has it and `t`
/// does not.
pub proof fn lemma_minus_contains(s: Seq<Coord3>, t: Seq<Coord3>, x: Coord3)
    ensures
        minus(s, t).contains(x) <==> (s.contains(x) && !t.contains(x)),
    decreases s.len(),
{
    if s.len() > 0 {
        let u = s.drop_last();
        lemma_minus_contains(u, t, x);
        lemma_push_contains(minus(u, t), s.last(), x);
        lemma_push_contains(u, s.last(), x);
        assert(u.push(s.last()) =~= s);
    }
}

proof fn lemma_view_column_contains(c: Coord3, d: int, dx: int, dy: int, p: Coord3)
    requires
        d >= 0,
        view_fits(c, d),
        -d <= dx <= d,
        -VERTICAL_RANGE <= dy <= VERTICAL_RANGE,
    ensures
        view_column(c, d, dx, dy).contains(p) <==> (p.x == c.x + dx && p.y == c.y + dy && c.z - d
            <= p.z <= c.z + d),
{
    let col = view_column(c, d, dx, dy);
    if p.x == c.x + dx && p.y == c.y + dy && c.z - d <= p.z <= c.z + d {
        let k = p.z - c.z + d;
        assert(col[k] == p);
    }
}

proof fn lemma_view_slab_contains(c: Coord3, d: int, dx: int, m: int, p: Coord3)
    requires
        d >= 0,
        view_fits(c, d),
        -d <= dx <= d,
        0 <= m <= 2 * VERTICAL_RANGE + 1,
    ensures
        view_slab(c, d, dx, m).contains(p) <==> (p.x == c.x + dx && c.y - VERTICAL_RANGE <= p.y
            < c.y - VERTICAL_RANGE + m && c.z - d <= p.z <= c.z + d),
    decreases m,
{
    if m > 0 {
        lemma_view_slab_contains(c, d, dx, m - 1, p);
        lemma_view_column_contains(c, d, dx, m - 1 - VERTICAL_RANGE, p);
        lemma_add_contains(
            view_slab(c, d, dx, m - 1),
            view_column(c, d, dx, m - 1 - VERTICAL_RANGE),
            p,
        );
    }
}

proof fn lemma_view_box_contains(c: Coord3, d: int, m: int, p: Coord3)
    requires
        d >= 0,
        view_fits(c, d),
        0 <= m <= 2 * d + 1,
    ensures
        view_box(c, d, m).contains(p) <==> (c.x - d <= p.x < c.x - d + m && c.y - VERTICAL_RANGE
            <= p.y <= c.y + VERTICAL_RANGE && c.z - d <= p.z <= c.z + d),
    decreases m,
{
    if m > 0 {
        lemma_view_box_contains(c, d, m - 1, p);
        lemma_view_slab_contains(c, d, m - 1 - d, 2 * VERTICAL_RANGE + 1, p);
        lemma_add_contains(
            view_box(c, d, m - 1),
            view_slab(c, d, m - 1 - d, 2 * VERTICAL_RANGE + 1),
            p,
        );
    }
}

/// The chunks kept loaded are exactly those of the view box.
pub proof fn lemma_expected_chunks_members(center: Coord3, d: int, p: Coord3)
    requires
        view_fits(center, d),
    ensures
        expected_chunks_spec(center, d).contains(p) <==> in_view(center, d, p),
{
    if d >= 0 {
        lemma_view_box_contains(center, d, 2 * d + 1, p);
    }
}

proof fn lemma_view_box_len(c: Coord3, d: int, m: int)
    requires
        d >= 0,
        0 <= m,
    ensures
        view_box(c, d, m).len() == m * (5 * (2 * d + 1)),
    decreases m,
{
    if m > 0 {
        lemma_view_box_len(c, d, m - 1);
        assert(view_slab(c, d, m - 1 - d, 5).len() == 5 * (2 * d + 1)) by {
            reveal_with_fuel(view_slab, 6);
        }
        assert(VERTICAL_RANGE == 2);
        assert(view_box(c, d, m) == view_box(c, d, m - 1) + view_slab(c, d, m - 1 - d, 5));
        assert(m * (5 * (2 * d + 1)) == (m - 1) * (5 * (2 * d + 1)) + 5 * (2 * d + 1)) by (nonlinear_arith);
        assert(view_box(c, d, m).len() == view_box(c, d, m - 1).len() + view_slab(c, d, m - 1 - d, 5).len());
    } else {
        assert(m == 0);
        assert(view_box(c, d, m).len() == 0);
        assert(m * (5 * (2 * d + 1)) == 0);
    }
}

/// The view box holds `(2d + 1)² · 5` chunks.
pub proof fn lemma_expected_chunks_count(center: Coord3, d: int)
    requires
        d >= 0,
    ensures
        expected_chunks_spec(center, d).len() == (2 * d + 1) * (2 * d + 1) * (2 * VERTICAL_RANGE + 1),
{
    lemma_view_box_len(center, d, 2 * d + 1);
    assert((2 * d + 1) * (5 * (2 * d + 1)) == (2 * d + 1) * (2 * d + 1) * 5) by (nonlinear_arith);
}

} // verus!

verus! {

/// Whether some batch holds `p`.
pub open spec fn in_batches(batches: Seq<RegionBatch>, p: Coord3) -> bool {
    exists|i: int| 0 <= i < batches.len() && (#[trigger] batches[i]).chunks@.contains(p)
}

proof fn lemma_chunks_in_region_members(s: Seq<Coord3>, r: Coord2, p: Coord3)
    ensures
        chunks_in_region(s, r).contains(p) <==> (s.contains(p) && region_of_spec(p) == r),
    decreases s.len(),
{
    if s.len() > 0 {
        let u = s.drop_last();
        lemma_chunks_in_region_members(u, r, p);
        lemma_push_contains(chunks_in_region(u, r), s.last(), p);
        lemma_push_contains(u, s.last(), p);
        assert(u.push(s.last()) =~= s);
    }
}

proof fn lemma_regions_in_order_members(s: Seq<Coord3>, r: Coord2)
    ensures
        regions_in_order(s).contains(r) <==> exists|i: int| 0 <= i < s.len() && region_of_spec(
            #[trigger] s[i],
        ) == r,
    decreases s.len(),
{
    if s.len() > 0 {
        let u = s.drop_last();
        lemma_regions_in_order_members(u, r);
        let last = region_of_spec(s.last());
        let ru = regions_in_order(u);
        if !ru.contains(last) {
            assert(ru.push(last) =~= ru + seq![last]);
            if ru.push(last).contains(r) {
                let k = choose|k: int| 0 <= k < ru.push(last).len() && ru.push(last)[k] == r;
                if k < ru.len() {
                    assert(ru[k] == r);
                }
            }
            if ru.contains(r) {
                let k = choose|k: int| 0 <= k < ru.len() && ru[k] == r;
                assert(ru.push(last)[k] == r);
            }
            if r == last {
                assert(ru.push(last)[ru.len() as int] == r);
            }
        }
        if exists|i: int| 0 <= i < s.len() && region_of_spec(#[trigger] s[i]) == r {
            let i = choose|i: int| 0 <= i < s.len() && region_of_spec(#[trigger] s[i]) == r;
            if i < s.len() - 1 {
                assert(u[i] == s[i]);
            } else {
                lemma_last_region_listed(s);
            }
        }
        if exists|i: int| 0 <= i < u.len() && region_of_spec(#[trigger] u[i]) == r {
            let i = choose|i: int| 0 <= i < u.len() && region_of_spec(#[trigger] u[i]) == r;
            assert(s[i] == u[i]);
        }
    }
}

/// Grouping by region is a partition: every batch is non-empty, holds
/// only chunks of its own region that `s` has, no two batches share a
/// region, and a chunk is in some batch exactly when `s` has it.
pub proof fn lemma_batches_partition(s: Seq<Coord3>, batches: Seq<RegionBatch>)
    requires
        grouped_by_region(s, batches),
    ensures
        forall|i: int| 0 <= i < batches.len() ==> (#[trigger] batches[i]).chunks@.len() > 0,
        forall|i: int, k: int|
            0 <= i < batches.len() && 0 <= k < batches[i].chunks@.len() ==> region_of_spec(
                #[trigger] batches[i].chunks@[k],
            ) == batches[i].region && s.contains(batches[i].chunks@[k]),
        forall|i: int, j: int|
            0 <= i < j < batches.len() ==> (#[trigger] batches[i]).region != (#[trigger] batches[j]).region,
        forall|p: Coord3| #[trigger] in_batches(batches, p) <==> s.contains(p),
{
    lemma_regions_in_order_unique(s);
    let regs = regions_in_order(s);
    assert forall|i: int| 0 <= i < batches.len() implies (#[trigger] batches[i]).chunks@.len() > 0 by {
        assert(regs.contains(regs[i]));
        lemma_regions_in_order_members(s, regs[i]);
        let k = choose|k: int| 0 <= k < s.len() && region_of_spec(#[trigger] s[k]) == regs[i];
        lemma_chunks_in_region_members(s, regs[i], s[k]);
    }
    assert forall|i: int, k: int|
        0 <= i < batches.len() && 0 <= k < batches[i].chunks@.len() implies region_of_spec(
        #[trigger] batches[i].chunks@[k],
    ) == batches[i].region && s.contains(batches[i].chunks@[k]) by {
        let p = batches[i].chunks@[k];
        assert(batches[i].chunks@.contains(p));
        lemma_chunks_in_region_members(s, regs[i], p);
    }
    assert forall|i: int, j: int| 0 <= i < j < batches.len() implies (#[trigger] batches[i]).region
        != (#[trigger] batches[j]).region by {
        assert(regs[i] != regs[j]);
    }
    assert forall|p: Coord3| #[trigger] in_batches(batches, p) <==> s.contains(p) by {
        if in_batches(batches, p) {
            let i = choose|i: int| 0 <= i < batches.len() && (#[trigger] batches[i]).chunks@.contains(p);
            lemma_chunks_in_region_members(s, regs[i], p);
        }
        if s.contains(p) {
            let k = choose|k: int| 0 <= k < s.len() && s[k] == p;
            lemma_regions_in_order_members(s, region_of_spec(p));
            assert(region_of_spec(s[k]) == region_of_spec(p));
            let i = choose|i: int| 0 <= i < regs.len() && regs[i] == region_of_spec(p);
            lemma_chunks_in_region_members(s, regs[i], p);
            assert(batches[i].chunks@.contains(p));
        }
    }
}

/// Carrying out a plan brings the loaded chunks to the view box: a chunk
/// is unloaded exactly when it is loaded and outside the box, loaded
/// exactly when it is inside the box and not yet loaded, and afterwards
/// a chunk is loaded exactly when it lies in the box.
pub proof fn lemma_plan_reaches_view(
    loaded: Seq<Coord3>,
    center: Coord3,
    d: int,
    unload: Seq<RegionBatch>,
    load: Seq<RegionBatch>,
    p: Coord3,
)
    requires
        view_fits(center, d),
        grouped_by_region(minus(loaded, expected_chunks_spec(center, d)), unload),
        grouped_by_region(minus(expected_chunks_spec(center, d), loaded), load),
    ensures
        in_batches(unload, p) <==> (loaded.contains(p) && !in_view(center, d, p)),
        in_batches(load, p) <==> (in_view(center, d, p) && !loaded.contains(p)),
        ((loaded.contains(p) && !in_batches(unload, p)) || in_batches(load, p)) <==> in_view(
            center,
            d,
            p,
        ),
{
    let e = expected_chunks_spec(center, d);
    lemma_batches_partition(minus(loaded, e), unload);
    lemma_batches_partition(minus(e, loaded), load);
    lemma_minus_contains(loaded, e, p);
    lemma_minus_contains(e, loaded, p);
    lemma_expected_chunks_members(center, d, p);
    assert(in_batches(unload, p) <==> minus(loaded, e).contains(p));
    assert(in_batches(load, p) <==> minus(e, loaded).contains(p));
}

} // verus!

verus! {

/// Path, relative to the world directory, of a region's database file:
/// `regions/r.<x>.<z>.redb`.
pub open spec fn region_file_name_spec(r: Coord2) -> Seq<char> {
    "regions/r."@ + decimal(r.x as int) + "."@ + decimal(r.y as int) + ".redb"@
}

/// Path, relative to the world directory, of a region's database file.
pub fn region_file_name(r: Coord2) -> (p: String)
    ensures
        p@ == region_file_name_spec(r),
{
    let mut p = String::from_str("regions/r.");
    append_decimal(&mut p, r.x);
    p.append(".");
    append_decimal(&mut p, r.y);
    p.append(".redb");
    p
}

/// Path, relative to the world directory, of the database file that
/// stores a chunk.
pub fn chunk_file_name(c: Coord3) -> (p: String)
    ensures
        p@ == region_file_name_spec(region_of_spec(c)),
{
    region_file_name(region_of(c))
}

} // verus!

verus! {

/// Lexicographic order of grid points: x first, then y, then z.
pub open spec fn coord_lt(p: Coord3, q: Coord3) -> bool {
    p.x < q.x || (p.x == q.x && (p.y < q.y || (p.y == q.y && p.z < q.z)))
}

pub open spec fn strictly_sorted(s: Seq<Coord3>) -> bool {
    forall|i: int, j: int| 0 <= i < j < s.len() ==> coord_lt(#[trigger] s[i], #[trigger] s[j])
}

proof fn lemma_concat_sorted(a: Seq<Coord3>, b: Seq<Coord3>)
    requires
        strictly_sorted(a),
        strictly_sorted(b),
        forall|i: int, j: int| 0 <= i < a.len() && 0 <= j < b.len() ==> coord_lt(#[trigger] a[i], #[trigger] b[j]),
    ensures
        strictly_sorted(a + b),
{
    let s = a + b;
    assert forall|i: int, j: int| 0 <= i < j < s.len() implies coord_lt(#[trigger] s[i], #[trigger] s[j]) by {
        if j < a.len() {
            assert(s[i] == a[i] && s[j] == a[j]);
        } else if i >= a.len() {
            assert(s[i] == b[i - a.len()] && s[j] == b[j - a.len()]);
        } else {
            assert(s[i] == a[i] && s[j] == b[j - a.len()]);
        }
    }
}

proof fn lemma_view_slab_shape(c: Coord3, d: int, dx: int, m: int)
    requires
        d >= 0,
        view_fits(c, d),
        -d <= dx <= d,
        0 <= m <= 2 * VERTICAL_RANGE + 1,
    ensures
        strictly_sorted(view_slab(c, d, dx, m)),
        forall|i: int|
            0 <= i < view_slab(c, d, dx, m).len() ==> (#[trigger] view_slab(c, d, dx, m)[i]).x == c.x
                + dx && c.y - VERTICAL_RANGE <= view_slab(c, d, dx, m)[i].y < c.y - VERTICAL_RANGE
                + m,
    decreases m,
{
    if m > 0 {
        lemma_view_slab_shape(c, d, dx, m - 1);
        let a = view_slab(c, d, dx, m - 1);
        let b = view_column(c, d, dx, m - 1 - VERTICAL_RANGE);
        assert(strictly_sorted(b));
        lemma_concat_sorted(a, b);
        assert(view_slab(c, d, dx, m) == a + b);
        assert forall|i: int| 0 <= i < (a + b).len() implies (#[trigger] (a + b)[i]).x == c.x + dx
            && c.y - VERTICAL_RANGE <= (a + b)[i].y < c.y - VERTICAL_RANGE + m by {
            if i < a.len() {
                assert((a + b)[i] == a[i]);
            } else {
                assert((a + b)[i] == b[i - a.len()]);
            }
        }
    }
}

proof fn lemma_view_box_shape(c: Coord3, d: int, m: int)
    requires
        d >= 0,
        view_fits(c, d),
        0 <= m <= 2 * d + 1,
    ensures
        strictly_sorted(view_box(c, d, m)),
        forall|i: int|
            0 <= i < view_box(c, d, m).len() ==> c.x - d <= (#[trigger] view_box(c, d, m)[i]).x < c.x
                - d + m,
    decreases m,
{
    if m > 0 {
        lemma_view_box_shape(c, d, m - 1);
        lemma_view_slab_shape(c, d, m - 1 - d, 2 * VERTICAL_RANGE + 1);
        let a = view_box(c, d, m - 1);
        let b = view_slab(c, d, m - 1 - d, 2 * VERTICAL_RANGE + 1);
        lemma_concat_sorted(a, b);
        assert forall|i: int| 0 <= i < (a + b).len() implies c.x - d <= (#[trigger] (a + b)[i]).x
            < c.x - d + m by {
            if i < a.len() {
                assert((a + b)[i] == a[i]);
            } else {
                assert((a + b)[i] == b[i - a.len()]);
            }
        }
    }
}

/// The view box lists every chunk once, in increasing (x, y, z) order.
pub proof fn lemma_expected_chunks_distinct(center: Coord3, d: int)
    requires
        view_fits(center, d),
    ensures
        strictly_sorted(expected_chunks_spec(center, d)),
        expected_chunks_spec(center, d).no_duplicates(),
{
    if d >= 0 {
        lemma_view_box_shape(center, d, 2 * d + 1);
    }
    let s = expected_chunks_spec(center, d);
    assert forall|i: int, j: int| 0 <= i < s.len() && 0 <= j < s.len() && i != j implies s[i] != s[j] by {
        if i < j {
            assert(coord_lt(s[i], s[j]));
        } else {
            assert(coord_lt(s[j], s[i]));
        }
    }
}

} // verus!

verus! {

proof fn lemma_minus_no_duplicates(s: Seq<Coord3>, t: Seq<Coord3>)
    requires
        s.no_duplicates(),
    ensures
        minus(s, t).no_duplicates(),
    decreases s.len(),
{
    if s.len() > 0 {
        let u = s.drop_last();
        assert(u.no_duplicates()) by {
            assert forall|i: int, j: int| 0 <= i < u.len() && 0 <= j < u.len() && i != j implies u[i] != u[j] by {
                assert(u[i] == s[i] && u[j] == s[j]);
            }
        }
        lemma_minus_no_duplicates(u, t);
        if !t.contains(s.last()) {
            let r = minus(u, t);
            lemma_minus_contains(u, t, s.last());
            if u.contains(s.last()) {
                let k = choose|k: int| 0 <= k < u.len() && u[k] == s.last();
                assert(s[k] == s[s.len() - 1]);
            }
            assert forall|i: int, j: int| 0 <= i < r.push(s.last()).len() && 0 <= j < r.push(s.last()).len()
                && i != j implies r.push(s.last())[i] != r.push(s.last())[j] by {
                if i == r.len() {
                    assert(r[j] != s.last()) by {
                        assert(r.contains(r[j]));
                    }
                } else if j == r.len() {
                    assert(r[i] != s.last()) by {
                        assert(r.contains(r[i]));
                    }
                }
            }
        }
    }
}

proof fn lemma_chunks_in_region_no_duplicates(s: Seq<Coord3>, r: Coord2)
    requires
        s.no_duplicates(),
    ensures
        chunks_in_region(s, r).no_duplicates(),
    decreases s.len(),
{
    if s.len() > 0 {
        let u = s.drop_last();
        assert(u.no_duplicates()) by {
            assert forall|i: int, j: int| 0 <= i < u.len() && 0 <= j < u.len() && i != j implies u[i] != u[j] by {
                assert(u[i] == s[i] && u[j] == s[j]);
            }
        }
        lemma_chunks_in_region_no_duplicates(u, r);
        if region_of_spec(s.last()) == r {
            let q = chunks_in_region(u, r);
            lemma_chunks_in_region_members(u, r, s.last());
            if u.contains(s.last()) {
                let k = choose|k: int| 0 <= k < u.len() && u[k] == s.last();
                assert(s[k] == s[s.len() - 1]);
            }
            assert forall|i: int, j: int| 0 <= i < q.push(s.last()).len() && 0 <= j < q.push(s.last()).len()
                && i != j implies q.push(s.last())[i] != q.push(s.last())[j] by {
                if i == q.len() {
                    assert(q.contains(q[j]));
                } else if j == q.len() {
                    assert(q.contains(q[i]));
                }
            }
        }
    }
}

/// A plan never loads a chunk twice: the chunks to load are spread over
/// batches of distinct regions, and no batch lists a chunk twice.
pub proof fn lemma_plan_loads_each_chunk_once(
    loaded: Seq<Coord3>,
    center: Coord3,
    d: int,
    load: Seq<RegionBatch>,
)
    requires
        view_fits(center, d),
        grouped_by_region(minus(expected_chunks_spec(center, d), loaded), load),
    ensures
        forall|i: int| 0 <= i < load.len() ==> (#[trigger] load[i]).chunks@.no_duplicates(),
        forall|i: int, j: int, p: Coord3|
            0 <= i < j < load.len() && #[trigger] load[i].chunks@.contains(p) ==> !#[trigger] load[j].chunks@.contains(p),
{
    let s = minus(expected_chunks_spec(center, d), loaded);
    lemma_expected_chunks_distinct(center, d);
    lemma_minus_no_duplicates(expected_chunks_spec(center, d), loaded);
    lemma_batches_partition(s, load);
    assert forall|i: int| 0 <= i < load.len() implies (#[trigger] load[i]).chunks@.no_duplicates() by {
        lemma_chunks_in_region_no_duplicates(s, regions_in_order(s)[i]);
    }
    assert forall|i: int, j: int, p: Coord3|
        0 <= i < j < load.len() && #[trigger] load[i].chunks@.contains(p) implies !#[trigger] load[j].chunks@.contains(p) by {
        if load[j].chunks@.contains(p) {
            let a = choose|k: int| 0 <= k < load[i].chunks@.len() && load[i].chunks@[k] == p;
            let b = choose|k: int| 0 <= k < load[j].chunks@.len() && load[j].chunks@[k] == p;
            assert(region_of_spec(load[i].chunks@[a]) == load[i].region);
            assert(region_of_spec(load[j].chunks@[b]) == load[j].region);
        }
    }
}

} // verus!

verus! {

/// Different regions are stored in different files.
pub proof fn lemma_region_files_distinct(r1: Coord2, r2: Coord2)
    requires
        r1 != r2,
    ensures
        region_file_name_spec(r1) != region_file_name_spec(r2),
{
    reveal_strlit("regions/r.");
    reveal_strlit(".");
    reveal_strlit(".redb");
    let pre = "regions/r."@;
    let dot = "."@;
    let suf = ".redb"@;
    let (a1, b1) = (decimal(r1.x as int), decimal(r1.y as int));
    let (a2, b2) = (decimal(r2.x as int), decimal(r2.y as int));
    lemma_decimal_injective(r1.x as int, r2.x as int);
    lemma_decimal_injective(r2.x as int, r1.x as int);
    lemma_decimal_injective(r1.y as int, r2.y as int);
    let n1 = pre + a1 + dot + b1 + suf;
    let n2 = pre + a2 + dot + b2 + suf;
    assert(n1 == region_file_name_spec(r1));
    assert(n2 == region_file_name_spec(r2));
    if n1 == n2 {
        let p = pre.len() as int;
        if a1.len() < a2.len() {
            let k = p + a1.len();
            assert(n1[k] == '.');
            assert(n2[k] == a2[a1.len() as int]);
            assert(is_digit(a2[a1.len() as int]) || (a1.len() == 0 && a2[0] == '-'));
        } else if a2.len() < a1.len() {
            let k = p + a2.len();
            assert(n2[k] == '.');
            assert(n1[k] == a1[a2.len() as int]);
            assert(is_digit(a1[a2.len() as int]) || (a2.len() == 0 && a1[0] == '-'));
        } else {
            assert(a1 =~= n1.subrange(p, p + a1.len()));
            assert(a2 =~= n2.subrange(p, p + a2.len()));
            let q = p + a1.len() + 1;
            assert(b1 =~= n1.subrange(q, q + b1.len()));
            assert(b2 =~= n2.subrange(q, q + b2.len()));
            assert(b1.len() == b2.len());
        }
    }
}

} // verus!

verus! {

proof fn lemma_minus_empty(s: Seq<Coord3>, t: Seq<Coord3>)
    requires
        forall|p: Coord3| s.contains(p) ==> t.contains(p),
    ensures
        minus(s, t).len() == 0,
{
    if minus(s, t).len() > 0 {
        let p = minus(s, t)[0];
        assert(minus(s, t).contains(p));
        lemma_minus_contains(s, t, p);
    }
}

/// Once the loaded chunks are exactly those of the view box, planning
/// again asks for nothing: there is nothing to unload and nothing to load.
pub proof fn lemma_plan_at_rest(
    loaded: Seq<Coord3>,
    center: Coord3,
    d: int,
    unload: Seq<RegionBatch>,
    load: Seq<RegionBatch>,
)
    requires
        view_fits(center, d),
        forall|p: Coord3| loaded.contains(p) <==> in_view(center, d, p),
        grouped_by_region(minus(loaded, expected_chunks_spec(center, d)), unload),
        grouped_by_region(minus(expected_chunks_spec(center, d), loaded), load),
    ensures
        unload.len() == 0,
        load.len() == 0,
{
    let e = expected_chunks_spec(center, d);
    assert forall|p: Coord3| loaded.contains(p) implies e.contains(p) by {
        lemma_expected_chunks_members(center, d, p);
    }
    assert forall|p: Coord3| e.contains(p) implies loaded.contains(p) by {
        lemma_expected_chunks_members(center, d, p);
    }
    lemma_minus_empty(loaded, e);
    lemma_minus_empty(e, loaded);
    assert(minus(loaded, e) =~= Seq::<Coord3>::empty());
    assert(minus(e, loaded) =~= Seq::<Coord3>::empty());
}

} // verus!

verus! {

fn fits(c: i32, r: i64) -> (ok: bool)
    requires
        0 <= r <= i32::MAX,
    ensures
        ok == (i32::MIN <= c - r && c + r <= i32::MAX),
{
    c as i64 - r >= i32::MIN as i64 && c as i64 + r <= i32::MAX as i64
}

/// Whether `plan_chunk_update` and `expected_chunks` accept these
/// arguments: the distance can be negated, and every chunk of the view
/// box has `i32` coordinates.
pub fn view_in_range(center: Coord3, render_distance: i32) -> (b: bool)
    ensures
        b == (render_distance > i32::MIN && (render_distance >= 0 ==> view_fits(
            center,
            render_distance as int,
        ))),
{
    if render_distance == i32::MIN {
        return false;
    }
    if render_distance < 0 {
        return true;
    }
    let d = render_distance as i64;
    let v = VERTICAL_RANGE as i64;
    fits(center.x, d) && fits(center.y, v) && fits(center.z, d)
}

} // verus!

verus! {

/// A region's file name reads `regions/r.<x>.<z>.redb`: after the
/// prefix `regions/r.` comes a numeral free of dots whose value is the
/// region's x, then a dot, then a numeral whose value is the region's z
/// (its `y` field), then `.redb`, for regions of any sign.
pub proof fn lemma_region_file_name_reads_back(r: Coord2)
    ensures
        ({
            let n = region_file_name_spec(r);
            let k = 10 + decimal(r.x as int).len() as int;
            &&& n.len() >= k + 6
            &&& n.subrange(0, 10) == "regions/r."@
            &&& n[k] == '.'
            &&& forall|i: int| 10 <= i < k ==> #[trigger] n[i] != '.'
            &&& numeral_value(n.subrange(10, k)) == r.x
            &&& numeral_value(n.subrange(k + 1, n.len() - 5)) == r.y
            &&& n.subrange(n.len() - 5, n.len() as int) == ".redb"@
        }),
{
    reveal_strlit("regions/r.");
    reveal_strlit(".");
    reveal_strlit(".redb");
    let a = decimal(r.x as int);
    let b = decimal(r.y as int);
    let n = region_file_name_spec(r);
    let pre = "regions/r."@;
    let k = 10 + a.len() as int;
    lemma_decimal_value(r.x as int);
    lemma_decimal_value(r.y as int);
    lemma_decimal_injective(r.x as int, r.x as int);
    assert(n == pre + a + "."@ + b + ".redb"@);
    assert(n.subrange(0, 10) =~= pre);
    assert(n.subrange(10, k) =~= a);
    assert(n[k] == '.');
    assert(n.subrange(k + 1, n.len() - 5) =~= b);
    assert(n.subrange(n.len() - 5, n.len() as int) =~= ".redb"@);
    assert forall|i: int| 10 <= i < k implies #[trigger] n[i] != '.' by {
        assert(n[i] == a[i - 10]);
        assert(is_digit(a[i - 10]) || (i - 10 == 0 && a[i - 10] == '-'));
    }
}

} // verus!
