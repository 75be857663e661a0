use vstd::prelude::*;

verus! {

/// The `k`-th triangle of a vertex list: three consecutive vertices.
pub open spec fn triangle_indices(k: int) -> (int, int, int) {
    (3 * k, 3 * k + 1, 3 * k + 2)
}

/// Index triples as mathematical integers.
pub open spec fn triples_view(s: Seq<(usize, usize, usize)>) -> Seq<(int, int, int)> {
    s.map_values(|t: (usize, usize, usize)| (t.0 as int, t.1 as int, t.2 as int))
}

/// Groups `vertex_count` vertices into triangles of three consecutive
/// vertices; trailing vertices that do not fill a triangle are left out.
pub fn assemble_triangles(vertex_count: usize) -> (triangles: Vec<(usize, usize, usize)>)
    ensures
        triangles.len() == vertex_count / 3,
        triples_view(triangles@) == Seq::new((vertex_count / 3) as nat, |k: int| triangle_indices(k)),
        forall|k: int|
            0 <= k < triangles.len() ==> (#[trigger] triangles@[k]).0 == 3 * k && triangles@[k].1 == 3 * k + 1
                && triangles@[k].2 == 3 * k + 2,
{
    let mut triangles: Vec<(usize, usize, usize)> = Vec::new();
    let mut i: usize = 0;
    while vertex_count - i > 2
        invariant
            i <= vertex_count,
            i == 3 * triangles.len(),
            forall|k: int|
                0 <= k < triangles.len() ==> ((#[trigger] triangles@[k]).0 as int, triangles@[k].1 as int, triangles@[k].2 as int)
                    == triangle_indices(k),
        decreases vertex_count - i,
    {
        triangles.push((i, i + 1, i + 2));
        i = i + 3;
    }
    assert(triangles.len() == vertex_count / 3);
    assert(triples_view(triangles@) =~= Seq::new((vertex_count / 3) as nat, |k: int| triangle_indices(k)));
    triangles
}

/// Each of the first `3 * (vertex_count / 3)` vertices belongs to exactly
/// one assembled triangle, at position `j % 3` of triangle `j / 3`, and no
/// triangle refers to a vertex past the end of the list.
pub proof fn lemma_triangles_partition(vertex_count: nat, j: int)
    requires
        0 <= j < 3 * (vertex_count / 3),
    ensures
        0 <= j / 3 < vertex_count / 3,
        ({
            let t = triangle_indices(j / 3);
            &&& t.2 < vertex_count
            &&& (j % 3 == 0 ==> t.0 == j)
            &&& (j % 3 == 1 ==> t.1 == j)
            &&& (j % 3 == 2 ==> t.2 == j)
        }),
{
}

/// Whether a fragment at `pos` lands on a `width` x `height` frame.
pub open spec fn fragment_on_frame(pos: (usize, usize), width: usize, height: usize) -> bool {
    pos.0 < width && pos.1 < height
}

/// Indices of the fragments that land on the frame, in order.
pub open spec fn frame_fragment_indices(positions: Seq<(usize, usize)>, width: usize, height: usize) -> Seq<int> {
    Seq::new(positions.len(), |i: int| i).filter(|i: int| fragment_on_frame(positions[i], width, height))
}


/// Filtering a strictly increasing sequence keeps it strictly increasing.
proof fn lemma_filter_increasing(s: Seq<int>, pred: spec_fn(int) -> bool)
    requires
        forall|i: int, j: int| 0 <= i < j < s.len() ==> s[i] < s[j],
    ensures
        forall|i: int, j: int| 0 <= i < j < s.filter(pred).len() ==> s.filter(pred)[i] < s.filter(pred)[j],
        forall|i: int| 0 <= i < s.filter(pred).len() ==> #[trigger] s.contains(s.filter(pred)[i]),
    decreases s.len(),
{
    reveal(Seq::filter);
    if s.len() > 0 {
        let t = s.drop_last();
        lemma_filter_increasing(t, pred);
        let ft = t.filter(pred);
        assert forall|i: int| 0 <= i < ft.len() implies ft[i] < s.last() by {
            assert(t.contains(ft[i]));
            let k = choose|k: int| 0 <= k < t.len() && t[k] == ft[i];
        }
        assert forall|i: int| 0 <= i < s.filter(pred).len() implies #[trigger] s.contains(s.filter(pred)[i]) by {
            if i < ft.len() {
                assert(t.contains(ft[i]));
                let k = choose|k: int| 0 <= k < t.len() && t[k] == ft[i];
                assert(s[k] == ft[i]);
            } else {
                assert(s[s.len() - 1] == s.filter(pred)[i]);
            }
        }
    }
}

/// The fragments kept are exactly those at positions with `x < width` and
/// `y < height`, each once, in increasing order.
pub proof fn lemma_frame_fragments_exact(positions: Seq<(usize, usize)>, width: usize, height: usize)
    ensures
        forall|i: int|
            #[trigger] frame_fragment_indices(positions, width, height).contains(i) <==> (0 <= i < positions.len()
                && positions[i].0 < width && positions[i].1 < height),
        forall|i: int, j: int|
            0 <= i < j < frame_fragment_indices(positions, width, height).len() ==> frame_fragment_indices(
                positions,
                width,
                height,
            )[i] < frame_fragment_indices(positions, width, height)[j],
{
    let all = Seq::new(positions.len(), |i: int| i);
    let pred = |i: int| fragment_on_frame(positions[i], width, height);
    let kept = all.filter(pred);
    lemma_filter_increasing(all, pred);
    assert forall|i: int|
        #[trigger] kept.contains(i) <==> (0 <= i < positions.len() && positions[i].0 < width && positions[i].1
            < height) by {
        if kept.contains(i) {
            all.lemma_filter_contains_rev(pred, i);
        }
        if 0 <= i < positions.len() && positions[i].0 < width && positions[i].1 < height {
            all.lemma_filter_contains(pred, i);
        }
    }
}

/// Picks, in order, the fragments whose pixel positions land on a `width` x
/// `height` frame.
pub fn visible_fragment_indices(positions: &Vec<(usize, usize)>, width: usize, height: usize) -> (indices: Vec<usize>)
    ensures
        indices@.map_values(|i: usize| i as int) == frame_fragment_indices(positions@, width, height),
        indices.len() == frame_fragment_indices(positions@, width, height).len(),
        forall|j: int|
            0 <= j < indices.len() ==> (#[trigger] indices@[j]) as int == frame_fragment_indices(
                positions@,
                width,
                height,
            )[j],
{
    let ghost all = Seq::new(positions@.len(), |i: int| i);
    let ghost pred = |i: int| fragment_on_frame(positions@[i], width, height);
    let mut indices: Vec<usize> = Vec::new();
    let mut i: usize = 0;
    while i < positions.len()
        invariant
            i <= positions.len(),
            all == Seq::new(positions@.len(), |i: int| i),
            pred == (|i: int| fragment_on_frame(positions@[i], width, height)),
            indices@.map_values(|i: usize| i as int) == all.take(i as int).filter(pred),
        decreases positions.len() - i,
    {
        let (x, y) = positions[i];
        proof {
            assert(all.take(i + 1) =~= all.take(i as int).push(i as int));
            all.take(i as int).lemma_filter_push(i as int, pred);
        }
        if x < width && y < height {
            indices.push(i);
        }
        proof {
            assert(indices@.map_values(|i: usize| i as int) =~= all.take(i + 1).filter(pred));
        }
        i = i + 1;
    }
    assert(all.take(i as int) =~= all);
    indices
}

} // verus!
