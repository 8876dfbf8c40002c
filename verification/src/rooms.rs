use vstd::prelude::*;

use vstd::string::*;

use crate::problem::rows;
use crate::union_find::{count_eq, NONE};
use crate::walk_data::{label_at, label_of, walks_ok};
use crate::walker::{index_in, is_graph, is_partial_graph, labels_ok, lemma_label_range};

verus! {

/// Door `k` of `row` is unknown, and the label seen behind it, `dlrow[k]`, is
/// `label`.
pub open spec fn fits_label(row: Seq<usize>, dlrow: Seq<usize>, label: i8, k: int) -> bool {
    &&& row[k] == NONE
    &&& label >= 0
    &&& dlrow[k] == label as usize
}

/// Number of doors `k' < k` of `row` for which `fits_label` holds.
pub open spec fn count_fitting(row: Seq<usize>, dlrow: Seq<usize>, label: i8, k: int) -> nat
    decreases k,
{
    if k <= 0 {
        0
    } else {
        count_fitting(row, dlrow, label, k - 1) + if fits_label(row, dlrow, label, k - 1) {
            1nat
        } else {
            0nat
        }
    }
}

/// Every unknown door of `row` has a label seen behind it.
pub open spec fn loose_labelled(row: Seq<usize>, dlrow: Seq<usize>) -> bool {
    forall|k: int| 0 <= k < 6 && row[k] == NONE ==> dlrow[k] != NONE
}

/// `row` with its unknown doors sent to `j`.
pub open spec fn fill_loose(row: Seq<usize>, j: usize) -> Seq<usize> {
    Seq::new(6, |k: int| if row[k] == NONE { j } else { row[k] })
}

/// `row` with the doors for which `fits_label` holds sent to `j`.
pub open spec fn fill_fitting(row: Seq<usize>, dlrow: Seq<usize>, label: i8, j: usize) -> Seq<usize> {
    Seq::new(6, |k: int| if fits_label(row, dlrow, label, k) { j } else { row[k] })
}

/// One step of degree matching on the door targets `g` (labels seen behind the
/// doors `dl`, room labels `nl`): where fewer doors of room `i` are known to lead
/// to room `j` than doors of `j` lead to `i`, the missing doors of `i` are its
/// unknown doors if they are exactly that many, or else, when every unknown door
/// has a label seen behind it, those unknown doors behind which `j`'s label was
/// seen if they are exactly that many; otherwise nothing changes.
pub open spec fn degree_step(g: Seq<Seq<usize>>, dl: Seq<Seq<usize>>, nl: Seq<i8>, i: int, j: int) -> Seq<Seq<usize>> {
    let ci = count_eq(g[i], j as usize, 6);
    let cj = count_eq(g[j], i as usize, 6);
    if i == j || ci >= cj {
        g
    } else if cj - ci == count_eq(g[i], NONE, 6) {
        g.update(i, fill_loose(g[i], j as usize))
    } else if loose_labelled(g[i], dl[i]) && cj - ci == count_fitting(g[i], dl[i], nl[j], 6) {
        g.update(i, fill_fitting(g[i], dl[i], nl[j], j as usize))
    } else {
        g
    }
}

/// The steps between room `i` and the rooms `0 .. j`, in order.
pub open spec fn degree_row(g: Seq<Seq<usize>>, dl: Seq<Seq<usize>>, nl: Seq<i8>, i: int, j: int) -> Seq<Seq<usize>>
    decreases j,
{
    if j <= 0 {
        g
    } else {
        degree_step(degree_row(g, dl, nl, i, j - 1), dl, nl, i, j - 1)
    }
}

/// The steps of the rooms `0 .. i`, each with all `n` rooms, in order.
pub open spec fn degree_pass(g: Seq<Seq<usize>>, dl: Seq<Seq<usize>>, nl: Seq<i8>, n: int, i: int) -> Seq<Seq<usize>>
    decreases i,
{
    if i <= 0 {
        g
    } else {
        degree_row(degree_pass(g, dl, nl, n, i - 1), dl, nl, i - 1, n)
    }
}

/// Sends the doors of room `i` listed in `doors` to room `j`.
fn fill_doors_to(graph: &mut Vec<Vec<usize>>, i: usize, doors: &Vec<usize>, j: usize, node_count: usize)
    requires
        is_partial_graph(old(graph)@, node_count as nat),
        i < node_count,
        j < node_count,
        forall|q: int| 0 <= q < doors@.len() ==> #[trigger] doors@[q] < 6,
    ensures
        is_partial_graph(final(graph)@, node_count as nat),
        rows(final(graph)@) == rows(old(graph)@).update(
            i as int,
            Seq::new(6, |k: int| if doors@.contains(k as usize) { j } else { rows(old(graph)@)[i as int][k] }),
        ),
{
    let ghost g0 = rows(graph@);
    let mut q: usize = 0;
    while q < doors.len()
        invariant
            is_partial_graph(graph@, node_count as nat),
            i < node_count,
            j < node_count,
            q <= doors@.len(),
            forall|r: int| 0 <= r < doors@.len() ==> #[trigger] doors@[r] < 6,
            g0.len() == node_count,
            g0[i as int].len() == 6,
            forall|a: int| 0 <= a < node_count && a != i ==> #[trigger] rows(graph@)[a] == g0[a],
            forall|k: int|
                0 <= k < 6 ==> #[trigger] rows(graph@)[i as int][k] == if (exists|r: int| 0 <= r < q && doors@[r] == k) {
                    j
                } else {
                    g0[i as int][k]
                },
        decreases doors@.len() - q,
    {
        let k = doors[q];
        let ghost before = graph@;
        graph[i][k] = j;
        proof {
            assert forall|a: int, d: int| 0 <= a < node_count && 0 <= d < 6 implies #[trigger] graph@[a]@[d] == NONE
                || graph@[a]@[d] < node_count by {
                if a != i {
                    assert(graph@[a] == before[a]);
                } else if d != k {
                    assert(graph@[a]@[d] == before[a]@[d]);
                }
            }
            assert forall|a: int| 0 <= a < node_count implies (#[trigger] graph@[a])@.len() == 6 by {
                if a != i {
                    assert(graph@[a] == before[a]);
                }
            }
            assert forall|a: int| 0 <= a < node_count && a != i implies #[trigger] rows(graph@)[a] == g0[a] by {
                assert(graph@[a] == before[a]);
                assert(rows(before)[a] == g0[a]);
            }
            assert forall|kk: int| 0 <= kk < 6 implies #[trigger] rows(graph@)[i as int][kk] == if (exists|r: int|
                0 <= r < q + 1 && doors@[r] == kk) {
                j
            } else {
                g0[i as int][kk]
            } by {
                assert(rows(graph@)[i as int] == graph@[i as int]@);
                assert(rows(before)[i as int] == before[i as int]@);
                if kk == k {
                    assert(doors@[q as int] == kk);
                } else {
                    assert(graph@[i as int]@[kk] == before[i as int]@[kk]);
                    if exists|r: int| 0 <= r < q + 1 && doors@[r] == kk {
                        let r = choose|r: int| 0 <= r < q + 1 && doors@[r] == kk;
                        assert(r < q);
                    }
                }
            }
        }
        q = q + 1;
    }
    proof {
        let target = g0.update(
            i as int,
            Seq::new(6, |k: int| if doors@.contains(k as usize) { j } else { g0[i as int][k] }),
        );
        assert forall|k: int| 0 <= k < 6 implies #[trigger] rows(graph@)[i as int][k] == target[i as int][k] by {
            if doors@.contains(k as usize) {
                let r = choose|r: int| 0 <= r < doors@.len() && doors@[r] == k as usize;
                assert(doors@[r] == k);
            } else {
                if exists|r: int| 0 <= r < q && doors@[r] == k {
                    let r = choose|r: int| 0 <= r < q && doors@[r] == k;
                    assert(doors@[r] == k as usize);
                }
            }
        }
        assert(rows(graph@)[i as int] =~= target[i as int]);
        assert(rows(graph@) =~= target);
    }
}

/// Performs `degree_step` between rooms `i` and `j`.
fn degree_step_exec(
    graph: &mut Vec<Vec<usize>>,
    destination_labels: &Vec<Vec<usize>>,
    node_label: &Vec<i8>,
    node_count: usize,
    i: usize,
    j: usize,
)
    requires
        is_partial_graph(old(graph)@, node_count as nat),
        destination_labels@.len() == node_count,
        forall|q: int| 0 <= q < node_count ==> (#[trigger] destination_labels@[q])@.len() == 6,
        node_label@.len() == node_count,
        i < node_count,
        j < node_count,
    ensures
        is_partial_graph(final(graph)@, node_count as nat),
        rows(final(graph)@) == degree_step(rows(old(graph)@), rows(destination_labels@), node_label@, i as int, j as int),
{
    if i == j {
        return;
    }
    let ghost g = rows(graph@);
    let ghost dl = rows(destination_labels@);
    proof {
        assert(g[i as int] == graph@[i as int]@);
        assert(g[j as int] == graph@[j as int]@);
        assert(dl[i as int] == destination_labels@[i as int]@);
    }
    let mut count_i: usize = 0;
    let mut count_j: usize = 0;
    let mut k: usize = 0;
    while k < 6
        invariant
            is_partial_graph(graph@, node_count as nat),
            g == rows(graph@),
            g[i as int] == graph@[i as int]@,
            g[j as int] == graph@[j as int]@,
            i < node_count,
            j < node_count,
            k <= 6,
            count_i == count_eq(g[i as int], j, k as int),
            count_j == count_eq(g[j as int], i, k as int),
            count_i <= k,
            count_j <= k,
        decreases 6 - k,
    {
        if graph[i][k] == j {
            count_i = count_i + 1;
        }
        if graph[j][k] == i {
            count_j = count_j + 1;
        }
        k = k + 1;
    }
    if count_i < count_j {
        let rest = count_j - count_i;
        let mut loose_candidates: Vec<usize> = Vec::new();
        let mut has_label = true;
        let mut k: usize = 0;
        while k < 6
            invariant
                is_partial_graph(graph@, node_count as nat),
                g == rows(graph@),
                dl == rows(destination_labels@),
                g[i as int] == graph@[i as int]@,
                dl[i as int] == destination_labels@[i as int]@,
                destination_labels@.len() == node_count,
                forall|q: int| 0 <= q < node_count ==> (#[trigger] destination_labels@[q])@.len() == 6,
                i < node_count,
                k <= 6,
                loose_candidates@.len() == count_eq(g[i as int], NONE, k as int),
                forall|q: int|
                    0 <= q < loose_candidates@.len() ==> #[trigger] loose_candidates@[q] < k && g[i as int][loose_candidates@[q] as int]
                        == NONE,
                forall|kk: int| 0 <= kk < k && g[i as int][kk] == NONE ==> #[trigger] loose_candidates@.contains(kk as usize),
                has_label == (forall|kk: int| 0 <= kk < k && g[i as int][kk] == NONE ==> #[trigger] dl[i as int][kk] != NONE),
            decreases 6 - k,
        {
            if graph[i][k] == NONE {
                let ghost before = loose_candidates@;
                loose_candidates.push(k);
                proof {
                    assert forall|kk: int| 0 <= kk < k + 1 && g[i as int][kk] == NONE implies #[trigger] loose_candidates@.contains(
                        kk as usize,
                    ) by {
                        if kk == k {
                            assert(loose_candidates@[before.len() as int] == k);
                        } else {
                            assert(before.contains(kk as usize));
                            let r = choose|r: int| 0 <= r < before.len() && before[r] == kk as usize;
                            assert(loose_candidates@[r] == kk);
                        }
                    }
                }
                if destination_labels[i][k] == NONE {
                    has_label = false;
                }
            }
            k = k + 1;
        }
        proof {
            assert(has_label == loose_labelled(g[i as int], dl[i as int]));
        }
        if rest == loose_candidates.len() {
            fill_doors_to(graph, i, &loose_candidates, j, node_count);
            proof {
                let row = Seq::new(6, |k: int| if loose_candidates@.contains(k as usize) { j } else { g[i as int][k] });
                assert forall|kk: int| 0 <= kk < 6 implies #[trigger] row[kk] == fill_loose(g[i as int], j)[kk] by {
                    if loose_candidates@.contains(kk as usize) {
                        let r = choose|r: int| 0 <= r < loose_candidates@.len() && loose_candidates@[r] == kk as usize;
                        assert(g[i as int][loose_candidates@[r] as int] == NONE);
                    }
                }
                assert(row =~= fill_loose(g[i as int], j));
            }
        } else {
            let mut candidates: Vec<usize> = Vec::new();
            if has_label {
                let lj = node_label[j];
                let mut k: usize = 0;
                while k < 6
                    invariant
                        is_partial_graph(graph@, node_count as nat),
                        g == rows(graph@),
                        dl == rows(destination_labels@),
                        g[i as int] == graph@[i as int]@,
                        dl[i as int] == destination_labels@[i as int]@,
                        destination_labels@.len() == node_count,
                        forall|q: int| 0 <= q < node_count ==> (#[trigger] destination_labels@[q])@.len() == 6,
                        node_label@.len() == node_count,
                        lj == node_label@[j as int],
                        i < node_count,
                        j < node_count,
                        k <= 6,
                        candidates@.len() == count_fitting(g[i as int], dl[i as int], lj, k as int),
                        forall|q: int|
                            0 <= q < candidates@.len() ==> #[trigger] candidates@[q] < k && fits_label(
                                g[i as int],
                                dl[i as int],
                                lj,
                                candidates@[q] as int,
                            ),
                        forall|kk: int|
                            0 <= kk < k && fits_label(g[i as int], dl[i as int], lj, kk) ==> #[trigger] candidates@.contains(
                                kk as usize,
                            ),
                    decreases 6 - k,
                {
                    if graph[i][k] == NONE && lj >= 0 && destination_labels[i][k] == lj as usize {
                        let ghost before = candidates@;
                        candidates.push(k);
                        proof {
                            assert forall|kk: int|
                                0 <= kk < k + 1 && fits_label(g[i as int], dl[i as int], lj, kk) implies #[trigger] candidates@.contains(
                                kk as usize,
                            ) by {
                                if kk == k {
                                    assert(candidates@[before.len() as int] == k);
                                } else {
                                    assert(before.contains(kk as usize));
                                    let r = choose|r: int| 0 <= r < before.len() && before[r] == kk as usize;
                                    assert(candidates@[r] == kk);
                                }
                            }
                        }
                    }
                    k = k + 1;
                }
            }
            if candidates.len() == rest {
                proof {
                    assert(has_label);
                }
                fill_doors_to(graph, i, &candidates, j, node_count);
                proof {
                    let lj = node_label@[j as int];
                    let row = Seq::new(6, |k: int| if candidates@.contains(k as usize) { j } else { g[i as int][k] });
                    assert forall|kk: int| 0 <= kk < 6 implies #[trigger] row[kk] == fill_fitting(
                        g[i as int],
                        dl[i as int],
                        lj,
                        j,
                    )[kk] by {
                        if candidates@.contains(kk as usize) {
                            let r = choose|r: int| 0 <= r < candidates@.len() && candidates@[r] == kk as usize;
                            assert(fits_label(g[i as int], dl[i as int], lj, candidates@[r] as int));
                        }
                    }
                    assert(row =~= fill_fitting(g[i as int], dl[i as int], lj, j));
                }
            }
        }
    }
}

/// Degree matching: for each room `i` and then each room `j`, in order, performs
/// `degree_step` between them.
pub(crate) fn match_degrees(
    graph: &mut Vec<Vec<usize>>,
    destination_labels: &Vec<Vec<usize>>,
    node_label: &Vec<i8>,
    node_count: usize,
)
    requires
        is_partial_graph(old(graph)@, node_count as nat),
        destination_labels@.len() == node_count,
        forall|i: int| 0 <= i < node_count ==> (#[trigger] destination_labels@[i])@.len() == 6,
        node_label@.len() == node_count,
    ensures
        is_partial_graph(final(graph)@, node_count as nat),
        rows(final(graph)@) == degree_pass(
            rows(old(graph)@),
            rows(destination_labels@),
            node_label@,
            node_count as int,
            node_count as int,
        ),
{
    let ghost g0 = rows(graph@);
    let ghost dl = rows(destination_labels@);
    let mut i: usize = 0;
    while i < node_count
        invariant
            is_partial_graph(graph@, node_count as nat),
            destination_labels@.len() == node_count,
            forall|q: int| 0 <= q < node_count ==> (#[trigger] destination_labels@[q])@.len() == 6,
            node_label@.len() == node_count,
            dl == rows(destination_labels@),
            i <= node_count,
            rows(graph@) == degree_pass(g0, dl, node_label@, node_count as int, i as int),
        decreases node_count - i,
    {
        let mut j: usize = 0;
        while j < node_count
            invariant
                is_partial_graph(graph@, node_count as nat),
                destination_labels@.len() == node_count,
                forall|q: int| 0 <= q < node_count ==> (#[trigger] destination_labels@[q])@.len() == 6,
                node_label@.len() == node_count,
                dl == rows(destination_labels@),
                i < node_count,
                j <= node_count,
                rows(graph@) == degree_row(
                    degree_pass(g0, dl, node_label@, node_count as int, i as int),
                    dl,
                    node_label@,
                    i as int,
                    j as int,
                ),
            decreases node_count - j,
        {
            degree_step_exec(graph, destination_labels, node_label, node_count, i, j);
            j = j + 1;
        }
        i = i + 1;
    }
}

/// Position of `x` in `v` when it occurs there, else `NONE`.
pub open spec fn slot_of(v: Seq<usize>, x: usize) -> usize {
    if v.contains(x) {
        (choose|i: int| 0 <= i < v.len() && v[i] == x) as usize
    } else {
        NONE
    }
}

/// Labels of the chosen classes `roots`: the label at each representative's
/// position.
pub open spec fn room_labels(results: Seq<Vec<i8>>, length: nat, roots: Seq<usize>) -> Seq<i8> {
    Seq::new(roots.len(), |i: int| label_at(results, length, roots[i] as int))
}

/// Door targets among the chosen classes `roots`: door `d` of room `i` leads to
/// the room whose class `class_edges[i][d]` names, or is unknown (`NONE`).
pub open spec fn known_doors(roots: Seq<usize>, class_edges: Seq<Seq<usize>>) -> Seq<Seq<usize>> {
    Seq::new(roots.len(), |i: int| Seq::new(6, |d: int| slot_of(roots, class_edges[i][d])))
}

/// For each known door target `t` of `g`, the label at walk position `t` (the
/// room's number read as a position); `NONE` for unknown doors.
pub open spec fn labels_behind(results: Seq<Vec<i8>>, length: nat, g: Seq<Seq<usize>>) -> Seq<Seq<usize>> {
    Seq::new(
        g.len(),
        |i: int| Seq::new(6, |d: int| if g[i][d] == NONE { NONE } else { label_at(results, length, g[i][d] as int) as usize }),
    )
}

/// The map that the chosen classes `roots` describe, room `i` being the class of
/// `roots[i]`: labels from `room_labels`, door targets from `known_doors`
/// completed by `degree_pass`, and the starting room that of `start_root`. It is
/// refused when `start_root` is not among `roots`, or when some door is still
/// unknown after the completion.
pub open spec fn classes_map(results: Seq<Vec<i8>>, roots: Seq<usize>, start_root: usize, class_edges: Seq<Seq<usize>>) -> Result<
    (Seq<i8>, usize, Seq<Seq<usize>>),
    Seq<char>,
> {
    let length = results[0]@.len();
    let n = roots.len() as int;
    let labels = room_labels(results, length, roots);
    let g0 = known_doors(roots, class_edges);
    let g = degree_pass(g0, labels_behind(results, length, g0), labels, n, n);
    if !roots.contains(start_root) {
        Err("Start index not found"@)
    } else if exists|i: int, d: int| 0 <= i < n && 0 <= d < 6 && #[trigger] g[i][d] == NONE {
        Err("Graph is invalid"@)
    } else {
        Ok((labels, slot_of(roots, start_root), g))
    }
}

/// `res` is the map, or the message, that `expected` gives.
pub open spec fn map_result_is(
    res: Result<(Vec<i8>, usize, Vec<Vec<usize>>), String>,
    expected: Result<(Seq<i8>, usize, Seq<Seq<usize>>), Seq<char>>,
) -> bool {
    match expected {
        Ok((labels, start, g)) => res matches Ok((l, st, gr)) && l@ == labels && st == start && rows(gr@) == g,
        Err(m) => res matches Err(e) && e@ == m,
    }
}

/// Builds the map that the classes `roots` of walk positions describe (see
/// `classes_map`), `class_edges[i]` giving for each door of the class of
/// `roots[i]` the representative of the class it leads to, or `NONE`.
pub fn map_from_classes(
    results: &[Vec<i8>],
    roots: &Vec<usize>,
    start_root: usize,
    class_edges: &Vec<Vec<usize>>,
) -> (res: Result<(Vec<i8>, usize, Vec<Vec<usize>>), String>)
    requires
        walks_ok(results@, results@[0]@.len()),
        labels_ok(results@),
        roots@.len() <= results@.len() * results@[0]@.len(),
        roots@.no_duplicates(),
        forall|k: int| 0 <= k < roots@.len() ==> #[trigger] roots@[k] < results@.len() * results@[0]@.len(),
        class_edges@.len() == roots@.len(),
        forall|k: int| 0 <= k < class_edges@.len() ==> (#[trigger] class_edges@[k])@.len() == 6,
    ensures
        map_result_is(res, classes_map(results@, roots@, start_root, rows(class_edges@))),
        res matches Ok((node_label, start_index, graph)) ==> {
            &&& node_label@.len() == roots@.len()
            &&& forall|i: int| 0 <= i < roots@.len() ==> 0 <= #[trigger] node_label@[i] < 4
            &&& start_index < roots@.len()
            &&& is_graph(graph@, roots@.len())
        },
{
    let length = results[0].len();
    let node_count = roots.len();
    let ghost ce = rows(class_edges@);
    let start_index = match index_in(roots, start_root) {
        Some(v) => v,
        None => {
            return Err(String::from_str("Start index not found"));
        },
    };
    proof {
        assert(roots@.contains(start_root));
        let c = choose|i: int| 0 <= i < roots@.len() && roots@[i] == start_root;
        assert(c == start_index as int);
    }
    let mut node_label: Vec<i8> = Vec::new();
    let mut i: usize = 0;
    while i < node_count
        invariant
            walks_ok(results@, length as nat),
            labels_ok(results@),
            length == results@[0]@.len(),
            node_count == roots@.len(),
            node_count <= results@.len() * length,
            forall|k: int| 0 <= k < roots@.len() ==> #[trigger] roots@[k] < results@.len() * length,
            i <= node_count,
            node_label@ =~= room_labels(results@, length as nat, roots@).take(i as int),
            forall|q: int| 0 <= q < i ==> 0 <= #[trigger] node_label@[q] < 4,
        decreases node_count - i,
    {
        proof {
            lemma_label_range(results@, length as nat, roots@[i as int] as int);
        }
        node_label.push(label_of(results, length, roots[i]));
        i = i + 1;
    }
    let mut graph: Vec<Vec<usize>> = Vec::new();
    let mut destination_labels: Vec<Vec<usize>> = Vec::new();
    let ghost g0 = known_doors(roots@, ce);
    let ghost dl0 = labels_behind(results@, length as nat, g0);
    let mut i: usize = 0;
    while i < node_count
        invariant
            walks_ok(results@, length as nat),
            labels_ok(results@),
            length == results@[0]@.len(),
            node_count == roots@.len(),
            node_count <= results@.len() * length,
            roots@.no_duplicates(),
            class_edges@.len() == node_count,
            forall|k: int| 0 <= k < class_edges@.len() ==> (#[trigger] class_edges@[k])@.len() == 6,
            ce == rows(class_edges@),
            g0 == known_doors(roots@, ce),
            dl0 == labels_behind(results@, length as nat, g0),
            i <= node_count,
            graph@.len() == i,
            destination_labels@.len() == i,
            forall|q: int| 0 <= q < i ==> (#[trigger] graph@[q])@ == g0[q],
            forall|q: int| 0 <= q < i ==> (#[trigger] destination_labels@[q])@ == dl0[q],
            forall|q: int, d: int| 0 <= q < i && 0 <= d < 6 ==> #[trigger] graph@[q]@[d] == NONE || graph@[q]@[d] < node_count,
        decreases node_count - i,
    {
        let edges = &class_edges[i];
        proof {
            assert(ce[i as int] == edges@);
        }
        let mut g_row: Vec<usize> = Vec::new();
        let mut d_row: Vec<usize> = Vec::new();
        let mut j: usize = 0;
        while j < 6
            invariant
                walks_ok(results@, length as nat),
                labels_ok(results@),
                length == results@[0]@.len(),
                node_count == roots@.len(),
                node_count <= results@.len() * length,
                roots@.no_duplicates(),
                i < node_count,
                edges@.len() == 6,
                ce[i as int] == edges@,
                g0 == known_doors(roots@, ce),
                dl0 == labels_behind(results@, length as nat, g0),
                j <= 6,
                g_row@ =~= g0[i as int].take(j as int),
                d_row@ =~= dl0[i as int].take(j as int),
                forall|d: int| 0 <= d < j ==> #[trigger] g_row@[d] == NONE || g_row@[d] < node_count,
            decreases 6 - j,
        {
            match index_in(roots, edges[j]) {
                Some(dst) => {
                    proof {
                        let c = choose|q: int| 0 <= q < roots@.len() && roots@[q] == edges@[j as int];
                        assert(c == dst as int);
                        assert(g0[i as int][j as int] == dst);
                        lemma_label_range(results@, length as nat, dst as int);
                    }
                    g_row.push(dst);
                    d_row.push(label_of(results, length, dst) as usize);
                },
                None => {
                    proof {
                        assert(g0[i as int][j as int] == NONE);
                    }
                    g_row.push(NONE);
                    d_row.push(NONE);
                },
            }
            j = j + 1;
        }
        proof {
            assert(g_row@ =~= g0[i as int]);
            assert(d_row@ =~= dl0[i as int]);
        }
        graph.push(g_row);
        destination_labels.push(d_row);
        i = i + 1;
    }
    proof {
        assert(rows(graph@) =~= g0);
        assert(rows(destination_labels@) =~= dl0);
        assert(node_label@ =~= room_labels(results@, length as nat, roots@));
    }
    match_degrees(&mut graph, &destination_labels, &node_label, node_count);
    let ghost g = rows(graph@);
    let mut i: usize = 0;
    while i < node_count
        invariant
            is_partial_graph(graph@, node_count as nat),
            g == rows(graph@),
            g == degree_pass(g0, dl0, room_labels(results@, length as nat, roots@), node_count as int, node_count as int),
            g0 == known_doors(roots@, rows(class_edges@)),
            dl0 == labels_behind(results@, length as nat, g0),
            length == results@[0]@.len(),
            node_count == roots@.len(),
            roots@.contains(start_root),
            i <= node_count,
            forall|q: int, d: int| 0 <= q < i && 0 <= d < 6 ==> #[trigger] g[q][d] != NONE,
            node_label@.len() == node_count,
            forall|q: int| 0 <= q < node_count ==> 0 <= #[trigger] node_label@[q] < 4,
            start_index < node_count,
        decreases node_count - i,
    {
        let mut j: usize = 0;
        while j < 6
            invariant
                is_partial_graph(graph@, node_count as nat),
                g == rows(graph@),
                g == degree_pass(g0, dl0, room_labels(results@, length as nat, roots@), node_count as int, node_count as int),
                g0 == known_doors(roots@, rows(class_edges@)),
                dl0 == labels_behind(results@, length as nat, g0),
                length == results@[0]@.len(),
                node_count == roots@.len(),
                roots@.contains(start_root),
                i < node_count,
                j <= 6,
                forall|q: int, d: int| 0 <= q < i && 0 <= d < 6 ==> #[trigger] g[q][d] != NONE,
                forall|d: int| 0 <= d < j ==> #[trigger] g[i as int][d] != NONE,
            decreases 6 - j,
        {
            proof {
                assert(g[i as int] == graph@[i as int]@);
            }
            if graph[i][j] == NONE {
                proof {
                    assert(g[i as int][j as int] == NONE);
                }
                return Err(String::from_str("Graph is invalid"));
            }
            j = j + 1;
        }
        i = i + 1;
    }
    proof {
        assert forall|q: int, d: int| 0 <= q < node_count && 0 <= d < 6 implies #[trigger] graph@[q]@[d] < node_count by {
            assert(g[q] == graph@[q]@);
        }
    }
    Ok((node_label, start_index, graph))
}

} // verus!
