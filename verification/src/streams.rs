//! Stream links: the stream network split at junctions.
//!
//! Each link runs from a head (no upstream stream cell) or a junction
//! (two or more upstream stream cells) downstream to the next junction
//! or to the end of the stream (inclusive), so the Strahler order is
//! constant along a link.

use vstd::prelude::*;
use crate::analysis::{count_value, lemma_strahler_unique, stream_mask, strahler_ok, strahler_rule, top_value, NetworkAnalysis};
use crate::graph::{lemma_walk_ends, lemma_walk_pit_absorbs, lemma_walk_step, walk, PIT};
use crate::network::Network;

verus! {

/// Number of stream cells in `cells`.
pub open spec fn count_stream(mask: Seq<bool>, cells: Seq<usize>) -> int
    decreases cells.len(),
{
    if cells.len() == 0 {
        0
    } else {
        count_stream(mask, cells.drop_last()) + if mask[cells.last() as int] {
            1int
        } else {
            0int
        }
    }
}

/// Stream cells draining into cell `i`.
pub open spec fn stream_inflows(up: Seq<Vec<usize>>, mask: Seq<bool>, i: int) -> int {
    count_stream(mask, up[i]@)
}

/// A link starts at stream heads and junctions.
pub open spec fn link_start(up: Seq<Vec<usize>>, mask: Seq<bool>, i: int) -> bool {
    mask[i] && (stream_inflows(up, mask, i) == 0 || stream_inflows(up, mask, i) >= 2)
}

/// The link start cells below `m`, in increasing order.
pub open spec fn link_starts(up: Seq<Vec<usize>>, mask: Seq<bool>, m: int) -> Seq<usize>
    decreases m,
{
    if m <= 0 {
        Seq::empty()
    } else if link_start(up, mask, m - 1) {
        link_starts(up, mask, m - 1).push((m - 1) as usize)
    } else {
        link_starts(up, mask, m - 1)
    }
}

/// `cells` is the link starting at `start`: the flow path from it, along
/// stream cells, ending at the first junction after the start, or at the
/// last stream cell before a pit or a non-stream cell.
pub open spec fn link_ok(ds: Seq<usize>, up: Seq<Vec<usize>>, mask: Seq<bool>, start: int, cells: Seq<usize>) -> bool {
    &&& cells.len() >= 1
    &&& forall|t: int| 0 <= t < cells.len() ==> #[trigger] cells[t] < ds.len()
    &&& forall|t: int| 0 <= t < cells.len() ==> #[trigger] cells[t] as int == walk(ds, start, t as nat)
    &&& forall|t: int| 0 < t < cells.len() ==> mask[#[trigger] cells[t] as int]
    &&& forall|t: int| 0 < t < cells.len() - 1 ==> stream_inflows(up, mask, #[trigger] cells[t] as int) < 2
    &&& {
        let last = cells[cells.len() - 1] as int;
        ||| (cells.len() > 1 && stream_inflows(up, mask, last) >= 2)
        ||| ds[last] == PIT
        ||| !mask[ds[last] as int]
    }
}

/// One stream link.
pub struct StreamLink {
    /// Flat cell indices along the link (upstream to downstream).
    pub cells: Vec<usize>,
    /// Strahler order (constant along the link).
    pub order: u8,
    /// Flow accumulation at the downstream end.
    pub outlet_acc: u64,
}

/// Count of stream cells in a list, computed.
fn count_stream_cells(is_stream: &Vec<bool>, cells: &[usize]) -> (c: usize)
    requires
        forall|t: int| 0 <= t < cells@.len() ==> #[trigger] cells@[t] < is_stream@.len(),
    ensures
        c as int == count_stream(is_stream@, cells@),
        c <= cells@.len(),
{
    let mut c: usize = 0;
    let mut t: usize = 0;
    while t < cells.len()
        invariant
            t <= cells@.len(),
            c <= t,
            forall|s: int| 0 <= s < cells@.len() ==> #[trigger] cells@[s] < is_stream@.len(),
            c as int == count_stream(is_stream@, cells@.take(t as int)),
        decreases cells@.len() - t,
    {
        proof {
            assert(cells@.take(t + 1).drop_last() =~= cells@.take(t as int));
            assert(cells@.take(t + 1).last() == cells@[t as int]);
        }
        if is_stream[cells[t]] {
            c += 1;
        }
        t += 1;
    }
    proof {
        assert(cells@.take(cells@.len() as int) =~= cells@);
    }
    c
}

/// Split the stream network (accumulation at least `threshold`) into
/// links at junctions, in increasing order of their start cell.
pub fn stream_links(net: &Network, threshold: u64) -> (links: Vec<StreamLink>)
    requires
        net.wf(),
    ensures
        links@.len() == link_starts(net.up_view(), stream_mask(net.solid_view(), net.acc_view(), threshold), net.n()).len(),
        forall|k: int| 0 <= k < links@.len() ==> {
            let start = link_starts(net.up_view(), stream_mask(net.solid_view(), net.acc_view(), threshold), net.n())[k] as int;
            let cells = (#[trigger] links@[k]).cells@;
            &&& link_ok(net.ds_view(), net.up_view(), stream_mask(net.solid_view(), net.acc_view(), threshold), start, cells)
            &&& links@[k].outlet_acc == net.acc_view()[cells[cells.len() - 1] as int]
        },
        forall|vals: Seq<u8>| #[trigger] strahler_ok(net.up_view(), stream_mask(net.solid_view(), net.acc_view(), threshold), vals) ==>
            forall|k: int| 0 <= k < links@.len() ==> (#[trigger] links@[k]).order == vals[link_starts(
                net.up_view(),
                stream_mask(net.solid_view(), net.acc_view(), threshold),
                net.n(),
            )[k] as int],
{
    let n = net.len();
    let ghost ds = net.ds_view();
    let ghost up = net.up_view();
    let ghost mask = stream_mask(net.solid_view(), net.acc_view(), threshold);
    let analysis = NetworkAnalysis::new(net);
    let is_stream = analysis.stream_cells(threshold);
    let mut up_streams: Vec<usize> = Vec::new();
    let mut i: usize = 0;
    while i < n
        invariant
            net.wf(),
            n == net.n(),
            up == net.up_view(),
            ds == net.ds_view(),
            is_stream@ == mask,
            mask.len() == n,
            i <= n,
            up_streams@.len() == i,
            forall|j: int| 0 <= j < i ==> #[trigger] up_streams@[j] as int == stream_inflows(up, mask, j),
        decreases n - i,
    {
        let ups = net.upstream(i);
        proof {
            assert forall|t: int| 0 <= t < ups@.len() implies #[trigger] ups@[t] < is_stream@.len() by {
                assert(ups@[t] == up[i as int]@[t]);
            }
        }
        let c = count_stream_cells(&is_stream, ups);
        up_streams.push(c);
        i += 1;
    }
    let order = analysis.strahler_order(threshold);
    let ghost vals = order.values@;
    let acc = net.flow_acc_slice();
    let mut links: Vec<StreamLink> = Vec::new();
    let mut start: usize = 0;
    while start < n
        invariant
            net.wf(),
            n == net.n(),
            up == net.up_view(),
            ds == net.ds_view(),
            acc@ == net.acc_view(),
            is_stream@ == mask,
            mask == stream_mask(net.solid_view(), net.acc_view(), threshold),
            mask.len() == n,
            up_streams@.len() == n,
            forall|j: int| 0 <= j < n ==> #[trigger] up_streams@[j] as int == stream_inflows(up, mask, j),
            strahler_ok(up, mask, vals),
            order.values@ == vals,
            start <= n,
            links@.len() == link_starts(up, mask, start as int).len(),
            forall|k: int| 0 <= k < links@.len() ==> {
                let st = link_starts(up, mask, start as int)[k] as int;
                let cells = (#[trigger] links@[k]).cells@;
                &&& link_ok(ds, up, mask, st, cells)
                &&& links@[k].outlet_acc == acc@[cells[cells.len() - 1] as int]
                &&& links@[k].order == vals[st]
            },
        decreases n - start,
    {
        let ghost ls0 = link_starts(up, mask, start as int);
        proof {
            assert(link_starts(up, mask, start + 1) == if link_start(up, mask, start as int) {
                ls0.push(start)
            } else {
                ls0
            });
        }
        if is_stream[start] && (up_streams[start] == 0 || up_streams[start] >= 2) {
            let cells = link_cells(net, &is_stream, &up_streams, start, Ghost(mask));
            let outlet_acc = acc[cells[cells.len() - 1]];
            let ghost links0 = links@;
            links.push(StreamLink { cells, order: order.values[start], outlet_acc });
            proof {
                assert forall|k: int| 0 <= k < links@.len() implies {
                    let st = link_starts(up, mask, start + 1)[k] as int;
                    let cells = (#[trigger] links@[k]).cells@;
                    &&& link_ok(ds, up, mask, st, cells)
                    &&& links@[k].outlet_acc == acc@[cells[cells.len() - 1] as int]
                    &&& links@[k].order == vals[st]
                } by {
                    if k < links0.len() {
                        assert(links@[k] == links0[k]);
                        assert(link_starts(up, mask, start + 1)[k] == ls0[k]);
                    }
                }
            }
        }
        start += 1;
    }
    proof {
        assert forall|v: Seq<u8>| #[trigger] strahler_ok(up, mask, v) implies
            forall|k: int| 0 <= k < links@.len() ==> (#[trigger] links@[k]).order == v[link_starts(up, mask, n as int)[k] as int] by {
            lemma_strahler_unique(*net, threshold, v, vals);
        }
    }
    links
}

/// The cells of the link starting at `start`.
fn link_cells(net: &Network, is_stream: &Vec<bool>, up_streams: &Vec<usize>, start: usize, Ghost(mask): Ghost<Seq<bool>>) -> (cells: Vec<usize>)
    requires
        net.wf(),
        start < net.n(),
        is_stream@ == mask,
        mask.len() == net.n(),
        up_streams@.len() == net.n(),
        forall|j: int| 0 <= j < net.n() ==> #[trigger] up_streams@[j] as int == stream_inflows(net.up_view(), mask, j),
    ensures
        link_ok(net.ds_view(), net.up_view(), mask, start as int, cells@),
        forall|t: int| 0 <= t < cells@.len() ==> #[trigger] cells@[t] < net.n(),
{
    let ghost ds = net.ds_view();
    let ghost up = net.up_view();
    let ghost n = net.n();
    proof {
        lemma_walk_ends(ds, net.rank_view(), start as int);
    }
    let mut cells: Vec<usize> = Vec::new();
    cells.push(start);
    let mut cur = start;
    let max_steps = net.len();
    let mut steps: usize = 0;
    proof {
        assert(walk(ds, start as int, 0) == start);
    }
    loop
        invariant_except_break
            cells@.len() == steps + 1,
            cur == cells@[steps as int],
            forall|t: int| 0 < t < cells@.len() ==> stream_inflows(up, mask, #[trigger] cells@[t] as int) < 2,
        invariant
            net.wf(),
            ds == net.ds_view(),
            up == net.up_view(),
            n == net.n(),
            max_steps == n,
            start < n,
            is_stream@ == mask,
            mask.len() == n,
            up_streams@.len() == n,
            forall|j: int| 0 <= j < n ==> #[trigger] up_streams@[j] as int == stream_inflows(up, mask, j),
            walk(ds, start as int, n as nat) == PIT,
            steps < n,
            cur < n,
            forall|t: int| 0 <= t < cells@.len() ==> #[trigger] cells@[t] as int == walk(ds, start as int, t as nat),
            forall|t: int| 0 <= t < cells@.len() ==> #[trigger] cells@[t] < n,
            forall|t: int| 0 < t < cells@.len() ==> mask[#[trigger] cells@[t] as int],
        ensures
            link_ok(ds, up, mask, start as int, cells@),
            forall|t: int| 0 <= t < cells@.len() ==> #[trigger] cells@[t] < n,
        decreases n - steps,
    {
        let d = net.downstream(cur);
        proof {
            lemma_walk_step(ds, start as int, steps as nat);
        }
        if d == PIT || !is_stream[d] {
            break;
        }
        let ghost c0 = cells@;
        cells.push(d);
        proof {
            assert forall|t: int| 0 <= t < cells@.len() implies #[trigger] cells@[t] as int == walk(ds, start as int, t as nat) by {
                if t < c0.len() {
                    assert(cells@[t] == c0[t]);
                }
            }
        }
        if up_streams[d] >= 2 {
            proof {
                assert(cells@[cells@.len() - 1] == d);
            }
            break;
        }
        cur = d;
        steps += 1;
        proof {
            if steps >= n {
                lemma_walk_pit_absorbs(ds, start as int, n as nat, steps as nat);
            }
        }
        if steps >= max_steps {
            break;
        }
    }
    cells
}


/// No stream cell in the list: nothing counts, the top is 0.
proof fn lemma_no_stream(vals: Seq<u8>, mask: Seq<bool>, cells: Seq<usize>, m: int)
    requires
        count_stream(mask, cells) == 0,
        m > 0,
    ensures
        top_value(vals, mask, cells) == 0,
        count_value(vals, mask, cells, m) == 0,
    decreases cells.len(),
{
    if cells.len() > 0 {
        lemma_count_stream_nonneg(mask, cells.drop_last());
        lemma_no_stream(vals, mask, cells.drop_last(), m);
    }
}

pub(crate) proof fn lemma_count_stream_nonneg(mask: Seq<bool>, cells: Seq<usize>)
    ensures
        count_stream(mask, cells) >= 0,
    decreases cells.len(),
{
    if cells.len() > 0 {
        lemma_count_stream_nonneg(mask, cells.drop_last());
    }
}

/// A listed stream cell counts.
proof fn lemma_count_stream_member(mask: Seq<bool>, cells: Seq<usize>, s: int)
    requires
        0 <= s < cells.len(),
        mask[cells[s] as int],
    ensures
        count_stream(mask, cells) >= 1,
    decreases cells.len(),
{
    let rest = cells.drop_last();
    lemma_count_stream_nonneg(mask, rest);
    if s < cells.len() - 1 {
        assert(rest[s] == cells[s]);
        lemma_count_stream_member(mask, rest, s);
    }
}

/// With a single stream cell `p` in a duplicate-free list, the top value
/// is `p`'s and it is carried once.
proof fn lemma_single_stream(vals: Seq<u8>, mask: Seq<bool>, cells: Seq<usize>, s: int)
    requires
        0 <= s < cells.len(),
        mask[cells[s] as int],
        vals[cells[s] as int] >= 1,
        count_stream(mask, cells) == 1,
        cells.no_duplicates(),
    ensures
        top_value(vals, mask, cells) == vals[cells[s] as int],
        count_value(vals, mask, cells, vals[cells[s] as int] as int) == 1,
    decreases cells.len(),
{
    let rest = cells.drop_last();
    let p = cells[s];
    lemma_count_stream_nonneg(mask, rest);
    if s == cells.len() - 1 {
        assert(count_stream(mask, rest) == 0);
        lemma_no_stream(vals, mask, rest, vals[p as int] as int);
    } else {
        assert(rest[s] == p);
        lemma_count_stream_member(mask, rest, s);
        assert(!mask[cells.last() as int]);
        assert forall|a: int, b: int| 0 <= a < rest.len() && 0 <= b < rest.len() && a != b implies rest[a] != rest[b] by {
            assert(rest[a] == cells[a] && rest[b] == cells[b]);
        }
        lemma_single_stream(vals, mask, rest, s);
    }
}

/// The Strahler order is constant along a link, except at a junction
/// that ends it.
pub proof fn lemma_link_order_constant(net: Network, threshold: u64, vals: Seq<u8>, start: int, cells: Seq<usize>, t: int)
    requires
        net.wf(),
        strahler_ok(net.up_view(), stream_mask(net.solid_view(), net.acc_view(), threshold), vals),
        0 <= start < net.n(),
        link_start(net.up_view(), stream_mask(net.solid_view(), net.acc_view(), threshold), start),
        link_ok(net.ds_view(), net.up_view(), stream_mask(net.solid_view(), net.acc_view(), threshold), start, cells),
        0 <= t < cells.len(),
        t < cells.len() - 1 || stream_inflows(
            net.up_view(),
            stream_mask(net.solid_view(), net.acc_view(), threshold),
            cells[cells.len() - 1] as int,
        ) < 2,
    ensures
        vals[cells[t] as int] == vals[start],
    decreases t,
{
    let ds = net.ds_view();
    let up = net.up_view();
    let mask = stream_mask(net.solid_view(), net.acc_view(), threshold);
    if t == 0 {
        assert(cells[0] as int == walk(ds, start, 0));
    } else {
        lemma_link_order_constant(net, threshold, vals, start, cells, t - 1);
        let p = cells[t - 1] as int;
        let c = cells[t] as int;
        assert(p == walk(ds, start, (t - 1) as nat));
        assert(c == walk(ds, start, t as nat));
        lemma_walk_step(ds, start, (t - 1) as nat);
        assert(ds[p] as int == c);
        assert(mask[p]) by {
            if t - 1 == 0 {
                assert(p == start) by {
                    assert(cells[0] as int == walk(ds, start, 0));
                }
            }
        }
        assert(mask[c]);
        let l = up[c]@;
        assert(l.contains(p as usize));
        let s = choose|s: int| 0 <= s < l.len() && l[s] == p as usize;
        lemma_count_stream_member(mask, l, s);
        assert(stream_inflows(up, mask, c) < 2);
        assert(vals[p] >= 1) by {
            assert(vals[p] as int == strahler_rule(top_value(vals, mask, up[p]@), count_value(vals, mask, up[p]@, top_value(vals, mask, up[p]@))));
            crate::analysis::lemma_top_value_nonneg(vals, mask, up[p]@);
        }
        assert forall|a: int, b: int| 0 <= a < l.len() && 0 <= b < l.len() && a != b implies l[a] != l[b] by {
            if a < b {
                assert(l[a] < l[b]);
            } else {
                assert(l[b] < l[a]);
            }
        }
        lemma_single_stream(vals, mask, l, s);
        assert(vals[c] as int == strahler_rule(top_value(vals, mask, l), count_value(vals, mask, l, top_value(vals, mask, l))));
    }
}

/// A list with a stream count above zero holds a stream cell.
pub(crate) proof fn lemma_count_stream_witness(mask: Seq<bool>, cells: Seq<usize>) -> (s: int)
    requires
        count_stream(mask, cells) > 0,
    ensures
        0 <= s < cells.len(),
        mask[cells[s] as int],
    decreases cells.len(),
{
    if mask[cells.last() as int] {
        cells.len() - 1
    } else {
        let t = lemma_count_stream_witness(mask, cells.drop_last());
        assert(cells.drop_last()[t] == cells[t]);
        t
    }
}

/// Every link start below `m` is listed by `link_starts`.
proof fn lemma_link_starts_lists(up: Seq<Vec<usize>>, mask: Seq<bool>, m: int, c: int)
    requires
        0 <= c < m,
        link_start(up, mask, c),
    ensures
        link_starts(up, mask, m).contains(c as usize),
    decreases m,
{
    if c < m - 1 {
        lemma_link_starts_lists(up, mask, m - 1, c);
        if link_start(up, mask, m - 1) {
            let prev = link_starts(up, mask, m - 1);
            let k = choose|k: int| 0 <= k < prev.len() && prev[k] == c as usize;
            assert(link_starts(up, mask, m)[k] == c as usize);
        }
    } else {
        let l = link_starts(up, mask, m);
        assert(l[l.len() - 1] == c as usize);
    }
}

/// Every stream cell lies on the link of some start, which passes
/// through no junction strictly between its start and the cell.
proof fn lemma_on_some_link(net: Network, threshold: u64, links: Seq<Seq<usize>>, c: int) -> (km: (int, int))
    requires
        net.wf(),
        links.len() == link_starts(net.up_view(), stream_mask(net.solid_view(), net.acc_view(), threshold), net.n()).len(),
        forall|k: int|
            0 <= k < links.len() ==> link_ok(
                net.ds_view(),
                net.up_view(),
                stream_mask(net.solid_view(), net.acc_view(), threshold),
                link_starts(net.up_view(), stream_mask(net.solid_view(), net.acc_view(), threshold), net.n())[k] as int,
                #[trigger] links[k],
            ),
        0 <= c < net.n(),
        stream_mask(net.solid_view(), net.acc_view(), threshold)[c],
    ensures
        0 <= km.0 < links.len(),
        0 <= km.1 < links[km.0].len(),
        links[km.0][km.1] as int == c,
        forall|t: int|
            0 < t <= km.1 ==> stream_inflows(
                net.up_view(),
                stream_mask(net.solid_view(), net.acc_view(), threshold),
                #[trigger] links[km.0][t] as int,
            ) < 2,
    decreases 0x1_0000_0000_0000_0000int - net.rank_view()[c],
{
    let ds = net.ds_view();
    let up = net.up_view();
    let rank = net.rank_view();
    let mask = stream_mask(net.solid_view(), net.acc_view(), threshold);
    let n = net.n();
    let starts = link_starts(up, mask, n);
    if link_start(up, mask, c) {
        lemma_link_starts_lists(up, mask, n, c);
        let k = choose|k: int| 0 <= k < starts.len() && starts[k] == c as usize;
        assert(link_ok(ds, up, mask, starts[k] as int, links[k]));
        assert(links[k][0] as int == walk(ds, c, 0));
        (k, 0)
    } else {
        lemma_count_stream_nonneg(mask, up[c]@);
        assert(stream_inflows(up, mask, c) == 1);
        let t = lemma_count_stream_witness(mask, up[c]@);
        let u = up[c]@[t] as int;
        assert(0 <= u < n && ds[u] as int == c);
        assert(ds[u] != PIT);
        assert(rank[c] < rank[u]);
        let (k, m) = lemma_on_some_link(net, threshold, links, u);
        let cells = links[k];
        let s = starts[k] as int;
        assert(link_ok(ds, up, mask, s, cells));
        assert(cells[m] as int == walk(ds, s, m as nat));
        lemma_walk_step(ds, s, m as nat);
        assert(walk(ds, s, (m + 1) as nat) == c);
        assert(cells.len() > m + 1) by {
            if cells.len() == m + 1 {
                let last = cells[m] as int;
                assert(last == u);
                if m > 0 {
                    assert(stream_inflows(up, mask, cells[m] as int) < 2);
                } else {
                    assert(s == u) by {
                        assert(cells[0] as int == walk(ds, s, 0));
                    }
                    assert(link_start(up, mask, s)) by {
                        assert(starts.contains(s as usize));
                        lemma_link_starts_are_starts(up, mask, n, k);
                    }
                }
                assert(ds[last] != PIT);
                assert(mask[ds[last] as int]);
            }
        }
        assert(cells[m + 1] as int == walk(ds, s, (m + 1) as nat));
        (k, m + 1)
    }
}

/// The cells `link_starts` lists are link starts.
proof fn lemma_link_starts_are_starts(up: Seq<Vec<usize>>, mask: Seq<bool>, m: int, k: int)
    requires
        m <= usize::MAX,
        0 <= k < link_starts(up, mask, m).len(),
    ensures
        link_start(up, mask, link_starts(up, mask, m)[k] as int),
        link_starts(up, mask, m)[k] < m,
    decreases m,
{
    if m > 0 {
        let prev = link_starts(up, mask, m - 1);
        if link_start(up, mask, m - 1) && k == prev.len() {
            assert(link_starts(up, mask, m)[k] == (m - 1) as usize);
        } else {
            assert(link_starts(up, mask, m)[k] == prev[k]);
            lemma_link_starts_are_starts(up, mask, m - 1, k);
        }
    }
}

/// Law: the links cover the stream network: every stream cell lies on
/// the link of some head or junction.
pub proof fn lemma_links_cover_streams(net: Network, threshold: u64, links: Seq<Seq<usize>>, c: int)
    requires
        net.wf(),
        links.len() == link_starts(net.up_view(), stream_mask(net.solid_view(), net.acc_view(), threshold), net.n()).len(),
        forall|k: int|
            0 <= k < links.len() ==> link_ok(
                net.ds_view(),
                net.up_view(),
                stream_mask(net.solid_view(), net.acc_view(), threshold),
                link_starts(net.up_view(), stream_mask(net.solid_view(), net.acc_view(), threshold), net.n())[k] as int,
                #[trigger] links[k],
            ),
        0 <= c < net.n(),
        stream_mask(net.solid_view(), net.acc_view(), threshold)[c],
    ensures
        exists|k: int| 0 <= k < links.len() && #[trigger] links[k].contains(c as usize),
{
    let (k, m) = lemma_on_some_link(net, threshold, links, c);
    assert(links[k][m] == c as usize);
    assert(links[k].contains(c as usize));
}

} // verus!
