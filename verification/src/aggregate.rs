use vstd::prelude::*;
use crate::order::{
    pair_le, time_le, lemma_pair_le_total, lemma_pair_le_transitive, lemma_pair_le_antisymmetric,
    lemma_time_le_total, lemma_time_le_transitive, key_le, arrival_le,
};
use crate::records::{BoardConfig, NormalizedArrival, NormalizedArrivalView};

verus! {

/// One visual row of the board: every arrival that shares a line and a
/// destination, ordered by arrival time.
#[derive(Debug)]
pub struct ArrivalGroup {
    pub line: String,
    pub destination: String,
    pub arrivals: Vec<NormalizedArrival>,
}

/// Mathematical image of an `ArrivalGroup`.
pub struct ArrivalGroupView {
    pub line: Seq<char>,
    pub destination: Seq<char>,
    pub arrivals: Seq<NormalizedArrivalView>,
}

impl View for ArrivalGroup {
    type V = ArrivalGroupView;

    open spec fn view(&self) -> ArrivalGroupView {
        ArrivalGroupView {
            line: self.line@,
            destination: self.destination@,
            arrivals: self.arrivals.deep_view(),
        }
    }
}

impl DeepView for ArrivalGroup {
    type V = ArrivalGroupView;

    open spec fn deep_view(&self) -> ArrivalGroupView {
        self.view()
    }
}

/// The rows of one board column, in display order.
#[derive(Debug)]
pub struct DirectionColumn {
    pub groups: Vec<ArrivalGroup>,
}

impl View for DirectionColumn {
    type V = Seq<ArrivalGroupView>;

    open spec fn view(&self) -> Seq<ArrivalGroupView> {
        self.groups.deep_view()
    }
}

/// The two columns of the board.
#[derive(Debug)]
pub struct Board {
    pub inbound: DirectionColumn,
    pub outbound: DirectionColumn,
}

/// The row key of a group.
pub open spec fn key_of(g: ArrivalGroupView) -> (Seq<char>, Seq<char>) {
    (g.line, g.destination)
}

/// The row key of a normalized record.
pub open spec fn rec_key(r: NormalizedArrivalView) -> (Seq<char>, Seq<char>) {
    (r.line, r.destination)
}

/// The index of the group with key `k`, or -1 when no group has it.
pub open spec fn find_key(gs: Seq<ArrivalGroupView>, k: (Seq<char>, Seq<char>)) -> int
    decreases gs.len(),
{
    if gs.len() == 0 {
        -1
    } else if key_of(gs.first()) == k {
        0
    } else {
        let r = find_key(gs.drop_first(), k);
        if r == -1 {
            -1
        } else {
            1 + r
        }
    }
}

/// Where a record is inserted into a time-ordered arrival list: after every
/// arrival at or below it, so that equal timestamps keep their input order.
pub open spec fn arrival_insert_pos(s: Seq<NormalizedArrivalView>, r: NormalizedArrivalView) -> int
    decreases s.len(),
{
    if s.len() == 0 {
        0
    } else if time_le(s.first().expected_arrival, r.expected_arrival) {
        1 + arrival_insert_pos(s.drop_first(), r)
    } else {
        0
    }
}

/// Where a new group with key `k` is inserted into a key-ordered column.
pub open spec fn group_insert_pos(gs: Seq<ArrivalGroupView>, k: (Seq<char>, Seq<char>)) -> int
    decreases gs.len(),
{
    if gs.len() == 0 {
        0
    } else if pair_le(key_of(gs.first()), k) {
        1 + group_insert_pos(gs.drop_first(), k)
    } else {
        0
    }
}

/// A group with one more arrival, placed in time order.
pub open spec fn group_with_arrival(g: ArrivalGroupView, r: NormalizedArrivalView) -> ArrivalGroupView {
    ArrivalGroupView { arrivals: g.arrivals.insert(arrival_insert_pos(g.arrivals, r), r), ..g }
}

/// The group a record opens when its key is new to the column.
pub open spec fn singleton_group(r: NormalizedArrivalView) -> ArrivalGroupView {
    ArrivalGroupView { line: r.line, destination: r.destination, arrivals: seq![r] }
}

/// A column with one more record: added to its key's group when one exists,
/// else as a new group in key order.
pub open spec fn add_to_column(gs: Seq<ArrivalGroupView>, r: NormalizedArrivalView) -> Seq<
    ArrivalGroupView,
> {
    let j = find_key(gs, rec_key(r));
    if j >= 0 {
        gs.update(j, group_with_arrival(gs[j], r))
    } else {
        gs.insert(group_insert_pos(gs, rec_key(r)), singleton_group(r))
    }
}

/// The column for direction `dir`: the records with that direction, grouped
/// by (line, destination), groups in lexicographic key order, each group's
/// arrivals ascending by timestamp with missing timestamps last.
pub open spec fn spec_column(rs: Seq<NormalizedArrivalView>, dir: Seq<char>) -> Seq<
    ArrivalGroupView,
>
    decreases rs.len(),
{
    if rs.len() == 0 {
        Seq::empty()
    } else {
        let rest = spec_column(rs.drop_last(), dir);
        if rs.last().direction == dir {
            add_to_column(rest, rs.last())
        } else {
            rest
        }
    }
}

/// Groups stand in ascending key order.
pub open spec fn groups_sorted(gs: Seq<ArrivalGroupView>) -> bool {
    forall|i: int, j: int|
        0 <= i < j < gs.len() ==> pair_le(key_of(#[trigger] gs[i]), key_of(#[trigger] gs[j]))
}

/// No two groups share a key.
pub open spec fn keys_distinct(gs: Seq<ArrivalGroupView>) -> bool {
    forall|i: int, j: int|
        0 <= i < j < gs.len() ==> key_of(#[trigger] gs[i]) != key_of(#[trigger] gs[j])
}

/// Arrivals stand in ascending time order, missing timestamps last.
pub open spec fn arrivals_sorted(s: Seq<NormalizedArrivalView>) -> bool {
    forall|i: int, j: int|
        0 <= i < j < s.len() ==> time_le(
            (#[trigger] s[i]).expected_arrival,
            (#[trigger] s[j]).expected_arrival,
        )
}

/// The keys of a column's groups, in row order.
pub open spec fn column_keys(gs: Seq<ArrivalGroupView>) -> Seq<(Seq<char>, Seq<char>)> {
    gs.map_values(|g: ArrivalGroupView| key_of(g))
}

/// Whether some group of a column has key `k`.
pub open spec fn has_key(gs: Seq<ArrivalGroupView>, k: (Seq<char>, Seq<char>)) -> bool {
    exists|t: int| 0 <= t < gs.len() && key_of(#[trigger] gs[t]) == k
}

/// Whether some record of `rs` with direction `dir` has key `k`.
pub open spec fn record_has_key(
    rs: Seq<NormalizedArrivalView>,
    dir: Seq<char>,
    k: (Seq<char>, Seq<char>),
) -> bool {
    exists|i: int|
        0 <= i < rs.len() && (#[trigger] rs[i]).direction == dir && rec_key(rs[i]) == k
}

/// A column is well formed for `rs` and `dir`: groups in ascending key order
/// without repeated keys, each group's arrivals in ascending time order, and
/// the group keys exactly the keys of the direction's records.
pub open spec fn column_well_formed(
    rs: Seq<NormalizedArrivalView>,
    dir: Seq<char>,
    col: Seq<ArrivalGroupView>,
) -> bool {
    &&& groups_sorted(col)
    &&& keys_distinct(col)
    &&& (forall|t: int| 0 <= t < col.len() ==> arrivals_sorted((#[trigger] col[t]).arrivals))
    &&& (forall|t: int|
        0 <= t < col.len() ==> record_has_key(rs, dir, key_of(#[trigger] col[t])))
    &&& (forall|i: int|
        0 <= i < rs.len() && (#[trigger] rs[i]).direction == dir ==> has_key(col, rec_key(rs[i])))
}

/// Inserting an arrival at its insertion position keeps the list
/// time-ordered.
proof fn lemma_arrival_insert_sorted(s: Seq<NormalizedArrivalView>, r: NormalizedArrivalView)
    requires
        arrivals_sorted(s),
    ensures
        arrivals_sorted(s.insert(arrival_insert_pos(s, r), r)),
{
    lemma_arrival_insert_pos_props(s, r);
    let p = arrival_insert_pos(s, r);
    let out = s.insert(p, r);
    assert forall|i: int| 0 <= i < p implies out[i] == s[i] by {}
    assert(out[p] == r);
    assert forall|i: int| p < i < out.len() implies out[i] == s[i - 1] by {}
    if p < s.len() {
        lemma_time_le_total(s[p].expected_arrival, r.expected_arrival);
    }
    assert forall|i: int, j: int| 0 <= i < j < out.len() implies time_le(
        (#[trigger] out[i]).expected_arrival,
        (#[trigger] out[j]).expected_arrival,
    ) by {
        if i < p && j == p {
        } else if i == p && j > p {
            assert(out[j] == s[j - 1]);
            assert(time_le(r.expected_arrival, s[p].expected_arrival));
            if j - 1 > p {
                assert(time_le(s[p].expected_arrival, s[j - 1].expected_arrival));
                lemma_time_le_transitive(
                    r.expected_arrival,
                    s[p].expected_arrival,
                    s[j - 1].expected_arrival,
                );
            }
        } else if i < p && j > p {
            if i < j - 1 {
                assert(time_le(s[i].expected_arrival, s[j - 1].expected_arrival));
            } else {
                lemma_time_le_total(s[i].expected_arrival, s[i].expected_arrival);
            }
        } else {
        }
    }
}

/// Adding one record to a well-ordered column keeps it well ordered, and its
/// key set grows by exactly the record's key.
proof fn lemma_add_to_column_well_formed(gs: Seq<ArrivalGroupView>, r: NormalizedArrivalView)
    requires
        groups_sorted(gs),
        keys_distinct(gs),
        forall|t: int| 0 <= t < gs.len() ==> arrivals_sorted((#[trigger] gs[t]).arrivals),
    ensures
        groups_sorted(add_to_column(gs, r)),
        keys_distinct(add_to_column(gs, r)),
        forall|t: int|
            0 <= t < add_to_column(gs, r).len() ==> arrivals_sorted(
                (#[trigger] add_to_column(gs, r)[t]).arrivals,
            ),
        forall|t: int|
            0 <= t < add_to_column(gs, r).len() ==> key_of(#[trigger] add_to_column(gs, r)[t])
                == rec_key(r) || has_key(gs, key_of(add_to_column(gs, r)[t])),
        has_key(add_to_column(gs, r), rec_key(r)),
        forall|k: (Seq<char>, Seq<char>)|
            #[trigger] has_key(gs, k) ==> has_key(add_to_column(gs, r), k),
{
    let k = rec_key(r);
    let out = add_to_column(gs, r);
    lemma_find_key_props(gs, k);
    let j = find_key(gs, k);
    if j >= 0 {
        let g2 = group_with_arrival(gs[j], r);
        assert(key_of(g2) == key_of(gs[j]));
        assert(out == gs.update(j, g2));
        assert forall|t: int| 0 <= t < out.len() implies key_of(#[trigger] out[t]) == key_of(
            gs[t],
        ) by {
            if t != j {
                assert(out[t] == gs[t]);
            }
        }
        assert forall|t: int| 0 <= t < out.len() implies arrivals_sorted(
            (#[trigger] out[t]).arrivals,
        ) by {
            if t == j {
                lemma_arrival_insert_sorted(gs[j].arrivals, r);
            } else {
                assert(out[t] == gs[t]);
            }
        }
        assert forall|t: int| 0 <= t < out.len() implies key_of(#[trigger] out[t]) == rec_key(r)
            || has_key(gs, key_of(out[t])) by {
            assert(key_of(gs[t]) == key_of(out[t]));
        }
        assert(key_of(out[j]) == k);
        assert(has_key(out, k));
        assert forall|k2: (Seq<char>, Seq<char>)| #[trigger] has_key(gs, k2) implies has_key(
            out,
            k2,
        ) by {
            let t = choose|t: int| 0 <= t < gs.len() && key_of(#[trigger] gs[t]) == k2;
            assert(key_of(out[t]) == k2);
        }
    } else {
        let p = group_insert_pos(gs, k);
        lemma_group_insert_pos_props(gs, k);
        let sg = singleton_group(r);
        assert(key_of(sg) == k);
        assert(out == gs.insert(p, sg));
        assert(out.len() == gs.len() + 1);
        assert forall|t: int| 0 <= t < p implies out[t] == gs[t] by {}
        assert(out[p] == sg);
        assert forall|t: int| p < t < out.len() implies out[t] == gs[t - 1] by {}
        if p < gs.len() {
            lemma_pair_le_total(key_of(gs[p]), k);
        }
        assert forall|i: int, j2: int| 0 <= i < j2 < out.len() implies pair_le(
            key_of(#[trigger] out[i]),
            key_of(#[trigger] out[j2]),
        ) by {
            if i < p && j2 == p {
            } else if i == p && j2 > p {
                assert(out[j2] == gs[j2 - 1]);
                if j2 - 1 > p {
                    assert(pair_le(key_of(gs[p]), key_of(gs[j2 - 1])));
                    lemma_pair_le_transitive(k, key_of(gs[p]), key_of(gs[j2 - 1]));
                }
            } else if i < p && j2 > p {
                if i < j2 - 1 {
                    assert(pair_le(key_of(gs[i]), key_of(gs[j2 - 1])));
                } else {
                    lemma_pair_le_total(key_of(gs[i]), key_of(gs[i]));
                }
            } else {
            }
        }
        assert forall|i: int, j2: int| 0 <= i < j2 < out.len() implies key_of(#[trigger] out[i])
            != key_of(#[trigger] out[j2]) by {
            if i == p {
                assert(key_of(out[j2]) == key_of(gs[j2 - 1]));
            } else if j2 == p {
                assert(key_of(out[i]) == key_of(gs[i]));
            } else if i < p && j2 > p {
                if i == j2 - 1 {
                    assert(false);
                }
            }
        }
        assert forall|t: int| 0 <= t < out.len() implies arrivals_sorted(
            (#[trigger] out[t]).arrivals,
        ) by {
            if t == p {
                assert(sg.arrivals.len() == 1);
            } else if t > p {
                assert(out[t] == gs[t - 1]);
            }
        }
        assert(key_of(out[p]) == k);
        assert(has_key(out, k));
        assert forall|t: int| 0 <= t < out.len() implies key_of(#[trigger] out[t]) == rec_key(r)
            || has_key(gs, key_of(out[t])) by {
            if t < p {
                assert(key_of(gs[t]) == key_of(out[t]));
                assert(has_key(gs, key_of(out[t])));
            } else if t > p {
                assert(key_of(gs[t - 1]) == key_of(out[t]));
                assert(has_key(gs, key_of(out[t])));
            }
        }
        assert forall|k2: (Seq<char>, Seq<char>)| #[trigger] has_key(gs, k2) implies has_key(
            out,
            k2,
        ) by {
            let t = choose|t: int| 0 <= t < gs.len() && key_of(#[trigger] gs[t]) == k2;
            if t < p {
                assert(key_of(out[t]) == k2);
            } else {
                assert(key_of(out[t + 1]) == k2);
            }
        }
    }
}

/// Every column the pipeline builds is well formed: groups in ascending key
/// order without repeated keys, arrivals in ascending time order, and the
/// keys exactly those of the direction's records.
pub proof fn lemma_column_well_formed(rs: Seq<NormalizedArrivalView>, dir: Seq<char>)
    ensures
        column_well_formed(rs, dir, spec_column(rs, dir)),
    decreases rs.len(),
{
    if rs.len() > 0 {
        let prev = rs.drop_last();
        lemma_column_well_formed(prev, dir);
        let pcol = spec_column(prev, dir);
        let col = spec_column(rs, dir);
        let r = rs.last();
        let n = rs.len() - 1;
        assert forall|i: int| 0 <= i < prev.len() implies prev[i] == rs[i] by {}
        assert forall|k: (Seq<char>, Seq<char>)| #[trigger] record_has_key(
            prev,
            dir,
            k,
        ) implies record_has_key(rs, dir, k) by {
            let i = choose|i: int|
                0 <= i < prev.len() && (#[trigger] prev[i]).direction == dir && rec_key(prev[i])
                    == k;
            assert(rs[i].direction == dir && rec_key(rs[i]) == k);
        }
        if r.direction == dir {
            lemma_add_to_column_well_formed(pcol, r);
            assert(col == add_to_column(pcol, r));
            assert forall|t: int| 0 <= t < col.len() implies record_has_key(
                rs,
                dir,
                key_of(#[trigger] col[t]),
            ) by {
                if key_of(col[t]) == rec_key(r) {
                    assert(rs[n].direction == dir && rec_key(rs[n]) == key_of(col[t]));
                } else {
                    assert(has_key(pcol, key_of(col[t])));
                    let u = choose|u: int|
                        0 <= u < pcol.len() && key_of(#[trigger] pcol[u]) == key_of(col[t]);
                    assert(record_has_key(prev, dir, key_of(pcol[u])));
                }
            }
            assert forall|i: int|
                0 <= i < rs.len() && (#[trigger] rs[i]).direction == dir implies has_key(
                col,
                rec_key(rs[i]),
            ) by {
                if i == n {
                    assert(has_key(col, rec_key(r)));
                } else {
                    assert(prev[i] == rs[i]);
                    assert(has_key(pcol, rec_key(prev[i])));
                }
            }
        } else {
            assert(col == pcol);
            assert forall|t: int| 0 <= t < col.len() implies record_has_key(
                rs,
                dir,
                key_of(#[trigger] col[t]),
            ) by {
                assert(record_has_key(prev, dir, key_of(col[t])));
            }
            assert forall|i: int|
                0 <= i < rs.len() && (#[trigger] rs[i]).direction == dir implies has_key(
                col,
                rec_key(rs[i]),
            ) by {
                assert(i != n);
                assert(prev[i] == rs[i]);
                assert(has_key(pcol, rec_key(prev[i])));
            }
        }
    }
}

/// Two key-ordered, duplicate-free columns with the same key set list their
/// keys in the same order.
proof fn lemma_sorted_distinct_keys_unique(x: Seq<ArrivalGroupView>, y: Seq<ArrivalGroupView>)
    requires
        groups_sorted(x),
        groups_sorted(y),
        keys_distinct(x),
        keys_distinct(y),
        forall|k: (Seq<char>, Seq<char>)|
            #![trigger has_key(x, k)]
            #![trigger has_key(y, k)]
            has_key(x, k) == has_key(y, k),
    ensures
        column_keys(x) == column_keys(y),
    decreases x.len(),
{
    if x.len() == 0 {
        if y.len() > 0 {
            assert(has_key(y, key_of(y[0])));
            assert(has_key(x, key_of(y[0])));
            assert(false);
        }
        assert(column_keys(x) =~= column_keys(y));
    } else {
        assert(has_key(x, key_of(x[0])));
        assert(has_key(y, key_of(x[0])));
        let u0 = choose|u: int| 0 <= u < y.len() && key_of(#[trigger] y[u]) == key_of(x[0]);
        assert(y.len() > 0);
        assert(has_key(y, key_of(y[0])));
        assert(has_key(x, key_of(y[0])));
        let t0 = choose|t: int| 0 <= t < x.len() && key_of(#[trigger] x[t]) == key_of(y[0]);
        if u0 > 0 {
            assert(pair_le(key_of(y[0]), key_of(y[u0])));
        }
        if t0 > 0 {
            assert(pair_le(key_of(x[0]), key_of(x[t0])));
        }
        lemma_pair_le_total(key_of(x[0]), key_of(x[0]));
        lemma_pair_le_antisymmetric(key_of(x[0]), key_of(y[0]));
        assert(key_of(x[0]) == key_of(y[0]));
        let xt = x.drop_first();
        let yt = y.drop_first();
        assert forall|i: int| 0 <= i < xt.len() implies xt[i] == x[i + 1] by {}
        assert forall|i: int| 0 <= i < yt.len() implies yt[i] == y[i + 1] by {}
        assert forall|k: (Seq<char>, Seq<char>)| #[trigger] has_key(xt, k) implies has_key(
            yt,
            k,
        ) by {
            let t = choose|t: int| 0 <= t < xt.len() && key_of(#[trigger] xt[t]) == k;
            assert(key_of(x[t + 1]) == k);
            assert(has_key(x, k));
            assert(has_key(y, k));
            let u = choose|u: int| 0 <= u < y.len() && key_of(#[trigger] y[u]) == k;
            assert(key_of(x[t + 1]) != key_of(x[0]));
            assert(u != 0);
            assert(key_of(yt[u - 1]) == k);
        }
        assert forall|k: (Seq<char>, Seq<char>)| #[trigger] has_key(yt, k) implies has_key(
            xt,
            k,
        ) by {
            let u = choose|u: int| 0 <= u < yt.len() && key_of(#[trigger] yt[u]) == k;
            assert(key_of(y[u + 1]) == k);
            assert(has_key(y, k));
            assert(has_key(x, k));
            let t = choose|t: int| 0 <= t < x.len() && key_of(#[trigger] x[t]) == k;
            assert(key_of(y[u + 1]) != key_of(y[0]));
            assert(t != 0);
            assert(key_of(xt[t - 1]) == k);
        }
        lemma_sorted_distinct_keys_unique(xt, yt);
        assert(column_keys(xt).len() == xt.len());
        assert(column_keys(yt).len() == yt.len());
        assert(x.len() == y.len());
        assert(column_keys(x).len() == x.len());
        assert(column_keys(y).len() == y.len());
        assert forall|i: int| 0 <= i < column_keys(x).len() implies column_keys(x)[i]
            == column_keys(y)[i] by {
            assert(column_keys(x)[i] == key_of(x[i]));
            assert(column_keys(y)[i] == key_of(y[i]));
            if i > 0 {
                assert(column_keys(xt)[i - 1] == column_keys(yt)[i - 1]);
                assert(column_keys(xt)[i - 1] == key_of(xt[i - 1]));
                assert(column_keys(yt)[i - 1] == key_of(yt[i - 1]));
                assert(xt[i - 1] == x[i]);
                assert(yt[i - 1] == y[i]);
            }
        }
        assert(column_keys(x) =~= column_keys(y));
    }
}

/// The order of the rows in a column depends only on which records the input
/// holds, never on their order: permuting the input leaves the sequence of
/// (line, destination) row keys unchanged.
pub proof fn lemma_row_order_pure(
    rs1: Seq<NormalizedArrivalView>,
    rs2: Seq<NormalizedArrivalView>,
    dir: Seq<char>,
)
    requires
        rs1.to_multiset() == rs2.to_multiset(),
    ensures
        column_keys(spec_column(rs1, dir)) == column_keys(spec_column(rs2, dir)),
{
    lemma_column_well_formed(rs1, dir);
    lemma_column_well_formed(rs2, dir);
    let c1 = spec_column(rs1, dir);
    let c2 = spec_column(rs2, dir);
    assert forall|k: (Seq<char>, Seq<char>)| #[trigger] record_has_key(
        rs1,
        dir,
        k,
    ) implies record_has_key(rs2, dir, k) by {
        lemma_record_has_key_permuted(rs1, rs2, dir, k);
    }
    assert forall|k: (Seq<char>, Seq<char>)| #[trigger] record_has_key(
        rs2,
        dir,
        k,
    ) implies record_has_key(rs1, dir, k) by {
        lemma_record_has_key_permuted(rs2, rs1, dir, k);
    }
    assert forall|k: (Seq<char>, Seq<char>)| #[trigger] has_key(c1, k) implies has_key(
        c2,
        k,
    ) by {
        let t = choose|t: int| 0 <= t < c1.len() && key_of(#[trigger] c1[t]) == k;
        assert(record_has_key(rs1, dir, key_of(c1[t])));
        assert(record_has_key(rs2, dir, k));
        let i = choose|i: int|
            0 <= i < rs2.len() && (#[trigger] rs2[i]).direction == dir && rec_key(rs2[i]) == k;
        assert(has_key(c2, rec_key(rs2[i])));
    }
    assert forall|k: (Seq<char>, Seq<char>)| #[trigger] has_key(c2, k) implies has_key(
        c1,
        k,
    ) by {
        let t = choose|t: int| 0 <= t < c2.len() && key_of(#[trigger] c2[t]) == k;
        assert(record_has_key(rs2, dir, key_of(c2[t])));
        assert(record_has_key(rs1, dir, k));
        let i = choose|i: int|
            0 <= i < rs1.len() && (#[trigger] rs1[i]).direction == dir && rec_key(rs1[i]) == k;
        assert(has_key(c1, rec_key(rs1[i])));
    }
    lemma_sorted_distinct_keys_unique(c1, c2);
}

/// A key found among one sequence's records is found among any permutation's.
proof fn lemma_record_has_key_permuted(
    rs1: Seq<NormalizedArrivalView>,
    rs2: Seq<NormalizedArrivalView>,
    dir: Seq<char>,
    k: (Seq<char>, Seq<char>),
)
    requires
        rs1.to_multiset() == rs2.to_multiset(),
        record_has_key(rs1, dir, k),
    ensures
        record_has_key(rs2, dir, k),
{
    broadcast use vstd::seq_lib::group_to_multiset_ensures;

    let i = choose|i: int|
        0 <= i < rs1.len() && (#[trigger] rs1[i]).direction == dir && rec_key(rs1[i]) == k;
    assert(rs1.contains(rs1[i]));
    assert(rs1.to_multiset().count(rs1[i]) > 0);
    assert(rs2.to_multiset().count(rs1[i]) > 0);
    assert(rs2.contains(rs1[i]));
    let i2 = choose|i2: int| 0 <= i2 < rs2.len() && rs2[i2] == rs1[i];
    assert(rs2[i2].direction == dir && rec_key(rs2[i2]) == k);
}

/// A record with every string field copied.
fn clone_arrival(r: &NormalizedArrival) -> (out: NormalizedArrival)
    ensures
        out@ == r@,
{
    let expected = match &r.expected_arrival {
        Some(t) => Some(t.clone()),
        None => None,
    };
    NormalizedArrival {
        stop_id: r.stop_id.clone(),
        line: r.line.clone(),
        direction: r.direction.clone(),
        destination: r.destination.clone(),
        expected_arrival: expected,
    }
}

/// Facts about `find_key`: it yields -1 exactly when no group has the key,
/// and otherwise the first index whose group has it.
proof fn lemma_find_key_props(gs: Seq<ArrivalGroupView>, k: (Seq<char>, Seq<char>))
    ensures
        find_key(gs, k) == -1 ==> forall|i: int| 0 <= i < gs.len() ==> key_of(#[trigger] gs[i]) != k,
        find_key(gs, k) != -1 ==> 0 <= find_key(gs, k) < gs.len() && key_of(gs[find_key(gs, k)])
            == k && (forall|i: int| 0 <= i < find_key(gs, k) ==> key_of(#[trigger] gs[i]) != k),
    decreases gs.len(),
{
    if gs.len() > 0 && key_of(gs.first()) != k {
        lemma_find_key_props(gs.drop_first(), k);
        assert forall|i: int| 1 <= i < gs.len() implies gs.drop_first()[i - 1] == gs[i] by {}
    }
}

/// Facts about `arrival_insert_pos`: every earlier arrival is at or below
/// the new one, and the arrival at the position (when any) is strictly after.
proof fn lemma_arrival_insert_pos_props(s: Seq<NormalizedArrivalView>, r: NormalizedArrivalView)
    ensures
        0 <= arrival_insert_pos(s, r) <= s.len(),
        forall|i: int|
            0 <= i < arrival_insert_pos(s, r) ==> time_le(
                (#[trigger] s[i]).expected_arrival,
                r.expected_arrival,
            ),
        arrival_insert_pos(s, r) < s.len() ==> !time_le(
            s[arrival_insert_pos(s, r)].expected_arrival,
            r.expected_arrival,
        ),
    decreases s.len(),
{
    if s.len() > 0 && time_le(s.first().expected_arrival, r.expected_arrival) {
        lemma_arrival_insert_pos_props(s.drop_first(), r);
        assert forall|i: int| 1 <= i < s.len() implies s.drop_first()[i - 1] == s[i] by {}
    }
}

/// Facts about `group_insert_pos`, as for `arrival_insert_pos`.
proof fn lemma_group_insert_pos_props(gs: Seq<ArrivalGroupView>, k: (Seq<char>, Seq<char>))
    ensures
        0 <= group_insert_pos(gs, k) <= gs.len(),
        forall|i: int|
            0 <= i < group_insert_pos(gs, k) ==> pair_le(key_of(#[trigger] gs[i]), k),
        group_insert_pos(gs, k) < gs.len() ==> !pair_le(key_of(gs[group_insert_pos(gs, k)]), k),
    decreases gs.len(),
{
    if gs.len() > 0 && pair_le(key_of(gs.first()), k) {
        lemma_group_insert_pos_props(gs.drop_first(), k);
        assert forall|i: int| 1 <= i < gs.len() implies gs.drop_first()[i - 1] == gs[i] by {}
    }
}

/// The time-ordered position of a record within an arrival list.
fn arrival_position(arrivals: &Vec<NormalizedArrival>, r: &NormalizedArrival) -> (p: usize)
    ensures
        p == arrival_insert_pos(arrivals.deep_view(), r@),
        p <= arrivals.len(),
{
    let ghost s = arrivals.deep_view();
    let mut p: usize = 0;
    while p < arrivals.len()
        invariant
            p <= arrivals.len(),
            s == arrivals.deep_view(),
            s.len() == arrivals.len(),
            forall|t: int| 0 <= t < p ==> time_le((#[trigger] s[t]).expected_arrival, r@.expected_arrival),
        decreases arrivals.len() - p,
    {
        proof {
            assert(s[p as int] == arrivals@[p as int]@);
        }
        if !arrival_le(&arrivals[p].expected_arrival, &r.expected_arrival) {
            proof {
                lemma_arrival_insert_pos_props(s, r@);
                let q = arrival_insert_pos(s, r@);
                if q < p {
                    assert(time_le(s[q].expected_arrival, r@.expected_arrival));
                }
                if q > p {
                    assert(time_le(s[p as int].expected_arrival, r@.expected_arrival));
                }
            }
            return p;
        }
        p += 1;
    }
    proof {
        lemma_arrival_insert_pos_props(s, r@);
        let q = arrival_insert_pos(s, r@);
        if q < p {
            assert(!time_le(s[q].expected_arrival, r@.expected_arrival));
        }
    }
    p
}

/// The key-ordered position of a new key within a column.
fn group_position(col: &Vec<ArrivalGroup>, line: &String, destination: &String) -> (p: usize)
    ensures
        p == group_insert_pos(col.deep_view(), (line@, destination@)),
        p <= col.len(),
{
    let ghost gs = col.deep_view();
    let ghost k = (line@, destination@);
    let mut p: usize = 0;
    while p < col.len()
        invariant
            p <= col.len(),
            gs == col.deep_view(),
            gs.len() == col.len(),
            k == (line@, destination@),
            forall|t: int| 0 <= t < p ==> pair_le(key_of(#[trigger] gs[t]), k),
        decreases col.len() - p,
    {
        proof {
            assert(gs[p as int] == col@[p as int]@);
        }
        if !key_le(&col[p].line, &col[p].destination, line, destination) {
            proof {
                lemma_group_insert_pos_props(gs, k);
                let q = group_insert_pos(gs, k);
                if q < p {
                    assert(pair_le(key_of(gs[q]), k));
                }
                if q > p {
                    assert(pair_le(key_of(gs[p as int]), k));
                }
            }
            return p;
        }
        p += 1;
    }
    proof {
        lemma_group_insert_pos_props(gs, k);
        let q = group_insert_pos(gs, k);
        if q < p {
            assert(!pair_le(key_of(gs[q]), k));
        }
    }
    p
}

/// Adds one record to a column, merging it into the group with its key or
/// opening a new group in key order.
fn insert_record(col: &mut Vec<ArrivalGroup>, r: &NormalizedArrival)
    ensures
        final(col).deep_view() == add_to_column(old(col).deep_view(), r@),
{
    let ghost gs = col.deep_view();
    let ghost k = rec_key(r@);
    let mut j: usize = 0;
    while j < col.len()
        invariant
            j <= col.len(),
            gs == col.deep_view(),
            gs == old(col).deep_view(),
            gs.len() == col.len(),
            k == rec_key(r@),
            forall|t: int| 0 <= t < j ==> key_of(#[trigger] gs[t]) != k,
        decreases col.len() - j,
    {
        proof {
            assert(gs[j as int] == col@[j as int]@);
        }
        if col[j].line == r.line && col[j].destination == r.destination {
            proof {
                assert(key_of(gs[j as int]) == k);
                lemma_find_key_props(gs, k);
                let f = find_key(gs, k);
                assert(f != -1);
                if f < j {
                    assert(key_of(gs[f]) != k);
                }
                if f > j {
                    assert(key_of(gs[j as int]) != k);
                }
                assert(f == j);
            }
            let mut g = col.remove(j);
            let ghost gv = g@;
            assert(gv == gs[j as int]);
            let p = arrival_position(&g.arrivals, r);
            let rc = clone_arrival(r);
            g.arrivals.insert(p, rc);
            proof {
                assert(g@.arrivals =~= gv.arrivals.insert(
                    arrival_insert_pos(gv.arrivals, r@),
                    r@,
                ));
                assert(g@ == group_with_arrival(gs[j as int], r@));
            }
            col.insert(j, g);
            proof {
                assert(find_key(gs, rec_key(r@)) == j as int);
                assert(add_to_column(gs, r@) == gs.update(j as int, group_with_arrival(
                    gs[j as int],
                    r@,
                )));
                assert(col.deep_view() =~= gs.update(j as int, group_with_arrival(
                    gs[j as int],
                    r@,
                )));
            }
            return ;
        }
        j += 1;
    }
    proof {
        lemma_find_key_props(gs, k);
        let f = find_key(gs, k);
        if f != -1 {
            assert(key_of(gs[f]) != k);
        }
        assert(f == -1);
    }
    let p = group_position(col, &r.line, &r.destination);
    let rc = clone_arrival(r);
    let mut arrivals: Vec<NormalizedArrival> = Vec::new();
    arrivals.push(rc);
    let g = ArrivalGroup { line: r.line.clone(), destination: r.destination.clone(), arrivals };
    proof {
        assert(g@.arrivals =~= seq![r@]);
        assert(g@ == singleton_group(r@));
    }
    col.insert(p, g);
    proof {
        assert(col.deep_view() =~= gs.insert(group_insert_pos(gs, k), singleton_group(r@)));
    }
}

/// Builds the column for one direction code from the normalized records.
pub fn build_column(records: &Vec<NormalizedArrival>, dir: &String) -> (col: DirectionColumn)
    ensures
        col@ == spec_column(records.deep_view(), dir@),
{
    let ghost rs = records.deep_view();
    let mut groups: Vec<ArrivalGroup> = Vec::new();
    let mut i: usize = 0;
    while i < records.len()
        invariant
            i <= records.len(),
            rs == records.deep_view(),
            rs.len() == records.len(),
            groups.deep_view() == spec_column(rs.take(i as int), dir@),
        decreases records.len() - i,
    {
        proof {
            assert(rs.take(i + 1 as int).drop_last() =~= rs.take(i as int));
            assert(rs.take(i + 1 as int).last() == rs[i as int]);
            assert(rs[i as int] == records@[i as int]@);
        }
        let r = &records[i];
        if r.direction == *dir {
            insert_record(&mut groups, r);
        }
        i += 1;
    }
    proof {
        assert(rs.take(records.len() as int) =~= rs);
    }
    DirectionColumn { groups }
}

/// Builds the whole board: one column per configured direction code.
pub fn build_board(records: &Vec<NormalizedArrival>, config: &BoardConfig) -> (board: Board)
    ensures
        board.inbound@ == spec_column(records.deep_view(), config@.inbound_code),
        board.outbound@ == spec_column(records.deep_view(), config@.outbound_code),
{
    Board {
        inbound: build_column(records, &config.inbound_code),
        outbound: build_column(records, &config.outbound_code),
    }
}

} // verus!
