use vstd::prelude::*;

verus! {

/// A raw arrival record, as handed to the pipeline by the feed decoder.
/// The stop identifier is always present; the remaining fields may be
/// missing from the upstream data.
#[derive(Debug)]
pub struct ArrivalRecord {
    pub stop_id: String,
    pub line: Option<String>,
    pub direction: Option<String>,
    pub destination: Option<String>,
    pub expected_arrival: Option<String>,
}

/// Mathematical image of an `ArrivalRecord`.
pub struct ArrivalRecordView {
    pub stop_id: Seq<char>,
    pub line: Option<Seq<char>>,
    pub direction: Option<Seq<char>>,
    pub destination: Option<Seq<char>>,
    pub expected_arrival: Option<Seq<char>>,
}

impl View for ArrivalRecord {
    type V = ArrivalRecordView;

    open spec fn view(&self) -> ArrivalRecordView {
        ArrivalRecordView {
            stop_id: self.stop_id@,
            line: self.line.deep_view(),
            direction: self.direction.deep_view(),
            destination: self.destination.deep_view(),
            expected_arrival: self.expected_arrival.deep_view(),
        }
    }
}

impl DeepView for ArrivalRecord {
    type V = ArrivalRecordView;

    open spec fn deep_view(&self) -> ArrivalRecordView {
        self.view()
    }
}

/// An arrival record whose line, direction and destination are all known.
#[derive(Debug)]
pub struct NormalizedArrival {
    pub stop_id: String,
    pub line: String,
    pub direction: String,
    pub destination: String,
    pub expected_arrival: Option<String>,
}

/// Mathematical image of a `NormalizedArrival`.
pub struct NormalizedArrivalView {
    pub stop_id: Seq<char>,
    pub line: Seq<char>,
    pub direction: Seq<char>,
    pub destination: Seq<char>,
    pub expected_arrival: Option<Seq<char>>,
}

impl View for NormalizedArrival {
    type V = NormalizedArrivalView;

    open spec fn view(&self) -> NormalizedArrivalView {
        NormalizedArrivalView {
            stop_id: self.stop_id@,
            line: self.line@,
            direction: self.direction@,
            destination: self.destination@,
            expected_arrival: self.expected_arrival.deep_view(),
        }
    }
}

impl DeepView for NormalizedArrival {
    type V = NormalizedArrivalView;

    open spec fn deep_view(&self) -> NormalizedArrivalView {
        self.view()
    }
}

/// Configuration for one board: the watched stop identifiers, the two
/// direction codes the board displays, and the column titles.
#[derive(Debug)]
pub struct BoardConfig {
    pub watched_stops: Vec<String>,
    pub inbound_code: String,
    pub outbound_code: String,
    pub inbound_label: String,
    pub outbound_label: String,
}

/// Mathematical image of a `BoardConfig`.
pub struct BoardConfigView {
    pub watched_stops: Seq<Seq<char>>,
    pub inbound_code: Seq<char>,
    pub outbound_code: Seq<char>,
    pub inbound_label: Seq<char>,
    pub outbound_label: Seq<char>,
}

impl View for BoardConfig {
    type V = BoardConfigView;

    open spec fn view(&self) -> BoardConfigView {
        BoardConfigView {
            watched_stops: self.watched_stops.deep_view(),
            inbound_code: self.inbound_code@,
            outbound_code: self.outbound_code@,
            inbound_label: self.inbound_label@,
            outbound_label: self.outbound_label@,
        }
    }
}

/// A stop is watched when it equals one of the configured identifiers.
pub open spec fn stop_watched(watched: Seq<Seq<char>>, stop: Seq<char>) -> bool {
    exists|i: int| 0 <= i < watched.len() && watched[i] == stop
}

/// A record can be normalized when its stop is watched and its line,
/// direction and destination are all present.
pub open spec fn normalizable(r: ArrivalRecordView, watched: Seq<Seq<char>>) -> bool {
    &&& stop_watched(watched, r.stop_id)
    &&& r.line is Some
    &&& r.direction is Some
    &&& r.destination is Some
}

/// The normalized form of a record whose required fields are present.
pub open spec fn normalize_one(r: ArrivalRecordView) -> NormalizedArrivalView
    recommends
        r.line is Some,
        r.direction is Some,
        r.destination is Some,
{
    NormalizedArrivalView {
        stop_id: r.stop_id,
        line: r.line->0,
        direction: r.direction->0,
        destination: r.destination->0,
        expected_arrival: r.expected_arrival,
    }
}

/// The normalized subset of a record sequence, in input order: exactly the
/// normalizable records, each with its required fields unwrapped.
pub open spec fn spec_normalize(rs: Seq<ArrivalRecordView>, watched: Seq<Seq<char>>) -> Seq<
    NormalizedArrivalView,
>
    decreases rs.len(),
{
    if rs.len() == 0 {
        Seq::empty()
    } else {
        let rest = spec_normalize(rs.drop_last(), watched);
        if normalizable(rs.last(), watched) {
            rest.push(normalize_one(rs.last()))
        } else {
            rest
        }
    }
}

/// A record contributes to the normalized set if and only if its stop is
/// watched and its line, direction and destination are all present; every
/// entry of the normalized set arises from such a record.
pub proof fn lemma_normalize_characterization(rs: Seq<ArrivalRecordView>, watched: Seq<Seq<char>>)
    ensures
        forall|i: int|
            0 <= i < rs.len() && normalizable(rs[i], watched) ==> spec_normalize(
                rs,
                watched,
            ).contains(normalize_one(#[trigger] rs[i])),
        forall|j: int|
            0 <= j < spec_normalize(rs, watched).len() ==> exists|i: int|
                0 <= i < rs.len() && normalizable(rs[i], watched) && #[trigger] spec_normalize(
                    rs,
                    watched,
                )[j] == normalize_one(rs[i]),
    decreases rs.len(),
{
    if rs.len() > 0 {
        lemma_normalize_characterization(rs.drop_last(), watched);
        let rest = spec_normalize(rs.drop_last(), watched);
        let full = spec_normalize(rs, watched);
        assert forall|i: int|
            0 <= i < rs.len() && normalizable(rs[i], watched) implies full.contains(normalize_one(
            #[trigger] rs[i],
        )) by {
            if i < rs.len() - 1 {
                assert(rs.drop_last()[i] == rs[i]);
                assert(rest.contains(normalize_one(rs[i])));
                let j = choose|j: int| 0 <= j < rest.len() && rest[j] == normalize_one(rs[i]);
                assert(full[j] == normalize_one(rs[i]));
            } else {
                assert(rs.last() == rs[i]);
                assert(full.last() == normalize_one(rs[i]));
            }
        }
        assert forall|j: int| 0 <= j < full.len() implies exists|i: int|
            0 <= i < rs.len() && normalizable(rs[i], watched) && #[trigger] full[j]
                == normalize_one(rs[i]) by {
            if j < rest.len() {
                assert(rest[j] == full[j]);
                let i = choose|i: int|
                    0 <= i < rs.drop_last().len() && normalizable(rs.drop_last()[i], watched)
                        && rest[j] == normalize_one(rs.drop_last()[i]);
                assert(rs.drop_last()[i] == rs[i]);
                assert(0 <= i < rs.len() && normalizable(rs[i], watched) && full[j]
                    == normalize_one(rs[i]));
            } else {
                let i = rs.len() - 1;
                assert(rs.last() == rs[i]);
                assert(0 <= i < rs.len() && normalizable(rs[i], watched) && full[j]
                    == normalize_one(rs[i]));
            }
        }
    }
}

/// Whether `stop` is one of the watched identifiers.
fn is_watched(watched: &Vec<String>, stop: &String) -> (b: bool)
    ensures
        b == stop_watched(watched.deep_view(), stop@),
{
    let mut i: usize = 0;
    while i < watched.len()
        invariant
            i <= watched.len(),
            forall|j: int| 0 <= j < i ==> watched.deep_view()[j] != stop@,
        decreases watched.len() - i,
    {
        assert(watched.deep_view()[i as int] == watched@[i as int]@);
        if watched[i] == *stop {
            return true;
        }
        i += 1;
    }
    false
}

/// Keeps exactly the records whose stop is watched and whose line,
/// direction and destination are all present, in input order.
pub fn normalize_records(records: &Vec<ArrivalRecord>, config: &BoardConfig) -> (out: Vec<
    NormalizedArrival,
>)
    ensures
        out.deep_view() == spec_normalize(records.deep_view(), config@.watched_stops),
{
    let watched = &config.watched_stops;
    let mut out: Vec<NormalizedArrival> = Vec::new();
    let mut i: usize = 0;
    while i < records.len()
        invariant
            i <= records.len(),
            watched == &config.watched_stops,
            out.deep_view() == spec_normalize(
                records.deep_view().take(i as int),
                config@.watched_stops,
            ),
        decreases records.len() - i,
    {
        let r = &records[i];
        proof {
            assert(records.deep_view().take(i + 1 as int).drop_last() =~= records.deep_view().take(
                i as int,
            ));
            assert(records.deep_view().take(i + 1 as int).last() == r@);
        }
        let ghost prev = out.deep_view();
        if is_watched(watched, &r.stop_id) {
            match (&r.line, &r.direction, &r.destination) {
                (Some(line), Some(direction), Some(destination)) => {
                    let expected = match &r.expected_arrival {
                        Some(t) => Some(t.clone()),
                        None => None,
                    };
                    let n = NormalizedArrival {
                        stop_id: r.stop_id.clone(),
                        line: line.clone(),
                        direction: direction.clone(),
                        destination: destination.clone(),
                        expected_arrival: expected,
                    };
                    assert(n@ == normalize_one(r@));
                    out.push(n);
                    proof {
                        assert(out.deep_view() =~= prev.push(normalize_one(r@)));
                    }
                },
                _ => {
                    assert(!normalizable(r@, config@.watched_stops));
                },
            }
        }
        i += 1;
    }
    proof {
        assert(records.deep_view().take(records.len() as int) =~= records.deep_view());
    }
    out
}

} // verus!
