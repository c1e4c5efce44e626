use vstd::prelude::*;
use vstd::string::StringExecFns;
use vstd::arithmetic::div_mod::{lemma_div_is_ordered, lemma_div_pos_is_pos};
use crate::records::{NormalizedArrival, NormalizedArrivalView};

verus! {

/// What chrono's timestamp parse yields for a string: the parsed instant in
/// seconds since the Unix epoch, or nothing when the string does not parse.
pub uninterp spec fn parsed_epoch(s: Seq<char>) -> Option<i64>;

/// Relies on chrono: `str::parse::<DateTime<Utc>>` accepts a relaxed RFC 3339
/// timestamp, and `DateTime::timestamp` gives the instant's seconds since the
/// Unix epoch; both depend on the input string alone.
#[verifier::external_body]
fn parse_arrival_epoch(s: &str) -> (r: Option<i64>)
    ensures
        r == parsed_epoch(s@),
{
    match s.parse::<chrono::DateTime<chrono::Utc>>() {
        Ok(t) => Some(t.timestamp()),
        Err(_) => None,
    }
}

/// Whole minutes between `now` and a later instant `t`, both in seconds
/// since the Unix epoch.
pub open spec fn minute_of(now: i64, t: i64) -> u64
    recommends
        now < t,
{
    (((t as int) - (now as int)) / 60) as u64
}

/// The minute count fits its type and grows with the arrival time.
proof fn lemma_minute_of_bounds(now: i64, t: i64)
    requires
        now < t,
    ensures
        minute_of(now, t) == ((t as int) - (now as int)) / 60,
        minute_of(now, t) <= 0x1000_0000_0000_0000,
{
    let d = (t as int) - (now as int);
    lemma_div_pos_is_pos(d, 60);
    lemma_div_is_ordered(d, 0x2_0000_0000_0000_0000, 60);
}

/// Larger arrival times give at least as many whole minutes.
proof fn lemma_minute_of_monotone(now: i64, t1: i64, t2: i64)
    requires
        now < t1 <= t2,
    ensures
        minute_of(now, t1) <= minute_of(now, t2),
{
    lemma_minute_of_bounds(now, t1);
    lemma_minute_of_bounds(now, t2);
    lemma_div_is_ordered((t1 as int) - (now as int), (t2 as int) - (now as int), 60);
}

/// Computes the whole minutes from `now` until `arrival`.
fn minutes_until(now: i64, arrival: i64) -> (m: u64)
    requires
        now < arrival,
    ensures
        m == minute_of(now, arrival),
{
    proof {
        lemma_minute_of_bounds(now, arrival);
    }
    let diff: i128 = arrival as i128 - now as i128;
    (diff / 60) as u64
}

/// The minute values of the eligible arrivals, in list order: those whose
/// timestamp is present, parses, and lies strictly after `now`.
pub open spec fn eligible_minutes(times: Seq<Option<Seq<char>>>, now: i64) -> Seq<u64>
    decreases times.len(),
{
    if times.len() == 0 {
        Seq::empty()
    } else {
        let rest = eligible_minutes(times.drop_last(), now);
        match times.last() {
            Option::Some(s) => match parsed_epoch(s) {
                Option::Some(t) => if t > now {
                    rest.push(minute_of(now, t))
                } else {
                    rest
                },
                Option::None => rest,
            },
            Option::None => rest,
        }
    }
}

/// The countdown keeps at most the first three eligible minute values.
pub open spec fn countdown_minutes(times: Seq<Option<Seq<char>>>, now: i64) -> Seq<u64> {
    let e = eligible_minutes(times, now);
    if e.len() <= 3 {
        e
    } else {
        e.take(3)
    }
}

/// The character for one decimal digit.
pub open spec fn digit_char(d: nat) -> char {
    if d == 0 {
        '0'
    } else if d == 1 {
        '1'
    } else if d == 2 {
        '2'
    } else if d == 3 {
        '3'
    } else if d == 4 {
        '4'
    } else if d == 5 {
        '5'
    } else if d == 6 {
        '6'
    } else if d == 7 {
        '7'
    } else if d == 8 {
        '8'
    } else {
        '9'
    }
}

/// The decimal digits of a number, most significant first.
pub open spec fn dec_digits(n: nat) -> Seq<char>
    decreases n,
{
    if n < 10 {
        seq![digit_char(n)]
    } else {
        dec_digits(n / 10).push(digit_char(n % 10))
    }
}

/// The minute values joined with ", ".
pub open spec fn joined_minutes(ms: Seq<u64>) -> Seq<char>
    decreases ms.len(),
{
    if ms.len() == 0 {
        Seq::empty()
    } else if ms.len() == 1 {
        dec_digits(ms.first() as nat)
    } else {
        joined_minutes(ms.drop_last()) + ", "@ + dec_digits(ms.last() as nat)
    }
}

/// What the board shows for a group without an eligible arrival.
pub open spec fn spec_placeholder() -> Seq<char> {
    "no upcoming arrivals"@
}

/// The countdown text for a list of optional arrival timestamps: up to three
/// eligible minute values joined with ", " and closed with " min", or the
/// placeholder when none is eligible.
pub open spec fn spec_countdown(times: Seq<Option<Seq<char>>>, now: i64) -> Seq<char> {
    let ms = countdown_minutes(times, now);
    if ms.len() == 0 {
        spec_placeholder()
    } else {
        joined_minutes(ms) + " min"@
    }
}

/// The arrival timestamps of a record list, in order.
pub open spec fn times_of(rs: Seq<NormalizedArrivalView>) -> Seq<Option<Seq<char>>> {
    rs.map_values(|r: NormalizedArrivalView| r.expected_arrival)
}

/// Appends the decimal digits of `n`.
fn push_decimal(n: u64, out: &mut String)
    ensures
        final(out)@ == old(out)@ + dec_digits(n as nat),
    decreases n,
{
    if n >= 10 {
        push_decimal(n / 10, out);
    }
    let d = n % 10;
    let ds: &str = if d == 0 {
        "0"
    } else if d == 1 {
        "1"
    } else if d == 2 {
        "2"
    } else if d == 3 {
        "3"
    } else if d == 4 {
        "4"
    } else if d == 5 {
        "5"
    } else if d == 6 {
        "6"
    } else if d == 7 {
        "7"
    } else if d == 8 {
        "8"
    } else {
        "9"
    };
    proof {
        reveal_strlit("0");
        reveal_strlit("1");
        reveal_strlit("2");
        reveal_strlit("3");
        reveal_strlit("4");
        reveal_strlit("5");
        reveal_strlit("6");
        reveal_strlit("7");
        reveal_strlit("8");
        reveal_strlit("9");
        assert(ds@ =~= seq![digit_char((n % 10) as nat)]);
        if n >= 10 {
            assert(dec_digits(n as nat) =~= dec_digits((n / 10) as nat).push(
                digit_char((n % 10) as nat),
            ));
        }
    }
    out.append(ds);
    proof {
        assert(final(out)@ =~= old(out)@ + dec_digits(n as nat));
    }
}

/// Builds the countdown text for one group's time-ordered arrival list and
/// an injected "now" instant in seconds since the Unix epoch.
pub fn countdown_string(arrivals: &Vec<NormalizedArrival>, now: i64) -> (out: String)
    ensures
        out@ == spec_countdown(times_of(arrivals.deep_view()), now),
{
    let ghost times = times_of(arrivals.deep_view());
    let mut ems: Vec<u64> = Vec::new();
    let mut i: usize = 0;
    proof {
        assert(times.take(0) =~= Seq::<Option<Seq<char>>>::empty());
    }
    while i < arrivals.len()
        invariant
            i <= arrivals.len(),
            times == times_of(arrivals.deep_view()),
            times.len() == arrivals.len(),
            ems@ == eligible_minutes(times.take(i as int), now),
        decreases arrivals.len() - i,
    {
        proof {
            assert(times.take(i + 1 as int).drop_last() =~= times.take(i as int));
            assert(arrivals.deep_view()[i as int] == arrivals@[i as int]@);
            assert(times[i as int] == arrivals.deep_view()[i as int].expected_arrival);
            assert(times.take(i + 1 as int).last() == times[i as int]);
        }
        match &arrivals[i].expected_arrival {
            Some(s) => {
                proof {
                    assert(times[i as int] == Some(s@));
                }
                match parse_arrival_epoch(s.as_str()) {
                    Some(t) => {
                        if t > now {
                            let m = minutes_until(now, t);
                            ems.push(m);
                        }
                    },
                    None => {},
                }
            },
            None => {},
        }
        i += 1;
    }
    proof {
        assert(times.take(times.len() as int) =~= times);
    }
    let ghost ms = countdown_minutes(times, now);
    let k: usize = if ems.len() > 3 {
        3
    } else {
        ems.len()
    };
    proof {
        assert(ms =~= ems@.take(k as int));
        assert(ms.len() == k);
    }
    if k == 0 {
        let out = "no upcoming arrivals".to_owned();
        proof {
            assert(out@ == spec_placeholder());
        }
        return out;
    }
    let mut out = String::new();
    let mut j: usize = 0;
    proof {
        assert(joined_minutes(ms.take(0)) =~= out@);
    }
    while j < k
        invariant
            j <= k,
            k <= ems.len(),
            ems@.len() == ems.len(),
            ms == countdown_minutes(times, now),
            ms =~= ems@.take(k as int),
            ms.len() == k,
            out@ == joined_minutes(ms.take(j as int)),
        decreases k - j,
    {
        proof {
            assert(ms.take(j + 1 as int).drop_last() =~= ms.take(j as int));
            assert(ms.take(j + 1 as int).last() == ms[j as int]);
            assert(ms[j as int] == ems@[j as int]);
        }
        let ghost before = out@;
        if j > 0 {
            out.append(", ");
        }
        push_decimal(ems[j], &mut out);
        proof {
            if j == 0 {
                assert(ms.take(1).len() == 1);
                assert(ms.take(1).first() == ms[0]);
                assert(out@ =~= joined_minutes(ms.take(1)));
            } else {
                assert(out@ =~= joined_minutes(ms.take(j as int)) + ", "@ + dec_digits(
                    ms[j as int] as nat,
                ));
                assert(out@ =~= joined_minutes(ms.take(j + 1 as int)));
            }
        }
        j += 1;
    }
    proof {
        assert(ms.take(k as int) =~= ms);
    }
    out.append(" min");
    proof {
        assert(out@ =~= joined_minutes(ms) + " min"@);
    }
    out
}

/// Whether `m` is the whole-minute gap from `now` to some listed arrival
/// that parses and lies strictly after `now`.
pub open spec fn minute_from_future_arrival(times: Seq<Option<Seq<char>>>, now: i64, m: u64) -> bool {
    exists|i: int|
        0 <= i < times.len() && (#[trigger] times[i]) is Some && parsed_epoch(times[i]->0) is Some
            && parsed_epoch(times[i]->0)->0 > now && m == minute_of(
            now,
            parsed_epoch(times[i]->0)->0,
        )
}

/// The countdown shows at most three entries; each is the whole-minute gap
/// to an arrival strictly after "now"; and when the parseable arrival times
/// ascend along the list, the shown minutes do not decrease.
pub proof fn lemma_countdown_entries(times: Seq<Option<Seq<char>>>, now: i64)
    requires
        forall|i: int, j: int|
            0 <= i < j < times.len() && (#[trigger] times[i]) is Some && (#[trigger] times[j])
                is Some && parsed_epoch(times[i]->0) is Some && parsed_epoch(times[j]->0)
                is Some ==> parsed_epoch(times[i]->0)->0 <= parsed_epoch(times[j]->0)->0,
    ensures
        countdown_minutes(times, now).len() <= 3,
        forall|j: int|
            0 <= j < countdown_minutes(times, now).len() ==> minute_from_future_arrival(
                times,
                now,
                #[trigger] countdown_minutes(times, now)[j],
            ),
        forall|i: int, j: int|
            0 <= i < j < countdown_minutes(times, now).len() ==> #[trigger] countdown_minutes(
                times,
                now,
            )[i] <= #[trigger] countdown_minutes(times, now)[j],
{
    lemma_eligible_minutes_entries(times, now);
    let e = eligible_minutes(times, now);
    let ms = countdown_minutes(times, now);
    assert forall|j: int| 0 <= j < ms.len() implies minute_from_future_arrival(
        times,
        now,
        #[trigger] ms[j],
    ) by {
        assert(ms[j] == e[j]);
        assert(minute_from_future_arrival(times, now, e[j]));
    }
}

/// The eligible minute list: each entry's origin, and its ascent when the
/// parseable arrival times ascend.
proof fn lemma_eligible_minutes_entries(times: Seq<Option<Seq<char>>>, now: i64)
    requires
        forall|i: int, j: int|
            0 <= i < j < times.len() && (#[trigger] times[i]) is Some && (#[trigger] times[j])
                is Some && parsed_epoch(times[i]->0) is Some && parsed_epoch(times[j]->0)
                is Some ==> parsed_epoch(times[i]->0)->0 <= parsed_epoch(times[j]->0)->0,
    ensures
        forall|j: int|
            0 <= j < eligible_minutes(times, now).len() ==> minute_from_future_arrival(
                times,
                now,
                #[trigger] eligible_minutes(times, now)[j],
            ),
        forall|i: int, j: int|
            0 <= i < j < eligible_minutes(times, now).len() ==> #[trigger] eligible_minutes(
                times,
                now,
            )[i] <= #[trigger] eligible_minutes(times, now)[j],
    decreases times.len(),
{
    if times.len() > 0 {
        let prev = times.drop_last();
        assert forall|i: int| 0 <= i < prev.len() implies prev[i] == times[i] by {}
        lemma_eligible_minutes_entries(prev, now);
        let e = eligible_minutes(times, now);
        let ep = eligible_minutes(prev, now);
        let n = times.len() - 1;
        assert forall|m: u64| minute_from_future_arrival(prev, now, m) implies
            minute_from_future_arrival(times, now, m) by {
            let i = choose|i: int|
                0 <= i < prev.len() && (#[trigger] prev[i]) is Some && parsed_epoch(prev[i]->0)
                    is Some && parsed_epoch(prev[i]->0)->0 > now && m == minute_of(
                    now,
                    parsed_epoch(prev[i]->0)->0,
                );
            assert(times[i] == prev[i]);
        }
        if times.last() is Some && parsed_epoch(times.last()->0) is Some && parsed_epoch(
            times.last()->0,
        )->0 > now {
            let t_new = parsed_epoch(times[n]->0)->0;
            assert(e == ep.push(minute_of(now, t_new)));
            assert forall|j: int| 0 <= j < e.len() implies minute_from_future_arrival(
                times,
                now,
                #[trigger] e[j],
            ) by {
                if j < ep.len() {
                    assert(e[j] == ep[j]);
                    assert(minute_from_future_arrival(prev, now, ep[j]));
                } else {
                    assert(e[j] == minute_of(now, t_new));
                    assert((times[n]) is Some && parsed_epoch(times[n]->0) is Some
                        && parsed_epoch(times[n]->0)->0 > now);
                }
            }
            assert forall|i: int, j: int| 0 <= i < j < e.len() implies #[trigger] e[i]
                <= #[trigger] e[j] by {
                if j < ep.len() {
                    assert(ep[i] <= ep[j]);
                } else {
                    assert(e[j] == minute_of(now, t_new));
                    assert(e[i] == ep[i]);
                    assert(minute_from_future_arrival(prev, now, ep[i]));
                    let w = choose|w: int|
                        0 <= w < prev.len() && (#[trigger] prev[w]) is Some && parsed_epoch(
                            prev[w]->0,
                        ) is Some && parsed_epoch(prev[w]->0)->0 > now && ep[i] == minute_of(
                            now,
                            parsed_epoch(prev[w]->0)->0,
                        );
                    let t_old = parsed_epoch(prev[w]->0)->0;
                    assert(times[w] == prev[w]);
                    assert(t_old <= t_new);
                    lemma_minute_of_monotone(now, t_old, t_new);
                }
            }
        } else {
            assert(e == ep);
            assert forall|j: int| 0 <= j < e.len() implies minute_from_future_arrival(
                times,
                now,
                #[trigger] e[j],
            ) by {
                assert(e[j] == ep[j]);
                assert(minute_from_future_arrival(prev, now, ep[j]));
            }
        }
    }
}

/// A group with no eligible arrival — every timestamp missing, unparseable,
/// or at or before "now" — shows exactly the placeholder, never a fragment
/// of the joining logic.
pub proof fn lemma_countdown_placeholder(times: Seq<Option<Seq<char>>>, now: i64)
    requires
        forall|i: int|
            0 <= i < times.len() ==> ((#[trigger] times[i]) is None || parsed_epoch(times[i]->0)
                is None || parsed_epoch(times[i]->0)->0 <= now),
    ensures
        spec_countdown(times, now) == spec_placeholder(),
{
    lemma_eligible_minutes_empty(times, now);
}

/// Without an eligible arrival the eligible minute list is empty.
proof fn lemma_eligible_minutes_empty(times: Seq<Option<Seq<char>>>, now: i64)
    requires
        forall|i: int|
            0 <= i < times.len() ==> ((#[trigger] times[i]) is None || parsed_epoch(times[i]->0)
                is None || parsed_epoch(times[i]->0)->0 <= now),
    ensures
        eligible_minutes(times, now).len() == 0,
    decreases times.len(),
{
    if times.len() > 0 {
        let prev = times.drop_last();
        assert forall|i: int| 0 <= i < prev.len() implies prev[i] == times[i] by {}
        lemma_eligible_minutes_empty(prev, now);
        assert(times[times.len() - 1] == times.last());
    }
}

} // verus!
