//! Next tram departures at the stop, from the departure board of the
//! transport company.

use vstd::prelude::*;
use crate::text::{chars_of, contains, decimal, decimal_of, has_infix, string_of};

verus! {

/// Departure board of the stop that the board shows.
pub const STATION_URL: &'static str = "https://www.rnv-online.de/rest/departure/2494";

/// Seconds to a departure that stand for "no departure known" (666 minutes).
pub const NO_DEPARTURE_DIFF: i64 = 39960;

/// The departure board of a stop, as the transport company's service
/// answers it.
#[derive(Default, Debug, Clone, PartialEq)]
pub struct Station {
    pub id: String,
    pub name: String,
    pub graph_ql: GraphQL,
}

/// The query part of the answer.
#[derive(Default, Debug, Clone, PartialEq)]
pub struct GraphQL {
    pub response: GraphQLResponse,
}

/// The answer to the departure query.
#[derive(Default, Debug, Clone, PartialEq)]
pub struct GraphQLResponse {
    pub name: String,
    pub journeys: JourneysElement,
}

/// The journeys that pass the stop.
#[derive(Default, Debug, Clone, PartialEq)]
pub struct JourneysElement {
    pub elements: Vec<Journey>,
}

/// The line of a journey.
#[derive(Default, Debug, Clone, PartialEq)]
pub struct Line {
    pub line_group: LineGroup,
}

/// The name of a line.
#[derive(Default, Debug, Clone, PartialEq)]
pub struct LineGroup {
    pub label: String,
}

/// One journey of a line, with its stops.
#[derive(Default, Debug, Clone, PartialEq)]
pub struct Journey {
    pub line: Line,
    pub canceled: bool,
    pub stops: Vec<StopsElement>,
}

/// A stop of a journey: where it goes and when it leaves.
#[derive(Default, Debug, Clone, PartialEq)]
pub struct StopsElement {
    pub destination_label: String,
    pub planned_departure: IsoStringDateTime,
    pub realtime_departure: IsoStringDateTime,
}

/// A time as RFC 3339 text, if the service gives one.
#[derive(Default, Debug, Clone, PartialEq)]
pub struct IsoStringDateTime {
    pub iso_string: Option<String>,
}

/// The next departure in each direction, seconds from the time of the
/// request.
pub struct NextDeparture {
    pub request_time: i64,
    pub outbound_station: String,
    pub outbound_diff: i64,
    pub inbound_station: String,
    pub inbound_diff: i64,
    pub failure: bool,
}

/// What a `NextDeparture` holds, with the station names as characters.
pub struct DepartureView {
    pub request_time: int,
    pub outbound_station: Seq<char>,
    pub outbound_diff: int,
    pub inbound_station: Seq<char>,
    pub inbound_diff: int,
    pub failure: bool,
}

impl View for NextDeparture {
    type V = DepartureView;

    open spec fn view(&self) -> DepartureView {
        DepartureView {
            request_time: self.request_time as int,
            outbound_station: self.outbound_station@,
            outbound_diff: self.outbound_diff as int,
            inbound_station: self.inbound_station@,
            inbound_diff: self.inbound_diff as int,
            failure: self.failure,
        }
    }
}

/// The UNIX time of an RFC 3339 text, `None` where it is no such text.
pub uninterp spec fn rfc3339_timestamp(text: Seq<char>) -> Option<i64>;

/// chrono's `DateTime::parse_from_rfc3339`, read with `timestamp()`: the
/// seconds since the UNIX epoch of the time written in `text`, `None` where
/// chrono refuses the text. What chrono accepts and computes is not stated:
/// it is named by `rfc3339_timestamp`.
#[verifier::external_body]
fn parse_rfc3339(text: &str) -> (r: Option<i64>)
    ensures
        r == rfc3339_timestamp(text@),
{
    match chrono::DateTime::parse_from_rfc3339(text) {
        Ok(t) => Some(t.timestamp()),
        Err(_) => None,
    }
}

/// The state before any departure is known.
pub open spec fn initial_departures(seconds: int) -> DepartureView {
    DepartureView {
        request_time: seconds,
        outbound_station: "Error"@,
        outbound_diff: NO_DEPARTURE_DIFF as int,
        inbound_station: "Error"@,
        inbound_diff: NO_DEPARTURE_DIFF as int,
        failure: false,
    }
}

/// A stop with a real-time departure and a destination is used; the others
/// are skipped.
pub open spec fn usable_stop(stop: StopsElement) -> bool {
    stop.realtime_departure.iso_string is Some && stop.destination_label@.len() > 0
}

/// The departure time of a stop, as its real-time text gives it.
pub open spec fn stop_timestamp(stop: StopsElement) -> Option<i64> {
    rfc3339_timestamp(stop.realtime_departure.iso_string->0@)
}

/// Seconds from the request to the departure of a usable stop.
pub open spec fn stop_diff(stop: StopsElement, request_time: int) -> int {
    stop_timestamp(stop)->0 - request_time
}

/// A usable stop whose departure time cannot be read, or lies too far from
/// the request for a signed 64-bit number of seconds, cannot be placed.
pub open spec fn stop_readable(stop: StopsElement, request_time: int) -> bool {
    usable_stop(stop) ==> {
        &&& stop_timestamp(stop) is Some
        &&& i64::MIN <= stop_diff(stop, request_time) <= i64::MAX
    }
}

/// Every usable stop can be placed.
pub open spec fn stops_readable(stops: Seq<StopsElement>, request_time: int) -> bool {
    forall|i: int| 0 <= i < stops.len() ==> stop_readable(#[trigger] stops[i], request_time)
}

/// A destination in the outbound direction (towards Rheinau).
pub open spec fn outbound_destination(label: Seq<char>) -> bool {
    has_infix(label, "Rheinau"@)
}

/// A destination in the inbound direction (towards Hochschule, Hauptbahnhof
/// or Schönau) that is not outbound.
pub open spec fn inbound_destination(label: Seq<char>) -> bool {
    !outbound_destination(label) && (has_infix(label, "Hochschule"@) || has_infix(
        label,
        "Hauptbahnhof"@,
    ) || has_infix(label, "Schönau"@))
}

/// The state after one stop is looked at: a usable stop that leaves
/// strictly earlier than the known departure in its direction takes its
/// place.
pub open spec fn take_stop(v: DepartureView, stop: StopsElement) -> DepartureView {
    if !usable_stop(stop) {
        v
    } else {
        let label = stop.destination_label@;
        let diff = stop_diff(stop, v.request_time);
        if outbound_destination(label) {
            if diff < v.outbound_diff {
                DepartureView { outbound_station: label, outbound_diff: diff, ..v }
            } else {
                v
            }
        } else if inbound_destination(label) {
            if diff < v.inbound_diff {
                DepartureView { inbound_station: label, inbound_diff: diff, ..v }
            } else {
                v
            }
        } else {
            v
        }
    }
}

/// The state after the stops are looked at in order.
pub open spec fn take_stops(v: DepartureView, stops: Seq<StopsElement>) -> DepartureView
    decreases stops.len(),
{
    if stops.len() == 0 {
        v
    } else {
        take_stop(take_stops(v, stops.drop_last()), stops.last())
    }
}

/// All stops of the journeys, journey by journey.
pub open spec fn journey_stops(journeys: Seq<Journey>) -> Seq<StopsElement>
    decreases journeys.len(),
{
    if journeys.len() == 0 {
        Seq::empty()
    } else {
        journey_stops(journeys.drop_last()) + journeys.last().stops@
    }
}

/// All stops of the answer of the service.
pub open spec fn station_stops(result: Station) -> Seq<StopsElement> {
    journey_stops(result.graph_ql.response.journeys.elements@)
}

/// Every stop of a journey is a stop of the answer: if all stops of the
/// journeys can be placed, so can each stop of each journey.
proof fn lemma_journey_stops_readable(journeys: Seq<Journey>, request_time: int)
    requires
        stops_readable(journey_stops(journeys), request_time),
    ensures
        forall|i: int, k: int|
            0 <= i < journeys.len() && 0 <= k < journeys[i].stops@.len() ==> stop_readable(
                #[trigger] journeys[i].stops@[k],
                request_time,
            ),
    decreases journeys.len(),
{
    if journeys.len() > 0 {
        let init = journeys.drop_last();
        let prefix = journey_stops(init);
        let last = journeys.last().stops@;
        assert forall|j: int| 0 <= j < prefix.len() implies stop_readable(
            #[trigger] prefix[j],
            request_time,
        ) by {
            assert(journey_stops(journeys)[j] == prefix[j]);
        }
        lemma_journey_stops_readable(init, request_time);
        assert forall|i: int, k: int|
            0 <= i < journeys.len() && 0 <= k < journeys[i].stops@.len() implies stop_readable(
            #[trigger] journeys[i].stops@[k],
            request_time,
        ) by {
            if i < journeys.len() - 1 {
                assert(journeys[i] == init[i]);
            } else {
                assert(journey_stops(journeys)[prefix.len() + k] == last[k]);
            }
        }
    }
}

/// The stops of the first `i + 1` journeys are those of the first `i`
/// followed by those of journey `i`.
proof fn lemma_journey_stops_take(journeys: Seq<Journey>, i: int)
    requires
        0 <= i < journeys.len(),
    ensures
        journey_stops(journeys.take(i + 1)) == journey_stops(journeys.take(i)) + journeys[i].stops@,
{
    assert(journeys.take(i + 1).drop_last() =~= journeys.take(i));
}

impl NextDeparture {
    /// No departure known yet, at the request time `seconds`.
    pub fn new(seconds: i64) -> (r: NextDeparture)
        ensures
            r@ == initial_departures(seconds as int),
    {
        NextDeparture {
            failure: false,
            outbound_station: string_of(&chars_of("Error")),
            outbound_diff: NO_DEPARTURE_DIFF,
            inbound_station: string_of(&chars_of("Error")),
            inbound_diff: NO_DEPARTURE_DIFF,
            request_time: seconds,
        }
    }

    /// Looks at one stop, see `take_stop`.
    fn take_stop(&mut self, stop: &StopsElement)
        requires
            stop_readable(*stop, old(self).request_time as int),
        ensures
            final(self)@ == take_stop(old(self)@, *stop),
    {
        let label = &stop.destination_label;
        match &stop.realtime_departure.iso_string {
            None => {},
            Some(txt) => {
                if label.as_str().is_empty() {
                    return ;
                }
                let departure = parse_rfc3339(txt.as_str()).unwrap();
                let diff = departure - self.request_time;
                let chars = chars_of(label.as_str());
                if contains(&chars, &chars_of("Rheinau")) {
                    if diff < self.outbound_diff {
                        self.outbound_station = label.clone();
                        self.outbound_diff = diff;
                    }
                } else if contains(&chars, &chars_of("Hochschule")) || contains(
                    &chars,
                    &chars_of("Hauptbahnhof"),
                ) || contains(&chars, &chars_of("Schönau")) {
                    if diff < self.inbound_diff {
                        self.inbound_station = label.clone();
                        self.inbound_diff = diff;
                    }
                }
            },
        }
    }

    /// Takes the next departure in each direction from the answer of the
    /// service: stops are looked at journey by journey, in order, see
    /// `take_stops`.
    pub fn populate_departure(&mut self, result: Station)
        requires
            stops_readable(station_stops(result), old(self).request_time as int),
        ensures
            final(self)@ == take_stops(old(self)@, station_stops(result)),
    {
        let journeys = &result.graph_ql.response.journeys.elements;
        proof {
            lemma_journey_stops_readable(journeys@, self.request_time as int);
            assert(journeys@.take(0) =~= Seq::<Journey>::empty());
        }
        let nj = journeys.len();
        let mut i: usize = 0;
        while i < nj
            invariant
                nj == journeys@.len(),
                i <= nj,
                self.request_time == old(self).request_time,
                self@ == take_stops(old(self)@, journey_stops(journeys@.take(i as int))),
                forall|a: int, k: int|
                    0 <= a < journeys@.len() && 0 <= k < journeys@[a].stops@.len()
                        ==> stop_readable(#[trigger] journeys@[a].stops@[k], self.request_time as int),
            decreases nj - i,
        {
            let stops = &journeys[i].stops;
            let ns = stops.len();
            let ghost done = journey_stops(journeys@.take(i as int));
            proof {
                assert(done + stops@.take(0) =~= done);
            }
            let mut k: usize = 0;
            while k < ns
                invariant
                    ns == stops@.len(),
                    stops@ == journeys@[i as int].stops@,
                    i < nj,
                    nj == journeys@.len(),
                    k <= ns,
                    self.request_time == old(self).request_time,
                    self@ == take_stops(old(self)@, done + stops@.take(k as int)),
                    forall|a: int, k: int|
                        0 <= a < journeys@.len() && 0 <= k < journeys@[a].stops@.len()
                            ==> stop_readable(#[trigger] journeys@[a].stops@[k], self.request_time as int),
                decreases ns - k,
            {
                proof {
                    assert(stop_readable(journeys@[i as int].stops@[k as int], self.request_time as int));
                }
                self.take_stop(&stops[k]);
                proof {
                    assert((done + stops@.take(k + 1)).drop_last() =~= done + stops@.take(k as int));
                    assert((done + stops@.take(k + 1)).last() == stops@[k as int]);
                }
                k = k + 1;
            }
            proof {
                lemma_journey_stops_take(journeys@, i as int);
                assert(stops@.take(ns as int) =~= stops@);
            }
            i = i + 1;
        }
        proof {
            assert(journeys@.take(nj as int) =~= journeys@);
        }
    }
}

/// Whether one stop can be placed, see `stop_readable`.
fn stop_is_readable(stop: &StopsElement, request_time: i64) -> (r: bool)
    ensures
        r == stop_readable(*stop, request_time as int),
{
    match &stop.realtime_departure.iso_string {
        None => true,
        Some(txt) => {
            if stop.destination_label.as_str().is_empty() {
                return true;
            }
            match parse_rfc3339(txt.as_str()) {
                None => false,
                Some(t) => t.checked_sub(request_time).is_some(),
            }
        },
    }
}

/// Whether every usable stop of the answer can be placed, see
/// `stops_readable`.
pub fn stops_are_readable(result: &Station, request_time: i64) -> (r: bool)
    ensures
        r == stops_readable(station_stops(*result), request_time as int),
{
    let journeys = &result.graph_ql.response.journeys.elements;
    let nj = journeys.len();
    let mut i: usize = 0;
    proof {
        assert(journeys@.take(0) =~= Seq::<Journey>::empty());
    }
    while i < nj
        invariant
            nj == journeys@.len(),
            journeys@ == result.graph_ql.response.journeys.elements@,
            i <= nj,
            stops_readable(journey_stops(journeys@.take(i as int)), request_time as int),
        decreases nj - i,
    {
        let stops = &journeys[i].stops;
        let ns = stops.len();
        let mut k: usize = 0;
        while k < ns
            invariant
                ns == stops@.len(),
                journeys@ == result.graph_ql.response.journeys.elements@,
                nj == journeys@.len(),
                i < nj,
                stops@ == journeys@[i as int].stops@,
                k <= ns,
                forall|j: int| 0 <= j < k ==> stop_readable(#[trigger] stops@[j], request_time as int),
            decreases ns - k,
        {
            if !stop_is_readable(&stops[k], request_time) {
                proof {
                    lemma_journey_stops_take(journeys@, i as int);
                    let prefix = journey_stops(journeys@.take(i + 1));
                    let at = journey_stops(journeys@.take(i as int)).len() + k;
                    assert(prefix[at] == stops@[k as int]);
                    lemma_journey_stops_prefix(journeys@, i + 1);
                    assert(journey_stops(journeys@)[at] == prefix[at]);
                    assert(station_stops(*result) == journey_stops(journeys@));
                    assert(!stop_readable(station_stops(*result)[at], request_time as int));
                }
                return false;
            }
            k = k + 1;
        }
        proof {
            lemma_journey_stops_take(journeys@, i as int);
            let before = journey_stops(journeys@.take(i as int));
            let after = journey_stops(journeys@.take(i + 1));
            assert forall|j: int| 0 <= j < after.len() implies stop_readable(
                #[trigger] after[j],
                request_time as int,
            ) by {
                if j < before.len() {
                    assert(after[j] == before[j]);
                } else {
                    assert(after[j] == stops@[j - before.len()]);
                }
            }
        }
        i = i + 1;
    }
    proof {
        assert(journeys@.take(nj as int) =~= journeys@);
    }
    true
}

/// The stops of the first `i` journeys come first among all stops.
proof fn lemma_journey_stops_prefix(journeys: Seq<Journey>, i: int)
    requires
        0 <= i <= journeys.len(),
    ensures
        journey_stops(journeys.take(i)).len() <= journey_stops(journeys).len(),
        forall|j: int|
            0 <= j < journey_stops(journeys.take(i)).len() ==> #[trigger] journey_stops(journeys)[j]
                == journey_stops(journeys.take(i))[j],
    decreases journeys.len() - i,
{
    if i < journeys.len() {
        lemma_journey_stops_prefix(journeys, i + 1);
        lemma_journey_stops_take(journeys, i);
    } else {
        assert(journeys.take(i) =~= journeys);
    }
}

impl NextDeparture {
    /// Takes the next departures from the answer of the service where every
    /// usable stop can be placed, and answers `true`; else answers `false`
    /// and changes nothing.
    pub fn try_populate_departure(&mut self, result: Station) -> (r: bool)
        ensures
            r == stops_readable(station_stops(result), old(self).request_time as int),
            r ==> final(self)@ == take_stops(old(self)@, station_stops(result)),
            !r ==> final(self)@ == old(self)@,
    {
        if stops_are_readable(&result, self.request_time) {
            self.populate_departure(result);
            true
        } else {
            false
        }
    }
}

/// The next departures for a request made at `seconds`: none known where
/// the service gave no answer, else those taken from the answer (see
/// `take_stops`). Every usable stop of an answer must be readable (a time
/// that cannot be read stops the client).
pub fn fetch_data(seconds: u64, response: Option<Station>) -> (r: NextDeparture)
    requires
        response matches Some(content) ==> stops_readable(
            station_stops(content),
            (seconds as i64) as int,
        ),
    ensures
        r@ == match response {
            Some(content) => take_stops(
                initial_departures((seconds as i64) as int),
                station_stops(content),
            ),
            None => initial_departures((seconds as i64) as int),
        },
{
    let mut return_value = NextDeparture::new(seconds as i64);
    match response {
        Some(content) => return_value.populate_departure(content),
        None => {},
    }
    return_value
}

/// `fetch_data` where it can run: `None` exactly when the answer has a
/// usable stop that cannot be read, else the next departures.
pub fn try_fetch_data(seconds: u64, response: Option<Station>) -> (r: Option<NextDeparture>)
    ensures
        r is None <==> (response matches Some(content) && !stops_readable(
            station_stops(content),
            (seconds as i64) as int,
        )),
        r matches Some(n) ==> n@ == match response {
            Some(content) => take_stops(
                initial_departures((seconds as i64) as int),
                station_stops(content),
            ),
            None => initial_departures((seconds as i64) as int),
        },
{
    match &response {
        Some(content) => {
            if !stops_are_readable(content, seconds as i64) {
                return None;
            }
        },
        None => {},
    }
    Some(fetch_data(seconds, response))
}

/// The address of the departure board for a request made at `seconds`.
pub open spec fn departure_url_text(seconds: nat) -> Seq<char> {
    STATION_URL@ + "?datetime="@ + decimal(seconds)
}

/// The address that asks the service for the departures at `seconds`.
pub fn departure_url(seconds: u64) -> (r: String)
    ensures
        r@ == departure_url_text(seconds as nat),
{
    let mut v = chars_of(STATION_URL);
    let mut query = chars_of("?datetime=");
    let mut digits = decimal_of(seconds);
    v.append(&mut query);
    v.append(&mut digits);
    string_of(&v)
}

/// Whether the departures, requested at `request_time`, are old enough at
/// `now` (seconds since the UNIX epoch) to be requested again: more than 50
/// seconds have passed.
pub fn needs_refresh(request_time: i64, now: u64) -> (r: bool)
    requires
        request_time + 50 <= i64::MAX,
    ensures
        r == (request_time + 50 < (now as i64)),
{
    (request_time + 50) < now as i64
}

/// Whether stop `j` is a usable stop in the given direction.
pub open spec fn departs_towards(stops: Seq<StopsElement>, j: int, outbound: bool) -> bool {
    &&& 0 <= j < stops.len()
    &&& usable_stop(stops[j])
    &&& if outbound {
        outbound_destination(stops[j].destination_label@)
    } else {
        inbound_destination(stops[j].destination_label@)
    }
}

/// Stop `j` is the departure `(station, diff)` in the given direction: it
/// leaves strictly before `first_diff`, no stop in that direction leaves
/// earlier, and every earlier stop in that direction leaves later.
pub open spec fn earliest_at(
    stops: Seq<StopsElement>,
    request_time: int,
    outbound: bool,
    first_diff: int,
    station: Seq<char>,
    diff: int,
    j: int,
) -> bool {
    &&& departs_towards(stops, j, outbound)
    &&& station == stops[j].destination_label@
    &&& diff == stop_diff(stops[j], request_time)
    &&& diff < first_diff
    &&& forall|k: int|
        departs_towards(stops, k, outbound) ==> stop_diff(#[trigger] stops[k], request_time) >= diff
    &&& forall|k: int|
        #![trigger stops[k]]
        departs_towards(stops, k, outbound) && k < j ==> stop_diff(stops[k], request_time) > diff
}

/// `(station, diff)` is the earliest departure in one direction among the
/// stops, the first one where several leave at the same time, provided it
/// leaves strictly before `(first_station, first_diff)`; else it is
/// `(first_station, first_diff)`.
pub open spec fn earliest_departure(
    first_station: Seq<char>,
    first_diff: int,
    stops: Seq<StopsElement>,
    request_time: int,
    outbound: bool,
    station: Seq<char>,
    diff: int,
) -> bool {
    if forall|j: int|
        departs_towards(stops, j, outbound) ==> stop_diff(#[trigger] stops[j], request_time)
            >= first_diff {
        station == first_station && diff == first_diff
    } else {
        exists|j: int| #[trigger] earliest_at(stops, request_time, outbound, first_diff, station, diff, j)
    }
}

/// One step of the choice in one direction keeps it the earliest departure.
proof fn lemma_earliest_step(
    v: DepartureView,
    stops: Seq<StopsElement>,
    outbound: bool,
)
    requires
        stops.len() > 0,
        earliest_departure(
            if outbound { v.outbound_station } else { v.inbound_station },
            if outbound { v.outbound_diff } else { v.inbound_diff },
            stops.drop_last(),
            v.request_time,
            outbound,
            if outbound { take_stops(v, stops.drop_last()).outbound_station } else { take_stops(v, stops.drop_last()).inbound_station },
            if outbound { take_stops(v, stops.drop_last()).outbound_diff } else { take_stops(v, stops.drop_last()).inbound_diff },
        ),
        take_stops(v, stops.drop_last()).request_time == v.request_time,
    ensures
        earliest_departure(
            if outbound { v.outbound_station } else { v.inbound_station },
            if outbound { v.outbound_diff } else { v.inbound_diff },
            stops,
            v.request_time,
            outbound,
            if outbound { take_stops(v, stops).outbound_station } else { take_stops(v, stops).inbound_station },
            if outbound { take_stops(v, stops).outbound_diff } else { take_stops(v, stops).inbound_diff },
        ),
{
    let init = stops.drop_last();
    let n = init.len() as int;
    let req = v.request_time;
    let fs = if outbound { v.outbound_station } else { v.inbound_station };
    let fd = if outbound { v.outbound_diff } else { v.inbound_diff };
    let r0 = take_stops(v, init);
    let s0 = if outbound { r0.outbound_station } else { r0.inbound_station };
    let d0 = if outbound { r0.outbound_diff } else { r0.inbound_diff };
    let r1 = take_stops(v, stops);
    let s1 = if outbound { r1.outbound_station } else { r1.inbound_station };
    let d1 = if outbound { r1.outbound_diff } else { r1.inbound_diff };
    assert forall|j: int| 0 <= j < n implies #[trigger] stops[j] == init[j] by {}
    assert forall|j: int| departs_towards(init, j, outbound) <==> #[trigger] departs_towards(stops, j, outbound) && j < n by {
        if 0 <= j < n {
            assert(stops[j] == init[j]);
        }
    }
    let last_counts = departs_towards(stops, n, outbound);
    let ld = stop_diff(stops[n], req);
    if last_counts && ld < d0 {
        assert(s1 == stops[n].destination_label@ && d1 == ld);
        assert(departs_towards(stops, n, outbound));
        if forall|j: int| departs_towards(init, j, outbound) ==> stop_diff(#[trigger] init[j], req) >= fd {
            assert(d0 == fd);
        } else {
            let w = choose|j: int| earliest_at(init, req, outbound, fd, s0, d0, j);
            assert(d0 < fd);
        }
        assert(!(forall|j: int| departs_towards(stops, j, outbound) ==> stop_diff(#[trigger] stops[j], req) >= fd));
        assert forall|k: int| departs_towards(stops, k, outbound) implies stop_diff(#[trigger] stops[k], req) >= d1 by {
            if k < n {
                assert(departs_towards(init, k, outbound));
                if forall|j: int| departs_towards(init, j, outbound) ==> stop_diff(#[trigger] init[j], req) >= fd {
                    assert(stop_diff(init[k], req) >= fd);
                } else {
                    let w = choose|j: int| earliest_at(init, req, outbound, fd, s0, d0, j);
                    assert(stop_diff(init[k], req) >= d0);
                }
            }
        }
        assert forall|k: int| #![trigger stops[k]] departs_towards(stops, k, outbound) && k < n implies stop_diff(stops[k], req) > d1 by {
            assert(stop_diff(stops[k], req) >= d1);
        }
        assert(earliest_at(stops, req, outbound, fd, s1, d1, n));
    } else {
        assert(s1 == s0 && d1 == d0);
        if forall|j: int| departs_towards(init, j, outbound) ==> stop_diff(#[trigger] init[j], req) >= fd {
            assert forall|j: int| departs_towards(stops, j, outbound) implies stop_diff(#[trigger] stops[j], req) >= fd by {
                if j < n {
                    assert(departs_towards(init, j, outbound));
                }
            }
        } else {
            let w = choose|j: int| earliest_at(init, req, outbound, fd, s0, d0, j);
            assert(departs_towards(stops, w, outbound));
            assert(!(forall|j: int| departs_towards(stops, j, outbound) ==> stop_diff(#[trigger] stops[j], req) >= fd));
            assert forall|k: int| departs_towards(stops, k, outbound) implies stop_diff(#[trigger] stops[k], req) >= d1 by {
                if k < n {
                    assert(departs_towards(init, k, outbound));
                }
            }
            assert forall|k: int| #![trigger stops[k]] departs_towards(stops, k, outbound) && k < w implies stop_diff(stops[k], req) > d1 by {
                assert(departs_towards(init, k, outbound));
            }
            assert(stops[w] == init[w]);
            assert(earliest_at(stops, req, outbound, fd, s1, d1, w));
        }
    }
}

/// The departures taken from a sequence of stops are, in each direction,
/// the earliest usable stop towards that direction (the first of several
/// that leave at the same time), where it leaves strictly before the
/// departure known at the start; else the one known at the start stays.
/// The request time and the failure flag do not change.
pub proof fn lemma_take_stops_earliest(v: DepartureView, stops: Seq<StopsElement>)
    ensures
        take_stops(v, stops).request_time == v.request_time,
        take_stops(v, stops).failure == v.failure,
        earliest_departure(
            v.outbound_station,
            v.outbound_diff,
            stops,
            v.request_time,
            true,
            take_stops(v, stops).outbound_station,
            take_stops(v, stops).outbound_diff,
        ),
        earliest_departure(
            v.inbound_station,
            v.inbound_diff,
            stops,
            v.request_time,
            false,
            take_stops(v, stops).inbound_station,
            take_stops(v, stops).inbound_diff,
        ),
    decreases stops.len(),
{
    if stops.len() == 0 {
    } else {
        lemma_take_stops_earliest(v, stops.drop_last());
        lemma_earliest_step(v, stops, true);
        lemma_earliest_step(v, stops, false);
    }
}

/// The usable stops among `stops`, in order.
pub open spec fn usable_stops(stops: Seq<StopsElement>) -> Seq<StopsElement>
    decreases stops.len(),
{
    if stops.len() == 0 {
        Seq::empty()
    } else if usable_stop(stops.last()) {
        usable_stops(stops.drop_last()).push(stops.last())
    } else {
        usable_stops(stops.drop_last())
    }
}

/// Two stops that name the same destination and the same real-time text.
pub open spec fn same_departure(a: StopsElement, b: StopsElement) -> bool {
    &&& a.destination_label@ == b.destination_label@
    &&& a.realtime_departure.iso_string->0@ == b.realtime_departure.iso_string->0@
}

/// Two sequences of stops that agree stop by stop in destination and
/// real-time text.
pub open spec fn same_departures(s1: Seq<StopsElement>, s2: Seq<StopsElement>) -> bool {
    &&& s1.len() == s2.len()
    &&& forall|i: int| 0 <= i < s1.len() ==> same_departure(#[trigger] s1[i], s2[i])
}

/// Only the usable stops are looked at, and only they must be readable.
proof fn lemma_usable_stops(v: DepartureView, stops: Seq<StopsElement>)
    ensures
        take_stops(v, stops) == take_stops(v, usable_stops(stops)),
        stops_readable(stops, v.request_time) <==> stops_readable(usable_stops(stops), v.request_time),
        forall|i: int| 0 <= i < usable_stops(stops).len() ==> usable_stop(#[trigger] usable_stops(stops)[i]),
    decreases stops.len(),
{
    if stops.len() > 0 {
        let init = stops.drop_last();
        let last = stops.last();
        lemma_usable_stops(v, init);
        let u0 = usable_stops(init);
        if usable_stop(last) {
            assert(u0.push(last).drop_last() =~= u0);
            assert forall|i: int| 0 <= i < u0.push(last).len() implies usable_stop(#[trigger] u0.push(last)[i]) by {
                if i < u0.len() {
                    assert(u0.push(last)[i] == u0[i]);
                }
            }
        }
        if stops_readable(stops, v.request_time) {
            assert forall|i: int| 0 <= i < init.len() implies stop_readable(#[trigger] init[i], v.request_time) by {
                assert(init[i] == stops[i]);
            }
            assert(stop_readable(stops[stops.len() - 1], v.request_time));
            if usable_stop(last) {
                assert forall|i: int| 0 <= i < u0.push(last).len() implies stop_readable(#[trigger] u0.push(last)[i], v.request_time) by {
                    if i < u0.len() {
                        assert(u0.push(last)[i] == u0[i]);
                    }
                }
            }
        }
        if stops_readable(usable_stops(stops), v.request_time) {
            if usable_stop(last) {
                assert forall|i: int| 0 <= i < u0.len() implies stop_readable(#[trigger] u0[i], v.request_time) by {
                    assert(u0.push(last)[i] == u0[i]);
                }
                assert(stop_readable(u0.push(last)[u0.len() as int], v.request_time));
            }
            assert forall|i: int| 0 <= i < stops.len() implies stop_readable(#[trigger] stops[i], v.request_time) by {
                if i < init.len() {
                    assert(init[i] == stops[i]);
                }
            }
        }
    }
}

/// Usable stops that agree in destination and real-time text are looked at
/// alike.
proof fn lemma_same_usable_departures(v: DepartureView, s1: Seq<StopsElement>, s2: Seq<StopsElement>)
    requires
        same_departures(s1, s2),
        forall|i: int| 0 <= i < s1.len() ==> usable_stop(#[trigger] s1[i]),
        forall|i: int| 0 <= i < s2.len() ==> usable_stop(#[trigger] s2[i]),
    ensures
        take_stops(v, s1) == take_stops(v, s2),
        stops_readable(s1, v.request_time) <==> stops_readable(s2, v.request_time),
    decreases s1.len(),
{
    if s1.len() > 0 {
        let n = s1.len() - 1;
        assert(same_departure(s1[n], s2[n]));
        assert(usable_stop(s1[n]) && usable_stop(s2[n]));
        assert forall|i: int| 0 <= i < s1.drop_last().len() implies same_departure(#[trigger] s1.drop_last()[i], s2.drop_last()[i]) by {
            assert(same_departure(s1[i], s2[i]));
        }
        assert forall|i: int| 0 <= i < s1.drop_last().len() implies usable_stop(#[trigger] s1.drop_last()[i]) by {
            assert(usable_stop(s1[i]));
        }
        assert forall|i: int| 0 <= i < s2.drop_last().len() implies usable_stop(#[trigger] s2.drop_last()[i]) by {
            assert(usable_stop(s2[i]));
        }
        lemma_same_usable_departures(v, s1.drop_last(), s2.drop_last());
        lemma_take_stops_earliest(v, s1.drop_last());
        assert(stop_timestamp(s1[n]) == stop_timestamp(s2[n]));
        assert(stop_readable(s1[n], v.request_time) == stop_readable(s2[n], v.request_time));
        if stops_readable(s1, v.request_time) {
            assert forall|i: int| 0 <= i < s2.len() implies stop_readable(#[trigger] s2[i], v.request_time) by {
                assert(same_departure(s1[i], s2[i]));
                assert(stop_timestamp(s1[i]) == stop_timestamp(s2[i]));
                assert(stop_readable(s1[i], v.request_time));
            }
        }
        if stops_readable(s2, v.request_time) {
            assert forall|i: int| 0 <= i < s1.len() implies stop_readable(#[trigger] s1[i], v.request_time) by {
                assert(same_departure(s1[i], s2[i]));
                assert(stop_timestamp(s1[i]) == stop_timestamp(s2[i]));
                assert(stop_readable(s2[i], v.request_time));
            }
        }
    }
}

/// Stops without a real-time departure or without a destination, and the
/// planned departures of all stops, do not matter: answers whose usable
/// stops agree in destination and real-time text give the same departures,
/// and one can be taken exactly when the other can.
pub proof fn lemma_unusable_stops_do_not_matter(
    v: DepartureView,
    stops1: Seq<StopsElement>,
    stops2: Seq<StopsElement>,
)
    requires
        same_departures(usable_stops(stops1), usable_stops(stops2)),
    ensures
        take_stops(v, stops1) == take_stops(v, stops2),
        stops_readable(stops1, v.request_time) <==> stops_readable(stops2, v.request_time),
{
    lemma_usable_stops(v, stops1);
    lemma_usable_stops(v, stops2);
    lemma_same_usable_departures(v, usable_stops(stops1), usable_stops(stops2));
}

/// Looking at two runs of stops one after the other is looking at the
/// joined run.
proof fn lemma_take_stops_append(v: DepartureView, a: Seq<StopsElement>, b: Seq<StopsElement>)
    ensures
        take_stops(v, a + b) == take_stops(take_stops(v, a), b),
    decreases b.len(),
{
    if b.len() == 0 {
        assert(a + b =~= a);
    } else {
        lemma_take_stops_append(v, a, b.drop_last());
        assert((a + b).drop_last() =~= a + b.drop_last());
        assert((a + b).last() == b.last());
    }
}

/// The stops of joined journeys are the stops of the first journeys
/// followed by those of the second.
proof fn lemma_journey_stops_append(ja: Seq<Journey>, jb: Seq<Journey>)
    ensures
        journey_stops(ja + jb) == journey_stops(ja) + journey_stops(jb),
    decreases jb.len(),
{
    if jb.len() == 0 {
        assert(ja + jb =~= ja);
        assert(journey_stops(ja) + Seq::<StopsElement>::empty() =~= journey_stops(ja));
    } else {
        lemma_journey_stops_append(ja, jb.drop_last());
        assert((ja + jb).drop_last() =~= ja + jb.drop_last());
        assert((ja + jb).last() == jb.last());
        assert(journey_stops(ja) + journey_stops(jb.drop_last()) + jb.last().stops@ =~= journey_stops(ja)
            + (journey_stops(jb.drop_last()) + jb.last().stops@));
    }
}

/// Taking the departures from one answer and then from another gives the
/// same as taking them once from an answer with the journeys of the first
/// followed by those of the second; the joined answer can be taken exactly
/// when both can.
pub proof fn lemma_populate_twice(v: DepartureView, a: Station, b: Station, ab: Station)
    requires
        ab.graph_ql.response.journeys.elements@ == a.graph_ql.response.journeys.elements@
            + b.graph_ql.response.journeys.elements@,
    ensures
        take_stops(v, station_stops(a)).request_time == v.request_time,
        take_stops(take_stops(v, station_stops(a)), station_stops(b)) == take_stops(v, station_stops(ab)),
        stops_readable(station_stops(ab), v.request_time) <==> (stops_readable(station_stops(a), v.request_time)
            && stops_readable(station_stops(b), v.request_time)),
{
    let sa = station_stops(a);
    let sb = station_stops(b);
    lemma_journey_stops_append(a.graph_ql.response.journeys.elements@, b.graph_ql.response.journeys.elements@);
    assert(station_stops(ab) == sa + sb);
    lemma_take_stops_append(v, sa, sb);
    lemma_take_stops_earliest(v, sa);
    let req = v.request_time;
    if stops_readable(sa + sb, req) {
        assert forall|i: int| 0 <= i < sa.len() implies stop_readable(#[trigger] sa[i], req) by {
            assert((sa + sb)[i] == sa[i]);
        }
        assert forall|i: int| 0 <= i < sb.len() implies stop_readable(#[trigger] sb[i], req) by {
            assert((sa + sb)[sa.len() + i] == sb[i]);
        }
    }
    if stops_readable(sa, req) && stops_readable(sb, req) {
        assert forall|i: int| 0 <= i < (sa + sb).len() implies stop_readable(#[trigger] (sa + sb)[i], req) by {
            if i < sa.len() {
                assert((sa + sb)[i] == sa[i]);
            } else {
                assert((sa + sb)[i] == sb[i - sa.len()]);
            }
        }
    }
}

/// The stops of journeys depend on nothing but the stops of each journey.
proof fn lemma_journey_stops_only_stops(j1: Seq<Journey>, j2: Seq<Journey>)
    requires
        j1.len() == j2.len(),
        forall|i: int| 0 <= i < j1.len() ==> (#[trigger] j1[i]).stops@ == j2[i].stops@,
    ensures
        journey_stops(j1) == journey_stops(j2),
    decreases j1.len(),
{
    if j1.len() > 0 {
        assert forall|i: int| 0 <= i < j1.drop_last().len() implies (#[trigger] j1.drop_last()[i]).stops@
            == j2.drop_last()[i].stops@ by {
            assert(j1[i].stops@ == j2[i].stops@);
        }
        lemma_journey_stops_only_stops(j1.drop_last(), j2.drop_last());
        assert(j1[j1.len() - 1].stops@ == j2[j2.len() - 1].stops@);
    }
}

/// Only the stops of the journeys count: the station's id and name, the
/// name of the answer, the lines and the canceled flags of the journeys do
/// not change which departures are taken.
pub proof fn lemma_only_stops_count(v: DepartureView, result1: Station, result2: Station)
    requires
        result1.graph_ql.response.journeys.elements@.len() == result2.graph_ql.response.journeys.elements@.len(),
        forall|i: int|
            0 <= i < result1.graph_ql.response.journeys.elements@.len()
                ==> (#[trigger] result1.graph_ql.response.journeys.elements@[i]).stops@
                == result2.graph_ql.response.journeys.elements@[i].stops@,
    ensures
        station_stops(result1) == station_stops(result2),
        take_stops(v, station_stops(result1)) == take_stops(v, station_stops(result2)),
        stops_readable(station_stops(result1), v.request_time) <==> stops_readable(
            station_stops(result2),
            v.request_time,
        ),
{
    lemma_journey_stops_only_stops(
        result1.graph_ql.response.journeys.elements@,
        result2.graph_ql.response.journeys.elements@,
    );
}

/// Readability asks only that the real-time text of each stop with a
/// destination can be read and that its time lies within a signed 64-bit
/// number of seconds of the request: a departure before the request time
/// counts like any other.
pub proof fn lemma_readable_whatever_the_sign(stops: Seq<StopsElement>, request_time: int)
    ensures
        stops_readable(stops, request_time) <==> forall|i: int|
            0 <= i < stops.len() && ((#[trigger] stops[i]).realtime_departure.iso_string is Some)
                && stops[i].destination_label@.len() > 0 ==> (rfc3339_timestamp(
                stops[i].realtime_departure.iso_string->0@,
            ) matches Some(t) && i64::MIN <= t - request_time <= i64::MAX),
{
}

/// A usable stop whose destination holds "Rheinau" anywhere is outbound,
/// and a usable stop whose destination holds "Hochschule", "Hauptbahnhof"
/// or "Schönau" anywhere, and "Rheinau" nowhere, is inbound: it takes the
/// place of the known departure in its direction when it leaves strictly
/// earlier.
pub proof fn lemma_direction_by_infix(
    v: DepartureView,
    stop: StopsElement,
    name: Seq<char>,
    i: int,
    t: i64,
)
    requires
        name == "Rheinau"@ || name == "Hochschule"@ || name == "Hauptbahnhof"@ || name == "Schönau"@,
        stop.destination_label@.len() > 0,
        (stop.realtime_departure.iso_string is Some),
        rfc3339_timestamp(stop.realtime_departure.iso_string->0@) == Some(t),
        0 <= i,
        i + name.len() <= stop.destination_label@.len(),
        stop.destination_label@.subrange(i, i + name.len()) == name,
        name != "Rheinau"@ ==> !has_infix(stop.destination_label@, "Rheinau"@),
    ensures
        name == "Rheinau"@ && t - v.request_time < v.outbound_diff ==> take_stop(v, stop)
            == (DepartureView {
            outbound_station: stop.destination_label@,
            outbound_diff: t - v.request_time,
            ..v
        }),
        name != "Rheinau"@ && t - v.request_time < v.inbound_diff ==> take_stop(v, stop)
            == (DepartureView {
            inbound_station: stop.destination_label@,
            inbound_diff: t - v.request_time,
            ..v
        }),
        name != "Rheinau"@ && t - v.request_time >= v.inbound_diff ==> take_stop(v, stop) == v,
        name == "Rheinau"@ && t - v.request_time >= v.outbound_diff ==> take_stop(v, stop) == v,
{
    reveal_strlit("Rheinau");
    let label = stop.destination_label@;
    assert(crate::text::occurs_at(label, name, i));
    assert(has_infix(label, name));
}

/// A stop whose destination holds none of "Rheinau", "Hochschule",
/// "Hauptbahnhof" and "Schönau" changes nothing, whatever its time.
pub proof fn lemma_other_destinations_ignored(v: DepartureView, stop: StopsElement)
    requires
        !has_infix(stop.destination_label@, "Rheinau"@),
        !has_infix(stop.destination_label@, "Hochschule"@),
        !has_infix(stop.destination_label@, "Hauptbahnhof"@),
        !has_infix(stop.destination_label@, "Schönau"@),
    ensures
        take_stop(v, stop) == v,
{
}

} // verus!
