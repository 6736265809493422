use ledboard::straba::{
    departure_url, fetch_data, needs_refresh, try_fetch_data, IsoStringDateTime, Journey,
    JourneysElement, Line, LineGroup, NextDeparture, Station, StopsElement,
};

fn stop(label: &str, realtime: Option<&str>) -> StopsElement {
    StopsElement {
        destination_label: label.to_string(),
        planned_departure: IsoStringDateTime { iso_string: None },
        realtime_departure: IsoStringDateTime { iso_string: realtime.map(|s| s.to_string()) },
    }
}

fn station(journeys: Vec<Vec<StopsElement>>) -> Station {
    let mut st = Station::default();
    st.graph_ql.response.journeys = JourneysElement {
        elements: journeys
            .into_iter()
            .map(|stops| Journey { stops, ..Journey::default() })
            .collect(),
    };
    st
}

#[test]
fn new_knows_no_departure() {
    let n = NextDeparture::new(1234);
    assert_eq!(n.request_time, 1234);
    assert_eq!(n.outbound_station, "Error");
    assert_eq!(n.inbound_station, "Error");
    assert_eq!(n.outbound_diff, 666 * 60);
    assert_eq!(n.inbound_diff, 666 * 60);
    assert!(!n.failure);
}

#[test]
fn departure_url_carries_the_time() {
    assert_eq!(
        departure_url(1700000000),
        "https://www.rnv-online.de/rest/departure/2494?datetime=1700000000"
    );
    assert_eq!(departure_url(0), "https://www.rnv-online.de/rest/departure/2494?datetime=0");
}

#[test]
fn no_answer_gives_no_departure() {
    let n = fetch_data(1000, None);
    assert_eq!(n.request_time, 1000);
    assert_eq!(n.outbound_station, "Error");
    assert_eq!(n.outbound_diff, 39960);
}

#[test]
fn earliest_departure_in_each_direction() {
    // 1970-01-01T00:20:00Z is 1200 seconds after the epoch.
    let answer = station(vec![
        vec![
            stop("Rheinau Bahnhof", Some("1970-01-01T00:30:00+00:00")),
            stop("Hauptbahnhof", Some("1970-01-01T00:40:00Z")),
        ],
        vec![
            stop("Rheinau", Some("1970-01-01T01:20:00+01:00")),
            stop("Schönau", Some("1970-01-01T00:25:00Z")),
            stop("Käfertal", Some("1970-01-01T00:17:00Z")),
            stop("Hochschule", None),
            stop("", Some("1970-01-01T00:16:40Z")),
        ],
    ]);
    let n = fetch_data(1000, Some(answer));
    assert_eq!(n.outbound_station, "Rheinau");
    assert_eq!(n.outbound_diff, 200);
    assert_eq!(n.inbound_station, "Schönau");
    assert_eq!(n.inbound_diff, 500);
    assert_eq!(n.request_time, 1000);
}

#[test]
fn first_of_equal_departures_stays() {
    let answer = station(vec![vec![
        stop("Rheinau Mitte", Some("1970-01-01T00:20:00Z")),
        stop("Rheinau Süd", Some("1970-01-01T00:20:00Z")),
    ]]);
    let n = fetch_data(1000, Some(answer));
    assert_eq!(n.outbound_station, "Rheinau Mitte");
    assert_eq!(n.outbound_diff, 200);
}

#[test]
fn rheinau_wins_over_inbound_names() {
    let answer = station(vec![vec![stop("Rheinau Hauptbahnhof", Some("1970-01-01T00:20:00Z"))]]);
    let n = fetch_data(1000, Some(answer));
    assert_eq!(n.outbound_station, "Rheinau Hauptbahnhof");
    assert_eq!(n.inbound_station, "Error");
    assert_eq!(n.inbound_diff, 39960);
}

#[test]
fn departures_later_than_666_minutes_are_not_taken() {
    let answer = station(vec![vec![stop("Rheinau", Some("1970-01-02T00:00:00Z"))]]);
    let n = fetch_data(0, Some(answer));
    assert_eq!(n.outbound_station, "Error");
    assert_eq!(n.outbound_diff, 39960);
}

#[test]
fn past_departures_have_negative_diff() {
    let answer = station(vec![vec![stop("Hochschule", Some("1970-01-01T00:00:00Z"))]]);
    let n = fetch_data(100, Some(answer));
    assert_eq!(n.inbound_station, "Hochschule");
    assert_eq!(n.inbound_diff, -100);
}

#[test]
fn unreadable_time_changes_nothing() {
    let answer = station(vec![vec![
        stop("Rheinau", Some("1970-01-01T00:20:00Z")),
        stop("Hochschule", Some("not a time")),
    ]]);
    let mut n = NextDeparture::new(1000);
    assert!(!n.try_populate_departure(answer.clone()));
    assert_eq!(n.outbound_station, "Error");
    assert!(try_fetch_data(1000, Some(answer)).is_none());
}

#[test]
fn try_fetch_data_takes_readable_answers() {
    let answer = station(vec![vec![stop("Rheinau", Some("1970-01-01T00:20:00Z"))]]);
    let n = try_fetch_data(1000, Some(answer)).unwrap();
    assert_eq!(n.outbound_station, "Rheinau");
    assert_eq!(n.outbound_diff, 200);
    assert_eq!(try_fetch_data(5, None).unwrap().outbound_diff, 39960);
}

fn same_fields(a: &NextDeparture, b: &NextDeparture) -> bool {
    a.request_time == b.request_time
        && a.outbound_station == b.outbound_station
        && a.outbound_diff == b.outbound_diff
        && a.inbound_station == b.inbound_station
        && a.inbound_diff == b.inbound_diff
        && a.failure == b.failure
}

#[test]
fn unusable_stops_and_planned_times_do_not_matter() {
    let plain = station(vec![vec![
        stop("Rheinau", Some("1970-01-01T00:20:00Z")),
        stop("Hochschule", Some("1970-01-01T00:25:00Z")),
    ]]);
    let mut planned = stop("Rheinau", Some("1970-01-01T00:20:00Z"));
    planned.planned_departure.iso_string = Some("1970-01-01T00:17:00Z".to_string());
    let noisy = station(vec![vec![
        stop("Rheinau", None),
        planned,
        stop("", Some("garbage")),
        stop("Hochschule", Some("1970-01-01T00:25:00Z")),
        stop("Hauptbahnhof", None),
    ]]);
    let mut a = NextDeparture::new(1000);
    let mut b = NextDeparture::new(1000);
    a.populate_departure(plain);
    b.populate_departure(noisy);
    assert!(same_fields(&a, &b));
}

#[test]
fn two_answers_in_turn_equal_the_joined_answer() {
    let first = vec![
        stop("Rheinau", Some("1970-01-01T00:30:00Z")),
        stop("Schönau", Some("1970-01-01T00:40:00Z")),
    ];
    let second = vec![
        stop("Rheinau Süd", Some("1970-01-01T00:25:00Z")),
        stop("Hauptbahnhof", Some("1970-01-01T00:50:00Z")),
    ];
    let mut a = NextDeparture::new(1000);
    a.populate_departure(station(vec![first.clone()]));
    a.populate_departure(station(vec![second.clone()]));
    let mut b = NextDeparture::new(1000);
    b.populate_departure(station(vec![first, second]));
    assert!(same_fields(&a, &b));
    assert_eq!(a.outbound_station, "Rheinau Süd");
    assert_eq!(a.inbound_station, "Schönau");
}

#[test]
fn canceled_journeys_and_lines_do_not_matter() {
    let stops = vec![stop("Hochschule", Some("1970-01-01T00:20:00Z"))];
    let plain = station(vec![stops.clone()]);
    let mut other = station(vec![stops]);
    other.id = "2494".to_string();
    other.name = "Somewhere".to_string();
    other.graph_ql.response.name = "answer".to_string();
    other.graph_ql.response.journeys.elements[0].canceled = true;
    other.graph_ql.response.journeys.elements[0].line =
        Line { line_group: LineGroup { label: "5".to_string() } };
    let mut a = NextDeparture::new(1000);
    let mut b = NextDeparture::new(1000);
    a.populate_departure(plain);
    b.populate_departure(other);
    assert!(same_fields(&a, &b));
    assert_eq!(b.inbound_station, "Hochschule");
}

#[test]
fn populate_takes_departures() {
    let answer = station(vec![vec![stop("Hauptbahnhof", Some("1970-01-01T00:02:00Z"))]]);
    let mut n = NextDeparture::new(60);
    n.populate_departure(answer);
    assert_eq!(n.inbound_station, "Hauptbahnhof");
    assert_eq!(n.inbound_diff, 60);
}

#[test]
fn refresh_after_fifty_seconds() {
    assert!(!needs_refresh(100, 150));
    assert!(needs_refresh(100, 151));
    assert!(!needs_refresh(100, 0));
}
