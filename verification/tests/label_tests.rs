use ledboard::labels::{
    clock_label, departure_label, format_clock, station_label, station_label_is_defined,
    weather_icon, WeatherIcon,
};

#[test]
fn short_station_names_stay() {
    assert_eq!(station_label("Hauptbahnhof"), "Hauptbahnhof");
    assert_eq!(station_label("Rheinau"), "Rheinau");
    assert_eq!(station_label(""), "");
    assert_eq!(station_label("Marktplatz 13"), "Marktplatz 13");
}

#[test]
fn long_station_names_are_abbreviated() {
    assert_eq!(station_label("Mannheim Hauptbahnhof"), "Mannheim Hbf");
    assert_eq!(station_label("Rheinau Bahnhof"), "Rheinau Bf");
    assert_eq!(station_label("Paradeplatz Nord"), "Paradepl Nord");
    assert_eq!(station_label("Platz der Nation"), "Pl der Nation");
    assert_eq!(station_label("Hauptstraße Ost"), "Hauptstr Ost");
}

#[test]
fn names_still_too_long_are_cut_to_twelve_bytes() {
    assert_eq!(station_label("Hans-Thoma-Straße"), "Hans-Thoma-S");
    assert_eq!(station_label("Hochschule Mannheim"), "Hochschule M");
    assert_eq!(station_label("Neckarau Übergang"), "Neckarau Üb");
}

#[test]
fn cut_inside_a_character_is_undefined() {
    assert!(station_label_is_defined("Hochschule Mannheim"));
    assert!(station_label_is_defined("Hans-Thoma-Straße"));
    assert!(!station_label_is_defined("Neckarauer Übergang"));
    assert!(!station_label_is_defined("aaaaaaaaaaaÖbbbb"));
}

#[test]
fn departures_under_a_minute_say_sofort() {
    assert_eq!(departure_label(0), "sofort");
    assert_eq!(departure_label(59), "sofort");
    assert_eq!(departure_label(-300), "sofort");
    assert_eq!(departure_label(i64::MIN), "sofort");
}

#[test]
fn departures_show_whole_minutes() {
    assert_eq!(departure_label(60), "1min");
    assert_eq!(departure_label(119), "1min");
    assert_eq!(departure_label(125), "2min");
    assert_eq!(departure_label(3600), "60min");
    assert_eq!(departure_label(666 * 60), "666min");
    assert_eq!(departure_label(i64::MAX), "153722867280912930min");
}

#[test]
fn clock_pads_to_two_digits() {
    assert_eq!(format_clock(9, 5, 7), "09:05:07");
    assert_eq!(format_clock(23, 59, 59), "23:59:59");
    assert_eq!(format_clock(0, 0, 0), "00:00:00");
    assert_eq!(format_clock(123, 10, 0), "123:10:00");
}

#[test]
fn clock_shows_berlin_time() {
    // 1970-01-01 00:00:00 UTC is 01:00:00 in Berlin (CET).
    assert_eq!(clock_label(0).unwrap(), "01:00:00");
    // 2024-07-01 12:34:56 UTC is 14:34:56 in Berlin (CEST).
    assert_eq!(clock_label(1719837296).unwrap(), "14:34:56");
    assert!(clock_label(i64::MAX).is_none());
}

#[test]
fn weather_codes_map_to_icons() {
    assert_eq!(weather_icon("01d"), Some(WeatherIcon::Sun));
    assert_eq!(weather_icon("02n"), Some(WeatherIcon::FewClouds));
    assert_eq!(weather_icon("03d"), Some(WeatherIcon::ScatteredClouds));
    assert_eq!(weather_icon("04d"), Some(WeatherIcon::BrokenClouds));
    assert_eq!(weather_icon("09d"), Some(WeatherIcon::Shower));
    assert_eq!(weather_icon("10n"), Some(WeatherIcon::Rain));
    assert_eq!(weather_icon("11d"), Some(WeatherIcon::Thunderstorm));
    assert_eq!(weather_icon("13d"), Some(WeatherIcon::Snow));
    assert_eq!(weather_icon("50d"), Some(WeatherIcon::Mist));
    assert_eq!(weather_icon("10"), Some(WeatherIcon::Rain));
}

#[test]
fn unknown_weather_codes_have_no_icon() {
    assert_eq!(weather_icon("12d"), None);
    assert_eq!(weather_icon(""), None);
    assert_eq!(weather_icon("1"), None);
    assert_eq!(weather_icon("x01"), None);
}
