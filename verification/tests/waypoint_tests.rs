use tilecache::waypoint::PointType;
use tilecache::waypoint::Weather;

#[test]
fn point_type_labels() {
    assert_eq!(PointType::Unmarked.as_str(), "None");
    assert_eq!(PointType::Hut.as_str(), "Hut");
    assert_eq!(PointType::Cliff.as_str(), "Cliff");
    assert_eq!(PointType::Node.as_str(), "Node");
    assert_eq!(PointType::Avalanche.as_str(), "Avalanche");
    assert_eq!(PointType::Flower.as_str(), "Flowers");
    assert_eq!(PointType::Danger.as_str(), "Danger");
    assert_eq!(PointType::View.as_str(), "Good View");
    assert_eq!(PointType::Summit.as_str(), "Summit");
    assert_eq!(PointType::Water.as_str(), "Water Source");
    assert_eq!(PointType::Station.as_str(), "Train Station");
    assert_eq!(PointType::BusStop.as_str(), "Bus Stop");
    assert_eq!(PointType::Note.as_str(), "Note");
    assert_eq!(PointType::Waterfall.as_str(), "Waterfall");
    assert_eq!(PointType::Animal.as_str(), "Animal");
    assert_eq!(PointType::Entrance.as_str(), "Entrance/Exit");
}

#[test]
fn weather_packs_state_and_strength() {
    let mut w = Weather(0);
    w.set_strong(0x23);
    assert_eq!(w.0, 0x23);
    assert_eq!(w.state(), 3);
    assert_eq!(w.strong(), 2);
    assert_eq!(Weather::RAIN, 3);
    assert_eq!(Weather::HEAVY, 2);
}
