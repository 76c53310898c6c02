use depot::component::Component;
use depot::component::depot_latest;
use depot::component::depot_number;

#[test]
fn test_component() {
    let component = Component::new();

    assert_eq!(component.encode(), 0);

    assert_eq!(Component::decode(0).unwrap(), component);

    let component = component.next().unwrap();

    assert_eq!(component.encode(), 1);

    assert_eq!(Component::decode(1).unwrap(), component);

    let mut component = Component::new();

    for n in 0..10000 {
        assert_eq!(component, Component::decode(n).unwrap());

        component = component.next().unwrap();
    }

    assert_eq!(
        Component::decode(1_999_999_999).unwrap(),
        Component::from(1, 999, 999, 999).unwrap()
    );

    assert!(Component::from(2, 0, 0, 0).is_err());

    assert!(Component::decode(2_000_000_000).is_err());
}

#[test]
fn queue_test_component() {
    let component = Component::new();

    assert_eq!(component.encode(), 0);

    assert_eq!(Component::decode(0).unwrap(), component);

    let component = component.next().unwrap();

    assert_eq!(component.encode(), 1);

    assert_eq!(Component::decode(1).unwrap(), component);

    let mut component = Component::new();

    for n in 0..10000 {
        assert_eq!(component, Component::decode(n).unwrap());

        component = component.next().unwrap();
    }
}

#[test]
fn component_digit_rolls() {
    let c = Component::from(0, 0, 0, 999).unwrap();
    assert_eq!(c.next().unwrap(), Component::from(0, 0, 1, 0).unwrap());

    let c = Component::from(0, 0, 999, 999).unwrap();
    assert_eq!(c.next().unwrap(), Component::from(0, 1, 0, 0).unwrap());

    let c = Component::from(0, 999, 999, 999).unwrap();
    assert_eq!(c.next().unwrap(), Component::from(1, 0, 0, 0).unwrap());
    assert_eq!(c.next().unwrap().encode(), 1_000_000_000);

    let last = Component::from(1, 999, 999, 999).unwrap();
    assert!(last.next().is_none());
    assert!(last.is_full());
    assert!(!last.is_empty());

    let first = Component::new();
    assert!(first.is_empty());
    assert!(!first.is_full());
}

#[test]
fn component_paths_layout() {
    let c = Component::from(0, 1, 2, 3).unwrap();
    let (parent, file) = c.paths("base");
    assert_eq!(parent.as_str(), "base/d0/d1/d2");
    assert_eq!(file.as_str(), "base/d0/d1/d2/d3");

    let c = Component::from(1, 999, 40, 0).unwrap();
    let (parent, file) = c.paths("/var/queue");
    assert_eq!(parent.as_str(), "/var/queue/d1/d999/d40");
    assert_eq!(file.as_str(), "/var/queue/d1/d999/d40/d0");
}

#[test]
fn depot_number_parses_layout_names() {
    assert_eq!(depot_number("d0"), Some(0));
    assert_eq!(depot_number("d7"), Some(7));
    assert_eq!(depot_number("d999"), Some(999));
    assert_eq!(depot_number("d1000"), Some(1000));
    assert_eq!(depot_number("d007"), Some(7));
    assert_eq!(depot_number("d1001"), None);
    assert_eq!(depot_number("d99999"), None);
    assert_eq!(depot_number("d"), None);
    assert_eq!(depot_number(""), None);
    assert_eq!(depot_number("x3"), None);
    assert_eq!(depot_number("d3x"), None);
    assert_eq!(depot_number("3"), None);
}

#[test]
fn depot_latest_picks_max() {
    let names: Vec<String> = vec![
        "d3".to_string(),
        "junk".to_string(),
        "d10".to_string(),
        "d2".to_string(),
    ];
    assert_eq!(depot_latest(&names), Some(10));

    let none: Vec<String> = vec!["a".to_string(), "b".to_string()];
    assert_eq!(depot_latest(&none), None);

    let empty: Vec<String> = Vec::new();
    assert_eq!(depot_latest(&empty), None);
}
