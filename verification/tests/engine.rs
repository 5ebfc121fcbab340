use iwls::access_point::{
    get_current_point, is_current_point, normalize_access_points, AccessPoint, RawAccessPoint,
};
use iwls::channel::{
    channels_intersect, intersected_channels, is_valid_channel, least_intersected, parse_channel,
    to_readable_channel, MAX_CHANNEL, UNKNOWN_CHANNEL,
};
use iwls::iw::{get_current_network_interface, get_current_point_mac};
use iwls::load::compute_channels_load;
use iwls::quality::{signal_to_quality, QUALITY_UNIT};
use iwls::render::{to_readable_channels_load, to_readable_quality};
use iwls::suggest::{compare_channels_load, compose_suggestions, compute_suggestion};
use std::cmp::Ordering;

fn make_point(quality: f64, id: u8, ssid: &str) -> AccessPoint {
    AccessPoint {
        ssid: ssid.to_string(),
        mac: "".to_string(),
        quality: (quality * QUALITY_UNIT as f64) as u64,
        signal: "".to_string(),
        channel: id,
    }
}

fn make_raw(ssid: &str, mac: &str, signal: &str, channel: &str) -> RawAccessPoint {
    RawAccessPoint {
        ssid: ssid.to_string(),
        mac: mac.to_string(),
        signal_level: signal.to_string(),
        channel: channel.to_string(),
    }
}

#[test]
fn test_to_readable_channel() {
    for i in 1..(MAX_CHANNEL + 1) {
        assert_eq!(i.to_string(), to_readable_channel(i));
    }

    assert_eq!("Unknown", to_readable_channel(UNKNOWN_CHANNEL));
    assert_eq!("Unknown", to_readable_channel(MAX_CHANNEL + 1));
}

#[test]
fn test_parse_channel() {
    assert_eq!(1, parse_channel("1"));
    assert_eq!(UNKNOWN_CHANNEL, parse_channel("0"));
    assert_eq!(UNKNOWN_CHANNEL, parse_channel("foo"));
}

#[test]
fn test_parse_channel_bounds_and_sign() {
    assert_eq!(255, parse_channel("255"));
    assert_eq!(UNKNOWN_CHANNEL, parse_channel("256"));
    assert_eq!(5, parse_channel("+5"));
    assert_eq!(UNKNOWN_CHANNEL, parse_channel("-5"));
    assert_eq!(UNKNOWN_CHANNEL, parse_channel(""));
    assert_eq!(42, parse_channel("042"));
}

#[test]
fn test_to_readable_quality() {
    assert_eq!(
        "12.3%",
        to_readable_quality((0.1234 * QUALITY_UNIT as f64) as u64)
    );
}

#[test]
fn test_signal_to_quality() {
    let quality = |s: &str| signal_to_quality(s) as f64 / QUALITY_UNIT as f64;

    assert_eq!(0.0, quality("-100"));
    assert_eq!(1.0, quality("-50"));
    assert_eq!(1.0, quality("0"));
    assert_eq!(0.0, quality("-200"));
}

#[test]
fn test_channels_intersect() {
    assert!(channels_intersect(1, 1));
    assert!(channels_intersect(1, 2));
    assert!(channels_intersect(1, 3));
    assert!(channels_intersect(1, 4));
    assert!(channels_intersect(1, 5));
    assert!(!channels_intersect(1, 6));
    assert!(!channels_intersect(1, 7));
    assert!(!channels_intersect(1, 13));
    assert!(!channels_intersect(1, 14));
    assert!(channels_intersect(2, 1));
    assert!(channels_intersect(2, 2));
    assert!(channels_intersect(2, 3));
    assert!(channels_intersect(2, 4));
    assert!(channels_intersect(2, 6));
    assert!(!channels_intersect(2, 7));
    assert!(channels_intersect(14, 13));
    assert!(channels_intersect(14, 12));
    assert!(!channels_intersect(14, 11));
}

#[test]
fn test_compute_suggestion() {
    let assert_compute_suggestion = |expect: &[u8], input: &Vec<AccessPoint>| {
        assert_eq!(expect, compute_suggestion(input).as_slice())
    };

    {
        let current = make_point(1.0, 2, "current");
        let mut input = vec![];
        assert_compute_suggestion(&[14, 11, 6, 1, 13], &input);
        input.push(current);
        assert_compute_suggestion(&[14, 11, 6, 13, 12], &input);
    }

    {
        let current = make_point(1.0, 2, "current");
        let a = make_point(0.9, 11, "a");
        let mut input = vec![a];
        assert_compute_suggestion(&[14, 6, 1, 5, 4], &input);
        input.push(current);
        assert_compute_suggestion(&[14, 6, 7, 8, 5], &input);
    }

    {
        let current = make_point(1.0, 2, "current");
        let a = make_point(0.9, 11, "a");
        let b = make_point(0.3, 5, "b");
        let mut input = vec![a, b];
        assert_compute_suggestion(&[14, 1, 6, 2, 7], &input);
        input.push(current);
        assert_compute_suggestion(&[14, 6, 7, 8, 13], &input);
    }

    {
        let a = make_point(0.0, UNKNOWN_CHANNEL, "current");
        assert_compute_suggestion(&[14, 11, 6, 1, 13], &vec![a]);
    }
}

#[test]
fn test_compare_channels_load() {
    for i in 1..(MAX_CHANNEL + 1) {
        for j in 1..(MAX_CHANNEL + 1) {
            if i != j {
                let a = (i, 0u64);
                let b = (j, 0u64);
                let x = compare_channels_load(&a, &b);
                let y = compare_channels_load(&b, &a);
                assert!(x != y);
            }
        }
    }
}

#[test]
fn test_tie_break_prefers_higher_id() {
    // Equal loads: the entry with the higher channel id ranks first.
    assert_eq!(Ordering::Less, compare_channels_load(&(9, 42), &(5, 42)));
    assert_eq!(Ordering::Greater, compare_channels_load(&(5, 42), &(9, 42)));
    // Different loads: ascending load wins, whatever the ids.
    assert_eq!(Ordering::Less, compare_channels_load(&(3, 10), &(14, 20)));
    assert_eq!(Ordering::Greater, compare_channels_load(&(14, 20), &(3, 10)));
}

#[test]
fn test_intersected_channels_windows() {
    let (left, right) = intersected_channels(1);
    assert!(left.is_empty());
    assert_eq!(vec![2, 3, 4, 5], right);

    let (left, right) = intersected_channels(11);
    assert_eq!(vec![10, 9, 8, 7], left);
    assert_eq!(vec![12, 13], right);

    let (left, right) = intersected_channels(14);
    assert_eq!(vec![13, 12], left);
    assert!(right.is_empty());
}

#[test]
fn test_is_valid_channel() {
    assert!(!is_valid_channel(UNKNOWN_CHANNEL));
    assert!(is_valid_channel(1));
    assert!(is_valid_channel(14));
    assert!(!is_valid_channel(15));
}

#[test]
fn test_least_intersected() {
    let priority: Vec<u8> = (1..=MAX_CHANNEL).filter(|&id| least_intersected(id)).collect();
    assert_eq!(vec![1, 6, 11, 14], priority);
}

#[test]
fn test_compute_channels_load_empty() {
    let loads = compute_channels_load(&vec![]);
    assert_eq!(MAX_CHANNEL as usize, loads.len());
    for (i, &(id, load)) in loads.iter().enumerate() {
        assert_eq!(i as u8 + 1, id);
        assert_eq!(0, load);
    }
}

#[test]
fn test_compute_channels_load_strong_point() {
    // One full-strength access point on channel 2: its own channel takes
    // the full quality, each neighbor half of the previous step, and the
    // non-adjacent channels stay at zero.
    let input = vec![make_point(1.0, 2, "current")];
    let loads = compute_channels_load(&input);
    let expect: Vec<(u8, u64)> = vec![
        (1, 400000),
        (2, 800000),
        (3, 400000),
        (4, 200000),
        (5, 100000),
        (6, 50000),
        (7, 0),
        (8, 0),
        (9, 0),
        (10, 0),
        (11, 0),
        (12, 0),
        (13, 0),
        (14, 0),
    ];
    assert_eq!(expect, loads);
}

#[test]
fn test_compute_channels_load_idempotent() {
    let input = vec![
        make_point(0.9, 11, "a"),
        make_point(0.3, 5, "b"),
        make_point(1.0, 2, "c"),
    ];
    assert_eq!(compute_channels_load(&input), compute_channels_load(&input));
}

#[test]
fn test_loads_stay_within_unit() {
    let input = vec![
        make_point(1.0, 1, "a"),
        make_point(1.0, 1, "b"),
        make_point(0.5, 3, "c"),
        make_point(0.7, 14, "d"),
    ];
    for &(_, load) in compute_channels_load(&input).iter() {
        assert!(load <= QUALITY_UNIT);
    }
}

#[test]
fn test_median_of_two_samples() {
    // Two access points on the same channel: the bucket holds both
    // qualities and the median is the upper middle of the sorted pair,
    // whatever order the samples arrived in.
    let input = vec![make_point(0.9, 1, "strong"), make_point(0.3, 1, "weak")];
    let loads = compute_channels_load(&input);
    assert_eq!((1, 720000), loads[0]);
}

#[test]
fn test_suggestion_cap_and_no_duplicates() {
    let inputs = vec![
        vec![],
        vec![make_point(1.0, 2, "a")],
        vec![make_point(0.9, 11, "a"), make_point(0.3, 5, "b")],
        vec![
            make_point(1.0, 1, "a"),
            make_point(1.0, 6, "b"),
            make_point(1.0, 11, "c"),
            make_point(1.0, 14, "d"),
        ],
    ];
    for input in inputs {
        let suggestion = compute_suggestion(&input);
        assert_eq!(5, suggestion.len());
        for i in 0..suggestion.len() {
            for j in (i + 1)..suggestion.len() {
                assert_ne!(suggestion[i], suggestion[j]);
            }
        }
    }
}

#[test]
fn test_normalize_deduplicates() {
    // Two raw records sharing a hardware address collapse to one access
    // point that keeps the first-seen SSID, quality and channel.
    let raws = vec![
        make_raw("netA", "aa:bb", "-60", "6"),
        make_raw("netB", "aa:bb", "-50", "11"),
        make_raw("netC", "cc:dd", "-80", "1"),
    ];
    let points = normalize_access_points(raws);
    assert_eq!(2, points.len());
    assert_eq!("netA", points[0].ssid);
    assert_eq!("aa:bb", points[0].mac);
    assert_eq!(6, points[0].channel);
    assert_eq!(640000, points[0].quality);
    assert_eq!("-60 dBm", points[0].signal);
    assert_eq!("netC", points[1].ssid);
    assert_eq!("cc:dd", points[1].mac);
    assert_eq!(1, points[1].channel);
    assert_eq!(320000, points[1].quality);
}

#[test]
fn test_normalize_orders_by_descending_quality_stably() {
    let raws = vec![
        make_raw("first", "01", "-90", "1"),
        make_raw("best", "02", "-55", "2"),
        make_raw("second", "03", "-90", "3"),
    ];
    let points = normalize_access_points(raws);
    let ssids: Vec<&str> = points.iter().map(|p| p.ssid.as_str()).collect();
    assert_eq!(vec!["best", "first", "second"], ssids);
}

#[test]
fn test_normalize_unparseable_fields() {
    // An unparseable signal counts as the weakest one; an unparseable
    // or zero channel becomes the unknown sentinel.
    let raws = vec![make_raw("x", "01", "strong", "abc")];
    let points = normalize_access_points(raws);
    assert_eq!(1, points.len());
    assert_eq!(0, points[0].quality);
    assert_eq!(UNKNOWN_CHANNEL, points[0].channel);
}

#[test]
fn test_signal_to_quality_fractions() {
    // -75 dBm sits exactly in the middle of the scale.
    assert_eq!(QUALITY_UNIT / 2, signal_to_quality("-75"));
    assert_eq!(QUALITY_UNIT / 2, signal_to_quality("-75.000"));
    // Fractional dBm are honored to millidBm resolution.
    assert_eq!((25500 * 16) as u64, signal_to_quality("-74.50"));
    // Unparseable text is the weakest signal.
    assert_eq!(0, signal_to_quality(""));
    assert_eq!(0, signal_to_quality("1.2.3"));
    assert_eq!(0, signal_to_quality("."));
}

#[test]
fn test_get_current_point() {
    let points = vec![
        AccessPoint {
            ssid: "a".to_string(),
            mac: "aa".to_string(),
            quality: 1,
            signal: "".to_string(),
            channel: 1,
        },
        AccessPoint {
            ssid: "b".to_string(),
            mac: "bb".to_string(),
            quality: 2,
            signal: "".to_string(),
            channel: 2,
        },
    ];
    assert_eq!(Some(1), get_current_point(&points, &Some("bb".to_string())));
    assert_eq!(None, get_current_point(&points, &Some("zz".to_string())));
    assert_eq!(None, get_current_point(&points, &None));
    assert!(is_current_point(&points[1], Some(&points[1])));
    assert!(!is_current_point(&points[0], Some(&points[1])));
    assert!(!is_current_point(&points[0], None));
}

#[test]
fn test_compose_suggestions() {
    let mut current = make_point(1.0, 2, "current");
    current.mac = "aa".to_string();
    let mut a = make_point(0.9, 11, "a");
    a.mac = "bb".to_string();
    let points = vec![a, current];

    let report = compose_suggestions(&points, &Some("aa".to_string()));
    // Excluding the current access point leaves only "a" on channel 11.
    assert_eq!(Some(vec![14, 6, 1, 5, 4]), report.current);
    // The full set drives the new-router suggestion and the table.
    assert_eq!(vec![14, 6, 7, 8, 5], report.new_router);
    assert_eq!(compute_channels_load(&points), report.channels_load);

    let report = compose_suggestions(&points, &Some("zz".to_string()));
    assert_eq!(None, report.current);
    let report = compose_suggestions(&points, &None);
    assert_eq!(None, report.current);
    assert_eq!(vec![14, 6, 7, 8, 5], report.new_router);
}

#[test]
fn test_readable_channels_load_collapses_zeros() {
    let table = vec![(1, 400000u64), (2, 0u64), (3, 0u64)];
    assert_eq!("1 is 50.0%, others are 0.0%", to_readable_channels_load(&table));

    let all_zero = vec![(1, 0u64), (2, 0u64)];
    assert_eq!("others are 0.0%", to_readable_channels_load(&all_zero));
}

#[test]
fn test_readable_channels_load_lists_single_zero() {
    let table = vec![(1, 0u64), (2, 400000u64)];
    assert_eq!("1 is 0.0%, 2 is 50.0%", to_readable_channels_load(&table));
}

#[test]
fn test_get_current_network_interface() {
    let listing = "phy#0\n\tInterface wlan0\n\t\tifindex 3\n";
    assert_eq!("wlan0", get_current_network_interface(listing));
    // Without the marker, the first line is taken.
    assert_eq!("lo up", get_current_network_interface("lo up\nrest\n"));
    assert_eq!("", get_current_network_interface(""));
}

#[test]
fn test_get_current_point_mac() {
    let link = "Connected to aa:bb:cc:dd:ee:ff (on wlan0)\n\tSSID: net\n";
    assert_eq!("aa:bb:cc:dd:ee:ff", get_current_point_mac(link));
    assert_eq!("Not connected.", get_current_point_mac("Not connected."));
}
