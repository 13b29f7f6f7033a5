use tango_bridge::profile::select_ios_rtc_profile;

fn selected(ip: &str, requested: Option<&str>) -> (String, u16) {
    select_ios_rtc_profile(ip, requested)
}

#[test]
fn named_profiles_are_used_wherever_the_device_is() {
    for name in ["lan", "LAN", "Lan", "lAn"] {
        assert_eq!(selected("8.8.8.8", Some(name)), ("lan".to_string(), 7003));
    }
    for name in ["wan", "WAN", "wAN"] {
        assert_eq!(selected("192.168.1.2", Some(name)), ("wan".to_string(), 7006));
    }
}

#[test]
fn address_decides_without_a_name() {
    for requested in [None, Some("auto"), Some("AUTO"), Some(""), Some("lan "), Some("ΛAN")] {
        assert_eq!(selected("192.168.1.2", requested), ("lan".to_string(), 7003));
        assert_eq!(selected("8.8.8.8", requested), ("wan".to_string(), 7006));
        assert_eq!(selected("not an address", requested), ("wan".to_string(), 7006));
    }
}
