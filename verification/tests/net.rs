use installer_gui::net::{connect_args, networks_from_listing, split_terse, Network};

fn fields(line: &str) -> Vec<String> {
    split_terse(line)
}

fn summary(nets: &[Network]) -> Vec<(String, u8, bool, bool)> {
    nets.iter().map(|n| (n.ssid.clone(), n.signal, n.secured, n.active)).collect()
}

#[test]
fn terse_fields_split_on_unescaped_colons() {
    assert_eq!(fields("yes:80:WPA2:Home"), vec!["yes", "80", "WPA2", "Home"]);
    assert_eq!(fields(r"no:55::Cafe\:Bar"), vec!["no", "55", "", "Cafe:Bar"]);
    assert_eq!(fields(r"a\\b:c"), vec![r"a\b", "c"]);
    assert_eq!(fields(""), vec![""]);
    assert_eq!(fields(":"), vec!["", ""]);
    assert_eq!(fields(r"trailing\"), vec!["trailing"]);
}

#[test]
fn listing_is_merged_per_ssid_and_sorted() {
    let text = "no:40:WPA2:Home\n\
                yes:35:WPA2:Home\n\
                no:90::Cafe\n\
                no:90:WPA1:Cafe\n\
                no:70:--:Open\\:Net\n\
                no:50:WPA2:\n\
                short:line\n\
                no: 60 : WPA3 :Office\n";
    let nets = networks_from_listing(text);
    assert_eq!(
        summary(&nets),
        vec![
            ("Home".to_string(), 40, true, true),
            ("Cafe".to_string(), 90, false, false),
            ("Open:Net".to_string(), 70, false, false),
            ("Office".to_string(), 60, true, false),
        ]
    );
}

#[test]
fn stronger_signal_brings_its_security() {
    let nets = networks_from_listing("no:20::Lab\nno:80:WPA2:Lab\nno:80::Lab\n");
    assert_eq!(summary(&nets), vec![("Lab".to_string(), 80, true, false)]);
}

#[test]
fn unreadable_signal_counts_as_zero() {
    let nets = networks_from_listing("no:abc:WPA2:A\nno:300:WPA2:B\r\n");
    assert_eq!(
        summary(&nets),
        vec![("A".to_string(), 0, true, false), ("B".to_string(), 0, true, false)]
    );
}

#[test]
fn empty_listing_has_no_networks() {
    assert!(networks_from_listing("").is_empty());
    assert!(networks_from_listing("\n\n").is_empty());
}

#[test]
fn connect_arguments() {
    assert_eq!(connect_args("Home", None), vec!["device", "wifi", "connect", "Home"]);
    assert_eq!(
        connect_args("Home", Some("secret".to_string())),
        vec!["device", "wifi", "connect", "Home", "password", "secret"]
    );
}
