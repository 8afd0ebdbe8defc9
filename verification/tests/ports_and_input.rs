use live_datadash::input::{mode_from_input, port_choice, PortChoice};
use live_datadash::ports::{lean_ports, port_selection, usable_ports, PortEntry, PortSelection};

fn entry(name: &str, known: bool) -> PortEntry {
    PortEntry { port_name: name.to_string(), known_type: known }
}

#[test]
fn window_lists_ports_last_first() {
    let lean = lean_ports(vec![entry("COM1", true), entry("COM2", false), entry("COM3", true)]);
    let shown: Vec<(String, bool)> = lean.into_iter().map(|p| (p.port_name, p.port_exists)).collect();
    assert_eq!(
        shown,
        vec![("COM3".to_string(), true), ("COM2".to_string(), false), ("COM1".to_string(), true)]
    );
    assert!(lean_ports(Vec::new()).is_empty());
}

#[test]
fn receiver_uses_ports_of_known_kind() {
    let ports = vec![entry("a", false), entry("b", true), entry("c", true), entry("d", false)];
    assert_eq!(usable_ports(&ports), vec!["b".to_string(), "c".to_string()]);
}

#[test]
fn selection_depends_on_the_count() {
    assert_eq!(port_selection(0), PortSelection::NoPort);
    assert_eq!(port_selection(1), PortSelection::OnlyPort);
    assert_eq!(port_selection(4), PortSelection::AskUser);
}

#[test]
fn reads_the_chosen_port() {
    assert_eq!(port_choice(" 2\n", 3), PortChoice::Chosen(2));
    assert_eq!(port_choice("0\r\n", 3), PortChoice::Chosen(0));
    assert_eq!(port_choice("3\n", 3), PortChoice::OutOfRange);
    assert_eq!(port_choice("two\n", 3), PortChoice::NotANumber);
    assert_eq!(port_choice("-1\n", 3), PortChoice::NotANumber);
}

#[test]
fn reads_the_radio_mode() {
    assert_eq!(mode_from_input("4\n"), Some(4));
    assert_eq!(mode_from_input("  -1 \n"), Some(-1));
    assert_eq!(mode_from_input("four\n"), None);
    assert_eq!(mode_from_input("\n"), None);
}

#[test]
fn port_numbers_follow_std_parsing() {
    assert_eq!(port_choice("5\n", 2), PortChoice::OutOfRange);
    assert_eq!(port_choice("+1\n", 2), PortChoice::Chosen(1));
    assert_eq!(port_choice("1 1\n", 20), PortChoice::NotANumber);
    assert_eq!(mode_from_input("\t+3\r\n"), Some(3));
    assert_eq!(mode_from_input("-2147483648"), Some(i32::MIN));
    assert_eq!(mode_from_input("2147483648"), None);
}
