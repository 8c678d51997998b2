use opencodesearch::types::UpdateSignal;

#[test]
fn signals_are_read_back() {
    assert_eq!(UpdateSignal::UpdateStart.as_bytes(), "UPDATE_START".as_bytes());
    assert_eq!(UpdateSignal::UpdateEnd.as_bytes(), "UPDATE_END".as_bytes());
    for signal in [UpdateSignal::UpdateStart, UpdateSignal::UpdateEnd] {
        assert_eq!(UpdateSignal::parse(signal.as_bytes()), Some(signal));
    }
}

#[test]
fn padding_and_null_bytes_are_ignored() {
    assert_eq!(UpdateSignal::parse(b" UPDATE_START\n"), Some(UpdateSignal::UpdateStart));
    assert_eq!(UpdateSignal::parse(b"UPDATE_END\0\0rest\xff"), Some(UpdateSignal::UpdateEnd));
}

#[test]
fn other_datagrams_carry_no_signal() {
    assert_eq!(UpdateSignal::parse(b""), None);
    assert_eq!(UpdateSignal::parse(b"\0UPDATE_START"), None);
    assert_eq!(UpdateSignal::parse(b"update_start"), None);
    assert_eq!(UpdateSignal::parse(b"UPDATE_START UPDATE_END"), None);
    assert_eq!(UpdateSignal::parse(b"\xffUPDATE_START"), None);
}
