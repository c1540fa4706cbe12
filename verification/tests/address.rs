use websmq::address::broker_url;

#[test]
fn broker_url_of_an_absolute_url() {
    assert_eq!(broker_url("ws://localhost:8080").unwrap(), "ws://localhost:8080/");
    assert_eq!(broker_url("ws://127.0.0.1:9001/path").unwrap(), "ws://127.0.0.1:9001/path");
}

#[test]
fn broker_url_refuses_a_relative_address() {
    assert_eq!(broker_url("no scheme here").unwrap_err(), url::ParseError::RelativeUrlWithoutBase);
    assert_eq!(broker_url("").unwrap_err(), url::ParseError::RelativeUrlWithoutBase);
}
