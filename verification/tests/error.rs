use nt_client::client_config::ReconnectPolicy;
use nt_client::error::{decimal_string, Error};

#[test]
fn errors_say_what_they_are() {
    assert_eq!(Error::Tungstenite("reset".to_string()).to_string(), "Websocket error: reset");
    assert_eq!(Error::SerdeJson("eof".to_string()).to_string(), "Json error: eof");
    assert_eq!(Error::Io("denied".to_string()).to_string(), "IO error: denied");
    assert_eq!(Error::Closed.to_string(), "Server Unexpectedly Closed");
    assert_eq!(Error::RmpError("depth".to_string()).to_string(), "MsgPack Error: depth");
    assert_eq!(Error::ConnectTimeout.to_string(), "Timed out connecting to server");
    assert_eq!(
        Error::InvalidMessageType("x").to_string(),
        "Server responeded with an invalid type of message"
    );
    assert_eq!(Error::InvalidMessageNumber(21).to_string(), "Invalid message type number: 21");
    assert_eq!(
        Error::InvalidMessageString("bo\"ol".to_string()).to_string(),
        "Invalid message type string: \"bo\\\"ol\""
    );
    assert_eq!(Error::Idk.to_string(), "Unknown Error occured.");
}

#[test]
fn numbers_are_written_in_decimal() {
    for n in [0u64, 1, 9, 10, 11, 99, 100, 12345, u64::MAX] {
        assert_eq!(decimal_string(n), format!("{}", n));
    }
}

#[test]
fn the_wait_doubles_up_to_its_bound() {
    let p = ReconnectPolicy { enabled: true, min_backoff: 100, max_backoff: 1000 };
    let waits: Vec<u64> = (0..7).map(|i| p.delay(i).unwrap()).collect();
    assert_eq!(waits, vec![100, 200, 400, 800, 1000, 1000, 1000]);
    assert_eq!(p.delay(u32::MAX), Some(1000));
}

#[test]
fn the_wait_has_edge_cases() {
    let off = ReconnectPolicy { enabled: false, min_backoff: 100, max_backoff: 1000 };
    assert_eq!(off.delay(0), None);
    assert_eq!(off.delay(3), None);
    let zero = ReconnectPolicy { enabled: true, min_backoff: 0, max_backoff: 1000 };
    assert_eq!(zero.delay(0), Some(0));
    assert_eq!(zero.delay(1000), Some(0));
    let crossed = ReconnectPolicy { enabled: true, min_backoff: 500, max_backoff: 100 };
    assert_eq!(crossed.delay(0), Some(500));
    assert_eq!(crossed.delay(5), Some(500));
    let wide = ReconnectPolicy { enabled: true, min_backoff: 1, max_backoff: u64::MAX };
    assert_eq!(wide.delay(10), Some(1024));
    assert_eq!(wide.delay(63), Some(1 << 63));
    assert_eq!(wide.delay(64), Some(u64::MAX));
    let same = ReconnectPolicy { enabled: true, min_backoff: 7, max_backoff: 7 };
    assert_eq!(same.delay(0), Some(7));
    assert_eq!(same.delay(9), Some(7));
}
