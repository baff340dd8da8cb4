use starpressure::networking::{
    client_reply, connection_config, ChannelSettings, Channels, ClientGaranteedDataPacket, InputKeys,
    ServerGaranteedDataPacket,
};

#[test]
fn channel_ids() {
    assert_eq!(u8::from(Channels::Fast), 0);
    assert_eq!(u8::from(Channels::Garanteed), 1);
}

#[test]
fn channel_settings() {
    let c = Channels::channels_config();
    assert_eq!(
        c,
        vec![
            ChannelSettings { channel_id: 0, max_memory_usage_bytes: 2 * 1024 * 1024, resend_time_ms: 0 },
            ChannelSettings { channel_id: 1, max_memory_usage_bytes: 2 * 1024 * 1024, resend_time_ms: 200 },
        ]
    );
    let conn = connection_config();
    assert_eq!(conn.available_bytes_per_tick, 2 * 1024 * 1024);
    assert_eq!(conn.client_channels_config, c);
    assert_eq!(conn.server_channels_config, c);
}

#[test]
fn key_directions() {
    let k = InputKeys { up: true, down: false, left: true, right: false };
    assert_eq!(k.direction(), (-1, 1));
    let all = InputKeys { up: true, down: true, left: true, right: true };
    assert_eq!(all.direction(), (0, 0));
    let none = InputKeys { up: false, down: false, left: false, right: false };
    assert_eq!(none.direction(), (0, 0));
    let dr = InputKeys { up: false, down: true, left: false, right: true };
    assert_eq!(dr.direction(), (1, -1));
}

#[test]
fn client_greets_on_connection() {
    match client_reply(&ServerGaranteedDataPacket::Connected) {
        Some(ClientGaranteedDataPacket::Message { text }) => assert_eq!(text, "Halo!"),
        None => panic!("a connected client greets the server"),
    }
    assert!(client_reply(&ServerGaranteedDataPacket::Message { text: String::from("hi") }).is_none());
}

#[test]
fn players_are_remembered() {
    let mut p = starpressure::networking::Players::new();
    assert_eq!(p.on_disconnect(3), None);
    p.on_connect(3, 30);
    p.on_connect(4, 40);
    assert_eq!(p.on_disconnect(3), Some(30));
    // a disconnected client stays recorded
    assert_eq!(p.on_disconnect(3), Some(30));
    p.on_connect(3, 31);
    assert_eq!(p.on_disconnect(3), Some(31));
    assert_eq!(p.on_disconnect(4), Some(40));
}
