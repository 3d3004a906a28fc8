use splice_core::input::InputEvent;
use splice_core::input_transport::desktop::Link;
use splice_core::input_transport::socket::{
    frame, read_frame, ticket_tokens, token as draw_token, token_of_draw, Address, Ip, Probe,
    Routes,
};

const HERE: Address = Address { ip: Ip::V4(0x7f00_0001), port: 1000 };
const FOREIGN: Address = Address { ip: Ip::V4(0x7f00_0001), port: 2000 };

fn token(byte: u8) -> u128 {
    u128::from_be_bytes([byte; 16])
}

#[test]
fn delayed_ack_after_target_departure_cannot_revive_or_disconnect_the_session() {
    let mut link = Link::new(0);
    assert_eq!(link.start(1, 0), Ok(()));
    let key = InputEvent::Key { code: 42, pressed: true };
    assert!(link.input(1, key, 0, 0).is_ok());
    link.abandon(1);
    assert!(link.acknowledged(1, 1, 2, 10, 20_000).is_ok());
    assert!(link.finish(1, 5).is_ok());
}

#[test]
fn tokens_addresses_and_datagram_size_are_checked_before_delivery() {
    let mut routes = Routes::new();
    routes.subscribe(token(4), HERE).unwrap();
    let packet = vec![0, 123];
    let valid = frame(HERE, token(4), &packet).unwrap();
    assert_eq!(&valid[..4], b"SPI6");
    assert_eq!(&valid[4..20], &[4; 16]);
    assert_eq!(&valid[20..], &packet[..]);
    let mut wrong_token = valid.clone();
    wrong_token[4] = 9;
    let mut oversized = valid.clone();
    oversized.resize(4000, 0);
    assert_eq!(routes.accept(&valid, FOREIGN), None);
    assert_eq!(routes.accept(&wrong_token, HERE), None);
    assert_eq!(routes.accept(&oversized, HERE), None);
    assert_eq!(routes.accept(&valid[..20].to_vec(), HERE), None);
    assert_eq!(routes.accept(&valid, HERE), Some(token(4)));
    assert_eq!(read_frame(&valid), Some(token(4)));
}

#[test]
fn a_new_authorization_rejects_packets_from_the_previous_connection() {
    let mut routes = Routes::new();
    routes.subscribe(token(1), HERE).unwrap();
    routes.close(token(1));
    routes.subscribe(token(3), HERE).unwrap();
    let stale = frame(HERE, token(1), &vec![0, 1]).unwrap();
    let current = frame(HERE, token(3), &vec![0, 77]).unwrap();
    assert_eq!(routes.accept(&stale, HERE), None);
    assert_eq!(routes.accept(&current, HERE), Some(token(3)));
}

#[test]
fn a_ticket_holds_both_secrets() {
    let mut ticket = vec![1; 16];
    ticket.extend([2; 16]);
    assert_eq!(ticket_tokens(&ticket), Some((token(2), token(1))));
    assert_eq!(ticket_tokens(&vec![1; 31]), None);
}

#[test]
fn four_greetings_have_to_come_back() {
    let mut probe = Probe::new();
    for stamp in 10..14 {
        probe.greeted(stamp);
    }
    assert!(!probe.returned(9));
    for stamp in 10..13 {
        assert!(!probe.returned(stamp));
        assert!(!probe.returned(stamp));
    }
    assert!(probe.returned(13));
}

#[test]
fn a_token_is_what_was_drawn_or_says_why_not() {
    assert_eq!(token_of_draw(Ok(0)), Ok(0));
    assert_eq!(token_of_draw(Ok(7)), Ok(7));
    assert_eq!(
        token_of_draw(Err("no entropy".into())),
        Err("cannot generate input authorization: no entropy".into())
    );
    assert_ne!(draw_token().unwrap(), draw_token().unwrap());
}
