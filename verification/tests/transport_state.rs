use splice_core::geometry::PIXEL;
use splice_core::input::{
    keyboard_code, InputEvent, InputMode, PointerButton, RawEvent, RawReport,
};
use splice_core::input_transport::desktop::LinkError;
use splice_core::input_transport::packets::SendError;
use splice_core::input_transport::receiver::Receiver;
use splice_core::input_transport::sender::Sender;
use splice_core::input_transport::state::{
    Delivery, Events, InputError, Position, Totals, Transition, Update, MAX_TRANSITIONS,
};

fn px(value: f64) -> i64 {
    (value * PIXEL as f64) as i64
}

fn raw_totals(totals: (i64, i64, i64, i64)) -> Totals {
    Totals::Raw { x: totals.0, y: totals.1, wheel_x: totals.2, wheel_y: totals.3 }
}

fn desktop_totals(totals: (f64, f64, f64, f64, i64, i64)) -> Totals {
    Totals::Desktop {
        x: px(totals.0),
        y: px(totals.1),
        scroll_x: px(totals.2),
        scroll_y: px(totals.3),
        wheel_x: totals.4,
        wheel_y: totals.5,
    }
}


fn report(sequence: u64, captured_us: u64, events: Vec<RawEvent>) -> RawReport {
    RawReport {
        device: 1,
        sequence,
        captured_us,
        events,
    }
}

fn update(sender: &Sender) -> Update {
    Update {
        position: sender.position().unwrap().clone(),
        transitions: sender.pending().iter().cloned().collect(),
    }
}

fn raw_events(deliveries: &[Delivery]) -> Vec<RawEvent> {
    deliveries
        .iter()
        .flat_map(|delivery| match &delivery.events {
            Events::Raw(events) => events.clone(),
            Events::Desktop(_) => panic!(),
        })
        .collect()
}

fn desktop_events(deliveries: &[Delivery]) -> Vec<InputEvent> {
    deliveries
        .iter()
        .flat_map(|delivery| match &delivery.events {
            Events::Desktop(events) => events.clone(),
            Events::Raw(_) => panic!(),
        })
        .collect()
}

#[test]
fn raw_motion_keeps_counts_and_native_report_cadence() {
    let mut sender = Sender::new(InputMode::Raw);
    let mut receiver = Receiver::new(InputMode::Raw);
    let mut deliveries = Vec::new();
    for sequence in 0..3 {
        sender
            .push_raw(&report(
                sequence,
                100 + sequence,
                vec![
                    RawEvent::Motion {
                        x: 10 + sequence as i32,
                        y: -4,
                    },
                    RawEvent::Wheel { x120: 2, y120: -3 },
                ],
            ))
            .unwrap();
        deliveries.extend(receiver.receive(update(&sender)).unwrap());
    }
    assert_eq!(deliveries.len(), 3);
    assert_eq!(
        deliveries
            .iter()
            .map(|delivery| delivery.captured_us)
            .collect::<Vec<_>>(),
        vec![100, 101, 102]
    );
    assert_eq!(
        raw_events(&deliveries),
        vec![
            RawEvent::Motion { x: 10, y: -4 },
            RawEvent::Wheel { x120: 2, y120: -3 },
            RawEvent::Motion { x: 11, y: -4 },
            RawEvent::Wheel { x120: 2, y120: -3 },
            RawEvent::Motion { x: 12, y: -4 },
            RawEvent::Wheel { x120: 2, y120: -3 }
        ]
    );
}

#[test]
fn lost_reordered_and_duplicated_motion_recovers_from_totals() {
    let mut sender = Sender::new(InputMode::Raw);
    let mut updates = Vec::new();
    for sequence in 0..5 {
        sender
            .push_raw(&report(
                sequence,
                1000 + sequence,
                vec![RawEvent::Motion { x: 7, y: -11 }],
            ))
            .unwrap();
        updates.push(update(&sender));
    }
    let mut receiver = Receiver::new(InputMode::Raw);
    let newest = receiver.receive(updates[4].clone()).unwrap();
    assert_eq!(
        raw_events(&newest),
        vec![RawEvent::Motion { x: 35, y: -55 }]
    );
    assert!(receiver.receive(updates[1].clone()).unwrap().is_empty());
    assert!(receiver.receive(updates[4].clone()).unwrap().is_empty());
}

#[test]
fn fast_taps_survive_lost_motion_packets_and_duplicate_journal_chunks() {
    let mut sender = Sender::new(InputMode::Raw);
    sender
        .push_raw(&report(0, 10, vec![RawEvent::Motion { x: 5, y: 0 }]))
        .unwrap();
    for sequence in 1..=20 {
        sender
            .push_raw(&report(
                sequence,
                10 + sequence,
                vec![RawEvent::Key {
                    code: 30,
                    pressed: sequence % 2 == 1,
                }],
            ))
            .unwrap();
    }
    sender
        .push_raw(&report(21, 40, vec![RawEvent::Motion { x: 9, y: 0 }]))
        .unwrap();
    let full = update(&sender);
    let mut receiver = Receiver::new(InputMode::Raw);
    let first = receiver.receive(full.clone()).unwrap();
    assert_eq!(
        raw_events(&first)
            .iter()
            .filter(|event| matches!(event, RawEvent::Key { .. }))
            .count(),
        20
    );
    assert_eq!(
        raw_events(&first)
            .iter()
            .filter_map(|event| match event {
                RawEvent::Motion { x, .. } => Some(*x),
                _ => None,
            })
            .sum::<i32>(),
        14
    );
    assert!(receiver.receive(full).unwrap().is_empty());
}

#[test]
fn missing_edge_barrier_holds_motion_until_edge_arrives() {
    let mut sender = Sender::new(InputMode::Raw);
    sender
        .push_raw(&report(
            0,
            10,
            vec![
                RawEvent::Motion { x: 4, y: 0 },
                RawEvent::Button {
                    number: 1,
                    pressed: true,
                },
            ],
        ))
        .unwrap();
    sender
        .push_raw(&report(1, 20, vec![RawEvent::Motion { x: 8, y: 0 }]))
        .unwrap();
    let mut blocked = update(&sender);
    let edge = blocked.transitions.remove(0);
    let mut receiver = Receiver::new(InputMode::Raw);
    assert!(receiver.receive(blocked).unwrap().is_empty());
    let recovered = receiver
        .receive(Update {
            position: sender.position().unwrap().clone(),
            transitions: vec![edge],
        })
        .unwrap();
    assert_eq!(
        raw_events(&recovered),
        vec![
            RawEvent::Motion { x: 4, y: 0 },
            RawEvent::Button {
                number: 1,
                pressed: true
            },
            RawEvent::Motion { x: 8, y: 0 }
        ]
    );
    assert_eq!(receiver.next_transition(), 1);
}

#[test]
fn reordered_edges_buffer_until_the_gap_is_filled() {
    let mut sender = Sender::new(InputMode::Raw);
    for (sequence, number) in [(0, 1), (1, 2)] {
        sender
            .push_raw(&report(
                sequence,
                50 + sequence,
                vec![RawEvent::Button {
                    number,
                    pressed: true,
                }],
            ))
            .unwrap();
    }
    let position = sender.position().unwrap().clone();
    let first = sender.pending()[0].clone();
    let second = sender.pending()[1].clone();
    let mut receiver = Receiver::new(InputMode::Raw);
    assert!(receiver
        .receive(Update {
            position: position.clone(),
            transitions: vec![second],
        })
        .unwrap()
        .is_empty());
    assert_eq!(
        raw_events(
            &receiver
                .receive(Update {
                    position,
                    transitions: vec![first],
                })
                .unwrap()
        ),
        vec![
            RawEvent::Button {
                number: 1,
                pressed: true
            },
            RawEvent::Button {
                number: 2,
                pressed: true
            }
        ]
    );
}

#[test]
fn multiple_edges_in_one_report_keep_event_and_motion_order() {
    let mut sender = Sender::new(InputMode::Raw);
    sender
        .push_raw(&report(
            0,
            77,
            vec![
                RawEvent::Motion { x: 2, y: 3 },
                RawEvent::Key {
                    code: 30,
                    pressed: true,
                },
                RawEvent::Motion { x: 5, y: 7 },
                RawEvent::Button {
                    number: 2,
                    pressed: true,
                },
                RawEvent::Key {
                    code: 30,
                    pressed: false,
                },
            ],
        ))
        .unwrap();
    let mut receiver = Receiver::new(InputMode::Raw);
    let deliveries = receiver.receive(update(&sender)).unwrap();
    assert_eq!(deliveries.len(), 1);
    assert_eq!(deliveries[0].captured_us, 77);
    assert_eq!(
        raw_events(&deliveries),
        vec![
            RawEvent::Motion { x: 2, y: 3 },
            RawEvent::Key {
                code: 30,
                pressed: true
            },
            RawEvent::Motion { x: 5, y: 7 },
            RawEvent::Button {
                number: 2,
                pressed: true
            },
            RawEvent::Key {
                code: 30,
                pressed: false
            }
        ]
    );
}

#[test]
fn device_union_and_removal_emit_only_global_edges() {
    let mut sender = Sender::new(InputMode::Raw);
    sender
        .push_raw(&report(
            0,
            1,
            vec![RawEvent::Key {
                code: 42,
                pressed: true,
            }],
        ))
        .unwrap();
    let mut second = report(
        1,
        2,
        vec![RawEvent::Key {
            code: 42,
            pressed: true,
        }],
    );
    second.device = 2;
    sender.push_raw(&second).unwrap();
    let mut remove_first = report(2, 3, vec![RawEvent::Removed]);
    remove_first.device = 1;
    sender.push_raw(&remove_first).unwrap();
    let mut remove_second = report(3, 4, vec![RawEvent::Removed]);
    remove_second.device = 2;
    sender.push_raw(&remove_second).unwrap();
    assert_eq!(sender.pending().len(), 2);
    assert_eq!(
        sender
            .pending()
            .iter()
            .map(|transition| transition.event)
            .collect::<Vec<_>>(),
        vec![
            InputEvent::Key {
                code: 42,
                pressed: true
            },
            InputEvent::Key {
                code: 42,
                pressed: false
            }
        ]
    );
}

#[test]
fn old_ack_is_harmless_and_future_ack_is_rejected() {
    let mut sender = Sender::new(InputMode::Desktop);
    for pressed in [true, false, true] {
        sender
            .push_desktop(InputEvent::Key { code: 30, pressed }, 1)
            .unwrap();
    }
    sender.acknowledge(2).unwrap();
    assert_eq!(sender.pending().front().unwrap().id, 2);
    sender.acknowledge(1).unwrap();
    assert_eq!(sender.pending().front().unwrap().id, 2);
    assert!(sender.acknowledge(4).is_err());
    assert_eq!(sender.pending().front().unwrap().id, 2);
}

#[test]
fn pending_and_receive_windows_are_bounded() {
    let mut sender = Sender::new(InputMode::Desktop);
    for index in 0..MAX_TRANSITIONS {
        sender
            .push_desktop(
                InputEvent::Key {
                    code: 30,
                    pressed: index % 2 == 0,
                },
                index as u64,
            )
            .unwrap();
    }
    assert!(sender
        .push_desktop(
            InputEvent::Key {
                code: 30,
                pressed: true
            },
            9
        )
        .is_err());
    sender
        .push_desktop(InputEvent::Motion { dx: px(1.0), dy: px(2.0) }, 10)
        .unwrap();
    let mut oversized = update(&sender);
    oversized.position.barrier += 1;
    let mut receiver = Receiver::new(InputMode::Desktop);
    assert!(receiver.receive(oversized).is_err());
}

#[test]
fn checked_totals_and_serials_reject_overflow_without_advancing() {
    let mut sender = Sender::new(InputMode::Raw);
    sender.position = Some(Position {
        serial: 4,
        captured_us: 1,
        totals: Totals::Raw {
            x: i64::MAX,
            y: 0,
            wheel_x: 0,
            wheel_y: 0,
        },
        barrier: 0,
    });
    sender.serial = 4;
    assert!(sender
        .push_raw(&report(0, 2, vec![RawEvent::Motion { x: 1, y: 0 }]))
        .is_err());
    assert_eq!(sender.serial, 4);
    sender.serial = u64::MAX;
    assert!(sender
        .push_raw(&report(0, 2, vec![RawEvent::Motion { x: 0, y: 1 }]))
        .is_err());

    let mut desktop = Sender::new(InputMode::Desktop);
    desktop.next_transition = u64::MAX;
    assert!(desktop
        .push_desktop(
            InputEvent::Key {
                code: 30,
                pressed: true
            },
            3
        )
        .is_err());
    assert!(desktop.position().is_none());
}

#[test]
fn desktop_fractional_motion_scroll_and_buttons_round_trip() {
    let mut sender = Sender::new(InputMode::Desktop);
    let events = [
        InputEvent::Motion { dx: px(0.25), dy: px(-1.5) },
        InputEvent::ScrollPixels { dx: px(1.75), dy: px(2.5) },
        InputEvent::Button {
            button: PointerButton::Other(17),
            pressed: true,
        },
        InputEvent::Motion { dx: px(3.5), dy: px(0.5) },
    ];
    for (index, event) in events.into_iter().enumerate() {
        sender.push_desktop(event, 100 + index as u64).unwrap();
    }
    let mut receiver = Receiver::new(InputMode::Desktop);
    let deliveries = receiver.receive(update(&sender)).unwrap();
    assert_eq!(
        deliveries,
        vec![
            Delivery {
                captured_us: 102,
                events: Events::Desktop(vec![
                    InputEvent::Motion { dx: px(0.25), dy: px(-1.5) },
                    InputEvent::ScrollPixels { dx: px(1.75), dy: px(2.5) },
                    InputEvent::Button {
                        button: PointerButton::Other(17),
                        pressed: true
                    }
                ])
            },
            Delivery {
                captured_us: 103,
                events: Events::Desktop(vec![InputEvent::Motion { dx: px(3.5), dy: px(0.5) }])
            }
        ]
    );
}

#[test]
fn desktop_discrete_wheel_recovers_from_lost_and_reordered_updates() {
    let mut sender = Sender::new(InputMode::Desktop);
    sender
        .push_desktop(InputEvent::Scroll120 { dx: 30, dy: -120 }, 10)
        .unwrap();
    let old = update(&sender);
    sender
        .push_desktop(InputEvent::Scroll120 { dx: 90, dy: -240 }, 20)
        .unwrap();
    let latest = update(&sender);
    assert_eq!(
        sender.position().unwrap().totals,
        Totals::Desktop {
            x: 0,
            y: 0,
            scroll_x: 0,
            scroll_y: 0,
            wheel_x: 120,
            wheel_y: -360,
        }
    );

    let mut receiver = Receiver::new(InputMode::Desktop);
    assert_eq!(
        receiver.receive(latest.clone()).unwrap(),
        vec![Delivery {
            captured_us: 20,
            events: Events::Desktop(vec![InputEvent::Scroll120 { dx: 120, dy: -360 }]),
        }]
    );
    assert!(receiver.receive(old).unwrap().is_empty());
    assert!(receiver.receive(latest).unwrap().is_empty());
}

#[test]
fn desktop_stop_orders_smooth_scroll_before_later_motion_and_scroll() {
    let mut sender = Sender::new(InputMode::Desktop);
    sender
        .push_desktop(InputEvent::ScrollPixels { dx: px(1.25), dy: px(-2.5) }, 10)
        .unwrap();
    sender
        .push_desktop(InputEvent::ScrollStop { cancel: true }, 20)
        .unwrap();
    sender
        .push_desktop(InputEvent::Motion { dx: px(3.5), dy: px(-4.5) }, 30)
        .unwrap();
    sender
        .push_desktop(InputEvent::ScrollPixels { dx: px(5.25), dy: px(6.5) }, 40)
        .unwrap();
    sender
        .push_desktop(InputEvent::Scroll120 { dx: -120, dy: 240 }, 50)
        .unwrap();

    let mut blocked = update(&sender);
    let stop = blocked.transitions.remove(0);
    let mut receiver = Receiver::new(InputMode::Desktop);
    assert!(receiver.receive(blocked).unwrap().is_empty());

    let complete = Update {
        position: sender.position().unwrap().clone(),
        transitions: vec![stop],
    };
    let deliveries = receiver.receive(complete.clone()).unwrap();
    assert_eq!(deliveries.len(), 2);
    assert_eq!(deliveries[0].captured_us, 20);
    assert_eq!(deliveries[1].captured_us, 50);
    assert_eq!(
        desktop_events(&deliveries),
        vec![
            InputEvent::ScrollPixels { dx: px(1.25), dy: px(-2.5) },
            InputEvent::ScrollStop { cancel: true },
            InputEvent::Motion { dx: px(3.5), dy: px(-4.5) },
            InputEvent::ScrollPixels { dx: px(5.25), dy: px(6.5) },
            InputEvent::Scroll120 { dx: -120, dy: 240 },
        ]
    );
    assert!(receiver.receive(complete).unwrap().is_empty());
}

#[test]
fn duplicate_desktop_stops_are_distinct_edges_and_retransmits_dedupe() {
    let mut sender = Sender::new(InputMode::Desktop);
    sender
        .push_desktop(InputEvent::ScrollStop { cancel: false }, 1)
        .unwrap();
    sender
        .push_desktop(InputEvent::ScrollStop { cancel: false }, 2)
        .unwrap();
    assert_eq!(sender.pending().len(), 2);
    assert_eq!(sender.pending()[0].id, 0);
    assert_eq!(sender.pending()[1].id, 1);

    let update = update(&sender);
    let mut receiver = Receiver::new(InputMode::Desktop);
    assert_eq!(
        desktop_events(&receiver.receive(update.clone()).unwrap()),
        vec![
            InputEvent::ScrollStop { cancel: false },
            InputEvent::ScrollStop { cancel: false },
        ]
    );
    assert!(receiver.receive(update).unwrap().is_empty());
}

#[test]
fn desktop_discrete_wheel_checks_totals_and_splits_receiver_deltas() {
    let mut sender = Sender::new(InputMode::Desktop);
    sender.position = Some(Position {
        serial: 7,
        captured_us: 1,
        totals: desktop_totals((0.0, 0.0, 0.0, 0.0, i64::MAX, i64::MIN)),
        barrier: 0,
    });
    sender.serial = 7;
    assert!(sender
        .push_desktop(InputEvent::Scroll120 { dx: 1, dy: 0 }, 2)
        .is_err());
    assert!(sender
        .push_desktop(InputEvent::Scroll120 { dx: 0, dy: -1 }, 2)
        .is_err());
    assert_eq!(sender.position().unwrap().serial, 7);

    let position = Position {
        serial: 1,
        captured_us: 9,
        totals: desktop_totals((
            0.0,
            0.0,
            0.0,
            0.0,
            i64::from(i32::MAX) + 1,
            i64::from(i32::MIN) - 1,
        )),
        barrier: 0,
    };
    let mut receiver = Receiver::new(InputMode::Desktop);
    assert_eq!(
        desktop_events(
            &receiver
                .receive(Update {
                    position,
                    transitions: vec![],
                })
                .unwrap()
        ),
        vec![
            InputEvent::Scroll120 {
                dx: i32::MAX,
                dy: i32::MIN,
            },
            InputEvent::Scroll120 { dx: 1, dy: -1 },
        ]
    );
}

#[test]
fn maximum_supported_raw_keys_and_buttons_are_not_capped_at_sixty_four() {
    let mut sender = Sender::new(InputMode::Raw);
    let mut events = (1..=0x2bf)
        .filter(|code| keyboard_code(*code))
        .map(|code| RawEvent::Key {
            code,
            pressed: true,
        })
        .collect::<Vec<_>>();
    events.extend((1..=8).map(|number| RawEvent::Button {
        number,
        pressed: true,
    }));
    sender.push_raw(&report(0, 1, events)).unwrap();
    assert_eq!(sender.pending().len(), 615);
    let mut receiver = Receiver::new(InputMode::Raw);
    let delivered = raw_events(&receiver.receive(update(&sender)).unwrap());
    assert_eq!(delivered.len(), 615);
    assert!(delivered.contains(&RawEvent::Key {
        code: 0x2bf,
        pressed: true
    }));
    assert!(delivered.contains(&RawEvent::Button {
        number: 8,
        pressed: true
    }));
}

#[test]
fn extreme_raw_cumulative_delta_splits_into_i32_events() {
    let position = Position {
        serial: 1,
        captured_us: 9,
        totals: Totals::Raw {
            x: i64::from(i32::MAX) + 1,
            y: i64::from(i32::MIN) - 1,
            wheel_x: i64::from(i32::MAX) * 2,
            wheel_y: i64::from(i32::MIN) * 2,
        },
        barrier: 0,
    };
    let mut receiver = Receiver::new(InputMode::Raw);
    let events = raw_events(
        &receiver
            .receive(Update {
                position,
                transitions: vec![],
            })
            .unwrap(),
    );
    assert_eq!(
        events,
        vec![
            RawEvent::Motion {
                x: i32::MAX,
                y: i32::MIN
            },
            RawEvent::Motion { x: 1, y: -1 },
            RawEvent::Wheel {
                x120: i32::MAX,
                y120: i32::MIN
            },
            RawEvent::Wheel {
                x120: i32::MAX,
                y120: i32::MIN
            }
        ]
    );
}

#[test]
fn receiver_rejects_wrong_modes_edges_and_conflicting_history() {
    let mut receiver = Receiver::new(InputMode::Raw);
    let wrong_mode = Update {
        position: Position {
            serial: 1,
            captured_us: 1,
            totals: desktop_totals((0.0, 0.0, 0.0, 0.0, 0, 0)),
            barrier: 0,
        },
        transitions: vec![],
    };
    assert!(receiver.receive(wrong_mode).is_err());

    let position = Position {
        serial: 1,
        captured_us: 1,
        totals: raw_totals((0, 0, 0, 0)),
        barrier: 2,
    };
    let future = Transition {
        id: 1,
        position: Position {
            barrier: 1,
            ..position.clone()
        },
        event: InputEvent::Key {
            code: 30,
            pressed: true,
        },
    };
    receiver
        .receive(Update {
            position: position.clone(),
            transitions: vec![future.clone()],
        })
        .unwrap();
    let mut conflicting = future;
    conflicting.event = InputEvent::Key {
        code: 31,
        pressed: true,
    };
    assert!(receiver
        .receive(Update {
            position,
            transitions: vec![conflicting],
        })
        .is_err());

    let mut sender = Sender::new(InputMode::Raw);
    sender
        .push_raw(&report(
            0,
            4,
            vec![RawEvent::Key {
                code: 30,
                pressed: true,
            }],
        ))
        .unwrap();
    let valid = update(&sender);
    let mut receiver = Receiver::new(InputMode::Raw);
    receiver.receive(valid.clone()).unwrap();
    let mut altered = valid;
    altered.transitions[0].event = InputEvent::Key {
        code: 31,
        pressed: true,
    };
    assert!(receiver.receive(altered).is_err());
}

#[test]
fn reordered_old_positions_do_not_rollback_motion() {
    let mut sender = Sender::new(InputMode::Raw);
    sender
        .push_raw(&report(0, 1, vec![RawEvent::Motion { x: 5, y: 0 }]))
        .unwrap();
    let old = update(&sender);
    sender
        .push_raw(&report(1, 2, vec![RawEvent::Motion { x: 7, y: 0 }]))
        .unwrap();
    let new = update(&sender);
    let mut receiver = Receiver::new(InputMode::Raw);
    assert_eq!(
        raw_events(&receiver.receive(new).unwrap()),
        vec![RawEvent::Motion { x: 12, y: 0 }]
    );
    assert!(receiver.receive(old).unwrap().is_empty());
}

#[test]
fn each_fault_of_an_update_has_its_name() {
    let mut sender = Sender::new(InputMode::Raw);
    let desktop = sender.push_desktop(InputEvent::Motion { dx: 1, dy: 1 }, 1);
    assert_eq!(desktop, Err(InputError::DesktopInRawMode));
    assert_eq!(desktop.unwrap_err().text(), "desktop event in raw input mode");
    let raw = Sender::new(InputMode::Desktop)
        .push_raw(&report(0, 1, vec![RawEvent::Motion { x: 1, y: 1 }]));
    assert_eq!(raw.unwrap_err().text(), "raw report in desktop input mode");
    let invalid = report(0, 1, vec![RawEvent::Button { number: 9, pressed: true }]);
    assert_eq!(sender.push_raw(&invalid), Err(InputError::InvalidReport));
    assert_eq!(sender.acknowledge(1), Err(InputError::AcknowledgementAhead));

    let mut receiver = Receiver::new(InputMode::Raw);
    let position = Position { serial: 0, captured_us: 0, totals: raw_totals((0, 0, 0, 0)), barrier: 0 };
    let zero = receiver.receive(Update { position, transitions: vec![] });
    assert_eq!(zero.unwrap_err(), InputError::ZeroSerial);
    let position = Position { serial: 1, barrier: MAX_TRANSITIONS as u64 + 1, ..position };
    let beyond = receiver.receive(Update { position, transitions: vec![] });
    assert_eq!(beyond.unwrap_err(), InputError::PositionBeyondWindow);
    let position = Position { barrier: 1, ..position };
    let event = InputEvent::Motion { dx: 1, dy: 1 };
    let motion = Transition { id: 0, position: Position { barrier: 0, ..position }, event };
    let not_an_edge = receiver.receive(Update { position, transitions: vec![motion] });
    assert_eq!(not_an_edge.unwrap_err(), InputError::NotAnEdge);
    let event = InputEvent::Key { code: 0x100, pressed: true };
    let key = Transition { id: 0, position: Position { barrier: 0, ..position }, event };
    let no_key = receiver.receive(Update { position, transitions: vec![key] });
    assert_eq!(no_key.unwrap_err(), InputError::InvalidRawKey);
    let far = Position { serial: 2, totals: raw_totals((i64::MAX, 0, 0, 0)), ..position };
    let far = receiver.receive(Update { position: Position { barrier: 0, ..far }, transitions: vec![] });
    assert_eq!(
        far.unwrap_err().text(),
        "raw cumulative delta exceeds the delivery limit"
    );
    assert_eq!(
        LinkError::Send(SendError::Overdue).text(),
        "input transitions exceeded the 750 ms delivery limit"
    );
    assert_eq!(LinkError::Input(InputError::ZeroSerial).text(), "position serial must be nonzero");
    assert_eq!(LinkError::EndedTwice.text(), "desktop session ended twice");
}

#[test]
fn any_update_ever_sent_is_taken() {
    let mut sender = Sender::new(InputMode::Raw);
    let mut updates = Vec::new();
    for sequence in 0..6 {
        sender
            .push_raw(&report(
                sequence,
                10 + sequence,
                vec![
                    RawEvent::Motion { x: 3, y: 1 },
                    RawEvent::Key { code: 30, pressed: sequence % 2 == 0 },
                ],
            ))
            .unwrap();
        updates.push(update(&sender));
    }
    let mut receiver = Receiver::new(InputMode::Raw);
    let mut deliveries = Vec::new();
    for index in [3, 0, 3, 5, 1, 4, 2, 5, 0] {
        deliveries.extend(receiver.receive(updates[index].clone()).unwrap());
        sender.acknowledge(receiver.next_transition()).unwrap();
    }
    let mut expected = Vec::new();
    for sequence in 0..6 {
        expected.push(RawEvent::Motion { x: 3, y: 1 });
        expected.push(RawEvent::Key { code: 30, pressed: sequence % 2 == 0 });
    }
    assert_eq!(raw_events(&deliveries), expected);
    assert!(sender.pending().is_empty());
    for update in updates {
        assert_eq!(receiver.receive(update).unwrap().len(), 0);
        assert_eq!(receiver.next_transition(), 6);
    }
}
