use taskkit::channel::{Channel, RecvPoll, SendError};

#[test]
fn fan_in_yields_every_message_then_ends() {
    let (mut chan, first) = Channel::<String>::new();
    let senders: Vec<_> = (0..3).map(|_| chan.clone_sender(&first)).collect();
    chan.drop_sender(first);
    let mut sent = 0;
    for (k, s) in senders.iter().enumerate() {
        for m in 0..4 {
            assert!(chan.send(s, format!("{k}-{m}")).is_ok());
            sent += 1;
        }
    }
    for s in senders {
        chan.drop_sender(s);
    }
    let got = chan.recv_available();
    assert_eq!(got.len(), sent);
    assert_eq!(got[0], "0-0");
    assert_eq!(got[11], "2-3");
    assert!(matches!(chan.recv(), RecvPoll::Closed));
}

#[test]
fn one_sender_order_is_kept() {
    let (mut chan, a) = Channel::<u32>::new();
    let b = chan.clone_sender(&a);
    assert!(chan.send(&a, 1).is_ok());
    assert!(chan.send(&b, 100).is_ok());
    assert!(chan.send(&a, 2).is_ok());
    assert!(chan.send(&b, 200).is_ok());
    let got = chan.recv_available();
    let from_a: Vec<u32> = got.iter().copied().filter(|m| *m < 100).collect();
    let from_b: Vec<u32> = got.iter().copied().filter(|m| *m >= 100).collect();
    assert_eq!(from_a, vec![1, 2]);
    assert_eq!(from_b, vec![100, 200]);
    // Senders are still live: the receiver waits rather than ending.
    assert!(matches!(chan.recv(), RecvPoll::Waiting));
}

#[test]
fn send_without_receiver_fails_and_returns_message() {
    let (mut chan, s) = Channel::<u32>::new();
    chan.drop_receiver();
    match chan.send(&s, 9) {
        Err(SendError(m)) => assert_eq!(m, 9),
        Ok(()) => panic!("send succeeded with no receiver"),
    }
}

#[test]
fn receiver_waits_while_first_sender_lives() {
    let (mut chan, first) = Channel::<u32>::new();
    let clone = chan.clone_sender(&first);
    assert!(chan.send(&clone, 5).is_ok());
    chan.drop_sender(clone);
    assert!(matches!(chan.recv(), RecvPoll::Message(5)));
    assert!(matches!(chan.recv(), RecvPoll::Waiting));
    assert!(chan.has_senders());
    chan.drop_sender(first);
    assert!(!chan.has_senders());
    assert!(matches!(chan.recv(), RecvPoll::Closed));
}

#[test]
fn message_passing_reverses_every_sentence() {
    let sentences: Vec<Vec<char>> = ["!dlroW wolleH", ".tsurT eW tsuR nI", "!tsuR edoC s'teL", "!tsuB ro tsuR"]
        .iter()
        .map(|s| s.chars().collect())
        .collect();
    let got: Vec<String> = taskkit::channel::message_passing(&sentences)
        .into_iter()
        .map(|v| v.into_iter().collect())
        .collect();
    assert_eq!(got, vec!["Hellow World!", "In Rust We Trust.", "Let's Code Rust!", "Rust or Bust!"]);
    assert!(taskkit::channel::message_passing(&Vec::new()).is_empty());
}
